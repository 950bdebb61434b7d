//! Addresses of services, and the models that they are asked for.

use vstd::prelude::*;

use crate::laws;
use crate::roundtrip;
use crate::text;

verus! {

/// An address in the form of a URL, by its parts.
pub struct Address {
    pub full: String,
    pub scheme: String,
    pub host: Option<String>,
    pub path: String,
    pub query: Option<String>,
    /// The names and values of the query, decoded.
    pub pairs: Vec<(String, String)>,
}

/// The content of an address.
pub struct Parts {
    pub full: Seq<char>,
    pub scheme: Seq<char>,
    pub host: Option<Seq<char>>,
    pub path: Seq<char>,
    pub query: Option<Seq<char>>,
    pub pairs: Seq<(Seq<char>, Seq<char>)>,
}

/// The content of pairs of strings.
pub open spec fn pairs_of(pairs: Seq<(String, String)>) -> Seq<(Seq<char>, Seq<char>)> {
    Seq::new(pairs.len(), |i: int| (pairs[i].0@, pairs[i].1@))
}

impl View for Address {
    type V = Parts;

    open spec fn view(&self) -> Parts {
        Parts {
            full: self.full@,
            scheme: self.scheme@,
            host: text::opt(self.host),
            path: self.path@,
            query: text::opt(self.query),
            pairs: pairs_of(self.pairs@),
        }
    }
}

/// What `url::Url::parse` reads from a text, taken apart by the accessors of
/// the URL; `None` where it is no URL.
pub uninterp spec fn url_of(s: Seq<char>) -> Option<Parts>;

/// What `url::Url::set_path` makes of the URL that a text gives.
pub uninterp spec fn url_with_path(s: Seq<char>, path: Seq<char>) -> Parts;

/// The text of what `url::Url::join` makes of the URL that a text gives, or
/// the message of its error.
pub uninterp spec fn url_joined(base: Seq<char>, relative: Seq<char>) -> Result<
    Seq<char>,
    Seq<char>,
>;

/// The content of an optional address.
pub open spec fn found(address: Option<Address>) -> Option<Parts> {
    match address {
        Some(address) => Some(address@),
        None => None,
    }
}

/// Reads a URL with `url::Url::parse` and takes it apart with its accessors.
/// The result is named; that the same text gives the same parts is all that is
/// claimed of it.
#[verifier::external_body]
pub(crate) fn parse_url(s: &str) -> (r: Option<Address>)
    ensures
        found(r) == url_of(s@),
{
    let url = url::Url::parse(s).ok()?;
    Some(Address {
        full: url.as_str().to_owned(),
        scheme: url.scheme().to_owned(),
        host: url.host_str().map(str::to_owned),
        path: url.path().to_owned(),
        query: url.query().map(str::to_owned),
        pairs: url.query_pairs().into_owned().collect(),
    })
}

/// The length up to which a text is read as an address. The URL of a longer
/// one might not fit the four gigabytes that `url::Url` can hold.
pub const ADDRESS_LIMIT: usize = 0x1000_0000;

/// Ends the path of the URL that a text gives with a slash, by
/// `url::Url::set_path`. The result is named. A URL that outgrows four
/// gigabytes would stop the program; a text within the limit gives none.
#[verifier::external_body]
fn set_path(s: &str, path: &str) -> (r: Address)
    requires
        url_of(s@) matches Some(parts) && path@ == parts.path + "/"@,
        s@.len() <= ADDRESS_LIMIT,
    ensures
        r@ == url_with_path(s@, path@),
{
    let mut url = url::Url::parse(s).unwrap();
    url.set_path(path);
    Address {
        full: url.as_str().to_owned(),
        scheme: url.scheme().to_owned(),
        host: url.host_str().map(str::to_owned),
        path: url.path().to_owned(),
        query: url.query().map(str::to_owned),
        pairs: url.query_pairs().into_owned().collect(),
    }
}

/// Resolves a relative reference against the URL that a text gives, with
/// `url::Url::join`. The result is named.
#[verifier::external_body]
fn join_url(base: &str, relative: &str) -> (r: Result<String, String>)
    ensures
        text::told(r) == url_joined(base@, relative@),
{
    match url::Url::parse(base).and_then(|url| url.join(relative)) {
        Ok(url) => Ok(url.to_string()),
        Err(error) => Err(error.to_string()),
    }
}

// ---------------------------------------------------------------------------
// Ollama
// ---------------------------------------------------------------------------

/// What is done with an address that was entered for Ollama.
pub enum Entered {
    Refused(Seq<char>),
    /// The address is used as it is.
    Whole(Parts),
    /// The path is given first.
    Open(Seq<char>),
}

/// What is done with an address that was entered for Ollama, given what was
/// read from it.
pub open spec fn entered(read: Option<Parts>) -> Entered {
    match read {
        None => Entered::Refused(
            "Enter a valid Ollama URL, for example http://127.0.0.1:11434"@,
        ),
        Some(parts) => if parts.scheme != "http"@ && parts.scheme != "https"@ {
            Entered::Refused("Ollama must use an http:// or https:// URL."@)
        } else if text::has_suffix(parts.path, "/"@) {
            Entered::Whole(parts)
        } else {
            Entered::Open(parts.path + "/"@)
        },
    }
}

/// The address of Ollama that a text gives.
pub open spec fn ollama_address(value: Seq<char>) -> Result<Parts, Seq<char>> {
    match entered(url_of(text::trimmed(value))) {
        Entered::Refused(message) => Err(message),
        Entered::Whole(parts) => Ok(parts),
        Entered::Open(path) => Ok(url_with_path(text::trimmed(value), path)),
    }
}

/// The content of a result that holds an address.
pub open spec fn reached(r: Result<Address, String>) -> Result<Parts, Seq<char>> {
    match r {
        Ok(address) => Ok(address@),
        Err(message) => Err(message@),
    }
}

/// What the library does with an address that was entered for Ollama.
pub enum Entry {
    Refused(String),
    Whole(Address),
    Open(String),
}

impl View for Entry {
    type V = Entered;

    open spec fn view(&self) -> Entered {
        match *self {
            Entry::Refused(message) => Entered::Refused(message@),
            Entry::Whole(address) => Entered::Whole(address@),
            Entry::Open(path) => Entered::Open(path@),
        }
    }
}

/// Decides what to do with an address that was entered for Ollama, given what
/// was read from it.
pub fn check_address(read: Option<Address>) -> (r: Entry)
    ensures
        r@ == entered(found(read)),
{
    match read {
        None => Entry::Refused(
            "Enter a valid Ollama URL, for example http://127.0.0.1:11434".to_owned(),
        ),
        Some(address) => if !text::same(address.scheme.as_str(), "http") && !text::same(
            address.scheme.as_str(),
            "https",
        ) {
            Entry::Refused("Ollama must use an http:// or https:// URL.".to_owned())
        } else if text::ends_with(address.path.as_str(), "/") {
            Entry::Whole(address)
        } else {
            let mut path: String = address.path;
            path.append("/");
            Entry::Open(path)
        },
    }
}

proof fn lemma_trimmed_is_shorter(s: Seq<char>)
    ensures
        text::trimmed(s).len() <= s.len(),
{
    lemma_leading(s, text::whites());
    lemma_trailing(text::drop_leading(s, text::whites()), text::whites());
}

proof fn lemma_leading(s: Seq<char>, p: spec_fn(char) -> bool)
    ensures
        text::drop_leading(s, p).len() <= s.len(),
    decreases s.len(),
{
    if s.len() > 0 && p(s[0]) {
        lemma_leading(s.skip(1), p);
    }
}

proof fn lemma_trailing(s: Seq<char>, p: spec_fn(char) -> bool)
    ensures
        text::drop_trailing(s, p).len() <= s.len(),
    decreases s.len(),
{
    if s.len() > 0 && p(s.last()) {
        lemma_trailing(s.drop_last(), p);
    }
}

/// Reads the address of Ollama: an `http` or `https` URL, whose path ends with
/// a slash.
pub fn normalize_ollama_url(value: &str) -> (r: Result<Address, String>)
    requires
        value@.len() <= ADDRESS_LIMIT,
    ensures
        reached(r) == ollama_address(value@),
{
    let plain = text::trim(value);
    proof {
        lemma_trimmed_is_shorter(value@);
    }
    match check_address(parse_url(plain.as_str())) {
        Entry::Refused(message) => Err(message),
        Entry::Whole(address) => Ok(address),
        Entry::Open(path) => Ok(set_path(plain.as_str(), path.as_str())),
    }
}

/// The reference of a route of Ollama, relative to an address. An address may
/// name the interface already.
pub open spec fn route_reference(path: Seq<char>, route: Seq<char>) -> Seq<char> {
    if text::has_suffix(text::drop_trailing(path, text::among("/"@)), "/api"@) {
        route
    } else {
        "api/"@ + route
    }
}

/// The reference of a route of Ollama, relative to an address.
pub fn ollama_route(base: &Address, route: &str) -> (r: String)
    ensures
        r@ == route_reference(base@.path, route@),
{
    let path = text::trim_end_matches(base.path.as_str(), "/");
    if text::ends_with(path.as_str(), "/api") {
        route.to_owned()
    } else {
        let mut out: String = "api/".to_owned();
        out.append(route);
        out
    }
}

/// The address of a route of Ollama, or why there is none.
pub open spec fn endpoint(base: Parts, route: Seq<char>) -> Result<Seq<char>, Seq<char>> {
    match url_joined(base.full, route_reference(base.path, route)) {
        Ok(full) => Ok(full),
        Err(message) => Err("Invalid Ollama URL: "@ + message),
    }
}

/// Tells the address of a route of Ollama.
pub fn ollama_endpoint(base: &Address, route: &str) -> (r: Result<String, String>)
    ensures
        text::told(r) == endpoint(base@, route@),
{
    let relative = ollama_route(base, route);
    match join_url(base.full.as_str(), relative.as_str()) {
        Ok(full) => Ok(full),
        Err(message) => {
            let mut out: String = "Invalid Ollama URL: ".to_owned();
            out.append(message.as_str());
            Err(out)
        },
    }
}

/// The name of a model at a host. The host of Ollama itself knows its models
/// without the mark of the cloud.
pub open spec fn model_name(host: Option<Seq<char>>, model: Seq<char>) -> Seq<char> {
    let requested = text::trimmed(model);
    match host {
        Some(host) if text::lower(host) == text::lower("ollama.com"@) => {
            if text::has_suffix(requested, "-cloud"@) {
                requested.take(requested.len() - "-cloud"@.len())
            } else if text::has_suffix(requested, ":cloud"@) {
                requested.take(requested.len() - ":cloud"@.len())
            } else {
                requested
            }
        },
        _ => requested,
    }
}

/// Tells the name of a model at a host.
pub fn model_at(host: Option<&str>, model: &str) -> (r: String)
    ensures
        r@ == model_name(text::opt_str(host), model@),
{
    let requested = text::trim(model);
    match host {
        Some(host) => if text::same_ignoring_case(host, "ollama.com") {
            match text::strip_suffix(requested.as_str(), "-cloud") {
                Some(name) => {
                    return name;
                },
                None => {},
            }
            match text::strip_suffix(requested.as_str(), ":cloud") {
                Some(name) => {
                    return name;
                },
                None => {},
            }
            requested
        } else {
            requested
        },
        None => requested,
    }
}

/// Tells the name of a model at an address.
pub fn model_for_endpoint(base: &Address, model: &str) -> (r: String)
    ensures
        r@ == model_name(base@.host, model@),
{
    match &base.host {
        Some(host) => model_at(Some(host.as_str()), model),
        None => model_at(None, model),
    }
}

/// At the host of Ollama itself a model has one name, whether or not it is
/// given with a mark of the cloud.
pub proof fn law_cloud_aliases_agree(host: Seq<char>, model: Seq<char>)
    requires
        text::lower(host) == text::lower("ollama.com"@),
        model.len() > 0,
        text::trimmed(model) == model,
        !text::has_suffix(model, "-cloud"@),
        !text::has_suffix(model, ":cloud"@),
    ensures
        model_name(Some(host), model) == model,
        model_name(Some(host), model + "-cloud"@) == model,
        model_name(Some(host), model + ":cloud"@) == model,
{
    reveal_strlit("-cloud");
    reveal_strlit(":cloud");
    let dashed = model + "-cloud"@;
    let pointed = model + ":cloud"@;
    let n = model.len() as int;
    roundtrip::lemma_trimmed_ends(model);
    assert(dashed[0] == model[0] && pointed[0] == model[0]);
    assert(dashed.last() == 'd' && pointed.last() == 'd');
    laws::lemma_trimmed_keeps(dashed);
    laws::lemma_trimmed_keeps(pointed);
    assert(dashed.subrange(n, n + 6) =~= "-cloud"@);
    assert(dashed.take(n) =~= model);
    assert(pointed.subrange(n, n + 6) =~= ":cloud"@);
    assert(pointed.take(n) =~= model);
    assert(pointed.subrange(n, n + 6)[0] == ':');
    assert("-cloud"@[0] == '-');
}

} // verus!
