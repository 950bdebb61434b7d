//! JSON documents.

use vstd::prelude::*;

use crate::digits;
use crate::number;
use crate::number::Binary64;
use crate::text;

verus! {

/// A JSON value.
pub enum Json {
    Null,
    Bool(bool),
    /// A number, by its text.
    Number(String),
    Text(String),
    List(Vec<Json>),
    /// The fields of an object; of equal names the first counts.
    Object(Vec<(String, Json)>),
}

/// The content of a JSON value.
pub enum Tree {
    Null,
    Bool(bool),
    Number(Seq<char>),
    Text(Seq<char>),
    List(Seq<Tree>),
    Object(Seq<(Seq<char>, Tree)>),
}

impl Json {
    /// The content of the value.
    pub open spec fn tree(self) -> Tree
        decreases self,
    {
        match self {
            Json::Null => Tree::Null,
            Json::Bool(flag) => Tree::Bool(flag),
            Json::Number(s) => Tree::Number(s@),
            Json::Text(s) => Tree::Text(s@),
            Json::List(items) => Tree::List(
                Seq::new(
                    items@.len(),
                    |i: int|
                        if 0 <= i < items@.len() {
                            items@[i].tree()
                        } else {
                            Tree::Null
                        },
                ),
            ),
            Json::Object(fields) => Tree::Object(
                Seq::new(
                    fields@.len(),
                    |i: int|
                        if 0 <= i < fields@.len() {
                            (fields@[i].0@, fields@[i].1.tree())
                        } else {
                            (Seq::empty(), Tree::Null)
                        },
                ),
            ),
        }
    }
}

#[verifier::external_type_specification]
#[verifier::external_body]
pub struct ExValue(serde_json::Value);

/// What `serde_json::from_slice` reads from bytes: a document, or the message
/// of its error.
pub uninterp spec fn document(bytes: Seq<u8>) -> Result<Tree, Seq<char>>;

/// The content of a result.
pub open spec fn read(json: Result<Json, String>) -> Result<Tree, Seq<char>> {
    match json {
        Ok(json) => Ok(json.tree()),
        Err(message) => Err(message@),
    }
}

/// Carries a `serde_json::Value` over, variant by variant. A number is carried
/// by the text that `serde_json::Number` writes for it.
#[verifier::external_body]
fn from_value(value: serde_json::Value) -> (r: Json)
{
    match value {
        serde_json::Value::Null => Json::Null,
        serde_json::Value::Bool(flag) => Json::Bool(flag),
        serde_json::Value::Number(number) => Json::Number(number.to_string()),
        serde_json::Value::String(text) => Json::Text(text),
        serde_json::Value::Array(items) => Json::List(items.into_iter().map(from_value).collect()),
        serde_json::Value::Object(fields) => Json::Object(
            fields.into_iter().map(|(name, field)| (name, from_value(field))).collect(),
        ),
    }
}

/// Reads a JSON document with `serde_json::from_slice`. The result is named;
/// that the same bytes give the same document, or the same message, is all
/// that is claimed of it.
#[verifier::external_body]
pub(crate) fn parse_json(bytes: &[u8]) -> (r: Result<Json, String>)
    ensures
        read(r) == document(bytes@),
{
    match serde_json::from_slice::<serde_json::Value>(bytes) {
        Ok(value) => Ok(from_value(value)),
        Err(error) => Err(error.to_string()),
    }
}

// ---------------------------------------------------------------------------
// Reading values
// ---------------------------------------------------------------------------

/// The position of the first field of a name from `from` on.
pub open spec fn field_from(fields: Seq<(Seq<char>, Tree)>, name: Seq<char>, from: int) -> Option<Tree>
    decreases fields.len() - from,
{
    if from < 0 || from >= fields.len() {
        None
    } else if fields[from].0 == name {
        Some(fields[from].1)
    } else {
        field_from(fields, name, from + 1)
    }
}

/// The field of an object.
pub open spec fn field(tree: Option<Tree>, name: Seq<char>) -> Option<Tree> {
    match tree {
        Some(Tree::Object(fields)) => field_from(fields, name, 0),
        _ => None,
    }
}

/// The items of a list; none where the value is not a list.
pub open spec fn items(tree: Option<Tree>) -> Seq<Tree> {
    match tree {
        Some(Tree::List(items)) => items,
        _ => Seq::empty(),
    }
}

/// An item of a list.
pub open spec fn item(tree: Option<Tree>, i: int) -> Option<Tree> {
    if 0 <= i < items(tree).len() {
        Some(items(tree)[i])
    } else {
        None
    }
}

/// The text of a value that is one.
pub open spec fn string(tree: Option<Tree>) -> Option<Seq<char>> {
    match tree {
        Some(Tree::Text(s)) => Some(s),
        _ => None,
    }
}

/// The truth value of a value that is one.
pub open spec fn truth(tree: Option<Tree>) -> Option<bool> {
    match tree {
        Some(Tree::Bool(flag)) => Some(flag),
        _ => None,
    }
}

/// The number of a value that is one.
pub open spec fn numeric(tree: Option<Tree>) -> Option<Binary64> {
    match tree {
        Some(Tree::Number(s)) => number::parsed(s),
        _ => None,
    }
}

/// The integer of a value that is one from zero on.
pub open spec fn count(tree: Option<Tree>) -> Option<nat> {
    match tree {
        Some(Tree::Number(s)) => digits::unsigned(s, u64::MAX as nat),
        _ => None,
    }
}

/// The content of an optional value.
pub open spec fn seen(json: Option<&Json>) -> Option<Tree> {
    match json {
        Some(json) => Some(json.tree()),
        None => None,
    }
}

/// Reads a field of an object.
pub fn get<'a>(json: Option<&'a Json>, name: &str) -> (r: Option<&'a Json>)
    ensures
        seen(r) == field(seen(json), name@),
{
    match json {
        Some(Json::Object(fields)) => {
            let ghost all = json->0.tree()->Object_0;
            let mut i: usize = 0;
            while i < fields.len()
                invariant
                    i <= fields@.len(),
                    seen(json) == Some(Tree::Object(all)),
                    all.len() == fields@.len(),
                    forall|j: int|
                        0 <= j < all.len() ==> #[trigger] all[j] == (
                            fields@[j].0@,
                            fields@[j].1.tree(),
                        ),
                    field_from(all, name@, i as int) == field_from(all, name@, 0),
                decreases fields@.len() - i,
            {
                if text::same(fields[i].0.as_str(), name) {
                    return Some(&fields[i].1);
                }
                i += 1;
            }
            None
        },
        _ => None,
    }
}

/// Reads the length of a list, zero where the value is not a list.
pub fn list_len(json: Option<&Json>) -> (r: usize)
    ensures
        r == items(seen(json)).len(),
{
    match json {
        Some(Json::List(items)) => items.len(),
        _ => 0,
    }
}

/// Reads an item of a list.
pub fn nth<'a>(json: Option<&'a Json>, i: usize) -> (r: Option<&'a Json>)
    ensures
        seen(r) == item(seen(json), i as int),
{
    match json {
        Some(Json::List(items)) => if i < items.len() {
            Some(&items[i])
        } else {
            None
        },
        _ => None,
    }
}

/// Reads a text.
pub fn as_text(json: Option<&Json>) -> (r: Option<String>)
    ensures
        text::opt(r) == string(seen(json)),
{
    match json {
        Some(Json::Text(s)) => Some(s.clone()),
        _ => None,
    }
}

/// Reads a truth value.
pub fn as_bool(json: Option<&Json>) -> (r: Option<bool>)
    ensures
        r == truth(seen(json)),
{
    match json {
        Some(Json::Bool(flag)) => Some(*flag),
        _ => None,
    }
}

/// Reads a number.
pub fn as_number(json: Option<&Json>) -> (r: Option<Binary64>)
    ensures
        r == numeric(seen(json)),
{
    match json {
        Some(Json::Number(s)) => number::parse(s.as_str()),
        _ => None,
    }
}

/// Reads an integer from zero on.
pub fn as_count(json: Option<&Json>) -> (r: Option<u64>)
    ensures
        match r {
            Some(n) => count(seen(json)) == Some(n as nat),
            None => count(seen(json)) is None,
        },
{
    match json {
        Some(Json::Number(s)) => digits::parse_u64(s.as_str()),
        _ => None,
    }
}

// ---------------------------------------------------------------------------
// Building values
// ---------------------------------------------------------------------------

/// Makes a text.
pub fn text_value(s: &str) -> (r: Json)
    ensures
        r.tree() == Tree::Text(s@),
{
    Json::Text(s.to_owned())
}

/// Makes a number of its text.
pub fn number_value(s: &str) -> (r: Json)
    ensures
        r.tree() == Tree::Number(s@),
{
    Json::Number(s.to_owned())
}

/// The fields of an object that is being made.
pub struct Fields {
    entries: Vec<(String, Json)>,
}

impl Fields {
    /// The content of the fields.
    pub closed spec fn content(&self) -> Seq<(Seq<char>, Tree)> {
        Seq::new(self.entries@.len(), |i: int| (self.entries@[i].0@, self.entries@[i].1.tree()))
    }

    /// No fields.
    pub fn new() -> (r: Fields)
        ensures
            r.content() == Seq::<(Seq<char>, Tree)>::empty(),
    {
        let r = Fields { entries: Vec::new() };
        assert(r.content() =~= Seq::<(Seq<char>, Tree)>::empty());
        r
    }

    /// The fields with one more.
    pub fn with(self, name: &str, value: Json) -> (r: Fields)
        ensures
            r.content() == self.content().push((name@, value.tree())),
    {
        let ghost before = self.content();
        let ghost added = (name@, value.tree());
        let mut entries = self.entries;
        entries.push((name.to_owned(), value));
        let r = Fields { entries };
        assert(r.content() =~= before.push(added));
        r
    }

    /// The object of the fields.
    pub fn object(self) -> (r: Json)
        ensures
            r.tree() == Tree::Object(self.content()),
    {
        let ghost content = self.content();
        let r = Json::Object(self.entries);
        assert(r.tree()->Object_0 =~= content);
        r
    }
}

/// The items of a list that is being made.
pub struct Items {
    entries: Vec<Json>,
}

impl Items {
    /// The content of the items.
    pub closed spec fn content(&self) -> Seq<Tree> {
        Seq::new(self.entries@.len(), |i: int| self.entries@[i].tree())
    }

    /// No items.
    pub fn new() -> (r: Items)
        ensures
            r.content() == Seq::<Tree>::empty(),
    {
        let r = Items { entries: Vec::new() };
        assert(r.content() =~= Seq::<Tree>::empty());
        r
    }

    /// The items with one more.
    pub fn with(self, value: Json) -> (r: Items)
        ensures
            r.content() == self.content().push(value.tree()),
    {
        let ghost before = self.content();
        let ghost added = value.tree();
        let mut entries = self.entries;
        entries.push(value);
        let r = Items { entries };
        assert(r.content() =~= before.push(added));
        r
    }

    /// The list of the items.
    pub fn list(self) -> (r: Json)
        ensures
            r.tree() == Tree::List(self.content()),
    {
        let ghost content = self.content();
        let r = Json::List(self.entries);
        assert(r.tree()->List_0 =~= content);
        r
    }
}

/// The texts of a list.
pub open spec fn texts(list: Seq<Seq<char>>) -> Seq<Tree> {
    Seq::new(list.len(), |i: int| Tree::Text(list[i]))
}

/// Makes a list of texts.
pub fn text_list(list: &Vec<String>) -> (r: Json)
    ensures
        r.tree() == Tree::List(texts(text::views(list@))),
{
    let mut out = Items::new();
    let mut i: usize = 0;
    while i < list.len()
        invariant
            i <= list@.len(),
            out.content() == texts(text::views(list@)).take(i as int),
        decreases list@.len() - i,
    {
        out = out.with(text_value(list[i].as_str()));
        i += 1;
        assert(out.content() =~= texts(text::views(list@)).take(i as int));
    }
    assert(texts(text::views(list@)).take(i as int) =~= texts(text::views(list@)));
    out.list()
}

/// Copies a value.
pub fn copy(json: &Json) -> (r: Json)
    ensures
        r.tree() == json.tree(),
    decreases json,
{
    match json {
        Json::Null => Json::Null,
        Json::Bool(flag) => Json::Bool(*flag),
        Json::Number(s) => Json::Number(s.clone()),
        Json::Text(s) => Json::Text(s.clone()),
        Json::List(items) => {
            let ghost all = json.tree()->List_0;
            let mut out = Items::new();
            let mut i: usize = 0;
            assert(out.content() =~= all.take(0));
            while i < items.len()
                invariant
                    i <= items@.len(),
                    *json == Json::List(*items),
                    all == json.tree()->List_0,
                    all.len() == items@.len(),
                    forall|k: int| 0 <= k < all.len() ==> #[trigger] all[k] == items@[k].tree(),
                    out.content() == all.take(i as int),
                decreases items@.len() - i,
            {
                let item = copy(&items[i]);
                out = out.with(item);
                i += 1;
                assert(out.content() =~= all.take(i as int));
            }
            assert(all.take(i as int) =~= all);
            out.list()
        },
        Json::Object(fields) => {
            let ghost all = json.tree()->Object_0;
            let mut out = Fields::new();
            let mut i: usize = 0;
            assert(out.content() =~= all.take(0));
            while i < fields.len()
                invariant
                    i <= fields@.len(),
                    *json == Json::Object(*fields),
                    all == json.tree()->Object_0,
                    all.len() == fields@.len(),
                    forall|k: int|
                        0 <= k < all.len() ==> #[trigger] all[k] == (
                            fields@[k].0@,
                            fields@[k].1.tree(),
                        ),
                    out.content() == all.take(i as int),
                decreases fields@.len() - i,
            {
                let value = copy(&fields[i].1);
                out = out.with(fields[i].0.as_str(), value);
                i += 1;
                assert(out.content() =~= all.take(i as int));
            }
            assert(all.take(i as int) =~= all);
            out.object()
        },
    }
}

} // verus!
