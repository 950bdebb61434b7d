//! Paths of videos and of the files beside them.

use vstd::prelude::*;

use crate::text;

verus! {

/// A path, parted before its final component.
pub struct FilePath {
    /// The text before the final component; the whole text where there is none.
    pub directory: String,
    /// The final component.
    pub file_name: Option<String>,
}

impl FilePath {
    /// The whole text of the path.
    pub open spec fn text(&self) -> Seq<char> {
        match self.file_name {
            Some(name) => self.directory@ + name@,
            None => self.directory@,
        }
    }

    /// The final component.
    pub open spec fn name(&self) -> Option<Seq<char>> {
        text::opt(self.file_name)
    }

    /// The final component, or a word that stands for it.
    pub open spec fn name_or(&self, word: Seq<char>) -> Seq<char> {
        match self.name() {
            Some(name) => name,
            None => word,
        }
    }

    /// What follows the last point of the final component.
    pub open spec fn suffix(&self) -> Option<Seq<char>> {
        match self.name() {
            Some(name) => name_suffix(name),
            None => None,
        }
    }

    /// The final component without its suffix, or a word that stands for it.
    pub open spec fn stem_or(&self, word: Seq<char>) -> Seq<char> {
        match self.name() {
            Some(name) => name_stem(name),
            None => word,
        }
    }

    /// The suffix in lower case, empty where there is none.
    pub open spec fn kind(&self) -> Seq<char> {
        match self.suffix() {
            Some(suffix) => text::lower(suffix),
            None => Seq::empty(),
        }
    }

    /// The text of the path whose suffix is replaced.
    pub open spec fn with_suffix(&self, suffix: Seq<char>) -> Seq<char> {
        match self.name() {
            Some(name) => self.directory@ + (name_stem(name) + "."@ + suffix),
            None => self.directory@,
        }
    }
}

/// The position of the last point among the first `n` characters.
pub open spec fn last_point(s: Seq<char>, n: nat) -> Option<int>
    decreases n,
{
    if n == 0 {
        None
    } else if s[n - 1] == '.' {
        Some(n - 1)
    } else {
        last_point(s, (n - 1) as nat)
    }
}

/// Where the suffix of a name begins: behind its last point, which must not
/// be its first character. The name of the parent directory has no suffix.
pub open spec fn suffix_point(name: Seq<char>) -> Option<int> {
    match last_point(name, name.len()) {
        Some(i) if i > 0 && name != ".."@ => Some(i),
        _ => None,
    }
}

pub open spec fn name_suffix(name: Seq<char>) -> Option<Seq<char>> {
    match suffix_point(name) {
        Some(i) => Some(name.skip(i + 1)),
        None => None,
    }
}

pub open spec fn name_stem(name: Seq<char>) -> Seq<char> {
    match suffix_point(name) {
        Some(i) => name.take(i),
        None => name,
    }
}

fn point_of(name: &str) -> (r: Option<usize>)
    ensures
        match r {
            Some(i) => suffix_point(name@) == Some(i as int) && i < name@.len(),
            None => suffix_point(name@) is None,
        },
{
    let chars = text::chars_of(name);
    let mut n: usize = chars.len();
    while n > 0
        invariant
            n <= chars@.len(),
            chars@ == name@,
            last_point(name@, n as nat) == last_point(name@, name@.len()),
        decreases n,
    {
        if chars[n - 1] == '.' {
            if n > 1 && !text::same(name, "..") {
                return Some(n - 1);
            }
            return None;
        }
        n -= 1;
    }
    None
}

impl FilePath {
    /// The whole text of the path.
    pub fn full(&self) -> (r: String)
        ensures
            r@ == self.text(),
    {
        let mut out: String = self.directory.clone();
        match &self.file_name {
            Some(name) => {
                out.append(name.as_str());
            },
            None => {},
        }
        out
    }

    /// The final component, or a word that stands for it.
    pub fn name_text(&self, word: &str) -> (r: String)
        ensures
            r@ == self.name_or(word@),
    {
        match &self.file_name {
            Some(name) => name.clone(),
            None => word.to_owned(),
        }
    }

    /// The final component without its suffix, or a word that stands for it.
    pub fn stem_text(&self, word: &str) -> (r: String)
        ensures
            r@ == self.stem_or(word@),
    {
        match &self.file_name {
            Some(name) => match point_of(name.as_str()) {
                Some(i) => {
                    let r = text::part(name.as_str(), 0, i);
                    assert(r@ == name@.take(i as int));
                    r
                },
                None => name.clone(),
            },
            None => word.to_owned(),
        }
    }

    /// The suffix in lower case, empty where there is none.
    pub fn kind_text(&self) -> (r: String)
        ensures
            r@ == self.kind(),
    {
        match &self.file_name {
            Some(name) => match point_of(name.as_str()) {
                Some(i) => {
                    let n: usize = text::length(name.as_str());
                    let r = text::part(name.as_str(), i + 1, n);
                    assert(r@ == name@.skip(i + 1));
                    text::ascii_lower(r.as_str())
                },
                None => String::new(),
            },
            None => String::new(),
        }
    }

    /// The text of the path whose suffix is replaced.
    pub fn replace_suffix(&self, suffix: &str) -> (r: String)
        ensures
            r@ == self.with_suffix(suffix@),
    {
        let mut out: String = self.directory.clone();
        match &self.file_name {
            Some(name) => {
                let mut file: String = self.stem_text("");
                file.append(".");
                file.append(suffix);
                out.append(file.as_str());
            },
            None => {},
        }
        out
    }
}

/// Whether a suffix in lower case is one of a supported video.
pub open spec fn is_video_kind(kind: Seq<char>) -> bool {
    ||| kind == "mp4"@
    ||| kind == "m4v"@
    ||| kind == "mov"@
    ||| kind == "webm"@
    ||| kind == "mkv"@
    ||| kind == "avi"@
    ||| kind == "mpeg"@
    ||| kind == "mpg"@
}

/// Whether a suffix in lower case is one of a container with chapter markers.
pub open spec fn is_chapter_kind(kind: Seq<char>) -> bool {
    kind == "mp4"@ || kind == "m4v"@ || kind == "mov"@
}

/// Whether the container of a video can hold chapter markers.
pub fn supports_embedded_chapters(video_path: &FilePath) -> (r: bool)
    ensures
        r == is_chapter_kind(video_path.kind()),
{
    let kind = video_path.kind_text();
    text::same(kind.as_str(), "mp4") || text::same(kind.as_str(), "m4v") || text::same(
        kind.as_str(),
        "mov",
    )
}

/// The path of a selected video, which must still name a file.
pub fn validate_video_path(value: FilePath, is_file: bool) -> (r: Result<FilePath, String>)
    ensures
        is_file ==> r == Ok::<FilePath, String>(value),
        !is_file ==> r is Err && r->Err_0@ == "The selected video no longer exists."@,
{
    if !is_file {
        return Err("The selected video no longer exists.".to_owned());
    }
    Ok(value)
}

/// The path of the Markdown sidecar beside a video.
pub fn sidecar_path(video_path: &FilePath) -> (r: Result<String, String>)
    ensures
        is_video_kind(video_path.kind()) ==> r is Ok && r->Ok_0@ == video_path.with_suffix("md"@),
        !is_video_kind(video_path.kind()) ==> r is Err && r->Err_0@
            == "Choose a supported local video file."@,
{
    let kind = video_path.kind_text();
    let extension = kind.as_str();
    if text::same(extension, "mp4") || text::same(extension, "m4v") || text::same(extension, "mov")
        || text::same(extension, "webm") || text::same(extension, "mkv") || text::same(
        extension,
        "avi",
    ) || text::same(extension, "mpeg") || text::same(extension, "mpg") {
        Ok(video_path.replace_suffix("md"))
    } else {
        Err("Choose a supported local video file.".to_owned())
    }
}

/// The media type of a video, by its suffix in lower case.
pub open spec fn media_type(kind: Seq<char>) -> Seq<char> {
    if kind == "mp4"@ || kind == "m4v"@ {
        "video/mp4"@
    } else if kind == "mov"@ {
        "video/quicktime"@
    } else if kind == "webm"@ {
        "video/webm"@
    } else if kind == "mkv"@ {
        "video/x-matroska"@
    } else if kind == "avi"@ {
        "video/x-msvideo"@
    } else if kind == "mpeg"@ || kind == "mpg"@ {
        "video/mpeg"@
    } else {
        "application/octet-stream"@
    }
}

/// The media type of a file.
pub fn media_content_type(path: &FilePath) -> (r: &'static str)
    ensures
        r@ == media_type(path.kind()),
{
    let kind = path.kind_text();
    let extension = kind.as_str();
    if text::same(extension, "mp4") || text::same(extension, "m4v") {
        "video/mp4"
    } else if text::same(extension, "mov") {
        "video/quicktime"
    } else if text::same(extension, "webm") {
        "video/webm"
    } else if text::same(extension, "mkv") {
        "video/x-matroska"
    } else if text::same(extension, "avi") {
        "video/x-msvideo"
    } else if text::same(extension, "mpeg") || text::same(extension, "mpg") {
        "video/mpeg"
    } else {
        "application/octet-stream"
    }
}

/// The sidecar of a supported video stands in the same directory and is never
/// the video itself.
pub proof fn law_sidecar_is_another_file(path: FilePath)
    requires
        is_video_kind(path.kind()),
    ensures
        text::has_prefix(path.with_suffix("md"@), path.directory@),
        path.with_suffix("md"@) != path.text(),
{
    reveal_strlit("mp4");
    reveal_strlit("m4v");
    reveal_strlit("mov");
    reveal_strlit("webm");
    reveal_strlit("mkv");
    reveal_strlit("avi");
    reveal_strlit("mpeg");
    reveal_strlit("mpg");
    reveal_strlit("md");
    reveal_strlit(".");
    assert(path.kind().len() > 0);
    assert(path.suffix() is Some);
    let name = path.name()->0;
    let i = suffix_point(name)->0;
    lemma_last_point(name, name.len());
    let other = name_stem(name) + "."@ + "md"@;
    assert(path.with_suffix("md"@).subrange(0, path.directory@.len() as int) == path.directory@);
    if path.with_suffix("md"@) == path.text() {
        let n = path.directory@.len() as int;
        assert(path.text().skip(n) == name);
        assert(path.with_suffix("md"@).skip(n) == other);
        assert(name.skip(i + 1) == other.skip(i + 1));
        assert(other.skip(i + 1) == "md"@);
        assert(text::lower("md"@) == "md"@);
        assert(path.kind() == "md"@);
        assert("md"@[0] == 'm' && "md"@.len() == 2);
    }
}

proof fn lemma_last_point(s: Seq<char>, n: nat)
    requires
        n <= s.len(),
    ensures
        match last_point(s, n) {
            Some(i) => 0 <= i < n && s[i] == '.',
            None => true,
        },
    decreases n,
{
    if n > 0 && s[n - 1] != '.' {
        lemma_last_point(s, (n - 1) as nat);
    }
}

} // verus!
