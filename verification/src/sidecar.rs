//! The sidecar of a video as the player opens, changes and saves it.

use vstd::prelude::*;

use crate::chapters;
use crate::chapters::Chapter;
use crate::chapters::EmbeddedChapter;
use crate::markdown;
use crate::number::Binary64;
use crate::paths;
use crate::paths::FilePath;
use crate::text;

verus! {

/// A sidecar as it is handed to the player.
pub struct SidecarDocument {
    pub video_path: String,
    pub video_name: String,
    pub sidecar_path: String,
    pub markdown: String,
    pub playback_position: Binary64,
}

impl SidecarDocument {
    /// Whether the document is that of a video, with a sidecar and its text.
    pub open spec fn describes(
        &self,
        video_path: FilePath,
        sidecar: Seq<char>,
        markdown: Seq<char>,
    ) -> bool {
        &&& self.video_path@ == video_path.text()
        &&& self.video_name@ == video_path.name_or("Video"@)
        &&& self.sidecar_path@ == sidecar
        &&& self.markdown@ == markdown
        &&& self.playback_position == markdown::position_of(markdown)
    }
}

/// Describes a sidecar.
pub fn document(video_path: &FilePath, sidecar: &str, markdown: &str) -> (r: SidecarDocument)
    ensures
        r.describes(*video_path, sidecar@, markdown@),
{
    SidecarDocument {
        video_path: video_path.full(),
        video_name: video_path.name_text("Video"),
        sidecar_path: sidecar.to_owned(),
        playback_position: markdown::playback_position(markdown),
        markdown: markdown.to_owned(),
    }
}

/// The text of a sidecar, where it stands, and whether it is new.
pub struct OpenedSidecar {
    pub path: String,
    pub markdown: String,
    pub is_new: bool,
}

/// Opens the sidecar of a video: its text where there is one, else a new text,
/// which is still to be written. `existing` is the text of the file beside the
/// video.
pub fn read_or_create_markdown(video_path: &FilePath, existing: Option<String>) -> (r: Result<
    OpenedSidecar,
    String,
>)
    ensures
        match r {
            Ok(opened) => paths::is_video_kind(video_path.kind()) && opened.path@
                == video_path.with_suffix("md"@) && match existing {
                Some(markdown) => !opened.is_new && opened.markdown@ == markdown@,
                None => opened.is_new && opened.markdown@ == markdown::fresh(
                    video_path.name_or("Video"@),
                ),
            },
            Err(message) => !paths::is_video_kind(video_path.kind()) && message@
                == "Choose a supported local video file."@,
        },
{
    match paths::sidecar_path(video_path) {
        Ok(path) => match existing {
            Some(markdown) => Ok(OpenedSidecar { path, markdown, is_new: false }),
            None => Ok(
                OpenedSidecar {
                    path,
                    markdown: markdown::initial_markdown(video_path),
                    is_new: true,
                },
            ),
        },
        Err(message) => Err(message),
    }
}

/// The document to save for a video: its text ends with a line feed.
pub fn write_markdown(video_path: &FilePath, markdown: &str) -> (r: Result<
    SidecarDocument,
    String,
>)
    ensures
        match r {
            Ok(saved) => paths::is_video_kind(video_path.kind()) && saved.describes(
                *video_path,
                video_path.with_suffix("md"@),
                markdown::ended(markdown@),
            ),
            Err(message) => !paths::is_video_kind(video_path.kind()) && message@
                == "Choose a supported local video file."@,
        },
{
    match paths::sidecar_path(video_path) {
        Ok(path) => {
            let normalized = markdown::normalize(markdown);
            Ok(document(video_path, path.as_str(), normalized.as_str()))
        },
        Err(message) => Err(message),
    }
}

/// Whether the chapter markers of a video are still to be imported.
pub open spec fn awaits_chapters(video_path: FilePath, markdown: Seq<char>) -> bool {
    paths::is_chapter_kind(video_path.kind()) && !chapters::is_imported(markdown)
}

/// Whether the chapter markers of a video are still to be imported.
pub fn wants_chapters(video_path: &FilePath, markdown: &str) -> (r: bool)
    ensures
        r == awaits_chapters(*video_path, markdown@),
{
    paths::supports_embedded_chapters(video_path) && !chapters::has_import_receipt(markdown)
}

/// The chapter markers that a probe of a video found, with the fingerprint of
/// the video.
pub struct FoundChapters {
    pub fingerprint: String,
    pub chapters: Vec<EmbeddedChapter>,
}

impl FoundChapters {
    /// Whether every place is one that a probe gives.
    pub open spec fn wf(&self) -> bool {
        forall|i: int|
            0 <= i < self.chapters@.len() ==> (#[trigger] self.chapters@[i]).source_index
                < usize::MAX
    }
}

/// The text of a sidecar after its video was loaded.
pub open spec fn loaded(
    video_path: FilePath,
    markdown: Seq<char>,
    found: Option<(Seq<char>, Seq<Chapter>)>,
) -> Seq<char> {
    match found {
        Some((fingerprint, chapters)) => if awaits_chapters(video_path, markdown) {
            chapters::merged(markdown, chapters, fingerprint)->0
        } else {
            markdown
        },
        None => markdown,
    }
}

/// The content of what a probe found.
pub open spec fn content(found: Option<FoundChapters>) -> Option<(Seq<char>, Seq<Chapter>)> {
    match found {
        Some(found) => Some((found.fingerprint@, chapters::chapters_of(found.chapters@))),
        None => None,
    }
}

/// The document of a loaded video, and whether its text was changed and is to
/// be saved.
pub struct LoadedVideo {
    pub document: SidecarDocument,
    pub changed: bool,
}

/// Loads a video with its sidecar. `found` holds the chapter markers of the
/// video, where they were asked for and the probe succeeded.
pub fn load_video(
    video_path: &FilePath,
    sidecar: &str,
    markdown: &str,
    found: Option<FoundChapters>,
) -> (r: LoadedVideo)
    requires
        found matches Some(found) ==> found.wf(),
    ensures
        r.document.describes(*video_path, sidecar@, loaded(*video_path, markdown@, content(found))),
        r.changed == (found is Some && awaits_chapters(*video_path, markdown@)),
{
    match found {
        Some(found) => if wants_chapters(video_path, markdown) {
            match chapters::merge_embedded_chapters(
                markdown,
                &found.chapters,
                found.fingerprint.as_str(),
            ) {
                Some(updated) => {
                    return LoadedVideo {
                        document: document(video_path, sidecar, updated.as_str()),
                        changed: true,
                    };
                },
                None => {},
            }
        },
        None => {},
    }
    LoadedVideo { document: document(video_path, sidecar, markdown), changed: false }
}

/// The text of a sidecar with the playback position saved.
pub fn save_playback_position(markdown: &str, position_seconds: Binary64) -> (r: String)
    ensures
        r@ == text::text_of(
            markdown::positioned(
                text::lines_of(markdown@),
                markdown::position_line(position_seconds),
            ),
        ),
{
    markdown::with_playback_position(markdown, position_seconds)
}

} // verus!
