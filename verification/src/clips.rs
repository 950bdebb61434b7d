//! What exported clips show, and when.

use vstd::prelude::*;

use crate::clock;
use crate::digits;
use crate::export;
use crate::export::Clip;
use crate::export::ExportClipRequest;
use crate::jobs::JobState;
use crate::laws;
use crate::markdown;
use crate::number;
use crate::number::Binary64;
use crate::paths::FilePath;
use crate::roundtrip;
use crate::selection;
use crate::speech;
use crate::text;
use crate::transcript;
use crate::transcript::Cue;
use crate::wording;

verus! {

/// Whether two stretches of time share more than a single moment: two
/// different times lie in both of them.
pub open spec fn share_time(
    start: Binary64,
    end: Binary64,
    other_start: Binary64,
    other_end: Binary64,
) -> bool {
    exists|a: Binary64, b: Binary64| #[trigger]
        a.lt(b) && start.le(a) && b.le(end) && other_start.le(a) && b.le(other_end)
}

/// A passage is heard within a clip exactly when the two share more than a
/// single moment.
pub proof fn law_heard_is_shared(cue: Cue, start: Binary64, end: Binary64)
    requires
        cue.start.lt(cue.end),
        start.lt(end),
    ensures
        export::overlaps(cue, start, end) == share_time(cue.start, cue.end, start, end),
{
    if export::overlaps(cue, start, end) {
        let a = if cue.start.lt(start) {
            start
        } else {
            cue.start
        };
        let b = if cue.end.lt(end) {
            cue.end
        } else {
            end
        };
        assert(a.lt(b));
    }
}

/// Whether values are the bounds of a passage within a clip, counted from the
/// start of the clip, each rounded once.
pub open spec fn is_within_clip(
    from: Binary64,
    to: Binary64,
    cue: Cue,
    start: Binary64,
    end: Binary64,
) -> bool {
    &&& number::is_nearest(
        from,
        speech::later(cue.start.units(), start.units()) - start.units(),
    )
    &&& number::is_nearest(to, speech::earlier(cue.end.units(), end.units()) - start.units())
    &&& number::zero().le(from)
    &&& from.le(to)
    &&& cue.start.le(start) ==> from.units() == 0
}

proof fn lemma_relative(cue: Cue, start: Binary64, end: Binary64)
    requires
        cue.start.finite() && cue.end.finite() && start.finite() && end.finite(),
        cue.start.lt(cue.end),
        start.lt(end),
        share_time(cue.start, cue.end, start, end),
    ensures
        is_within_clip(
            export::relative(cue, start, end).0,
            export::relative(cue, start, end).1,
            cue,
            start,
            end,
        ),
{
    law_heard_is_shared(cue, start, end);
    let a = cue.start.upper(start);
    let b = cue.end.lower(end);
    number::lemma_size_zero(0);
    number::law_difference_is_nearest(a, start);
    number::law_difference_is_nearest(b, start);
    number::law_difference_keeps_order(a, b, start);
    number::law_difference_keeps_order(start, a, start);
    number::law_difference_is_nearest(start, start);
    assert(number::distance(start.difference(start).units(), 0) <= number::distance(
        number::zero().units(),
        0,
    ));
    assert(number::distance(a.difference(start).units(), a.units() - start.units())
        <= number::distance(number::zero().units(), a.units() - start.units()));
}

/// Whether a text is the block of a subtitle in a clip: its number, its times
/// from the start of the clip, and its words behind the name of who speaks.
pub open spec fn is_block(
    block: Seq<char>,
    place: int,
    cue: Cue,
    start: Binary64,
    end: Binary64,
) -> bool {
    exists|from: Binary64, to: Binary64| #[trigger]
        is_within_clip(from, to, cue, start, end) && block == digits::decimal(place as nat) + "\n"@
            + clock::subrip(from) + " --> "@ + clock::subrip(to) + "\n"@ + (if text::trimmed(
            cue.speaker,
        ).len() == 0 || text::lower(text::trimmed(cue.speaker)) == "unknown"@ {
            cue.text
        } else {
            text::trimmed(cue.speaker) + ": "@ + cue.text
        }) + "\n\n"@
}

/// The parts of a text, one behind the other.
pub open spec fn in_a_row(parts: Seq<Seq<char>>) -> Seq<char> {
    text::joined(parts, Seq::empty())
}

pub(crate) proof fn lemma_in_a_row(parts: Seq<Seq<char>>, next: Seq<char>)
    ensures
        in_a_row(parts.push(next)) == in_a_row(parts) + next,
{
    let more = parts.push(next);
    let none = Seq::<char>::empty();
    assert(more.drop_last() =~= parts);
    if parts.len() == 0 {
        assert(none + next =~= next);
    } else {
        assert(in_a_row(parts) + none + next =~= in_a_row(parts) + next);
    }
}

proof fn lemma_unknown()
    ensures
        text::lower("unknown"@) == "unknown"@,
{
    reveal_strlit("unknown");
    assert(text::lower("unknown"@) =~= "unknown"@);
}

/// The subtitles of a clip are those that are heard within it, and no others,
/// in order and numbered from one on.
pub proof fn law_clip_shows_what_is_heard(
    cues: Seq<Cue>,
    start: Binary64,
    end: Binary64,
    n: nat,
) -> (r: (Seq<int>, Seq<Seq<char>>))
    requires
        n <= cues.len(),
        start.finite() && end.finite(),
        start.lt(end),
        forall|k: int|
            0 <= k < cues.len() ==> (#[trigger] cues[k]).start.finite() && cues[k].end.finite()
                && cues[k].start.lt(cues[k].end),
    ensures
        selection::picks(
            r.0,
            n as int,
            |k: int| share_time(cues[k].start, cues[k].end, start, end),
        ),
        r.1.len() == r.0.len(),
        export::heard(cues, start, end, n) == r.0.len(),
        export::srt(cues, start, end, n) == in_a_row(r.1),
        forall|i: int|
            0 <= i < r.1.len() ==> is_block(#[trigger] r.1[i], i + 1, cues[r.0[i]], start, end),
    decreases n,
{
    let keeps = |k: int| share_time(cues[k].start, cues[k].end, start, end);
    if n == 0 {
        selection::lemma_pick_none(keeps);
        (Seq::empty(), Seq::empty())
    } else {
        let (places, blocks) = law_clip_shows_what_is_heard(cues, start, end, (n - 1) as nat);
        let cue = cues[n - 1];
        law_heard_is_shared(cue, start, end);
        selection::lemma_pick(places, n - 1, keeps);
        if keeps(n - 1) {
            lemma_relative(cue, start, end);
            lemma_unknown();
            let more = places.push(n - 1);
            let block = export::srt_block(cue, start, end, export::heard(cues, start, end, n));
            let all = blocks.push(block);
            lemma_in_a_row(blocks, block);
            assert forall|i: int| 0 <= i < all.len() implies is_block(
                #[trigger] all[i],
                i + 1,
                cues[more[i]],
                start,
                end,
            ) by {
                if i < blocks.len() {
                    assert(all[i] == blocks[i]);
                    assert(more[i] == places[i]);
                } else {
                    let bounds = export::relative(cue, start, end);
                    assert(is_within_clip(bounds.0, bounds.1, cue, start, end));
                }
            }
            (more, all)
        } else {
            (places, blocks)
        }
    }
}

/// Whether a text is the row of a passage in the table of subtitles: the number
/// and the file of the clip, the times of the passage from the start of the
/// clip and from the start of the video, and what is said by whom.
pub open spec fn is_row(row: Seq<char>, place: int, clip: Clip, cue: Cue) -> bool {
    exists|from: Binary64, to: Binary64, source_from: Binary64, source_to: Binary64|
        {
            &&& #[trigger] is_within_clip(from, to, cue, clip.start, clip.end)
            &&& #[trigger] source_from.lt(source_to)
            &&& source_from.units() == speech::later(cue.start.units(), clip.start.units())
            &&& source_to.units() == speech::earlier(cue.end.units(), clip.end.units())
            &&& row == digits::decimal(place as nat) + ","@ + export::quoted(clip.file) + ","@
                + from.fixed() + ","@ + to.fixed() + ","@ + source_from.fixed() + ","@
                + source_to.fixed() + ","@ + export::quoted(cue.speaker) + ","@ + export::quoted(
                cue.language,
            ) + ","@ + export::quoted(cue.text) + "\n"@
        }
}

/// The rows of a clip in the table of subtitles are those of the passages that
/// are heard within it, and no others, in order.
pub proof fn law_table_lists_what_is_heard(clip: Clip, place: nat, cues: Seq<Cue>, n: nat) -> (r: (
    Seq<int>,
    Seq<Seq<char>>,
))
    requires
        n <= cues.len(),
        clip.start.finite() && clip.end.finite(),
        clip.start.lt(clip.end),
        forall|k: int|
            0 <= k < cues.len() ==> (#[trigger] cues[k]).start.finite() && cues[k].end.finite()
                && cues[k].start.lt(cues[k].end),
    ensures
        selection::picks(
            r.0,
            n as int,
            |k: int| share_time(cues[k].start, cues[k].end, clip.start, clip.end),
        ),
        r.1.len() == r.0.len(),
        export::cue_rows(clip, place, cues, n) == in_a_row(r.1),
        forall|i: int|
            0 <= i < r.1.len() ==> is_row(#[trigger] r.1[i], place as int, clip, cues[r.0[i]]),
    decreases n,
{
    let keeps = |k: int| share_time(cues[k].start, cues[k].end, clip.start, clip.end);
    if n == 0 {
        selection::lemma_pick_none(keeps);
        (Seq::empty(), Seq::empty())
    } else {
        let (places, rows) = law_table_lists_what_is_heard(clip, place, cues, (n - 1) as nat);
        let cue = cues[n - 1];
        law_heard_is_shared(cue, clip.start, clip.end);
        selection::lemma_pick(places, n - 1, keeps);
        if keeps(n - 1) {
            lemma_relative(cue, clip.start, clip.end);
            let more = places.push(n - 1);
            let row = export::cue_row(clip, place, cue);
            let all = rows.push(row);
            lemma_in_a_row(rows, row);
            assert forall|i: int| 0 <= i < all.len() implies is_row(
                #[trigger] all[i],
                place as int,
                clip,
                cues[more[i]],
            ) by {
                if i < rows.len() {
                    assert(all[i] == rows[i]);
                    assert(more[i] == places[i]);
                } else {
                    let bounds = export::relative(cue, clip.start, clip.end);
                    let a = cue.start.upper(clip.start);
                    let b = cue.end.lower(clip.end);
                    assert(is_within_clip(bounds.0, bounds.1, cue, clip.start, clip.end));
                    assert(a.lt(b));
                }
            }
            (more, all)
        } else {
            (places, rows)
        }
    }
}

/// The table of subtitles holds, behind its heading, the rows of every clip, in
/// the order of the clips, under the number of the clip.
pub proof fn law_table_holds_every_clip(clips: Seq<Clip>, cues: Seq<Cue>)
    ensures
        export::cue_table(clips, cues, clips.len()) == in_a_row(
            seq![
                "clip,file,relative_start,relative_end,source_start,source_end,speaker,language,text\n"@,
            ] + Seq::new(
                clips.len(),
                |c: int| export::cue_rows(clips[c], (c + 1) as nat, cues, cues.len()),
            ),
        ),
{
    lemma_table(clips, cues, clips.len());
}

proof fn lemma_table(clips: Seq<Clip>, cues: Seq<Cue>, n: nat)
    requires
        n <= clips.len(),
    ensures
        export::cue_table(clips, cues, n) == in_a_row(
            seq![
                "clip,file,relative_start,relative_end,source_start,source_end,speaker,language,text\n"@,
            ] + Seq::new(
                n,
                |c: int| export::cue_rows(clips[c], (c + 1) as nat, cues, cues.len()),
            ),
        ),
    decreases n,
{
    let head = seq![
        "clip,file,relative_start,relative_end,source_start,source_end,speaker,language,text\n"@,
    ];
    let parts = head + Seq::new(
        n,
        |c: int| export::cue_rows(clips[c], (c + 1) as nat, cues, cues.len()),
    );
    if n == 0 {
        assert(parts =~= head);
    } else {
        lemma_table(clips, cues, (n - 1) as nat);
        let before = head + Seq::new(
            (n - 1) as nat,
            |c: int| export::cue_rows(clips[c], (c + 1) as nat, cues, cues.len()),
        );
        let rows = export::cue_rows(clips[n - 1], n, cues, cues.len());
        assert(parts =~= before.push(rows));
        lemma_in_a_row(before, rows);
    }
}

/// Whether a text is the row of a clip in the manifest: its number, its files,
/// its bounds in the video, its length and its label.
pub open spec fn is_clip_row(row: Seq<char>, place: int, clip: Clip) -> bool {
    exists|length: Binary64| #[trigger]
        number::is_nearest(length, speech::later(0, clip.end.units() - clip.start.units())) && row
            == digits::decimal(place as nat) + ","@ + export::quoted(clip.file) + ","@
            + export::quoted(clip.subtitles) + ","@ + clip.start.fixed() + ","@ + clip.end.fixed()
            + ","@ + length.fixed() + ","@ + export::quoted(clip.label) + "\n"@
}

/// The manifest holds, behind its heading, a row for every clip, in order and
/// numbered from one on.
pub proof fn law_manifest_lists_every_clip(clips: Seq<Clip>, n: nat) -> (rows: Seq<Seq<char>>)
    requires
        n <= clips.len(),
        forall|k: int|
            0 <= k < clips.len() ==> (#[trigger] clips[k]).start.finite() && clips[k].end.finite(),
    ensures
        rows.len() == n,
        export::manifest(clips, n) == in_a_row(
            seq!["clip,file,subtitles,source_start,source_end,duration,label\n"@] + rows,
        ),
        forall|k: int| 0 <= k < n ==> is_clip_row(#[trigger] rows[k], k + 1, clips[k]),
    decreases n,
{
    let head = seq!["clip,file,subtitles,source_start,source_end,duration,label\n"@];
    if n == 0 {
        assert(head + Seq::<Seq<char>>::empty() =~= head);
        Seq::empty()
    } else {
        let before = law_manifest_lists_every_clip(clips, (n - 1) as nat);
        let clip = clips[n - 1];
        let row = export::clip_row(clip, n);
        let rows = before.push(row);
        assert(head + rows =~= (head + before).push(row));
        lemma_in_a_row(head + before, row);
        let length = clock::from_start(clip.end.difference(clip.start));
        number::law_difference_is_nearest(clip.end, clip.start);
        number::lemma_size_zero(0);
        let exact = clip.end.units() - clip.start.units();
        let zero = number::zero();
        assert(zero.units() == 0);
        assert(number::is_nearest(length, speech::later(0, exact))) by {
            let gap = clip.end.difference(clip.start);
            assert(number::distance(gap.units(), exact) <= number::distance(zero.units(), exact));
            assert forall|other: Binary64| other.finite() implies number::distance(
                length.units(),
                speech::later(0, exact),
            ) <= number::distance(#[trigger] other.units(), speech::later(0, exact)) by {
                assert(number::distance(gap.units(), exact) <= number::distance(
                    other.units(),
                    exact,
                ));
            }
        }
        assert forall|k: int| 0 <= k < n implies is_clip_row(
            #[trigger] rows[k],
            k + 1,
            clips[k],
        ) by {
            if k < n - 1 {
                assert(rows[k] == before[k]);
            }
        }
        rows
    }
}

// ---------------------------------------------------------------------------
// Speech that is kept of a range
// ---------------------------------------------------------------------------

/// Of what was said in an analysed range every passage with words is kept that
/// shares more than a single moment with the range, and no other, and of each
/// the part within the range.
pub proof fn law_speech_is_kept_within_the_range(cue: Cue, bounds: (Binary64, Binary64))
    requires
        bounds.0.finite() && bounds.1.finite(),
        bounds.0.lt(bounds.1),
        cue.start.finite() && cue.end.finite(),
        cue.start.lt(cue.end),
    ensures
        transcript::kept_cue(cue, bounds) is Some <==> share_time(
            cue.start,
            cue.end,
            bounds.0,
            bounds.1,
        ) && markdown::entry_text(cue.text) != "Untitled note"@,
        transcript::kept_cue(cue, bounds) matches Some(kept) ==> {
            &&& kept.start.units() == speech::later(cue.start.units(), bounds.0.units())
            &&& kept.end.units() == speech::earlier(cue.end.units(), bounds.1.units())
            &&& kept.text == markdown::entry_text(cue.text)
            &&& kept.speaker == markdown::metadata(cue.speaker, "Speaker"@)
            &&& kept.language == markdown::metadata(cue.language, "unknown"@)
        },
{
    law_heard_is_shared(cue, bounds.0, bounds.1);
}

/// A passage that ends no later than it starts is not kept.
pub proof fn law_empty_speech_is_dropped(cue: Cue, bounds: (Binary64, Binary64))
    requires
        bounds.0.finite() && bounds.1.finite(),
        bounds.0.le(bounds.1),
        !cue.start.lt(cue.end) || bounds.0.units() == bounds.1.units(),
    ensures
        transcript::kept_cue(cue, bounds) is None,
{
}

// ---------------------------------------------------------------------------
// The command that cuts a clip
// ---------------------------------------------------------------------------

/// Whether arguments give a value behind an option.
pub open spec fn gives(args: Seq<Seq<char>>, option: Seq<char>, value: Seq<char>) -> bool {
    exists|k: int| 0 <= k < args.len() - 1 && #[trigger] args[k] == option && args[k + 1] == value
}

/// The audio streams that are chosen, in order.
pub open spec fn chosen(indexes: Seq<u32>) -> Seq<Seq<char>> {
    Seq::new(
        2 * indexes.len(),
        |k: int|
            if k % 2 == 0 {
                "-map"@
            } else {
                "0:"@ + digits::decimal(indexes[k / 2] as nat) + "?"@
            },
    )
}

proof fn lemma_chosen(indexes: Seq<u32>, n: nat)
    requires
        n <= indexes.len(),
    ensures
        export::stream_maps(indexes, n) == chosen(indexes.take(n as int)),
    decreases n,
{
    if n > 0 {
        lemma_chosen(indexes, (n - 1) as nat);
        let before = chosen(indexes.take(n - 1));
        let all = chosen(indexes.take(n as int));
        assert forall|k: int| 0 <= k < all.len() implies all[k] == export::stream_maps(
            indexes,
            n,
        )[k] by {
            if k < before.len() {
                assert(all[k] == before[k]);
                assert(0 <= k / 2 < n - 1);
            } else {
                assert(k == 2 * (n - 1) || k == 2 * (n - 1) + 1);
            }
        }
        assert(export::stream_maps(indexes, n).len() == all.len());
    }
    assert(export::stream_maps(indexes, n) =~= chosen(indexes.take(n as int)));
}

/// A clip is cut from the video where the mark starts and as long as it lasts,
/// with its picture and the audio streams that were chosen, or all of them
/// where none were, and is written where it is asked for.
pub proof fn law_clip_is_cut_where_the_mark_is(
    video: Seq<char>,
    request: ExportClipRequest,
    output: Seq<char>,
) -> (r: (Binary64, Binary64))
    requires
        request.start_seconds.finite(),
        request.end_seconds.finite(),
    ensures
        ({
            let args = export::clip_arguments(video, request, output);
            let sound = match request.audio_stream_indexes {
                Some(indexes) if indexes@.len() > 0 => chosen(indexes@),
                _ => seq!["-map"@, "0:a?"@],
            };
            &&& r.0.units() == speech::later(0, request.start_seconds.units())
            &&& number::is_nearest(
                r.1,
                request.end_seconds.units() - request.start_seconds.units(),
            )
            &&& gives(args, "-ss"@, r.0.fixed())
            &&& gives(args, "-i"@, video)
            &&& gives(args, "-t"@, r.1.fixed())
            &&& gives(args, "-map"@, "0:v:0"@)
            &&& gives(args, "-map_metadata"@, "0"@)
            &&& gives(args, "-map_chapters"@, "-1"@)
            &&& args.subrange(11, 11int + sound.len()) == sound
            &&& args.last() == output
            &&& args[args.len() - 2] == "-y"@
        }),
{
    let args = export::clip_arguments(video, request, output);
    let from = clock::from_start(request.start_seconds);
    let length = request.end_seconds.difference(request.start_seconds);
    speech::law_times_are_held(request.start_seconds);
    number::law_difference_is_nearest(request.end_seconds, request.start_seconds);
    let sound = export::audio_maps(request.audio_stream_indexes);
    if let Some(indexes) = request.audio_stream_indexes {
        lemma_chosen(indexes@, indexes@.len());
        assert(indexes@.take(indexes@.len() as int) =~= indexes@);
    }
    let n = 11int + sound.len();
    assert(args[3] == "-ss"@ && args[4] == from.fixed());
    assert(args[5] == "-i"@ && args[6] == video);
    assert(args[7] == "-t"@ && args[8] == length.fixed());
    assert(args[9] == "-map"@ && args[10] == "0:v:0"@);
    assert(args[n] == "-map_metadata"@ && args[n + 1] == "0"@);
    assert(args[n + 2] == "-map_chapters"@ && args[n + 3] == "-1"@);
    assert(args.subrange(11, n) =~= sound);
    (from, length)
}

/// Every format has its own ending and its own codec, and no other is known.
pub proof fn law_presets_are_told_apart(preset: Seq<char>)
    ensures
        export::extension(preset) is Ok <==> preset == "resolve"@ || preset == "mp4"@ || preset
            == "source"@,
        preset == "resolve"@ ==> export::extension(preset)->Ok_0 == "mov"@ && gives(
            export::preset_arguments(preset),
            "-c:v"@,
            "prores_ks"@,
        ) && gives(export::preset_arguments(preset), "-c:a"@, "pcm_s24le"@),
        preset == "mp4"@ ==> export::extension(preset)->Ok_0 == "mp4"@ && gives(
            export::preset_arguments(preset),
            "-c:v"@,
            "libx264"@,
        ) && gives(export::preset_arguments(preset), "-c:a"@, "aac"@),
        preset == "source"@ ==> export::extension(preset)->Ok_0 == "mkv"@ && gives(
            export::preset_arguments(preset),
            "-c"@,
            "copy"@,
        ),
{
    reveal_strlit("resolve");
    reveal_strlit("mp4");
    reveal_strlit("source");
    assert("resolve"@.len() == 7 && "mp4"@.len() == 3 && "source"@.len() == 6);
    let args = export::preset_arguments(preset);
    if preset == "resolve"@ {
        assert(args[0] == "-c:v"@ && args[1] == "prores_ks"@);
        assert(args[6] == "-c:a"@ && args[7] == "pcm_s24le"@);
    } else if preset == "mp4"@ {
        assert(args[0] == "-c:v"@ && args[1] == "libx264"@);
        assert(args[6] == "-c:a"@ && args[7] == "aac"@);
    } else {
        assert(args[0] == "-c"@ && args[1] == "copy"@);
    }
}

/// A clip is exported exactly where nothing stands in its way.
pub proof fn law_clip_is_exported(
    job: JobState,
    video_exists: bool,
    folder_exists: bool,
    start: Binary64,
    end: Binary64,
    has_ffmpeg: bool,
    preset: Seq<char>,
)
    ensures
        export::clip_refusal(
            job,
            video_exists,
            folder_exists,
            start,
            end,
            has_ffmpeg,
            preset,
        ) is None <==> {
            &&& job == JobState::Active
            &&& video_exists && folder_exists && has_ffmpeg
            &&& start.finite() && end.finite() && start.lt(end)
            &&& (preset == "resolve"@ || preset == "mp4"@ || preset == "source"@)
        },
{
}

/// A name without anything that a file name may not hold is kept, as far as it
/// is short enough.
pub proof fn law_plain_names_are_kept(value: Seq<char>, limit: int)
    requires
        0 < value.len() <= limit,
        roundtrip::tidy(value),
        forall|i: int| 0 <= i < value.len() ==> !export::reserved()(#[trigger] value[i]),
        value[0] != '.' && value[0] != ' ',
        value.last() != '.' && value.last() != ' ',
    ensures
        export::file_component(value, limit) == value,
{
    reveal_strlit(". ");
    roundtrip::lemma_mapped_keeps(value, export::reserved(), " "@);
    roundtrip::lemma_collapsed_tidy(value);
    let class = text::among(". "@);
    let none = Seq::<char>::empty();
    assert(none + value + none =~= value);
    wording::law_ends_are_dropped(none, value, none, class);
}

/// The files of a clip are named by the video, the place of the mark and its
/// label, so that clips of different marks have different names.
pub proof fn law_clips_have_their_own_names(
    video: FilePath,
    index: int,
    label: Seq<char>,
    other: int,
    other_label: Seq<char>,
)
    requires
        0 <= index,
        0 <= other,
        index != other,
    ensures
        export::clip_stem(video, index, label) != export::clip_stem(video, other, other_label),
        text::has_prefix(
            export::clip_stem(video, index, label),
            export::file_component(video.stem_or("video"@), 48) + "_"@ + digits::padded(
                digits::decimal((index + 1) as nat),
                3,
            ) + "_"@,
        ),
        text::has_suffix(
            export::clip_stem(video, index, label),
            "_"@ + export::file_component(label, 56),
        ),
{
    reveal_strlit("_");
    let front = export::file_component(video.stem_or("video"@), 48) + "_"@;
    let a = digits::padded(digits::decimal((index + 1) as nat), 3);
    let b = digits::padded(digits::decimal((other + 1) as nat), 3);
    let p = export::file_component(label, 56);
    let q = export::file_component(other_label, 56);
    let x = export::clip_stem(video, index, label);
    let y = export::clip_stem(video, other, other_label);
    digits::lemma_decimal((index + 1) as nat);
    digits::lemma_decimal((other + 1) as nat);
    digits::lemma_padded(digits::decimal((index + 1) as nat), 3);
    digits::lemma_padded(digits::decimal((other + 1) as nat), 3);
    let head = front + a + "_"@;
    assert(x =~= head + p);
    assert(x.subrange(0, head.len() as int) =~= head);
    assert(x =~= front + a + ("_"@ + p));
    let tail = "_"@ + p;
    assert(x.subrange(x.len() - tail.len(), x.len() as int) =~= tail);
    if x == y {
        let n = front.len() as int;
        if a.len() < b.len() {
            assert(x[n + a.len()] == '_');
            assert(y[n + a.len()] == b[a.len() as int]);
            assert(text::is_digit(b[a.len() as int]));
        } else if b.len() < a.len() {
            assert(y[n + b.len()] == '_');
            assert(x[n + b.len()] == a[b.len() as int]);
            assert(text::is_digit(a[b.len() as int]));
        }
        assert(a =~= b) by {
            assert forall|i: int| 0 <= i < a.len() implies a[i] == b[i] by {
                assert(x[n + i] == a[i] && y[n + i] == b[i]);
            }
        }
        assert(false);
    }
}

/// No file name holds what a file system may not: neither separators nor
/// anything else with a meaning of its own.
pub proof fn law_file_names_hold_no_separators(value: Seq<char>, limit: int, i: int)
    requires
        limit > 0,
        0 <= i < export::file_component(value, limit).len(),
    ensures
        ({
            let c = export::file_component(value, limit)[i];
            &&& c != '/' && c != '\\' && c != ':' && c != '*' && c != '?' && c != '"' && c != '<'
                && c != '>' && c != '|'
            &&& !text::is_control(c)
        }),
{
    reveal_strlit("/\\:*?\"<>|");
    let set = "/\\:*?\"<>|"@;
    assert(set[0] == '/' && set[1] == '\\' && set[2] == ':' && set[3] == '*' && set[4] == '?'
        && set[5] == '"' && set[6] == '<' && set[7] == '>' && set[8] == '|');
    let name = export::file_component(value, limit);
    laws::law_file_component_is_safe(value, limit);
    let safe = |c: char| !export::reserved()(c);
    assert(safe(name[i]));
}

/// The instructions beside exported clips name the video, the format and the
/// sound.
pub proof fn law_instructions_name_the_export(
    source: Seq<char>,
    preset: Seq<char>,
    sound: Seq<char>,
)
    ensures
        text::has_prefix(
            export::instructions(source, preset, sound),
            "FrameNote rough-cut export\n\nSource: "@ + source + "\nPreset: "@ + preset
                + "\nAudio: "@ + sound,
        ),
{
    let front = "FrameNote rough-cut export\n\nSource: "@ + source + "\nPreset: "@ + preset
        + "\nAudio: "@ + sound;
    let all = export::instructions(source, preset, sound);
    assert(all.subrange(0, front.len() as int) =~= front);
}

} // verus!
