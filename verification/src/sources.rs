//! What is known of a video and the files beside it.

use vstd::arithmetic::power2;
use vstd::prelude::*;

use crate::address;
use crate::analysis;
use crate::arguments;
use crate::chapters;
use crate::chapters::Chapter;
use crate::chunk::Action;
use crate::chunk::ChunkAction;
use crate::clock;
use crate::digits;
use crate::export;
use crate::fingerprint;
use crate::fingerprint::FileStamp;
use crate::gemini::GeminiTranscriptCue;
use crate::ids;
use crate::jobs::JobState;
use crate::json;
use crate::json::Tree;
use crate::markdown;
use crate::media::Answer;
use crate::media::AudioTrackInfo;
use crate::media::MediaReply;
use crate::mix::MixAnswer;
use crate::mix::MixReply;
use crate::number;
use crate::number::Binary64;
use crate::paths;
use crate::paths::FilePath;
use crate::probe;
use crate::probe::Track;
use crate::protocol;
use crate::roundtrip;
use crate::selection;
use crate::sidecar::SidecarDocument;
use crate::sidecar;
use crate::text;
use crate::transcript::TranscriptCue;
use crate::waveform::WaveformData;
use crate::waveform;
use crate::wording;

verus! {

// ---------------------------------------------------------------------------
// Names of files
// ---------------------------------------------------------------------------

proof fn lemma_last_point(s: Seq<char>, n: nat)
    requires
        n <= s.len(),
    ensures
        match paths::last_point(s, n) {
            Some(i) => 0 <= i < n && s[i] == '.' && forall|j: int|
                i < j < n ==> #[trigger] s[j] != '.',
            None => forall|j: int| 0 <= j < n ==> #[trigger] s[j] != '.',
        },
    decreases n,
{
    if n > 0 && s[n - 1] != '.' {
        lemma_last_point(s, (n - 1) as nat);
    }
}

/// A file name is parted at its last point: what stands behind it is its
/// ending, and what stands in front of it its stem.
pub proof fn law_names_are_parted(stem: Seq<char>, ending: Seq<char>)
    requires
        stem.len() > 0,
        !ending.contains('.'),
        stem + "."@ + ending != ".."@,
    ensures
        paths::name_stem(stem + "."@ + ending) == stem,
        paths::name_suffix(stem + "."@ + ending) == Some(ending),
{
    reveal_strlit(".");
    let name = stem + "."@ + ending;
    let n = stem.len() as int;
    lemma_last_point(name, name.len());
    assert(name[n] == '.');
    let i = paths::last_point(name, name.len())->0;
    if i > n {
        assert(name[i] == ending[i - n - 1]);
        assert(ending.contains('.'));
    }
    assert(i == n);
    assert(name.take(n) =~= stem);
    assert(name.skip(n + 1) =~= ending);
}

/// A file name without a point, or with one at its start alone, is all stem.
pub proof fn law_names_without_ending(name: Seq<char>)
    requires
        forall|i: int| 0 < i < name.len() ==> #[trigger] name[i] != '.',
    ensures
        paths::name_stem(name) == name,
        paths::name_suffix(name) is None,
{
    lemma_last_point(name, name.len());
}

/// The sidecar of a video stands beside it, under its name with another ending.
pub proof fn law_sidecar_stands_beside_the_video(path: FilePath, stem: Seq<char>, kind: Seq<char>)
    requires
        stem.len() > 0,
        !kind.contains('.'),
        stem + "."@ + kind != ".."@,
        path.name() == Some(stem + "."@ + kind),
    ensures
        path.with_suffix("md"@) == path.directory@ + (stem + "."@ + "md"@),
        path.kind() == text::lower(kind),
        path.stem_or("video"@) == stem,
{
    law_names_are_parted(stem, kind);
}

/// Videos are known by their endings, and each is sent under its own type.
pub proof fn law_videos_are_known()
    ensures
        paths::media_type("mp4"@) == "video/mp4"@,
        paths::media_type("m4v"@) == "video/mp4"@,
        paths::media_type("mov"@) == "video/quicktime"@,
        paths::media_type("webm"@) == "video/webm"@,
        paths::media_type("mkv"@) == "video/x-matroska"@,
        paths::media_type("avi"@) == "video/x-msvideo"@,
        paths::media_type("mpeg"@) == "video/mpeg"@,
        paths::media_type("mpg"@) == "video/mpeg"@,
        forall|kind: Seq<char>| #[trigger]
            paths::is_video_kind(kind) <==> paths::media_type(kind) != "application/octet-stream"@,
        forall|kind: Seq<char>| #[trigger]
            paths::is_chapter_kind(kind) <==> paths::media_type(kind) == "video/mp4"@
                || paths::media_type(kind) == "video/quicktime"@,
{
    reveal_strlit("mp4");
    reveal_strlit("m4v");
    reveal_strlit("mov");
    reveal_strlit("webm");
    reveal_strlit("mkv");
    reveal_strlit("avi");
    reveal_strlit("mpeg");
    reveal_strlit("mpg");
    reveal_strlit("video/mp4");
    reveal_strlit("video/quicktime");
    reveal_strlit("video/webm");
    reveal_strlit("video/x-matroska");
    reveal_strlit("video/x-msvideo");
    reveal_strlit("video/mpeg");
    reveal_strlit("application/octet-stream");
    assert("mp4"@.len() == 3 && "m4v"@.len() == 3 && "mov"@.len() == 3 && "mkv"@.len() == 3);
    assert("avi"@.len() == 3 && "mpg"@.len() == 3 && "webm"@.len() == 4 && "mpeg"@.len() == 4);
    assert("mp4"@[1] == 'p' && "m4v"@[1] == '4' && "mov"@[1] == 'o' && "mkv"@[1] == 'k');
    assert("mp4"@[2] == '4' && "mpg"@[2] == 'g' && "mpg"@[1] == 'p');
    assert("avi"@[0] == 'a' && "mpg"@[0] == 'm' && "mp4"@[0] == 'm');
    assert("webm"@[0] == 'w' && "mpeg"@[0] == 'm');
    assert("application/octet-stream"@[0] == 'a' && "video/mp4"@[0] == 'v');
    assert("video/quicktime"@[0] == 'v' && "video/webm"@[0] == 'v' && "video/mpeg"@[0] == 'v');
    assert("video/x-matroska"@[0] == 'v' && "video/x-msvideo"@[0] == 'v');
    assert("video/mp4"@.len() == 9 && "video/quicktime"@.len() == 15);
    assert("video/webm"@.len() == 10 && "video/mpeg"@.len() == 10);
    assert("video/x-matroska"@.len() == 16 && "video/x-msvideo"@.len() == 15);
    assert("video/x-msvideo"@[6] == 'x' && "video/quicktime"@[6] == 'q');
}

// ---------------------------------------------------------------------------
// Frame rates
// ---------------------------------------------------------------------------

/// A rate of so many frames in so many seconds is the number nearest to their
/// quotient; no rate is told of frames in no time.
pub proof fn law_rates_are_quotients(above: nat, below: nat, other: Binary64)
    requires
        above < 0x20_0000_0000_0000,
        below < 0x20_0000_0000_0000,
        other.finite(),
    ensures
        below == 0 ==> probe::rate(digits::decimal(above) + "/"@ + digits::decimal(below)) is None,
        below > 0 ==> {
            let rate = probe::rate(digits::decimal(above) + "/"@ + digits::decimal(below));
            &&& rate is Some
            &&& !(rate->0).is_nan() && !(rate->0).is_negative()
            &&& number::distance(
                ((rate->0).size() * below) as int,
                (above * power2::pow2(1074)) as int,
            ) <= number::distance(
                (other.size() * below) as int,
                (above * power2::pow2(1074)) as int,
            )
        },
{
    reveal_strlit("/");
    let f = number::double();
    let p = power2::pow2(1074);
    let a = digits::decimal(above);
    let b = digits::decimal(below);
    let s = a + "/"@ + b;
    power2::lemma_pow2_pos(1074);
    digits::lemma_decimal(above);
    digits::lemma_decimal(below);
    let n = a.len() as int;
    text::lemma_find(s, "/"@);
    assert(s.subrange(n, n + 1) =~= "/"@);
    assert(text::occurs_at(s, "/"@, n));
    let i = text::find(s, "/"@)->0;
    if i < n {
        assert(s.subrange(i, i + 1)[0] == s[i]);
        assert(s[i] == a[i]);
        assert(text::is_digit(a[i]));
    }
    assert(s.take(n) =~= a);
    assert(s.skip(n + 1) =~= b);
    number::law_decimal_numbers_are_read(f, a, Seq::empty());
    number::law_decimal_numbers_are_read(f, b, Seq::empty());
    number::lemma_natural_exact(above);
    number::lemma_natural_exact(below);
    let x = number::natural(above);
    let y = number::natural(below);
    assert(number::parsed(a) == Some(x));
    assert(number::parsed(b) == Some(y));
    number::lemma_size_zero(0);
    if below == 0 {
        assert(y.size() == 0) by (nonlinear_arith)
            requires
                y.size() == below * p,
                below == 0,
        ;
    } else {
        assert(y.size() > 0) by (nonlinear_arith)
            requires
                y.size() == below * p,
                below > 0,
                p > 0,
        ;
        let q = x.quotient(y);
        let num = x.size() * p;
        let mag = number::nearest(f, num, y.size());
        number::lemma_nearest_exists(f, num, y.size());
        assert(q.magnitude() == mag && !q.is_negative());
        number::lemma_nearest_best(f, num, y.size(), other.magnitude());
        let best = (q.size() * below) as int;
        let rival = (other.size() * below) as int;
        let exact = (above * p) as int;
        assert(q.size() * y.size() == best * p) by (nonlinear_arith)
            requires
                y.size() == below * p,
                best == q.size() * below,
        ;
        assert(other.size() * y.size() == rival * p) by (nonlinear_arith)
            requires
                y.size() == below * p,
                rival == other.size() * below,
        ;
        assert(num == exact * p) by (nonlinear_arith)
            requires
                num == (above * p) * p,
                exact == above * p,
        ;
        lemma_distances(best, rival, exact, p as int);
    }
}

proof fn lemma_distances(best: int, rival: int, exact: int, p: int)
    requires
        p > 0,
        number::distance(best * p, exact * p) <= number::distance(rival * p, exact * p),
    ensures
        number::distance(best, exact) <= number::distance(rival, exact),
{
    let a = number::distance(best, exact);
    let b = number::distance(rival, exact);
    assert(number::distance(best * p, exact * p) == a * p) by (nonlinear_arith)
        requires
            p > 0,
            a == number::distance(best, exact),
            best < exact ==> number::distance(best, exact) == exact - best,
            best >= exact ==> number::distance(best, exact) == best - exact,
            best * p < exact * p ==> number::distance(best * p, exact * p) == exact * p - best * p,
            best * p >= exact * p ==> number::distance(best * p, exact * p) == best * p - exact
                * p,
    ;
    assert(number::distance(rival * p, exact * p) == b * p) by (nonlinear_arith)
        requires
            p > 0,
            b == number::distance(rival, exact),
            rival < exact ==> number::distance(rival, exact) == exact - rival,
            rival >= exact ==> number::distance(rival, exact) == rival - exact,
            rival * p < exact * p ==> number::distance(rival * p, exact * p) == exact * p - rival
                * p,
            rival * p >= exact * p ==> number::distance(rival * p, exact * p) == rival * p - exact
                * p,
    ;
    crate::speech::lemma_divided(a, b, p);
}

/// The rate of a video is its average one, or where that is of no use, its
/// nominal one; a rate is above zero.
pub proof fn law_average_rate_counts(tree: Tree)
    ensures
        ({
            let stream = json::item(json::field(Some(tree), "streams"@), 0);
            let average = probe::usable_rate(stream, "avg_frame_rate"@);
            let nominal = probe::usable_rate(stream, "r_frame_rate"@);
            &&& probe::frame_rate(tree) == if average is Some {
                average
            } else {
                nominal
            }
            &&& probe::frame_rate(tree) matches Some(rate) ==> rate.finite() && rate.units() > 0
        }),
{
    number::lemma_size_zero(0);
}

// ---------------------------------------------------------------------------
// Audio streams
// ---------------------------------------------------------------------------

/// Whether a track is the one that a stream describes, at a place among the
/// streams: with its index, its title or one made of its place and language,
/// its language, its codec and its channels.
pub open spec fn is_track(track: Track, stream: Tree, place: int) -> bool {
    let tags = json::field(Some(stream), "tags"@);
    let index = json::count(json::field(Some(stream), "index"@));
    let language = json::string(json::field(tags, "language"@));
    let title = json::string(json::field(tags, "title"@));
    let handler = json::string(json::field(tags, "handler_name"@));
    let named = if title is Some {
        title
    } else {
        handler
    };
    &&& index is Some && track.index as nat == index->0 % 0x1_0000_0000
    &&& track.language == language
    &&& named is Some && text::lower(named->0) != "soundhandler"@ ==> track.label == named->0
    &&& named is None || text::lower(named->0) == "soundhandler"@ ==> track.label == "Track "@
        + digits::decimal((place + 1) as nat) + (if language is Some {
        " · "@ + probe::uppercase(language->0)
    } else {
        Seq::empty()
    })
    &&& track.codec == match json::string(json::field(Some(stream), "codec_name"@)) {
        Some(codec) => codec,
        None => "audio"@,
    }
    &&& track.channels is Some <==> json::count(json::field(Some(stream), "channels"@)) is Some
    &&& track.channels is Some ==> (track.channels->0) as nat == json::count(
        json::field(Some(stream), "channels"@),
    )->0 % 0x1_0000_0000
}

proof fn lemma_track(stream: Tree, place: int)
    ensures
        probe::track(stream, place) is Some <==> json::count(
            json::field(Some(stream), "index"@),
        ) is Some,
        probe::track(stream, place) matches Some(track) ==> is_track(track, stream, place),
{
    reveal_strlit("soundhandler");
    assert(text::lower("soundhandler"@) =~= "soundhandler"@);
    let tags = json::field(Some(stream), "tags"@);
    let language = json::string(json::field(tags, "language"@));
    let front = "Track "@ + digits::decimal((place + 1) as nat);
    assert(front + Seq::<char>::empty() =~= front);
    if let Some(language) = language {
        let loud = probe::uppercase(language);
        assert(front + " · "@ + loud =~= front + (" · "@ + loud));
    }
}

/// Every audio stream with an index is told, in order.
pub proof fn law_tracks_are_told(streams: Seq<Tree>, n: nat) -> (places: Seq<int>)
    requires
        n <= streams.len(),
    ensures
        selection::picks(
            places,
            n as int,
            |k: int| json::count(json::field(Some(streams[k]), "index"@)) is Some,
        ),
        probe::listed_tracks(streams, n).len() == places.len(),
        forall|i: int|
            0 <= i < places.len() ==> is_track(
                #[trigger] probe::listed_tracks(streams, n)[i],
                streams[places[i]],
                places[i],
            ),
    decreases n,
{
    let keeps = |k: int| json::count(json::field(Some(streams[k]), "index"@)) is Some;
    if n == 0 {
        selection::lemma_pick_none(keeps);
        Seq::empty()
    } else {
        let before = law_tracks_are_told(streams, (n - 1) as nat);
        let kept = probe::listed_tracks(streams, (n - 1) as nat);
        let all = probe::listed_tracks(streams, n);
        selection::lemma_pick(before, n - 1, keeps);
        lemma_track(streams[n - 1], n - 1);
        if keeps(n - 1) {
            let places = before.push(n - 1);
            assert forall|i: int| 0 <= i < places.len() implies is_track(
                #[trigger] all[i],
                streams[places[i]],
                places[i],
            ) by {
                if i < before.len() {
                    assert(all[i] == kept[i]);
                    assert(places[i] == before[i]);
                }
            }
            places
        } else {
            before
        }
    }
}

// ---------------------------------------------------------------------------
// Chapters
// ---------------------------------------------------------------------------

/// Whether a marker of a video is taken as a chapter: its start is a time from
/// the start of the video on.
pub open spec fn is_marker(item: Tree) -> bool {
    let value = json::field(Some(item), "start_time"@);
    let start = if json::string(value) is Some {
        number::parsed(json::string(value)->0)
    } else {
        json::numeric(value)
    };
    start is Some && (start->0).finite() && (start->0).units() >= 0
}

/// Whether a chapter is the one that a marker describes, at a place among the
/// markers.
pub open spec fn is_chapter(chapter: Chapter, item: Tree, place: int) -> bool {
    let value = json::field(Some(item), "start_time"@);
    let title = json::string(json::field(json::field(Some(item), "tags"@), "title"@));
    &&& chapter.source_index == place
    &&& Some(chapter.start) == if json::string(value) is Some {
        number::parsed(json::string(value)->0)
    } else {
        json::numeric(value)
    }
    &&& title is Some ==> chapter.title == markdown::entry_text(title->0)
    &&& title is None ==> chapter.title == "Embedded marker "@ + digits::decimal(
        (place + 1) as nat,
    )
}

proof fn lemma_chapter(item: Tree, place: int)
    requires
        place >= 0,
    ensures
        chapters::chapter(item, place) is Some <==> is_marker(item),
        chapters::chapter(item, place) matches Some(chapter) ==> is_chapter(chapter, item, place),
{
    number::lemma_size_zero(0);
    let title = json::string(json::field(json::field(Some(item), "tags"@), "title"@));
    if let Some(title) = title {
        roundtrip::lemma_entry_text_tidy(title);
        let words = markdown::entry_text(title);
        assert(words[0] != ' ');
        crate::laws::law_entry_text_is_one_line(title);
        let plain = |c: char| c == ' ' || !text::is_white(c);
        assert(plain(words[0]));
        let (front, back) = wording::law_trimmed_is_inside(words);
        if text::trimmed(words).len() == 0 {
            let white = text::whites();
            assert(words =~= front + back);
            if front.len() > 0 {
                assert(white(front[0]));
                assert(words[0] == front[0]);
            } else {
                assert(white(back[0]));
                assert(words[0] == back[0]);
            }
            assert(false);
        }
    }
}

/// Every marker of a video becomes one chapter, and nothing else does; they
/// stand in the order of their starts.
pub proof fn law_markers_become_chapters(items: Seq<Tree>, n: nat) -> (places: Seq<int>)
    requires
        n <= items.len(),
    ensures
        places.len() == chapters::sorted_chapters(items, n).len(),
        places.no_duplicates(),
        forall|k: int| #[trigger] places.contains(k) <==> 0 <= k < n && is_marker(items[k]),
        forall|i: int|
            0 <= i < places.len() ==> is_chapter(
                #[trigger] chapters::sorted_chapters(items, n)[i],
                items[places[i]],
                places[i],
            ),
        forall|i: int, j: int|
            0 <= i <= j < places.len() ==> (#[trigger] chapters::sorted_chapters(
                items,
                n,
            )[i]).start.rank() <= (#[trigger] chapters::sorted_chapters(items, n)[j]).start.rank(),
    decreases n,
{
    chapters::law_chapters_are_sorted(items, n);
    if n == 0 {
        let none = Seq::<int>::empty();
        assert forall|k: int| #[trigger] none.contains(k) <==> 0 <= k < n && is_marker(
            items[k],
        ) by {}
        none
    } else {
        let before = law_markers_become_chapters(items, (n - 1) as nat);
        let kept = chapters::sorted_chapters(items, (n - 1) as nat);
        lemma_chapter(items[n - 1], n - 1);
        if let Some(c) = chapters::chapter(items[n - 1], n - 1) {
            let at = chapters::slot(kept, c.start, kept.len()) as int;
            lemma_slot(kept, c.start, kept.len());
            let places = before.insert(at, n - 1);
            let all = chapters::sorted_chapters(items, n);
            assert(!before.contains(n - 1));
            crate::listing::lemma_inserted(before, at, n - 1);
            assert forall|i: int| 0 <= i < places.len() implies is_chapter(
                #[trigger] all[i],
                items[places[i]],
                places[i],
            ) by {
                if i < at {
                    assert(all[i] == kept[i] && places[i] == before[i]);
                } else if i > at {
                    assert(all[i] == kept[i - 1] && places[i] == before[i - 1]);
                }
            }
            places
        } else {
            before
        }
    }
}

proof fn lemma_slot(list: Seq<Chapter>, start: Binary64, n: nat)
    ensures
        chapters::slot(list, start, n) <= n,
    decreases n,
{
    if n > 0 {
        lemma_slot(list, start, (n - 1) as nat);
    }
}

// ---------------------------------------------------------------------------
// Reports
// ---------------------------------------------------------------------------

/// Of a report the last lines are told, or all of them where there are no more.
pub proof fn law_last_lines_are_told(report: Seq<char>, n: int) -> (told: Seq<Seq<char>>)
    requires
        n >= 0,
    ensures
        arguments::tail(report, n) == text::joined(told, " "@),
        told.len() <= n,
        told.len() == n || told == text::lines_of(report),
        forall|i: int|
            0 <= i < told.len() ==> #[trigger] told[i] == text::lines_of(
                report,
            )[text::lines_of(report).len() - told.len() + i],
{
    let lines = text::lines_of(report);
    if lines.len() > n {
        lines.skip(lines.len() - n)
    } else {
        lines
    }
}

// ---------------------------------------------------------------------------
// Fingerprints and codes
// ---------------------------------------------------------------------------

/// Files of another size or another time have other identities.
pub proof fn law_stamps_tell_files_apart(a: FileStamp, b: FileStamp)
    requires
        fingerprint::stamp_text(a) == fingerprint::stamp_text(b),
    ensures
        a.size == b.size,
        a.seconds == b.seconds,
        a.nanos == b.nanos,
{
    let p = lemma_stamp_pieces(a);
    let q = lemma_stamp_pieces(b);
    assert(p =~= q);
    assert(p[0] == q[0] && p[1] == q[1] && p[2] == q[2]);
    digits::lemma_decimal_injective(a.size as nat, b.size as nat);
    digits::lemma_decimal_injective(a.seconds as nat, b.seconds as nat);
    digits::lemma_decimal_injective(a.nanos as nat, b.nanos as nat);
}

proof fn lemma_stamp_pieces(stamp: FileStamp) -> (parts: Seq<Seq<char>>)
    ensures
        parts == seq![
            digits::decimal(stamp.size as nat),
            digits::decimal(stamp.seconds as nat),
            digits::decimal(stamp.nanos as nat),
        ],
        text::pieces(fingerprint::stamp_text(stamp), "\0"@) == parts,
{
    reveal_strlit("\0");
    let a = digits::decimal(stamp.size as nat);
    let b = digits::decimal(stamp.seconds as nat);
    let c = digits::decimal(stamp.nanos as nat);
    digits::lemma_decimal(stamp.size as nat);
    digits::lemma_decimal(stamp.seconds as nat);
    digits::lemma_decimal(stamp.nanos as nat);
    let parts = seq![a, b, c];
    assert("\0"@ =~= seq!['\0']);
    let two = seq![a, b];
    assert(parts.drop_last() =~= two);
    assert(two.drop_last() =~= seq![a]);
    assert(text::joined(seq![a], "\0"@) == a);
    assert(text::joined(two, "\0"@) == a + "\0"@ + b);
    assert(text::joined(parts, "\0"@) == fingerprint::stamp_text(stamp));
    assert forall|i: int| 0 <= i < parts.len() implies !(#[trigger] parts[i]).contains('\0') by {
        let part = parts[i];
        if part.contains('\0') {
            let k = choose|k: int| 0 <= k < part.len() && part[k] == '\0';
            assert(text::is_digit(part[k]));
        }
    }
    wording::law_joined_parts_come_back(parts, '\0');
    parts
}

/// The value of a hexadecimal text is that of its digits, each sixteen times
/// that of the next.
pub proof fn law_hexadecimal_numbers_are_read(front: Seq<char>, c: char)
    ensures
        ids::hex_number(front.push(c)) == 16 * ids::hex_number(front) + ids::hex_value(c),
        ids::hex_number(Seq::empty()) == 0,
{
    assert(front.push(c).drop_last() =~= front);
}

/// A code tells the first eight digits of an identifier, in the last six
/// digits of their decimal value.
pub proof fn law_codes_tell_identifiers(id: Seq<char>)
    ensures
        digits::value(ids::code_of(id)) == ids::hex_number(id.take(8)) % 1_000_000,
        ids::code_of(id).len() == 6,
{
    let n = ids::hex_number(id.take(8)) % 1_000_000;
    digits::lemma_decimal(n);
    digits::lemma_padded(digits::decimal(n), 6);
    ids::law_code_is_six_digits(id);
}

// ---------------------------------------------------------------------------
// Opened videos and sessions
// ---------------------------------------------------------------------------

/// A sidecar is left as it is but for chapters that are imported, which only
/// videos with chapters have, and only once.
pub proof fn law_sidecars_are_left_alone(
    video: FilePath,
    markdown: Seq<char>,
    found: Option<(Seq<char>, Seq<Chapter>)>,
)
    ensures
        found is None || chapters::is_imported(markdown) || !paths::is_chapter_kind(video.kind())
            ==> sidecar::loaded(video, markdown, found) == markdown,
        found is Some && !chapters::is_imported(markdown) && paths::is_chapter_kind(video.kind())
            ==> Some(sidecar::loaded(video, markdown, found)) == chapters::merged(
            markdown,
            (found->0).1,
            (found->0).0,
        ),
{
}

/// A session starts with the sidecar of the host, where they stopped to play it,
/// at its own speed, and with nobody else.
pub proof fn law_sessions_start_fresh(markdown: Seq<char>)
    ensures
        ({
            let shared = protocol::opened(markdown);
            &&& shared.sequence == 0 && shared.revision == 0
            &&& shared.markdown == markdown
            &&& shared.transport.position == markdown::position_of(markdown)
            &&& !shared.transport.playing
            &&& shared.transport.playback_rate.units() == power2::pow2(1074)
            &&& shared.events.len() == 0
            &&& forall|id: Seq<char>| !#[trigger] shared.peers.dom().contains(id)
        }),
{
    number::lemma_natural_exact(1);
    assert(1 * power2::pow2(1074) == power2::pow2(1074));
}

/// The waveform of a file is told from those of the same file at another time
/// or size, and from those of other files.
pub proof fn law_cached_waveforms_are_told_apart(
    path: Seq<char>,
    a: FileStamp,
    other: Seq<char>,
    b: FileStamp,
)
    ensures
        waveform::cache_identity(path, a) == waveform::cache_identity(path, b) ==> a.size == b.size
            && a.seconds == b.seconds && a.nanos == b.nanos,
        waveform::cache_identity(path, a) == waveform::cache_identity(other, a) ==> path == other,
{
    let front = waveform::WAVEFORM_CACHE_VERSION@ + "\0"@;
    let x = fingerprint::stamp_text(a);
    let y = fingerprint::stamp_text(b);
    if waveform::cache_identity(path, a) == waveform::cache_identity(path, b) {
        let head = front + path + "\0"@;
        let p = waveform::cache_identity(path, a);
        let q = waveform::cache_identity(path, b);
        assert(p =~= head + x);
        assert(q =~= head + y);
        assert(p.skip(head.len() as int) =~= x);
        assert(q.skip(head.len() as int) =~= y);
        law_stamps_tell_files_apart(a, b);
    }
    if waveform::cache_identity(path, a) == waveform::cache_identity(other, a) {
        let p = waveform::cache_identity(path, a);
        let q = waveform::cache_identity(other, a);
        let tail = "\0"@ + x;
        assert(p =~= front + path + tail);
        assert(q =~= front + other + tail);
        let n = front.len() as int;
        assert(p.subrange(n, p.len() - tail.len()) =~= path);
        assert(q.subrange(n, q.len() - tail.len()) =~= other);
    }
}

/// A piece is analysed exactly where nothing stands in its way.
pub proof fn law_analysis_is_begun(
    job: JobState,
    model: Seq<char>,
    video_exists: bool,
    has_ffmpeg: bool,
)
    ensures
        analysis::chunk_refusal(job, model, video_exists, has_ffmpeg) is None <==> job
            == JobState::Active && text::trimmed(model).len() > 0 && video_exists && has_ffmpeg,
{
}

/// A waveform is made of a video with sound, where FFmpeg is there; files are
/// written where the video and the folder are there.
pub proof fn law_nothing_is_made_of_nothing(
    video_exists: bool,
    has_ffmpeg: bool,
    streams: nat,
    folder_exists: bool,
)
    ensures
        waveform::wave_refusal(video_exists, has_ffmpeg, streams) is None <==> video_exists
            && has_ffmpeg && streams > 0,
        export::manifest_refusal(video_exists, folder_exists) is None <==> video_exists
            && folder_exists,
        export::folder_refusal(video_exists, folder_exists) is None <==> video_exists
            && folder_exists,
{
}

/// The folder for the clips of a video is named after it; the number of the try
/// is told from the second one on.
pub proof fn law_folders_are_named_after_the_video(video: FilePath, tries: nat)
    ensures
        tries < 2 ==> export::folder_name(video, tries) == "FrameNote - "@ + export::file_component(
            video.stem_or("Video"@),
            70,
        ),
        tries >= 2 ==> export::folder_name(video, tries) == export::folder_name(video, 1) + " "@
            + digits::decimal(tries),
{
}

/// What is told of a sidecar is what it holds.
pub proof fn law_documents_are_described(
    document: SidecarDocument,
    video: FilePath,
    path: Seq<char>,
    markdown: Seq<char>,
)
    requires
        document.describes(video, path, markdown),
    ensures
        document.markdown@ == markdown,
        document.sidecar_path@ == path,
        document.video_path@ == video.text(),
        document.playback_position == markdown::position_of(markdown),
        video.name() matches Some(name) ==> document.video_name@ == name && document.video_path@
            == video.directory@ + name,
{
}

/// A model is asked for under its own name everywhere but at the cloud.
pub proof fn law_models_keep_their_names(host: Option<Seq<char>>, model: Seq<char>)
    requires
        host is None || text::lower(host->0) != "ollama.com"@,
    ensures
        address::model_name(host, model) == text::trimmed(model),
{
    reveal_strlit("ollama.com");
    assert(text::lower("ollama.com"@) =~= "ollama.com"@);
}

/// A question tells the name of the video and the times of the piece.
pub proof fn law_questions_name_the_piece(name: Seq<char>, start: Binary64, end: Binary64)
    ensures
        analysis::piece_words(name, start, end) == "\n\nVideo: "@ + name + "\nChunk: "@
            + clock::timestamp(start) + " to "@ + clock::timestamp(end),
{
}

// ---------------------------------------------------------------------------
// What values hold
// ---------------------------------------------------------------------------

/// A passage is seen with its times, its words and its names.
pub proof fn law_passages_are_seen(cue: TranscriptCue, answered: GeminiTranscriptCue)
    ensures
        cue@.start == cue.start_seconds && cue@.end == cue.end_seconds,
        cue@.text == cue.text@ && cue@.speaker == cue.speaker@ && cue@.language == cue.language@,
        answered@.start == answered.start && answered@.end == answered.end,
        answered@.text == answered.text@ && answered@.speaker == answered.speaker@,
        answered@.language == answered.language@,
{
}

/// A clip is seen with its files, its bounds and its label.
pub proof fn law_clips_are_seen(clip: export::ExportManifestClip)
    ensures
        clip@.file == clip.file_name@ && clip@.subtitles == clip.subtitle_file_name@,
        clip@.start == clip.start_seconds && clip@.end == clip.end_seconds,
        clip@.label == clip.label@,
{
}

/// A chapter and a track are seen with all that they hold.
pub proof fn law_chapters_are_seen(chapter: chapters::EmbeddedChapter, track: AudioTrackInfo)
    ensures
        chapter@.source_index == chapter.source_index,
        chapter@.start == chapter.start_seconds && chapter@.title == chapter.title@,
        track@.index == track.stream_index && track@.label == track.label@,
        track@.language == text::opt(track.language) && track@.codec == track.codec@,
        track@.channels == track.channels,
{
}

/// A reply is seen as what it is.
pub proof fn law_replies_are_seen(reply: MediaReply, mixed: MixReply)
    ensures
        reply matches MediaReply::Status(status) ==> reply@ == Answer::Status(status as int),
        reply is Head <==> reply@ is Head,
        reply is Part <==> reply@ is Part,
        reply matches MediaReply::Part { status, first, length, .. } ==> reply@->Part_status
            == status && reply@->Part_first == first && reply@->Part_length == length,
        reply matches MediaReply::Head { status, length, .. } ==> reply@->Head_status == status
            && reply@->Head_length == length,
        mixed matches MixReply::Status(status) ==> mixed@ == MixAnswer::Status(status as int),
        mixed is Head <==> mixed@ is Head,
        mixed is NoFfmpeg <==> mixed@ is NoFfmpeg,
        mixed is Stream <==> mixed@ is Stream,
        mixed matches MixReply::Stream(args) ==> mixed@->Stream_0 == text::views(args@),
{
}

/// What an analysis does next is seen as what it is.
pub proof fn law_actions_are_seen(action: ChunkAction)
    ensures
        action matches ChunkAction::Sample { start, end, count } ==> action@ == (Action::Sample {
            start,
            end,
            count: count as nat,
        }),
        action matches ChunkAction::Hear { start, end } ==> action@ == (Action::Hear {
            start,
            end,
        }),
        action is ReadCompanions <==> action@ is ReadCompanions,
        action is Transcribe <==> action@ is Transcribe,
        action is AskGemini <==> action@ is AskGemini,
        action is AskOllama <==> action@ is AskOllama,
        action matches ChunkAction::Finish(Ok(result)) ==> {
            &&& action@ is Finish && action@->Finish_0 is Ok
            &&& action@->Finish_0->Ok_0.summary == result.summary@
            &&& action@->Finish_0->Ok_0.frames == result.frame_count
            &&& action@->Finish_0->Ok_0.cues.len() == result.transcript_cues@.len()
            &&& forall|i: int|
                0 <= i < result.transcript_cues@.len()
                    ==> #[trigger] action@->Finish_0->Ok_0.cues[i] == result.transcript_cues@[i]@
            &&& action@->Finish_0->Ok_0.complete == result.transcript_complete
        },
        action matches ChunkAction::Finish(Err(message)) ==> action@ == Action::Finish(
            Err(message@),
        ),
{
}

/// A waveform has a hundred peaks for each second.
pub proof fn law_waveforms_have_their_rate(data: WaveformData, bytes: Seq<u8>)
    requires
        waveform::is_waveform(data, bytes),
    ensures
        data.samples_per_second.units() == 100 * power2::pow2(1074),
        4 * data.peaks@.len() >= bytes.len() / 4,
        4 * data.peaks@.len() < bytes.len() / 4 + 4,
{
    number::lemma_natural_exact(100);
}

/// A number above a limit is not read, nor one with anything but digits.
pub proof fn law_numbers_have_limits(n: nat, max: nat)
    ensures
        digits::unsigned(digits::decimal(n), max) == if n <= max {
            Some(n)
        } else {
            None
        },
        digits::unsigned(Seq::empty(), max) is None,
{
    digits::lemma_decimal(n);
    assert(text::is_digit(digits::decimal(n)[0]));
}

} // verus!
