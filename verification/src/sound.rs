//! How the audio streams of a video are mixed, and how their sound is drawn.

use vstd::arithmetic::power2;
use vstd::prelude::*;

use crate::address;
use crate::clips;
use crate::digits;
use crate::media;
use crate::mix;
use crate::number;
use crate::selection;
use crate::single;
use crate::single::Binary32;
use crate::speech;
use crate::text;
use crate::timeline;
use crate::waveform;
use crate::waveform::WaveformData;

verus! {

// ---------------------------------------------------------------------------
// Queries
// ---------------------------------------------------------------------------

/// Whether a value is the one that counts for a name: no later pair has the
/// name.
pub open spec fn counts(
    pairs: Seq<(Seq<char>, Seq<char>)>,
    name: Seq<char>,
    value: Seq<char>,
) -> bool {
    exists|k: int|
        0 <= k < pairs.len() && #[trigger] pairs[k] == (name, value) && forall|j: int|
            k < j < pairs.len() ==> (#[trigger] pairs[j]).0 != name
}

/// Of the pairs of a query with a name the last one counts, and there is a
/// value exactly where there is such a pair.
pub proof fn law_last_value_counts(pairs: Seq<(Seq<char>, Seq<char>)>, name: Seq<char>)
    ensures
        match mix::query_value(pairs, name) {
            Some(value) => counts(pairs, name, value),
            None => forall|k: int| 0 <= k < pairs.len() ==> (#[trigger] pairs[k]).0 != name,
        },
{
    lemma_last_value(pairs, name, pairs.len());
}

proof fn lemma_last_value(pairs: Seq<(Seq<char>, Seq<char>)>, name: Seq<char>, n: nat)
    requires
        n <= pairs.len(),
        forall|j: int| n <= j < pairs.len() ==> (#[trigger] pairs[j]).0 != name,
    ensures
        match mix::last_value(pairs, name, n) {
            Some(value) => counts(pairs, name, value),
            None => forall|k: int| 0 <= k < pairs.len() ==> (#[trigger] pairs[k]).0 != name,
        },
    decreases n,
{
    if n > 0 {
        if pairs[n - 1].0 == name {
            assert(pairs[n - 1] == (name, pairs[n - 1].1));
        } else {
            lemma_last_value(pairs, name, (n - 1) as nat);
        }
    }
}

// ---------------------------------------------------------------------------
// Mixes
// ---------------------------------------------------------------------------

/// The parts of the list that a request gives under a name.
pub open spec fn listed(pairs: Seq<(Seq<char>, Seq<char>)>, name: Seq<char>) -> Seq<Seq<char>> {
    match mix::query_value(pairs, name) {
        Some(value) => text::pieces(value, ","@),
        None => Seq::empty(),
    }
}

/// Whether a level is that of a value: silence below it, twice its own above
/// it, and the value itself between them.
pub open spec fn is_level(level: Binary32, value: Binary32) -> bool {
    let silence = Binary32 { bits: 0 };
    let twice = Binary32 { bits: 0x4000_0000 };
    &&& value.lt(silence) ==> level == silence
    &&& twice.lt(value) ==> level == twice
    &&& !value.lt(silence) && !twice.lt(value) ==> level == value
}

proof fn lemma_streams(parts: Seq<Seq<char>>, n: nat) -> (places: Seq<int>)
    requires
        n <= parts.len(),
    ensures
        selection::picks(
            places,
            n as int,
            |k: int| digits::unsigned(parts[k], u32::MAX as nat) is Some,
        ),
        mix::listed_streams(parts, n).len() == speech::earlier(places.len() as int, 16),
        forall|i: int|
            0 <= i < mix::listed_streams(parts, n).len() ==> digits::unsigned(
                parts[places[i]],
                u32::MAX as nat,
            ) == Some(#[trigger] mix::listed_streams(parts, n)[i] as nat),
    decreases n,
{
    let keeps = |k: int| digits::unsigned(parts[k], u32::MAX as nat) is Some;
    if n == 0 {
        selection::lemma_pick_none(keeps);
        Seq::empty()
    } else {
        let before = lemma_streams(parts, (n - 1) as nat);
        let kept = mix::listed_streams(parts, (n - 1) as nat);
        let all = mix::listed_streams(parts, n);
        selection::lemma_pick(before, n - 1, keeps);
        if keeps(n - 1) {
            let places = before.push(n - 1);
            assert forall|i: int| 0 <= i < all.len() implies digits::unsigned(
                parts[places[i]],
                u32::MAX as nat,
            ) == Some(#[trigger] all[i] as nat) by {
                if i < kept.len() {
                    assert(all[i] == kept[i]);
                    assert(places[i] == before[i]);
                }
            }
            places
        } else {
            before
        }
    }
}

proof fn lemma_levels(parts: Seq<Seq<char>>, limit: nat, n: nat) -> (places: Seq<int>)
    requires
        n <= parts.len(),
    ensures
        selection::picks(places, n as int, |k: int| single::parsed(parts[k]) is Some),
        mix::listed_levels(parts, limit, n).len() == speech::earlier(
            places.len() as int,
            limit as int,
        ),
        forall|i: int|
            0 <= i < mix::listed_levels(parts, limit, n).len() ==> is_level(
                #[trigger] mix::listed_levels(parts, limit, n)[i],
                single::parsed(parts[places[i]])->0,
            ),
    decreases n,
{
    let keeps = |k: int| single::parsed(parts[k]) is Some;
    if n == 0 {
        selection::lemma_pick_none(keeps);
        Seq::empty()
    } else {
        let before = lemma_levels(parts, limit, (n - 1) as nat);
        let kept = mix::listed_levels(parts, limit, (n - 1) as nat);
        let all = mix::listed_levels(parts, limit, n);
        selection::lemma_pick(before, n - 1, keeps);
        if keeps(n - 1) {
            let places = before.push(n - 1);
            assert forall|i: int| 0 <= i < all.len() implies is_level(
                #[trigger] all[i],
                single::parsed(parts[places[i]])->0,
            ) by {
                if i < kept.len() {
                    assert(all[i] == kept[i]);
                    assert(places[i] == before[i]);
                } else {
                    number::lemma_steps_grow(number::single(), 0, 0x4000_0000);
                }
            }
            places
        } else {
            before
        }
    }
}

/// The filter that sets the level of a stream.
pub open spec fn volume(stream: nat, level: Binary32, place: int) -> Seq<char> {
    "[0:"@ + digits::decimal(stream) + "]volume="@ + level.fixed() + "[a"@ + digits::decimal(
        place as nat,
    ) + "]"@
}

/// The filter behind the volumes: it takes every stream, in order, and brings
/// them to one output.
pub open spec fn gathered(n: nat, output: Seq<char>) -> Seq<char> {
    if n == 1 {
        "[a0]anull["@ + output + "]"@
    } else {
        clips::in_a_row(Seq::new(n, |k: int| "[a"@ + digits::decimal(k as nat) + "]"@))
            + "amix=inputs="@ + digits::decimal(n)
            + ":duration=longest:normalize=1:dropout_transition=0["@ + output + "]"@
    }
}

proof fn lemma_pads(n: nat)
    ensures
        mix::pads(n) == clips::in_a_row(
            Seq::new(n, |k: int| "[a"@ + digits::decimal(k as nat) + "]"@),
        ),
    decreases n,
{
    let parts = Seq::new(n, |k: int| "[a"@ + digits::decimal(k as nat) + "]"@);
    if n > 0 {
        lemma_pads((n - 1) as nat);
        let before = Seq::new(
            (n - 1) as nat,
            |k: int| "[a"@ + digits::decimal(k as nat) + "]"@,
        );
        let pad = "[a"@ + digits::decimal((n - 1) as nat) + "]"@;
        assert(parts =~= before.push(pad));
        clips::lemma_in_a_row(before, pad);
    }
}

/// Every stream is prepared for the mix once, and all of them are mixed.
pub proof fn law_all_streams_are_gathered(n: nat, output: Seq<char>)
    ensures
        mix::mixer(n, output) == gathered(n, output),
{
    lemma_pads(n);
}

proof fn lemma_level_filters(streams: Seq<u32>, levels: Seq<Binary32>, n: nat)
    requires
        n <= streams.len() == levels.len(),
    ensures
        mix::level_filters(streams, levels, n) == Seq::new(
            n,
            |i: int| volume(streams[i] as nat, levels[i], i),
        ),
    decreases n,
{
    if n > 0 {
        lemma_level_filters(streams, levels, (n - 1) as nat);
    }
    assert(mix::level_filters(streams, levels, n) =~= Seq::new(
        n,
        |i: int| volume(streams[i] as nat, levels[i], i),
    ));
}

/// Whether a filter takes the stream that a request names, at the level that it
/// names, or at its own where it names none.
pub open spec fn is_volume(
    filter: Seq<char>,
    place: int,
    track: Seq<char>,
    asked: Option<Seq<char>>,
) -> bool {
    exists|level: Binary32|
        {
            &&& filter == #[trigger] volume(
                digits::unsigned(track, u32::MAX as nat)->0,
                level,
                place,
            )
            &&& match asked {
                Some(value) => is_level(level, single::parsed(value)->0),
                None => level == Binary32 { bits: 0x3f80_0000 },
            }
        }
}

/// Whether the filters of a graph are those of a request: the k-th one takes
/// the k-th stream that the request names, at the k-th level that it names.
pub open spec fn are_volumes(
    filters: Seq<Seq<char>>,
    tracks: Seq<Seq<char>>,
    track_places: Seq<int>,
    volumes: Seq<Seq<char>>,
    volume_places: Seq<int>,
) -> bool {
    &&& filters.len() == speech::earlier(track_places.len() as int, 16)
    &&& forall|k: int|
        0 <= k < filters.len() ==> is_volume(
            #[trigger] filters[k],
            k,
            tracks[track_places[k]],
            if k < volume_places.len() {
                Some(volumes[volume_places[k]])
            } else {
                None
            },
        )
}

/// The levels of the streams of two lists.
spec fn levels_for(volumes: Seq<Seq<char>>, count: nat) -> Seq<Binary32> {
    let named = mix::listed_levels(volumes, count, volumes.len());
    Seq::new(
        count,
        |i: int|
            if i < named.len() {
                named[i]
            } else {
                Binary32 { bits: 0x3f80_0000 }
            },
    )
}

proof fn lemma_volumes(tracks: Seq<Seq<char>>, volumes: Seq<Seq<char>>) -> (r: (Seq<int>, Seq<int>))
    ensures
        ({
            let streams = mix::listed_streams(tracks, tracks.len());
            &&& selection::picks(
                r.0,
                tracks.len() as int,
                |k: int| digits::unsigned(tracks[k], u32::MAX as nat) is Some,
            )
            &&& selection::picks(
                r.1,
                volumes.len() as int,
                |k: int| single::parsed(volumes[k]) is Some,
            )
            &&& are_volumes(
                mix::level_filters(streams, levels_for(volumes, streams.len()), streams.len()),
                tracks,
                r.0,
                volumes,
                r.1,
            )
        }),
{
    let streams = mix::listed_streams(tracks, tracks.len());
    let n = streams.len();
    let named = mix::listed_levels(volumes, n, volumes.len());
    let levels = levels_for(volumes, n);
    let track_places = lemma_streams(tracks, tracks.len());
    let volume_places = lemma_levels(volumes, n, volumes.len());
    let filters = mix::level_filters(streams, levels, n);
    lemma_level_filters(streams, levels, n);
    assert forall|k: int| 0 <= k < filters.len() implies is_volume(
        #[trigger] filters[k],
        k,
        tracks[track_places[k]],
        if k < volume_places.len() {
            Some(volumes[volume_places[k]])
        } else {
            None
        },
    ) by {
        lemma_volume(tracks[track_places[k]], streams[k], levels[k], k);
        assert(filters[k] == volume(streams[k] as nat, levels[k], k));
        if k < volume_places.len() {
            assert(levels[k] == named[k]);
        } else {
            assert(levels[k] == Binary32 { bits: 0x3f80_0000 });
        }
    }
    (track_places, volume_places)
}

proof fn lemma_volume(track: Seq<char>, stream: u32, level: Binary32, place: int)
    requires
        digits::unsigned(track, u32::MAX as nat) == Some(stream as nat),
    ensures
        volume(digits::unsigned(track, u32::MAX as nat)->0, level, place) == volume(
            stream as nat,
            level,
            place,
        ),
{
}

/// A mix plays every stream that a request names, each at its own level, and
/// nothing else.
pub proof fn law_every_stream_has_its_level(pairs: Seq<(Seq<char>, Seq<char>)>) -> (r: (
    Seq<int>,
    Seq<int>,
    Seq<Seq<char>>,
))
    ensures
        ({
            let tracks = listed(pairs, "tracks"@);
            let volumes = listed(pairs, "volumes"@);
            let streams = mix::streams_of(pairs);
            &&& selection::picks(
                r.0,
                tracks.len() as int,
                |k: int| digits::unsigned(tracks[k], u32::MAX as nat) is Some,
            )
            &&& selection::picks(
                r.1,
                volumes.len() as int,
                |k: int| single::parsed(volumes[k]) is Some,
            )
            &&& streams.len() == r.2.len()
            &&& are_volumes(r.2, tracks, r.0, volumes, r.1)
            &&& mix::mix_graph(streams, mix::levels_of(pairs, streams.len())) == text::joined(
                r.2.push(gathered(r.2.len(), "mix"@)),
                ";"@,
            )
        }),
{
    let tracks = listed(pairs, "tracks"@);
    let volumes = listed(pairs, "volumes"@);
    let streams = mix::streams_of(pairs);
    let levels = mix::levels_of(pairs, streams.len());
    let filters = mix::level_filters(streams, levels, streams.len());
    let places = lemma_volumes(tracks, volumes);
    assert(streams =~= mix::listed_streams(tracks, tracks.len()));
    assert(levels =~= levels_for(volumes, streams.len()));
    law_all_streams_are_gathered(streams.len(), "mix"@);
    lemma_level_filters(streams, levels, streams.len());
    (places.0, places.1, filters)
}

/// The level of one stream concerns no other: where two lists of readable
/// levels differ in one place, so do the filters, and in no other.
pub proof fn law_volume_changes_one_filter(
    streams: Seq<u32>,
    volumes: Seq<Seq<char>>,
    others: Seq<Seq<char>>,
    changed: int,
    k: int,
)
    requires
        volumes.len() == others.len() >= streams.len(),
        forall|i: int| 0 <= i < volumes.len() ==> single::parsed(#[trigger] volumes[i]) is Some,
        forall|i: int| 0 <= i < others.len() ==> single::parsed(#[trigger] others[i]) is Some,
        forall|i: int|
            0 <= i < volumes.len() && i != changed ==> #[trigger] volumes[i] == others[i],
        0 <= k < streams.len(),
        k != changed,
    ensures
        ({
            let n = streams.len();
            let levels = mix::listed_levels(volumes, n, volumes.len());
            let new_levels = mix::listed_levels(others, n, others.len());
            mix::level_filters(streams, levels, n)[k] == mix::level_filters(
                streams,
                new_levels,
                n,
            )[k]
        }),
{
    let n = streams.len();
    lemma_readable_levels(volumes, n, volumes.len());
    lemma_readable_levels(others, n, others.len());
    let levels = mix::listed_levels(volumes, n, volumes.len());
    let new_levels = mix::listed_levels(others, n, others.len());
    lemma_level_filters(streams, levels, n);
    lemma_level_filters(streams, new_levels, n);
    assert(levels[k] == mix::level(single::parsed(volumes[k])->0));
    assert(new_levels[k] == mix::level(single::parsed(others[k])->0));
    assert(volumes[k] == others[k]);
}

proof fn lemma_readable_levels(parts: Seq<Seq<char>>, limit: nat, n: nat)
    requires
        n <= parts.len(),
        forall|i: int| 0 <= i < parts.len() ==> single::parsed(#[trigger] parts[i]) is Some,
    ensures
        mix::listed_levels(parts, limit, n).len() == speech::earlier(n as int, limit as int),
        forall|i: int|
            0 <= i < mix::listed_levels(parts, limit, n).len() ==> #[trigger] mix::listed_levels(
                parts,
                limit,
                n,
            )[i] == mix::level(single::parsed(parts[i])->0),
    decreases n,
{
    if n > 0 {
        lemma_readable_levels(parts, limit, (n - 1) as nat);
        assert(single::parsed(parts[n - 1]) is Some);
    }
}

// ---------------------------------------------------------------------------
// Peaks
// ---------------------------------------------------------------------------

/// Whether a value is the loudness that four bytes give, the least significant
/// one first, whatever the sign.
pub open spec fn is_loudness(value: Binary32, b0: u8, b1: u8, b2: u8, b3: u8) -> bool {
    &&& value.bits % 0x100 == b0
    &&& (value.bits / 0x100) % 0x100 == b1
    &&& (value.bits / 0x1_0000) % 0x100 == b2
    &&& value.bits / 0x100_0000 == b3 % 0x80
}

proof fn lemma_bytes(b0: nat, b1: nat, b2: nat, c: nat)
    requires
        b0 < 0x100,
        b1 < 0x100,
        b2 < 0x100,
    ensures
        ({
            let bits = b0 + 0x100 * b1 + 0x1_0000 * b2 + 0x100_0000 * c;
            &&& bits % 0x100 == b0
            &&& (bits / 0x100) % 0x100 == b1
            &&& (bits / 0x1_0000) % 0x100 == b2
            &&& bits / 0x100_0000 == c
        }),
{
    let bits = (b0 + 0x100 * b1 + 0x1_0000 * b2 + 0x100_0000 * c) as int;
    let high = (b2 + 0x100 * c) as int;
    let middle = b1 + 0x100 * high;
    vstd::arithmetic::div_mod::lemma_fundamental_div_mod_converse(bits, 0x100, middle, b0 as int);
    vstd::arithmetic::div_mod::lemma_fundamental_div_mod_converse(middle, 0x100, high, b1 as int);
    vstd::arithmetic::div_mod::lemma_fundamental_div_mod_converse(
        bits,
        0x1_0000,
        high,
        (b0 + 0x100 * b1) as int,
    );
    vstd::arithmetic::div_mod::lemma_fundamental_div_mod_converse(high, 0x100, c as int, b2 as int);
    vstd::arithmetic::div_mod::lemma_fundamental_div_mod_converse(
        bits,
        0x100_0000,
        c as int,
        (b0 + 0x100 * b1 + 0x1_0000 * b2) as int,
    );
}

proof fn lemma_sample(bytes: Seq<u8>, i: int)
    requires
        0 <= i < bytes.len() / 4,
    ensures
        is_loudness(
            waveform::sample(bytes, i),
            bytes[4 * i],
            bytes[4 * i + 1],
            bytes[4 * i + 2],
            bytes[4 * i + 3],
        ),
{
    let b0 = bytes[4 * i] as nat;
    let b1 = bytes[4 * i + 1] as nat;
    let b2 = bytes[4 * i + 2] as nat;
    let b3 = bytes[4 * i + 3] as nat;
    let value = waveform::sample(bytes, i);
    let c = b3 % 0x80;
    assert(value.bits == b0 + 0x100 * b1 + 0x1_0000 * b2 + 0x100_0000 * c);
    lemma_bytes(b0, b1, b2, c);
}

/// Every four bytes that FFmpeg decoded are a sample, in order.
pub proof fn law_samples_are_decoded(bytes: Seq<u8>)
    ensures
        waveform::samples(bytes).len() == bytes.len() / 4,
        forall|i: int|
            0 <= i < bytes.len() / 4 ==> is_loudness(
                #[trigger] waveform::samples(bytes)[i],
                bytes[4 * i],
                bytes[4 * i + 1],
                bytes[4 * i + 2],
                bytes[4 * i + 3],
            ),
{
    assert forall|i: int| 0 <= i < bytes.len() / 4 implies is_loudness(
        #[trigger] waveform::samples(bytes)[i],
        bytes[4 * i],
        bytes[4 * i + 1],
        bytes[4 * i + 2],
        bytes[4 * i + 3],
    ) by {
        lemma_sample(bytes, i);
    }
}

proof fn lemma_loudest(loud: Seq<Binary32>, from: int, to: int)
    requires
        0 <= from <= to <= loud.len(),
        forall|i: int| 0 <= i < loud.len() ==> !(#[trigger] loud[i]).is_negative(),
    ensures
        ({
            let best = waveform::loudest(loud, from, to);
            &&& !best.is_nan()
            &&& !best.is_negative()
            &&& forall|i: int| from <= i < to ==> !best.lt(#[trigger] loud[i])
            &&& best == (Binary32 { bits: 0 }) || exists|i: int|
                from <= i < to && best == #[trigger] loud[i]
        }),
    decreases to - from,
{
    if from < to {
        lemma_loudest(loud, from, to - 1);
        let before = waveform::loudest(loud, from, to - 1);
        let best = waveform::loudest(loud, from, to);
        assert(!loud[to - 1].is_negative());
        assert forall|i: int| from <= i < to implies !best.lt(#[trigger] loud[i]) by {
            if i < to - 1 {
                assert(!before.lt(loud[i]));
            }
        }
        if best == before && best != (Binary32 { bits: 0 }) {
            let i = choose|i: int| from <= i < to - 1 && before == #[trigger] loud[i];
            assert(best == loud[i]);
        }
    }
}

/// No sample is left out: every four of them, the last ones fewer, give one
/// peak, which none of them is louder than, and which is silence or one of
/// them.
pub proof fn law_no_sample_is_left_out(bytes: Seq<u8>)
    ensures
        ({
            let loud = waveform::samples(bytes);
            let peaks = waveform::peaks_of(loud);
            &&& 4 * peaks.len() >= loud.len()
            &&& 4 * peaks.len() < loud.len() + 4
            &&& forall|i: int|
                0 <= i < loud.len() ==> !peaks[i / 4].lt(#[trigger] loud[i])
            &&& forall|k: int|
                0 <= k < peaks.len() ==> (!(#[trigger] peaks[k]).is_nan() && !peaks[k].is_negative()
                    && (peaks[k] == (Binary32 { bits: 0 }) || exists|i: int|
                    4 * k <= i < 4 * k + 4 && i < loud.len() && peaks[k] == #[trigger] loud[i]))
        }),
{
    let loud = waveform::samples(bytes);
    let peaks = waveform::peaks_of(loud);
    assert forall|i: int| 0 <= i < loud.len() implies !(#[trigger] loud[i]).is_negative() by {}
    assert forall|i: int| 0 <= i < loud.len() implies !peaks[i / 4].lt(#[trigger] loud[i]) by {
        let k = i / 4;
        let to = speech::earlier(4 * k + 4, loud.len() as int);
        assert(4 * k <= i < to);
        lemma_loudest(loud, 4 * k, to);
    }
    assert forall|k: int| 0 <= k < peaks.len() implies (!(#[trigger] peaks[k]).is_nan()
        && !peaks[k].is_negative() && (peaks[k] == (Binary32 { bits: 0 }) || exists|i: int|
        4 * k <= i < 4 * k + 4 && i < loud.len() && peaks[k] == #[trigger] loud[i])) by {
        lemma_loudest(loud, 4 * k, speech::earlier(4 * k + 4, loud.len() as int));
    }
}

/// Whether a height is the value nearest to a peak over the full height.
pub open spec fn is_proportion(height: Binary32, peak: Binary32, full: Binary32) -> bool {
    forall|other: Binary32|
        other.finite() ==> number::distance(
            (height.size() * full.size()) as int,
            (peak.size() * power2::pow2(149)) as int,
        ) <= number::distance(
            (#[trigger] other.size() * full.size()) as int,
            (peak.size() * power2::pow2(149)) as int,
        )
}

proof fn lemma_products(a: nat, b: nat, p: nat)
    ensures
        a < b ==> a * p <= p * b && (a * p) * b <= (p * b) * b,
        a >= b ==> p * b <= a * p && (p * b) * b <= (a * p) * b,
{
    if a < b {
        assert(a * p <= p * b) by (nonlinear_arith)
            requires
                a < b,
        ;
        assert((a * p) * b <= (p * b) * b) by (nonlinear_arith)
            requires
                a * p <= p * b,
        ;
    } else {
        assert(p * b <= a * p) by (nonlinear_arith)
            requires
                a >= b,
        ;
        assert((p * b) * b <= (a * p) * b) by (nonlinear_arith)
            requires
                p * b <= a * p,
        ;
    }
}

proof fn lemma_height(peak: Binary32, full: Binary32)
    requires
        !peak.is_nan() && !peak.is_negative(),
        full.finite() && !full.is_negative() && full.size() > 0,
    ensures
        ({
            let one = Binary32 { bits: 0x3f80_0000 };
            let height = peak.quotient(full).lower(one);
            &&& !peak.lt(full) ==> height == one
            &&& peak.lt(full) ==> is_proportion(height, peak, full)
        }),
{
    let f = number::single();
    let one = Binary32 { bits: 0x3f80_0000 };
    let p = power2::pow2(149);
    let height = peak.quotient(full).lower(one);
    power2::lemma_pow2_pos(149);
    number::lemma_first_steps(f);
    lemma_one_single();
    assert(one.size() == p);
    if peak.infinite() {
        number::lemma_steps_grow(f, full.magnitude(), peak.magnitude());
        number::lemma_steps_grow(f, one.magnitude(), peak.magnitude());
    } else {
        let d = full.size();
        let num = peak.size() * p;
        let mag = number::nearest(f, num, d);
        number::lemma_nearest_exists(f, num, d);
        let q = peak.quotient(full);
        assert(q == single::signed(false, mag));
        assert(q.magnitude() == mag && !q.is_negative());
        lemma_one_is_nearest(d);
        lemma_products(peak.size(), d, p);
        if peak.lt(full) {
            number::lemma_nearest_grows(f, num, d, p * d, d);
            if mag < one.magnitude() {
                number::lemma_steps_grow(f, mag, one.magnitude());
            }
            assert(height.size() == q.size());
            assert forall|other: Binary32| other.finite() implies number::distance(
                (height.size() * d) as int,
                num as int,
            ) <= number::distance((#[trigger] other.size() * d) as int, num as int) by {
                number::lemma_nearest_best(f, num, d, other.magnitude());
            }
        } else {
            number::lemma_nearest_grows(f, p * d, d, num, d);
            if one.magnitude() < mag {
                number::lemma_steps_grow(f, one.magnitude(), mag);
            }
        }
    }
}

proof fn lemma_full(found: Binary32)
    ensures
        ({
            let full = found.upper(Binary32 { bits: 0x3ccc_cccd });
            !full.is_negative() && full.size() > 0
        }),
{
    let f = number::single();
    let least = Binary32 { bits: 0x3ccc_cccd };
    number::lemma_first_steps(f);
    number::lemma_steps_grow(f, 0, least.magnitude());
}

/// Heights are in proportion to the peaks: each is the value nearest to the
/// peak over the full height, and what reaches the full height is drawn at one.
pub proof fn law_heights_are_in_proportion(data: WaveformData, bytes: Seq<u8>, i: int)
    requires
        bytes.len() >= 4,
        waveform::is_waveform(data, bytes),
        0 <= i < data.peaks@.len(),
        waveform::reference(waveform::peaks_of(waveform::samples(bytes))).finite(),
    ensures
        ({
            let peaks = waveform::peaks_of(waveform::samples(bytes));
            let full = waveform::reference(peaks);
            &&& data.peaks@.len() == peaks.len()
            &&& !peaks[i].lt(full) ==> data.peaks@[i] == (Binary32 { bits: 0x3f80_0000 })
            &&& peaks[i].lt(full) ==> is_proportion(data.peaks@[i], peaks[i], full)
        }),
{
    let peaks = waveform::peaks_of(waveform::samples(bytes));
    let full = waveform::reference(peaks);
    law_no_sample_is_left_out(bytes);
    assert(!peaks[i].is_nan() && !peaks[i].is_negative());
    lemma_full(waveform::ranked(peaks)[waveform::reference_place(peaks.len()) as int]);
    lemma_height(peaks[i], full);
}

proof fn lemma_one_single()
    ensures
        number::steps(number::single(), 0x3f80_0000) == power2::pow2(149),
{
    let f = number::single();
    let h: nat = 0x80_0000;
    vstd::arithmetic::div_mod::lemma_fundamental_div_mod_converse(
        0x3f80_0000,
        h as int,
        127,
        0,
    );
    power2::lemma_pow2_adds(126, 23);
    power2::lemma2_to64();
    let q = power2::pow2(126);
    assert((h + 0) * q == q * 0x80_0000) by (nonlinear_arith)
        requires
            h == 0x80_0000,
    ;
}

proof fn lemma_one_is_nearest(den: nat)
    requires
        den > 0,
    ensures
        number::nearest(number::single(), power2::pow2(149) * den, den) == 0x3f80_0000,
{
    let f = number::single();
    let m: nat = 0x3f80_0000;
    let p = power2::pow2(149);
    lemma_one_single();
    number::lemma_steps_grow(f, m, m + 1);
    number::lemma_steps_grow(f, (m - 1) as nat, m);
    let high = number::steps(f, m + 1);
    let low = number::steps(f, (m - 1) as nat);
    assert((p + high) * den > 2 * (p * den)) by (nonlinear_arith)
        requires
            high > p,
            den > 0,
    ;
    assert((low + p) * den < 2 * (p * den)) by (nonlinear_arith)
        requires
            low < p,
            den > 0,
    ;
    assert(number::rounds_to(f, p * den, den, m));
    number::lemma_nearest(f, p * den, den, m);
}

// ---------------------------------------------------------------------------
// The full height
// ---------------------------------------------------------------------------

proof fn lemma_most()
    ensures
        ({
            let c = waveform::most();
            let p = power2::pow2(1074);
            &&& c.finite() && !c.is_negative()
            &&& 0 < c.size() < p
            &&& 0x2_0000_0000_0000 * (98 * p - 100 * c.size()) == p
        }),
{
    let c = waveform::most();
    let p = power2::pow2(1074);
    power2::lemma_pow2_adds(1021, 53);
    power2::lemma2_to64_rest();
    power2::lemma_pow2_pos(1021);
    let k = power2::pow2(1021);
    vstd::arithmetic::div_mod::lemma_fundamental_div_mod_converse(
        0x3fef_5c28_f5c2_8f5c,
        0x10_0000_0000_0000,
        1022,
        0xf_5c28_f5c2_8f5c,
    );
    let size = c.size();
    assert(size == (0x10_0000_0000_0000 + 0xf_5c28_f5c2_8f5cnat) * k);
    assert(0 < size < p && 0x2_0000_0000_0000 * (98 * p - 100 * size) == p) by (nonlinear_arith)
        requires
            size == 0x1f_5c28_f5c2_8f5c * k,
            p == k * 0x20_0000_0000_0000,
            k > 0,
    ;
}

/// The peak that counts as full height stands at ninety-eight hundredths of the
/// sorted peaks, to the nearest place.
#[verifier::rlimit(40)]
proof fn lemma_place(n: nat)
    requires
        1 <= n <= 0x100_0000_0000,
    ensures
        100 * waveform::reference_place(n) <= 98 * (n - 1) + 51,
        98 * (n - 1) <= 100 * waveform::reference_place(n) + 51,
        waveform::reference_place(n) < n,
{
    let f = number::double();
    let p = power2::pow2(1074);
    let x = (n - 1) as nat;
    power2::lemma_pow2_pos(1074);
    waveform::lemma_reference_place(n);
    if x > 0 {
        lemma_most();
        speech::lemma_large();
        number::lemma_natural_exact(x);
        let a = number::natural(x);
        let c = waveform::most();
        let cs = c.size();
        let num = a.size() * cs;
        let top = a.size() * p;
        assert(a.size() == x * p);
        assert(num <= top && num * p <= top * p && num >= 2 * (0x10_0000_0000_0000 * p))
            by (nonlinear_arith)
            requires
                num == (x * p) * cs,
                top == (x * p) * p,
                cs < p,
                x >= 1,
                0x2_0000_0000_0000 * (98 * p - 100 * cs) == p,
                p >= 0x1000_0000_0000_0000_0000,
        {
            assert(x * p >= p);
            assert(100 * cs >= 97 * p);
            assert((x * p) * (100 * cs) >= p * (97 * p));
            assert(p * p >= 0x1000_0000_0000_0000_0000 * p);
            assert((x * p) * cs <= (x * p) * p);
            assert(((x * p) * cs) * p <= ((x * p) * p) * p);
        }
        number::lemma_exact(f, a.magnitude(), p);
        number::lemma_nearest_grows(f, num, p, top, p);
        number::lemma_nearest_fine(f, num, p);
        let product = a.product(c);
        let mag = number::nearest(f, num, p);
        assert(product.magnitude() == mag && !product.is_negative() && product.finite());
        timeline::law_whole_numbers_are_nearest(product);
        let size = product.size();
        let found = size * p;
        let h: int = 0x10_0000_0000_0000;
        let xc = x * cs;
        assert(num == xc * p) by (nonlinear_arith)
            requires
                num == (x * p) * cs,
                xc == x * cs,
        ;
        assert((2 * h - 1) * (size - xc) <= xc && (2 * h - 2) * (xc - size) <= size) by {
            assert(((2 * h - 1) * (size - xc)) * p == (2 * h - 1) * (found - num))
                by (nonlinear_arith)
                requires
                    found == size * p,
                    num == xc * p,
            ;
            assert(((2 * h - 2) * (xc - size)) * p == (2 * h - 2) * (num - found))
                by (nonlinear_arith)
                requires
                    found == size * p,
                    num == xc * p,
            ;
            speech::lemma_divided((2 * h - 1) * (size - xc), xc as int, p as int);
            speech::lemma_divided((2 * h - 2) * (xc - size), size as int, p as int);
        }
        assert(xc <= 0x100_0000_0000 * p) by (nonlinear_arith)
            requires
                xc == x * cs,
                x <= 0x100_0000_0000,
                cs <= p,
        ;
        assert(size <= 0x101_0000_0000 * p);
        assert(1000 * (size - xc) <= p);
        assert(1000 * (xc - size) <= p);
        let gap = 98 * (x * p) - 100 * xc;
        assert(0 <= gap && 500 * gap <= p) by (nonlinear_arith)
            requires
                gap == 98 * (x * p) - 100 * xc,
                xc == x * cs,
                0 <= x <= 0x100_0000_0000,
                0x2_0000_0000_0000 * (98 * p - 100 * cs) == p,
                p > 0,
        {
            let d = 98 * p - 100 * cs;
            assert(gap == x * d);
            assert(d >= 0);
            assert(x * d <= 0x100_0000_0000 * d);
        }
        let place = waveform::reference_place(n);
        let pp = place * p;
        assert(2 * size <= 2 * pp + p && 2 * pp <= 2 * size + p);
        let xp = x * p;
        assert(100 * pp <= 98 * xp + 51 * p && 98 * xp <= 100 * pp + 51 * p);
        assert((100 * place as int) * p == 100 * pp) by (nonlinear_arith)
            requires
                pp == place * p,
        ;
        assert((98 * x + 51) * (p as int) == 98 * xp + 51 * p) by (nonlinear_arith)
            requires
                xp == x * p,
        ;
        assert((98 * x as int) * p == 98 * xp) by (nonlinear_arith)
            requires
                xp == x * p,
        ;
        assert((100 * place + 51) * (p as int) == 100 * pp + 51 * p) by (nonlinear_arith)
            requires
                pp == place * p,
        ;
        speech::lemma_divided(100 * place as int, 98 * x + 51int, p as int);
        speech::lemma_divided(98 * x as int, 100 * place + 51int, p as int);
    }
}

/// The full height is that of a loud peak, so that a few of the loudest ones
/// reach above it: of the peaks in order, that at ninety-eight hundredths of
/// them, but no less than the value nearest to twenty-five thousandths.
pub proof fn law_full_height_is_that_of_a_loud_peak(peaks: Seq<Binary32>) -> (r: (
    Seq<Binary32>,
    int,
))
    requires
        1 <= peaks.len() <= 0x100_0000_0000,
    ensures
        r.0.len() == peaks.len(),
        r.0.to_multiset() == peaks.to_multiset(),
        forall|i: int, j: int|
            0 <= i < j < r.0.len() ==> (#[trigger] r.0[i]).rank() <= (#[trigger] r.0[j]).rank(),
        0 <= r.1 < peaks.len(),
        100 * r.1 <= 98 * (peaks.len() - 1) + 51,
        98 * (peaks.len() - 1) <= 100 * r.1 + 51,
        waveform::reference(peaks) == if (Binary32 { bits: 0x3ccc_cccd }).lt(r.0[r.1]) {
            r.0[r.1]
        } else {
            Binary32 { bits: 0x3ccc_cccd }
        },
{
    let order = waveform::rank_order();
    waveform::lemma_rank_order();
    peaks.lemma_sort_by_ensures(order);
    let sorted = waveform::ranked(peaks);
    let place = waveform::reference_place(peaks.len());
    lemma_place(peaks.len());
    broadcast use vstd::seq_lib::group_to_multiset_ensures;

    assert(sorted.to_multiset().len() == peaks.to_multiset().len());
    assert forall|i: int, j: int| 0 <= i < j < sorted.len() implies (#[trigger] sorted[i]).rank()
        <= (#[trigger] sorted[j]).rank() by {
        assert(order(sorted[i], sorted[j]));
    }
    (sorted, place as int)
}

// ---------------------------------------------------------------------------
// Commands
// ---------------------------------------------------------------------------

/// The filter that brings a stream to the form in which it is drawn.
pub open spec fn decoding(stream: nat, place: int) -> Seq<char> {
    "[0:"@ + digits::decimal(stream)
        + "]aresample=400,aformat=sample_fmts=flt:channel_layouts=mono[a"@ + digits::decimal(
        place as nat,
    ) + "]"@
}

proof fn lemma_wave_filters(streams: Seq<u32>, n: nat)
    requires
        n <= streams.len(),
    ensures
        waveform::wave_filters(streams, n) == Seq::new(
            n,
            |i: int| decoding(streams[i] as nat, i),
        ),
    decreases n,
{
    if n > 0 {
        lemma_wave_filters(streams, (n - 1) as nat);
    }
    assert(waveform::wave_filters(streams, n) =~= Seq::new(
        n,
        |i: int| decoding(streams[i] as nat, i),
    ));
}

/// A waveform is decoded of the whole video, from the mix of all its audio
/// streams, at four hundred samples a second of four bytes each.
pub proof fn law_all_sound_is_drawn(video: Seq<char>, streams: Seq<u32>)
    ensures
        ({
            let args = waveform::wave_arguments(video, streams);
            let filters = Seq::new(streams.len(), |i: int| decoding(streams[i] as nat, i));
            let graph = text::joined(filters.push(gathered(streams.len(), "wave"@)), ";"@);
            &&& clips::gives(args, "-i"@, video)
            &&& clips::gives(args, "-filter_complex"@, graph)
            &&& clips::gives(args, "-map"@, "[wave]"@)
            &&& clips::gives(args, "-ac"@, "1"@)
            &&& clips::gives(args, "-ar"@, "400"@)
            &&& clips::gives(args, "-f"@, "f32le"@)
            &&& args.last() == "pipe:1"@
        }),
{
    let args = waveform::wave_arguments(video, streams);
    lemma_wave_filters(streams, streams.len());
    law_all_streams_are_gathered(streams.len(), "wave"@);
    assert(args[3] == "-i"@ && args[4] == video);
    assert(args[5] == "-filter_complex"@ && args[6] == waveform::wave_graph(streams));
    assert(args[7] == "-map"@ && args[8] == "[wave]"@);
    assert(args[10] == "-ac"@ && args[11] == "1"@);
    assert(args[12] == "-ar"@ && args[13] == "400"@);
    assert(args[16] == "-f"@ && args[17] == "f32le"@);
}

/// A mix starts where it is asked to, at the start of the video at the
/// earliest, and there where nothing readable is asked for.
pub proof fn law_mix_starts_where_asked(pairs: Seq<(Seq<char>, Seq<char>)>)
    ensures
        ({
            let asked = match mix::query_value(pairs, "start"@) {
                Some(value) => number::parsed(value),
                None => None,
            };
            &&& asked is None ==> mix::mix_start(pairs).units() == 0
            &&& asked is Some && (asked->0).finite() ==> mix::mix_start(pairs).units()
                == speech::later(0, (asked->0).units())
        }),
{
    number::lemma_size_zero(0);
    speech::law_times_are_held(number::zero());
    let asked = match mix::query_value(pairs, "start"@) {
        Some(value) => number::parsed(value),
        None => None,
    };
    if let Some(start) = asked {
        if start.finite() {
            speech::law_times_are_held(start);
        }
    }
}

/// A mix is made of the video, from where it is asked to start, with the graph
/// of the request, and is sent as AAC.
pub proof fn law_mix_is_made_of_the_video(video: Seq<char>, pairs: Seq<(Seq<char>, Seq<char>)>)
    ensures
        ({
            let args = mix::mix_arguments(video, pairs);
            let streams = mix::streams_of(pairs);
            &&& clips::gives(args, "-ss"@, mix::mix_start(pairs).fixed())
            &&& clips::gives(args, "-i"@, video)
            &&& clips::gives(
                args,
                "-filter_complex"@,
                mix::mix_graph(streams, mix::levels_of(pairs, streams.len())),
            )
            &&& clips::gives(args, "-map"@, "[mix]"@)
            &&& clips::gives(args, "-c:a"@, "aac"@)
            &&& clips::gives(args, "-f"@, "adts"@)
            &&& args.last() == "pipe:1"@
        }),
{
    let args = mix::mix_arguments(video, pairs);
    let streams = mix::streams_of(pairs);
    assert(args[3] == "-ss"@ && args[4] == mix::mix_start(pairs).fixed());
    assert(args[5] == "-i"@ && args[6] == video);
    assert(args[7] == "-filter_complex"@ && args[8] == mix::mix_graph(
        streams,
        mix::levels_of(pairs, streams.len()),
    ));
    assert(args[9] == "-map"@ && args[10] == "[mix]"@);
    assert(args[12] == "-c:a"@ && args[13] == "aac"@);
    assert(args[16] == "-f"@ && args[17] == "adts"@);
}

/// A mix is made for GET, and only told of for HEAD; it needs a stream, and
/// FFmpeg.
pub proof fn law_mixes_are_answered(
    method: media::Method,
    read: Option<address::Parts>,
    video: Seq<char>,
    has_ffmpeg: bool,
)
    ensures
        ({
            let answer = mix::mix_answer(method, read, video, has_ffmpeg);
            let asked = read is Some && mix::streams_of(read->0.pairs).len() > 0;
            &&& answer is Stream <==> method == media::Method::Get && asked && has_ffmpeg
            &&& answer is Stream ==> answer->Stream_0 == mix::mix_arguments(video, read->0.pairs)
            &&& answer is Head <==> method == media::Method::Head && asked
            &&& answer is NoFfmpeg <==> method == media::Method::Get && asked && !has_ffmpeg
            &&& answer matches mix::MixAnswer::Status(status) ==> status == if method
                == media::Method::Get || method == media::Method::Head {
                400int
            } else {
                405int
            }
        }),
{
}

/// A level is written in thousandths, to the nearest one.
pub proof fn law_levels_are_written(level: Binary32) -> (n: nat)
    requires
        level.finite(),
        !level.is_negative(),
    ensures
        level.fixed() == number::thousandths_text(n),
        2 * (n * power2::pow2(149)) <= 2 * (1000 * level.size()) + power2::pow2(149),
        2 * (1000 * level.size()) <= 2 * (n * power2::pow2(149)) + power2::pow2(149),
{
    reveal_strlit("");
    let n = number::even_quotient(level.size() * 1000, power2::pow2(149));
    power2::lemma_pow2_pos(149);
    number::lemma_even_quotient(level.size() * 1000, power2::pow2(149));
    assert(level.fixed() =~= number::thousandths_text(n));
    n
}

/// Thousandths are written as a whole number, a point and three digits.
pub proof fn law_thousandths_are_written(n: nat) -> (r: (Seq<char>, Seq<char>))
    ensures
        number::thousandths_text(n) == r.0 + "."@ + r.1,
        digits::all_digits(r.0) && digits::all_digits(r.1),
        r.0.len() > 0 && r.1.len() == 3,
        1000 * digits::value(r.0) + digits::value(r.1) == n,
{
    digits::lemma_decimal(n / 1000);
    digits::lemma_decimal(n % 1000);
    digits::lemma_padded(digits::decimal(n % 1000), 3);
    assert(number::ten(3) == 1000) by {
        reveal_with_fuel(number::ten, 4);
    }
    digits::lemma_decimal_len(n % 1000, 3);
    (digits::decimal(n / 1000), digits::padded(digits::decimal(n % 1000), 3))
}

/// A waveform is kept for a week, and is of use where it has peaks, all of them
/// numbers, at a rate above zero.
pub proof fn law_waveforms_are_kept_a_week(data: WaveformData)
    ensures
        waveform::WAVEFORM_CACHE_TTL == 7 * 24 * 3600 * 1_000_000_000,
        waveform::is_usable(data) <==> {
            &&& data.samples_per_second.finite()
            &&& data.samples_per_second.units() > 0
            &&& data.peaks@.len() > 0
            &&& forall|i: int|
                0 <= i < data.peaks@.len() ==> !(#[trigger] data.peaks@[i]).is_nan()
                    && !data.peaks@[i].infinite()
        },
{
    number::lemma_size_zero(0);
    if waveform::is_usable(data) {
        assert forall|i: int| 0 <= i < data.peaks@.len() implies !(
        #[trigger] data.peaks@[i]).is_nan() && !data.peaks@[i].infinite() by {
            assert(data.peaks@[i].finite());
        }
    }
    if forall|i: int|
        0 <= i < data.peaks@.len() ==> !(#[trigger] data.peaks@[i]).is_nan()
            && !data.peaks@[i].infinite() {
        assert forall|i: int| 0 <= i < data.peaks@.len() implies (
        #[trigger] data.peaks@[i]).finite() by {
            assert(!data.peaks@[i].is_nan());
        }
    }
}

} // verus!
