//! What is said in a piece of a video, and when.

use vstd::arithmetic::power2;
use vstd::prelude::*;

use crate::analysis;
use crate::chunk;
use crate::chunk::AnalysisChunkRequest;
use crate::clips;
use crate::clock;
use crate::digits;
use crate::gemini;
use crate::gemini::GeminiPayload;
use crate::laws;
use crate::markdown;
use crate::number;
use crate::number::Binary64;
use crate::selection;
use crate::text;
use crate::transcript::Cue;
use crate::wording;

verus! {

/// Whether an answered passage is said within a piece of a length: some of it
/// lies between the start and the end of the piece, and it has words.
pub open spec fn is_said(cue: Cue, length: Binary64) -> bool {
    &&& cue.start.finite() && cue.end.finite()
    &&& cue.start.lt(cue.end)
    &&& cue.start.lt(length)
    &&& number::zero().lt(cue.end)
    &&& markdown::entry_text(cue.text) != "Untitled note"@
}

/// The later of two amounts.
pub open spec fn later(a: int, b: int) -> int {
    if a < b {
        b
    } else {
        a
    }
}

/// The earlier of two amounts.
pub open spec fn earlier(a: int, b: int) -> int {
    if a < b {
        a
    } else {
        b
    }
}

proof fn lemma_held(cue: Cue, length: Binary64)
    requires
        number::natural(1).le(length),
    ensures
        gemini::held_cue(cue, length) is Some == is_said(cue, length),
        gemini::held_cue(cue, length) matches Some(held) ==> {
            &&& held.start.units() == later(0, cue.start.units())
            &&& held.end.units() == earlier(cue.end.units(), length.units())
            &&& held.start.lt(held.end)
            &&& held.start.finite()
            &&& length.finite() ==> held.end.finite()
        },
{
    number::lemma_size_zero(0);
    number::lemma_natural_one();
    number::lemma_steps_grow(number::double(), 0, 0x3ff0_0000_0000_0000);
    assert(number::zero().units() == 0);
    assert(length.units() > 0);
    if length.infinite() && cue.start.finite() {
        if length.magnitude() > cue.start.magnitude() {
            number::lemma_steps_grow(
                number::double(),
                cue.start.magnitude(),
                length.magnitude(),
            );
        }
    }
}

/// The passages that are kept of an answer, and where they come from.
proof fn lemma_held_cues(cues: Seq<Cue>, length: Binary64, n: nat) -> (places: Seq<int>)
    requires
        n <= cues.len(),
        number::natural(1).le(length),
    ensures
        selection::picks(places, n as int, |k: int| is_said(cues[k], length)),
        gemini::held_cues(cues, length, n).len() == places.len(),
        forall|i: int|
            0 <= i < places.len() ==> gemini::held_cue(cues[places[i]], length) == Some(
                #[trigger] gemini::held_cues(cues, length, n)[i],
            ),
    decreases n,
{
    let keeps = |k: int| is_said(cues[k], length);
    if n == 0 {
        selection::lemma_pick_none(keeps);
        Seq::empty()
    } else {
        let before = lemma_held_cues(cues, length, (n - 1) as nat);
        let kept = gemini::held_cues(cues, length, (n - 1) as nat);
        lemma_held(cues[n - 1], length);
        selection::lemma_pick(before, n - 1, keeps);
        if is_said(cues[n - 1], length) {
            let places = before.push(n - 1);
            assert forall|i: int| 0 <= i < places.len() implies gemini::held_cue(
                cues[places[i]],
                length,
            ) == Some(#[trigger] gemini::held_cues(cues, length, n)[i]) by {
                if i < before.len() {
                    assert(places[i] == before[i]);
                    assert(gemini::held_cues(cues, length, n)[i] == kept[i]);
                }
            }
            places
        } else {
            before
        }
    }
}

proof fn lemma_length(start: Binary64, end: Binary64)
    ensures
        number::natural(1).le(gemini::piece_length(analysis::span(start, end))),
{
    number::lemma_natural_one();
}

/// Whether a passage of a result is one of an answer, moved: both its bounds
/// are those of the passage within the piece, moved by one and the same amount
/// and rounded once. So it ends no earlier than it starts, and lies in no part
/// before the piece.
pub open spec fn is_moved(moved: Cue, cue: Cue, origin: Binary64, length: Binary64) -> bool {
    &&& number::is_nearest(moved.start, origin.units() + later(0, cue.start.units()))
    &&& number::is_nearest(moved.end, origin.units() + earlier(cue.end.units(), length.units()))
    &&& moved.start.le(moved.end)
    &&& origin.le(moved.start)
    &&& moved.text == markdown::entry_text(cue.text)
    &&& moved.speaker == markdown::metadata(cue.speaker, "Unknown"@)
    &&& moved.language == markdown::metadata(cue.language, "unknown"@)
}

/// What Gemini heard in a piece is told at its times in the video: every
/// passage of the answer that is said within the piece, and no other, in the
/// order of the answer, each moved by the start of the piece.
pub proof fn law_answered_cues_are_moved(
    request: AnalysisChunkRequest,
    payload: GeminiPayload,
    frames: nat,
) -> (places: Seq<int>)
    requires
        clock::from_start(request.start_seconds).finite(),
        gemini::piece_length(analysis::span(request.start_seconds, request.end())).finite(),
    ensures
        ({
            let cues = gemini::answered(payload.transcript@);
            let origin = clock::from_start(request.start_seconds);
            let length = gemini::piece_length(
                analysis::span(request.start_seconds, request.end()),
            );
            let told = chunk::gemini_outcome(request, payload, frames, true).cues;
            &&& selection::picks(
                places,
                earlier(cues.len() as int, 500),
                |k: int| is_said(cues[k], length),
            )
            &&& told.len() == places.len()
            &&& forall|i: int|
                0 <= i < told.len() ==> is_moved(
                    #[trigger] told[i],
                    cues[places[i]],
                    origin,
                    length,
                )
        }),
{
    let cues = gemini::answered(payload.transcript@);
    let origin = clock::from_start(request.start_seconds);
    let length = gemini::piece_length(analysis::span(request.start_seconds, request.end()));
    let told = chunk::gemini_outcome(request, payload, frames, true).cues;
    let n = earlier(cues.len() as int, 500) as nat;
    lemma_length(request.start_seconds, request.end());
    let places = lemma_held_cues(cues, length, n);
    let kept = gemini::held_cues(cues, length, n);
    assert forall|i: int| 0 <= i < told.len() implies is_moved(
        #[trigger] told[i],
        cues[places[i]],
        origin,
        length,
    ) by {
        let cue = cues[places[i]];
        let held = kept[i];
        lemma_held(cue, length);
        number::law_sum_is_nearest(origin, held.start);
        number::law_sum_is_nearest(origin, held.end);
        number::law_sum_keeps_order(origin, held.start, held.end);
        let zero = number::zero();
        number::lemma_size_zero(0);
        number::law_sum_keeps_order(origin, zero, held.start);
        number::lemma_sum_of_nothing(origin);
    }
    places
}

/// Without sound nothing was heard: no passage is told, whatever is answered.
pub proof fn law_silence_tells_no_cues(
    request: AnalysisChunkRequest,
    payload: GeminiPayload,
    frames: nat,
)
    ensures
        chunk::gemini_outcome(request, payload, frames, false).cues.len() == 0,
{
}

// ---------------------------------------------------------------------------
// Pieces and their frames
// ---------------------------------------------------------------------------

/// A time is held at the start of the video or later.
pub proof fn law_times_are_held(seconds: Binary64)
    requires
        seconds.finite(),
    ensures
        clock::from_start(seconds).finite(),
        clock::from_start(seconds).units() == later(0, seconds.units()),
{
    number::lemma_size_zero(0);
}

/// A piece ends where it is asked to, but no earlier than a second behind its
/// start, and is as long as the time between them.
pub proof fn law_pieces_last_a_second(start: Binary64, end: Binary64)
    requires
        start.finite(),
        end.finite(),
    ensures
        analysis::piece_end(start, end).units() == later(
            end.units(),
            start.sum(number::natural(1)).units(),
        ),
        number::is_nearest(
            start.sum(number::natural(1)),
            start.units() + power2::pow2(1074),
        ),
        end.units() - start.units() >= power2::pow2(1074) ==> number::is_nearest(
            analysis::span(start, end),
            end.units() - start.units(),
        ),
        end.units() - start.units() < power2::pow2(1074) ==> analysis::span(start, end).units()
            == power2::pow2(1074),
        gemini::piece_length(analysis::span(start, end)) == analysis::span(start, end),
{
    let p = power2::pow2(1074);
    let one = number::natural(1);
    number::lemma_natural_exact(1);
    number::law_sum_is_nearest(start, one);
    number::law_difference_is_nearest(end, start);
    let gap = end.difference(start);
    let exact = end.units() - start.units();
    assert(one.units() == p);
    assert(number::distance(gap.units(), exact) <= number::distance(one.units(), exact));
}

/// Whether a time is so many hundredths of a length, to the hundredth part.
pub open spec fn is_share(offset: int, length: int, part: int, whole: int) -> bool {
    &&& 99 * (part * length) <= 100 * (whole * offset)
    &&& 100 * (whole * offset) <= 101 * (part * length)
}

proof fn lemma_reach()
    ensures
        ({
            let c = analysis::reach();
            let p = power2::pow2(1074);
            &&& c.finite() && !c.is_negative()
            &&& 9199 * p <= 10000 * c.size() <= 9201 * p
        }),
{
    let c = analysis::reach();
    let p = power2::pow2(1074);
    power2::lemma_pow2_adds(1021, 53);
    power2::lemma2_to64_rest();
    let k = power2::pow2(1021);
    vstd::arithmetic::div_mod::lemma_fundamental_div_mod_converse(
        0x3fed_70a3_d70a_3d71,
        0x10_0000_0000_0000,
        1022,
        0xd_70a3_d70a_3d71,
    );
    assert(c.size() == (0x10_0000_0000_0000 + 0xd_70a3_d70a_3d71nat) * k);
    let size = c.size();
    assert(9199 * p <= 10000 * size <= 9201 * p) by (nonlinear_arith)
        requires
            size == 0x1d_70a3_d70a_3d71 * k,
            p == k * 0x20_0000_0000_0000,
            k >= 0,
    ;
}

/// One rounding moves a share of one by less than a thousandth of it.
proof fn lemma_step(num: nat, den: nat, cap: nat)
    requires
        den > 0,
        cap < number::double().inf,
        num <= number::steps(number::double(), cap) * den,
        num >= 2 * (0x10_0000_0000_0000 * den),
    ensures
        ({
            let size = number::steps(
                number::double(),
                number::nearest(number::double(), num, den),
            );
            &&& 1999 * (size * den) <= 2000 * num
            &&& 1998 * num <= 1999 * (size * den)
            &&& number::nearest(number::double(), num, den) <= cap
        }),
{
    let f = number::double();
    number::lemma_exact(f, cap, den);
    let top = number::steps(f, cap) * den;
    assert(num * den <= top * den) by (nonlinear_arith)
        requires
            num <= top,
    ;
    number::lemma_nearest_grows(f, num, den, top, den);
    number::lemma_nearest_within(f, num, den);
}

/// Dividing both sides by what is not nothing.
pub(crate) proof fn lemma_divided(a: int, b: int, p: int)
    requires
        p > 0,
        a * p <= b * p,
    ensures
        a <= b,
{
    assert(a <= b) by (nonlinear_arith)
        requires
            p > 0,
            a * p <= b * p,
    ;
}

proof fn lemma_shares(q: int, r: int, o: int, s: int, c: int, i: int, d: int, p: int)
    requires
        p > 0,
        0 <= q && 0 <= r && 0 <= o && 0 <= s && 0 <= i && 0 < d,
        9199 * p <= 10000 * c <= 9201 * p,
        1999 * (q * d) <= 2000 * (i * p),
        1998 * (i * p) <= 1999 * (q * d),
        1999 * (r * p) <= 2000 * (q * c),
        1998 * (q * c) <= 1999 * (r * p),
        1999 * (o * p) <= 2000 * (s * r),
        1998 * (s * r) <= 1999 * (o * p),
    ensures
        is_share(o, s, 92 * i, 100 * d),
{
    assert(q * (10000 * c) <= q * (9201 * p) && q * (9199 * p) <= q * (10000 * c))
        by (nonlinear_arith)
        requires
            0 <= q,
            9199 * p <= 10000 * c <= 9201 * p,
    ;
    assert(q * (10000 * c) == 10000 * (q * c)) by (nonlinear_arith);
    assert(q * (9201 * p) == 9201 * (q * p) && q * (9199 * p) == 9199 * (q * p))
        by (nonlinear_arith);
    assert((19_990_000 * r) * p == 19_990_000 * (r * p)) by (nonlinear_arith);
    assert((18_402_000 * q) * p == 18_402_000 * (q * p)) by (nonlinear_arith);
    assert((18_379_602 * q) * p == 18_379_602 * (q * p)) by (nonlinear_arith);
    lemma_divided(19_990_000 * r, 18_402_000 * q, p);
    lemma_divided(18_379_602 * q, 19_990_000 * r, p);
    let rd = r * d;
    let qd = q * d;
    assert(19_990_000 * rd <= 18_402_000 * qd && 18_379_602 * qd <= 19_990_000 * rd)
        by (nonlinear_arith)
        requires
            rd == r * d,
            qd == q * d,
            19_990_000 * r <= 18_402_000 * q,
            18_379_602 * q <= 19_990_000 * r,
            0 < d,
    ;
    let ip = i * p;
    let srd = s * rd;
    let sip = s * ip;
    let opd = (o * p) * d;
    assert(1999 * opd <= 2000 * srd && 1998 * srd <= 1999 * opd) by (nonlinear_arith)
        requires
            opd == (o * p) * d,
            srd == s * rd,
            rd == r * d,
            1999 * (o * p) <= 2000 * (s * r),
            1998 * (s * r) <= 1999 * (o * p),
            0 < d,
    {
        assert((s * r) * d == s * (r * d));
    }
    assert(39_960_010_000 * rd <= 36_804_000_000 * ip);
    assert(1998 * 18_379_602 * ip <= 1999 * 19_990_000 * rd);
    assert(39_960_010_000 * srd <= 36_804_000_000 * sip) by (nonlinear_arith)
        requires
            srd == s * rd,
            sip == s * ip,
            39_960_010_000 * rd <= 36_804_000_000 * ip,
            0 <= s,
    ;
    assert(36_722_444_796 * sip <= 39_960_010_000 * srd) by (nonlinear_arith)
        requires
            srd == s * rd,
            sip == s * ip,
            36_722_444_796 * ip <= 39_960_010_000 * rd,
            0 <= s,
    ;
    let x = o * d;
    let y = i * s;
    assert(opd == x * p && sip == y * p) by (nonlinear_arith)
        requires
            opd == (o * p) * d,
            x == o * d,
            sip == s * ip,
            ip == i * p,
            y == i * s,
    ;
    assert((10000 * x) * p == 10000 * opd) by (nonlinear_arith)
        requires
            opd == x * p,
    ;
    assert((9292 * y) * p == 9292 * sip && (9108 * y) * p == 9108 * sip) by (nonlinear_arith)
        requires
            sip == y * p,
    ;
    assert(sip >= 0) by (nonlinear_arith)
        requires
            sip == s * ip,
            ip == i * p,
            s >= 0,
            i >= 0,
            p > 0,
    ;
    lemma_divided(10000 * x, 9292 * y, p);
    lemma_divided(9108 * y, 10000 * x, p);
    assert((92 * i) * s == 92 * y) by (nonlinear_arith)
        requires
            y == i * s,
    ;
    assert((100 * d) * o == 100 * x) by (nonlinear_arith)
        requires
            x == o * d,
    ;
}

pub(crate) proof fn lemma_large()
    ensures
        power2::pow2(1074) >= 0x1000_0000_0000_0000_0000,
{
    power2::lemma_pow2_adds(1010, 64);
    power2::lemma_pow2_adds(994, 16);
    power2::lemma_pow2_pos(994);
    power2::lemma2_to64();
    power2::lemma2_to64_rest();
    let q = power2::pow2(994);
    assert(q >= 1);
    assert((q * 0x1_0000) * 0x1_0000_0000_0000_0000 >= 0x1000_0000_0000_0000_0000)
        by (nonlinear_arith)
        requires
            q >= 1,
    ;
}

/// The share of a length at which a frame stands.
proof fn lemma_frame_offset(length: Binary64, total: int, index: int) -> (offset: Binary64)
    requires
        2 <= total <= 8,
        0 < index < total,
        length.finite(),
        number::natural(1).le(length),
    ensures
        offset == length.product(
            number::natural(index as nat).quotient(
                number::natural((total - 1) as nat),
            ).product(analysis::reach()),
        ),
        offset.finite() && !offset.is_negative(),
        is_share(offset.units(), length.units(), 92 * index, 100 * (total - 1)),
{
    let f = number::double();
    let p = power2::pow2(1074);
    let i = index as nat;
    let d = (total - 1) as nat;
    power2::lemma_pow2_pos(1074);
    lemma_large();
    lemma_reach();
    number::lemma_natural_exact(1);
    number::lemma_natural_exact(i);
    number::lemma_natural_exact(d);
    let c = analysis::reach();
    let one = number::natural(1);
    assert(one.size() == p) by {
        assert(1 * p == p);
    }
    let a = number::natural(i);
    let b = number::natural(d);
    // The quotient.
    let num = a.size() * p;
    let den = b.size();
    assert(den > 0) by (nonlinear_arith)
        requires
            den == d * p,
            d > 0,
            p > 0,
    ;
    assert(num <= p * den && num >= 2 * (0x10_0000_0000_0000 * den)) by (nonlinear_arith)
        requires
            num == (i * p) * p,
            den == d * p,
            1 <= i <= d <= 7,
            p >= 0x1000_0000_0000_0000_0000,
    {
        assert(i * p <= d * p);
        assert((i * p) * p <= (d * p) * p);
        assert(d * p <= 7 * p);
        assert(p * p >= 0x1000_0000_0000_0000_0000 * p);
        assert((i * p) * p >= p * p) by {
            assert(i * p >= p);
        }
    }
    lemma_step(num, den, one.magnitude());
    let q = a.quotient(b);
    assert(a.size() > 0) by (nonlinear_arith)
        requires
            a.size() == i * p,
            i > 0,
            p > 0,
    ;
    assert(q.magnitude() == number::nearest(f, num, den) && !q.is_negative());
    let qs = q.size() as int;
    assert(1999 * (qs * d) <= 2000 * (i * p) && 1998 * (i * p) <= 1999 * (qs * d)) by {
        assert((1999 * (qs * d)) * p == 1999 * (qs * den)) by (nonlinear_arith)
            requires
                den == d * p,
        ;
        assert((2000 * (i * p)) * p == 2000 * num) by (nonlinear_arith)
            requires
                num == (i * p) * p,
        ;
        assert((1998 * (i * p)) * p == 1998 * num) by (nonlinear_arith)
            requires
                num == (i * p) * p,
        ;
        lemma_divided(1999 * (qs * d), 2000int * (i * p), p as int);
        lemma_divided(1998int * (i * p), 1999 * (qs * d), p as int);
    }
    assert(8 * qs >= p) by (nonlinear_arith)
        requires
            1998 * (i * p) <= 1999 * (qs * d),
            1 <= i,
            1 <= d <= 7,
            p > 0,
            qs >= 0,
    {
        assert(i * p >= p);
        assert(qs * d <= qs * 7);
    }
    // The share of the reach.
    let rn = q.size() * c.size();
    assert(rn <= q.size() * p && rn >= 2 * (0x10_0000_0000_0000 * p)) by (nonlinear_arith)
        requires
            rn == q.size() * c.size(),
            10000 * c.size() <= 9201 * p,
            9199 * p <= 10000 * c.size(),
            8 * q.size() >= p,
            p >= 0x1000_0000_0000_0000_0000,
    {
        assert(c.size() <= p);
        assert(2 * c.size() >= p);
        assert((8 * q.size()) * (2 * c.size()) >= p * p);
        assert(p * p >= 0x1000_0000_0000_0000_0000 * p);
    }
    lemma_step(rn, p, q.magnitude());
    let r = q.product(c);
    assert(r.magnitude() == number::nearest(f, rn, p) && !r.is_negative());
    let rs = r.size() as int;
    assert(16 * rs >= p) by {
        assert(16 * rn >= p * p) by (nonlinear_arith)
            requires
                rn == q.size() * c.size(),
                9199 * p <= 10000 * c.size(),
                8 * q.size() >= p,
                p > 0,
        {
            assert(2 * c.size() >= p);
            assert((8 * q.size()) * (2 * c.size()) >= p * p);
        }
        assert(1999 * (rs * p) >= 1998 * rn);
        assert(32 * (rs * p) >= p * p) by (nonlinear_arith)
            requires
                1999 * (rs * p) >= 1998 * rn,
                16 * rn >= p * p,
        ;
        assert((32 * rs) * p == 32 * (rs * p)) by (nonlinear_arith);
        lemma_divided(p as int, 32 * rs, p as int);
        assert(10000 * (16 * rn) >= 14000 * (p * p)) by (nonlinear_arith)
            requires
                rn == q.size() * c.size(),
                9199 * p <= 10000 * c.size(),
                8 * q.size() >= p,
                p > 0,
        {
            assert((8 * q.size()) * (10000 * c.size()) >= p * (9199 * p));
        }
        assert(16 * (rs * p) >= p * p) by (nonlinear_arith)
            requires
                1999 * (rs * p) >= 1998 * rn,
                10000 * (16 * rn) >= 14000 * (p * p),
        ;
        assert((16 * rs) * p == 16 * (rs * p)) by (nonlinear_arith);
        lemma_divided(p as int, 16 * rs, p as int);
    }
    // The share of the length.
    let s = length.size();
    let on = s * r.size();
    assert(r.size() <= p) by {
        if r.magnitude() < one.magnitude() {
            number::lemma_steps_grow(f, r.magnitude(), one.magnitude());
        }
    }
    assert(on <= s * p && on >= 2 * (0x10_0000_0000_0000 * p)) by (nonlinear_arith)
        requires
            on == s * r.size(),
            r.size() <= p,
            16 * r.size() >= p,
            s >= p,
            p >= 0x1000_0000_0000_0000_0000,
    {
        assert(s * r.size() <= s * p);
        assert(s * (16 * r.size()) >= p * p);
        assert(p * p >= 0x1000_0000_0000_0000_0000 * p);
    }
    assert(!length.is_negative() || s == 0);
    lemma_step(on, p, length.magnitude());
    let offset = length.product(r);
    assert(offset.magnitude() == number::nearest(f, on, p) && !offset.is_negative());
    lemma_shares(
        qs,
        rs,
        offset.size() as int,
        s as int,
        c.size() as int,
        i as int,
        d as int,
        p as int,
    );
    offset
}

/// The frames of a piece: the first one stands at its start, and the others
/// behind it at equal distances, the last one at ninety-two hundredths of its
/// length. Each is told to the hundredth part of its distance.
pub proof fn law_frames_are_spread(start: Binary64, end: Binary64, wanted: int, index: int) -> (
    offset: int)
    requires
        start.finite(),
        end.finite(),
        analysis::span(start, end).finite(),
        0 <= index < analysis::frames(wanted),
    ensures
        2 <= analysis::frames(wanted) <= 8,
        2 <= wanted <= 8 ==> analysis::frames(wanted) == wanted,
        wanted < 2 ==> analysis::frames(wanted) == 2,
        wanted > 8 ==> analysis::frames(wanted) == 8,
        number::is_nearest(
            analysis::frame_time(start, end, analysis::frames(wanted), index),
            start.units() + offset,
        ),
        index == 0 ==> offset == 0,
        is_share(
            offset,
            analysis::span(start, end).units(),
            92 * index,
            100 * (analysis::frames(wanted) - 1),
        ),
{
    let f = number::double();
    let total = analysis::frames(wanted);
    let length = analysis::span(start, end);
    let p = power2::pow2(1074);
    number::lemma_natural_one();
    power2::lemma_pow2_pos(1074);
    lemma_length(start, end);
    law_pieces_last_a_second(start, end);
    if index > 0 {
        let offset = lemma_frame_offset(length, total, index);
        number::law_sum_is_nearest(start, offset);
        offset.units()
    } else {
        let d = (total - 1) as nat;
        number::lemma_first_steps(f);
        number::lemma_natural_exact(0);
        number::lemma_natural_exact(d);
        lemma_reach();
        let c = analysis::reach();
        let a = number::natural(0);
        let b = number::natural(d);
        assert(0 * p == 0) by (nonlinear_arith);
        assert(b.size() > 0) by (nonlinear_arith)
            requires
                b.size() == d * p,
                d > 0,
                p > 0,
        ;
        assert(a.size() * p == 0) by (nonlinear_arith)
            requires
                a.size() == 0,
        ;
        assert(0 * b.size() == 0) by (nonlinear_arith);
        number::lemma_exact(f, 0, b.size());
        let q = a.quotient(b);
        assert(q.magnitude() == 0 && !q.is_negative());
        assert(q.size() * c.size() == 0) by (nonlinear_arith)
            requires
                q.size() == 0,
        ;
        number::lemma_exact(f, 0, p);
        let r = q.product(c);
        assert(r.magnitude() == 0 && !r.is_negative());
        assert(length.size() * r.size() == 0) by (nonlinear_arith)
            requires
                r.size() == 0,
        ;
        let o = length.product(r);
        assert(o.magnitude() == 0);
        number::law_sum_is_nearest(start, o);
        0
    }
}

// ---------------------------------------------------------------------------
// Subtitles beside a video
// ---------------------------------------------------------------------------

proof fn lemma_word(s: Seq<char>)
    requires
        s.len() > 0,
        forall|i: int| 0 <= i < s.len() ==> !text::is_white(#[trigger] s[i]),
    ensures
        text::words(s) == seq![s],
        text::words(" "@ + s) == seq![s],
    decreases s.len(),
{
    reveal_strlit(" ");
    let t = " "@ + s;
    let front = s.drop_last();
    let before = t.drop_last();
    assert(!text::is_white(s[s.len() - 1]));
    assert(t.last() == s.last());
    if s.len() == 1 {
        assert(front =~= Seq::<char>::empty());
        assert(before =~= " "@);
        assert(" "@.drop_last() =~= Seq::<char>::empty());
        assert(text::words(Seq::<char>::empty()) =~= Seq::<Seq<char>>::empty());
        assert(before.last() == ' ' && text::is_white(' '));
        assert(before.drop_last() =~= Seq::<char>::empty());
        assert(text::words(before) =~= Seq::<Seq<char>>::empty());
        assert(text::words(front) =~= Seq::<Seq<char>>::empty());
        assert(t[t.len() - 2] == ' ');
        assert(s =~= seq![s.last()]);
        assert(text::words(s) =~= seq![s]);
        assert(text::words(t) =~= seq![s]);
    } else {
        assert forall|i: int| 0 <= i < front.len() implies !text::is_white(#[trigger] front[i]) by {
            assert(front[i] == s[i]);
        }
        lemma_word(front);
        assert(before =~= " "@ + front);
        assert(!text::is_white(s[s.len() - 2]));
        assert(t[t.len() - 2] == s[s.len() - 2]);
        assert(front.push(s.last()) =~= s);
        assert(text::words(s) =~= seq![s]);
        assert(text::words(t) =~= seq![s]);
    }
}

/// Whether a text is the time of a subtitle: digits with colons, points or
/// commas between them.
pub open spec fn is_time(s: Seq<char>) -> bool {
    &&& s.len() > 0
    &&& forall|i: int|
        0 <= i < s.len() ==> text::is_digit(#[trigger] s[i]) || s[i] == ':' || s[i] == '.' || s[i]
            == ','
}

/// The block of a subtitle: its number, its times and its words, on lines of
/// their own.
pub open spec fn block(
    place: Seq<char>,
    from: Seq<char>,
    to: Seq<char>,
    words: Seq<char>,
) -> Seq<char> {
    place + "\n"@ + (from + " --> "@ + to) + "\n"@ + words
}

proof fn lemma_block_lines(place: Seq<char>, from: Seq<char>, to: Seq<char>, words: Seq<char>)
    requires
        digits::all_digits(place),
        is_time(from),
        is_time(to),
        words.len() > 0,
        !words.contains('\n'),
    ensures
        text::lines_of(block(place, from, to, words)) == seq![
            place,
            from + " --> "@ + to,
            words,
        ],
{
    reveal_strlit("\n");
    reveal_strlit(" --> ");
    let times = from + " --> "@ + to;
    let parts = seq![place, times, words];
    assert("\n"@ =~= seq!['\n']);
    let two = seq![place, times];
    assert(parts.drop_last() =~= two);
    assert(two.drop_last() =~= seq![place]);
    assert(text::joined(seq![place], "\n"@) == place);
    assert(text::joined(two, "\n"@) == place + "\n"@ + times);
    assert(text::joined(parts, "\n"@) =~= block(place, from, to, words));
    assert forall|i: int| 0 <= i < times.len() implies #[trigger] times[i] != '\n' && times[i]
        != '\r' by {
        if i < from.len() {
            assert(times[i] == from[i]);
        } else if i >= from.len() + 5 {
            assert(times[i] == to[i - from.len() - 5]);
        }
    }
    assert forall|i: int| 0 <= i < parts.len() implies !(#[trigger] parts[i]).contains('\n') by {
        let part = parts[i];
        if part.contains('\n') {
            let k = choose|k: int| 0 <= k < part.len() && part[k] == '\n';
            if i == 0 {
                assert(text::is_digit(place[k]));
            } else if i == 1 {
                assert(times[k] != '\n');
            }
        }
    }
    wording::law_joined_parts_come_back(parts, '\n');
    let lines = text::lines_of(block(place, from, to, words));
    assert(text::chopped(place) == place) by {
        if place.len() > 0 {
            assert(text::is_digit(place[place.len() - 1]));
        }
    }
    assert(text::chopped(times) == times) by {
        assert(times[times.len() - 1] != '\r');
    }
    assert(lines =~= parts);
}

proof fn lemma_time_pieces(from: Seq<char>, to: Seq<char>)
    requires
        is_time(from),
        is_time(to),
    ensures
        text::pieces(from + " --> "@ + to, "-->"@) == seq![from + " "@, " "@ + to],
        text::contains(from + " --> "@ + to, "-->"@),
{
    reveal_strlit(" --> ");
    reveal_strlit("-->");
    reveal_strlit(" ");
    let s = from + " --> "@ + to;
    let n = from.len() + 1int;
    text::lemma_find(s, "-->"@);
    assert(s.subrange(n, n + 3) =~= "-->"@);
    assert(text::occurs_at(s, "-->"@, n));
    let i = text::find(s, "-->"@)->0;
    if i < n {
        assert(s.subrange(i, i + 3)[0] == s[i]);
        if i < from.len() {
            assert(s[i] == from[i]);
        }
    }
    assert(s.take(n) =~= from + " "@);
    let rest = s.skip(n + 3);
    assert(rest =~= " "@ + to);
    text::lemma_find(rest, "-->"@);
    if let Some(j) = text::find(rest, "-->"@) {
        assert(rest.subrange(j, j + 3)[0] == rest[j]);
        if j > 0 {
            assert(rest[j] == to[j - 1]);
        }
    }
    assert(text::pieces(rest, "-->"@) =~= seq![rest]);
    assert(text::pieces(s, "-->"@) =~= seq![from + " "@, " "@ + to]);
}

proof fn lemma_time_trims(s: Seq<char>)
    requires
        is_time(s),
    ensures
        text::trimmed(s + " "@) == s,
        text::trimmed(s) == s,
{
    reveal_strlit(" ");
    let t = s + " "@;
    assert(!text::is_white(s[0]));
    assert(!text::is_white(s[s.len() - 1]));
    laws::lemma_trimmed_keeps(s);
    assert(t[0] == s[0]);
    assert(text::drop_leading(t, text::whites()) == t);
    assert(t.drop_last() =~= s);
    assert(text::drop_trailing(s, text::whites()) == s);
}

/// The words of a subtitle are read for a piece exactly where it is shown at
/// some time of the piece, its first and last moment among them.
#[verifier::rlimit(40)]
pub proof fn law_shown_subtitles_are_read(
    place: Seq<char>,
    from: Seq<char>,
    to: Seq<char>,
    words: Seq<char>,
    start: Binary64,
    end: Binary64,
)
    requires
        digits::all_digits(place),
        is_time(from),
        is_time(to),
        text::trimmed(words).len() > 0,
        !words.contains('\n'),
        clock::stamp_value(from) is Some,
        clock::stamp_value(to) is Some,
    ensures
        analysis::block_words(block(place, from, to, words), start, end) == if clock::stamp_value(
            from,
        )->0.le(end) && start.le(clock::stamp_value(to)->0) {
            Some(words)
        } else {
            None
        },
{
    reveal_strlit("-->");
    let times = from + " --> "@ + to;
    let lines = text::lines_of(block(place, from, to, words));
    if words.len() == 0 {
        assert(text::trimmed(words) == words);
    }
    lemma_block_lines(place, from, to, words);
    lemma_time_pieces(from, to);
    lemma_time_trims(from);
    lemma_time_trims(to);
    lemma_word(to);
    let test = markdown::LineTest::Contains("-->"@);
    assert forall|i: int| 0 <= i < place.len() implies #[trigger] place[i] != '-' by {
        assert(text::is_digit(place[i]));
    }
    crate::roundtrip::lemma_lacks(place, "-->"@, 0);
    assert(lines[0] == place && lines[1] == times && lines[2] == words);
    assert(!test.passes(lines[0]));
    assert(test.passes(lines[1]));
    assert(markdown::first_from(lines, test, 1) == Some(1int));
    assert(markdown::first(lines, test) == Some(1int));
    assert(text::words(" "@ + to)[0] == to);
    assert(clock::stamp_value(from + " "@) == clock::stamp_value(from));
    let rest = lines.skip(2);
    assert(rest =~= seq![words]);
    assert(text::joined(rest, " "@) == words);
}

/// The words of a file of subtitles for a piece are those of the blocks that
/// are shown in it, in order.
pub proof fn law_blocks_are_read_in_order(
    blocks: Seq<Seq<char>>,
    start: Binary64,
    end: Binary64,
    n: nat,
) -> (places: Seq<int>)
    requires
        n <= blocks.len(),
    ensures
        selection::picks(
            places,
            n as int,
            |k: int| analysis::block_words(blocks[k], start, end) is Some,
        ),
        analysis::excerpts(blocks, start, end, n).len() == places.len(),
        forall|i: int|
            0 <= i < places.len() ==> analysis::block_words(blocks[places[i]], start, end) == Some(
                #[trigger] analysis::excerpts(blocks, start, end, n)[i],
            ),
    decreases n,
{
    let keeps = |k: int| analysis::block_words(blocks[k], start, end) is Some;
    if n == 0 {
        selection::lemma_pick_none(keeps);
        Seq::empty()
    } else {
        let before = law_blocks_are_read_in_order(blocks, start, end, (n - 1) as nat);
        let kept = analysis::excerpts(blocks, start, end, (n - 1) as nat);
        let all = analysis::excerpts(blocks, start, end, n);
        selection::lemma_pick(before, n - 1, keeps);
        if keeps(n - 1) {
            let places = before.push(n - 1);
            assert forall|i: int| 0 <= i < places.len() implies analysis::block_words(
                blocks[places[i]],
                start,
                end,
            ) == Some(#[trigger] all[i]) by {
                if i < before.len() {
                    assert(all[i] == kept[i]);
                    assert(places[i] == before[i]);
                }
            }
            places
        } else {
            before
        }
    }
}

/// The blocks of a file of subtitles stand apart by an empty line, whatever
/// ends its lines, and the words of those that are shown are put together.
pub proof fn law_subtitle_files_are_read(source: Seq<char>, start: Binary64, end: Binary64) -> (
    blocks: Seq<Seq<char>>)
    ensures
        text::joined(blocks, "\n\n"@) == text::replaced(source, "\r\n"@, "\n"@),
        analysis::excerpt(source, start, end) is None <==> analysis::excerpts(
            blocks,
            start,
            end,
            blocks.len(),
        ).len() == 0,
        analysis::excerpt(source, start, end) is Some ==> analysis::excerpt(source, start, end)->0
            == text::joined(analysis::excerpts(blocks, start, end, blocks.len()), " "@),
{
    reveal_strlit("\n\n");
    let plain = text::replaced(source, "\r\n"@, "\n"@);
    wording::law_pieces_join_back(plain, "\n\n"@);
    text::pieces(plain, "\n\n"@)
}

// ---------------------------------------------------------------------------
// Commands
// ---------------------------------------------------------------------------

/// A frame is taken of the video at its time.
pub proof fn law_frames_are_taken_of_the_video(
    at: Binary64,
    video: Seq<char>,
    output: Seq<char>,
)
    ensures
        ({
            let args = analysis::frame_arguments(at, video, output);
            &&& clips::gives(args, "-ss"@, at.fixed())
            &&& clips::gives(args, "-i"@, video)
            &&& clips::gives(args, "-frames:v"@, "1"@)
            &&& args.last() == output
        }),
{
    let args = analysis::frame_arguments(at, video, output);
    assert(args[3] == "-ss"@ && args[4] == at.fixed());
    assert(args[5] == "-i"@ && args[6] == video);
    assert(args[7] == "-frames:v"@ && args[8] == "1"@);
}

proof fn lemma_stream_pads(streams: Seq<u32>, n: nat)
    requires
        n <= streams.len(),
    ensures
        analysis::stream_pads(streams, n) == clips::in_a_row(
            Seq::new(n, |k: int| "[0:"@ + digits::decimal(streams[k] as nat) + "]"@),
        ),
    decreases n,
{
    let parts = Seq::new(n, |k: int| "[0:"@ + digits::decimal(streams[k] as nat) + "]"@);
    if n > 0 {
        lemma_stream_pads(streams, (n - 1) as nat);
        let before = Seq::new(
            (n - 1) as nat,
            |k: int| "[0:"@ + digits::decimal(streams[k] as nat) + "]"@,
        );
        let pad = "[0:"@ + digits::decimal(streams[n - 1] as nat) + "]"@;
        assert(parts =~= before.push(pad));
        clips::lemma_in_a_row(before, pad);
    }
}

/// The sound of a piece is cut from the video where the piece starts and as
/// long as it lasts, of its one audio stream, or mixed of all of them.
pub proof fn law_sound_is_taken_of_the_piece(
    video: Seq<char>,
    start: Binary64,
    end: Binary64,
    streams: Seq<u32>,
    output: Seq<char>,
)
    ensures
        ({
            let args = analysis::audio_arguments(video, start, end, streams, output);
            let pads = clips::in_a_row(
                Seq::new(streams.len(), |k: int| "[0:"@ + digits::decimal(streams[k] as nat) + "]"@),
            );
            &&& clips::gives(args, "-ss"@, start.fixed())
            &&& clips::gives(args, "-t"@, analysis::span(start, end).fixed())
            &&& clips::gives(args, "-i"@, video)
            &&& streams.len() == 1 ==> clips::gives(
                args,
                "-map"@,
                "0:"@ + digits::decimal(streams[0] as nat),
            )
            &&& streams.len() != 1 ==> clips::gives(
                args,
                "-filter_complex"@,
                pads + "amix=inputs="@ + digits::decimal(streams.len())
                    + ":duration=longest:normalize=1:dropout_transition=0[chunk_audio]"@,
            ) && clips::gives(args, "-map"@, "[chunk_audio]"@)
            &&& args.last() == output
        }),
{
    reveal_strlit(":duration=longest:normalize=1:dropout_transition=0[");
    reveal_strlit(":duration=longest:normalize=1:dropout_transition=0[chunk_audio]");
    reveal_strlit("chunk_audio");
    reveal_strlit("]");
    let args = analysis::audio_arguments(video, start, end, streams, output);
    lemma_stream_pads(streams, streams.len());
    assert(args[3] == "-ss"@ && args[4] == start.fixed());
    assert(args[5] == "-t"@ && args[6] == analysis::span(start, end).fixed());
    assert(args[7] == "-i"@ && args[8] == video);
    if streams.len() == 1 {
        assert(args[9] == "-map"@ && args[10] == "0:"@ + digits::decimal(streams[0] as nat));
    } else {
        let pads = analysis::stream_pads(streams, streams.len());
        let a = pads + "amix=inputs="@ + digits::decimal(streams.len());
        assert(":duration=longest:normalize=1:dropout_transition=0[chunk_audio]"@
            =~= ":duration=longest:normalize=1:dropout_transition=0["@ + "chunk_audio"@ + "]"@);
        assert(a + ":duration=longest:normalize=1:dropout_transition=0["@ + "chunk_audio"@ + "]"@
            =~= a + ":duration=longest:normalize=1:dropout_transition=0[chunk_audio]"@);
        assert(args[9] == "-filter_complex"@);
        assert(args[11] == "-map"@ && args[12] == "[chunk_audio]"@);
    }
}

} // verus!
