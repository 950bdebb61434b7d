//! The waveform of a video: how it is decoded, its peaks, and its cache.

use vstd::arithmetic::power2;
use vstd::prelude::*;
use vstd::relations::*;

use crate::arguments;
use crate::digits;
use crate::fingerprint;
use crate::fingerprint::FileStamp;
use crate::laws;
use crate::mix;
use crate::number;
use crate::number::Binary64;
use crate::single::Binary32;
use crate::text;

verus! {

pub const WAVEFORM_CACHE_VERSION: &'static str = "waveform-v1-rate100-all-tracks-normalized";

/// Seven days in nanoseconds.
pub const WAVEFORM_CACHE_TTL: i128 = 604_800_000_000_000;

/// The samples that are decoded of each second.
pub const DECODE_RATE: usize = 400;

/// The peaks that are shown of each second.
pub const PEAK_RATE: usize = 100;

// ---------------------------------------------------------------------------
// The cache
// ---------------------------------------------------------------------------

/// What tells the waveform of a video from others: the path, the size and the
/// time of the last change of its file.
pub open spec fn cache_identity(canonical_path: Seq<char>, stamp: FileStamp) -> Seq<char> {
    WAVEFORM_CACHE_VERSION@ + "\0"@ + canonical_path + "\0"@ + fingerprint::stamp_text(stamp)
}

/// The name of the file that caches the waveform of a video.
pub open spec fn cache_key(canonical_path: Seq<char>, stamp: FileStamp) -> Seq<char> {
    fingerprint::digest(cache_identity(canonical_path, stamp)) + ".json"@
}

/// A source whose identity changed in one byte has another cache file. More
/// changes may give the same hash, which has 64 bits.
pub proof fn law_changed_source_changes_key(
    path: Seq<char>,
    stamp: FileStamp,
    new_path: Seq<char>,
    new_stamp: FileStamp,
    at: int,
)
    requires
        ({
            let a = fingerprint::utf8(cache_identity(path, stamp));
            let b = fingerprint::utf8(cache_identity(new_path, new_stamp));
            &&& a.len() == b.len()
            &&& 0 <= at < a.len()
            &&& a[at] != b[at]
            &&& forall|i: int| 0 <= i < a.len() && i != at ==> #[trigger] a[i] == b[i]
        }),
    ensures
        cache_key(path, stamp) != cache_key(new_path, new_stamp),
{
    let a = cache_identity(path, stamp);
    let b = cache_identity(new_path, new_stamp);
    fingerprint::law_hash_tells_one_byte(fingerprint::utf8(a), fingerprint::utf8(b), at);
    laws::law_digest_tells_hashes(a, b);
    laws::law_digest_has_sixteen_digits(a);
    laws::law_digest_has_sixteen_digits(b);
    if cache_key(path, stamp) == cache_key(new_path, new_stamp) {
        assert(fingerprint::digest(a) =~= cache_key(path, stamp).take(16));
        assert(fingerprint::digest(b) =~= cache_key(new_path, new_stamp).take(16));
    }
}

/// Names the file that caches the waveform of a video.
pub fn waveform_cache_key(canonical_path: &str, stamp: &FileStamp) -> (r: String)
    ensures
        r@ == cache_key(canonical_path@, *stamp),
        r@.len() == 16 + ".json"@.len(),
        laws::is_hexadecimal(r@.take(16)),
        r@.skip(16) == ".json"@,
{
    let mut identity: String = WAVEFORM_CACHE_VERSION.to_owned();
    identity.append("\0");
    identity.append(canonical_path);
    identity.append("\0");
    identity.append(fingerprint::write_stamp(stamp).as_str());
    let mut out: String = fingerprint::digest_text(identity.as_str());
    let ghost digest = out@;
    out.append(".json");
    proof {
        laws::law_digest_has_sixteen_digits(identity@);
        assert(out@.take(16) =~= digest);
        assert(out@.skip(16) =~= ".json"@);
    }
    out
}

/// Whether a cache file is still of use. Both times are in nanoseconds; one
/// that lies ahead of the clock counts as fresh.
pub fn waveform_cache_is_fresh(modified: i128, now: i128) -> (r: bool)
    ensures
        r == (now - modified <= WAVEFORM_CACHE_TTL),
{
    if modified > i128::MAX - WAVEFORM_CACHE_TTL {
        true
    } else {
        now <= modified + WAVEFORM_CACHE_TTL
    }
}

/// A waveform: the peaks of a video, at a constant rate.
pub struct WaveformData {
    pub samples_per_second: Binary64,
    pub peaks: Vec<Binary32>,
}

/// Whether a waveform can be shown: at a positive rate, with at least one
/// peak, all of them finite.
pub open spec fn is_usable(data: WaveformData) -> bool {
    &&& data.samples_per_second.finite()
    &&& !data.samples_per_second.le(number::zero())
    &&& data.peaks@.len() > 0
    &&& forall|i: int| 0 <= i < data.peaks@.len() ==> (#[trigger] data.peaks@[i]).finite()
}

/// What becomes of a cache file.
pub enum CacheVerdict {
    /// The file cannot be used and stays.
    Skip,
    /// The file is removed.
    Remove,
    /// The waveform is used.
    Use(WaveformData),
}

/// Judges a cache file by its age and its content, where it could be read.
pub fn read_waveform_cache(modified: i128, now: i128, data: Option<WaveformData>) -> (r:
    CacheVerdict)
    ensures
        now - modified > WAVEFORM_CACHE_TTL ==> r == CacheVerdict::Remove,
        now - modified <= WAVEFORM_CACHE_TTL ==> r == match data {
            None => CacheVerdict::Skip,
            Some(data) => if is_usable(data) {
                CacheVerdict::Use(data)
            } else {
                CacheVerdict::Remove
            },
        },
{
    if !waveform_cache_is_fresh(modified, now) {
        return CacheVerdict::Remove;
    }
    match data {
        None => CacheVerdict::Skip,
        Some(data) => {
            let zero: Binary64 = Binary64 { bits: 0 };
            if !data.samples_per_second.is_finite() || data.samples_per_second.at_most(zero)
                || data.peaks.len() == 0 || !all_finite(&data.peaks) {
                CacheVerdict::Remove
            } else {
                CacheVerdict::Use(data)
            }
        },
    }
}

fn all_finite(peaks: &Vec<Binary32>) -> (r: bool)
    ensures
        r == forall|i: int| 0 <= i < peaks@.len() ==> (#[trigger] peaks@[i]).finite(),
{
    let mut i: usize = 0;
    while i < peaks.len()
        invariant
            i <= peaks@.len(),
            forall|j: int| 0 <= j < i ==> (#[trigger] peaks@[j]).finite(),
        decreases peaks@.len() - i,
    {
        if !peaks[i].is_finite() {
            assert(!peaks@[i as int].finite());
            return false;
        }
        i += 1;
    }
    true
}

/// Whether a file of the cache directory is removed when the cache is pruned:
/// a JSON file that is not known to be fresh.
pub fn prune_waveform_cache(is_json: bool, modified: Option<i128>, now: i128) -> (r: bool)
    ensures
        r == (is_json && !(modified matches Some(m) && now - m <= WAVEFORM_CACHE_TTL)),
{
    if !is_json {
        return false;
    }
    match modified {
        Some(m) => !waveform_cache_is_fresh(m, now),
        None => true,
    }
}

/// The name under which a cache file is written before it takes its place.
pub fn write_waveform_cache(file_name: Option<&str>, process: u32) -> (r: String)
    ensures
        r@ == "."@ + (match text::opt_str(file_name) {
            Some(name) => name,
            None => "waveform"@,
        }) + "."@ + digits::decimal(process as nat) + ".tmp"@,
{
    let mut out: String = ".".to_owned();
    match file_name {
        Some(name) => {
            out.append(name);
        },
        None => {
            out.append("waveform");
        },
    }
    out.append(".");
    out.append(digits::decimal_text(process as u64).as_str());
    out.append(".tmp");
    out
}

// ---------------------------------------------------------------------------
// Decoding
// ---------------------------------------------------------------------------

/// The filters that bring the first `n` streams to one form.
pub open spec fn wave_filters(streams: Seq<u32>, n: nat) -> Seq<Seq<char>>
    decreases n,
{
    if n == 0 {
        Seq::empty()
    } else {
        wave_filters(streams, (n - 1) as nat).push(
            "[0:"@ + mix::decimal_of(streams[n - 1])
                + "]aresample=400,aformat=sample_fmts=flt:channel_layouts=mono[a"@
                + crate::digits::decimal((n - 1) as nat) + "]"@,
        )
    }
}

/// The filter graph that decodes the mix of all streams.
pub open spec fn wave_graph(streams: Seq<u32>) -> Seq<char> {
    text::joined(
        wave_filters(streams, streams.len()).push(mix::mixer(streams.len(), "wave"@)),
        ";"@,
    )
}

/// The arguments with which a waveform is decoded.
pub open spec fn wave_arguments(video: Seq<char>, streams: Seq<u32>) -> Seq<Seq<char>> {
    seq![
        "-hide_banner"@,
        "-loglevel"@,
        "error"@,
        "-i"@,
        video,
        "-filter_complex"@,
        wave_graph(streams),
        "-map"@,
        "[wave]"@,
        "-vn"@,
        "-ac"@,
        "1"@,
        "-ar"@,
        "400"@,
        "-c:a"@,
        "pcm_f32le"@,
        "-f"@,
        "f32le"@,
        "pipe:1"@,
    ]
}

fn write_graph(streams: &Vec<u32>) -> (r: String)
    ensures
        r@ == wave_graph(streams@),
{
    let mut filters: Vec<String> = Vec::new();
    let mut i: usize = 0;
    assert(text::views(filters@) == wave_filters(streams@, 0));
    while i < streams.len()
        invariant
            i <= streams@.len(),
            text::views(filters@) == wave_filters(streams@, i as nat),
        decreases streams@.len() - i,
    {
        let mut filter: String = "[0:".to_owned();
        filter.append(crate::digits::decimal_text(streams[i] as u64).as_str());
        filter.append("]aresample=400,aformat=sample_fmts=flt:channel_layouts=mono[a");
        filter.append(crate::digits::decimal_text(i as u64).as_str());
        filter.append("]");
        crate::markdown::push_line(&mut filters, filter.as_str());
        i += 1;
    }
    let last = mix::write_mixer(streams.len(), "wave");
    crate::markdown::push_line(&mut filters, last.as_str());
    text::join(&filters, ";")
}

/// What is needed to decode a waveform.
pub open spec fn wave_refusal(video_exists: bool, has_ffmpeg: bool, streams: nat) -> Option<
    Seq<char>,
> {
    if !video_exists {
        Some("The selected video no longer exists."@)
    } else if !has_ffmpeg {
        Some("FFmpeg is required to prepare the audio waveform."@)
    } else if streams == 0 {
        Some("No audio track is available for the waveform."@)
    } else {
        None
    }
}

/// Plans the decoding of a waveform: the arguments for FFmpeg, given the
/// indexes of the audio streams.
pub fn plan_waveform(
    video: &str,
    video_exists: bool,
    has_ffmpeg: bool,
    streams: &Vec<u32>,
) -> (r: Result<Vec<String>, String>)
    ensures
        match r {
            Ok(args) => wave_refusal(video_exists, has_ffmpeg, streams@.len()) is None
                && text::views(args@) == wave_arguments(video@, streams@),
            Err(message) => wave_refusal(video_exists, has_ffmpeg, streams@.len()) == Some(
                message@,
            ),
        },
{
    if !video_exists {
        return Err("The selected video no longer exists.".to_owned());
    }
    if !has_ffmpeg {
        return Err("FFmpeg is required to prepare the audio waveform.".to_owned());
    }
    if streams.len() == 0 {
        return Err("No audio track is available for the waveform.".to_owned());
    }
    let graph = write_graph(streams);
    let mut args: Vec<String> = Vec::new();
    arguments::add_all(
        &mut args,
        &[
            "-hide_banner",
            "-loglevel",
            "error",
            "-i",
            video,
            "-filter_complex",
            graph.as_str(),
            "-map",
            "[wave]",
            "-vn",
            "-ac",
            "1",
            "-ar",
            "400",
            "-c:a",
            "pcm_f32le",
            "-f",
            "f32le",
            "pipe:1",
        ],
    );
    Ok(args)
}

// ---------------------------------------------------------------------------
// Peaks
// ---------------------------------------------------------------------------

/// The loudness of a decoded sample: four bytes, the least significant first.
pub open spec fn sample(bytes: Seq<u8>, i: int) -> Binary32 {
    Binary32 {
        bits: (bytes[4 * i] + 0x100 * bytes[4 * i + 1] + 0x1_0000 * bytes[4 * i + 2] + 0x100_0000
            * bytes[4 * i + 3]) as u32,
    }.absolute()
}

/// The loudness of the decoded samples. Bytes that are left over count for
/// nothing.
pub open spec fn samples(bytes: Seq<u8>) -> Seq<Binary32> {
    Seq::new((bytes.len() / 4) as nat, |i: int| sample(bytes, i))
}

/// The loudest of the samples `from..to`.
pub open spec fn loudest(samples: Seq<Binary32>, from: int, to: int) -> Binary32
    decreases to - from,
{
    if to <= from {
        Binary32 { bits: 0 }
    } else {
        loudest(samples, from, to - 1).upper(samples[to - 1])
    }
}

/// The peaks of samples: the loudest of each four, the last ones fewer.
pub open spec fn peaks_of(samples: Seq<Binary32>) -> Seq<Binary32> {
    Seq::new(
        ((samples.len() + 3) / 4) as nat,
        |k: int|
            loudest(
                samples,
                4 * k,
                if 4 * k + 4 < samples.len() {
                    4 * k + 4
                } else {
                    samples.len() as int
                },
            ),
    )
}

/// The order of peaks: the total order of all encodings.
pub open spec fn rank_order() -> spec_fn(Binary32, Binary32) -> bool {
    |a: Binary32, b: Binary32| a.rank() <= b.rank()
}

/// Peaks from the lowest to the highest.
pub open spec fn ranked(values: Seq<Binary32>) -> Seq<Binary32> {
    values.sort_by(rank_order())
}

/// The value nearest to ninety-eight hundredths.
pub open spec fn most() -> Binary64 {
    Binary64 { bits: 0x3fef_5c28_f5c2_8f5c }
}

/// The place of the peak that counts as full height, of `n` sorted peaks.
pub open spec fn reference_place(n: nat) -> nat {
    number::natural((n - 1) as nat).product(most()).whole()
}

/// The height that counts as full: that of a loud peak, but no less than the
/// value nearest to twenty-five thousandths.
pub open spec fn reference(peaks: Seq<Binary32>) -> Binary32 {
    ranked(peaks)[reference_place(peaks.len()) as int].upper(
        Binary32 { bits: 0x3ccc_cccd },
    )
}

/// The peaks in proportion to the full height, none above one.
pub open spec fn scaled_peaks(peaks: Seq<Binary32>) -> Seq<Binary32> {
    Seq::new(
        peaks.len(),
        |i: int| peaks[i].quotient(reference(peaks)).lower(Binary32 { bits: 0x3f80_0000 }),
    )
}

pub(crate) proof fn lemma_rank_order()
    ensures
        total_ordering(rank_order()),
{
    assert forall|a: Binary32, b: Binary32|
        #[trigger] rank_order()(a, b) && #[trigger] rank_order()(b, a) implies a == b by {
        assert(a.bits == b.bits);
    }
}

/// Two sorted sequences with the peaks of a third hold them in one order.
proof fn lemma_ranked(sorted: Seq<Binary32>, values: Seq<Binary32>)
    requires
        sorted_by(sorted, rank_order()),
        sorted.to_multiset() == values.to_multiset(),
    ensures
        sorted == ranked(values),
{
    lemma_rank_order();
    values.lemma_sort_by_ensures(rank_order());
    vstd::seq_lib::lemma_sorted_unique(sorted, ranked(values), rank_order());
}

proof fn lemma_natural(x: nat)
    requires
        1 <= x <= u64::MAX,
    ensures
        number::natural(x).finite(),
        !number::natural(x).is_negative(),
        1999 * number::natural(x).size() <= 2000 * (x * power2::pow2(1074)),
{
    let f = number::double();
    let p = power2::pow2(1074);
    let y = x * p;
    number::lemma_nearest_exists(f, y, 1);
    let mag = number::nearest(f, y, 1);
    power2::lemma_pow2_pos(1074);
    power2::lemma2_to64();
    power2::lemma_pow2_adds(1010, 64);
    power2::lemma_pow2_pos(1010);
    let q = power2::pow2(1010);
    assert(p >= 0x1_0000_0000_0000_0000) by (nonlinear_arith)
        requires
            p == q * 0x1_0000_0000_0000_0000,
            q > 0,
    ;
    assert(y >= p) by (nonlinear_arith)
        requires
            y == x * p,
            x >= 1,
            p >= 0,
    ;
    if mag >= f.half {
        number::lemma_nearest_close(f, y, 1);
        assert(number::steps(f, mag) * 1 == number::steps(f, mag));
    } else {
        assert(mag / f.half as nat == 0 && mag % f.half as nat == mag) by {
            vstd::arithmetic::div_mod::lemma_fundamental_div_mod_converse(
                mag as int,
                f.half as int,
                0,
                mag as int,
            );
        }
        assert(number::steps(f, mag) == mag);
    }
    if mag == f.inf {
        let high = number::steps(f, mag);
        assert(f.inf as nat / f.half as nat == 2047);
        assert(f.inf as nat % f.half as nat == 0);
        let r = power2::pow2(2046);
        assert(high == (f.half + 0) as nat * r);
        power2::lemma_pow2_adds(1074, 972);
        power2::lemma_pow2_adds(64, 908);
        power2::lemma_pow2_pos(908);
        let t = power2::pow2(908);
        let s = power2::pow2(972);
        assert(s >= 0x1_0000_0000_0000_0000) by (nonlinear_arith)
            requires
                s == 0x1_0000_0000_0000_0000 * t,
                t > 0,
        ;
        assert(high >= 0x10_0000_0000_0000 * (p * 0x1_0000_0000_0000_0000)) by (nonlinear_arith)
            requires
                high == 0x10_0000_0000_0000 * r,
                r == p * s,
                s >= 0x1_0000_0000_0000_0000,
                p > 0,
        ;
        assert(y < p * 0x1_0000_0000_0000_0000) by (nonlinear_arith)
            requires
                y == x * p,
                x < 0x1_0000_0000_0000_0000,
                p > 0,
        ;
        assert(false);
    }
}

/// The peak that counts as full height is one of the peaks.
pub proof fn lemma_reference_place(n: nat)
    requires
        1 <= n <= u64::MAX,
    ensures
        reference_place(n) < n,
{
    let f = number::double();
    let p = power2::pow2(1074);
    let x = (n - 1) as nat;
    let c = most();
    power2::lemma_pow2_pos(1074);
    power2::lemma_pow2_adds(1021, 53);
    power2::lemma_pow2_adds(1074, 1);
    power2::lemma_pow2_adds(1010, 64);
    power2::lemma_pow2_pos(1010);
    power2::lemma_pow2_pos(1021);
    power2::lemma2_to64();
    let k = power2::pow2(1021);
    assert(c.magnitude() == 0x3fef_5c28_f5c2_8f5c);
    assert(c.size() == (0x10_0000_0000_0000 + 0xf_5c28_f5c2_8f5cnat) * k) by {
        assert(0x3fef_5c28_f5c2_8f5cnat / 0x10_0000_0000_0000nat == 1022);
        assert(0x3fef_5c28_f5c2_8f5cnat % 0x10_0000_0000_0000nat == 0xf_5c28_f5c2_8f5cnat);
    }
    let size = c.size();
    assert(power2::pow2(53) == 0x20_0000_0000_0000) by {
        power2::lemma2_to64_rest();
    }
    assert(100 * size <= 99 * p) by (nonlinear_arith)
        requires
            size == 0x1f_5c28_f5c2_8f5c * k,
            p == k * 0x20_0000_0000_0000,
            k >= 0,
    ;
    let q = power2::pow2(1010);
    assert(p >= 0x1_0000_0000_0000_0000) by (nonlinear_arith)
        requires
            p == q * 0x1_0000_0000_0000_0000,
            q > 0,
    ;
    let a = number::natural(x);
    if x > 0 {
        lemma_natural(x);
    } else {
        assert(0 * p == 0) by (nonlinear_arith);
        assert(number::rounds_to(f, 0, 1, 0)) by {
            number::lemma_steps_grow(f, 0, 1);
            assert(number::steps(f, 0) >= 0);
        }
        number::lemma_nearest(f, 0, 1, 0);
        assert(a == Binary64 { bits: 0 });
        number::lemma_first_steps(f);
        assert(a.size() == 0);
    }
    let s1 = a.size();
    assert(1999 * s1 <= 2000 * (x * p));
    let num = s1 * size;
    number::lemma_nearest_exists(f, num, p);
    let mag = number::nearest(f, num, p);
    let product = a.product(c);
    assert(c.finite() && !c.is_negative());
    assert(product == number::signed(false, mag));
    assert(product.magnitude() == mag);
    let s2 = number::steps(f, mag);
    assert(s2 <= x * p || s2 < 0x10_0000_0000_0000) by {
        if mag >= f.half {
            number::lemma_nearest_close(f, num, p);
            assert(s2 <= x * p) by (nonlinear_arith)
                requires
                    1999 * (s2 * p) <= 2000 * (s1 * size),
                    100 * size <= 99 * p,
                    1999 * s1 <= 2000 * (x * p),
                    p > 0,
                    s1 >= 0,
                    s2 >= 0,
                    x >= 0,
            {
                assert(s1 * (100 * size) <= s1 * (99 * p));
                assert(199900 * (s2 * p) <= 198000 * (s1 * p));
                assert((199900 * s2) * p <= (198000 * s1) * p);
                assert(199900 * s2 <= 198000 * s1);
                assert(199900 * 1999 * s2 <= 198000 * 2000 * (x * p));
                assert(x * p >= 0);
            }
        } else {
            vstd::arithmetic::div_mod::lemma_fundamental_div_mod_converse(
                mag as int,
                f.half as int,
                0,
                mag as int,
            );
        }
    }
    let top = 2 * s2 + p;
    assert(power2::pow2(1075) == p * 2);
    let d = p * 2;
    assert(top < (x + 1) * d) by (nonlinear_arith)
        requires
            top == 2 * s2 + p,
            d == p * 2,
            s2 <= x * p || s2 < 0x10_0000_0000_0000,
            p >= 0x1_0000_0000_0000_0000,
            x >= 0,
    ;
    assert(top / d < x + 1) by {
        vstd::arithmetic::div_mod::lemma_fundamental_div_mod(top as int, d as int);
        assert((top / d) * d <= top) by (nonlinear_arith)
            requires
                top == d * (top / d) + top % d,
                top % d >= 0,
        ;
        assert(top / d < x + 1) by (nonlinear_arith)
            requires
                (top / d) * d <= top,
                top < (x + 1) * d,
                d > 0,
        ;
    }
}

fn read_samples(bytes: &[u8]) -> (r: Vec<Binary32>)
    ensures
        r@ == samples(bytes@),
{
    let n: usize = bytes.len() / 4;
    let mut out: Vec<Binary32> = Vec::new();
    let mut i: usize = 0;
    while i < n
        invariant
            i <= n,
            n == bytes@.len() / 4,
            bytes@.len() <= usize::MAX,
            out@ == samples(bytes@).take(i as int),
        decreases n - i,
    {
        let b0: u32 = bytes[4 * i] as u32;
        let b1: u32 = bytes[4 * i + 1] as u32;
        let b2: u32 = bytes[4 * i + 2] as u32;
        let b3: u32 = bytes[4 * i + 3] as u32;
        let value = Binary32 { bits: b0 + 0x100 * b1 + 0x1_0000 * b2 + 0x100_0000 * b3 };
        out.push(value.abs());
        i += 1;
        assert(out@ =~= samples(bytes@).take(i as int));
    }
    assert(samples(bytes@).take(n as int) =~= samples(bytes@));
    out
}

fn loudest_of(samples: &Vec<Binary32>, from: usize, to: usize) -> (r: Binary32)
    requires
        from <= to <= samples@.len(),
    ensures
        r == loudest(samples@, from as int, to as int),
{
    let mut best = Binary32 { bits: 0 };
    let mut i: usize = from;
    while i < to
        invariant
            from <= i <= to <= samples@.len(),
            best == loudest(samples@, from as int, i as int),
        decreases to - i,
    {
        best = best.max(samples[i]);
        i += 1;
    }
    best
}

fn read_peaks(samples: &Vec<Binary32>) -> (r: Vec<Binary32>)
    ensures
        r@ == peaks_of(samples@),
{
    let n: usize = samples.len();
    let mut out: Vec<Binary32> = Vec::new();
    let mut from: usize = 0;
    while from < n
        invariant
            n == samples@.len(),
            from <= n,
            from % 4 == 0 || from == n,
            out@.len() == (from + 3) / 4,
            forall|k: int| 0 <= k < out@.len() ==> #[trigger] out@[k] == peaks_of(samples@)[k],
        decreases n - from,
    {
        let to: usize = if n - from > 4 {
            from + 4
        } else {
            n
        };
        let ghost k = out@.len() as int;
        assert(4 * k == from);
        out.push(loudest_of(samples, from, to));
        from = to;
    }
    assert(out@ =~= peaks_of(samples@));
    out
}

fn copy_part(values: &Vec<Binary32>, from: usize, to: usize) -> (r: Vec<Binary32>)
    requires
        from <= to <= values@.len(),
    ensures
        r@ == values@.subrange(from as int, to as int),
{
    let mut out: Vec<Binary32> = Vec::new();
    let mut i: usize = from;
    while i < to
        invariant
            from <= i <= to <= values@.len(),
            out@ == values@.subrange(from as int, i as int),
        decreases to - i,
    {
        out.push(values[i]);
        i += 1;
        assert(out@ =~= values@.subrange(from as int, i as int));
    }
    out
}

fn merge(a: &Vec<Binary32>, b: &Vec<Binary32>) -> (r: Vec<Binary32>)
    requires
        sorted_by(a@, rank_order()),
        sorted_by(b@, rank_order()),
    ensures
        sorted_by(r@, rank_order()),
        r@.to_multiset() == a@.to_multiset().add(b@.to_multiset()),
{
    broadcast use vstd::seq_lib::group_to_multiset_ensures;

    let ghost order = rank_order();
    let mut out: Vec<Binary32> = Vec::new();
    let mut i: usize = 0;
    let mut j: usize = 0;
    assert(a@.take(0) =~= Seq::<Binary32>::empty());
    assert(b@.take(0) =~= Seq::<Binary32>::empty());
    assert(out@ =~= Seq::<Binary32>::empty());
    assert(out@.to_multiset() =~= a@.take(0).to_multiset().add(b@.take(0).to_multiset()));
    while i < a.len() || j < b.len()
        invariant
            i <= a@.len(),
            j <= b@.len(),
            order == rank_order(),
            sorted_by(a@, order),
            sorted_by(b@, order),
            sorted_by(out@, order),
            out@.to_multiset() == a@.take(i as int).to_multiset().add(
                b@.take(j as int).to_multiset(),
            ),
            forall|k: int, l: int|
                0 <= k < out@.len() && i <= l < a@.len() ==> (#[trigger] out@[k]).rank() <= (
                #[trigger] a@[l]).rank(),
            forall|k: int, l: int|
                0 <= k < out@.len() && j <= l < b@.len() ==> (#[trigger] out@[k]).rank() <= (
                #[trigger] b@[l]).rank(),
        decreases a@.len() - i + b@.len() - j,
    {
        broadcast use vstd::seq_lib::group_to_multiset_ensures;

        let ghost before = out@;
        if j >= b.len() || (i < a.len() && !b[j].ranks_before(a[i])) {
            let value: Binary32 = a[i];
            out.push(value);
            proof {
                assert(a@.take(i + 1) =~= a@.take(i as int).push(value));
                assert(out@.to_multiset() =~= a@.take(i + 1).to_multiset().add(
                    b@.take(j as int).to_multiset(),
                ));
                assert forall|l: int| i < l < a@.len() implies value.rank() <= (
                #[trigger] a@[l]).rank() by {
                    assert(order(a@[i as int], a@[l]));
                }
                assert forall|l: int| j <= l < b@.len() implies value.rank() <= (
                #[trigger] b@[l]).rank() by {
                    if j < l {
                        assert(order(b@[j as int], b@[l]));
                    }
                }
                assert forall|k: int, l: int| 0 <= k < l < out@.len() implies #[trigger] order(
                    out@[k],
                    out@[l],
                ) by {
                    assert(out@[k] == before[k]);
                    if l < before.len() {
                        assert(out@[l] == before[l]);
                        assert(order(before[k], before[l]));
                    } else {
                        assert(before[k].rank() <= a@[i as int].rank());
                    }
                }
            }
            i += 1;
        } else {
            let value: Binary32 = b[j];
            out.push(value);
            proof {
                assert(b@.take(j + 1) =~= b@.take(j as int).push(value));
                assert(out@.to_multiset() =~= a@.take(i as int).to_multiset().add(
                    b@.take(j + 1).to_multiset(),
                ));
                assert forall|l: int| j < l < b@.len() implies value.rank() <= (
                #[trigger] b@[l]).rank() by {
                    assert(order(b@[j as int], b@[l]));
                }
                assert forall|l: int| i <= l < a@.len() implies value.rank() <= (
                #[trigger] a@[l]).rank() by {
                    if i < l {
                        assert(order(a@[i as int], a@[l]));
                    }
                }
                assert forall|k: int, l: int| 0 <= k < l < out@.len() implies #[trigger] order(
                    out@[k],
                    out@[l],
                ) by {
                    assert(out@[k] == before[k]);
                    if l < before.len() {
                        assert(out@[l] == before[l]);
                        assert(order(before[k], before[l]));
                    } else {
                        assert(before[k].rank() <= b@[j as int].rank());
                    }
                }
            }
            j += 1;
        }
    }
    assert(a@.take(i as int) =~= a@);
    assert(b@.take(j as int) =~= b@);
    out
}

fn merge_sort(values: &Vec<Binary32>) -> (r: Vec<Binary32>)
    ensures
        sorted_by(r@, rank_order()),
        r@.to_multiset() == values@.to_multiset(),
    decreases values@.len(),
{
    let n: usize = values.len();
    if n <= 1 {
        let out = copy_part(values, 0, n);
        assert(out@ =~= values@);
        return out;
    }
    let middle: usize = n / 2;
    let left = copy_part(values, 0, middle);
    let right = copy_part(values, middle, n);
    assert(values@ =~= left@ + right@);
    proof {
        vstd::seq_lib::lemma_multiset_commutative(left@, right@);
    }
    let a = merge_sort(&left);
    let b = merge_sort(&right);
    merge(&a, &b)
}

fn rank_all(values: &Vec<Binary32>) -> (r: Vec<Binary32>)
    ensures
        r@ == ranked(values@),
        r@.len() == values@.len(),
{
    broadcast use vstd::seq_lib::group_to_multiset_ensures;

    let out = merge_sort(values);
    proof {
        lemma_ranked(out@, values@);
        assert(out@.to_multiset().len() == values@.to_multiset().len());
    }
    out
}

/// What the decoded bytes of a video give: a waveform, or why there is none.
pub open spec fn is_waveform(data: WaveformData, bytes: Seq<u8>) -> bool {
    &&& data.samples_per_second == number::natural(PEAK_RATE as nat)
    &&& data.peaks@ == scaled_peaks(peaks_of(samples(bytes)))
}

/// Makes a waveform of what FFmpeg decoded.
pub fn extract_waveform(success: bool, stdout: &[u8], stderr: &str) -> (r: Result<
    WaveformData,
    String,
>)
    ensures
        match r {
            Ok(data) => success && stdout@.len() >= 4 && is_waveform(data, stdout@),
            Err(message) => if !success {
                message@ == "Could not prepare the audio waveform: "@ + arguments::tail(stderr@, 4)
            } else {
                stdout@.len() < 4 && message@
                    == "The selected video has no decodable audio waveform."@
            },
        },
{
    if !success {
        let mut message: String = "Could not prepare the audio waveform: ".to_owned();
        message.append(arguments::last_lines(stderr, 4).as_str());
        return Err(message);
    }
    let raw = read_samples(stdout);
    let mut peaks = read_peaks(&raw);
    let n: usize = peaks.len();
    if n == 0 {
        return Err("The selected video has no decodable audio waveform.".to_owned());
    }
    let distribution = rank_all(&peaks);
    proof {
        lemma_reference_place(n as nat);
    }
    let place: u64 = Binary64::from_u64(n as u64 - 1).mul(
        Binary64 { bits: 0x3fef_5c28_f5c2_8f5c },
    ).round_u64();
    let full: Binary32 = distribution[place as usize].max(Binary32 { bits: 0x3ccc_cccd });
    let ghost loud = peaks@;
    let mut i: usize = 0;
    while i < n
        invariant
            i <= n,
            n == peaks@.len(),
            n == loud.len(),
            full == reference(loud),
            forall|k: int|
                0 <= k < n ==> #[trigger] peaks@[k] == if k < i {
                    scaled_peaks(loud)[k]
                } else {
                    loud[k]
                },
        decreases n - i,
    {
        let height: Binary32 = peaks[i].div(full).min(Binary32 { bits: 0x3f80_0000 });
        peaks.set(i, height);
        i += 1;
    }
    assert(peaks@ =~= scaled_peaks(loud));
    Ok(WaveformData { samples_per_second: Binary64::from_u64(100), peaks })
}

// ---------------------------------------------------------------------------
// What a waveform always is
// ---------------------------------------------------------------------------

proof fn lemma_loudest_is_sound(samples: Seq<Binary32>, from: int, to: int)
    requires
        0 <= from <= to <= samples.len(),
        forall|i: int| 0 <= i < samples.len() ==> !(#[trigger] samples[i]).is_negative(),
    ensures
        !loudest(samples, from, to).is_negative(),
        !loudest(samples, from, to).is_nan(),
    decreases to - from,
{
    if from < to {
        lemma_loudest_is_sound(samples, from, to - 1);
        assert(!samples[to - 1].is_negative());
    }
}

proof fn lemma_scaled(peak: Binary32, full: Binary32)
    requires
        !peak.is_negative(),
        !full.is_negative(),
        !full.is_nan(),
    ensures
        ({
            let one = Binary32 { bits: 0x3f80_0000 };
            let height = peak.quotient(full).lower(one);
            &&& height.finite()
            &&& !height.is_negative()
            &&& !one.lt(height)
        }),
{
    let one = Binary32 { bits: 0x3f80_0000 };
    let f = number::single();
    let q = peak.quotient(full);
    assert(one.finite() && !one.is_nan());
    number::lemma_nearest_exists(f, peak.size() * power2::pow2(149), full.size());
    if q.lt(one) {
        if q.infinite() {
            number::lemma_steps_grow(f, one.magnitude(), q.magnitude());
        }
    }
}

/// A waveform that is made can be drawn and is kept: its rate is positive, and
/// its heights lie between nothing and one.
pub proof fn law_waveform_is_usable(data: WaveformData, bytes: Seq<u8>)
    requires
        bytes.len() >= 4,
        is_waveform(data, bytes),
    ensures
        is_usable(data),
        forall|i: int|
            0 <= i < data.peaks@.len() ==> !(#[trigger] data.peaks@[i]).is_negative() && !(
            Binary32 { bits: 0x3f80_0000 }).lt(data.peaks@[i]),
{
    let loud = samples(bytes);
    let peaks = peaks_of(loud);
    assert forall|i: int| 0 <= i < loud.len() implies !(#[trigger] loud[i]).is_negative() by {
        assert(loud[i] == sample(bytes, i));
    }
    assert(peaks.len() > 0);
    assert forall|k: int| 0 <= k < peaks.len() implies !(#[trigger] peaks[k]).is_negative() by {
        let to = if 4 * k + 4 < loud.len() {
            4 * k + 4
        } else {
            loud.len() as int
        };
        lemma_loudest_is_sound(loud, 4 * k, to);
    }
    let full = reference(peaks);
    let least = Binary32 { bits: 0x3ccc_cccd };
    assert(!full.is_negative() && !full.is_nan()) by {
        let found = ranked(peaks)[reference_place(peaks.len()) as int];
        if least.lt(found) {
            assert(least.units() >= 0);
        }
    }
    assert forall|i: int| 0 <= i < data.peaks@.len() implies (
    #[trigger] data.peaks@[i]).finite() && !data.peaks@[i].is_negative() && !(Binary32 {
        bits: 0x3f80_0000,
    }).lt(data.peaks@[i]) by {
        lemma_scaled(peaks[i], full);
    }
    lemma_natural(PEAK_RATE as nat);
    lemma_natural_positive(PEAK_RATE as nat);
}

proof fn lemma_natural_positive(x: nat)
    requires
        1 <= x,
    ensures
        !number::natural(x).le(number::zero()),
{
    let f = number::double();
    let p = power2::pow2(1074);
    power2::lemma_pow2_pos(1074);
    let y = x * p;
    assert(y >= 1) by (nonlinear_arith)
        requires
            y == x * p,
            x >= 1,
            p >= 1,
    ;
    number::lemma_nearest_exists(f, y, 1);
    let mag = number::nearest(f, y, 1);
    number::lemma_first_steps(f);
    if mag == 0 {
        assert(!number::past(f, y, 1, 0));
    } else {
        number::lemma_steps_grow(f, 0, mag);
    }
}

} // verus!
