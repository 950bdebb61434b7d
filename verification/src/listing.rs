//! Lists of subtitles, and the order in which they are read.

use vstd::arithmetic::power2;
use vstd::prelude::*;

use crate::clock;
use crate::entries;
use crate::laws;
use crate::markdown;
use crate::number;
use crate::roundtrip;
use crate::text;
use crate::transcript;
use crate::transcript::Cue;

verus! {

/// The lines among the first `n` that hold subtitles, in the order in which
/// the subtitles are read.
pub open spec fn places(lines: Seq<Seq<char>>, n: nat) -> Seq<int>
    decreases n,
{
    if n == 0 {
        Seq::empty()
    } else {
        let before = places(lines, (n - 1) as nat);
        let cues = transcript::sorted_cues(lines, (n - 1) as nat);
        match transcript::cue_in(lines[n - 1]) {
            Some(cue) => before.insert(
                transcript::cue_slot(cues, cue.start, cues.len()) as int,
                n - 1,
            ),
            None => before,
        }
    }
}

/// Whether an order lists the first `n` lines that hold subtitles, each once.
pub open spec fn lists_all(lines: Seq<Seq<char>>, order: Seq<int>, n: nat) -> bool {
    &&& order.no_duplicates()
    &&& forall|k: int|
        #[trigger] order.contains(k) <==> 0 <= k < n && transcript::cue_in(lines[k]) is Some
}

/// Whether subtitles stand in an order of lines: by their start, those that
/// start together in the order of the lines.
pub open spec fn stands_in(lines: Seq<Seq<char>>, order: Seq<int>, cues: Seq<Cue>) -> bool {
    &&& cues.len() == order.len()
    &&& forall|i: int|
        0 <= i < cues.len() ==> transcript::cue_in(lines[order[i]]) == Some(#[trigger] cues[i])
    &&& forall|i: int, j: int|
        0 <= i < j < cues.len() ==> (#[trigger] cues[i]).start.rank() < (
        #[trigger] cues[j]).start.rank() || (cues[i].start.rank() == cues[j].start.rank()
            && order[i] < order[j])
}

pub(crate) proof fn lemma_inserted(order: Seq<int>, at: int, k: int)
    requires
        0 <= at <= order.len(),
        order.no_duplicates(),
        !order.contains(k),
    ensures
        order.insert(at, k).no_duplicates(),
        forall|j: int| #[trigger] order.insert(at, k).contains(j) <==> order.contains(j) || j == k,
{
    let after = order.insert(at, k);
    assert forall|i: int, j: int| 0 <= i < after.len() && 0 <= j < after.len() && i != j implies
        after[i] != after[j] by {
        let p = if i < at {
            i
        } else {
            i - 1
        };
        let q = if j < at {
            j
        } else {
            j - 1
        };
        if i != at {
            assert(after[i] == order[p]);
            assert(order.contains(order[p]));
        }
        if j != at {
            assert(after[j] == order[q]);
            assert(order.contains(order[q]));
        }
    }
    assert forall|j: int| #[trigger] after.contains(j) <==> order.contains(j) || j == k by {
        if after.contains(j) {
            let i = choose|i: int| 0 <= i < after.len() && after[i] == j;
            if i < at {
                assert(order[i] == j);
            } else if i > at {
                assert(order[i - 1] == j);
            }
        }
        if order.contains(j) {
            let i = choose|i: int| 0 <= i < order.len() && order[i] == j;
            if i < at {
                assert(after[i] == j);
            } else {
                assert(after[i + 1] == j);
            }
        }
        if j == k {
            assert(after[at] == k);
        }
    }
}

proof fn lemma_places(lines: Seq<Seq<char>>, n: nat)
    requires
        n <= lines.len(),
    ensures
        lists_all(lines, places(lines, n), n),
        stands_in(lines, places(lines, n), transcript::sorted_cues(lines, n)),
    decreases n,
{
    if n > 0 {
        let m = (n - 1) as nat;
        lemma_places(lines, m);
        let order = places(lines, m);
        let cues = transcript::sorted_cues(lines, m);
        if let Some(cue) = transcript::cue_in(lines[n - 1]) {
            transcript::lemma_cue_slot(cues, cue.start, cues.len());
            let at = transcript::cue_slot(cues, cue.start, cues.len()) as int;
            assert(!order.contains(n - 1));
            lemma_inserted(order, at, n - 1);
            let after = order.insert(at, n - 1);
            let all = cues.insert(at, cue);
            assert forall|i: int| 0 <= i < all.len() implies transcript::cue_in(lines[after[i]])
                == Some(#[trigger] all[i]) by {
                if i < at {
                    assert(all[i] == cues[i] && after[i] == order[i]);
                } else if i > at {
                    assert(all[i] == cues[i - 1] && after[i] == order[i - 1]);
                }
            }
            assert forall|i: int, j: int| 0 <= i < j < all.len() implies (
            #[trigger] all[i]).start.rank() < (#[trigger] all[j]).start.rank() || (
            all[i].start.rank() == all[j].start.rank() && after[i] < after[j]) by {
                if i < at {
                    assert(all[i] == cues[i] && after[i] == order[i]);
                    assert(order.contains(order[i]));
                    if i < at - 1 {
                        assert(cues[i].start.rank() <= cues[at - 1].start.rank());
                    }
                } else if i > at {
                    assert(all[i] == cues[i - 1] && after[i] == order[i - 1]);
                }
                if j < at {
                    assert(all[j] == cues[j] && after[j] == order[j]);
                } else if j > at {
                    assert(all[j] == cues[j - 1] && after[j] == order[j - 1]);
                }
            }
        }
    }
}

/// Every subtitle of a sidecar is read once, by its start, and those that start
/// together in the order of their lines. Each ends after it starts.
pub proof fn law_subtitles_are_read_in_order(markdown: Seq<char>)
    ensures
        ({
            let lines = text::lines_of(markdown);
            let order = places(lines, lines.len());
            &&& lists_all(lines, order, lines.len())
            &&& stands_in(lines, order, transcript::subtitles(markdown))
        }),
        forall|i: int|
            0 <= i < transcript::subtitles(markdown).len() ==> (
            #[trigger] transcript::subtitles(markdown)[i]).start.lt(
                transcript::subtitles(markdown)[i].end,
            ),
{
    let lines = text::lines_of(markdown);
    let cues = transcript::subtitles(markdown);
    lemma_places(lines, lines.len());
    assert forall|i: int| 0 <= i < cues.len() implies (#[trigger] cues[i]).start.lt(
        cues[i].end,
    ) by {
        reveal(transcript::cue_in);
        assert(transcript::cue_in(lines[places(lines, lines.len())[i]]) == Some(cues[i]));
    }
}

/// The lines of subtitles under identifiers.
pub open spec fn written(ids: Seq<Seq<char>>, cues: Seq<Cue>) -> Seq<Seq<char>> {
    Seq::new(cues.len(), |i: int| transcript::written_subtitle(ids[i], cues[i])->Ok_0)
}

/// A list of subtitles reads back: each is there once, with its times in
/// thousandths of a second, by its start, and those that start together in the
/// order in which they were written.
pub proof fn law_written_subtitles_read_back(ids: Seq<Seq<char>>, cues: Seq<Cue>)
    requires
        cues.len() > 0,
        ids.len() == cues.len(),
        forall|i: int| 0 <= i < ids.len() ==> entries::is_identifier(#[trigger] ids[i]),
        forall|i: int| 0 <= i < cues.len() ==> roundtrip::is_readable(#[trigger] cues[i]),
    ensures
        forall|i: int|
            0 <= i < cues.len() ==> transcript::written_subtitle(
                #[trigger] ids[i],
                cues[i],
            ) is Ok,
        ({
            let read = transcript::subtitles(text::text_of(written(ids, cues)));
            let order = places(written(ids, cues), cues.len());
            &&& order.no_duplicates()
            &&& forall|k: int| #[trigger] order.contains(k) <==> 0 <= k < cues.len()
            &&& read.len() == order.len() == cues.len()
            &&& forall|i: int|
                0 <= i < read.len() ==> #[trigger] read[i] == roundtrip::in_thousandths(
                    roundtrip::entered(cues[order[i]]),
                )
            &&& forall|i: int, j: int|
                0 <= i < j < read.len() ==> (#[trigger] read[i]).start.rank() < (
                #[trigger] read[j]).start.rank() || (read[i].start.rank() == read[j].start.rank()
                    && order[i] < order[j])
        }),
{
    let lines = written(ids, cues);
    let n = cues.len();
    assert forall|i: int| 0 <= i < n implies text::on_one_line(#[trigger] lines[i])
        && text::chopped(lines[i]) == lines[i] && transcript::cue_in(lines[i]) == Some(
        roundtrip::in_thousandths(roundtrip::entered(cues[i])),
    ) && transcript::written_subtitle(ids[i], cues[i]) is Ok by {
        assert(entries::is_identifier(ids[i]));
        assert(roundtrip::is_readable(cues[i]));
        roundtrip::lemma_written_reads(ids[i], cues[i]);
    }
    assert forall|i: int| 0 <= i < n implies transcript::written_subtitle(
        #[trigger] ids[i],
        cues[i],
    ) is Ok by {
        assert(text::on_one_line(lines[i]));
    }
    laws::lemma_reread(lines);
    assert(laws::reread(lines) =~= lines);
    lemma_places(lines, n);
    let order = places(lines, n);
    let read = transcript::sorted_cues(lines, n);
    assert forall|k: int| #[trigger] order.contains(k) <==> 0 <= k < n by {
        if 0 <= k < n {
            assert(text::on_one_line(lines[k]));
        }
    }
    assert forall|i: int| 0 <= i < read.len() implies #[trigger] read[i]
        == roundtrip::in_thousandths(roundtrip::entered(cues[order[i]])) by {
        assert(order.contains(order[i]));
        assert(text::on_one_line(lines[order[i]]));
    }
    lemma_order_is_whole(order, n);
}

/// Whether a subtitle is written as it is: its texts are clean, its words hold
/// no delimiter of a comment, and it lasts two thousandths of a second or more,
/// up to a thousand million seconds from the start.
pub open spec fn is_plain(cue: Cue) -> bool {
    &&& cue.start.finite() && cue.end.finite()
    &&& number::zero().le(cue.start)
    &&& cue.start.sum(number::two_thousandths()).le(cue.end)
    &&& cue.end.units() <= 1_000_000_000 * power2::pow2(1074)
    &&& markdown::entry_text(cue.text) == cue.text
    &&& !text::contains(cue.text, "<!--"@)
    &&& !text::contains(cue.text, "-->"@)
    &&& markdown::metadata(cue.speaker, "Unknown"@) == cue.speaker
    &&& !text::has_suffix(cue.speaker, "language="@)
    &&& markdown::metadata(cue.language, "unknown"@) == cue.language
}

proof fn lemma_plain_is_readable(cue: Cue)
    requires
        is_plain(cue),
    ensures
        roundtrip::is_readable(cue),
        roundtrip::in_thousandths(roundtrip::entered(cue)) == roundtrip::in_thousandths(cue),
{
    let zero = number::zero();
    let start = clock::from_start(cue.start);
    number::lemma_size_zero(0);
    number::lemma_added_thousandths(cue.start, cue.end);
    number::lemma_thousandths_apart(cue.start, cue.end);
    power2::lemma_pow2_pos(1074);
    assert(zero.units() == 0);
    assert(start.size() == cue.start.size());
    assert(number::to_thousandths(start) == number::to_thousandths(cue.start));
    assert(clock::cue_bounds(cue.start, cue.end) is Ok);
    roundtrip::lemma_clean_end(cue.text);
}

/// Subtitles that are written as they are read back, whole: each is there once,
/// with its words, its speaker and its language, and with its times in
/// thousandths of a second, by its start, and those that start together in the
/// order in which they were written.
pub proof fn law_plain_subtitles_read_back(ids: Seq<Seq<char>>, cues: Seq<Cue>)
    requires
        cues.len() > 0,
        ids.len() == cues.len(),
        forall|i: int| 0 <= i < ids.len() ==> entries::is_identifier(#[trigger] ids[i]),
        forall|i: int| 0 <= i < cues.len() ==> is_plain(#[trigger] cues[i]),
    ensures
        forall|i: int|
            0 <= i < cues.len() ==> transcript::written_subtitle(
                #[trigger] ids[i],
                cues[i],
            ) is Ok,
        ({
            let read = transcript::subtitles(text::text_of(written(ids, cues)));
            let order = places(written(ids, cues), cues.len());
            &&& order.no_duplicates()
            &&& forall|k: int| #[trigger] order.contains(k) <==> 0 <= k < cues.len()
            &&& read.len() == order.len() == cues.len()
            &&& forall|i: int|
                0 <= i < read.len() ==> #[trigger] read[i] == roundtrip::in_thousandths(
                    cues[order[i]],
                )
            &&& forall|i: int, j: int|
                0 <= i < j < read.len() ==> (#[trigger] read[i]).start.rank() < (
                #[trigger] read[j]).start.rank() || (read[i].start.rank() == read[j].start.rank()
                    && order[i] < order[j])
        }),
{
    assert forall|i: int| 0 <= i < cues.len() implies roundtrip::is_readable(
        #[trigger] cues[i],
    ) by {
        lemma_plain_is_readable(cues[i]);
    }
    law_written_subtitles_read_back(ids, cues);
    let read = transcript::subtitles(text::text_of(written(ids, cues)));
    let order = places(written(ids, cues), cues.len());
    assert forall|i: int| 0 <= i < read.len() implies #[trigger] read[i]
        == roundtrip::in_thousandths(cues[order[i]]) by {
        assert(order.contains(order[i]));
        lemma_plain_is_readable(cues[order[i]]);
    }
}

/// An order that lists every number below `n` once has `n` numbers.
proof fn lemma_order_is_whole(order: Seq<int>, n: nat)
    requires
        order.no_duplicates(),
        forall|k: int| #[trigger] order.contains(k) <==> 0 <= k < n,
    ensures
        order.len() == n,
{
    let numbers = vstd::set_lib::set_int_range(0, n as int);
    vstd::set_lib::lemma_int_range(0, n as int);
    order.unique_seq_to_set();
    assert(order.to_set() =~= numbers) by {
        assert forall|k: int| order.to_set().contains(k) <==> numbers.contains(k) by {
            assert(order.contains(k) <==> 0 <= k < n);
        }
    }
}

} // verus!
