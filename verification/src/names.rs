//! Names in alphabetical order.

use vstd::prelude::*;

use crate::text;

verus! {

/// Whether one text stands before another: by the first character in which
/// they differ, else the shorter one.
pub open spec fn precedes(a: Seq<char>, b: Seq<char>) -> bool
    decreases a.len(),
{
    if b.len() == 0 {
        false
    } else if a.len() == 0 {
        true
    } else if a[0] != b[0] {
        a[0] < b[0]
    } else {
        precedes(a.skip(1), b.skip(1))
    }
}

/// The place of a name among sorted ones: behind those that do not stand after
/// it.
pub open spec fn name_slot(names: Seq<Seq<char>>, name: Seq<char>, n: nat) -> nat
    decreases n,
{
    if n > 0 && precedes(name, names[n - 1]) {
        name_slot(names, name, (n - 1) as nat)
    } else {
        n
    }
}

/// The first `n` names in alphabetical order.
pub open spec fn alphabetical(names: Seq<Seq<char>>, n: nat) -> Seq<Seq<char>>
    decreases n,
{
    if n == 0 {
        Seq::empty()
    } else {
        let before = alphabetical(names, (n - 1) as nat);
        before.insert(name_slot(before, names[n - 1], before.len()) as int, names[n - 1])
    }
}

/// Names in alphabetical order.
pub open spec fn sorted(names: Seq<Seq<char>>) -> Seq<Seq<char>> {
    alphabetical(names, names.len())
}

/// Whether one text stands before another.
pub fn stands_before(a: &str, b: &str) -> (r: bool)
    ensures
        r == precedes(a@, b@),
{
    let left = text::chars_of(a);
    let right = text::chars_of(b);
    let mut i: usize = 0;
    assert(left@.skip(0) == left@);
    assert(right@.skip(0) == right@);
    while i < left.len() && i < right.len()
        invariant
            left@ == a@,
            right@ == b@,
            i <= left@.len(),
            i <= right@.len(),
            precedes(left@.skip(i as int), right@.skip(i as int)) == precedes(left@, right@),
        decreases left@.len() - i,
    {
        let x: char = left[i];
        let y: char = right[i];
        if x != y {
            return x < y;
        }
        assert(left@.skip(i as int).skip(1) == left@.skip(i + 1));
        assert(right@.skip(i as int).skip(1) == right@.skip(i + 1));
        i += 1;
    }
    i < right.len()
}

/// Puts names into alphabetical order.
pub fn sort_names(names: &Vec<String>) -> (r: Vec<String>)
    ensures
        text::views(r@) == sorted(text::views(names@)),
{
    let ghost all = text::views(names@);
    let mut out: Vec<String> = Vec::new();
    let mut i: usize = 0;
    assert(text::views(out@) =~= alphabetical(all, 0));
    while i < names.len()
        invariant
            i <= names@.len(),
            all == text::views(names@),
            text::views(out@) == alphabetical(all, i as nat),
        decreases names@.len() - i,
    {
        assert(all[i as int] == names@[i as int]@);
        let ghost before = text::views(out@);
        let mut at: usize = out.len();
        while at > 0 && stands_before(names[i].as_str(), out[at - 1].as_str())
            invariant
                i < names@.len(),
                all == text::views(names@),
                all[i as int] == names@[i as int]@,
                at <= out@.len(),
                before == text::views(out@),
                name_slot(before, all[i as int], at as nat) == name_slot(
                    before,
                    all[i as int],
                    before.len(),
                ),
            decreases at,
        {
            assert(before[at - 1] == out@[at - 1]@);
            at -= 1;
        }
        if at > 0 {
            assert(before[at - 1] == out@[at - 1]@);
        }
        out.insert(at, names[i].clone());
        assert(text::views(out@) =~= before.insert(at as int, all[i as int]));
        i += 1;
    }
    out
}

/// No text stands before itself, and of two texts at most one stands before
/// the other.
pub proof fn lemma_precedes_asymmetric(a: Seq<char>, b: Seq<char>)
    ensures
        !(precedes(a, b) && precedes(b, a)),
    decreases a.len(),
{
    if a.len() > 0 && b.len() > 0 && a[0] == b[0] {
        lemma_precedes_asymmetric(a.skip(1), b.skip(1));
    }
}

/// What stands before a text stands before all that do not stand before it.
pub proof fn lemma_precedes_transitive(a: Seq<char>, b: Seq<char>, c: Seq<char>)
    requires
        !precedes(b, a),
        !precedes(c, b),
    ensures
        !precedes(c, a),
    decreases a.len(),
{
    if a.len() > 0 && b.len() > 0 && c.len() > 0 && a[0] == b[0] && b[0] == c[0] {
        lemma_precedes_transitive(a.skip(1), b.skip(1), c.skip(1));
    }
}

proof fn lemma_name_slot(names: Seq<Seq<char>>, name: Seq<char>, n: nat)
    ensures
        name_slot(names, name, n) <= n,
        forall|i: int| name_slot(names, name, n) <= i < n ==> precedes(name, #[trigger] names[i]),
        name_slot(names, name, n) > 0 ==> !precedes(
            name,
            names[name_slot(names, name, n) - 1],
        ),
    decreases n,
{
    if n > 0 && precedes(name, names[n - 1]) {
        lemma_name_slot(names, name, (n - 1) as nat);
    }
}

proof fn lemma_alphabetical(names: Seq<Seq<char>>, n: nat)
    requires
        n <= names.len(),
    ensures
        alphabetical(names, n).len() == n,
        forall|i: int, j: int|
            0 <= i <= j < n ==> !precedes(
                #[trigger] alphabetical(names, n)[j],
                #[trigger] alphabetical(names, n)[i],
            ),
        alphabetical(names, n).to_multiset() == names.take(n as int).to_multiset(),
    decreases n,
{
    broadcast use vstd::seq_lib::group_to_multiset_ensures;

    if n > 0 {
        lemma_alphabetical(names, (n - 1) as nat);
        let before = alphabetical(names, (n - 1) as nat);
        let name = names[n - 1];
        lemma_name_slot(before, name, before.len());
        let k = name_slot(before, name, before.len()) as int;
        let after = before.insert(k, name);
        assert forall|i: int, j: int| 0 <= i <= j < n implies !precedes(
            #[trigger] after[j],
            #[trigger] after[i],
        ) by {
            lemma_precedes_asymmetric(after[j], after[i]);
            if i == j {
                lemma_precedes_asymmetric(name, name);
                if i < k {
                    assert(after[i] == before[i]);
                } else if i > k {
                    assert(after[i] == before[i - 1]);
                }
            } else if j < k {
                assert(after[i] == before[i] && after[j] == before[j]);
            } else if i > k {
                assert(after[i] == before[i - 1] && after[j] == before[j - 1]);
            } else if j == k {
                assert(after[i] == before[i]);
                assert(!precedes(before[k - 1], before[i]));
                lemma_precedes_transitive(before[i], before[k - 1], name);
            } else if i == k {
                assert(after[j] == before[j - 1]);
                assert(precedes(name, before[j - 1]));
            } else {
                assert(after[i] == before[i] && after[j] == before[j - 1]);
            }
        }
        assert(names.take(n as int) =~= names.take(n - 1).push(name));
        vstd::seq_lib::to_multiset_insert(before, k, name);
    } else {
        assert(names.take(0) =~= Seq::<Seq<char>>::empty());
    }
}

/// Sorted names are the same names, none before one that stands earlier.
pub proof fn lemma_sorted(names: Seq<Seq<char>>)
    ensures
        sorted(names).len() == names.len(),
        sorted(names).to_multiset() == names.to_multiset(),
        forall|i: int, j: int|
            0 <= i <= j < names.len() ==> !precedes(
                #[trigger] sorted(names)[j],
                #[trigger] sorted(names)[i],
            ),
{
    lemma_alphabetical(names, names.len());
    assert(names.take(names.len() as int) =~= names);
}

} // verus!
