//! Values under text keys.

use vstd::prelude::*;

use crate::text;

verus! {

/// Values under text keys, each key once.
pub struct Table<V> {
    entries: Vec<(String, V)>,
}

impl<V> Table<V> {
    /// The place of a key among the first `n` entries.
    spec fn place(entries: Seq<(String, V)>, key: Seq<char>, n: nat) -> Option<int>
        decreases n,
    {
        if n == 0 {
            None
        } else if entries[n - 1].0@ == key {
            Some(n - 1)
        } else {
            Table::<V>::place(entries, key, (n - 1) as nat)
        }
    }

    /// The content of the table.
    pub closed spec fn content(&self) -> Map<Seq<char>, V> {
        Map::new(
            |key: Seq<char>| Table::place(self.entries@, key, self.entries@.len()) is Some,
            |key: Seq<char>|
                self.entries@[Table::place(self.entries@, key, self.entries@.len())->0].1,
        )
    }

    /// The keys of the table, in the order of its entries.
    pub closed spec fn keys(&self) -> Seq<Seq<char>> {
        Seq::new(self.entries@.len(), |i: int| self.entries@[i].0@)
    }

    /// No key stands twice.
    pub closed spec fn wf(&self) -> bool {
        forall|i: int, j: int|
            0 <= i < j < self.entries@.len() ==> (#[trigger] self.entries@[i]).0@ != (
            #[trigger] self.entries@[j]).0@
    }

    proof fn lemma_place(entries: Seq<(String, V)>, key: Seq<char>, n: nat)
        requires
            n <= entries.len(),
        ensures
            match Table::place(entries, key, n) {
                Some(i) => 0 <= i < n && entries[i].0@ == key,
                None => forall|i: int| 0 <= i < n ==> (#[trigger] entries[i]).0@ != key,
            },
        decreases n,
    {
        if n > 0 {
            Table::<V>::lemma_place(entries, key, (n - 1) as nat);
        }
    }

    /// In a table without doubles the entry at a place is that of its key.
    proof fn lemma_entry(&self, i: int)
        requires
            self.wf(),
            0 <= i < self.entries@.len(),
        ensures
            Table::place(self.entries@, self.entries@[i].0@, self.entries@.len()) == Some(i),
            self.content().dom().contains(self.entries@[i].0@),
            self.content()[self.entries@[i].0@] == self.entries@[i].1,
    {
        Table::<V>::lemma_place(self.entries@, self.entries@[i].0@, self.entries@.len());
    }

    /// The keys are those of the content, each once.
    pub proof fn lemma_keys(&self)
        requires
            self.wf(),
        ensures
            self.keys().no_duplicates(),
            forall|key: Seq<char>|
                self.content().dom().contains(key) <==> #[trigger] self.keys().contains(key),
            self.content().dom().finite(),
            self.content().dom().len() == self.keys().len(),
    {
        assert forall|key: Seq<char>|
            self.content().dom().contains(key) <==> #[trigger] self.keys().contains(key) by {
            Table::<V>::lemma_place(self.entries@, key, self.entries@.len());
            if self.content().dom().contains(key) {
                let i = Table::place(self.entries@, key, self.entries@.len())->0;
                assert(self.keys()[i] == key);
            }
            if self.keys().contains(key) {
                let i = choose|i: int| 0 <= i < self.keys().len() && self.keys()[i] == key;
                assert(self.entries@[i].0@ == key);
            }
        }
        self.keys().unique_seq_to_set();
        assert(self.keys().to_set() =~= self.content().dom());
    }

    /// An empty table.
    pub fn new() -> (r: Table<V>)
        ensures
            r.wf(),
            r.content() == Map::<Seq<char>, V>::empty(),
            r.keys().len() == 0,
    {
        let r = Table { entries: Vec::new() };
        assert(r.content() =~= Map::<Seq<char>, V>::empty());
        r
    }

    /// The number of keys.
    pub fn len(&self) -> (r: usize)
        ensures
            r == self.keys().len(),
    {
        self.entries.len()
    }

    /// The key at a place.
    pub fn key(&self, i: usize) -> (r: &str)
        requires
            i < self.keys().len(),
        ensures
            r@ == self.keys()[i as int],
    {
        self.entries[i].0.as_str()
    }

    fn locate(&self, key: &str) -> (r: Option<usize>)
        requires
            self.wf(),
        ensures
            match r {
                Some(i) => i < self.entries@.len() && self.entries@[i as int].0@ == key@,
                None => !self.content().dom().contains(key@),
            },
    {
        let mut i: usize = 0;
        while i < self.entries.len()
            invariant
                i <= self.entries@.len(),
                forall|j: int| 0 <= j < i ==> (#[trigger] self.entries@[j]).0@ != key@,
            decreases self.entries@.len() - i,
        {
            if text::same(self.entries[i].0.as_str(), key) {
                return Some(i);
            }
            i += 1;
        }
        proof {
            Table::<V>::lemma_place(self.entries@, key@, self.entries@.len());
        }
        None
    }

    /// The value of a key.
    pub fn get(&self, key: &str) -> (r: Option<&V>)
        requires
            self.wf(),
        ensures
            match r {
                Some(value) => self.content().dom().contains(key@) && self.content()[key@]
                    == *value,
                None => !self.content().dom().contains(key@),
            },
    {
        match self.locate(key) {
            Some(i) => {
                proof {
                    self.lemma_entry(i as int);
                }
                Some(&self.entries[i].1)
            },
            None => None,
        }
    }

    /// Removes a key.
    pub fn remove(&mut self, key: &str)
        requires
            old(self).wf(),
        ensures
            final(self).wf(),
            final(self).content() == old(self).content().remove(key@),
    {
        let ghost before = *self;
        match self.locate(key) {
            Some(i) => {
                self.entries.remove(i);
                proof {
                    let after = self.entries@;
                    assert forall|a: int, b: int| 0 <= a < b < after.len() implies (
                    #[trigger] after[a]).0@ != (#[trigger] after[b]).0@ by {
                        let x = if a < i { a } else { a + 1 };
                        let y = if b < i { b } else { b + 1 };
                        assert(after[a] == before.entries@[x]);
                        assert(after[b] == before.entries@[y]);
                    }
                    assert forall|k: Seq<char>|
                        #![trigger self.content().dom().contains(k)]
                        self.content().dom().contains(k) <==> before.content().remove(
                            key@,
                        ).dom().contains(k) by {
                        Table::<V>::lemma_place(after, k, after.len());
                        Table::<V>::lemma_place(before.entries@, k, before.entries@.len());
                        if self.content().dom().contains(k) {
                            let j = Table::place(after, k, after.len())->0;
                            let y = if j < i { j } else { j + 1 };
                            assert(after[j] == before.entries@[y]);
                            before.lemma_entry(y);
                            if k == key@ {
                                assert(before.entries@[i as int].0@ == k);
                            }
                        }
                        if before.content().dom().contains(k) && k != key@ {
                            let y = Table::place(
                                before.entries@,
                                k,
                                before.entries@.len(),
                            )->0;
                            let j = if y < i { y } else { y - 1 };
                            assert(after[j] == before.entries@[y]);
                        }
                    }
                    assert forall|k: Seq<char>| #[trigger]
                        self.content().dom().contains(k) implies self.content()[k]
                        == before.content()[k] by {
                        Table::<V>::lemma_place(after, k, after.len());
                        let j = Table::place(after, k, after.len())->0;
                        let y = if j < i { j } else { j + 1 };
                        assert(after[j] == before.entries@[y]);
                        before.lemma_entry(y);
                    }
                    assert(self.content() =~= before.content().remove(key@));
                }
            },
            None => {
                assert(self.content() =~= before.content().remove(key@));
            },
        }
    }

    /// Puts a value under a key.
    pub fn insert(&mut self, key: &str, value: V)
        requires
            old(self).wf(),
        ensures
            final(self).wf(),
            final(self).content() == old(self).content().insert(key@, value),
    {
        self.remove(key);
        let ghost before = *self;
        proof {
            Table::<V>::lemma_place(before.entries@, key@, before.entries@.len());
        }
        self.entries.push((key.to_owned(), value));
        proof {
            let n = before.entries@.len();
            let after = self.entries@;
            assert(!before.content().dom().contains(key@));
            assert forall|a: int, b: int| 0 <= a < b < after.len() implies (
            #[trigger] after[a]).0@ != (#[trigger] after[b]).0@ by {
                assert(after[a] == before.entries@[a]);
                if b < n {
                    assert(after[b] == before.entries@[b]);
                }
            }
            assert forall|k: Seq<char>| #[trigger]
                self.content().dom().contains(k) <==> (k == key@
                    || before.content().dom().contains(k)) by {
                assert(Table::place(after, k, n) == Table::place(before.entries@, k, n)) by {
                    Table::<V>::lemma_place_prefix(before.entries@, after, k, n);
                }
            }
            assert forall|k: Seq<char>| #[trigger]
                self.content().dom().contains(k) implies self.content()[k]
                == before.content().insert(key@, value)[k] by {
                Table::<V>::lemma_place_prefix(before.entries@, after, k, n);
                Table::<V>::lemma_place(before.entries@, k, n);
            }
            assert(self.content() =~= before.content().insert(key@, value));
            assert(self.content() =~= old(self).content().insert(key@, value));
        }
    }

    proof fn lemma_place_prefix(
        a: Seq<(String, V)>,
        b: Seq<(String, V)>,
        key: Seq<char>,
        n: nat,
    )
        requires
            n <= a.len(),
            n <= b.len(),
            forall|i: int| 0 <= i < n ==> a[i] == b[i],
        ensures
            Table::place(a, key, n) == Table::place(b, key, n),
        decreases n,
    {
        if n > 0 {
            Table::<V>::lemma_place_prefix(a, b, key, (n - 1) as nat);
        }
    }
}

} // verus!
