//! The aggregate table: a running count for each (name, year, quarter) key.

use vstd::prelude::*;
use crate::assoc::{
    assoc_map, keys_unique, lemma_assoc_contains, lemma_assoc_dom_len, lemma_assoc_index,
    lemma_assoc_push, lemma_assoc_update,
};
use crate::text::str_eq;

verus! {

/// The key of one aggregate entry: a canonical name together with a year and
/// a quarter. Equality is by all three fields.
#[derive(Debug, PartialEq, Eq)]
pub struct AggregateKey {
    pub name: String,
    pub year: i32,
    pub quarter: i32,
}

impl View for AggregateKey {
    type V = (Seq<char>, int, int);

    open spec fn view(&self) -> (Seq<char>, int, int) {
        (self.name@, self.year as int, self.quarter as int)
    }
}

/// A count after one more observation; counts saturate at `u64::MAX`.
pub open spec fn bumped(c: int) -> int {
    if c < u64::MAX {
        c + 1
    } else {
        c
    }
}

/// `m` with the count of `k` one higher (absent keys count as zero).
pub open spec fn bump_map(m: Map<(Seq<char>, int, int), int>, k: (Seq<char>, int, int)) -> Map<
    (Seq<char>, int, int),
    int,
> {
    m.insert(
        k,
        bumped(
            if m.contains_key(k) {
                m[k]
            } else {
                0
            },
        ),
    )
}

/// A table of per-(name, year, quarter) counts; it grows monotonically as
/// lines are processed and is never evicted from.
pub struct AggregateTable {
    entries: Vec<(AggregateKey, u64)>,
}

impl View for AggregateTable {
    type V = Map<(Seq<char>, int, int), int>;

    closed spec fn view(&self) -> Map<(Seq<char>, int, int), int> {
        assoc_map(self.entries_view())
    }
}

impl AggregateTable {
    pub closed spec fn entries_view(&self) -> Seq<((Seq<char>, int, int), int)> {
        self.entries@.map_values(|p: (AggregateKey, u64)| (p.0@, p.1 as int))
    }

    /// Each key occurs at most once.
    pub closed spec fn wf(&self) -> bool {
        keys_unique(self.entries_view())
    }

    pub fn new() -> (r: AggregateTable)
        ensures
            r.wf(),
            r@ == Map::<(Seq<char>, int, int), int>::empty(),
    {
        let r = AggregateTable { entries: Vec::new() };
        proof {
            assert(r.entries_view() =~= Seq::<((Seq<char>, int, int), int)>::empty());
        }
        r
    }

    /// Counts one more observation of `key`.
    pub fn bump(&mut self, key: AggregateKey)
        requires
            old(self).wf(),
        ensures
            final(self).wf(),
            final(self)@ == bump_map(old(self)@, key@),
    {
        let n: usize = self.entries.len();
        let mut i: usize = 0;
        while i < n
            invariant
                i <= n,
                n == self.entries@.len(),
                self == old(self),
                self.wf(),
                forall|k: int| 0 <= k < i ==> self.entries_view()[k].0 != key@,
            decreases n - i,
        {
            let hit = str_eq(self.entries[i].0.name.as_str(), key.name.as_str())
                && self.entries[i].0.year == key.year && self.entries[i].0.quarter == key.quarter;
            if hit {
                let c: u64 = self.entries[i].1;
                let c2: u64 = if c < u64::MAX {
                    c + 1
                } else {
                    c
                };
                proof {
                    assert(self.entries_view()[i as int] == (key@, c as int));
                    lemma_assoc_index(self.entries_view(), i as int);
                    lemma_assoc_update(self.entries_view(), i as int, c2 as int);
                }
                self.entries[i] = (key, c2);
                proof {
                    assert(self.entries_view() =~= old(self).entries_view().update(
                        i as int,
                        (old(self).entries_view()[i as int].0, c2 as int),
                    ));
                }
                return ;
            }
            i = i + 1;
        }
        proof {
            lemma_assoc_contains(self.entries_view(), key@);
            lemma_assoc_push(self.entries_view(), key@, 1int);
        }
        self.entries.push((key, 1));
        proof {
            assert(self.entries_view() =~= old(self).entries_view().push((key@, 1int)));
        }
    }

    /// The count recorded for (name, year, quarter), where one is.
    pub fn get(&self, name: &str, year: i32, quarter: i32) -> (r: Option<u64>)
        requires
            self.wf(),
        ensures
            match r {
                Some(c) => self@.contains_key((name@, year as int, quarter as int)) && c as int
                    == self@[(name@, year as int, quarter as int)],
                None => !self@.contains_key((name@, year as int, quarter as int)),
            },
    {
        let ghost kv = (name@, year as int, quarter as int);
        let n: usize = self.entries.len();
        let mut i: usize = 0;
        while i < n
            invariant
                i <= n,
                n == self.entries@.len(),
                self.wf(),
                kv == (name@, year as int, quarter as int),
                forall|k: int| 0 <= k < i ==> self.entries_view()[k].0 != kv,
            decreases n - i,
        {
            let hit = str_eq(self.entries[i].0.name.as_str(), name) && self.entries[i].0.year
                == year && self.entries[i].0.quarter == quarter;
            if hit {
                proof {
                    assert(self.entries_view()[i as int].0 == kv);
                    lemma_assoc_index(self.entries_view(), i as int);
                }
                return Some(self.entries[i].1);
            }
            i = i + 1;
        }
        proof {
            lemma_assoc_contains(self.entries_view(), kv);
        }
        None
    }

    /// The entries in insertion order, one per distinct key.
    pub fn entries(&self) -> (r: &Vec<(AggregateKey, u64)>)
        ensures
            r@.map_values(|p: (AggregateKey, u64)| (p.0@, p.1 as int)) == self.entries_view(),
    {
        &self.entries
    }

    /// How many distinct keys the table holds.
    pub fn len(&self) -> (r: usize)
        requires
            self.wf(),
        ensures
            r == self@.dom().len(),
    {
        proof {
            lemma_assoc_dom_len(self.entries_view());
        }
        self.entries.len()
    }
}

} // verus!
