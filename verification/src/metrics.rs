//! The metrics model: an ordered mapping from byte-string names to values,
//! where a value is a string, an exact decimal number, or an array of nested
//! metric maps (used for per-iteration records). Insertion overwrites an
//! existing name in place and otherwise appends, so iteration order is the
//! order of first insertion.

use vstd::prelude::*;

use crate::bytes::bytes_eq;
use crate::num::Decimal;

verus! {

/// A metric value: text, an exact decimal, or nested per-iteration records.
pub enum MetricValue {
    Text(Vec<u8>),
    Num(Decimal),
    Arr(Vec<Metrics>),
}

/// Name-to-value mapping with insertion order kept.
pub struct Metrics {
    pub entries: Vec<(Vec<u8>, MetricValue)>,
}

impl Metrics {
    /// The names, in insertion order.
    pub open spec fn keys(self) -> Seq<Seq<u8>> {
        self.entries@.map(|i: int, e: (Vec<u8>, MetricValue)| e.0@)
    }

    /// Well-formed: no name occurs twice.
    pub open spec fn wf(self) -> bool {
        forall|i: int, j: int|
            0 <= i < j < self.entries@.len() ==> self.entries@[i].0@ != self.entries@[j].0@
    }

    pub open spec fn contains_name(self, k: Seq<u8>) -> bool {
        exists|i: int| 0 <= i < self.entries@.len() && #[trigger] self.entries@[i].0@ == k
    }

    pub open spec fn name_index(self, k: Seq<u8>) -> int {
        choose|i: int| 0 <= i < self.entries@.len() && #[trigger] self.entries@[i].0@ == k
    }

    pub open spec fn value_of(self, k: Seq<u8>) -> MetricValue {
        self.entries@[self.name_index(k)].1
    }

    /// The mapping the entries stand for.
    pub open spec fn as_map(self) -> Map<Seq<u8>, MetricValue> {
        Map::new(|k: Seq<u8>| self.contains_name(k), |k: Seq<u8>| self.value_of(k))
    }

    pub fn new() -> (m: Metrics)
        ensures
            m.wf(),
            m.as_map() == Map::<Seq<u8>, MetricValue>::empty(),
            m.keys() == Seq::<Seq<u8>>::empty(),
            m.entries@.len() == 0,
    {
        let m = Metrics { entries: Vec::new() };
        proof {
            assert(m.keys() =~= Seq::<Seq<u8>>::empty());
            assert(m.as_map() =~= Map::<Seq<u8>, MetricValue>::empty());
        }
        m
    }

    pub fn len(&self) -> (n: usize)
        ensures
            n == self.entries@.len(),
    {
        self.entries.len()
    }

    /// The position of a name among the entries, if it is there.
    fn find_name(&self, name: &[u8]) -> (r: Option<usize>)
        ensures
            match r {
                Some(i) => i < self.entries@.len() && self.entries@[i as int].0@ == name@,
                None => !self.contains_name(name@),
            },
    {
        let mut i: usize = 0;
        let n = self.entries.len();
        while i < n
            invariant
                n == self.entries@.len(),
                i <= n,
                forall|j: int| 0 <= j < i ==> self.entries@[j].0@ != name@,
            decreases n - i,
        {
            if bytes_eq(self.entries[i].0.as_slice(), name) {
                return Some(i);
            }
            i += 1;
        }
        None
    }

    /// Insert `value` under `name`: overwrite in place when the name is
    /// present, append otherwise.
    pub fn insert(&mut self, name: Vec<u8>, value: MetricValue)
        requires
            old(self).wf(),
        ensures
            final(self).wf(),
            final(self).as_map() == old(self).as_map().insert(name@, value),
            final(self).keys() == if old(self).contains_name(name@) {
                old(self).keys()
            } else {
                old(self).keys().push(name@)
            },
    {
        let ghost pre = *self;
        let ghost gname = name@;
        let found = self.find_name(name.as_slice());
        let entry = (name, value);
        let ghost gentry = entry;
        match found {
            Some(i) => {
                proof {
                    assert(pre.entries@[i as int].0@ == gname);
                    assert(pre.contains_name(gname));
                }
                self.entries.set(i, entry);
                proof {
                    assert(self.entries@[i as int] == gentry);
                    assert(self.wf()) by {
                        assert forall|p: int, q: int|
                            0 <= p < q < self.entries@.len() implies self.entries@[p].0@
                            != self.entries@[q].0@ by {
                            assert(pre.entries@[p].0@ != pre.entries@[q].0@);
                        }
                    }
                    assert(self.keys() =~= pre.keys());
                    assert(self.as_map() =~= pre.as_map().insert(gname, gentry.1)) by {
                        assert forall|k: Seq<u8>| #[trigger]
                            self.as_map().dom().contains(k) == pre.as_map().insert(
                                gname,
                                gentry.1,
                            ).dom().contains(k) && (self.as_map().dom().contains(k)
                            ==> self.as_map()[k] == pre.as_map().insert(gname, gentry.1)[k]) by {
                            if k == gname {
                                assert(self.entries@[i as int].0@ == k);
                                assert(self.contains_name(k));
                                let w = self.name_index(k);
                                assert(w == i) by {
                                    if w != i {
                                        assert(pre.entries@[w].0@ == pre.entries@[i as int].0@);
                                    }
                                }
                            } else {
                                if pre.contains_name(k) {
                                    let w = pre.name_index(k);
                                    assert(pre.entries@[w].0@ == k);
                                    assert(w != i);
                                    assert(self.entries@[w].0@ == k);
                                    assert(self.contains_name(k));
                                    let w2 = self.name_index(k);
                                    assert(w2 != i);
                                    assert(pre.entries@[w2].0@ == k);
                                    assert(w2 == w || pre.entries@[w].0@ == pre.entries@[w2].0@);
                                } else if self.contains_name(k) {
                                    let w = self.name_index(k);
                                    assert(w != i);
                                    assert(pre.entries@[w].0@ == k);
                                    assert(false);
                                }
                            }
                        }
                    }
                }
            },
            None => {
                self.entries.push(entry);
                proof {
                    let last = pre.entries@.len() as int;
                    assert(self.entries@.drop_last() =~= pre.entries@);
                    assert(self.entries@[last] == gentry);
                    assert(self.wf()) by {
                        assert forall|p: int, q: int|
                            0 <= p < q < self.entries@.len() implies self.entries@[p].0@
                            != self.entries@[q].0@ by {
                            if q < last {
                                assert(pre.entries@[p].0@ != pre.entries@[q].0@);
                            } else {
                                assert(self.entries@[p].0@ == pre.entries@[p].0@);
                                assert(pre.contains_name(pre.entries@[p].0@));
                            }
                        }
                    }
                    assert(self.keys() =~= pre.keys().push(gname));
                    assert(self.as_map() =~= pre.as_map().insert(gname, gentry.1)) by {
                        assert forall|k: Seq<u8>| #[trigger]
                            self.as_map().dom().contains(k) == pre.as_map().insert(
                                gname,
                                gentry.1,
                            ).dom().contains(k) && (self.as_map().dom().contains(k)
                            ==> self.as_map()[k] == pre.as_map().insert(gname, gentry.1)[k]) by {
                            if k == gname {
                                assert(self.entries@[last].0@ == k);
                                assert(self.contains_name(k));
                                let w = self.name_index(k);
                                assert(w == last) by {
                                    if w != last {
                                        assert(pre.entries@[w].0@ == k);
                                        assert(pre.contains_name(k));
                                    }
                                }
                            } else {
                                if pre.contains_name(k) {
                                    let w = pre.name_index(k);
                                    assert(pre.entries@[w].0@ == k);
                                    assert(self.entries@[w].0@ == k);
                                    assert(self.contains_name(k));
                                    let w2 = self.name_index(k);
                                    assert(w2 != last);
                                    assert(pre.entries@[w2].0@ == k);
                                    assert(w2 == w || pre.entries@[w].0@ == pre.entries@[w2].0@);
                                } else if self.contains_name(k) {
                                    let w = self.name_index(k);
                                    assert(w != last);
                                    assert(pre.entries@[w].0@ == k);
                                    assert(false);
                                }
                            }
                        }
                    }
                }
            },
        }
    }

    /// Look a name up.
    pub fn get(&self, name: &[u8]) -> (r: Option<&MetricValue>)
        requires
            self.wf(),
        ensures
            match r {
                Some(v) => self.contains_name(name@) && *v == self.value_of(name@),
                None => !self.contains_name(name@),
            },
    {
        match self.find_name(name) {
            Some(i) => {
                proof {
                    assert(self.entries@[i as int].0@ == name@);
                    assert(self.contains_name(name@));
                    let w = self.name_index(name@);
                    assert(w == i) by {
                        if w != i {
                            assert(self.entries@[w].0@ == self.entries@[i as int].0@);
                        }
                    }
                }
                Some(&self.entries[i].1)
            },
            None => None,
        }
    }
}

} // verus!
