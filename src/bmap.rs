use crate::error::Error;
use vstd::prelude::*;

verus! {

/// No name occurs twice among `s`.
pub open spec fn names_distinct(s: Seq<(String, u32)>) -> bool {
    forall|i: int, j: int|
        0 <= i < s.len() && 0 <= j < s.len() && i != j ==> (#[trigger] s[i]).0@ != (
        #[trigger] s[j]).0@
}

/// Bucket names with the version at which each bucket's index is stored.
/// Each name occurs once.
pub struct BucketMap {
    pub entries: Vec<(String, u32)>,
}

impl BucketMap {
    pub open spec fn wf(&self) -> bool {
        forall|i: int, j: int|
            0 <= i < self.entries@.len() && 0 <= j < self.entries@.len() && i != j ==> (
            #[trigger] self.entries@[i]).0@ != (#[trigger] self.entries@[j]).0@
    }

    pub open spec fn has(&self, n: Seq<char>) -> bool {
        exists|i: int| 0 <= i < self.entries@.len() && (#[trigger] self.entries@[i]).0@ == n
    }

    pub open spec fn pos(&self, n: Seq<char>) -> int {
        choose|i: int| 0 <= i < self.entries@.len() && (#[trigger] self.entries@[i]).0@ == n
    }

    /// The mapping from names to versions.
    pub open spec fn view(&self) -> Map<Seq<char>, u32> {
        Map::new(|n: Seq<char>| self.has(n), |n: Seq<char>| self.entries@[self.pos(n)].1)
    }

    pub fn new() -> (r: BucketMap)
        ensures
            r.wf(),
            r.entries@.len() == 0,
            r.view() == Map::<Seq<char>, u32>::empty(),
    {
        let r = BucketMap { entries: Vec::new() };
        assert(r.view() =~= Map::<Seq<char>, u32>::empty());
        r
    }

    /// The position of `name`, if present.
    fn find(&self, name: &str) -> (r: Option<usize>)
        requires
            self.wf(),
        ensures
            match r {
                Some(i) => i < self.entries@.len() && self.entries@[i as int].0@ == name@ && i
                    == self.pos(name@),
                None => !self.has(name@),
            },
    {
        let key = name.to_owned();
        let mut i: usize = 0;
        while i < self.entries.len()
            invariant
                self.wf(),
                i <= self.entries@.len(),
                key@ == name@,
                forall|j: int| 0 <= j < i ==> (#[trigger] self.entries@[j]).0@ != name@,
            decreases self.entries@.len() - i,
        {
            if self.entries[i].0 == key {
                proof {
                    let p = self.pos(name@);
                    assert(self.entries@[i as int].0@ == name@);
                    assert(self.entries@[p].0@ == name@);
                    assert(p == i);
                }
                return Some(i);
            }
            i = i + 1;
        }
        None
    }

    /// Records that bucket `name` is stored at version `ver`.
    pub fn add(&mut self, name: &str, ver: u32)
        requires
            old(self).wf(),
        ensures
            final(self).wf(),
            final(self).view() == old(self).view().insert(name@, ver),
    {
        match self.find(name) {
            Some(i) => {
                let ghost before = self.entries@;
                self.entries.set(i, (name.to_owned(), ver));
                proof {
                    assert forall|n: Seq<char>| self.has(n) == old(self).has(n) by {
                        if old(self).has(n) {
                            let j = choose|j: int|
                                0 <= j < before.len() && (#[trigger] before[j]).0@ == n;
                            assert(self.entries@[j].0@ == n);
                        }
                        if self.has(n) {
                            let j = choose|j: int|
                                0 <= j < self.entries@.len() && (#[trigger] self.entries@[j]).0@
                                    == n;
                            assert(before[j].0@ == n);
                        }
                    }
                    assert forall|n: Seq<char>| self.has(n) implies self.pos(n) == if n == name@ {
                        i as int
                    } else {
                        old(self).pos(n)
                    } by {
                        let p = self.pos(n);
                        if n != name@ {
                            let q = old(self).pos(n);
                            assert(before[q].0@ == n);
                            assert(self.entries@[q].0@ == n);
                            assert(p == q);
                        } else {
                            assert(self.entries@[i as int].0@ == n);
                        }
                    }
                    assert(self.view() =~= old(self).view().insert(name@, ver));
                }
            },
            None => {
                let ghost before = self.entries@;
                self.entries.push((name.to_owned(), ver));
                proof {
                    let last = before.len() as int;
                    assert forall|n: Seq<char>| self.has(n) == (old(self).has(n) || n == name@) by {
                        if old(self).has(n) {
                            let j = choose|j: int|
                                0 <= j < before.len() && (#[trigger] before[j]).0@ == n;
                            assert(self.entries@[j].0@ == n);
                        }
                        if n == name@ {
                            assert(self.entries@[last].0@ == n);
                        }
                        if self.has(n) && n != name@ {
                            let j = choose|j: int|
                                0 <= j < self.entries@.len() && (#[trigger] self.entries@[j]).0@
                                    == n;
                            assert(before[j].0@ == n);
                        }
                    }
                    assert forall|n: Seq<char>| self.has(n) implies self.pos(n) == if n == name@ {
                        last
                    } else {
                        old(self).pos(n)
                    } by {
                        let p = self.pos(n);
                        if n != name@ {
                            let q = old(self).pos(n);
                            assert(self.entries@[q].0@ == n);
                            assert(p == q);
                        } else {
                            assert(self.entries@[last].0@ == n);
                        }
                    }
                    assert(self.view() =~= old(self).view().insert(name@, ver));
                }
            },
        }
    }

    pub fn contains(&self, name: &str) -> (r: bool)
        requires
            self.wf(),
        ensures
            r == self.view().contains_key(name@),
    {
        self.find(name).is_some()
    }

    pub fn get(&self, name: &str) -> (r: Option<u32>)
        requires
            self.wf(),
        ensures
            r == if self.view().contains_key(name@) {
                Some(self.view()[name@])
            } else {
                None::<u32>
            },
    {
        match self.find(name) {
            Some(i) => Some(self.entries[i].1),
            None => None,
        }
    }

    /// Forgets bucket `name`; returns whether it was present. Its files are
    /// removed by the caller.
    pub fn delete(&mut self, name: &str) -> (r: bool)
        requires
            old(self).wf(),
        ensures
            final(self).wf(),
            r == old(self).view().contains_key(name@),
            final(self).view() == old(self).view().remove(name@),
    {
        match self.find(name) {
            Some(i) => {
                let ghost before = self.entries@;
                let _ = self.entries.remove(i);
                proof {
                    let ii = i as int;
                    assert(forall|j: int|
                        0 <= j < self.entries@.len() ==> #[trigger] self.entries@[j] == if j < ii {
                            before[j]
                        } else {
                            before[j + 1]
                        });
                    assert forall|n: Seq<char>| self.has(n) == (old(self).has(n) && n != name@) by {
                        if old(self).has(n) && n != name@ {
                            let j = choose|j: int|
                                0 <= j < before.len() && (#[trigger] before[j]).0@ == n;
                            if j < ii {
                                assert(self.entries@[j].0@ == n);
                            } else {
                                assert(j != ii);
                                assert(self.entries@[j - 1].0@ == n);
                            }
                        }
                        if self.has(n) {
                            let j = choose|j: int|
                                0 <= j < self.entries@.len() && (#[trigger] self.entries@[j]).0@
                                    == n;
                            if j < ii {
                                assert(before[j].0@ == n);
                                assert(j != ii);
                            } else {
                                assert(before[j + 1].0@ == n);
                                assert(j + 1 != ii);
                            }
                        }
                    }
                    assert forall|n: Seq<char>| self.has(n) implies self.pos(n) == if old(
                        self,
                    ).pos(n) < ii {
                        old(self).pos(n)
                    } else {
                        old(self).pos(n) - 1
                    } by {
                        let p = self.pos(n);
                        let q = old(self).pos(n);
                        assert(before[q].0@ == n);
                        assert(q != ii);
                        if q < ii {
                            assert(self.entries@[q].0@ == n);
                        } else {
                            assert(self.entries@[q - 1].0@ == n);
                        }
                        if p < ii {
                            assert(before[p].0@ == n);
                        } else {
                            assert(before[p + 1].0@ == n);
                        }
                    }
                    assert(self.view() =~= old(self).view().remove(name@));
                }
                true
            },
            None => {
                assert(self.view() =~= old(self).view().remove(name@));
                false
            },
        }
    }

    /// The entries, in insertion order.
    pub fn map(&self) -> (r: Result<Vec<(String, u32)>, Error>)
        ensures
            r matches Ok(v) && v@ == self.entries@,
    {
        let mut out: Vec<(String, u32)> = Vec::new();
        let mut i: usize = 0;
        while i < self.entries.len()
            invariant
                i <= self.entries@.len(),
                out@ == self.entries@.subrange(0, i as int),
            decreases self.entries@.len() - i,
        {
            let name = self.entries[i].0.clone();
            out.push((name, self.entries[i].1));
            proof {
                assert(out@ =~= self.entries@.subrange(0, i + 1));
            }
            i = i + 1;
        }
        Ok(out)
    }

    /// Builds a map from persisted entries, refusing a repeated name.
    pub fn from_entries(entries: Vec<(String, u32)>) -> (r: Result<BucketMap, Error>)
        ensures
            r is Ok <==> names_distinct(entries@),
            match r {
                Ok(m) => m.wf() && m.entries@ == entries@,
                Err(e) => e == Error::DecodeErr,
            },
    {
        let mut m = BucketMap::new();
        let mut i: usize = 0;
        assert(m.entries@ =~= entries@.subrange(0, 0));
        while i < entries.len()
            invariant
                m.wf(),
                i <= entries@.len(),
                m.entries@ == entries@.subrange(0, i as int),
            decreases entries@.len() - i,
        {
            if m.contains(entries[i].0.as_str()) {
                proof {
                    let n = entries@[i as int].0@;
                    let j = choose|j: int|
                        0 <= j < m.entries@.len() && (#[trigger] m.entries@[j]).0@ == n;
                    assert(entries@[j] == m.entries@[j]);
                    assert(!names_distinct(entries@));
                }
                return Err(Error::DecodeErr);
            }
            let ghost before = m.entries@;
            m.entries.push((entries[i].0.clone(), entries[i].1));
            proof {
                assert forall|a: int, b: int|
                    0 <= a < m.entries@.len() && 0 <= b < m.entries@.len() && a != b implies (
                    #[trigger] m.entries@[a]).0@ != (#[trigger] m.entries@[b]).0@ by {
                    let last = before.len() as int;
                    if a == last {
                        if m.entries@[b].0@ == entries@[i as int].0@ {
                            assert(before[b].0@ == entries@[i as int].0@);
                        }
                    } else if b == last {
                        if m.entries@[a].0@ == entries@[i as int].0@ {
                            assert(before[a].0@ == entries@[i as int].0@);
                        }
                    }
                }
                assert(m.entries@ =~= entries@.subrange(0, i + 1));
            }
            i = i + 1;
        }
        proof {
            assert(m.entries@ =~= entries@);
        }
        Ok(m)
    }
}

} // verus!
