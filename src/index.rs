use crate::error::Error;
use crate::keymap::{vec_contains, KeyMap};
use crate::value::{Value, MAX_VER};
use vstd::prelude::*;

verus! {

/// Bucket index header.
pub struct IndexHeader {
    pub format_ver: u32,
    pub min_ver: u32,
    pub max_ver: u32,
    /// Versions referenced by at least one live locator, each once.
    pub vset: Vec<u32>,
    pub active_ver: u32,
    /// Largest key written, `-1` when none is.
    pub max_key: i64,
    pub pps: usize,
}

impl IndexHeader {
    pub fn new(pps: usize) -> (r: IndexHeader)
        ensures
            r.format_ver == 1,
            r.min_ver == 1,
            r.max_ver == 1,
            r.active_ver == 1,
            r.vset@ == seq![1u32],
            r.max_key == -1,
            r.pps == pps,
    {
        let mut vset: Vec<u32> = Vec::new();
        vset.push(1);
        IndexHeader { format_ver: 1, min_ver: 1, max_ver: 1, vset, active_ver: 1, max_key: -1, pps }
    }
}

/// The page index of a bucket: header plus key map.
pub struct MemIndex {
    pub header: IndexHeader,
    pub kmap: KeyMap,
}

impl MemIndex {
    pub open spec fn wf(&self) -> bool {
        &&& self.kmap.wf()
        &&& self.header.pps == self.kmap.pps
        &&& 1 <= self.header.active_ver <= MAX_VER
        &&& self.header.vset@.no_duplicates()
        &&& -1 <= self.header.max_key <= u32::MAX
        &&& forall|k: int| #[trigger] self.kmap.loc(k).ver <= self.header.active_ver
    }

    /// The locator of `k` if it is allocated.
    pub open spec fn locate(&self, k: int) -> Option<Value> {
        if self.kmap.loc(k).ver > 0 {
            Some(self.kmap.loc(k))
        } else {
            None
        }
    }

    pub fn new(pps: usize) -> (r: MemIndex)
        requires
            0 < pps <= u32::MAX,
        ensures
            r.wf(),
            r.header.active_ver == 1,
            r.header.max_key == -1,
            r.header.pps == pps,
            forall|k: int| #[trigger] r.locate(k) is None,
            forall|k: int| #[trigger] r.kmap.lookup(k) is None,
            r.header.format_ver == 1 && r.header.min_ver == 1 && r.header.max_ver == 1,
    {
        let r = MemIndex { header: IndexHeader::new(pps), kmap: KeyMap::new(pps) };
        proof {
            assert(r.header.vset@.no_duplicates());
        }
        r
    }

    pub fn header(&self) -> (r: &IndexHeader)
        ensures
            r == &self.header,
    {
        &self.header
    }

    pub fn key_map(&self) -> (r: &KeyMap)
        ensures
            r == &self.kmap,
    {
        &self.kmap
    }

    /// Tags later writes with version `ver`.
    pub fn set_active_ver(&mut self, ver: u32)
        requires
            old(self).wf(),
            old(self).header.active_ver <= ver <= MAX_VER,
        ensures
            final(self).wf(),
            final(self).header.active_ver == ver,
            final(self).kmap == old(self).kmap,
            final(self).header.max_key == old(self).header.max_key,
            final(self).header.vset == old(self).header.vset,
    {
        self.header.active_ver = ver;
    }

    pub fn active_ver(&self) -> (r: u32)
        ensures
            r == self.header.active_ver,
    {
        self.header.active_ver
    }

    pub fn max_key(&self) -> (r: i64)
        ensures
            r == self.header.max_key,
    {
        self.header.max_key
    }

    /// Points `key` at block `off` of the active version's data file.
    pub fn put(&mut self, key: u32, off: u32) -> (r: Result<(), Error>)
        requires
            old(self).wf(),
        ensures
            r is Ok,
            final(self).wf(),
            final(self).header.active_ver == old(self).header.active_ver,
            final(self).header.pps == old(self).header.pps,
            final(self).header.vset == old(self).header.vset,
            final(self).header.max_key == if old(self).header.max_key < key as i64 {
                key as i64
            } else {
                old(self).header.max_key
            },
            final(self).kmap.lookup(key as int) == Some(
                Value { off, ver: old(self).header.active_ver },
            ),
            forall|k: int| k != key ==> #[trigger] final(self).kmap.loc(k) == old(self).kmap.loc(k),
            forall|k: int|
                #![trigger final(self).kmap.lookup(k)]
                0 <= k ==> (final(self).kmap.lookup(k) is Some <==> (old(self).kmap.lookup(k) is Some
                    || k / (old(self).kmap.pps as int) == key as int / (old(self).kmap.pps as int))),
            final(self).header.format_ver == old(self).header.format_ver,
            final(self).header.min_ver == old(self).header.min_ver,
            final(self).header.max_ver == old(self).header.max_ver,
    {
        let mut val = Value::new();
        val.put_off(off);
        val.put_ver(self.header.active_ver);
        if self.header.max_key < key as i64 {
            self.header.max_key = key as i64;
        }
        self.kmap.put(key, val);
        proof {
            assert forall|k: int| #[trigger] self.kmap.loc(k).ver <= self.header.active_ver by {
                if k != key {
                    assert(self.kmap.loc(k) == old(self).kmap.loc(k));
                }
            }
        }
        Ok(())
    }

    /// The locator stored for `key`, allocated or not; `None` when its slot
    /// does not exist.
    pub fn get(&self, key: u32) -> (r: Result<Option<Value>, Error>)
        requires
            self.wf(),
        ensures
            r == Ok::<Option<Value>, Error>(self.kmap.lookup(key as int)),
    {
        Ok(self.kmap.get(key))
    }

    /// Records that `key` was written: `max_key` becomes at least `key`.
    pub fn raise_max_key(&mut self, key: u32)
        requires
            old(self).wf(),
        ensures
            final(self).wf(),
            final(self).kmap == old(self).kmap,
            final(self).header.max_key == if old(self).header.max_key < key as i64 {
                key as i64
            } else {
                old(self).header.max_key
            },
            final(self).header.active_ver == old(self).header.active_ver,
            final(self).header.vset == old(self).header.vset,
            final(self).header.pps == old(self).header.pps,
            final(self).header.format_ver == old(self).header.format_ver,
            final(self).header.min_ver == old(self).header.min_ver,
            final(self).header.max_ver == old(self).header.max_ver,
    {
        if self.header.max_key < key as i64 {
            self.header.max_key = key as i64;
        }
    }

    /// Drops every key from `key` on.
    pub fn truncate(&mut self, key: u32) -> (r: Result<(), Error>)
        requires
            old(self).wf(),
        ensures
            r is Ok,
            final(self).wf(),
            final(self).header.active_ver == old(self).header.active_ver,
            final(self).header.pps == old(self).header.pps,
            final(self).header.vset == old(self).header.vset,
            final(self).header.max_key == key as i64 - 1,
            forall|k: int|
                #[trigger] final(self).kmap.loc(k) == if k >= key {
                    Value::zero()
                } else {
                    old(self).kmap.loc(k)
                },
            forall|k: int| k < key ==> #[trigger] final(self).kmap.lookup(k) == old(self).kmap.lookup(k),
            final(self).header.format_ver == old(self).header.format_ver,
            final(self).header.min_ver == old(self).header.min_ver,
            final(self).header.max_ver == old(self).header.max_ver,
    {
        self.kmap.truncate(key);
        self.header.max_key = key as i64 - 1;
        proof {
            assert forall|k: int|
                #[trigger] self.kmap.loc(k) == if k >= key {
                    Value::zero()
                } else {
                    old(self).kmap.loc(k)
                } by {
                if k < key {
                    vstd::arithmetic::div_mod::lemma_div_is_ordered(
                        k,
                        key as int,
                        self.kmap.pps as int,
                    );
                }
            }
            assert forall|k: int| #[trigger] self.kmap.loc(k).ver <= self.header.active_ver by {
                assert(old(self).kmap.loc(k).ver <= self.header.active_ver);
            }
            assert forall|k: int| k < key implies #[trigger] self.kmap.lookup(k) == old(
                self,
            ).kmap.lookup(k) by {
                vstd::arithmetic::div_mod::lemma_div_is_ordered(k, key as int, self.kmap.pps as int);
            }
        }
        Ok(())
    }

    /// The allocated keys in `[from_key, to_key)` with their locators, in key
    /// order; a `to_key` of 0 means up to the end of the map.
    pub fn iter(&self, from_key: u32, to_key: u32) -> (r: Vec<(u32, Value)>)
        requires
            self.wf(),
        ensures
            forall|i: int|
                0 <= i < r@.len() ==> {
                    &&& from_key <= (#[trigger] r@[i]).0
                    &&& (to_key == 0 || r@[i].0 < to_key)
                    &&& self.locate(r@[i].0 as int) == Some(r@[i].1)
                },
            forall|i: int, j: int| 0 <= i < j < r@.len() ==> r@[i].0 < r@[j].0,
            forall|k: u32|
                from_key <= k && (to_key == 0 || k < to_key) && (#[trigger] self.locate(
                    k as int,
                )) is Some ==> exists|i: int| 0 <= i < r@.len() && r@[i].0 == k,
    {
        let mut out: Vec<(u32, Value)> = Vec::new();
        let end: u64 = if to_key == 0 {
            u32::MAX as u64 + 1
        } else {
            to_key as u64
        };
        if from_key as u64 >= end {
            return out;
        }
        let mut key: u64 = from_key as u64;
        while key < end
            invariant
                self.wf(),
                from_key <= key <= end,
                end <= u32::MAX as u64 + 1,
                end == if to_key == 0 {
                    u32::MAX as int + 1
                } else {
                    to_key as int
                },
                forall|i: int|
                    0 <= i < out@.len() ==> {
                        &&& from_key <= (#[trigger] out@[i]).0 < key
                        &&& self.locate(out@[i].0 as int) == Some(out@[i].1)
                    },
                forall|i: int, j: int| 0 <= i < j < out@.len() ==> out@[i].0 < out@[j].0,
                forall|k: u32|
                    from_key <= k < key && (#[trigger] self.locate(k as int)) is Some ==> exists|
                        i: int,
                    |
                        0 <= i < out@.len() && out@[i].0 == k,
            decreases end - key,
        {
            let k = key as u32;
            match self.kmap.get(k) {
                Some(v) => {
                    if v.is_allocated() {
                        let ghost before = out@;
                        out.push((k, v));
                        proof {
                            assert forall|k2: u32|
                                from_key <= k2 < key + 1 && (#[trigger] self.locate(
                                    k2 as int,
                                )) is Some implies exists|i: int|
                                0 <= i < out@.len() && out@[i].0 == k2 by {
                                if k2 < key {
                                    let i = choose|i: int|
                                        0 <= i < before.len() && before[i].0 == k2;
                                    assert(out@[i].0 == k2);
                                } else {
                                    assert(out@[before.len() as int].0 == k2);
                                }
                            }
                        }
                    }
                    key = key + 1;
                },
                None => {
                    // The whole slot is absent: skip to the next one.
                    let pps = self.kmap.pps as u64;
                    proof {
                        vstd::arithmetic::div_mod::lemma_fundamental_div_mod(key as int, pps as int);
                        vstd::arithmetic::div_mod::lemma_mod_pos_bound(key as int, pps as int);
                    }
                    let next = key - key % pps + pps;
                    proof {
                        assert forall|k2: u32| key <= k2 < next implies #[trigger] self.locate(
                            k2 as int,
                        ) is None by {
                            vstd::arithmetic::div_mod::lemma_fundamental_div_mod_converse(
                                k2 as int,
                                pps as int,
                                (key / pps) as int,
                                k2 - (key / pps) * pps,
                            );
                        }
                    }
                    key = if next < end {
                        next
                    } else {
                        end
                    };
                },
            }
        }
        out
    }

    /// Recomputes `vset`, `min_ver` and `max_ver` from the live locators and
    /// returns the versions that left `vset`. An index with no live locator
    /// gets `min_ver == max_ver == active_ver`.
    pub fn update_min_max_ver(&mut self) -> (r: Vec<u32>)
        requires
            old(self).wf(),
        ensures
            final(self).wf(),
            final(self).kmap == old(self).kmap,
            final(self).header.active_ver == old(self).header.active_ver,
            final(self).header.max_key == old(self).header.max_key,
            final(self).header.vset@.to_set() == old(self).kmap.live_versions(),
            final(self).header.vset@.len() == 0 ==> final(self).header.min_ver
                == final(self).header.active_ver && final(self).header.max_ver
                == final(self).header.active_ver,
            forall|v: u32|
                #[trigger] final(self).header.vset@.contains(v) ==> final(self).header.min_ver <= v
                    <= final(self).header.max_ver,
            final(self).header.vset@.len() > 0 ==> final(self).header.vset@.contains(
                final(self).header.min_ver,
            ) && final(self).header.vset@.contains(final(self).header.max_ver),
            final(self).header.format_ver == old(self).header.format_ver,
            forall|v: u32|
                #[trigger] r@.contains(v) <==> (old(self).header.vset@.contains(v)
                    && !old(self).kmap.live_versions().contains(v)),
    {
        let (min_ver, max_ver, set) = self.kmap.get_min_max_ver();
        let mut removed: Vec<u32> = Vec::new();
        let mut i: usize = 0;
        while i < self.header.vset.len()
            invariant
                i <= self.header.vset@.len(),
                set@.to_set() == self.kmap.live_versions(),
                forall|v: u32|
                    #[trigger] removed@.contains(v) <==> exists|j: int|
                        0 <= j < i && self.header.vset@[j] == v && !set@.contains(v),
            decreases self.header.vset@.len() - i,
        {
            let v = self.header.vset[i];
            let ghost before = removed@;
            if !vec_contains(&set, v) {
                removed.push(v);
                proof {
                    assert forall|x: u32| #[trigger]
                        removed@.contains(x) <==> exists|j: int|
                            0 <= j < i + 1 && self.header.vset@[j] == x && !set@.contains(x) by {
                        if before.contains(x) {
                            let idx = choose|idx: int| 0 <= idx < before.len() && before[idx] == x;
                            assert(removed@[idx] == x);
                        }
                        if x == v {
                            assert(removed@[before.len() as int] == x);
                        }
                        if removed@.contains(x) && x != v {
                            let idx = choose|idx: int| 0 <= idx < removed@.len() && removed@[idx] == x;
                            assert(before[idx] == x);
                        }
                    }
                }
            }
            i = i + 1;
        }
        proof {
            assert forall|v: u32| #[trigger]
                removed@.contains(v) <==> (old(self).header.vset@.contains(v)
                    && !old(self).kmap.live_versions().contains(v)) by {
                if old(self).header.vset@.contains(v) && !set@.contains(v) {
                    let j = choose|j: int| 0 <= j < self.header.vset@.len() && self.header.vset@[j] == v;
                }
                assert(set@.to_set().contains(v) == set@.contains(v));
            }
        }
        if set.len() == 0 {
            self.header.min_ver = self.header.active_ver;
            self.header.max_ver = self.header.active_ver;
        } else {
            self.header.min_ver = min_ver;
            self.header.max_ver = max_ver;
        }
        self.header.vset = set;
        removed
    }
}

} // verus!
