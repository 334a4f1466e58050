use crate::value::{Slot, Value};
use vstd::arithmetic::div_mod::*;
use vstd::prelude::*;

verus! {

/// Whether `x` occurs in `v`.
pub fn vec_contains(v: &Vec<u32>, x: u32) -> (r: bool)
    ensures
        r == v@.contains(x),
{
    let mut i: usize = 0;
    while i < v.len()
        invariant
            i <= v@.len(),
            forall|j: int| 0 <= j < i ==> v@[j] != x,
        decreases v@.len() - i,
    {
        if v[i] == x {
            return true;
        }
        i = i + 1;
    }
    false
}

/// Two-level sparse array from page keys to locators: slot `k / pps` holds
/// position `k % pps`.
pub struct KeyMap {
    pub slot_map: Vec<Slot>,
    pub pps: usize,
}

pub open spec fn slot_wf(s: Seq<Value>, pps: usize) -> bool {
    &&& s.len() == pps
    &&& forall|j: int| 0 <= j < s.len() ==> (#[trigger] s[j]).wf()
}

impl KeyMap {
    pub open spec fn wf(&self) -> bool {
        &&& 0 < self.pps <= u32::MAX
        &&& forall|i: int|
            0 <= i < self.slot_map@.len() && (#[trigger] self.slot_map@[i]) is Some ==> slot_wf(
                self.slot_map@[i].unwrap()@,
                self.pps,
            )
    }

    /// The locator stored for key `k`, if its slot exists.
    pub open spec fn lookup(&self, k: int) -> Option<Value> {
        let s = k / (self.pps as int);
        if 0 <= k && s < self.slot_map@.len() && self.slot_map@[s] is Some {
            Some(self.slot_map@[s].unwrap()@[k % (self.pps as int)])
        } else {
            None
        }
    }

    /// The locator for key `k`, reading an absent slot as unallocated.
    pub open spec fn loc(&self, k: int) -> Value {
        match self.lookup(k) {
            Some(v) => v,
            None => Value::zero(),
        }
    }

    /// The versions referenced by allocated locators.
    pub open spec fn live_versions(&self) -> Set<u32> {
        Set::new(|v: u32| v > 0 && exists|k: int| #[trigger] self.loc(k).ver == v)
    }

    /// The versions referenced by allocated locators of keys below `n`.
    pub open spec fn versions_below(&self, n: int) -> Set<u32> {
        Set::new(|v: u32| v > 0 && exists|k: int| 0 <= k < n && #[trigger] self.loc(k).ver == v)
    }

    proof fn lemma_below_step(&self, n: int)
        requires
            0 <= n,
        ensures
            self.versions_below(n + 1) == if self.loc(n).ver > 0 {
                self.versions_below(n).insert(self.loc(n).ver)
            } else {
                self.versions_below(n)
            },
    {
        let a = self.versions_below(n + 1);
        let b = if self.loc(n).ver > 0 {
            self.versions_below(n).insert(self.loc(n).ver)
        } else {
            self.versions_below(n)
        };
        assert forall|v: u32| a.contains(v) implies b.contains(v) by {
            let k = choose|k: int| 0 <= k < n + 1 && #[trigger] self.loc(k).ver == v;
            if k < n {
                assert(self.versions_below(n).contains(v));
            }
        }
        assert forall|v: u32| b.contains(v) implies a.contains(v) by {
            if v != self.loc(n).ver {
                let k = choose|k: int| 0 <= k < n && #[trigger] self.loc(k).ver == v;
                assert(0 <= k < n + 1 && self.loc(k).ver == v);
            } else {
                assert(0 <= n < n + 1 && self.loc(n).ver == v);
            }
        }
        assert(a =~= b);
    }

    proof fn lemma_below_absent_slot(&self, i: int)
        requires
            self.wf(),
            0 <= i,
            i >= self.slot_map@.len() || self.slot_map@[i] is None,
        ensures
            self.versions_below((i + 1) * self.pps) == self.versions_below(i * self.pps),
    {
        let p = self.pps as int;
        let a = self.versions_below((i + 1) * p);
        let b = self.versions_below(i * p);
        assert((i + 1) * p == i * p + p) by (nonlinear_arith);
        assert forall|v: u32| a.contains(v) implies b.contains(v) by {
            let k = choose|k: int| 0 <= k < (i + 1) * p && #[trigger] self.loc(k).ver == v;
            if k >= i * p {
                lemma_fundamental_div_mod_converse(k, p, i, k - i * p);
                assert(self.lookup(k) is None);
            }
        }
        assert forall|v: u32| b.contains(v) implies a.contains(v) by {
            let k = choose|k: int| 0 <= k < i * p && #[trigger] self.loc(k).ver == v;
            assert(0 <= k < (i + 1) * p);
        }
        assert(a =~= b);
    }

    proof fn lemma_below_all(&self)
        requires
            self.wf(),
        ensures
            self.versions_below(self.slot_map@.len() * self.pps) == self.live_versions(),
    {
        let p = self.pps as int;
        let n = self.slot_map@.len() * p;
        let a = self.versions_below(n);
        let b = self.live_versions();
        assert forall|v: u32| b.contains(v) implies a.contains(v) by {
            let k = choose|k: int| #[trigger] self.loc(k).ver == v;
            if k >= n {
                lemma_div_is_ordered(n, k, p);
                vstd::arithmetic::div_mod::lemma_div_by_multiple(self.slot_map@.len() as int, p);
                assert(self.lookup(k) is None);
            }
        }
        assert(a =~= b);
    }

    /// Scans every allocated locator: the smallest and largest version seen,
    /// and the versions seen, each once (`(u32::MAX, 0, [])` when none is).
    pub fn get_min_max_ver(&self) -> (r: (u32, u32, Vec<u32>))
        requires
            self.wf(),
        ensures
            r.2@.to_set() == self.live_versions(),
            r.2@.no_duplicates(),
            r.2@.len() == 0 ==> r.0 == u32::MAX && r.1 == 0,
            r.2@.len() > 0 ==> r.2@.contains(r.0) && r.2@.contains(r.1),
            forall|v: u32| #[trigger] r.2@.contains(v) ==> r.0 <= v <= r.1,
    {
        let mut set: Vec<u32> = Vec::new();
        let mut min_ver: u32 = u32::MAX;
        let mut max_ver: u32 = 0;
        let pps = self.pps;
        let mut i: usize = 0;
        proof {
            assert(set@.to_set() =~= self.versions_below(0));
        }
        while i < self.slot_map.len()
            invariant
                self.wf(),
                pps == self.pps,
                i <= self.slot_map@.len(),
                set@.to_set() == self.versions_below(i * pps),
                set@.no_duplicates(),
                set@.len() == 0 ==> min_ver == u32::MAX && max_ver == 0,
                set@.len() > 0 ==> set@.contains(min_ver) && set@.contains(max_ver),
                forall|v: u32| #[trigger] set@.contains(v) ==> min_ver <= v <= max_ver,
            decreases self.slot_map@.len() - i,
        {
            match &self.slot_map[i] {
                Some(arr) => {
                    let mut j: usize = 0;
                    while j < arr.len()
                        invariant
                            self.wf(),
                            pps == self.pps,
                            i < self.slot_map@.len(),
                            self.slot_map@[i as int] == Some(*arr),
                            j <= arr@.len(),
                            arr@.len() == pps,
                            set@.to_set() == self.versions_below(i * pps + j),
                            set@.no_duplicates(),
                            set@.len() == 0 ==> min_ver == u32::MAX && max_ver == 0,
                            set@.len() > 0 ==> set@.contains(min_ver) && set@.contains(max_ver),
                            forall|v: u32| #[trigger] set@.contains(v) ==> min_ver <= v <= max_ver,
                        decreases arr@.len() - j,
                    {
                        let v = arr[j].ver;
                        proof {
                            let k = i * pps + j;
                            assert(0 <= i * pps) by (nonlinear_arith)
                                requires
                                    i >= 0,
                                    pps >= 0,
                            ;
                            lemma_fundamental_div_mod_converse(k as int, pps as int, i as int, j as int);
                            assert(self.loc(k).ver == v);
                            self.lemma_below_step(k);
                        }
                        if v > 0 {
                            if !vec_contains(&set, v) {
                                let ghost s0 = set@;
                                set.push(v);
                                proof {
                                    assert forall|x: u32| #[trigger]
                                        set@.contains(x) <==> (s0.contains(x) || x == v) by {
                                        if s0.contains(x) {
                                            let idx = choose|idx: int|
                                                0 <= idx < s0.len() && s0[idx] == x;
                                            assert(set@[idx] == x);
                                        }
                                        if x == v {
                                            assert(set@[s0.len() as int] == v);
                                        }
                                    }
                                    assert(set@.to_set() =~= s0.to_set().insert(v));
                                    assert forall|a: int, b: int|
                                        0 <= a < set@.len() && 0 <= b < set@.len() && a != b
                                            implies set@[a] != set@[b] by {
                                        if a < s0.len() && b < s0.len() {
                                        } else if a < s0.len() {
                                            assert(s0.contains(set@[a]));
                                        } else if b < s0.len() {
                                            assert(s0.contains(set@[b]));
                                        }
                                    }
                                }
                                if v < min_ver {
                                    min_ver = v;
                                }
                                if v > max_ver {
                                    max_ver = v;
                                }
                            }
                        }
                        proof {
                            assert(set@.to_set() =~= self.versions_below(i * pps + j + 1));
                        }
                        j = j + 1;
                    }
                    proof {
                        assert((i + 1) * pps == i * pps + pps) by (nonlinear_arith);
                    }
                },
                None => {
                    proof {
                        self.lemma_below_absent_slot(i as int);
                        assert((i + 1) * pps == i * pps + pps) by (nonlinear_arith);
                    }
                },
            }
            i = i + 1;
        }
        proof {
            self.lemma_below_all();
        }
        (min_ver, max_ver, set)
    }

    pub fn new(pps: usize) -> (r: KeyMap)
        requires
            0 < pps <= u32::MAX,
        ensures
            r.wf(),
            r.pps == pps,
            r.slot_map@.len() == 0,
            forall|k: int| r.lookup(k) is None,
    {
        KeyMap { slot_map: Vec::new(), pps }
    }

    fn alloc_value_arr(pps: usize) -> (r: Vec<Value>)
        ensures
            r@.len() == pps,
            forall|j: int| 0 <= j < pps ==> r@[j] == Value::zero(),
    {
        let mut v: Vec<Value> = Vec::with_capacity(pps);
        let mut i: usize = 0;
        while i < pps
            invariant
                i <= pps,
                v@.len() == i,
                forall|j: int| 0 <= j < i ==> v@[j] == Value::zero(),
            decreases pps - i,
        {
            v.push(Value::new());
            i = i + 1;
        }
        v
    }

    pub fn put(&mut self, key: u32, val: Value)
        requires
            old(self).wf(),
            val.wf(),
        ensures
            final(self).wf(),
            final(self).pps == old(self).pps,
            final(self).slot_map@.len() == if (key as usize / old(self).pps)
                < old(self).slot_map@.len() {
                old(self).slot_map@.len() as int
            } else {
                key as usize / old(self).pps + 1
            },
            final(self).lookup(key as int) == Some(val),
            forall|k: int|
                k != key ==> #[trigger] final(self).loc(k) == old(self).loc(k),
            forall|k: int|
                #![trigger final(self).lookup(k)]
                0 <= k ==> (final(self).lookup(k) is Some <==> (old(self).lookup(k) is Some || k
                    / (old(self).pps as int) == key as int / (old(self).pps as int))),
    {
        let pps = self.pps;
        let slot = key as usize / pps;
        while self.slot_map.len() <= slot
            invariant
                self.wf(),
                self.pps == pps,
                old(self).slot_map@.len() <= self.slot_map@.len() <= if slot < old(
                    self,
                ).slot_map@.len() {
                    old(self).slot_map@.len() as int
                } else {
                    slot as int + 1
                },
                forall|i: int|
                    0 <= i < self.slot_map@.len() ==> #[trigger] self.slot_map@[i] == if i < old(
                        self,
                    ).slot_map@.len() {
                        old(self).slot_map@[i]
                    } else {
                        None
                    },
            decreases slot + 1 - self.slot_map@.len(),
        {
            self.slot_map.push(None);
        }
        let ghost mid = self.slot_map@;
        let mut taken: Slot = None;
        std::mem::swap(&mut taken, &mut self.slot_map[slot]);
        let mut arr = match taken {
            Some(a) => a,
            None => KeyMap::alloc_value_arr(pps),
        };
        let pos = (key % (pps as u32)) as usize;
        proof {
            lemma_fundamental_div_mod(key as int, pps as int);
            lemma_mod_bound(key as int, pps as int);
        }
        arr.set(pos, val);
        self.slot_map.set(slot, Some(arr));
        proof {
            assert forall|k: int| k != key implies #[trigger] self.loc(k) == old(self).loc(k) by {
                if 0 <= k && k / (pps as int) == slot as int {
                    lemma_fundamental_div_mod(k, pps as int);
                    lemma_mod_bound(k, pps as int);
                    assert(k % (pps as int) != key as int % (pps as int));
                }
            }
        }
    }

    pub fn get(&self, key: u32) -> (r: Option<Value>)
        requires
            self.wf(),
        ensures
            r == self.lookup(key as int),
    {
        let slot = key as usize / self.pps;
        if slot >= self.slot_map.len() {
            return None;
        }
        match &self.slot_map[slot] {
            Some(arr) => {
                proof {
                    lemma_mod_bound(key as int, self.pps as int);
                }
                let pos = (key % (self.pps as u32)) as usize;
                Some(arr[pos])
            },
            None => None,
        }
    }

    /// Drops every slot after the one holding `key` (adding empty slots up to
    /// it if needed) and deallocates the positions from `key` on.
    pub fn truncate(&mut self, key: u32)
        requires
            old(self).wf(),
        ensures
            final(self).wf(),
            final(self).pps == old(self).pps,
            final(self).slot_map@.len() == key as usize / old(self).pps + 1,
            forall|k: int|
                #[trigger] final(self).lookup(k) == if k / (old(self).pps as int) > key as int / (
                old(self).pps as int) {
                    None
                } else if k >= key {
                    match old(self).lookup(k) {
                        Some(_) => Some(Value::zero()),
                        None => None,
                    }
                } else {
                    old(self).lookup(k)
                },
    {
        let pps = self.pps;
        let slot = key as usize / pps;
        if slot < self.slot_map.len() {
            self.slot_map.truncate(slot + 1);
        }
        while self.slot_map.len() <= slot
            invariant
                self.wf(),
                self.pps == pps,
                self.slot_map@.len() <= slot + 1,
                old(self).slot_map@.len() <= slot + 1 ==> old(self).slot_map@.len()
                    <= self.slot_map@.len(),
                old(self).slot_map@.len() > slot + 1 ==> self.slot_map@.len() == slot + 1,
                forall|i: int|
                    0 <= i < self.slot_map@.len() ==> #[trigger] self.slot_map@[i] == if i < old(
                        self,
                    ).slot_map@.len() {
                        old(self).slot_map@[i]
                    } else {
                        None
                    },
            decreases slot + 1 - self.slot_map@.len(),
        {
            self.slot_map.push(None);
        }
        proof {
            lemma_mod_bound(key as int, pps as int);
            lemma_fundamental_div_mod(key as int, pps as int);
        }
        let start = (key % (pps as u32)) as usize;
        let mut taken: Slot = None;
        let ghost pre = self.slot_map@;
        std::mem::swap(&mut taken, &mut self.slot_map[slot]);
        let ghost post = self.slot_map@;
        match taken {
            Some(mut arr) => {
                let ghost orig = arr@;
                let mut i: usize = start;
                while i < arr.len()
                    invariant
                        self.slot_map@ == post,
                        self.pps == pps,
                        start <= i <= arr@.len(),
                        arr@.len() == orig.len(),
                        forall|j: int|
                            0 <= j < arr@.len() ==> #[trigger] arr@[j] == if start <= j < i {
                                Value::zero()
                            } else {
                                orig[j]
                            },
                    decreases arr@.len() - i,
                {
                    arr.set(i, Value::new());
                    i = i + 1;
                }
                self.slot_map.set(slot, Some(arr));
            },
            None => {},
        }
        assert(forall|i: int| 0 <= i < pre.len() && i != slot ==> self.slot_map@[i] == pre[i]);
        assert(self.slot_map@.len() == pre.len());
        proof {
            assert forall|k: int|
                #[trigger] self.lookup(k) == if k / (pps as int) > key as int / (pps as int) {
                    None
                } else if k >= key {
                    match old(self).lookup(k) {
                        Some(_) => Some(Value::zero()),
                        None => None,
                    }
                } else {
                    old(self).lookup(k)
                } by {
                if 0 <= k {
                    lemma_fundamental_div_mod(k, pps as int);
                    lemma_mod_bound(k, pps as int);
                    if k >= key {
                        lemma_div_is_ordered(key as int, k, pps as int);
                    }
                    let s = k / (pps as int);
                    if s < slot {
                        assert(self.slot_map@[s] == pre[s]);
                    } else if s == slot {
                        assert(k >= key <==> k % (pps as int) >= start);
                    }
                }
                if k < key {
                    lemma_div_is_ordered(k, key as int, pps as int);
                }
            }
        }
    }
}

proof fn lemma_mod_bound(k: int, d: int)
    requires
        k >= 0,
        d > 0,
    ensures
        0 <= k % d < d,
{
    lemma_mod_pos_bound(k, d);
}

} // verus!
