use crate::error::Error;
use crate::index::MemIndex;
use crate::value::Value;
use vstd::prelude::*;

verus! {

/// A difference between two versions of a bucket's index.
#[derive(Clone, Copy, Debug, PartialEq, Eq, Structural)]
pub enum SlotChange {
    /// Key `key` points at a page of another version.
    Modified { key: u64, from: Value, to: Value },
    /// The slot starting at key `first_key` is gone.
    Deleted { first_key: u64 },
    /// The slot starting at key `first_key` is new.
    Added { first_key: u64 },
}

/// The changed positions among the first `j` of two slots whose first key is
/// `base`: those whose versions differ.
pub open spec fn changes_in(fs: Seq<Value>, ts: Seq<Value>, base: int, j: int) -> Seq<SlotChange>
    decreases j,
{
    if j <= 0 {
        Seq::empty()
    } else {
        let prev = changes_in(fs, ts, base, j - 1);
        if fs[j - 1].ver != ts[j - 1].ver {
            prev.push(SlotChange::Modified { key: (base + j - 1) as u64, from: fs[j - 1], to: ts[j - 1] })
        } else {
            prev
        }
    }
}

/// The changes in slot `s`: `from` has no such slot when it is shorter.
pub open spec fn slot_changes(from: MemIndex, to: MemIndex, s: int) -> Seq<SlotChange> {
    let pps = to.kmap.pps as int;
    let f = if s < from.kmap.slot_map@.len() {
        from.kmap.slot_map@[s]
    } else {
        None
    };
    match (f, to.kmap.slot_map@[s]) {
        (Some(fs), Some(ts)) => changes_in(fs@, ts@, s * pps, pps),
        (Some(_), None) => seq![SlotChange::Deleted { first_key: (s * pps) as u64 }],
        (None, Some(_)) => seq![SlotChange::Added { first_key: (s * pps) as u64 }],
        (None, None) => Seq::empty(),
    }
}

/// The changes in the first `s` slots of `to`, slot by slot.
pub open spec fn changes_upto(from: MemIndex, to: MemIndex, s: int) -> Seq<SlotChange>
    decreases s,
{
    if s <= 0 {
        Seq::empty()
    } else {
        changes_upto(from, to, s - 1) + slot_changes(from, to, s - 1)
    }
}

/// Compares two versions of an index slot by slot, over the slots of `to`.
/// Indexes with different slot widths cannot be compared: that is corruption.
pub fn diff_indexes(from: &MemIndex, to: &MemIndex) -> (r: Result<Vec<SlotChange>, Error>)
    requires
        from.wf(),
        to.wf(),
        to.kmap.slot_map@.len() * to.kmap.pps <= u64::MAX,
    ensures
        from.kmap.pps != to.kmap.pps ==> r == Err::<Vec<SlotChange>, Error>(Error::DecodeErr),
        from.kmap.pps == to.kmap.pps ==> (r matches Ok(v) && v@ == changes_upto(
            *from,
            *to,
            to.kmap.slot_map@.len() as int,
        )),
{
    if from.kmap.pps != to.kmap.pps {
        return Err(Error::DecodeErr);
    }
    let pps = to.kmap.pps;
    let n = to.kmap.slot_map.len();
    let mut out: Vec<SlotChange> = Vec::new();
    let mut s: usize = 0;
    while s < n
        invariant
            from.wf(),
            to.wf(),
            from.kmap.pps == pps,
            to.kmap.pps == pps,
            n == to.kmap.slot_map@.len(),
            n * pps <= u64::MAX,
            s <= n,
            out@ == changes_upto(*from, *to, s as int),
        decreases n - s,
    {
        proof {
            assert(s * pps + pps <= n * pps) by (nonlinear_arith)
                requires
                    s < n,
            ;
        }
        let base: u64 = s as u64 * pps as u64;
        let ghost before = out@;
        let f: Option<&Vec<Value>> = if s < from.kmap.slot_map.len() {
            from.kmap.slot_map[s].as_ref()
        } else {
            None
        };
        match (f, to.kmap.slot_map[s].as_ref()) {
            (Some(fs), Some(ts)) => {
                proof {
                    assert(from.kmap.slot_map@[s as int] is Some);
                    assert(to.kmap.slot_map@[s as int] is Some);
                }
                let mut j: usize = 0;
                while j < pps
                    invariant
                        fs@.len() == pps,
                        ts@.len() == pps,
                        j <= pps,
                        base + pps <= u64::MAX,
                        out@ == before + changes_in(fs@, ts@, base as int, j as int),
                    decreases pps - j,
                {
                    if fs[j].ver != ts[j].ver {
                        out.push(SlotChange::Modified { key: base + j as u64, from: fs[j], to: ts[j] });
                    }
                    j = j + 1;
                }
            },
            (Some(_), None) => {
                out.push(SlotChange::Deleted { first_key: base });
            },
            (None, Some(_)) => {
                out.push(SlotChange::Added { first_key: base });
            },
            (None, None) => {},
        }
        proof {
            assert(out@ =~= changes_upto(*from, *to, s + 1));
        }
        s = s + 1;
    }
    Ok(out)
}

} // verus!
