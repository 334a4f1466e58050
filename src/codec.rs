use crate::error::Error;
use crate::index::{IndexHeader, MemIndex};
use crate::keymap::{slot_wf, KeyMap};
use crate::page::{push_u32_le, u32_le};
use crate::value::{lemma_value_bytes_injective, value_bytes, Value, MAX_VER, VALUE_LEN};
use vstd::prelude::*;

verus! {

/// Bytes of the fixed part of an encoded index.
pub const HEADER_BYTES: usize = 40;

/// Little-endian bytes of a 64-bit number.
pub open spec fn u64_le(x: u64) -> Seq<u8> {
    u32_le((x & 0xffff_ffff) as u32) + u32_le((x >> 32) as u32)
}

pub open spec fn enc_u32s(s: Seq<u32>) -> Seq<u8>
    decreases s.len(),
{
    if s.len() == 0 {
        Seq::empty()
    } else {
        enc_u32s(s.drop_last()) + u32_le(s.last())
    }
}

pub open spec fn enc_values(s: Seq<Value>) -> Seq<u8>
    decreases s.len(),
{
    if s.len() == 0 {
        Seq::empty()
    } else {
        enc_values(s.drop_last()) + value_bytes(s.last())
    }
}

/// An absent slot is one 0 byte; a present one is a 1 byte and its locators.
pub open spec fn enc_slot(o: Option<Seq<Value>>) -> Seq<u8> {
    match o {
        Some(vs) => seq![1u8] + enc_values(vs),
        None => seq![0u8],
    }
}

pub open spec fn enc_slots(s: Seq<Option<Seq<Value>>>) -> Seq<u8>
    decreases s.len(),
{
    if s.len() == 0 {
        Seq::empty()
    } else {
        enc_slots(s.drop_last()) + enc_slot(s.last())
    }
}

/// The slots of a key map, as sequences.
pub open spec fn slot_views(s: Seq<Option<Vec<Value>>>) -> Seq<Option<Seq<Value>>> {
    Seq::new(
        s.len(),
        |i: int|
            match s[i] {
                Some(v) => Some(v@),
                None => None,
            },
    )
}

/// The fixed part: versions, largest key plus one, slot width, and the number of
/// versions in `vset`.
pub open spec fn enc_header(h: IndexHeader) -> Seq<u8> {
    u32_le(h.format_ver) + u32_le(h.min_ver) + u32_le(h.max_ver) + u32_le(h.active_ver) + u64_le(
        (h.max_key + 1) as u64,
    ) + u64_le(h.pps as u64) + u64_le(h.vset@.len() as u64)
}

/// The encoding of an index: header, `vset`, number of slots, slots.
pub open spec fn enc_index(x: MemIndex) -> Seq<u8> {
    enc_header(x.header) + enc_u32s(x.header.vset@) + u64_le(x.kmap.slot_map@.len() as u64)
        + enc_slots(slot_views(x.kmap.slot_map@))
}

/// Two indexes that agree on every header field and every slot.
pub open spec fn same_index(a: MemIndex, b: MemIndex) -> bool {
    &&& a.header.format_ver == b.header.format_ver
    &&& a.header.min_ver == b.header.min_ver
    &&& a.header.max_ver == b.header.max_ver
    &&& a.header.active_ver == b.header.active_ver
    &&& a.header.max_key == b.header.max_key
    &&& a.header.pps == b.header.pps
    &&& a.header.vset@ == b.header.vset@
    &&& a.kmap.pps == b.kmap.pps
    &&& slot_views(a.kmap.slot_map@) == slot_views(b.kmap.slot_map@)
}

pub open spec fn encodes(b: Seq<u8>, x: MemIndex) -> bool {
    x.wf() && b == enc_index(x)
}

// ---- little-endian numbers ----

proof fn lemma_u32_le(b0: u8, b1: u8, b2: u8, b3: u8)
    ensures
        ({
            let x: u32 = (b0 as u32) | ((b1 as u32) << 8) | ((b2 as u32) << 16) | ((b3 as u32) << 24);
            u32_le(x) == seq![b0, b1, b2, b3]
        }),
{
    let (c0, c1, c2, c3) = (b0 as u32, b1 as u32, b2 as u32, b3 as u32);
    assert(c0 < 256 && c1 < 256 && c2 < 256 && c3 < 256 ==> ({
        let x: u32 = c0 | (c1 << 8) | (c2 << 16) | (c3 << 24);
        &&& x & 0xff == c0
        &&& (x >> 8) & 0xff == c1
        &&& (x >> 16) & 0xff == c2
        &&& (x >> 24) & 0xff == c3
    })) by (bit_vector);
    let x: u32 = c0 | (c1 << 8) | (c2 << 16) | (c3 << 24);
    assert(u32_le(x) =~= seq![b0, b1, b2, b3]);
}

proof fn lemma_u32_le_injective(a: u32, b: u32)
    requires
        u32_le(a) == u32_le(b),
    ensures
        a == b,
{
    assert(u32_le(a)[0] == u32_le(b)[0]);
    assert(u32_le(a)[1] == u32_le(b)[1]);
    assert(u32_le(a)[2] == u32_le(b)[2]);
    assert(u32_le(a)[3] == u32_le(b)[3]);
    assert(((a & 0xff) as u8 == (b & 0xff) as u8 && ((a >> 8) & 0xff) as u8 == ((b >> 8) & 0xff)
        as u8 && ((a >> 16) & 0xff) as u8 == ((b >> 16) & 0xff) as u8 && ((a >> 24) & 0xff) as u8
        == ((b >> 24) & 0xff) as u8) ==> a == b) by (bit_vector);
}

proof fn lemma_u64_split(lo: u32, hi: u32)
    ensures
        ({
            let x: u64 = (lo as u64) | ((hi as u64) << 32);
            (x & 0xffff_ffff) as u32 == lo && (x >> 32) as u32 == hi
        }),
{
    let (l, h) = (lo as u64, hi as u64);
    assert(l < 0x1_0000_0000 && h < 0x1_0000_0000 ==> ({
        let x: u64 = l | (h << 32);
        (x & 0xffff_ffff) == l && (x >> 32) == h
    })) by (bit_vector);
}

proof fn lemma_u64_le_injective(a: u64, b: u64)
    requires
        u64_le(a) == u64_le(b),
    ensures
        a == b,
{
    let (la, ha) = ((a & 0xffff_ffff) as u32, (a >> 32) as u32);
    let (lb, hb) = ((b & 0xffff_ffff) as u32, (b >> 32) as u32);
    assert(u32_le(la) =~= u64_le(a).subrange(0, 4));
    assert(u32_le(lb) =~= u64_le(b).subrange(0, 4));
    assert(u32_le(ha) =~= u64_le(a).subrange(4, 8));
    assert(u32_le(hb) =~= u64_le(b).subrange(4, 8));
    lemma_u32_le_injective(la, lb);
    lemma_u32_le_injective(ha, hb);
    assert(((a & 0xffff_ffff) as u32 == (b & 0xffff_ffff) as u32 && (a >> 32) as u32 == (b >> 32)
        as u32) ==> a == b) by (bit_vector);
}

fn push_u64_le(out: &mut Vec<u8>, x: u64)
    ensures
        final(out)@ == old(out)@ + u64_le(x),
{
    push_u32_le(out, (x & 0xffff_ffff) as u32);
    push_u32_le(out, (x >> 32) as u32);
    assert(final(out)@ =~= old(out)@ + u64_le(x));
}

fn read_u32(b: &Vec<u8>, p: usize) -> (r: u32)
    requires
        p + 4 <= b@.len(),
    ensures
        u32_le(r) == b@.subrange(p as int, p + 4),
{
    let n = b.len();
    assert(p + 4 <= n);
    let b0 = b[p];
    let b1 = b[p + 1];
    let b2 = b[p + 2];
    let b3 = b[p + 3];
    proof {
        lemma_u32_le(b0, b1, b2, b3);
        assert(b@.subrange(p as int, p + 4) =~= seq![b0, b1, b2, b3]);
    }
    (b0 as u32) | ((b1 as u32) << 8) | ((b2 as u32) << 16) | ((b3 as u32) << 24)
}

fn read_u64(b: &Vec<u8>, p: usize) -> (r: u64)
    requires
        p + 8 <= b@.len(),
    ensures
        u64_le(r) == b@.subrange(p as int, p + 8),
{
    let n = b.len();
    assert(p + 8 <= n);
    let lo = read_u32(b, p);
    let hi = read_u32(b, p + 4);
    proof {
        lemma_u64_split(lo, hi);
        assert(b@.subrange(p as int, p + 8) =~= b@.subrange(p as int, p + 4) + b@.subrange(
            p + 4,
            p + 8,
        ));
    }
    (lo as u64) | ((hi as u64) << 32)
}

// ---- shapes of the encodings ----

proof fn lemma_enc_u32s_at(s: Seq<u32>, j: int)
    requires
        0 <= j < s.len(),
    ensures
        enc_u32s(s).len() == 4 * s.len(),
        enc_u32s(s).subrange(4 * j, 4 * j + 4) == u32_le(s[j]),
    decreases s.len(),
{
    lemma_enc_u32s_len(s);
    if j < s.len() - 1 {
        lemma_enc_u32s_at(s.drop_last(), j);
        lemma_enc_u32s_len(s.drop_last());
        assert(enc_u32s(s).subrange(4 * j, 4 * j + 4) =~= enc_u32s(s.drop_last()).subrange(
            4 * j,
            4 * j + 4,
        ));
    } else {
        lemma_enc_u32s_len(s.drop_last());
        assert(enc_u32s(s).subrange(4 * j, 4 * j + 4) =~= u32_le(s.last()));
    }
}

proof fn lemma_enc_u32s_len(s: Seq<u32>)
    ensures
        enc_u32s(s).len() == 4 * s.len(),
    decreases s.len(),
{
    if s.len() > 0 {
        lemma_enc_u32s_len(s.drop_last());
    }
}

proof fn lemma_enc_values_len(s: Seq<Value>)
    ensures
        enc_values(s).len() == VALUE_LEN * s.len(),
    decreases s.len(),
{
    if s.len() > 0 {
        lemma_enc_values_len(s.drop_last());
    }
}

proof fn lemma_enc_values_at(s: Seq<Value>, j: int)
    requires
        0 <= j < s.len(),
    ensures
        enc_values(s).subrange(7 * j, 7 * j + 7) == value_bytes(s[j]),
    decreases s.len(),
{
    lemma_enc_values_len(s);
    lemma_enc_values_len(s.drop_last());
    if j < s.len() - 1 {
        lemma_enc_values_at(s.drop_last(), j);
        assert(enc_values(s).subrange(7 * j, 7 * j + 7) =~= enc_values(s.drop_last()).subrange(
            7 * j,
            7 * j + 7,
        ));
    } else {
        assert(enc_values(s).subrange(7 * j, 7 * j + 7) =~= value_bytes(s.last()));
    }
}

proof fn lemma_enc_values_take(s: Seq<Value>, j: int)
    requires
        0 <= j < s.len(),
    ensures
        enc_values(s.take(j + 1)) == enc_values(s.take(j)) + value_bytes(s[j]),
{
    assert(s.take(j + 1).drop_last() =~= s.take(j));
}

proof fn lemma_enc_u32s_take(s: Seq<u32>, j: int)
    requires
        0 <= j < s.len(),
    ensures
        enc_u32s(s.take(j + 1)) == enc_u32s(s.take(j)) + u32_le(s[j]),
{
    assert(s.take(j + 1).drop_last() =~= s.take(j));
}

proof fn lemma_enc_slots_take(s: Seq<Option<Seq<Value>>>, i: int)
    requires
        0 <= i < s.len(),
    ensures
        enc_slots(s.take(i + 1)) == enc_slots(s.take(i)) + enc_slot(s[i]),
{
    assert(s.take(i + 1).drop_last() =~= s.take(i));
}

/// The encoding of the first `i` slots is a prefix of that of all of them.
proof fn lemma_enc_slots_prefix(s: Seq<Option<Seq<Value>>>, i: int)
    requires
        0 <= i <= s.len(),
    ensures
        enc_slots(s.take(i)).len() <= enc_slots(s).len(),
        enc_slots(s).subrange(0, enc_slots(s.take(i)).len() as int) == enc_slots(s.take(i)),
    decreases s.len(),
{
    if i == s.len() {
        assert(s.take(i) =~= s);
    } else {
        let t = s.drop_last();
        lemma_enc_slots_prefix(t, i);
        assert(t.take(i) =~= s.take(i));
        assert(enc_slots(s).subrange(0, enc_slots(s.take(i)).len() as int) =~= enc_slots(
            t,
        ).subrange(0, enc_slots(s.take(i)).len() as int));
    }
}

// ---- encoding ----

fn encode_values(out: &mut Vec<u8>, vs: &Vec<Value>)
    ensures
        final(out)@ == old(out)@ + enc_values(vs@),
{
    let mut j: usize = 0;
    while j < vs.len()
        invariant
            j <= vs@.len(),
            out@ == old(out)@ + enc_values(vs@.take(j as int)),
        decreases vs@.len() - j,
    {
        proof {
            lemma_enc_values_take(vs@, j as int);
        }
        vs[j].encode_into(out);
        j = j + 1;
    }
    assert(vs@.take(vs@.len() as int) =~= vs@);
}

/// Serialises an index into bytes.
pub fn encode_index(x: &MemIndex) -> (r: Vec<u8>)
    requires
        x.wf(),
    ensures
        r@ == enc_index(*x),
{
    let h = &x.header;
    let mut out: Vec<u8> = Vec::new();
    push_u32_le(&mut out, h.format_ver);
    push_u32_le(&mut out, h.min_ver);
    push_u32_le(&mut out, h.max_ver);
    push_u32_le(&mut out, h.active_ver);
    push_u64_le(&mut out, (h.max_key + 1) as u64);
    push_u64_le(&mut out, h.pps as u64);
    push_u64_le(&mut out, h.vset.len() as u64);
    assert(out@ =~= enc_header(*h));
    let mut j: usize = 0;
    while j < h.vset.len()
        invariant
            j <= h.vset@.len(),
            out@ == enc_header(*h) + enc_u32s(h.vset@.take(j as int)),
        decreases h.vset@.len() - j,
    {
        proof {
            lemma_enc_u32s_take(h.vset@, j as int);
        }
        push_u32_le(&mut out, h.vset[j]);
        proof {
            assert(out@ =~= enc_header(*h) + enc_u32s(h.vset@.take(j + 1)));
        }
        j = j + 1;
    }
    assert(h.vset@.take(h.vset@.len() as int) =~= h.vset@);
    let slots = &x.kmap.slot_map;
    push_u64_le(&mut out, slots.len() as u64);
    let ghost pre = out@;
    let ghost sv = slot_views(slots@);
    let mut i: usize = 0;
    assert(sv.take(0) =~= Seq::<Option<Seq<Value>>>::empty());
    assert(out@ =~= pre + enc_slots(sv.take(0)));
    while i < slots.len()
        invariant
            i <= slots@.len(),
            sv == slot_views(slots@),
            out@ == pre + enc_slots(sv.take(i as int)),
        decreases slots@.len() - i,
    {
        proof {
            lemma_enc_slots_take(sv, i as int);
        }
        match &slots[i] {
            Some(vs) => {
                out.push(1u8);
                encode_values(&mut out, vs);
                proof {
                    assert(sv[i as int] == Some(vs@));
                    assert(out@ =~= pre + enc_slots(sv.take(i + 1)));
                }
            },
            None => {
                out.push(0u8);
                proof {
                    assert(sv[i as int] == None::<Seq<Value>>);
                    assert(out@ =~= pre + enc_slots(sv.take(i + 1)));
                }
            },
        }
        i = i + 1;
    }
    assert(sv.take(slots@.len() as int) =~= sv);
    out
}

// ---- decoding ----

proof fn lemma_enc_values_all_at(s: Seq<Value>)
    ensures
        enc_values(s).len() == VALUE_LEN * s.len(),
        forall|j: int|
            0 <= j < s.len() ==> #[trigger] enc_values(s).subrange(7 * j, 7 * j + 7) == value_bytes(
                s[j],
            ),
{
    lemma_enc_values_len(s);
    assert forall|j: int| 0 <= j < s.len() implies #[trigger] enc_values(s).subrange(
        7 * j,
        7 * j + 7,
    ) == value_bytes(s[j]) by {
        lemma_enc_values_at(s, j);
    }
}

/// Reads `cnt` locators from `b[q..]`.
fn decode_values(b: &Vec<u8>, q: usize, cnt: usize) -> (r: Vec<Value>)
    requires
        q + VALUE_LEN * cnt <= b@.len(),
    ensures
        r@.len() == cnt,
        forall|j: int| 0 <= j < cnt ==> (#[trigger] r@[j]).wf(),
        forall|vs: Seq<Value>|
            vs.len() == cnt && (forall|j: int| 0 <= j < vs.len() ==> (#[trigger] vs[j]).wf())
                && b@.subrange(q as int, q + VALUE_LEN * cnt) == #[trigger] enc_values(vs) ==> r@
                == vs,
{
    let mut out: Vec<Value> = Vec::with_capacity(cnt);
    let mut j: usize = 0;
    let n = b.len();
    while j < cnt
        invariant
            n == b@.len(),
            q + VALUE_LEN * cnt <= b@.len(),
            j <= cnt,
            out@.len() == j,
            forall|t: int| 0 <= t < j ==> (#[trigger] out@[t]).wf(),
            forall|t: int|
                0 <= t < j ==> value_bytes(#[trigger] out@[t]) == b@.subrange(
                    q + 7 * t,
                    q + 7 * t + 7,
                ),
        decreases cnt - j,
    {
        proof {
            assert(7 * j + 7 <= 7 * cnt) by (nonlinear_arith)
                requires
                    j < cnt,
            ;
        }
        let v = Value::decode_at(b, q + 7 * j);
        out.push(v);
        j = j + 1;
    }
    proof {
        assert forall|vs: Seq<Value>|
            vs.len() == cnt && (forall|j: int| 0 <= j < vs.len() ==> (#[trigger] vs[j]).wf())
                && b@.subrange(q as int, q + VALUE_LEN * cnt) == #[trigger] enc_values(
                vs,
            ) implies out@ == vs by {
            lemma_enc_values_all_at(vs);
            assert forall|t: int| 0 <= t < cnt implies out@[t] == vs[t] by {
                assert(0 <= 7 * t && 7 * t + 7 <= 7 * cnt) by (nonlinear_arith)
                    requires
                        0 <= t < cnt,
                ;
                assert(enc_values(vs).subrange(7 * t, 7 * t + 7) =~= b@.subrange(
                    q + 7 * t,
                    q + 7 * t + 7,
                ));
                lemma_value_bytes_injective(out@[t], vs[t]);
            }
            assert(out@ =~= vs);
        }
    }
    out
}

pub open spec fn slot_ok(o: Option<Seq<Value>>, pps: usize) -> bool {
    o matches Some(vs) ==> (vs.len() == pps && forall|j: int|
        0 <= j < vs.len() ==> (#[trigger] vs[j]).wf())
}

pub open spec fn slot_view(s: Option<Vec<Value>>) -> Option<Seq<Value>> {
    match s {
        Some(v) => Some(v@),
        None => None,
    }
}

/// Reads one slot from `b[p..]`; returns it and the position after it.
fn decode_slot(b: &Vec<u8>, p: usize, pps: usize) -> (r: Result<(Option<Vec<Value>>, usize), Error>)
    ensures
        r is Err ==> r == Err::<(Option<Vec<Value>>, usize), Error>(Error::DecodeErr),
        r matches Ok((s, q)) ==> p < q <= b@.len() && slot_ok(slot_view(s), pps),
        forall|o: Option<Seq<Value>>|
            slot_ok(o, pps) && p + enc_slot(o).len() <= b@.len() && b@.subrange(
                p as int,
                p + enc_slot(o).len(),
            ) == #[trigger] enc_slot(o) ==> (r matches Ok((s, q)) && slot_view(s) == o && q == p
                + enc_slot(o).len()),
{
    let n = b.len();
    if p >= n {
        return Err(Error::DecodeErr);
    }
    let tag = b[p];
    proof {
        assert forall|o: Option<Seq<Value>>|
            slot_ok(o, pps) && p + enc_slot(o).len() <= b@.len() && b@.subrange(
                p as int,
                p + enc_slot(o).len(),
            ) == #[trigger] enc_slot(o) implies (tag == 0 <==> o is None) && (tag == 1 <==> o is Some)
            by {
            assert(enc_slot(o)[0] == b@[p as int]);
        }
    }
    if tag == 0 {
        return Ok((None, p + 1));
    }
    if tag != 1 {
        return Err(Error::DecodeErr);
    }
    if pps > (n - p - 1) / VALUE_LEN {
        proof {
            assert forall|o: Option<Seq<Value>>|
                slot_ok(o, pps) && p + enc_slot(o).len() <= b@.len() && b@.subrange(
                    p as int,
                    p + enc_slot(o).len(),
                ) == #[trigger] enc_slot(o) implies false by {
                if o is Some {
                    lemma_enc_values_len(o.unwrap());
                    assert(VALUE_LEN * pps <= n - p - 1);
                    vstd::arithmetic::div_mod::lemma_div_is_ordered(
                        VALUE_LEN * pps as int,
                        (n - p - 1) as int,
                        VALUE_LEN as int,
                    );
                    vstd::arithmetic::div_mod::lemma_div_multiples_vanish(pps as int, 7);
                }
            }
        }
        return Err(Error::DecodeErr);
    }
    proof {
        vstd::arithmetic::div_mod::lemma_fundamental_div_mod((n - p - 1) as int, 7);
        vstd::arithmetic::div_mod::lemma_mod_pos_bound((n - p - 1) as int, 7);
        assert(7 * pps <= n - p - 1) by (nonlinear_arith)
            requires
                pps <= (n - p - 1) / 7,
                (n - p - 1) == 7 * ((n - p - 1) / 7) + (n - p - 1) % 7,
                0 <= (n - p - 1) % 7,
        ;
    }
    let vs = decode_values(b, p + 1, pps);
    proof {
        assert forall|o: Option<Seq<Value>>|
            slot_ok(o, pps) && p + enc_slot(o).len() <= b@.len() && b@.subrange(
                p as int,
                p + enc_slot(o).len(),
            ) == #[trigger] enc_slot(o) implies slot_view(Some(vs)) == o && p + 1 + VALUE_LEN * pps
            == p + enc_slot(o).len() by {
            let w = o.unwrap();
            lemma_enc_values_len(w);
            assert(b@.subrange(p + 1, p + 1 + VALUE_LEN * pps) =~= enc_slot(o).subrange(
                1,
                enc_slot(o).len() as int,
            ));
            assert(enc_slot(o).subrange(1, enc_slot(o).len() as int) =~= enc_values(w));
        }
    }
    Ok((Some(vs), p + 1 + VALUE_LEN * pps))
}

proof fn lemma_enc_slots_len_ge(s: Seq<Option<Seq<Value>>>)
    ensures
        enc_slots(s).len() >= s.len(),
    decreases s.len(),
{
    if s.len() > 0 {
        lemma_enc_slots_len_ge(s.drop_last());
    }
}

/// Where each part of an encoded index lies.
proof fn lemma_layout(x: MemIndex)
    ensures
        ({
            let e = enc_index(x);
            let v: int = (4 * x.header.vset@.len()) as int;
            let sv = slot_views(x.kmap.slot_map@);
            &&& e.len() == 48 + v + enc_slots(sv).len()
            &&& e.subrange(0, 4) == u32_le(x.header.format_ver)
            &&& e.subrange(4, 8) == u32_le(x.header.min_ver)
            &&& e.subrange(8, 12) == u32_le(x.header.max_ver)
            &&& e.subrange(12, 16) == u32_le(x.header.active_ver)
            &&& e.subrange(16, 24) == u64_le((x.header.max_key + 1) as u64)
            &&& e.subrange(24, 32) == u64_le(x.header.pps as u64)
            &&& e.subrange(32, 40) == u64_le(x.header.vset@.len() as u64)
            &&& e.subrange(40, 40 + v) == enc_u32s(x.header.vset@)
            &&& e.subrange(40 + v, 48 + v) == u64_le(x.kmap.slot_map@.len() as u64)
            &&& e.subrange(48 + v, e.len() as int) == enc_slots(sv)
        }),
{
    let e = enc_index(x);
    let h = enc_header(x.header);
    let v: int = (4 * x.header.vset@.len()) as int;
    lemma_enc_u32s_len(x.header.vset@);
    assert(h.len() == 40);
    assert(e.subrange(0, 4) =~= u32_le(x.header.format_ver));
    assert(e.subrange(4, 8) =~= u32_le(x.header.min_ver));
    assert(e.subrange(8, 12) =~= u32_le(x.header.max_ver));
    assert(e.subrange(12, 16) =~= u32_le(x.header.active_ver));
    assert(e.subrange(16, 24) =~= u64_le((x.header.max_key + 1) as u64));
    assert(e.subrange(24, 32) =~= u64_le(x.header.pps as u64));
    assert(e.subrange(32, 40) =~= u64_le(x.header.vset@.len() as u64));
    assert(e.subrange(40, 40 + v) =~= enc_u32s(x.header.vset@));
    assert(e.subrange(40 + v, 48 + v) =~= u64_le(x.kmap.slot_map@.len() as u64));
    assert(e.subrange(48 + v, e.len() as int) =~= enc_slots(slot_views(x.kmap.slot_map@)));
}

/// Whether `v` lists each number once.
fn no_dups(v: &Vec<u32>) -> (r: bool)
    ensures
        r == v@.no_duplicates(),
{
    let mut i: usize = 0;
    while i < v.len()
        invariant
            i <= v@.len(),
            forall|a: int, c: int| 0 <= a < c < i ==> v@[a] != v@[c],
        decreases v@.len() - i,
    {
        let mut j: usize = 0;
        while j < i
            invariant
                i < v@.len(),
                j <= i,
                forall|a: int| 0 <= a < j ==> v@[a] != v@[i as int],
            decreases i - j,
        {
            if v[j] == v[i] {
                return false;
            }
            j = j + 1;
        }
        i = i + 1;
    }
    true
}

proof fn lemma_same_slots_loc(a: KeyMap, c: KeyMap)
    requires
        a.pps == c.pps,
        a.pps > 0,
        slot_views(a.slot_map@) == slot_views(c.slot_map@),
    ensures
        forall|k: int| #[trigger] a.loc(k) == c.loc(k),
{
    assert forall|k: int| #[trigger] a.loc(k) == c.loc(k) by {
        let s = k / (a.pps as int);
        assert(a.slot_map@.len() == slot_views(a.slot_map@).len());
        assert(c.slot_map@.len() == slot_views(c.slot_map@).len());
        if 0 <= k {
            vstd::arithmetic::div_mod::lemma_div_pos_is_pos(k, a.pps as int);
        }
        if 0 <= k && s < a.slot_map@.len() {
            assert(slot_views(a.slot_map@)[s] == slot_views(c.slot_map@)[s]);
        }
    }
}

pub open spec fn header_is(
    x: MemIndex,
    fv: u32,
    mn: u32,
    mx: u32,
    act: u32,
    mk: u64,
    pps: u64,
    nv: u64,
) -> bool {
    &&& x.header.format_ver == fv
    &&& x.header.min_ver == mn
    &&& x.header.max_ver == mx
    &&& x.header.active_ver == act
    &&& (x.header.max_key + 1) as u64 == mk
    &&& x.header.pps as u64 == pps
    &&& x.header.vset@.len() == nv
}

/// Reads `cnt` 32-bit numbers from `b[q..]`.
fn decode_u32s(b: &Vec<u8>, q: usize, cnt: usize) -> (r: Vec<u32>)
    requires
        q + 4 * cnt <= b@.len(),
    ensures
        r@.len() == cnt,
        forall|vs: Seq<u32>|
            vs.len() == cnt && b@.subrange(q as int, q + 4 * cnt) == #[trigger] enc_u32s(vs) ==> r@
                == vs,
{
    let n = b.len();
    let mut out: Vec<u32> = Vec::new();
    let mut j: usize = 0;
    while j < cnt
        invariant
            n == b@.len(),
            q + 4 * cnt <= n,
            j <= cnt,
            out@.len() == j,
            forall|t: int|
                0 <= t < j ==> u32_le(#[trigger] out@[t]) == b@.subrange(q + 4 * t, q + 4 * t + 4),
        decreases cnt - j,
    {
        let v = read_u32(b, q + 4 * j);
        out.push(v);
        j = j + 1;
    }
    proof {
        assert forall|vs: Seq<u32>|
            vs.len() == cnt && b@.subrange(q as int, q + 4 * cnt) == #[trigger] enc_u32s(
                vs,
            ) implies out@ == vs by {
            assert forall|t: int| 0 <= t < cnt implies out@[t] == vs[t] by {
                lemma_enc_u32s_at(vs, t);
                assert(enc_u32s(vs).subrange(4 * t, 4 * t + 4) =~= b@.subrange(
                    q + 4 * t,
                    q + 4 * t + 4,
                ));
                lemma_u32_le_injective(out@[t], vs[t]);
            }
            assert(out@ =~= vs);
        }
    }
    out
}

/// `b[base..]` holds the encoding of `sv`: `cnt` slots of width `pps`.
pub open spec fn slots_at(
    b: Seq<u8>,
    base: usize,
    sv: Seq<Option<Seq<Value>>>,
    cnt: usize,
    pps: usize,
) -> bool {
    &&& sv.len() == cnt
    &&& forall|t: int| 0 <= t < sv.len() ==> slot_ok(#[trigger] sv[t], pps)
    &&& base + enc_slots(sv).len() <= b.len()
    &&& b.subrange(base as int, base + enc_slots(sv).len()) == enc_slots(sv)
}

/// Reads `cnt` slots from `b[base..]`; returns them and the position after.
fn decode_slots(b: &Vec<u8>, base: usize, cnt: usize, pps: usize) -> (r: Result<
    (Vec<Option<Vec<Value>>>, usize),
    Error,
>)
    requires
        base <= b@.len(),
    ensures
        r matches Ok((slots, p)) ==> slots@.len() == cnt && base <= p <= b@.len() && forall|t: int|
            0 <= t < cnt ==> slot_ok(slot_view(#[trigger] slots@[t]), pps),
        r is Err ==> r == Err::<(Vec<Option<Vec<Value>>>, usize), Error>(Error::DecodeErr),
        forall|sv: Seq<Option<Seq<Value>>>|
            #[trigger] slots_at(b@, base, sv, cnt, pps) ==> (r matches Ok((slots, p)) && slot_views(slots@)
                == sv && p == base + enc_slots(sv).len()),
{
    let n = b.len();
    let mut slots: Vec<Option<Vec<Value>>> = Vec::new();
    let mut p: usize = base;
    let mut i: usize = 0;
    while i < cnt
        invariant
            n == b@.len(),
            base <= p <= n,
            i <= cnt,
            slots@.len() == i,
            forall|t: int| 0 <= t < i ==> slot_ok(slot_view(#[trigger] slots@[t]), pps),
            forall|sv: Seq<Option<Seq<Value>>>|
                #[trigger] slots_at(b@, base, sv, cnt, pps) ==> slot_views(slots@) == sv.take(i as int) && p
                    == base + enc_slots(sv.take(i as int)).len(),
        decreases cnt - i,
    {
        proof {
            assert forall|sv: Seq<Option<Seq<Value>>>|
                #[trigger] slots_at(b@, base, sv, cnt, pps) implies ({
                let o = sv[i as int];
                slot_ok(o, pps) && p + enc_slot(o).len() <= b@.len() && b@.subrange(
                    p as int,
                    p + enc_slot(o).len(),
                ) == enc_slot(o)
            }) by {
                lemma_enc_slots_take(sv, i as int);
                lemma_enc_slots_prefix(sv, i + 1);
                let o = sv[i as int];
                let pre = enc_slots(sv.take(i as int));
                let upto = enc_slots(sv.take(i + 1));
                assert(upto =~= pre + enc_slot(o));
                assert(enc_slots(sv).subrange(
                    pre.len() as int,
                    (pre.len() + enc_slot(o).len()) as int,
                ) =~= upto.subrange(pre.len() as int, upto.len() as int));
                assert(upto.subrange(pre.len() as int, upto.len() as int) =~= enc_slot(o));
                assert(b@.subrange(p as int, p + enc_slot(o).len()) =~= enc_slots(sv).subrange(
                    pre.len() as int,
                    (pre.len() + enc_slot(o).len()) as int,
                ));
            }
        }
        let (slot, q) = decode_slot(b, p, pps)?;
        let ghost before = slots@;
        slots.push(slot);
        proof {
            assert forall|sv: Seq<Option<Seq<Value>>>|
                #[trigger] slots_at(b@, base, sv, cnt, pps) implies slot_views(slots@) == sv.take(i + 1) && q
                    == base + enc_slots(sv.take(i + 1)).len() by {
                lemma_enc_slots_take(sv, i as int);
                assert forall|t: int| 0 <= t < i + 1 implies slot_views(slots@)[t] == sv.take(
                    i + 1,
                )[t] by {
                    if t < i {
                        assert(slot_views(before)[t] == sv.take(i as int)[t]);
                    }
                }
                assert(slot_views(slots@) =~= sv.take(i + 1));
            }
        }
        p = q;
        i = i + 1;
    }
    proof {
        assert forall|sv: Seq<Option<Seq<Value>>>|
            #[trigger] slots_at(b@, base, sv, cnt, pps) implies slot_views(slots@) == sv by {
            assert(sv.take(cnt as int) =~= sv);
        }
    }
    Ok((slots, p))
}

/// Reads an index back from bytes. Whatever comes back is well formed, and
/// from the encoding of a well-formed index comes back that index.
#[verifier::rlimit(100)]
pub fn decode_index(b: &Vec<u8>) -> (r: Result<MemIndex, Error>)
    ensures
        r matches Ok(y) ==> y.wf(),
        r is Err ==> r == Err::<MemIndex, Error>(Error::DecodeErr),
        forall|x: MemIndex| #[trigger] encodes(b@, x) ==> (r matches Ok(y) && same_index(y, x)),
{
    let n = b.len();
    if n < HEADER_BYTES {
        proof {
            assert forall|x: MemIndex| #[trigger] encodes(b@, x) implies false by {
                lemma_layout(x);
            }
        }
        return Err(Error::DecodeErr);
    }
    let fv = read_u32(b, 0);
    let mn = read_u32(b, 4);
    let mx = read_u32(b, 8);
    let act = read_u32(b, 12);
    let mk = read_u64(b, 16);
    let pps = read_u64(b, 24);
    let nv = read_u64(b, 32);
    proof {
        assert forall|x: MemIndex| #[trigger] encodes(b@, x) implies header_is(
            x,
            fv,
            mn,
            mx,
            act,
            mk,
            pps,
            nv,
        ) by {
            lemma_layout(x);
            lemma_u32_le_injective(fv, x.header.format_ver);
            lemma_u32_le_injective(mn, x.header.min_ver);
            lemma_u32_le_injective(mx, x.header.max_ver);
            lemma_u32_le_injective(act, x.header.active_ver);
            lemma_u64_le_injective(mk, (x.header.max_key + 1) as u64);
            lemma_u64_le_injective(pps, x.header.pps as u64);
            lemma_u64_le_injective(nv, x.header.vset@.len() as u64);
        }
    }
    if pps == 0 || pps > u32::MAX as u64 || nv > ((n - HEADER_BYTES) / 4) as u64 {
        proof {
            assert forall|x: MemIndex| #[trigger] encodes(b@, x) implies false by {
                lemma_layout(x);
                vstd::arithmetic::div_mod::lemma_div_is_ordered(
                    4 * nv as int,
                    (n - 40) as int,
                    4,
                );
                vstd::arithmetic::div_mod::lemma_div_multiples_vanish(nv as int, 4);
            }
        }
        return Err(Error::DecodeErr);
    }
    let nvu = nv as usize;
    proof {
        vstd::arithmetic::div_mod::lemma_fundamental_div_mod((n - 40) as int, 4);
        vstd::arithmetic::div_mod::lemma_mod_pos_bound((n - 40) as int, 4);
    }
    let vset = decode_u32s(b, HEADER_BYTES, nvu);
    let ps = HEADER_BYTES + 4 * nvu;
    proof {
        assert forall|x: MemIndex| #[trigger] encodes(b@, x) implies vset@ == x.header.vset@ by {
            lemma_layout(x);
            assert(b@.subrange(40, 40 + 4 * nvu) == enc_u32s(x.header.vset@));
        }
    }
    if n - ps < 8 {
        proof {
            assert forall|x: MemIndex| #[trigger] encodes(b@, x) implies false by {
                lemma_layout(x);
            }
        }
        return Err(Error::DecodeErr);
    }
    let ns = read_u64(b, ps);
    proof {
        assert forall|x: MemIndex| #[trigger] encodes(b@, x) implies ns
            == x.kmap.slot_map@.len() by {
            lemma_layout(x);
            assert(x.kmap.slot_map@.len() == x.kmap.slot_map.len());
            assert(b@.subrange(ps as int, ps + 8) == u64_le(x.kmap.slot_map@.len() as u64));
            lemma_u64_le_injective(ns, x.kmap.slot_map@.len() as u64);
        }
    }
    let base = ps + 8;
    if ns > (n - base) as u64 {
        proof {
            assert forall|x: MemIndex| #[trigger] encodes(b@, x) implies false by {
                lemma_layout(x);
                lemma_enc_slots_len_ge(slot_views(x.kmap.slot_map@));
            }
        }
        return Err(Error::DecodeErr);
    }
    let ppsu = pps as usize;
    proof {
        assert forall|x: MemIndex| #[trigger] encodes(b@, x) implies slots_at(
            b@,
            base,
            slot_views(x.kmap.slot_map@),
            ns as usize,
            ppsu,
        ) && base + enc_slots(slot_views(x.kmap.slot_map@)).len() == b@.len() by {
            lemma_layout(x);
            let sv = slot_views(x.kmap.slot_map@);
            assert forall|t: int| 0 <= t < sv.len() implies slot_ok(#[trigger] sv[t], ppsu) by {
                if x.kmap.slot_map@[t] is Some {
                    assert(slot_wf(x.kmap.slot_map@[t].unwrap()@, x.kmap.pps));
                }
            }
        }
    }
    let (slots, p) = decode_slots(b, base, ns as usize, ppsu)?;
    if p != n {
        return Err(Error::DecodeErr);
    }
    if act < 1 || act > MAX_VER || mk > u32::MAX as u64 + 1 || !no_dups(&vset) {
        return Err(Error::DecodeErr);
    }
    let max_key = mk as i64 - 1;
    let kmap = KeyMap { slot_map: slots, pps: ppsu };
    let y = MemIndex {
        header: IndexHeader {
            format_ver: fv,
            min_ver: mn,
            max_ver: mx,
            vset,
            active_ver: act,
            max_key,
            pps: ppsu,
        },
        kmap,
    };
    proof {
        assert forall|t: int|
            0 <= t < y.kmap.slot_map@.len() && (#[trigger] y.kmap.slot_map@[t]) is Some implies slot_wf(
            y.kmap.slot_map@[t].unwrap()@,
            y.kmap.pps,
        ) by {
            assert(slot_ok(slot_view(y.kmap.slot_map@[t]), ppsu));
        }
        assert(y.kmap.wf());
        assert forall|x: MemIndex| #[trigger] encodes(b@, x) implies same_index(y, x) by {
            assert(slots_at(b@, base, slot_views(x.kmap.slot_map@), ns as usize, ppsu));
        }
    }
    let (lo, hi, seen) = y.kmap.get_min_max_ver();
    if seen.len() > 0 && hi > act {
        proof {
            assert forall|x: MemIndex| #[trigger] encodes(b@, x) implies false by {
                lemma_same_slots_loc(y.kmap, x.kmap);
                assert(seen@.to_set().contains(hi));
                let k = choose|k: int| #[trigger] y.kmap.loc(k).ver == hi;
                assert(x.kmap.loc(k).ver <= x.header.active_ver);
            }
        }
        return Err(Error::DecodeErr);
    }
    proof {
        assert forall|k: int| #[trigger] y.kmap.loc(k).ver <= y.header.active_ver by {
            let v = y.kmap.loc(k).ver;
            if v > 0 {
                assert(y.kmap.live_versions().contains(v));
                assert(seen@.to_set().contains(v));
            }
        }
    }
    Ok(y)
}

// ---- the index file: uncompressed length, then the compressed encoding ----

/// The block compressor's output for `data` at compression level `level`.
pub uninterp spec fn zstd_compressed(data: Seq<u8>, level: i32) -> Seq<u8>;

/// What the block decompressor makes of `data`: the bytes it decompresses
/// to, or `None` when `data` is not compressed data.
pub uninterp spec fn zstd_decompressed(data: Seq<u8>) -> Option<Seq<u8>>;

/// Level the index is compressed at.
pub const COMPRESSION_LEVEL: i32 = 3;

/// Largest encoded index this library compresses or decompresses.
pub const MAX_INDEX_BYTES: u64 = 0xffff_ffff;

/// Relies on `zstd::bulk::compress`: at a valid level it compresses into a
/// buffer of the worst-case size, so it succeeds; its output depends on the
/// input bytes and the level alone, and decompressing it gives the input
/// back (zstd is lossless).
#[verifier::external_body]
fn zstd_compress(data: &Vec<u8>, level: i32) -> (r: Result<Vec<u8>, Error>)
    requires
        1 <= level <= 19,
        data@.len() <= MAX_INDEX_BYTES,
    ensures
        r is Ok,
        r is Ok ==> r.unwrap()@ == zstd_compressed(data@, level),
        r is Ok ==> zstd_decompressed(r.unwrap()@) == Some(data@),
{
    match zstd::bulk::compress(data.as_slice(), level) {
        Ok(c) => Ok(c),
        Err(_) => Err(Error::CompressErr),
    }
}

/// Relies on `zstd::bulk::decompress`: it succeeds exactly when `data`
/// decompresses to at most `capacity` bytes, and then returns them. The
/// bound on `capacity` keeps the buffer it may allocate up front small.
#[verifier::external_body]
fn zstd_decompress(data: &[u8], capacity: usize) -> (r: Result<Vec<u8>, Error>)
    requires
        capacity <= MAX_INDEX_BYTES,
    ensures
        r is Ok <==> (zstd_decompressed(data@) is Some && zstd_decompressed(data@).unwrap().len()
            <= capacity),
        r is Ok ==> r.unwrap()@ == zstd_decompressed(data@).unwrap(),
        r is Err ==> (r matches Err(e) && e == Error::CompressErr),
{
    match zstd::bulk::decompress(data, capacity) {
        Ok(d) => Ok(d),
        Err(_) => Err(Error::CompressErr),
    }
}

/// `f` is an index file holding `x`: it records a length of at least that
/// of `x`'s encoding (and at most the size limit), and its compressed part
/// decompresses to that encoding.
pub open spec fn holds_index(f: Seq<u8>, x: MemIndex) -> bool {
    &&& x.wf()
    &&& f.len() >= 8
    &&& exists|n: u64|
        #![trigger u64_le(n)]
        f.subrange(0, 8) == u64_le(n) && enc_index(x).len() <= n <= MAX_INDEX_BYTES
    &&& zstd_decompressed(f.subrange(8, f.len() as int)) == Some(enc_index(x))
}

/// The index file for bytes `enc` whose compressed form is `c`.
pub open spec fn index_file(enc: Seq<u8>, c: Seq<u8>) -> Seq<u8> {
    u64_le(enc.len() as u64) + c
}

/// Frames an encoded index: its length, then `compressed`.
pub fn frame_index(enc_len: usize, compressed: &Vec<u8>) -> (r: Vec<u8>)
    ensures
        r@ == u64_le(enc_len as u64) + compressed@,
{
    let mut out: Vec<u8> = Vec::new();
    push_u64_le(&mut out, enc_len as u64);
    let mut i: usize = 0;
    let ghost head = out@;
    while i < compressed.len()
        invariant
            i <= compressed@.len(),
            out@ == head + compressed@.subrange(0, i as int),
        decreases compressed@.len() - i,
    {
        out.push(compressed[i]);
        proof {
            assert(out@ =~= head + compressed@.subrange(0, i + 1));
        }
        i = i + 1;
    }
    assert(compressed@.subrange(0, i as int) =~= compressed@);
    out
}

/// Splits an index file into the recorded length and the compressed bytes.
pub fn unframe_index(f: &Vec<u8>) -> (r: Result<(u64, Vec<u8>), Error>)
    ensures
        f@.len() < 8 <==> r is Err,
        r is Err ==> r == Err::<(u64, Vec<u8>), Error>(Error::DecodeErr),
        r matches Ok((n, c)) ==> f@ == u64_le(n) + c@,
{
    let n = f.len();
    if n < 8 {
        return Err(Error::DecodeErr);
    }
    let len = read_u64(f, 0);
    let mut c: Vec<u8> = Vec::new();
    let mut i: usize = 8;
    while i < n
        invariant
            n == f@.len(),
            8 <= i <= n,
            c@ == f@.subrange(8, i as int),
        decreases n - i,
    {
        c.push(f[i]);
        proof {
            assert(c@ =~= f@.subrange(8, i + 1));
        }
        i = i + 1;
    }
    assert(f@ =~= f@.subrange(0, 8) + f@.subrange(8, n as int));
    Ok((len, c))
}

impl MemIndex {
    /// The bytes of the index file: the encoding's length, then the
    /// encoding compressed. Fails only for an encoding above the size limit.
    pub fn serialize(&self) -> (r: Result<Vec<u8>, Error>)
        requires
            self.wf(),
        ensures
            r is Ok <==> enc_index(*self).len() <= MAX_INDEX_BYTES,
            r matches Ok(f) ==> f@ == index_file(
                enc_index(*self),
                zstd_compressed(enc_index(*self), COMPRESSION_LEVEL),
            ) && holds_index(f@, *self),
            r is Err ==> r == Err::<Vec<u8>, Error>(Error::CompressErr),
    {
        let enc = encode_index(self);
        if enc.len() as u64 > MAX_INDEX_BYTES {
            return Err(Error::CompressErr);
        }
        let c = match zstd_compress(&enc, COMPRESSION_LEVEL) {
            Ok(c) => c,
            Err(e) => return Err(e),
        };
        let f = frame_index(enc.len(), &c);
        proof {
            let n = enc.len() as u64;
            assert(f@.subrange(0, 8) =~= u64_le(n));
            assert(f@.subrange(8, f@.len() as int) =~= c@);
        }
        Ok(f)
    }

    /// Reads an index file: returns the recorded length, the file's size and
    /// the index. The index is well formed and equals every well-formed
    /// index whose encoding the compressed bytes give back; a file that
    /// holds an index gives it back.
    pub fn deserialize(f: &Vec<u8>) -> (r: Result<(usize, usize, MemIndex), Error>)
        ensures
            f@.len() < 8 ==> r == Err::<(usize, usize, MemIndex), Error>(Error::DecodeErr),
            r is Err ==> (r == Err::<(usize, usize, MemIndex), Error>(Error::DecodeErr) || r
                == Err::<(usize, usize, MemIndex), Error>(Error::CompressErr)),
            r matches Ok((cap, total, y)) ==> {
                &&& y.wf()
                &&& total == f@.len()
                &&& f@.subrange(0, 8) == u64_le(cap as u64)
                &&& zstd_decompressed(f@.subrange(8, f@.len() as int)) is Some
                &&& forall|x: MemIndex|
                    #[trigger] encodes(
                        zstd_decompressed(f@.subrange(8, f@.len() as int)).unwrap(),
                        x,
                    ) ==> same_index(y, x)
            },
            forall|x: MemIndex| #[trigger]
                holds_index(f@, x) ==> (r matches Ok((cap, total, y)) && same_index(y, x)),
    {
        let (len, c) = unframe_index(f)?;
        proof {
            assert(c@ =~= f@.subrange(8, f@.len() as int));
            assert(f@.subrange(0, 8) =~= u64_le(len));
            assert forall|x: MemIndex| #[trigger] holds_index(f@, x) implies enc_index(x).len()
                <= len <= MAX_INDEX_BYTES by {
                let n = choose|n: u64|
                    #![trigger u64_le(n)]
                    f@.subrange(0, 8) == u64_le(n) && enc_index(x).len() <= n <= MAX_INDEX_BYTES;
                lemma_u64_le_injective(n, len);
            }
        }
        if len > MAX_INDEX_BYTES || len > usize::MAX as u64 {
            return Err(Error::DecodeErr);
        }
        let cap = len as usize;
        proof {
            assert forall|x: MemIndex| #[trigger] holds_index(f@, x) implies zstd_decompressed(
                c@,
            ) == Some(enc_index(x)) && enc_index(x).len() <= cap by {}
        }
        let d = zstd_decompress(c.as_slice(), cap)?;
        proof {
            assert forall|x: MemIndex| #[trigger] holds_index(f@, x) implies encodes(d@, x) by {}
        }
        let y = decode_index(&d)?;
        Ok((cap, f.len(), y))
    }
}

} // verus!
