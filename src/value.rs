use vstd::prelude::*;

verus! {

/// Largest version number a locator can hold (24 bits).
pub const MAX_VER: u32 = 0xff_ffff;

/// Width in bytes of a packed locator.
pub const VALUE_LEN: usize = 7;

/// Page locator: block number `off` inside the data file of version `ver`.
/// `ver == 0` means the page is unallocated.
#[derive(Clone, Copy, Debug, PartialEq, Eq, Structural)]
pub struct Value {
    pub off: u32,
    pub ver: u32,
}

/// A slot: absent, or a dense run of `pps` locators.
pub type Slot = Option<Vec<Value>>;

/// The packed form: `off` as four little-endian bytes, then the low three
/// bytes of `ver`, little-endian.
pub open spec fn value_bytes(v: Value) -> Seq<u8> {
    seq![
        (v.off & 0xff) as u8,
        ((v.off >> 8) & 0xff) as u8,
        ((v.off >> 16) & 0xff) as u8,
        ((v.off >> 24) & 0xff) as u8,
        (v.ver & 0xff) as u8,
        ((v.ver >> 8) & 0xff) as u8,
        ((v.ver >> 16) & 0xff) as u8,
    ]
}

impl Value {
    pub open spec fn wf(self) -> bool {
        self.ver <= MAX_VER
    }

    pub open spec fn zero() -> Value {
        Value { off: 0, ver: 0 }
    }

    pub fn new() -> (r: Value)
        ensures
            r == Value::zero(),
    {
        Value { off: 0, ver: 0 }
    }

    pub fn is_allocated(&self) -> (r: bool)
        ensures
            r == (self.ver > 0),
    {
        self.ver > 0
    }

    pub fn deallocate(&mut self)
        ensures
            *final(self) == Value::zero(),
    {
        self.off = 0;
        self.ver = 0;
    }

    pub fn put_off(&mut self, off: u32)
        ensures
            *final(self) == (Value { off, ver: old(self).ver }),
    {
        self.off = off;
    }

    pub fn get_off(&self) -> (r: u32)
        ensures
            r == self.off,
    {
        self.off
    }

    pub fn put_ver(&mut self, v: u32)
        requires
            v <= MAX_VER,
        ensures
            *final(self) == (Value { off: old(self).off, ver: v }),
    {
        self.ver = v;
    }

    pub fn get_ver(&self) -> (r: u32)
        ensures
            r == self.ver,
    {
        self.ver
    }

    /// Appends the packed 7-byte form to `out`.
    pub fn encode_into(&self, out: &mut Vec<u8>)
        ensures
            final(out)@ == old(out)@ + value_bytes(*self),
    {
        let o = self.off;
        let w = self.ver;
        out.push((o & 0xff) as u8);
        out.push(((o >> 8) & 0xff) as u8);
        out.push(((o >> 16) & 0xff) as u8);
        out.push(((o >> 24) & 0xff) as u8);
        out.push((w & 0xff) as u8);
        out.push(((w >> 8) & 0xff) as u8);
        out.push(((w >> 16) & 0xff) as u8);
        assert(final(out)@ =~= old(out)@ + value_bytes(*self));
    }

    /// Reads a packed locator from `b[pos..pos + 7]`.
    pub fn decode_at(b: &Vec<u8>, pos: usize) -> (r: Value)
        requires
            pos + VALUE_LEN <= b@.len(),
        ensures
            r.wf(),
            value_bytes(r) == b@.subrange(pos as int, pos + VALUE_LEN),
    {
        let n = b.len();
        assert(pos + 7 <= n);
        let b0 = b[pos];
        let b1 = b[pos + 1];
        let b2 = b[pos + 2];
        let b3 = b[pos + 3];
        let b4 = b[pos + 4];
        let b5 = b[pos + 5];
        let b6 = b[pos + 6];
        let o: u32 = (b0 as u32) | ((b1 as u32) << 8) | ((b2 as u32) << 16) | ((b3 as u32) << 24);
        let w: u32 = (b4 as u32) | ((b5 as u32) << 8) | ((b6 as u32) << 16);
        proof {
            lemma_pack4(b0, b1, b2, b3);
            lemma_pack3(b4, b5, b6);
        }
        let r = Value { off: o, ver: w };
        assert(value_bytes(r) =~= b@.subrange(pos as int, pos + VALUE_LEN));
        r
    }
}

proof fn lemma_pack4(b0: u8, b1: u8, b2: u8, b3: u8)
    ensures
        ({
            let x: u32 = (b0 as u32) | ((b1 as u32) << 8) | ((b2 as u32) << 16) | ((b3 as u32) << 24);
            &&& (x & 0xff) as u8 == b0
            &&& ((x >> 8) & 0xff) as u8 == b1
            &&& ((x >> 16) & 0xff) as u8 == b2
            &&& ((x >> 24) & 0xff) as u8 == b3
        }),
{
    let (c0, c1, c2, c3) = (b0 as u32, b1 as u32, b2 as u32, b3 as u32);
    assert(c0 < 256 && c1 < 256 && c2 < 256 && c3 < 256 ==> ({
        let x: u32 = c0 | (c1 << 8) | (c2 << 16) | (c3 << 24);
        &&& x & 0xff == c0
        &&& (x >> 8) & 0xff == c1
        &&& (x >> 16) & 0xff == c2
        &&& (x >> 24) & 0xff == c3
    })) by (bit_vector);
}

proof fn lemma_pack3(b4: u8, b5: u8, b6: u8)
    ensures
        ({
            let x: u32 = (b4 as u32) | ((b5 as u32) << 8) | ((b6 as u32) << 16);
            &&& (x & 0xff) as u8 == b4
            &&& ((x >> 8) & 0xff) as u8 == b5
            &&& ((x >> 16) & 0xff) as u8 == b6
            &&& x <= MAX_VER
        }),
{
    let (c4, c5, c6) = (b4 as u32, b5 as u32, b6 as u32);
    assert(c4 < 256 && c5 < 256 && c6 < 256 ==> ({
        let x: u32 = c4 | (c5 << 8) | (c6 << 16);
        &&& x & 0xff == c4
        &&& (x >> 8) & 0xff == c5
        &&& (x >> 16) & 0xff == c6
        &&& x <= 0xff_ffff
    })) by (bit_vector);
}

/// Two well-formed locators with the same packed form are equal.
pub proof fn lemma_value_bytes_injective(a: Value, b: Value)
    requires
        a.wf(),
        b.wf(),
        value_bytes(a) == value_bytes(b),
    ensures
        a == b,
{
    let (ao, bo, av, bv) = (a.off, b.off, a.ver, b.ver);
    assert(value_bytes(a)[0] == value_bytes(b)[0]);
    assert(value_bytes(a)[1] == value_bytes(b)[1]);
    assert(value_bytes(a)[2] == value_bytes(b)[2]);
    assert(value_bytes(a)[3] == value_bytes(b)[3]);
    assert(value_bytes(a)[4] == value_bytes(b)[4]);
    assert(value_bytes(a)[5] == value_bytes(b)[5]);
    assert(value_bytes(a)[6] == value_bytes(b)[6]);
    assert(((ao & 0xff) as u8 == (bo & 0xff) as u8 && ((ao >> 8) & 0xff) as u8 == ((bo >> 8)
        & 0xff) as u8 && ((ao >> 16) & 0xff) as u8 == ((bo >> 16) & 0xff) as u8 && ((ao >> 24)
        & 0xff) as u8 == ((bo >> 24) & 0xff) as u8) ==> ao == bo) by (bit_vector);
    assert((av <= 0xff_ffff && bv <= 0xff_ffff && (av & 0xff) as u8 == (bv & 0xff) as u8 && ((av
        >> 8) & 0xff) as u8 == ((bv >> 8) & 0xff) as u8 && ((av >> 16) & 0xff) as u8 == ((bv
        >> 16) & 0xff) as u8) ==> av == bv) by (bit_vector);
}

} // verus!
