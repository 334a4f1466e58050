use crate::bucket::Bucket;
use crate::error::Error;
use crate::store::Store;
use crate::value::MAX_VER;
use vstd::prelude::*;
use vstd::string::StringSliceAdditionalSpecFns;

verus! {

/// Default number of pages per slot.
pub const DEFAULT_PPS: u32 = 65536;

/// Value of a string of ASCII decimal digits.
pub open spec fn digits_value(s: Seq<u8>) -> int
    decreases s.len(),
{
    if s.len() == 0 {
        0
    } else {
        digits_value(s.drop_last()) * 10 + (s.last() - 48)
    }
}

pub open spec fn all_digits(s: Seq<u8>) -> bool {
    forall|i: int| 0 <= i < s.len() ==> 48 <= #[trigger] s[i] <= 57
}

/// The digits of a number as text: after an optional leading `+`.
pub open spec fn unsigned_digits(s: Seq<u8>) -> Seq<u8> {
    if s.len() > 0 && s[0] == 43 {
        s.drop_first()
    } else {
        s
    }
}

/// What parsing the UTF-8 text `s` as a `u32` gives: an optional `+`, then
/// one or more decimal digits whose value fits in 32 bits.
pub open spec fn parsed_u32(s: Seq<u8>) -> Option<u32> {
    let d = unsigned_digits(s);
    if d.len() > 0 && all_digits(d) && digits_value(d) <= u32::MAX {
        Some(digits_value(d) as u32)
    } else {
        None
    }
}

proof fn lemma_digits_value_nonneg(s: Seq<u8>)
    requires
        all_digits(s),
    ensures
        digits_value(s) >= 0,
    decreases s.len(),
{
    if s.len() > 0 {
        lemma_digits_value_nonneg(s.drop_last());
    }
}

proof fn lemma_digits_value_grows(s: Seq<u8>, t: Seq<u8>)
    requires
        all_digits(t),
        s.len() <= t.len(),
        s == t.subrange(0, s.len() as int),
    ensures
        digits_value(s) <= digits_value(t),
    decreases t.len(),
{
    if s.len() < t.len() {
        let u = t.drop_last();
        assert(s == u.subrange(0, s.len() as int));
        lemma_digits_value_grows(s, u);
        lemma_digits_value_nonneg(u);
    } else {
        assert(s =~= t);
    }
}

/// Parses a decimal `u32`, as `str::parse::<u32>` does.
pub fn parse_u32(s: &str) -> (r: Option<u32>)
    ensures
        r == parsed_u32(s.spec_bytes()),
{
    let b = s.as_bytes();
    let ghost d = unsigned_digits(b@);
    let start: usize = if b.len() > 0 && b[0] == 43 {
        1
    } else {
        0
    };
    if start >= b.len() {
        return None;
    }
    let mut acc: u64 = 0;
    let mut i: usize = start;
    while i < b.len()
        invariant
            b@ == s.spec_bytes(),
            d == unsigned_digits(b@),
            d =~= b@.subrange(start as int, b@.len() as int),
            start <= i <= b@.len(),
            all_digits(b@.subrange(start as int, i as int)),
            acc == digits_value(b@.subrange(start as int, i as int)),
            acc <= u32::MAX,
        decreases b@.len() - i,
    {
        let c = b[i];
        if c < 48 || c > 57 {
            assert(d[i - start] == c);
            assert(!all_digits(d));
            return None;
        }
        let ghost prev = b@.subrange(start as int, i as int);
        acc = acc * 10 + (c - 48) as u64;
        i = i + 1;
        proof {
            let cur = b@.subrange(start as int, i as int);
            assert(cur.drop_last() =~= prev);
            assert(cur.last() == c);
            assert(acc == digits_value(cur));
            assert(all_digits(cur));
        }
        if acc > u32::MAX as u64 {
            proof {
                let cur = b@.subrange(start as int, i as int);
                assert(cur =~= d.subrange(0, i - start));
                if all_digits(d) {
                    lemma_digits_value_grows(cur, d);
                    assert(digits_value(d) > u32::MAX);
                }
            }
            return None;
        }
    }
    assert(b@.subrange(start as int, i as int) =~= d);
    Some(acc as u32)
}

/// A parameter's value: parsed when given, `default` when absent.
pub open spec fn param_value(s: Option<&str>, default: u32) -> Option<u32> {
    match s {
        Some(t) => parsed_u32(t.spec_bytes()),
        None => Some(default),
    }
}

fn parse_param(s: Option<&str>, default: u32) -> (r: Result<u32, Error>)
    ensures
        match param_value(s, default) {
            Some(v) => r == Ok::<u32, Error>(v),
            None => r == Err::<u32, Error>(Error::ParseIntErr),
        },
{
    match s {
        Some(t) => match parse_u32(t) {
            Some(v) => Ok(v),
            None => Err(Error::ParseIntErr),
        },
        None => Ok(default),
    }
}

/// Store options of the block-device shim.
#[derive(Clone, Copy, Debug, PartialEq, Eq, Structural)]
pub struct FSOptions {
    pub ver: u32,
    pub pagesz: u32,
    pub pps: u32,
}

/// Options handed to a file opened through the shim.
#[derive(Clone, Copy, Debug, PartialEq, Eq, Structural)]
pub struct KVFileOpt {
    pub page_sz: u32,
    pub pps: u32,
    pub ver: u32,
}

impl FSOptions {
    pub fn new() -> (r: FSOptions)
        ensures
            r == (FSOptions { ver: 0, pagesz: 0, pps: 0 }),
    {
        FSOptions { ver: 0, pagesz: 0, pps: 0 }
    }

    /// Reads the `ver` (default 1), `pagesz` (mandatory) and `pps` (default
    /// 65536) parameters.
    pub fn parse(ver: Option<&str>, pagesz: Option<&str>, pps: Option<&str>) -> (r: Result<
        FSOptions,
        Error,
    >)
        ensures
            param_value(ver, 1) is None ==> r == Err::<FSOptions, Error>(Error::ParseIntErr),
            param_value(ver, 1) is Some && pagesz is None ==> r == Err::<FSOptions, Error>(
                Error::MissingArgsErr,
            ),
            param_value(ver, 1) is Some && pagesz is Some && (param_value(pagesz, 0) is None
                || param_value(pps, DEFAULT_PPS) is None) ==> r == Err::<FSOptions, Error>(
                Error::ParseIntErr,
            ),
            param_value(ver, 1) is Some && pagesz is Some && param_value(pagesz, 0) is Some
                && param_value(pps, DEFAULT_PPS) is Some ==> r == Ok::<FSOptions, Error>(
                FSOptions {
                    ver: param_value(ver, 1).unwrap(),
                    pagesz: param_value(pagesz, 0).unwrap(),
                    pps: param_value(pps, DEFAULT_PPS).unwrap(),
                },
            ),
    {
        let v = parse_param(ver, 1)?;
        if pagesz.is_none() {
            return Err(Error::MissingArgsErr);
        }
        let p = parse_param(pagesz, 0)?;
        let n = parse_param(pps, DEFAULT_PPS)?;
        Ok(FSOptions { ver: v, pagesz: p, pps: n })
    }

    pub fn to_kvfile_opt(&self) -> (r: KVFileOpt)
        ensures
            r == (KVFileOpt { page_sz: self.pagesz, pps: self.pps, ver: self.ver }),
    {
        KVFileOpt { page_sz: self.pagesz, pps: self.pps, ver: self.ver }
    }
}

/// The part of a byte range that falls in one page: bytes `[start, end)` of
/// the caller's buffer go to page `key` from `page_off` on.
#[derive(Clone, Copy, Debug, PartialEq, Eq, Structural)]
pub struct PageSlice {
    pub key: u32,
    pub page_off: u32,
    pub start: usize,
    pub end: usize,
}

proof fn lemma_page_of(pos: int, ps: int)
    requires
        0 < ps,
        0 <= pos < ps * 0x1_0000_0000,
    ensures
        0 <= pos % ps < ps,
        0 <= pos / ps <= u32::MAX,
        (pos / ps) * ps + pos % ps == pos,
{
    vstd::arithmetic::div_mod::lemma_fundamental_div_mod(pos, ps);
    vstd::arithmetic::div_mod::lemma_mod_pos_bound(pos, ps);
    let q = pos / ps;
    let m = pos % ps;
    assert(q * ps + m == pos) by (nonlinear_arith)
        requires
            pos == ps * q + m,
    ;
    assert(0 <= q) by (nonlinear_arith)
        requires
            pos == ps * q + m,
            0 <= pos,
            m < ps,
            0 < ps,
    ;
    assert(q < 0x1_0000_0000) by (nonlinear_arith)
        requires
            pos == ps * q + m,
            0 <= m,
            pos < ps * 0x1_0000_0000,
            0 < ps,
    ;
}

/// Cuts the byte range `[off, off + len)` at page boundaries.
pub fn split_range(off: u64, len: usize, page_sz: u32) -> (r: Vec<PageSlice>)
    requires
        page_sz > 0,
        off + len <= page_sz as int * (u32::MAX as int + 1),
    ensures
        len == 0 <==> r@.len() == 0,
        r@.len() > 0 ==> r@[0].start == 0 && r@[r@.len() - 1].end == len,
        forall|i: int| 0 <= i < r@.len() - 1 ==> (#[trigger] r@[i]).end == r@[i + 1].start,
        forall|i: int|
            0 <= i < r@.len() ==> {
                let p = #[trigger] r@[i];
                &&& p.start < p.end
                &&& p.key * page_sz + p.page_off == off + p.start
                &&& p.page_off < page_sz
                &&& p.page_off + (p.end - p.start) <= page_sz
                &&& (p.end == len || p.page_off + (p.end - p.start) == page_sz)
            },
{
    let mut out: Vec<PageSlice> = Vec::new();
    let mut s: usize = 0;
    let ps = page_sz as u64;
    while s < len
        invariant
            page_sz > 0,
            ps == page_sz,
            off + len <= page_sz as int * (u32::MAX as int + 1),
            s <= len,
            out@.len() == 0 <==> s == 0,
            out@.len() > 0 ==> out@[0].start == 0 && out@[out@.len() - 1].end == s,
            forall|i: int| 0 <= i < out@.len() - 1 ==> (#[trigger] out@[i]).end == out@[i + 1].start,
            forall|i: int|
                0 <= i < out@.len() ==> {
                    let p = #[trigger] out@[i];
                    &&& p.start < p.end
                    &&& p.key * page_sz + p.page_off == off + p.start
                    &&& p.page_off < page_sz
                    &&& p.page_off + (p.end - p.start) <= page_sz
                    &&& (p.end == len || p.page_off + (p.end - p.start) == page_sz)
                },
        decreases len - s,
    {
        let pos = off + s as u64;
        let key = pos / ps;
        let po = pos % ps;
        proof {
            lemma_page_of(pos as int, ps as int);
        }
        let room = (ps - po) as usize;
        let e = if len - s < room {
            len - s
        } else {
            room
        };
        let ghost before = out@;
        out.push(PageSlice { key: key as u32, page_off: po as u32, start: s, end: s + e });
        s = s + e;
    }
    out
}

/// Zeroes `buf` from position `n` on (the part a short read left unfilled).
pub fn zero_tail(buf: &mut Vec<u8>, n: usize)
    ensures
        final(buf)@.len() == old(buf)@.len(),
        forall|j: int|
            0 <= j < old(buf)@.len() ==> #[trigger] final(buf)@[j] == if j < n {
                old(buf)@[j]
            } else {
                0u8
            },
{
    let mut i: usize = n;
    while i < buf.len()
        invariant
            n <= i,
            buf@.len() == old(buf)@.len(),
            forall|j: int|
                0 <= j < buf@.len() ==> #[trigger] buf@[j] == if j < n || j >= i {
                    old(buf)@[j]
                } else {
                    0u8
                },
        decreases buf@.len() - i,
    {
        buf.set(i, 0);
        i = i + 1;
    }
}

/// The file-system front of the shim: its options and the store behind it.
pub struct VFS {
    pub store: Option<Store>,
    pub file_counter: usize,
    pub fopt: FSOptions,
}

impl VFS {
    pub open spec fn wf(&self) -> bool {
        self.store matches Some(st) ==> st.wf()
    }

    pub fn new() -> (r: VFS)
        ensures
            r.wf(),
            r.store is None,
            r.file_counter == 0,
    {
        VFS { store: None, file_counter: 0, fopt: FSOptions::new() }
    }

    pub fn name(&self) -> (r: String)
        ensures
            r@ == "mojo"@,
    {
        "mojo".to_owned()
    }

    pub fn fs_options(&self) -> (r: FSOptions)
        ensures
            r == self.fopt,
    {
        self.fopt
    }

    /// Takes the options the store was opened with and the store itself.
    pub fn init(&mut self, fopt: FSOptions, store: Store)
        requires
            store.wf(),
        ensures
            final(self).wf(),
            final(self).fopt == fopt,
            final(self).store == Some(store),
            final(self).file_counter == old(self).file_counter,
    {
        self.fopt = fopt;
        self.store = Some(store);
    }

    pub fn active_ver(&self) -> (r: u32)
        requires
            self.store is Some,
        ensures
            r == self.store.unwrap().state.inner.active_ver,
    {
        match &self.store {
            Some(st) => st.active_ver(),
            None => 0,
        }
    }

    /// A fresh file number, for naming unnamed files.
    pub fn next_file_id(&mut self) -> (r: usize)
        requires
            old(self).file_counter < usize::MAX,
        ensures
            r == old(self).file_counter + 1,
            *final(self) == (VFS { file_counter: r, ..*old(self) }),
    {
        self.file_counter = self.file_counter + 1;
        self.file_counter
    }

    /// Whether bucket `name` exists.
    pub fn access(&self, name: &str) -> (r: Result<bool, Error>)
        requires
            self.wf(),
            self.store is Some,
        ensures
            r == Ok::<bool, Error>(self.store.unwrap().bmap.view().contains_key(name@)),
    {
        match &self.store {
            Some(st) => Ok(st.contains(name)),
            None => Ok(false),
        }
    }

    /// Forgets bucket `name`; returns the version whose files of it are to be
    /// removed.
    pub fn delete(&mut self, name: &str) -> (r: Result<u32, Error>)
        requires
            old(self).wf(),
            old(self).store is Some,
        ensures
            final(self).wf(),
            final(self).store is Some,
            final(self).store.unwrap().bmap.view() == old(self).store.unwrap().bmap.view().remove(
                name@,
            ),
            old(self).store.unwrap().bmap.view().contains_key(name@) <==> r is Ok,
            r matches Ok(v) ==> v == old(self).store.unwrap().state.inner.active_ver,
    {
        match self.store.take() {
            Some(mut st) => {
                let r = st.delete(name);
                self.store = Some(st);
                r
            },
            None => Err(Error::StoreNotFoundErr),
        }
    }

    /// Commits the store once the caller holds the commit lock (`locked`).
    pub fn commit(&mut self, locked: bool) -> (r: Result<u32, Error>)
        requires
            old(self).wf(),
            old(self).store is Some,
        ensures
            final(self).wf(),
            final(self).store is Some,
            !locked ==> r == Err::<u32, Error>(Error::CommitLockedErr),
            locked && old(self).store.unwrap().state.inner.active_ver < MAX_VER ==> r == Ok::<
                u32,
                Error,
            >((old(self).store.unwrap().state.inner.active_ver + 1) as u32)
                && final(self).store.unwrap().state.inner.active_ver == r.unwrap(),
    {
        match self.store.take() {
            Some(mut st) => {
                let r = st.commit(locked);
                self.store = Some(st);
                r
            },
            None => Err(Error::StoreNotFoundErr),
        }
    }
}

/// The bytes a logical file of this bucket spans.
pub fn filesize(b: &Bucket) -> (r: u64)
    requires
        b.wf(),
    ensures
        r == b.spec_logical_size(),
{
    b.logical_size()
}

/// A truncation size must be a whole number of pages; the error carries
/// what is left over.
pub fn validate_truncate_size(sz: usize, page_size: u32) -> (r: Result<(), Error>)
    requires
        page_size > 0,
    ensures
        r is Ok <==> sz % (page_size as usize) == 0,
        r is Err ==> r == Err::<(), Error>(
            Error::KeyNotMultipleErr((sz % (page_size as usize)) as u32),
        ),
{
    let rem = sz % (page_size as usize);
    if rem != 0 {
        return Err(Error::KeyNotMultipleErr(rem as u32));
    }
    Ok(())
}

/// What a read of part of a page gives the block device: the bytes read,
/// or none for a page never written (the caller zero-fills it); any other
/// error stays.
pub fn page_read_or_hole(r: Result<usize, Error>) -> (o: Result<usize, Error>)
    ensures
        match r {
            Ok(n) => o == Ok::<usize, Error>(n),
            Err(Error::KeyNotFoundErr(_)) => o == Ok::<usize, Error>(0),
            Err(e) => o == Err::<usize, Error>(e),
        },
{
    match r {
        Ok(n) => Ok(n),
        Err(Error::KeyNotFoundErr(_)) => Ok(0),
        Err(e) => Err(e),
    }
}

/// Logical size of a file whose largest page key is `max_key` (`-1` when
/// empty): every page up to it, holes included.
pub fn logical_size(page_size: u32, max_key: i64) -> (r: u64)
    requires
        -1 <= max_key <= u32::MAX,
    ensures
        r == page_size * (max_key + 1),
{
    let n = (max_key + 1) as u64;
    proof {
        assert(page_size * n <= 0xffff_ffffu64 * 0x1_0000_0000u64) by (nonlinear_arith)
            requires
                page_size <= 0xffff_ffffu64,
                n <= 0x1_0000_0000u64,
        ;
    }
    page_size as u64 * n
}

} // verus!
