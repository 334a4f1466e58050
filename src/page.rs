use vstd::prelude::*;

verus! {

/// Length of the header in front of every page of a data file.
pub const PAGE_HEADER_LEN: usize = 8;

/// Little-endian bytes of a 32-bit number.
pub open spec fn u32_le(x: u32) -> Seq<u8> {
    seq![
        (x & 0xff) as u8,
        ((x >> 8) & 0xff) as u8,
        ((x >> 16) & 0xff) as u8,
        ((x >> 24) & 0xff) as u8,
    ]
}

/// The page header: ASCII "mojo", then the block number, little-endian.
pub open spec fn page_header_bytes(block_no: u32) -> Seq<u8> {
    seq![0x6du8, 0x6fu8, 0x6au8, 0x6fu8] + u32_le(block_no)
}

/// `page` with `buf` written over it from `page_off` on.
pub open spec fn overlay(page: Seq<u8>, page_off: int, buf: Seq<u8>) -> Seq<u8> {
    page.subrange(0, page_off) + buf + page.subrange(page_off + buf.len(), page.len() as int)
}

/// Appends the little-endian bytes of `x` to `out`.
pub fn push_u32_le(out: &mut Vec<u8>, x: u32)
    ensures
        final(out)@ == old(out)@ + u32_le(x),
{
    out.push((x & 0xff) as u8);
    out.push(((x >> 8) & 0xff) as u8);
    out.push(((x >> 16) & 0xff) as u8);
    out.push(((x >> 24) & 0xff) as u8);
    assert(final(out)@ =~= old(out)@ + u32_le(x));
}

pub struct PageHeader {
    pub block_no: u32,
}

impl PageHeader {
    pub fn new() -> (r: PageHeader)
        ensures
            r.block_no == 0,
    {
        PageHeader { block_no: 0 }
    }

    /// The 8 header bytes.
    pub fn encode(&self) -> (r: Vec<u8>)
        ensures
            r@ == page_header_bytes(self.block_no),
    {
        let mut buf: Vec<u8> = Vec::new();
        buf.push(0x6d);
        buf.push(0x6f);
        buf.push(0x6a);
        buf.push(0x6f);
        push_u32_le(&mut buf, self.block_no);
        assert(buf@ =~= page_header_bytes(self.block_no));
        buf
    }
}

/// Where the next page of an append-only data file goes. Every record is a
/// header followed by a full page, so record `n` starts at `n * file_page_sz`.
pub struct NixFile {
    pub curr_off: u64,
    pub file_page_sz: u64,
}

impl NixFile {
    pub open spec fn wf(&self) -> bool {
        &&& PAGE_HEADER_LEN < self.file_page_sz <= u32::MAX as u64
        &&& self.curr_off % self.file_page_sz == 0
        &&& self.curr_off / self.file_page_sz <= u32::MAX
    }

    /// Tracks a data file of `end_off` bytes: the next record goes at its
    /// end. A data file holds whole records only.
    pub fn open(end_off: u64, file_page_sz: u64) -> (r: NixFile)
        requires
            PAGE_HEADER_LEN < file_page_sz <= u32::MAX as u64,
            end_off % file_page_sz == 0,
            end_off / file_page_sz <= u32::MAX,
        ensures
            r.wf(),
            r.file_page_sz == file_page_sz,
            r.curr_off == end_off,
    {
        NixFile { curr_off: end_off, file_page_sz }
    }

    /// Whether a data file of `end_off` bytes can be tracked: it holds whole
    /// records, no more of them than block numbers allow.
    pub fn can_open(end_off: u64, file_page_sz: u64) -> (r: bool)
        requires
            PAGE_HEADER_LEN < file_page_sz,
        ensures
            r == (end_off % file_page_sz == 0 && end_off / file_page_sz <= u32::MAX),
    {
        end_off % file_page_sz == 0 && end_off / file_page_sz <= u32::MAX as u64
    }

    pub fn header_len() -> (r: usize)
        ensures
            r == PAGE_HEADER_LEN,
    {
        PAGE_HEADER_LEN
    }

    /// The block number the next append gets.
    pub fn next_block(&self) -> (r: u32)
        requires
            self.wf(),
        ensures
            r == self.curr_off / self.file_page_sz,
    {
        (self.curr_off / self.file_page_sz) as u32
    }

    /// Reserves the next record and returns its byte offset.
    pub fn write_buf(&mut self) -> (r: u64)
        requires
            old(self).wf(),
            old(self).curr_off / old(self).file_page_sz < u32::MAX,
        ensures
            final(self).wf(),
            final(self).file_page_sz == old(self).file_page_sz,
            r == old(self).curr_off,
            final(self).curr_off == old(self).curr_off + old(self).file_page_sz,
            final(self).curr_off / final(self).file_page_sz == r / old(self).file_page_sz + 1,
    {
        let fps = self.file_page_sz;
        let off = self.curr_off;
        proof {
            vstd::arithmetic::div_mod::lemma_fundamental_div_mod(off as int, fps as int);
            let q = off / fps;
            assert(off + fps == fps * (q + 1)) by (nonlinear_arith)
                requires
                    off == fps * q + off % fps,
                    off % fps == 0,
            ;
            assert(fps * (q + 1) <= 0xffff_ffffu64 * 0xffff_ffffu64) by (nonlinear_arith)
                requires
                    q + 1 <= 0xffff_ffffu64,
                    0 < fps <= 0xffff_ffffu64,
            ;
            vstd::arithmetic::div_mod::lemma_div_multiples_vanish(q + 1, fps as int);
            vstd::arithmetic::div_mod::lemma_mod_multiples_basic(q + 1, fps as int);
            assert(fps * (q + 1) == (q + 1) * fps) by (nonlinear_arith);
        }
        self.curr_off = off + fps;
        off
    }
}

/// The framed record for a page: header, then `buf` written over `base`
/// (the page's earlier content, or zeros) from `page_off` on.
pub fn frame_record(block_no: u32, base: Option<&Vec<u8>>, page_size: usize, page_off: usize, buf: &[u8]) -> (r: Vec<u8>)
    requires
        page_off + buf@.len() <= page_size,
        base matches Some(b) ==> b@.len() == page_size,
    ensures
        r@ == page_header_bytes(block_no) + overlay(
            match base {
                Some(b) => b@,
                None => Seq::new(page_size as nat, |i: int| 0u8),
            },
            page_off as int,
            buf@,
        ),
{
    let ghost page = match base {
        Some(b) => b@,
        None => Seq::new(page_size as nat, |i: int| 0u8),
    };
    let h = PageHeader { block_no };
    let mut out = h.encode();
    let ghost hdr = out@;
    let mut i: usize = 0;
    while i < page_size
        invariant
            i <= page_size,
            page.len() == page_size,
            page_off + buf@.len() <= page_size,
            base matches Some(b) ==> b@ == page,
            base is None ==> page == Seq::new(page_size as nat, |i: int| 0u8),
            out@.len() == hdr.len() + i,
            out@.subrange(0, hdr.len() as int) == hdr,
            forall|j: int|
                0 <= j < i ==> #[trigger] out@[hdr.len() + j] == if page_off <= j < page_off
                    + buf@.len() {
                    buf@[j - page_off]
                } else {
                    page[j]
                },
        decreases page_size - i,
    {
        let byte = if page_off <= i && i < page_off + buf.len() {
            buf[i - page_off]
        } else {
            match base {
                Some(b) => b[i],
                None => 0u8,
            }
        };
        out.push(byte);
        proof {
            assert(out@.subrange(0, hdr.len() as int) =~= hdr);
        }
        i = i + 1;
    }
    proof {
        let want = hdr + overlay(page, page_off as int, buf@);
        assert forall|j: int| 0 <= j < out@.len() implies out@[j] == want[j] by {
            if j < hdr.len() {
                assert(out@[j] == out@.subrange(0, hdr.len() as int)[j]);
            } else {
                let t = j - hdr.len();
                assert(out@[hdr.len() + t] == out@[j]);
            }
        }
        assert(out@ =~= want);
    }
    out
}

/// Byte offset of the payload of block `block_no`, plus `page_off`.
pub fn payload_offset(block_no: u32, file_page_sz: u64, page_off: u64) -> (r: u64)
    requires
        block_no as int * file_page_sz as int + PAGE_HEADER_LEN + page_off <= u64::MAX,
    ensures
        r == block_no as int * file_page_sz as int + PAGE_HEADER_LEN + page_off,
{
    proof {
        assert(0 <= block_no as int * file_page_sz as int) by (nonlinear_arith);
    }
    block_no as u64 * file_page_sz + PAGE_HEADER_LEN as u64 + page_off
}

} // verus!
