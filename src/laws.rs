use crate::bucket::{append_step, sync_step, truncate_step, Bucket, PutPlan};
use crate::codec::{enc_index, encodes};
use crate::index::MemIndex;
use crate::page::{overlay, page_header_bytes, PAGE_HEADER_LEN};
use vstd::prelude::*;

verus! {

/// Read-your-writes: once a page written at `page_off` has been appended for
/// `key`, reading `key` goes to the active version's data file, at the first
/// payload byte of the appended record, and that record holds the written
/// bytes from `page_off` on: a data file `file` that ended where the record
/// went reads back exactly those bytes once the record follows it. Every
/// other key reads from where it did before.
pub proof fn lemma_read_your_writes(
    b0: Bucket,
    b1: Bucket,
    key: u32,
    block: u32,
    page_off: int,
    buf: Seq<u8>,
    base: Seq<u8>,
    file: Seq<u8>,
)
    requires
        b0.wf(),
        b1.wf(),
        append_step(b0, b1, key, block),
        0 <= page_off,
        page_off + buf.len() <= b0.page_size,
        base.len() == b0.page_size,
    ensures
        b1.read_loc(key as int) == Some(
            (b0.active_ver, b0.active_file.curr_off + PAGE_HEADER_LEN),
        ),
        (page_header_bytes(block) + overlay(base, page_off, buf)).subrange(
            PAGE_HEADER_LEN + page_off,
            PAGE_HEADER_LEN + page_off + buf.len(),
        ) == buf,
        forall|k: int| k != key ==> #[trigger] b1.read_loc(k) == b0.read_loc(k),
        file.len() == b0.active_file.curr_off ==> (file + page_header_bytes(block) + overlay(
            base,
            page_off,
            buf,
        )).subrange(
            b0.active_file.curr_off + PAGE_HEADER_LEN + page_off,
            b0.active_file.curr_off + PAGE_HEADER_LEN + page_off + buf.len(),
        ) == buf,
{
    let fps = b0.active_file.file_page_sz as int;
    let off = b0.active_file.curr_off as int;
    vstd::arithmetic::div_mod::lemma_fundamental_div_mod(off, fps);
    assert(block * fps == off) by (nonlinear_arith)
        requires
            off == fps * (off / fps) + off % fps,
            off % fps == 0,
            block == off / fps,
    ;
    let rec = page_header_bytes(block) + overlay(base, page_off, buf);
    if file.len() == off {
        assert((file + rec).subrange(
            off + PAGE_HEADER_LEN + page_off,
            off + PAGE_HEADER_LEN + page_off + buf.len(),
        ) =~= buf);
    }
    assert(rec.subrange(PAGE_HEADER_LEN + page_off, PAGE_HEADER_LEN + page_off + buf.len()) =~= buf);
    assert forall|k: int| k != key implies #[trigger] b1.read_loc(k) == b0.read_loc(k) by {
        assert(b1.index.locate(k) == b0.index.locate(k));
    }
}

/// Read-your-writes for a write done in place: the bytes go exactly where a
/// later read of the same key from the same offset looks, and the data file
/// with `buf` written there reads back `buf`.
pub proof fn lemma_overwrite_reads_back(
    b: Bucket,
    key: u32,
    page_off: u64,
    len: usize,
    store_ver: u32,
    ver: u32,
    byte_off: u64,
    file: Seq<u8>,
    buf: Seq<u8>,
)
    requires
        b.wf(),
        page_off + len <= b.page_size,
        b.spec_put_plan(key, page_off, len, store_ver) == Ok::<PutPlan, crate::error::Error>(
            PutPlan::Overwrite { ver, byte_off },
        ),
    ensures
        ver == b.active_ver,
        b.read_loc(key as int) matches Some((v, off)) && v == ver && off + page_off == byte_off,
        buf.len() == len && byte_off + len <= file.len() ==> overlay(file, byte_off as int, buf).subrange(
            byte_off as int,
            byte_off + len,
        ) == buf,
{
    if buf.len() == len && byte_off + len <= file.len() {
        assert(overlay(file, byte_off as int, buf).subrange(byte_off as int, byte_off + len) =~= buf);
    }
    let loc = b.index.locate(key as int).unwrap();
    assert(loc.off * b.file_page_sz() + PAGE_HEADER_LEN + page_off <= u64::MAX) by (nonlinear_arith)
        requires
            loc.off <= u32::MAX,
            b.file_page_sz() <= u32::MAX,
            page_off < u32::MAX,
    ;
}

/// A second write of the same key within one version is done in place: after
/// a page was appended for `key`, the next write of `key` through the same
/// handle overwrites that page and appends nothing.
pub proof fn lemma_second_write_in_place(
    b0: Bucket,
    b1: Bucket,
    key: u32,
    block: u32,
    page_off: u64,
    len: usize,
    store_ver: u32,
)
    requires
        b0.wf(),
        b1.wf(),
        append_step(b0, b1, key, block),
        b1.is_write,
        store_ver <= b1.active_ver,
    ensures
        b1.spec_put_plan(key, page_off, len, store_ver) == Ok::<PutPlan, crate::error::Error>(
            PutPlan::Overwrite {
                ver: b1.active_ver,
                byte_off: (b0.active_file.curr_off + PAGE_HEADER_LEN + page_off) as u64,
            },
        ),
{
    let fps = b0.active_file.file_page_sz as int;
    let off = b0.active_file.curr_off as int;
    vstd::arithmetic::div_mod::lemma_fundamental_div_mod(off, fps);
    assert(block * fps == off) by (nonlinear_arith)
        requires
            off == fps * (off / fps) + off % fps,
            off % fps == 0,
            block == off / fps,
    ;
}

/// Writes never touch an older version's data file: a write is either
/// refused, appended to the active version's file, or done in place in a
/// page that already belongs to the active version. A handle opened before
/// a later commit is refused.
pub proof fn lemma_writes_stay_in_active_version(
    b: Bucket,
    key: u32,
    page_off: u64,
    len: usize,
    store_ver: u32,
)
    requires
        b.wf(),
    ensures
        b.spec_put_plan(key, page_off, len, store_ver) matches Ok(PutPlan::Overwrite { ver, .. })
            ==> ver == b.active_ver,
        b.active_ver < store_ver ==> b.spec_put_plan(key, page_off, len, store_ver) is Err,
{
}

/// Truncating to `n` bytes makes every key from `n / page_size` on read as
/// not found; when `n` is a whole number of pages the logical size is `n`.
pub proof fn lemma_truncate_size(b0: Bucket, b1: Bucket, n: usize)
    requires
        b0.wf(),
        truncate_step(b0, b1, n),
    ensures
        n as int % b0.page_size as int == 0 ==> b1.spec_logical_size() == n,
        forall|k: int| k >= n as int / b0.page_size as int ==> #[trigger] b1.read_loc(k) is None,
{
    let p = b0.page_size as int;
    vstd::arithmetic::div_mod::lemma_fundamental_div_mod(n as int, p);
    assert(b1.spec_logical_size() == p * (n as int / p));
    assert forall|k: int| k >= n as int / p implies #[trigger] b1.read_loc(k) is None by {
        assert(b1.index.locate(k) is None);
    }
}

/// After a sync, every allocated locator's version lies between the index's
/// `min_ver` and the active version, and is in `vset`.
pub proof fn lemma_locators_within_versions(b0: Bucket, b1: Bucket)
    requires
        b0.wf(),
        sync_step(b0, b1),
    ensures
        forall|k: int|
            #[trigger] b1.index.locate(k) is Some ==> {
                let v = b1.index.locate(k).unwrap().ver;
                &&& b1.index.header.min_ver <= v <= b1.active_ver
                &&& b1.index.header.vset@.contains(v)
            },
{
    assert forall|k: int| #[trigger] b1.index.locate(k) is Some implies {
        let v = b1.index.locate(k).unwrap().ver;
        &&& b1.index.header.min_ver <= v <= b1.active_ver
        &&& b1.index.header.vset@.contains(v)
    } by {
        let v = b1.index.kmap.loc(k).ver;
        assert(b0.index.kmap.loc(k).ver == v);
        assert(b0.index.kmap.live_versions().contains(v));
        assert(b1.index.header.vset@.to_set().contains(v));
    }
}

/// Round trip: the bytes `encode_index` gives for a well-formed index are
/// an encoding of it, so `decode_index` reads them back as an index equal to
/// it in every header field and every slot.
pub proof fn lemma_index_round_trip(x: MemIndex)
    requires
        x.wf(),
    ensures
        encodes(enc_index(x), x),
{
}

} // verus!
