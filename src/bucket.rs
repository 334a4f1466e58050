use crate::error::Error;
use crate::index::MemIndex;
use crate::page::{frame_record, overlay, page_header_bytes, payload_offset, NixFile, PAGE_HEADER_LEN};
use crate::state::State;
use crate::value::Value;
use vstd::prelude::*;

verus! {

/// What a write of part of a page needs done on disk.
#[derive(Debug, Clone, Copy)]
pub enum PutPlan {
    /// The page already has a copy in the active version: write the bytes at
    /// `byte_off` of that version's data file.
    Overwrite { ver: u32, byte_off: u64 },
    /// Append a new record to the active version's data file. When the write
    /// covers only part of the page, `base` says where the page's current
    /// payload lies (version, byte offset), to be copied under the new bytes.
    Append { base: Option<(u32, u64)> },
}

/// `b1` is `b0` after a record for `key` was appended as block `block` of
/// the active version's data file.
pub open spec fn append_step(b0: Bucket, b1: Bucket, key: u32, block: u32) -> bool {
    &&& block == b0.active_file.curr_off / b0.active_file.file_page_sz
    &&& b1.active_file.curr_off == b0.active_file.curr_off + b0.active_file.file_page_sz
    &&& b1.active_file.file_page_sz == b0.active_file.file_page_sz
    &&& b1.index.locate(key as int) == Some(Value { off: block, ver: b0.active_ver })
    &&& forall|k: int| k != key ==> #[trigger] b1.index.locate(k) == b0.index.locate(k)
    &&& b1.active_ver == b0.active_ver
    &&& b1.page_size == b0.page_size
    &&& b1.is_write == b0.is_write
}

/// `b1` is `b0` truncated to `new_sz` bytes.
pub open spec fn truncate_step(b0: Bucket, b1: Bucket, new_sz: usize) -> bool {
    &&& b1.page_size == b0.page_size
    &&& b1.active_ver == b0.active_ver
    &&& b1.index.header.max_key == new_sz as int / b0.page_size as int - 1
    &&& forall|k: int|
        #[trigger] b1.index.locate(k) == if k >= new_sz as int / b0.page_size as int {
            None
        } else {
            b0.index.locate(k)
        }
}

/// `b1` is `b0` after a sync: same locators, `vset` recomputed from them.
pub open spec fn sync_step(b0: Bucket, b1: Bucket) -> bool {
    &&& b1.wf()
    &&& b1.index.kmap == b0.index.kmap
    &&& b1.active_ver == b0.active_ver
    &&& b1.index.header.vset@.to_set() == b0.index.kmap.live_versions()
    &&& forall|v: u32|
        #[trigger] b1.index.header.vset@.contains(v) ==> b1.index.header.min_ver <= v
            <= b1.index.header.max_ver
    &&& b1.index.header.vset@.len() > 0 ==> b1.index.header.vset@.contains(b1.index.header.min_ver)
        && b1.index.header.vset@.contains(b1.index.header.max_ver)
    &&& b1.index.header.vset@.len() == 0 ==> b1.index.header.min_ver == b1.active_ver
        && b1.index.header.max_ver == b1.active_ver
}

/// One logical file: an index of page locators over per-version data files.
/// The data files themselves are read and written by the caller, as told
/// by the plans this type hands out.
pub struct Bucket {
    pub name: String,
    pub index: MemIndex,
    pub page_size: u32,
    /// The version this handle writes to, fixed when it was opened.
    pub active_ver: u32,
    /// Append position in the active version's data file.
    pub active_file: NixFile,
    pub is_write: bool,
    pub is_dirty: bool,
    pub is_modified: bool,
    pub is_closed: bool,
}

impl Bucket {
    pub open spec fn wf(&self) -> bool {
        &&& self.index.wf()
        &&& self.index.header.active_ver == self.active_ver
        &&& self.active_file.wf()
        &&& self.page_size > 0
        &&& self.active_file.file_page_sz == self.page_size + PAGE_HEADER_LEN
    }

    pub open spec fn file_page_sz(&self) -> int {
        self.page_size + PAGE_HEADER_LEN
    }

    /// Where the payload of key `k` lies: its version and the byte offset of
    /// its first payload byte in that version's data file.
    pub open spec fn read_loc(&self, k: int) -> Option<(u32, int)> {
        match self.index.locate(k) {
            Some(v) => Some((v.ver, v.off * self.file_page_sz() + PAGE_HEADER_LEN)),
            None => None,
        }
    }

    /// Logical size in bytes: every page up to the largest key.
    pub open spec fn spec_logical_size(&self) -> int {
        self.page_size * (self.index.header.max_key + 1)
    }

    /// The plan `put_plan` hands out.
    pub open spec fn spec_put_plan(&self, key: u32, page_off: u64, len: usize, store_ver: u32) -> Result<
        PutPlan,
        Error,
    > {
        if !self.is_write {
            Err(Error::BucketNotWritableErr)
        } else if self.active_ver < store_ver {
            Err(Error::VerNotWritable(self.active_ver, store_ver))
        } else {
            match self.index.locate(key as int) {
                Some(v) => if v.ver == self.active_ver {
                    Ok(
                        PutPlan::Overwrite {
                            ver: v.ver,
                            byte_off: (v.off * self.file_page_sz() + PAGE_HEADER_LEN
                                + page_off) as u64,
                        },
                    )
                } else if page_off == 0 && len == self.page_size {
                    Ok(PutPlan::Append { base: None })
                } else {
                    Ok(
                        PutPlan::Append {
                            base: Some(
                                (v.ver, (v.off * self.file_page_sz() + PAGE_HEADER_LEN) as u64),
                            ),
                        },
                    )
                },
                None => Ok(PutPlan::Append { base: None }),
            }
        }
    }

    /// A new, empty bucket at the state's active version; the active data
    /// file currently holds `active_end` bytes.
    pub fn new(name: &str, state: &State, active_end: u64) -> (r: Bucket)
        requires
            state.wf(),
            state.inner.page_sz + PAGE_HEADER_LEN <= u32::MAX,
            active_end % (state.inner.page_sz + PAGE_HEADER_LEN) as u64 == 0,
            active_end / (state.inner.page_sz + PAGE_HEADER_LEN) as u64 <= u32::MAX,
        ensures
            r.wf(),
            r.name@ == name@,
            r.active_ver == state.inner.active_ver,
            r.page_size == state.inner.page_sz,
            r.index.header.pps == state.inner.pps,
            r.index.header.max_key == -1,
            forall|k: int| #[trigger] r.index.locate(k) is None,
            forall|k: int| #[trigger] r.index.kmap.lookup(k) is None,
            r.active_file.curr_off == active_end,
            !r.is_write && !r.is_dirty && !r.is_modified && !r.is_closed,
    {
        let mut index = MemIndex::new(state.pps() as usize);
        let ghost fresh = index;
        index.set_active_ver(state.active_ver());
        assert forall|k: int| #[trigger] index.locate(k) is None by {
            assert(fresh.locate(k) is None);
        }
        assert forall|k: int| #[trigger] index.kmap.lookup(k) is None by {
            assert(fresh.kmap.lookup(k) is None);
        }
        let fps = state.page_size() as u64 + PAGE_HEADER_LEN as u64;
        Bucket {
            name: name.to_owned(),
            index,
            page_size: state.page_size(),
            active_ver: state.active_ver(),
            active_file: NixFile::open(active_end, fps),
            is_write: false,
            is_dirty: false,
            is_modified: false,
            is_closed: false,
        }
    }

    /// Whether the index of a bucket at version `ver` may be loaded.
    pub fn check_version(state: &State, ver: u32) -> (r: Result<(), Error>)
        ensures
            r is Ok <==> state.inner.min_ver <= ver <= state.inner.active_ver,
            r is Err ==> r == Err::<(), Error>(Error::VersionNotFoundErr(ver)),
    {
        if ver < state.min_ver() || ver > state.active_ver() {
            Err(Error::VersionNotFoundErr(ver))
        } else {
            Ok(())
        }
    }

    /// Binds an index read back from version `ver` to the store's active
    /// version, so that later writes are tagged with it.
    pub fn load(name: &str, state: &State, ver: u32, index: MemIndex, active_end: u64) -> (r:
        Result<Bucket, Error>)
        requires
            state.wf(),
            state.inner.page_sz + PAGE_HEADER_LEN <= u32::MAX,
            active_end % (state.inner.page_sz + PAGE_HEADER_LEN) as u64 == 0,
            active_end / (state.inner.page_sz + PAGE_HEADER_LEN) as u64 <= u32::MAX,
            index.wf(),
        ensures
            !(state.inner.min_ver <= ver <= state.inner.active_ver) ==> r == Err::<Bucket, Error>(
                Error::VersionNotFoundErr(ver),
            ),
            (state.inner.min_ver <= ver <= state.inner.active_ver) ==> (r is Ok <==> (
            index.header.pps == state.inner.pps && index.header.active_ver
                <= state.inner.active_ver)),
            (state.inner.min_ver <= ver <= state.inner.active_ver) && r is Err ==> r == Err::<
                Bucket,
                Error,
            >(Error::DecodeErr),
            r matches Ok(b) ==> {
                &&& b.wf()
                &&& b.name@ == name@
                &&& b.active_ver == state.inner.active_ver
                &&& b.index.kmap == index.kmap
                &&& b.index.header.max_key == index.header.max_key
                &&& b.page_size == state.inner.page_sz
                &&& b.active_file.curr_off == active_end
                &&& !b.is_write && !b.is_dirty && !b.is_modified && !b.is_closed
            },
    {
        Self::check_version(state, ver)?;
        if index.header.pps != state.pps() as usize || index.header.active_ver > state.active_ver() {
            return Err(Error::DecodeErr);
        }
        let mut index = index;
        index.set_active_ver(state.active_ver());
        let fps = state.page_size() as u64 + PAGE_HEADER_LEN as u64;
        Ok(
            Bucket {
                name: name.to_owned(),
                index,
                page_size: state.page_size(),
                active_ver: state.active_ver(),
                active_file: NixFile::open(active_end, fps),
                is_write: false,
                is_dirty: false,
                is_modified: false,
                is_closed: false,
            },
        )
    }

    /// A read-only handle on the bucket as it was at version `ver`.
    pub fn readonly(name: &str, state: &State, ver: u32, index: MemIndex, active_end: u64) -> (r:
        Result<Bucket, Error>)
        requires
            state.wf(),
            state.inner.page_sz + PAGE_HEADER_LEN <= u32::MAX,
            active_end % (state.inner.page_sz + PAGE_HEADER_LEN) as u64 == 0,
            active_end / (state.inner.page_sz + PAGE_HEADER_LEN) as u64 <= u32::MAX,
            index.wf(),
        ensures
            r is Ok <==> (state.inner.min_ver <= ver <= state.inner.active_ver
                && index.header.pps == state.inner.pps && index.header.active_ver
                <= state.inner.active_ver),
            !(state.inner.min_ver <= ver <= state.inner.active_ver) ==> r == Err::<Bucket, Error>(
                Error::VersionNotFoundErr(ver),
            ),
            (state.inner.min_ver <= ver <= state.inner.active_ver) && r is Err ==> r == Err::<
                Bucket,
                Error,
            >(Error::DecodeErr),
            r matches Ok(b) ==> b.wf() && b.index.kmap == index.kmap && b.index.header.max_key
                == index.header.max_key && b.active_ver == state.inner.active_ver && !b.is_write
                && !b.is_dirty && !b.is_modified && !b.is_closed,
    {
        Self::load(name, state, ver, index, active_end)
    }

    pub fn set_writable(&mut self)
        ensures
            *final(self) == (Bucket { is_write: true, ..*old(self) }),
    {
        self.is_write = true;
    }

    /// The locator stored for `key`, allocated or not.
    pub fn get_key(&self, key: u32) -> (r: Result<Option<Value>, Error>)
        requires
            self.wf(),
        ensures
            r == Ok::<Option<Value>, Error>(self.index.kmap.lookup(key as int)),
    {
        self.index.get(key)
    }

    pub fn max_key(&self) -> (r: i64)
        ensures
            r == self.index.header.max_key,
    {
        self.index.max_key()
    }

    pub fn is_modified(&self) -> (r: bool)
        ensures
            r == self.is_modified,
    {
        self.is_modified
    }

    /// `page_size * (max_key + 1)`: holes count, whether written or not.
    pub fn logical_size(&self) -> (r: u64)
        requires
            self.wf(),
        ensures
            r == self.spec_logical_size(),
    {
        let n = (self.index.max_key() + 1) as u64;
        proof {
            assert(self.page_size * n <= 0xffff_ffffu64 * 0x1_0000_0000u64) by (nonlinear_arith)
                requires
                    self.page_size <= 0xffff_ffffu64,
                    n <= 0x1_0000_0000u64,
            ;
        }
        self.page_size as u64 * n
    }

    /// Shrinks (or grows) the logical file to `new_sz / page_size` pages.
    pub fn truncate(&mut self, new_sz: usize) -> (r: Result<(), Error>)
        requires
            old(self).wf(),
            new_sz as int / old(self).page_size as int <= u32::MAX,
        ensures
            r is Ok,
            final(self).wf(),
            final(self).is_modified,
            final(self).active_ver == old(self).active_ver,
            final(self).is_write == old(self).is_write,
            final(self).page_size == old(self).page_size,
            final(self).index.header.max_key == new_sz as int / old(self).page_size as int - 1,
            forall|k: int|
                #[trigger] final(self).index.locate(k) == if k >= new_sz as int / old(self).page_size as int {
                    None
                } else {
                    old(self).index.locate(k)
                },
            truncate_step(*old(self), *final(self), new_sz),
            forall|k: int|
                k < new_sz as int / old(self).page_size as int
                    ==> #[trigger] final(self).index.kmap.lookup(k) == old(self).index.kmap.lookup(k),
    {
        let pages = new_sz / (self.page_size as usize);
        self.index.truncate(pages as u32)?;
        self.is_modified = true;
        Ok(())
    }

    /// Decides how a write of `len` bytes at `page_off` of page `key` goes to
    /// disk. The store's current active version is `store_ver`: a handle
    /// opened before a later commit may no longer write.
    pub fn put_plan(&self, key: u32, page_off: u64, len: usize, store_ver: u32) -> (r: Result<
        PutPlan,
        Error,
    >)
        requires
            self.wf(),
            page_off + len <= self.page_size,
        ensures
            r == self.spec_put_plan(key, page_off, len, store_ver),
    {
        if !self.is_write {
            return Err(Error::BucketNotWritableErr);
        }
        if self.active_ver < store_ver {
            return Err(Error::VerNotWritable(self.active_ver, store_ver));
        }
        let fps = self.active_file.file_page_sz;
        match self.index.get(key)? {
            Some(v) => {
                if v.is_allocated() {
                    proof {
                        assert(v.off * fps + PAGE_HEADER_LEN + page_off <= 0xffff_ffffu64
                            * 0xffff_ffffu64 + 8 + 0xffff_ffffu64) by (nonlinear_arith)
                            requires
                                v.off <= 0xffff_ffffu64,
                                fps <= 0xffff_ffffu64,
                                page_off <= 0xffff_ffffu64,
                        ;
                    }
                    if v.ver == self.active_ver {
                        return Ok(
                            PutPlan::Overwrite {
                                ver: v.ver,
                                byte_off: payload_offset(v.off, fps, page_off),
                            },
                        );
                    } else if page_off == 0 && len == self.page_size as usize {
                        return Ok(PutPlan::Append { base: None });
                    } else {
                        return Ok(
                            PutPlan::Append { base: Some((v.ver, payload_offset(v.off, fps, 0))) },
                        );
                    }
                }
                Ok(PutPlan::Append { base: None })
            },
            None => Ok(PutPlan::Append { base: None }),
        }
    }

    /// Whether the active data file can take one more record.
    pub fn can_append(&self) -> (r: bool)
        requires
            self.wf(),
        ensures
            r == (self.active_file.curr_off / self.active_file.file_page_sz < u32::MAX),
    {
        self.active_file.next_block() < u32::MAX
    }

    /// The record to append for a write of `buf` at `page_off`, over `base`
    /// (the page's current payload, or zeros), and the byte offset it goes
    /// to. Nothing changes until `record_append` is called.
    pub fn prepare_append(&self, page_off: usize, buf: &[u8], base: Option<&Vec<u8>>) -> (r: (
        u64,
        Vec<u8>,
    ))
        requires
            self.wf(),
            page_off + buf@.len() <= self.page_size,
            base matches Some(b) ==> b@.len() == self.page_size,
        ensures
            r.0 == self.active_file.curr_off,
            r.1@ == page_header_bytes((self.active_file.curr_off / self.active_file.file_page_sz) as u32)
                + overlay(
                match base {
                    Some(b) => b@,
                    None => Seq::new(self.page_size as nat, |i: int| 0u8),
                },
                page_off as int,
                buf@,
            ),
    {
        let block = self.active_file.next_block();
        let rec = frame_record(block, base, self.page_size as usize, page_off, buf);
        (self.active_file.curr_off, rec)
    }

    /// Records that the prepared record was appended for `key`: `key` now
    /// points at it, in the active version.
    pub fn record_append(&mut self, key: u32) -> (r: u32)
        requires
            old(self).wf(),
            old(self).active_file.curr_off / old(self).active_file.file_page_sz < u32::MAX,
        ensures
            final(self).wf(),
            r == old(self).active_file.curr_off / old(self).active_file.file_page_sz,
            final(self).active_file.curr_off == old(self).active_file.curr_off
                + old(self).active_file.file_page_sz,
            final(self).index.locate(key as int) == Some(
                Value { off: r, ver: old(self).active_ver },
            ),
            forall|k: int|
                k != key ==> #[trigger] final(self).index.locate(k) == old(self).index.locate(k),
            final(self).index.header.max_key == if old(self).index.header.max_key < key as i64 {
                key as i64
            } else {
                old(self).index.header.max_key
            },
            final(self).active_ver == old(self).active_ver,
            final(self).page_size == old(self).page_size,
            final(self).is_write == old(self).is_write,
            final(self).is_dirty && final(self).is_modified,
            append_step(*old(self), *final(self), key, r),
    {
        let block = self.active_file.next_block();
        let _ = self.active_file.write_buf();
        let _ = self.index.put(key, block);
        self.is_dirty = true;
        self.is_modified = true;
        proof {
            assert(self.index.kmap.loc(key as int) == Value { off: block, ver: self.active_ver });
            assert forall|k: int| k != key implies #[trigger] self.index.locate(k) == old(
                self,
            ).index.locate(k) by {
                assert(self.index.kmap.loc(k) == old(self).index.kmap.loc(k));
            }
        }
        block
    }

    /// Records an in-place overwrite of a page of the active version.
    pub fn record_overwrite(&mut self, key: u32)
        requires
            old(self).wf(),
        ensures
            final(self).wf(),
            final(self).index.kmap == old(self).index.kmap,
            final(self).index.header.max_key == if old(self).index.header.max_key < key as i64 {
                key as i64
            } else {
                old(self).index.header.max_key
            },
            final(self).active_ver == old(self).active_ver,
            final(self).page_size == old(self).page_size,
            final(self).active_file == old(self).active_file,
            final(self).is_write == old(self).is_write,
            final(self).is_dirty && final(self).is_modified,
    {
        self.index.raise_max_key(key);
        self.is_dirty = true;
        self.is_modified = true;
    }

    /// Where to read page `key` from `page_off` on: the version whose data
    /// file holds it and the byte offset there.
    pub fn get(&self, key: u32, page_off: u64) -> (r: Result<(u32, u64), Error>)
        requires
            self.wf(),
            page_off < self.page_size,
        ensures
            match self.read_loc(key as int) {
                Some((ver, off)) => r == Ok::<(u32, u64), Error>((ver, (off + page_off) as u64)),
                None => r == Err::<(u32, u64), Error>(Error::KeyNotFoundErr(key)),
            },
    {
        let fps = self.active_file.file_page_sz;
        match self.index.get(key)? {
            Some(v) => {
                if v.is_allocated() {
                    proof {
                        assert(v.off * fps + PAGE_HEADER_LEN + page_off <= 0xffff_ffffu64
                            * 0xffff_ffffu64 + 8 + 0xffff_ffffu64) by (nonlinear_arith)
                            requires
                                v.off <= 0xffff_ffffu64,
                                fps <= 0xffff_ffffu64,
                                page_off <= 0xffff_ffffu64,
                        ;
                    }
                    Ok((v.ver, payload_offset(v.off, fps, page_off)))
                } else {
                    Err(Error::KeyNotFoundErr(key))
                }
            },
            None => Err(Error::KeyNotFoundErr(key)),
        }
    }

    /// Recomputes the index's version set from the live locators and returns
    /// the versions whose data files are no longer needed (never the active
    /// one). The caller then persists the index.
    pub fn sync(&mut self) -> (r: Result<Vec<u32>, Error>)
        requires
            old(self).wf(),
        ensures
            !old(self).is_write ==> r == Err::<Vec<u32>, Error>(Error::StoreNotWritableErr)
                && *final(self) == *old(self),
            old(self).is_write ==> r is Ok && final(self).wf() && !final(self).is_dirty
                && final(self).index.kmap == old(self).index.kmap
                && final(self).index.header.max_key == old(self).index.header.max_key
                && final(self).active_ver == old(self).active_ver
                && final(self).is_write
                && final(self).index.header.vset@.to_set() == old(self).index.kmap.live_versions()
                && sync_step(*old(self), *final(self)),
            r matches Ok(closed) ==> forall|v: u32|
                #[trigger] closed@.contains(v) <==> (old(self).index.header.vset@.contains(v)
                    && !old(self).index.kmap.live_versions().contains(v) && v
                    != old(self).active_ver),
    {
        if !self.is_write {
            return Err(Error::StoreNotWritableErr);
        }
        let removed = self.index.update_min_max_ver();
        let mut closed: Vec<u32> = Vec::new();
        let mut i: usize = 0;
        while i < removed.len()
            invariant
                i <= removed@.len(),
                forall|v: u32|
                    #[trigger] closed@.contains(v) <==> exists|j: int|
                        0 <= j < i && removed@[j] == v && v != self.active_ver,
            decreases removed@.len() - i,
        {
            let v = removed[i];
            let ghost before = closed@;
            if v != self.active_ver {
                closed.push(v);
                proof {
                    assert forall|x: u32| #[trigger]
                        closed@.contains(x) <==> exists|j: int|
                            0 <= j < i + 1 && removed@[j] == x && x != self.active_ver by {
                        if before.contains(x) {
                            let idx = choose|idx: int| 0 <= idx < before.len() && before[idx] == x;
                            assert(closed@[idx] == x);
                        }
                        if x == v {
                            assert(closed@[before.len() as int] == x);
                        }
                        if closed@.contains(x) && x != v {
                            let idx = choose|idx: int| 0 <= idx < closed@.len() && closed@[idx] == x;
                            assert(before[idx] == x);
                        }
                    }
                }
            }
            i = i + 1;
        }
        proof {
            assert forall|v: u32| #[trigger]
                closed@.contains(v) <==> (old(self).index.header.vset@.contains(v)
                    && !old(self).index.kmap.live_versions().contains(v) && v
                    != old(self).active_ver) by {
                if removed@.contains(v) && v != self.active_ver {
                    let j = choose|j: int| 0 <= j < removed@.len() && removed@[j] == v;
                }
            }
        }
        self.is_dirty = false;
        Ok(closed)
    }

    /// Marks the handle closed; returns whether it was open.
    pub fn close(&mut self) -> (r: bool)
        ensures
            r == !old(self).is_closed,
            *final(self) == (Bucket { is_closed: true, ..*old(self) }),
    {
        let was_open = !self.is_closed;
        self.is_closed = true;
        was_open
    }
}

} // verus!
