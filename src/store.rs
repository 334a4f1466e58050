use crate::bmap::BucketMap;
use crate::error::Error;
use crate::page::PAGE_HEADER_LEN;
use crate::state::{State, StateInner};
use crate::value::MAX_VER;
use vstd::prelude::*;

verus! {

#[derive(Clone, Copy, Debug, PartialEq, Eq, Structural)]
pub enum BucketOpenMode {
    Read,
    Write,
}

impl BucketOpenMode {
    pub fn is_write(&self) -> (r: bool)
        ensures
            r == (*self == BucketOpenMode::Write),
    {
        *self == BucketOpenMode::Write
    }
}

/// How a bucket is to be opened.
#[derive(Clone, Copy, Debug, PartialEq, Eq, Structural)]
pub enum OpenPlan {
    /// Load its index as stored at this version.
    Load(u32),
    /// It does not exist yet: create it empty at the active version.
    Create,
}

/// How a writable store is to be opened.
#[derive(Clone, Copy, Debug, PartialEq, Eq, Structural)]
pub enum WritablePlan {
    /// No store there yet: initialise one with this page size and slot width.
    Init { page_sz: u32, pps: u32 },
    /// Load the existing store at its active version.
    Load,
}

/// The store: its state, the bucket map of the version it was opened at, and
/// whether it may write.
pub struct Store {
    pub root_path: String,
    pub state: State,
    pub is_write: bool,
    pub bmap: BucketMap,
}

impl Store {
    pub open spec fn wf(&self) -> bool {
        &&& self.state.wf()
        &&& self.state.inner.page_sz + PAGE_HEADER_LEN <= u32::MAX
        &&& self.bmap.wf()
    }

    /// Decides how `writable(root, create, page_sz, pps)` proceeds, given
    /// whether the store's init marker exists.
    pub fn writable_plan(create: bool, initialised: bool, page_sz: Option<u32>, pps: Option<u32>) -> (r:
        Result<WritablePlan, Error>)
        ensures
            create && (page_sz is None || pps is None) ==> r == Err::<WritablePlan, Error>(
                Error::MissingArgsErr,
            ),
            !(create && (page_sz is None || pps is None)) ==> if initialised {
                r == Ok::<WritablePlan, Error>(WritablePlan::Load)
            } else if !create {
                r == Err::<WritablePlan, Error>(Error::StoreNotFoundErr)
            } else if 0 < page_sz.unwrap() <= u32::MAX - PAGE_HEADER_LEN && 0 < pps.unwrap() {
                r == Ok::<WritablePlan, Error>(
                    WritablePlan::Init { page_sz: page_sz.unwrap(), pps: pps.unwrap() },
                )
            } else {
                r == Err::<WritablePlan, Error>(Error::MissingArgsErr)
            },
    {
        if create && (page_sz.is_none() || pps.is_none()) {
            return Err(Error::MissingArgsErr);
        }
        if initialised {
            return Ok(WritablePlan::Load);
        }
        if !create {
            return Err(Error::StoreNotFoundErr);
        }
        let p = page_sz.unwrap();
        let n = pps.unwrap();
        if 0 < p && p <= u32::MAX - PAGE_HEADER_LEN as u32 && 0 < n {
            Ok(WritablePlan::Init { page_sz: p, pps: n })
        } else {
            Err(Error::MissingArgsErr)
        }
    }

    /// A freshly initialised store: state at version 1, no buckets, writable.
    pub fn new(root_path: &str, page_sz: u32, pps: u32) -> (r: Store)
        requires
            0 < page_sz <= u32::MAX - PAGE_HEADER_LEN,
            0 < pps,
        ensures
            r.wf(),
            r.root_path@ == root_path@,
            r.state.inner == (StateInner {
                format_ver: 1,
                min_ver: 1,
                max_ver: 1,
                active_ver: 1,
                pps,
                page_sz,
                file_header_len: 8,
                file_page_sz: (page_sz + 8) as u32,
            }),
            r.bmap.view() == Map::<Seq<char>, u32>::empty(),
            r.is_write,
    {
        Store {
            root_path: root_path.to_owned(),
            state: State::new(page_sz, pps),
            is_write: true,
            bmap: BucketMap::new(),
        }
    }

    /// A store over a loaded state and bucket map.
    pub fn load_store(root_path: &str, state: State, bmap: BucketMap, is_write: bool) -> (r: Result<
        Store,
        Error,
    >)
        requires
            state.wf(),
            bmap.wf(),
        ensures
            r is Ok <==> state.inner.page_sz + PAGE_HEADER_LEN <= u32::MAX,
            r is Err ==> r == Err::<Store, Error>(Error::DecodeErr),
            r matches Ok(s) ==> s.wf() && s.root_path@ == root_path@ && s.state == state && s.bmap
                == bmap && s.is_write == is_write,
    {
        if state.page_size() > u32::MAX - PAGE_HEADER_LEN as u32 {
            return Err(Error::DecodeErr);
        }
        Ok(Store { root_path: root_path.to_owned(), state, is_write, bmap })
    }

    /// Whether a read-only store may be opened at version `ver`.
    pub fn check_readonly(state: &State, ver: u32) -> (r: Result<(), Error>)
        ensures
            r is Ok <==> (state.inner.min_ver <= ver <= state.inner.active_ver),
            r is Err ==> r == Err::<(), Error>(Error::VersionNotFoundErr(ver)),
    {
        if ver < state.min_ver() || ver > state.active_ver() {
            Err(Error::VersionNotFoundErr(ver))
        } else {
            Ok(())
        }
    }

    pub fn contains(&self, name: &str) -> (r: bool)
        requires
            self.wf(),
        ensures
            r == self.bmap.view().contains_key(name@),
    {
        self.bmap.contains(name)
    }

    /// Decides how bucket `name` is opened in `mode`.
    pub fn open(&self, name: &str, mode: BucketOpenMode) -> (r: Result<OpenPlan, Error>)
        requires
            self.wf(),
        ensures
            !self.is_write && mode == BucketOpenMode::Write ==> r == Err::<OpenPlan, Error>(
                Error::StoreNotWritableErr,
            ),
            !(!self.is_write && mode == BucketOpenMode::Write) ==> if self.bmap.view().contains_key(
                name@,
            ) {
                r == Ok::<OpenPlan, Error>(OpenPlan::Load(self.bmap.view()[name@]))
            } else if mode == BucketOpenMode::Write {
                r == Ok::<OpenPlan, Error>(OpenPlan::Create)
            } else {
                (r matches Err(Error::BucketNotAtVerErr(n, v)) && n@ == name@ && v
                    == self.state.inner.active_ver)
            },
    {
        if !self.is_write && mode.is_write() {
            return Err(Error::StoreNotWritableErr);
        }
        match self.bmap.get(name) {
            Some(v) => Ok(OpenPlan::Load(v)),
            None => {
                if mode.is_write() {
                    Ok(OpenPlan::Create)
                } else {
                    Err(Error::BucketNotAtVerErr(name.to_owned(), self.state.active_ver()))
                }
            },
        }
    }

    /// Records a bucket created at the active version.
    pub fn register(&mut self, name: &str)
        requires
            old(self).wf(),
        ensures
            final(self).wf(),
            final(self).bmap.view() == old(self).bmap.view().insert(
                name@,
                old(self).state.inner.active_ver,
            ),
            final(self).state == old(self).state,
            final(self).is_write == old(self).is_write,
    {
        let v = self.state.active_ver();
        self.bmap.add(name, v);
    }

    /// Forgets bucket `name` and returns the version whose index and data
    /// files of it are to be removed.
    pub fn delete(&mut self, name: &str) -> (r: Result<u32, Error>)
        requires
            old(self).wf(),
        ensures
            final(self).wf(),
            final(self).state == old(self).state,
            final(self).bmap.view() == old(self).bmap.view().remove(name@),
            old(self).bmap.view().contains_key(name@) ==> r == Ok::<u32, Error>(
                old(self).state.inner.active_ver,
            ),
            !old(self).bmap.view().contains_key(name@) ==> (r matches Err(
                Error::BucketNotAtVerErr(n, v),
            ) && n@ == name@ && v == old(self).state.inner.active_ver),
    {
        let aver = self.state.active_ver();
        if self.bmap.delete(name) {
            Ok(aver)
        } else {
            Err(Error::BucketNotAtVerErr(name.to_owned(), aver))
        }
    }

    /// Advances the active version, once the caller holds the commit lock
    /// (`locked`). The caller then persists the state and the bucket map at
    /// the new version.
    pub fn commit(&mut self, locked: bool) -> (r: Result<u32, Error>)
        requires
            old(self).wf(),
        ensures
            final(self).wf(),
            final(self).bmap == old(self).bmap,
            !locked ==> r == Err::<u32, Error>(Error::CommitLockedErr) && final(self).state
                == old(self).state,
            locked && old(self).state.inner.active_ver == MAX_VER ==> r == Err::<u32, Error>(
                Error::VersionNotFoundErr(MAX_VER),
            ) && final(self).state == old(self).state,
            locked && old(self).state.inner.active_ver < MAX_VER ==> r == Ok::<u32, Error>(
                (old(self).state.inner.active_ver + 1) as u32,
            ) && final(self).state.inner.active_ver == old(self).state.inner.active_ver + 1
                && final(self).state.inner.page_sz == old(self).state.inner.page_sz
                && final(self).state.inner.pps == old(self).state.inner.pps
                && final(self).state.inner.min_ver == old(self).state.inner.min_ver,
    {
        if !locked {
            return Err(Error::CommitLockedErr);
        }
        if self.state.active_ver() >= MAX_VER {
            return Err(Error::VersionNotFoundErr(MAX_VER));
        }
        Ok(self.state.advance_ver())
    }

    pub fn active_ver(&self) -> (r: u32)
        ensures
            r == self.state.inner.active_ver,
    {
        self.state.active_ver()
    }
}

} // verus!
