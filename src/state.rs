use crate::error::Error;
use crate::page::PAGE_HEADER_LEN;
use crate::value::MAX_VER;
use vstd::prelude::*;

verus! {

/// Store-wide header fields, as persisted.
#[derive(Debug, Clone, Copy, PartialEq, Eq, Structural)]
pub struct StateInner {
    pub format_ver: u32,
    pub min_ver: u32,
    pub max_ver: u32,
    pub active_ver: u32,
    pub pps: u32,
    pub page_sz: u32,
    pub file_header_len: u32,
    pub file_page_sz: u32,
}

impl StateInner {
    pub open spec fn wf(&self) -> bool {
        &&& 1 <= self.min_ver <= self.active_ver <= self.max_ver <= MAX_VER
        &&& 0 < self.pps
        &&& 0 < self.page_sz
        &&& self.file_header_len == PAGE_HEADER_LEN
        &&& self.file_page_sz == self.page_sz + PAGE_HEADER_LEN
    }
}

/// The store-wide state: versions, page size and pages per slot.
pub struct State {
    pub inner: StateInner,
}

impl State {
    pub open spec fn wf(&self) -> bool {
        self.inner.wf()
    }

    pub fn new(page_sz: u32, pps: u32) -> (r: State)
        requires
            0 < page_sz <= u32::MAX - PAGE_HEADER_LEN,
            0 < pps,
        ensures
            r.wf(),
            r.inner == (StateInner {
                format_ver: 1,
                min_ver: 1,
                max_ver: 1,
                active_ver: 1,
                pps,
                page_sz,
                file_header_len: 8,
                file_page_sz: (page_sz + 8) as u32,
            }),
    {
        State {
            inner: StateInner {
                format_ver: 1,
                min_ver: 1,
                max_ver: 1,
                active_ver: 1,
                pps,
                page_sz,
                file_header_len: PAGE_HEADER_LEN as u32,
                file_page_sz: page_sz + PAGE_HEADER_LEN as u32,
            },
        }
    }

    /// Accepts persisted fields that satisfy the state's invariant.
    pub fn from_inner(inner: StateInner) -> (r: Result<State, Error>)
        ensures
            match r {
                Ok(s) => s.inner == inner && s.wf(),
                Err(e) => e == Error::DecodeErr && !inner.wf(),
            },
    {
        if 1 <= inner.min_ver && inner.min_ver <= inner.active_ver && inner.active_ver
            <= inner.max_ver && inner.max_ver <= MAX_VER && 0 < inner.pps && 0 < inner.page_sz
            && inner.file_header_len == PAGE_HEADER_LEN as u32 && inner.page_sz <= u32::MAX
            - PAGE_HEADER_LEN as u32 && inner.file_page_sz == inner.page_sz
            + PAGE_HEADER_LEN as u32 {
            Ok(State { inner })
        } else {
            Err(Error::DecodeErr)
        }
    }

    pub fn format_ver(&self) -> (r: u32)
        ensures
            r == self.inner.format_ver,
    {
        self.inner.format_ver
    }

    pub fn active_ver(&self) -> (r: u32)
        ensures
            r == self.inner.active_ver,
    {
        self.inner.active_ver
    }

    pub fn page_size(&self) -> (r: u32)
        ensures
            r == self.inner.page_sz,
    {
        self.inner.page_sz
    }

    pub fn file_page_sz(&self) -> (r: u32)
        ensures
            r == self.inner.file_page_sz,
    {
        self.inner.file_page_sz
    }

    pub fn pps(&self) -> (r: u32)
        ensures
            r == self.inner.pps,
    {
        self.inner.pps
    }

    pub fn min_ver(&self) -> (r: u32)
        ensures
            r == self.inner.min_ver,
    {
        self.inner.min_ver
    }

    pub fn max_ver(&self) -> (r: u32)
        ensures
            r == self.inner.max_ver,
    {
        self.inner.max_ver
    }

    /// Moves the active version one up and returns it.
    pub fn advance_ver(&mut self) -> (r: u32)
        requires
            old(self).wf(),
            old(self).inner.active_ver < MAX_VER,
        ensures
            final(self).wf(),
            r == old(self).inner.active_ver + 1,
            final(self).inner == (StateInner {
                active_ver: r,
                max_ver: if old(self).inner.max_ver < r {
                    r
                } else {
                    old(self).inner.max_ver
                },
                ..old(self).inner
            }),
    {
        self.inner.active_ver = self.inner.active_ver + 1;
        if self.inner.max_ver < self.inner.active_ver {
            self.inner.max_ver = self.inner.active_ver;
        }
        self.inner.active_ver
    }
}

} // verus!
