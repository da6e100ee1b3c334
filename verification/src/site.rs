//! What a server serves: its routes, the pool their bodies lie in, and the variables
//! its templates name.

use crate::cache::VarTable;
use crate::routes::{Route, MAX_CONTENT_TYPE, MAX_FS_FILTER, MAX_FS_PATH, MAX_PATH, MAX_ROUTES};
use vstd::prelude::*;
use vstd::slice::slice_subrange;

verus! {

pub struct Site {
    pub routes: Vec<Route>,
    /// Route bodies, one after another.
    pub pool: Vec<u8>,
    pub vars: VarTable,
}

/// Whether a route's configuration is within its bounds and its body in the pool.
pub open spec fn route_wf(r: Route, pool_len: nat) -> bool {
    &&& r.path@.len() <= MAX_PATH
    &&& r.content_type@.len() <= MAX_CONTENT_TYPE
    &&& r.fs_path@.len() <= MAX_FS_PATH
    &&& r.fs_filter@.len() <= MAX_FS_FILTER
    &&& r.body_offset + r.body_len <= pool_len
}

impl Site {
    pub open spec fn wf(self) -> bool {
        &&& self.routes@.len() <= MAX_ROUTES
        &&& self.pool@.len() <= u32::MAX
        &&& self.vars.wf()
        &&& forall|i: int|
            0 <= i < self.routes@.len() ==> route_wf(#[trigger] self.routes@[i], self.pool@.len())
    }

    /// The body of route `i`.
    pub open spec fn body_of(self, i: int) -> Seq<u8> {
        self.pool@.subrange(
            self.routes@[i].body_offset as int,
            self.routes@[i].body_offset + self.routes@[i].body_len,
        )
    }

    pub fn new() -> (r: Site)
        ensures
            r.wf(),
            r.routes@.len() == 0,
            r.pool@.len() == 0,
            forall|h: u32| r.vars.value_of(h) is None,
    {
        Site { routes: Vec::new(), pool: Vec::new(), vars: VarTable::new() }
    }

    /// The body of route `i`.
    pub fn body(&self, i: usize) -> (r: &[u8])
        requires
            self.wf(),
            i < self.routes@.len(),
        ensures
            r@ == self.body_of(i as int),
    {
        assert(route_wf(self.routes@[i as int], self.pool@.len()));
        let start: usize = self.routes[i].body_offset as usize;
        let end: usize = start + self.routes[i].body_len as usize;
        slice_subrange(self.pool.as_slice(), start, end)
    }
}

} // verus!
