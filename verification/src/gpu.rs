//! The GPU source used when no GPU can be read: every request fails with
//! the reason it is unavailable, and the failure stays local to the GPU
//! panel.

use vstd::prelude::*;
use crate::model::GpuInfo;

verus! {

/// A GPU that cannot be read, with the reason why.
pub struct UnavailableGpu {
    reason: String,
}

impl UnavailableGpu {
    /// Why the GPU cannot be read.
    pub closed spec fn why(&self) -> Seq<char> {
        self.reason@
    }

    pub fn new(reason: String) -> (g: Self)
        ensures
            g.why() == reason@,
    {
        UnavailableGpu { reason }
    }

    /// The static GPU information: never available.
    pub fn static_info(&self) -> (r: Result<GpuInfo, String>)
        ensures
            r is Err,
            r->Err_0@ == self.why(),
    {
        Err(self.reason.clone())
    }

    /// The error every sample fails with: the reason.
    pub fn sample_error(&self) -> (e: String)
        ensures
            e@ == self.why(),
    {
        self.reason.clone()
    }
}

} // verus!
