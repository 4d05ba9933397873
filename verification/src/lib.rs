//! A memory-bandwidth benchmark core: a byte buffer is split into equal,
//! disjoint sections, and a stream of requests (each bound to one section)
//! is run through a cache-hostile memory-walk kernel under interchangeable
//! dispatch strategies (sequential; batched by section; one worker per
//! section). Every strategy is pinned to the same canonical result
//! sequence, in the order the requests were submitted: the sequential and
//! batched dispatchers are verified whole, and the parallel dispatcher's
//! pieces — queue building, per-section walk streams, order reassembly —
//! are verified to compose to that same sequence, so an embedding program
//! only has to fan the per-section streams out to threads and join them.

use vstd::prelude::*;

pub mod dispatch;
pub mod kernel;
pub mod partition;

pub use dispatch::{build_queues, reassemble_sums, run_section, singlethreaded, singlethreaded_batched};
pub use kernel::handle_request;
pub use partition::num_to_bitmask;

verus! {

/// Fixed shape of one dispatch call: section size, section count, and the
/// number of kernel rounds per request.
#[derive(Clone, Copy)]
pub struct Config {
    pub num_bytes_per_section: usize,
    pub num_sections: usize,
    pub num_iterations: usize,
}

/// One work item: a starting offset for the walk and the section it is
/// bound to. The submitted order of requests defines the canonical output
/// order that every strategy must reproduce.
pub struct Request {
    pub start: usize,
    pub section: usize,
}

impl Config {
    /// A usable configuration: at least one section of at least one byte,
    /// with the whole buffer size representable.
    pub open spec fn wf(self) -> bool {
        &&& 1 <= self.num_bytes_per_section
        &&& 1 <= self.num_sections
        &&& self.num_bytes_per_section * self.num_sections <= usize::MAX
    }

    /// Length of the buffer the configuration describes.
    pub open spec fn spec_total_bytes(self) -> int {
        self.num_bytes_per_section * self.num_sections
    }

    pub fn total_bytes(self) -> (n: usize)
        requires
            self.num_bytes_per_section * self.num_sections <= usize::MAX,
        ensures
            n == self.spec_total_bytes(),
    {
        self.num_bytes_per_section * self.num_sections
    }
}

} // verus!
