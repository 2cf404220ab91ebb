//! Management of arrangements across dataflows: a registry from collection
//! names to the arranged traces built for them, with the bookkeeping that
//! drives their logical and physical compaction.

mod arrangement;
mod collection;
mod frontier;
mod laws;
mod manager;

pub use arrangement::{Arrangement, Bound};
pub use collection::CollectionTraces;
pub use frontier::antichain_elements;
pub use manager::TraceManager;
pub use laws::{
    del_trace_idempotent, distinct_projections_independent, full_teardown, logical_before_physical,
    rebind_by_keys_replaces, rebind_by_self_replaces,
};
