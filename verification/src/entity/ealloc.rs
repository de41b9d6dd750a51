//! Manages entity ID allocation and deallocation.

pub mod distribute;
pub use distribute::distribute_sorted;

pub mod recycler;
pub use recycler::{BTreeHint, Recycler};

pub mod gaps;

mod sharding;
pub use sharding::{Shard, ShardAssigner, StaticShardAssigner, ThreadRngShardAssigner};

mod recycling;
pub use recycling::{Recycling, RecyclingShard};

pub mod snapshot;
pub use snapshot::Snapshot;

pub mod order;

mod traits;
pub use traits::Ealloc;

pub mod iterator;

pub mod shares;

pub mod history;

mod registry;
pub use registry::{EallocMap, ShardMap, ShardMapEntry};
