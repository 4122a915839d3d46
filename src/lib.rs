//! A region allocator: arenas hand out bump-allocated byte ranges from a
//! chain of blocks, and fuse groups join the lifetimes of several arenas.
pub mod policy;
pub mod chain;
pub mod group;
pub mod arena;

pub use arena::Arena;
pub use chain::{BlockChain, Region};
pub use group::{FuseError, FuseGroups, RawArena};
pub use policy::GrowthPolicy;
