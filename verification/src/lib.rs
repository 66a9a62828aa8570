//! An ordered, multi-version key-value map whose nodes, keys and values all
//! live in one fixed-capacity byte arena and refer to each other by 32-bit
//! offsets.

pub mod arena;
pub mod buffer;
pub mod builder;
pub mod codec;
pub mod comparator;
pub mod dropper;
pub mod either;
pub mod entry;
pub mod entry_order;
pub mod error;
pub mod filter;
pub mod fixtures;
pub mod iterator;
pub mod laws;
pub mod layout;
pub mod links;
pub mod map;
pub mod mmap;
pub mod model;
pub mod node;
pub mod ops;
pub mod options;
pub mod persist;
pub mod query;
pub mod read;
pub mod recover;
pub mod sampler;
pub mod scan;
pub mod search;
pub mod write;

pub use arena::Arena;
pub use buffer::{BufferFull, VacantBuffer};
pub use comparator::{Ascend, Bound, Comparator, Descend, Order};
pub use dropper::{Dropper, NoopDropper};
pub use either::Either;
pub use entry::{EntryRef, Trailer};
pub use error::{ArenaError, Error};
pub use iterator::MapIterator;
pub use map::SkipMap;
pub use mmap::{MmapOptions, OpenAction, OpenOptions};
pub use node::NodePtr;
pub use options::Options;
pub use query::MapRange;
