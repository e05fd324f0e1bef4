//! A local-first replicated document engine.
//!
//! Peers edit nested containers (text, list, map, tree) independently and
//! exchange operation batches that merge deterministically: every replica
//! that holds the same set of operations materializes the same state,
//! independent of arrival order.

pub mod container;
pub mod doc;
pub mod error;
pub mod handler;
pub mod id;
pub mod op;
pub mod state;
pub mod rle_num;
pub mod strutil;
pub mod tracker;
pub mod value;
pub mod version;

pub use error::LoroError;
pub use error::LoroResult;

pub use id::Counter;
pub use id::CounterSpan;
pub use id::ID;
pub use id::IdSpan;
pub use id::Lamport;
pub use id::PeerID;

pub use container::ContainerID;
pub use container::ContainerType;
pub use container::TreeID;
pub use doc::ContainerIdx;
pub use doc::LoroDoc;
pub use handler::Handler;
pub use handler::ListHandler;
pub use handler::MapHandler;
pub use handler::RichtextHandler;
pub use handler::TextHandler;
pub use rle_num::DeltaRleEncodedNums;
pub use tracker::Tracker;
pub use value::InsertValue;
pub use value::LoroValue;
pub use version::Frontiers;
pub use version::VersionVector;
