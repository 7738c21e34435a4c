//! A lightweight client for keeping a listener in sync with chain activity.
//!
//! The crate holds the decisions of a chain client that follows the best chain tip for a
//! listener: finding the fork point between two tips, planning which blocks to disconnect and
//! to connect, keeping a header cache coherent with what the listener has been told, and
//! tracking the tip that the listener actually sees when a block cannot be fetched half-way.
//!
//! Everything that has to wait for a block source is left to the caller. Each operation runs
//! until it needs a header or a block that only a block source can supply, says so in the step
//! it returns, and is resumed with the answer.

pub mod cache;
pub mod client;
pub mod error;
pub mod fork;
pub mod header;
pub mod laws;
pub mod notifier;

pub use crate::cache::{Cache, UnboundedCache};
pub use crate::client::{PollAction, PollStep, SpvClient};
pub use crate::error::{BlockSourceError, BlockSourceErrorKind};
pub use crate::fork::{FindFork, ForkSearch, ForkStep};
pub use crate::header::{
    BlockHash, BlockHeader, BlockHeaderData, ChainTip, ChainWork, ValidatedBlockHeader,
};
pub use crate::notifier::{BlockFetch, ChainEvent, ChainNotifier, SyncAction, SyncStep};
