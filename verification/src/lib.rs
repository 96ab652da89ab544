//! A fixed-capacity, single-producer single-consumer channel built on a
//! power-of-two ring buffer with one permanently reserved slot.
//!
//! The shared state — the ring storage, the two published cursors, and the
//! disconnect flag — lives in a [`spsc::bounded::Core`].  The
//! [`spsc::bounded::Sender`] and [`spsc::bounded::Receiver`] handles keep
//! private cursor caches, reconcile them from the published cursors only
//! when the cache shows no progress, and take the core as an explicit
//! `&mut` argument on every operation; every operation carries a proved
//! contract over the queue's live sequence.

pub mod spsc;

pub use spsc::bounded::BoundedSpscQueue;
pub use spsc::bounded::Receiver as BoundedSpscReceiver;
pub use spsc::bounded::Sender as BoundedSpscSender;
pub use spsc::bounded::TryReceiveError as SpscTryReceiveError;
pub use spsc::bounded::TrySendError as SpscTrySendError;
