//! Synchronisation primitives.
pub mod rw_lock;

pub use self::rw_lock::{ReadGuard, RwLock, WriteGuard};
