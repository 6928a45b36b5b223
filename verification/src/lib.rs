//! Per-extension key/value storage with `storage.local` semantics: JSON values
//! keyed by string, one record per extension, hard quotas, and a change set
//! reported by every mutation.

pub mod api;
pub mod changes;
pub mod json;
pub mod keys;
pub mod laws;
pub mod order;
pub mod quota;
pub mod store;

pub use changes::{StorageChanges, StorageValueChange};
pub use json::{JsonMap, JsonShape, JsonValue};
pub use quota::{Error, QuotaReason, MAX_ITEMS, QUOTA_BYTES, QUOTA_BYTES_PER_ITEM};
pub use store::RecordStore;
