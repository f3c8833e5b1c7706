//! Namespaced, indexed key-value collections over an ordered byte-string store,
//! and a referral graph built on them.

pub mod custom_dese_index;
pub mod error;
pub mod frame;
pub mod index;
pub mod indexed_map;
pub mod indexed_referral;
pub mod keys;
pub mod lex;
pub mod map;
pub mod multi_index;
pub mod range;
pub mod referral;
pub mod single_sided_referral;
pub mod store;
pub mod unique_index;

pub use custom_dese_index::{deserialize_multi_kv_custom_pk, CustomDeseMultiIndex};
pub use error::StorageError;
pub use indexed_map::IndexedMap;
pub use indexed_referral::{IndexedReferral, ReferralIndexes};
pub use map::{MapCow, StorageCow};
pub use multi_index::MultiIndex;
pub use referral::{Addr, Refer};
pub use single_sided_referral::SingleSidedReferral;
pub use unique_index::UniqueIndex;
