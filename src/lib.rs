//! Struct-of-arrays storage: every field of a record type lives in its own
//! contiguous column, and all columns share one growable allocation.

pub mod colvec;
pub mod error;
pub mod fields;
pub mod raw;
pub mod record;
pub mod slice;

pub use error::{AllocLayout, TryReserveError, TryReserveErrorKind};
pub use fields::{Field, Fields};
pub use raw::{RawColVec, StructInfo};
pub use colvec::{field_history, lemma_push_round_trip, ColVec};
pub use record::{Test, TestColVec};
pub use slice::RawColSlice;
