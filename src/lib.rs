//! An embeddable time series database: series keys, the tag filter language,
//! posting-list set algebra, the physical key layout, the k-way merge choice
//! and the streaming bucket aggregator, each with a verified contract.
use vstd::prelude::*;

pub mod agg;
pub mod encoding;
mod error;
pub mod merge;
mod metric_name;
pub mod query;
pub mod series_key;
pub mod smap;
pub mod tag_sets;

pub use error::Error;
pub use metric_name::MetricName;
pub use series_key::{SeriesKey, TagSet};

verus! {

/// Numeric identifier of one series.
pub type SeriesId = u64;

/// Nanosecond timestamp.
pub type Timestamp = u128;

} // verus!
