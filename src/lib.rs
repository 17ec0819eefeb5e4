//! BitPart: exact range search in metric spaces by binary partitioning.
//!
//! An index holds, for each exclusion zone (five balls around each reference
//! point and a sheet between each pair of reference points), one bit per
//! data point saying whether the point lies in the zone. A range query
//! classifies the zones it must lie inside or outside of, combines their
//! rows into a candidate mask, and only the candidates need a distance check.
//!
//! Distances themselves are computed by the caller; this crate holds the
//! zone layout, the bit matrix, the query algebra, culling and the dataset
//! file grammar, each with its contract.
pub mod bits;
pub mod zones;
pub mod mask;
pub mod sequential;
pub mod parallel;
pub mod laws;
pub mod parser;
pub mod metric;

pub use mask::{classify, rows_candidates};
pub use metric::Euclidean;
pub use parallel::{rows_block_candidates, Parallel};
pub use parser::{parse, parse_array, FileConfig, ParseError};
pub use sequential::Sequential;
pub use zones::{plan_zones, zones_for, Zone};
