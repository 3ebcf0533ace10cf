//! Verified map-reduce join of two delimited datasets: a donor table
//! (donor id, state) and a donation table (donor id, amount), producing
//! the total donation amount per state, as a SQL `GROUP BY` over an
//! inner join would.
//!
//! The donor side is cut into bounded chunks; each chunk is joined
//! against the whole donation dataset by a map task of its own, and the
//! partial per-state aggregates are merged into the final result. The
//! result is proved equal to a plain single-pass reference join, for
//! every chunk size and whatever order the partials are merged in.
//!
//! Amounts are fixed-point integers: a donation amount is parsed from
//! its decimal text into hundredths (cents), so sums are exact.

pub mod aggregate;
pub mod amount;
pub mod assoc;
pub mod bytes;
pub mod engine;
pub mod join;
pub mod records;
pub mod table;
pub mod worker;

pub use aggregate::DonationsByState;
pub use engine::JoinConfig;
pub use engine::run;
pub use records::Dataset;
pub use records::DonationInfo;
pub use records::DonationLine;
pub use records::DonorInfo;
pub use records::JoinError;
pub use records::get_indexes;
pub use table::DonorChunk;
pub use table::build_donor_table;
pub use table::partition;
pub use worker::map_task;
