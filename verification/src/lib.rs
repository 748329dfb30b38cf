//! Verified core of a music library: fingerprint storage encoding, grouping of
//! similar files, duplicate selection, comparison and paging plans, and the
//! values of the interactive client's command line.

pub mod cli;
pub mod duplicates;
pub mod fingerprint;
pub mod listing;
pub mod pairing;
pub mod paging;
pub mod similarity;

pub use cli::{Command, OperateMode, PlaybackMode};
pub use fingerprint::bytes_to_u32s;
pub use similarity::group_similar_files;
