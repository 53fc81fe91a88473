use vstd::prelude::*;

pub mod freq;
pub mod normalize;
pub mod report;
pub mod tokens;

pub use freq::FrequencyTable;
pub use freq::RankedEntry;
pub use normalize::sanitize_text;
pub use report::Report;
