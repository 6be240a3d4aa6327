//! Near-duplicate line detection: an edit-distance metric and an all-pairs,
//! threshold-filtered scanner over a corpus of tagged lines.
pub mod distance;
pub mod report;
pub mod scan;
