//! One-dimensional map folding (the stamp-folding problem): deciding whether a
//! stack ordering of the segments of a strip is a physically valid folding, and
//! counting the valid foldings of a strip of `n` segments.
pub mod folding;
pub mod counting;
