//! Records: the one read back from disk, the one made from a new scan, and
//! the difference between the two.

pub mod diff;
pub mod last;
pub mod new;
