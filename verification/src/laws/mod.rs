//! What the library is for: laws that relate what is reported and emitted to what a dataset holds.
//!
//! Each is stated on a dataset's own fields, its frames and streams and elements, whatever way there
//! is to what is reported.

pub mod autonomy;
pub mod calibration;
pub mod comparison;
pub mod duplicates;
pub mod emit;
pub mod found;
pub mod lineage;
pub mod meaning;
pub mod rig;
pub mod settings;
pub mod severity;
pub mod statistical;
pub mod structural;
pub mod temporal;
pub mod values;
pub mod verdict;
pub mod video;
