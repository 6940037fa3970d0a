//! The checks catalog: concrete [`Check`] implementations grouped by family, and the standard set.

pub mod autonomy;
pub mod calibration;
pub mod cycles;
pub mod duplicates;
pub mod frames;
pub mod lists;
pub mod near_duplicates;
pub mod provenance;
pub mod semantic;
pub mod signature;
pub mod standard;
pub mod statistical;
pub mod structural;
pub mod temporal;
pub mod timeline;
pub mod video;
pub mod walk;
