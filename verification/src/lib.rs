//! Disk-usage trees: the aggregated size tree of a directory, its treemap
//! layout, the scan that builds it and the file operations offered on it.

pub mod cancel;
pub mod color;
pub mod copy_model;
pub mod fs_model;
pub mod node;
pub mod order;
pub mod path;
pub mod roots;
pub mod scan;
pub mod session;
pub mod transfer;
pub mod treemap;
pub mod volume_model;
