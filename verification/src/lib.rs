//! Parsing of JFIF (JPEG File Interchange Format) files into their headers and tables.

mod header;
mod frame;
mod zigzag;
mod image;
mod scan;
pub mod model;
pub mod segment_laws;
pub mod input_laws;

pub use header::{u8s_to_u16, JFIFUnits, JFIFVersion};
pub use frame::{FrameComponentHeader, FrameHeader, ScanComponentHeader, ScanHeader};
pub use zigzag::zigzag;
pub use image::{HuffmanTableData, JFIFImage, ScanComponentPlan, ScanPlan, SegmentEvent};
pub use scan::correct_dc;
