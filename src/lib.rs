//! Find the large files under a directory: size tokens and the byte thresholds
//! they stand for, the choice of the files that reach a threshold, their order,
//! and the rounding of sizes for display.
pub mod number;
pub mod scan;
pub mod threshold;
pub mod units;

pub use scan::{scan_result, select_big_files, sort_largest_first, FileInfo, FoundFile, ScanResult};
pub use number::number_times;
pub use threshold::{parse_size, SizeThreshold, DEFAULT_THRESHOLD_MB};
pub use units::{format_size, get_unit_label, unit_size, SizeUnit, BYTES_PER_GB, BYTES_PER_MB};
