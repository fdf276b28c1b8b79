//! Icon-theme assets: scanning a directory tree for vector icons, and exporting a copy
//! of it whose colors are rewritten by a list of hex-color mappings.
//!
//! The color rewriter is a pure function on text. Scanning and exporting walk the file
//! system; what they decide at each entry (which files match, which are duplicates,
//! which are previewed, what to do with an entry, what to count) is made here from plain
//! values that the caller reads from the disk.

pub mod color;
pub mod entry;
pub mod error;
pub mod export;
pub mod scan;

pub use export::ExportResult;
pub use scan::{ScanResult, SvgFile};
