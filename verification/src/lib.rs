pub mod errors;
pub mod extract;
pub mod header;
pub mod lzss;
pub mod scan;
pub mod symbols;

pub use errors::ExtractError;
pub use extract::{extract_from_buf, ExtractionOutput};
pub use header::CompressionHeader;
pub use scan::find_subsequence;
pub use symbols::count_symbols;
