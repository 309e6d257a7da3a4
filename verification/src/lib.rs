//! Locates embedded SQL statements in source text (whole `.sql` files and
//! triple-quote-delimited regions of script files), decides per region whether
//! the statement may be reformatted, reformats eligible regions through an
//! external SQL pretty-printer, and splices the result back with the region's
//! original indentation. All text is handled as bytes; the scanning and
//! splicing engine is verified, the pretty-printer is a trusted collaborator.

pub mod canon;
pub mod engine;
pub mod laws;
pub mod text;
