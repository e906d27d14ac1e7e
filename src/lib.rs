//! Reading and writing of POD5 files: the VBZ signal codec, the footer index,
//! the file envelope and a single-pass writer.

pub mod svb16;
pub mod le;
pub mod footer;
pub mod reader;
pub mod writer;
pub mod record;
