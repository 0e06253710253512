//! Options of a conversion job.

use vstd::prelude::*;

verus! {

/// How the point data is encoded.
#[derive(Clone, Copy, Debug, PartialEq, Eq, Structural)]
pub enum Encoding {
    /// Plain point records.
    DEFAULT,
    /// Compressed point records.
    BROTLI,
}

/// Options of a conversion job.
pub struct Options {
    pub keep_chunks: bool,
    pub name: String,
    pub encoding: Encoding,
}

} // verus!
