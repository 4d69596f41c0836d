pub mod appstate;
pub mod checksum;
pub mod codec;
pub mod container;
pub mod pipeline;
pub mod refset;
pub mod remap;
pub mod report;
pub mod value;

use vstd::prelude::*;

verus! {

/// The error taxonomy of the library: a bad container signature or length,
/// structural corruption of the document bytes, or a missing field or shape
/// in an object entry or link record.
#[derive(Debug, Clone, Copy, PartialEq, Eq, Structural)]
pub enum Error {
    Format,
    Decode,
    Schema,
}

} // verus!
