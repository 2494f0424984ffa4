//! Reading and writing EFF effect descriptor files.
//!
//! The crate has two layers: [`EffFile`] mirrors the on-disk container
//! (index-based records, nul-terminated name tables and a trailing resource
//! blob) and [`EffData`] is its name-based, self-contained projection.
use vstd::prelude::*;

pub mod string;
pub mod flags;
pub mod container;
pub mod data;

pub use string::CString;
pub use flags::{EffectHandleFlags, EffectHandleDataFlags};
pub use container::{EffFile, EffectHandle, EffectGroupElement, EffectModelEntry};
pub use data::{EffData, EffectHandleData, EffectGroupElementData, EffectModelEntryData};

verus! {

/// The ways in which decoding a container or projecting it can fail.
#[derive(Debug, Clone, Copy, PartialEq, Eq, Structural)]
pub enum EffError {
    /// The first four bytes are not the container signature.
    BadMagic,
    /// The input ended inside a record, a string or the header.
    Truncated,
    /// A header count is negative.
    BadCount,
    /// An index or a range points outside the table it refers to.
    CorruptIndex,
    /// A name is not valid UTF-8 text.
    InvalidText,
}

} // verus!
