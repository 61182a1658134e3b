//! Parser and serializer for the PICO-8 `.p8` cartridge container format.
//!
//! A cartridge file is a two-line header (signature line and version line)
//! followed by marked sections: up to sixteen code tabs inside a `__lua__`
//! section, a mandatory `__gfx__` section, and optional label, `__gff__`,
//! `__map__`, `__sfx__` and `__music__` sections.  Parsing slices the byte
//! stream into those sections; serializing rebuilds the byte stream in a
//! fixed canonical order.

pub mod bytes;
pub mod cart;
pub mod fifo;
pub mod header;
pub mod roundtrip;
pub mod section;

pub use cart::{Asset, CartData, Tab};
pub use fifo::Fifo;
pub use header::{Header, Version};
pub use section::{Section, SectionDelimiter, SectionType};

use vstd::prelude::*;

verus! {

/// A fatal parse failure: the input cannot be read as a cartridge at all.
#[derive(Clone, Copy, Debug, PartialEq, Eq, Structural)]
pub enum StructuralError {
    /// The two-line header could not be split off the input.
    MalformedHeader,
    /// No graphics section was found; it is the one mandatory section.
    MissingGfx,
}

/// A failure to read the numeric version out of the header's version line.
#[derive(Clone, Copy, Debug, PartialEq, Eq, Structural)]
pub enum FormatError {
    /// The version line holds no space-separated unsigned decimal number
    /// that fits the version's integer width.
    InvalidVersion,
}

} // verus!
