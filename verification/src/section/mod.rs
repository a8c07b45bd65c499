//! The frame shared by every section, and the section kinds.

use vstd::prelude::*;

pub mod ato1;
pub mod atr1;
pub mod lbl1;
pub mod nli1;
pub mod roundtrip;
pub mod tsy1;
pub mod txt2;

pub use self::ato1::Ato1;
pub use self::atr1::Atr1;
pub use self::lbl1::{Group, Label, Lbl1};
pub use self::nli1::Nli1;
pub use self::tsy1::Tsy1;
pub use self::txt2::{parse_bytes, Token, Txt2};

verus! {

/// Bytes taken by a section's frame: the tag and the size field.
pub const FRAME_SIZE: usize = 8;

/// The envelope in front of every section: a four-byte tag and the length of
/// the payload that follows, the frame itself not counted.
#[derive(Debug, Clone, Copy, PartialEq, Eq)]
pub struct Section {
    pub(crate) tag: [u8; 4],
    pub(crate) size: u32,
}

/// What a frame holds, as plain values.
pub struct SectionView {
    pub tag: Seq<u8>,
    pub size: u32,
}

impl View for Section {
    type V = SectionView;

    closed spec fn view(&self) -> SectionView {
        SectionView { tag: self.tag@, size: self.size }
    }
}

impl Section {
    /// A frame with the given tag and declared payload size.
    pub fn new(tag: [u8; 4], size: u32) -> (section: Section)
        ensures
            section@ == (SectionView { tag: tag@, size }),
    {
        Section { tag, size }
    }

    /// The four tag bytes.
    pub fn tag(&self) -> (tag: [u8; 4])
        ensures
            tag@ == self@.tag,
    {
        self.tag
    }

    /// The declared payload size.
    pub fn size(&self) -> (size: u32)
        ensures
            size == self@.size,
    {
        self.size
    }

    /// Bytes that the frame itself takes when written out.
    pub fn calc_size(&self) -> (size: usize)
        ensures
            size == FRAME_SIZE,
    {
        FRAME_SIZE
    }
}

/// A section that is carried through as raw bytes, as plain values.
pub struct BlobView {
    pub section: SectionView,
    pub bytes: Seq<u8>,
}

impl BlobView {
    /// Bytes of the whole section, frame included.
    pub open spec fn calc_size(self) -> nat {
        FRAME_SIZE as nat + self.bytes.len()
    }
}

} // verus!
