//! The text style section, carried through as raw bytes.

use vstd::prelude::*;
use crate::section::{BlobView, Section, SectionView, FRAME_SIZE};

verus! {

/// The tag of the text style section.
pub const TSY1_TAG: [u8; 4] = [0x54, 0x53, 0x59, 0x31];

/// The text style section. Its bytes are kept as they are and never looked into.
#[derive(Debug, Clone)]
pub struct Tsy1 {
    pub(crate) section: Section,
    pub(crate) _unknown: Vec<u8>,
}

impl View for Tsy1 {
    type V = BlobView;

    closed spec fn view(&self) -> BlobView {
        BlobView { section: self.section@, bytes: self._unknown@ }
    }
}

impl Tsy1 {
    /// A section that holds `unknown_bytes` and declares their number as its
    /// size. The number must fit the frame's 32-bit size field.
    pub fn new_unlinked(unknown_bytes: Vec<u8>) -> (section: Tsy1)
        requires
            unknown_bytes@.len() <= u32::MAX,
        ensures
            section@ == (BlobView {
                section: SectionView { tag: TSY1_TAG@, size: unknown_bytes@.len() as u32 },
                bytes: unknown_bytes@,
            }),
            section@.section.size == section@.calc_size() - FRAME_SIZE,
    {
        Tsy1 {
            section: Section::new(TSY1_TAG, unknown_bytes.len() as u32),
            _unknown: unknown_bytes,
        }
    }

    /// The section's frame.
    pub fn section(&self) -> (section: &Section)
        ensures
            section@ == self@.section,
    {
        &self.section
    }

    /// The bytes that the section holds.
    pub fn unknown_bytes(&self) -> (bytes: &[u8])
        ensures
            bytes@ == self@.bytes,
    {
        self._unknown.as_slice()
    }

    /// Bytes of the whole section, frame included.
    pub fn calc_size(&self) -> (size: usize)
        requires
            self@.calc_size() <= usize::MAX,
        ensures
            size == self@.calc_size(),
    {
        self.section.calc_size() + self._unknown.len()
    }
}

} // verus!
