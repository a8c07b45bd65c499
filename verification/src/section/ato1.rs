//! The attribute offset section, carried through as raw bytes.

use vstd::prelude::*;
use crate::section::{BlobView, Section, SectionView, FRAME_SIZE};

verus! {

/// The tag of the attribute offset section.
pub const ATO1_TAG: [u8; 4] = [0x41, 0x54, 0x4F, 0x31];

/// The attribute offset section. Its bytes are kept as they are and never looked into.
#[derive(Debug, Clone)]
pub struct Ato1 {
    pub(crate) section: Section,
    pub(crate) _unknown: Vec<u8>,
}

impl View for Ato1 {
    type V = BlobView;

    closed spec fn view(&self) -> BlobView {
        BlobView { section: self.section@, bytes: self._unknown@ }
    }
}

impl Ato1 {
    /// A section that holds `unknown_bytes` and declares their number as its
    /// size. The number must fit the frame's 32-bit size field.
    pub fn new_unlinked(unknown_bytes: Vec<u8>) -> (section: Ato1)
        requires
            unknown_bytes@.len() <= u32::MAX,
        ensures
            section@ == (BlobView {
                section: SectionView { tag: ATO1_TAG@, size: unknown_bytes@.len() as u32 },
                bytes: unknown_bytes@,
            }),
            section@.section.size == section@.calc_size() - FRAME_SIZE,
    {
        Ato1 {
            section: Section::new(ATO1_TAG, unknown_bytes.len() as u32),
            _unknown: unknown_bytes,
        }
    }

    /// The section's frame.
    pub fn section(&self) -> (section: &Section)
        ensures
            section@ == self@.section,
    {
        &self.section
    }

    /// The bytes that the section holds.
    pub fn unknown_bytes(&self) -> (bytes: &[u8])
        ensures
            bytes@ == self@.bytes,
    {
        self._unknown.as_slice()
    }

    /// Bytes of the whole section, frame included.
    pub fn calc_size(&self) -> (size: usize)
        requires
            self@.calc_size() <= usize::MAX,
        ensures
            size == self@.calc_size(),
    {
        self.section.calc_size() + self._unknown.len()
    }
}

} // verus!
