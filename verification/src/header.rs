//! The fixed-size header in front of a container's sections.

use vstd::prelude::*;
use crate::endian::Endianness;

verus! {

/// The eight bytes that open every container.
pub const HEADER_MAGIC: [u8; 8] = [0x4D, 0x73, 0x67, 0x53, 0x74, 0x64, 0x42, 0x6E];

/// Bytes that the header takes when written out.
pub const HEADER_SIZE: usize = 32;

/// How the text of a container is encoded.
#[derive(Debug, Clone, Copy, PartialEq, Eq, Structural)]
pub enum Encoding {
    Utf8,
    Utf16,
}

/// The header of a container. Of its fields only the total file size is
/// ever recomputed; the others are carried as they were set.
#[derive(Debug, Clone, Copy, PartialEq, Eq)]
pub struct Header {
    pub(crate) magic: [u8; 8],
    pub(crate) endianness: Endianness,
    pub(crate) _unknown_1: u16,
    pub(crate) encoding: Encoding,
    pub(crate) _unknown_2: u8,
    pub(crate) section_count: u16,
    pub(crate) _unknown_3: u16,
    pub(crate) file_size: u32,
    pub(crate) padding: [u8; 10],
}

/// A header as plain values.
pub struct HeaderView {
    pub magic: Seq<u8>,
    pub endianness: Endianness,
    pub unknown_1: u16,
    pub encoding: Encoding,
    pub unknown_2: u8,
    pub section_count: u16,
    pub unknown_3: u16,
    pub file_size: u32,
    pub padding: Seq<u8>,
}

impl View for Header {
    type V = HeaderView;

    closed spec fn view(&self) -> HeaderView {
        HeaderView {
            magic: self.magic@,
            endianness: self.endianness,
            unknown_1: self._unknown_1,
            encoding: self.encoding,
            unknown_2: self._unknown_2,
            section_count: self.section_count,
            unknown_3: self._unknown_3,
            file_size: self.file_size,
            padding: self.padding@,
        }
    }
}

impl HeaderView {
    /// The header of a container that was just begun: the magic bytes, the
    /// given byte order, encoding and section count, a file size of zero.
    pub open spec fn fresh(
        endianness: Endianness,
        encoding: Encoding,
        section_count: u16,
    ) -> HeaderView {
        HeaderView {
            magic: HEADER_MAGIC@,
            endianness,
            unknown_1: 0,
            encoding,
            unknown_2: 3,
            section_count,
            unknown_3: 0,
            file_size: 0,
            padding: Seq::new(10, |i: int| 0u8),
        }
    }
}

impl Header {
    /// The header of a container that was just begun.
    pub fn new(endianness: Endianness, encoding: Encoding, section_count: u16) -> (header: Header)
        ensures
            header@ == HeaderView::fresh(endianness, encoding, section_count),
    {
        let header = Header {
            magic: HEADER_MAGIC,
            endianness,
            _unknown_1: 0,
            encoding,
            _unknown_2: 3,
            section_count,
            _unknown_3: 0,
            file_size: 0,
            padding: [0, 0, 0, 0, 0, 0, 0, 0, 0, 0],
        };
        assert(header@.padding =~= Seq::new(10, |i: int| 0u8));
        header
    }

    /// The byte order of the container's fields.
    pub fn endianness(&self) -> (endianness: Endianness)
        ensures
            endianness == self@.endianness,
    {
        self.endianness
    }

    /// The encoding of the container's text.
    pub fn encoding(&self) -> (encoding: Encoding)
        ensures
            encoding == self@.encoding,
    {
        self.encoding
    }

    /// The number of sections that the header declares.
    pub fn section_count(&self) -> (count: u16)
        ensures
            count == self@.section_count,
    {
        self.section_count
    }

    /// The total file size that the header declares.
    pub fn file_size(&self) -> (size: u32)
        ensures
            size == self@.file_size,
    {
        self.file_size
    }

    /// The same header with another total file size.
    pub fn with_file_size(&self, file_size: u32) -> (header: Header)
        ensures
            header@ == (HeaderView { file_size, ..self@ }),
    {
        Header {
            magic: self.magic,
            endianness: self.endianness,
            _unknown_1: self._unknown_1,
            encoding: self.encoding,
            _unknown_2: self._unknown_2,
            section_count: self.section_count,
            _unknown_3: self._unknown_3,
            file_size,
            padding: self.padding,
        }
    }

    /// Bytes that the header takes when written out.
    pub fn calc_size(&self) -> (size: usize)
        ensures
            size == HEADER_SIZE,
    {
        HEADER_SIZE
    }
}

} // verus!
