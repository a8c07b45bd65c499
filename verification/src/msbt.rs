//! The container: a header and the sections it lists, with the total file
//! size that follows from them.

use vstd::prelude::*;
use crate::header::{Header, HeaderView, HEADER_SIZE};
use crate::section::ato1::Ato1;
use crate::section::atr1::Atr1;
use crate::section::lbl1::{Lbl1, Lbl1View};
use crate::section::nli1::Nli1;
use crate::section::tsy1::Tsy1;
use crate::section::txt2::{Txt2, Txt2View};
use crate::section::BlobView;

verus! {

/// The boundary that every section is padded to.
pub const PADDING_BOUNDARY: usize = 16;

/// The kinds of section that a container can hold.
#[derive(Debug, Clone, Copy, PartialEq, Eq, Structural)]
pub enum SectionTag {
    Lbl1,
    Nli1,
    Ato1,
    Atr1,
    Tsy1,
    Txt2,
}

/// Padding bytes needed behind `position` to reach the next boundary.
pub open spec fn padding_after(position: nat) -> nat {
    let boundary = PADDING_BOUNDARY as int;
    ((boundary - (position as int) % boundary) % boundary) as nat
}

/// A container, or a container in the making, as plain values.
pub struct MsbtView {
    pub header: HeaderView,
    pub section_order: Seq<SectionTag>,
    pub lbl1: Option<Lbl1View>,
    pub nli1: Option<BlobView>,
    pub ato1: Option<BlobView>,
    pub atr1: Option<BlobView>,
    pub tsy1: Option<BlobView>,
    pub txt2: Option<Txt2View>,
    pub pad_byte: u8,
}

impl MsbtView {
    /// Whether the section of the given kind is there.
    pub open spec fn has(self, tag: SectionTag) -> bool {
        match tag {
            SectionTag::Lbl1 => self.lbl1 is Some,
            SectionTag::Nli1 => self.nli1 is Some,
            SectionTag::Ato1 => self.ato1 is Some,
            SectionTag::Atr1 => self.atr1 is Some,
            SectionTag::Tsy1 => self.tsy1 is Some,
            SectionTag::Txt2 => self.txt2 is Some,
        }
    }

    /// Bytes of the section of the given kind, frame included, as its
    /// content stands; nothing where the section is not there.
    pub open spec fn section_size(self, tag: SectionTag) -> nat {
        match tag {
            SectionTag::Lbl1 => match self.lbl1 {
                Some(table) => table.calc_size(),
                None => 0,
            },
            SectionTag::Nli1 => match self.nli1 {
                Some(blob) => blob.calc_size(),
                None => 0,
            },
            SectionTag::Ato1 => match self.ato1 {
                Some(blob) => blob.calc_size(),
                None => 0,
            },
            SectionTag::Atr1 => match self.atr1 {
                Some(blob) => blob.calc_size(),
                None => 0,
            },
            SectionTag::Tsy1 => match self.tsy1 {
                Some(blob) => blob.calc_size(),
                None => 0,
            },
            SectionTag::Txt2 => match self.txt2 {
                Some(table) => table.calc_size(),
                None => 0,
            },
        }
    }

    /// The file position behind the first `count` listed sections: the
    /// header, then each section that is there with its frame, its payload
    /// and the padding that takes it to the next boundary.
    pub open spec fn size_through(self, count: nat) -> nat
        decreases count,
    {
        if count == 0 {
            HEADER_SIZE as nat
        } else {
            let before = self.size_through((count - 1) as nat);
            let tag = self.section_order[count - 1];
            if self.has(tag) {
                let end = before + self.section_size(tag);
                end + padding_after(end)
            } else {
                before
            }
        }
    }

    /// The total file size: the position behind the last listed section.
    pub open spec fn file_size(self) -> nat {
        self.size_through(self.section_order.len())
    }

    /// The number of text entries; none where there is no text table.
    pub open spec fn entry_count(self) -> nat {
        match self.txt2 {
            Some(table) => table.values.len(),
            None => 0,
        }
    }

    /// Whether every label is bound to a text entry that is there.
    pub open spec fn labels_bound(self) -> bool {
        self.lbl1 matches Some(table) ==> forall|i: int|
            0 <= i < table.labels.len() ==> (#[trigger] table.labels[i]).index
                < self.entry_count()
    }

    /// Whether the section list names each section that is there once, and no other.
    pub open spec fn sections_listed(self) -> bool {
        &&& self.section_order.no_duplicates()
        &&& forall|tag: SectionTag| #[trigger] self.section_order.contains(tag) <==> self.has(tag)
    }

    /// What every container keeps: a valid label table, labels bound to
    /// entries that are there, and a section list that names exactly the
    /// sections that are there.
    pub open spec fn wf(self) -> bool {
        &&& self.lbl1 matches Some(table) ==> table.wf()
        &&& self.labels_bound()
        &&& self.sections_listed()
    }

    /// The container with the header's total file size brought up to date.
    pub open spec fn sized(self) -> MsbtView {
        MsbtView {
            header: HeaderView { file_size: self.file_size() as u32, ..self.header },
            ..self
        }
    }

    /// The container with both tables brought up to date.
    pub open spec fn with_tables_updated(self) -> MsbtView {
        MsbtView {
            lbl1: match self.lbl1 {
                Some(table) => Some(table.updated()),
                None => None,
            },
            txt2: match self.txt2 {
                Some(table) => Some(table.updated()),
                None => None,
            },
            ..self
        }
    }

    /// The container after the whole recomputation: the tables first, the
    /// total file size last.
    pub open spec fn built(self) -> MsbtView {
        self.with_tables_updated().sized()
    }
}

/// The position behind some sections is at most the position behind more of them.
pub proof fn lemma_size_through_grows(container: MsbtView, fewer: nat, more: nat)
    requires
        fewer <= more,
    ensures
        container.size_through(fewer) <= container.size_through(more),
    decreases more - fewer,
{
    if fewer < more {
        lemma_size_through_grows(container, fewer, (more - 1) as nat);
    }
}

/// A listed section that is there fits into the file.
pub proof fn lemma_section_within_file(container: MsbtView, tag: SectionTag)
    requires
        container.section_order.contains(tag),
    ensures
        container.section_size(tag) <= container.file_size(),
{
    let at = choose|i: int|
        0 <= i < container.section_order.len() && container.section_order[i] == tag;
    lemma_size_through_grows(container, (at + 1) as nat, container.section_order.len());
}

/// Two containers that list the same sections with the same sizes are
/// equally long up to any point.
pub proof fn lemma_size_through_same(first: MsbtView, second: MsbtView, count: nat)
    requires
        first.section_order == second.section_order,
        forall|tag: SectionTag| first.has(tag) == second.has(tag),
        forall|tag: SectionTag| first.section_size(tag) == second.section_size(tag),
    ensures
        first.size_through(count) == second.size_through(count),
    decreases count,
{
    if count > 0 {
        lemma_size_through_same(first, second, (count - 1) as nat);
    }
}

/// Bringing the tables up to date changes neither the section list, nor
/// which sections are there, nor any size: the file is as long as before.
pub proof fn lemma_update_keeps_size(container: MsbtView)
    ensures
        container.with_tables_updated().section_order == container.section_order,
        forall|tag: SectionTag| container.with_tables_updated().has(tag) == container.has(tag),
        container.with_tables_updated().file_size() == container.file_size(),
        container.built().section_order == container.section_order,
        forall|tag: SectionTag| container.built().has(tag) == container.has(tag),
{
    let updated = container.with_tables_updated();
    assert forall|tag: SectionTag| updated.section_size(tag) == container.section_size(tag) by {
        if let Some(table) = container.lbl1 {
            assert(table.updated().groups.len() == table.groups.len());
        }
    }
    lemma_size_through_same(updated, container, container.section_order.len());
}

/// A container: the header, the sections that are there, and the order in
/// which they are written.
#[derive(Debug, Clone)]
pub struct Msbt {
    pub(crate) header: Header,
    pub(crate) section_order: Vec<SectionTag>,
    pub(crate) lbl1: Option<Lbl1>,
    pub(crate) nli1: Option<Nli1>,
    pub(crate) ato1: Option<Ato1>,
    pub(crate) atr1: Option<Atr1>,
    pub(crate) tsy1: Option<Tsy1>,
    pub(crate) txt2: Option<Txt2>,
    pub(crate) pad_byte: u8,
}

impl View for Msbt {
    type V = MsbtView;

    closed spec fn view(&self) -> MsbtView {
        MsbtView {
            header: self.header@,
            section_order: self.section_order@,
            lbl1: match self.lbl1 {
                Some(table) => Some(table@),
                None => None,
            },
            nli1: match self.nli1 {
                Some(blob) => Some(blob@),
                None => None,
            },
            ato1: match self.ato1 {
                Some(blob) => Some(blob@),
                None => None,
            },
            atr1: match self.atr1 {
                Some(blob) => Some(blob@),
                None => None,
            },
            tsy1: match self.tsy1 {
                Some(blob) => Some(blob@),
                None => None,
            },
            txt2: match self.txt2 {
                Some(table) => Some(table@),
                None => None,
            },
            pad_byte: self.pad_byte,
        }
    }
}

impl Msbt {
    /// The header.
    pub fn header(&self) -> (header: &Header)
        ensures
            header@ == self@.header,
    {
        &self.header
    }

    /// The kinds of the sections, in the order in which they are written.
    pub fn section_order(&self) -> (order: &[SectionTag])
        ensures
            order@ == self@.section_order,
    {
        self.section_order.as_slice()
    }

    /// The label table, if there is one.
    pub fn lbl1(&self) -> (table: Option<&Lbl1>)
        ensures
            table is Some == self@.lbl1 is Some,
            table matches Some(found) ==> self@.lbl1 == Some(found@),
    {
        self.lbl1.as_ref()
    }

    /// The numeric lookup section, if there is one.
    pub fn nli1(&self) -> (section: Option<&Nli1>)
        ensures
            section is Some == self@.nli1 is Some,
            section matches Some(found) ==> self@.nli1 == Some(found@),
    {
        self.nli1.as_ref()
    }

    /// The attribute offset section, if there is one.
    pub fn ato1(&self) -> (section: Option<&Ato1>)
        ensures
            section is Some == self@.ato1 is Some,
            section matches Some(found) ==> self@.ato1 == Some(found@),
    {
        self.ato1.as_ref()
    }

    /// The attribute section, if there is one.
    pub fn atr1(&self) -> (section: Option<&Atr1>)
        ensures
            section is Some == self@.atr1 is Some,
            section matches Some(found) ==> self@.atr1 == Some(found@),
    {
        self.atr1.as_ref()
    }

    /// The text style section, if there is one.
    pub fn tsy1(&self) -> (section: Option<&Tsy1>)
        ensures
            section is Some == self@.tsy1 is Some,
            section matches Some(found) ==> self@.tsy1 == Some(found@),
    {
        self.tsy1.as_ref()
    }

    /// The text table, if there is one.
    pub fn txt2(&self) -> (table: Option<&Txt2>)
        ensures
            table is Some == self@.txt2 is Some,
            table matches Some(found) ==> self@.txt2 == Some(found@),
    {
        self.txt2.as_ref()
    }

    /// The byte that padding is filled with.
    pub fn pad_byte(&self) -> (byte: u8)
        ensures
            byte == self@.pad_byte,
    {
        self.pad_byte
    }

    /// Chooses the byte that padding is filled with. No size depends on it.
    pub fn set_pad_byte(&mut self, byte: u8)
        ensures
            final(self)@ == (MsbtView { pad_byte: byte, ..old(self)@ }),
    {
        self.pad_byte = byte;
    }

    /// Bytes of the section of the given kind, frame included; `None` where
    /// the section is not there.
    fn section_size(&self, tag: SectionTag) -> (size: Option<usize>)
        requires
            self@.section_size(tag) <= usize::MAX,
        ensures
            size is Some == self@.has(tag),
            size matches Some(bytes) ==> bytes == self@.section_size(tag),
    {
        match tag {
            SectionTag::Lbl1 => match &self.lbl1 {
                Some(table) => Some(table.calc_size()),
                None => None,
            },
            SectionTag::Nli1 => match &self.nli1 {
                Some(blob) => Some(blob.calc_size()),
                None => None,
            },
            SectionTag::Ato1 => match &self.ato1 {
                Some(blob) => Some(blob.calc_size()),
                None => None,
            },
            SectionTag::Atr1 => match &self.atr1 {
                Some(blob) => Some(blob.calc_size()),
                None => None,
            },
            SectionTag::Tsy1 => match &self.tsy1 {
                Some(blob) => Some(blob.calc_size()),
                None => None,
            },
            SectionTag::Txt2 => match &self.txt2 {
                Some(table) => Some(table.calc_size()),
                None => None,
            },
        }
    }

    /// The total file size as the content stands: the header, then each
    /// listed section that is there, padded to the boundary.
    pub fn calc_file_size(&self) -> (size: usize)
        requires
            self@.file_size() <= usize::MAX,
        ensures
            size == self@.file_size(),
    {
        let count = self.section_order.len();
        let mut position: usize = HEADER_SIZE;
        let mut i: usize = 0;
        while i < count
            invariant
                count == self@.section_order.len(),
                count == self.section_order@.len(),
                self.section_order@ == self@.section_order,
                i <= count,
                self@.file_size() <= usize::MAX,
                position == self@.size_through(i as nat),
            decreases count - i,
        {
            proof {
                lemma_size_through_grows(self@, (i + 1) as nat, count as nat);
            }
            let tag = self.section_order[i];
            if let Some(size) = self.section_size(tag) {
                let end = position + size;
                position = end + (PADDING_BOUNDARY - end % PADDING_BOUNDARY) % PADDING_BOUNDARY;
            }
            i = i + 1;
        }
        position
    }

    /// Brings the header's total file size up to date. The sections are
    /// taken as their content stands.
    pub fn update(&mut self)
        requires
            old(self)@.file_size() <= u32::MAX,
        ensures
            final(self)@ == old(self)@.sized(),
    {
        let size = self.calc_file_size();
        self.header = self.header.with_file_size(size as u32);
    }

    /// A container made of the given parts.
    pub(crate) fn from_parts(
        header: Header,
        section_order: Vec<SectionTag>,
        lbl1: Option<Lbl1>,
        nli1: Option<Nli1>,
        ato1: Option<Ato1>,
        atr1: Option<Atr1>,
        tsy1: Option<Tsy1>,
        txt2: Option<Txt2>,
        pad_byte: u8,
    ) -> (msbt: Msbt)
        ensures
            msbt@.header == header@,
            msbt@.section_order == section_order@,
            msbt@.lbl1 is Some == lbl1 is Some,
            lbl1 matches Some(table) ==> msbt@.lbl1 == Some(table@),
            msbt@.nli1 is Some == nli1 is Some,
            nli1 matches Some(blob) ==> msbt@.nli1 == Some(blob@),
            msbt@.ato1 is Some == ato1 is Some,
            ato1 matches Some(blob) ==> msbt@.ato1 == Some(blob@),
            msbt@.atr1 is Some == atr1 is Some,
            atr1 matches Some(blob) ==> msbt@.atr1 == Some(blob@),
            msbt@.tsy1 is Some == tsy1 is Some,
            tsy1 matches Some(blob) ==> msbt@.tsy1 == Some(blob@),
            msbt@.txt2 is Some == txt2 is Some,
            txt2 matches Some(table) ==> msbt@.txt2 == Some(table@),
            msbt@.pad_byte == pad_byte,
    {
        Msbt { header, section_order, lbl1, nli1, ato1, atr1, tsy1, txt2, pad_byte }
    }
}

} // verus!
