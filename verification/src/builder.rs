//! Building a container step by step.

use vstd::prelude::*;
use crate::endian::Endianness;
use crate::error::MsbtError;
use crate::header::{Encoding, Header, HeaderView};
use crate::msbt::{lemma_section_within_file, lemma_update_keeps_size, Msbt, MsbtView, SectionTag};
use crate::section::ato1::Ato1;
use crate::section::atr1::Atr1;
use crate::section::lbl1::{LabelView, Lbl1, Lbl1View};
use crate::section::nli1::Nli1;
use crate::section::tsy1::Tsy1;
use crate::section::txt2::{parse_bytes, spec_decode, Token, TokenView, Txt2, Txt2View};
use crate::section::BlobView;

verus! {

/// The section list with `tag` in last place: where the list holds `tag`, its
/// first occurrence is taken out before `tag` is put behind the others.
pub open spec fn listed_last(order: Seq<SectionTag>, tag: SectionTag) -> Seq<SectionTag> {
    match order.index_of_first(tag) {
        Some(at) => order.remove(at).push(tag),
        None => order.push(tag),
    }
}

impl MsbtView {
    /// The container that a new builder stands for. With a bucket count it
    /// holds an empty label table and an empty text table and lists both;
    /// without one it holds and lists nothing.
    pub open spec fn fresh(
        endianness: Endianness,
        encoding: Encoding,
        group_count: Option<u32>,
    ) -> MsbtView {
        match group_count {
            Some(count) => MsbtView {
                header: HeaderView::fresh(endianness, encoding, 2),
                section_order: seq![SectionTag::Lbl1, SectionTag::Txt2],
                lbl1: Some(Lbl1View::empty(count as nat)),
                nli1: None,
                ato1: None,
                atr1: None,
                tsy1: None,
                txt2: Some(Txt2View::empty()),
                pad_byte: 0,
            },
            None => MsbtView {
                header: HeaderView::fresh(endianness, encoding, 0),
                section_order: Seq::empty(),
                lbl1: None,
                nli1: None,
                ato1: None,
                atr1: None,
                tsy1: None,
                txt2: None,
                pad_byte: 0,
            },
        }
    }

    /// The container with one more text entry and a label bound to it.
    /// Where either table is missing, nothing changes.
    pub open spec fn with_entry(self, name: Seq<char>, value: Seq<TokenView>) -> MsbtView {
        match (self.lbl1, self.txt2) {
            (Some(labels), Some(texts)) => MsbtView {
                lbl1: Some(
                    labels.with_label(LabelView { name, index: texts.values.len() as u32 }),
                ),
                txt2: Some(texts.with_value(value)),
                ..self
            },
            _ => self,
        }
    }

    /// What adding an entry given as a raw stream comes to: nothing changes
    /// where either table is missing; otherwise the stream is decoded in the
    /// byte order that the header declares, and its tokens become the entry
    /// or its error is the outcome.
    pub open spec fn with_raw_entry(self, name: Seq<char>, value: Seq<u8>) -> Result<
        MsbtView,
        MsbtError,
    > {
        if self.lbl1 is None || self.txt2 is None {
            Ok(self)
        } else {
            match spec_decode(value, self.header.endianness) {
                Ok(tokens) => Ok(self.with_entry(name, tokens)),
                Err(error) => Err(error),
            }
        }
    }

    /// Whether every label is bound to an entry below `entry_count`.
    pub open spec fn labels_below(self, entry_count: nat) -> bool {
        match self.lbl1 {
            Some(table) => forall|i: int|
                0 <= i < table.labels.len() ==> (#[trigger] table.labels[i]).index < entry_count,
            None => true,
        }
    }

    /// The container with the given numeric lookup section, listed last.
    pub open spec fn with_nli1(self, blob: BlobView) -> MsbtView {
        MsbtView {
            section_order: listed_last(self.section_order, SectionTag::Nli1),
            nli1: Some(blob),
            ..self
        }
    }

    /// The container with the given attribute offset section, listed last.
    pub open spec fn with_ato1(self, blob: BlobView) -> MsbtView {
        MsbtView {
            section_order: listed_last(self.section_order, SectionTag::Ato1),
            ato1: Some(blob),
            ..self
        }
    }

    /// The container with the given attribute section, listed last.
    pub open spec fn with_atr1(self, blob: BlobView) -> MsbtView {
        MsbtView {
            section_order: listed_last(self.section_order, SectionTag::Atr1),
            atr1: Some(blob),
            ..self
        }
    }

    /// The container with the given text style section, listed last.
    pub open spec fn with_tsy1(self, blob: BlobView) -> MsbtView {
        MsbtView {
            section_order: listed_last(self.section_order, SectionTag::Tsy1),
            tsy1: Some(blob),
            ..self
        }
    }

    /// The container with the given text table, listed last.
    pub open spec fn with_txt2(self, table: Txt2View) -> MsbtView {
        MsbtView {
            section_order: listed_last(self.section_order, SectionTag::Txt2),
            txt2: Some(table),
            ..self
        }
    }
}

/// Putting a tag last keeps a list free of repetitions, and adds that tag
/// to what it names and nothing else.
pub proof fn lemma_listed_last(order: Seq<SectionTag>, tag: SectionTag)
    requires
        order.no_duplicates(),
    ensures
        listed_last(order, tag).no_duplicates(),
        forall|other: SectionTag| #[trigger]
            listed_last(order, tag).contains(other) <==> order.contains(other) || other == tag,
{
    let moved = listed_last(order, tag);
    order.index_of_first_ensures(tag);
    match order.index_of_first(tag) {
        Some(at) => {
            let without = order.remove(at);
            order.remove_ensures(at);
            assert forall|i: int| 0 <= i < without.len() implies #[trigger] without[i] != tag by {
                if i < at {
                    assert(without[i] == order[i]);
                } else {
                    assert(without[i] == order[i + 1]);
                }
            }
            assert forall|i: int, j: int|
                0 <= i < moved.len() && 0 <= j < moved.len() && i != j implies moved[i]
                != moved[j] by {
                let from = |k: int|
                    if k < at {
                        k
                    } else {
                        k + 1
                    };
                if i < without.len() {
                    assert(moved[i] == order[from(i)]);
                }
                if j < without.len() {
                    assert(moved[j] == order[from(j)]);
                }
            }
            assert forall|other: SectionTag| #[trigger]
                moved.contains(other) <==> order.contains(other) || other == tag by {
                if moved.contains(other) {
                    let i = choose|i: int| 0 <= i < moved.len() && moved[i] == other;
                    if i < without.len() {
                        if i < at {
                            assert(order[i] == other);
                        } else {
                            assert(order[i + 1] == other);
                        }
                    }
                }
                if order.contains(other) && other != tag {
                    let i = choose|i: int| 0 <= i < order.len() && order[i] == other;
                    if i < at {
                        assert(moved[i] == other);
                    } else {
                        assert(moved[i - 1] == other);
                    }
                }
                if other == tag {
                    assert(moved[moved.len() - 1] == tag);
                }
            }
        },
        None => {
            assert forall|other: SectionTag| #[trigger]
                moved.contains(other) <==> order.contains(other) || other == tag by {
                if moved.contains(other) {
                    let i = choose|i: int| 0 <= i < moved.len() && moved[i] == other;
                    if i < order.len() {
                        assert(order[i] == other);
                    }
                }
                if order.contains(other) {
                    let i = choose|i: int| 0 <= i < order.len() && order[i] == other;
                    assert(moved[i] == other);
                }
                if other == tag {
                    assert(moved[moved.len() - 1] == tag);
                }
            }
        },
    }
}

/// A new container lists exactly the sections it was begun with: none
/// without a bucket count, the two empty tables with one. It is well formed
/// unless the bucket count is zero.
pub proof fn lemma_fresh_sections(
    endianness: Endianness,
    encoding: Encoding,
    group_count: Option<u32>,
)
    ensures
        ({
            let fresh = MsbtView::fresh(endianness, encoding, group_count);
            &&& group_count is None ==> fresh.section_order == Seq::<SectionTag>::empty()
                && forall|tag: SectionTag| !fresh.has(tag)
            &&& group_count is Some ==> fresh.section_order == seq![
                SectionTag::Lbl1,
                SectionTag::Txt2,
            ] && fresh.lbl1->Some_0.labels.len() == 0 && fresh.txt2->Some_0.values.len() == 0
            &&& group_count != Some(0u32) ==> fresh.wf()
            &&& fresh.built().section_order == fresh.section_order
        }),
{
    let fresh = MsbtView::fresh(endianness, encoding, group_count);
    lemma_update_keeps_size(fresh);
    match group_count {
        Some(count) => {
            let order = seq![SectionTag::Lbl1, SectionTag::Txt2];
            assert(order[0] == SectionTag::Lbl1);
            assert(order[1] == SectionTag::Txt2);
            assert forall|tag: SectionTag| #[trigger] order.contains(tag) <==> fresh.has(tag) by {}
            if count != 0 {
                crate::section::lbl1::lemma_empty_wf(count as nat);
            }
        },
        None => {},
    }
}

/// A built container lists, each once, exactly the sections that its
/// builder held: those it was begun with and those that were attached.
pub proof fn lemma_built_sections(builder: MsbtView)
    requires
        builder.wf(),
    ensures
        builder.built().wf(),
        builder.built().section_order == builder.section_order,
        builder.built().section_order.no_duplicates(),
        forall|tag: SectionTag| #[trigger]
            builder.built().section_order.contains(tag) <==> builder.has(tag),
{
    lemma_update_keeps_size(builder);
    let built = builder.built();
    assert forall|tag: SectionTag| built.has(tag) == builder.has(tag) by {}
    if let Some(table) = builder.lbl1 {
        crate::section::lbl1::lemma_updated_wf(table);
    }
}

/// Assembles a container: begun with a byte order, an encoding and, where
/// it is to hold labels, a bucket count; then filled label by label and
/// section by section; then built.
#[derive(Debug, Clone)]
pub struct MsbtBuilder {
    section_order: Vec<SectionTag>,
    header: Header,
    lbl1: Option<Lbl1>,
    txt2: Option<Txt2>,
    nli1: Option<Nli1>,
    ato1: Option<Ato1>,
    atr1: Option<Atr1>,
    tsy1: Option<Tsy1>,
    pad_byte: u8,
}

impl View for MsbtBuilder {
    type V = MsbtView;

    closed spec fn view(&self) -> MsbtView {
        MsbtView {
            header: self.header@,
            section_order: self.section_order@,
            lbl1: match self.lbl1 {
                Some(table) => Some(table@),
                None => None,
            },
            nli1: match self.nli1 {
                Some(blob) => Some(blob@),
                None => None,
            },
            ato1: match self.ato1 {
                Some(blob) => Some(blob@),
                None => None,
            },
            atr1: match self.atr1 {
                Some(blob) => Some(blob@),
                None => None,
            },
            tsy1: match self.tsy1 {
                Some(blob) => Some(blob@),
                None => None,
            },
            txt2: match self.txt2 {
                Some(table) => Some(table@),
                None => None,
            },
            pad_byte: self.pad_byte,
        }
    }
}

/// Puts `tag` in last place of the list, taking its first occurrence out first.
fn list_last(order: &mut Vec<SectionTag>, tag: SectionTag)
    ensures
        final(order)@ == listed_last(old(order)@, tag),
{
    let mut at: usize = 0;
    while at < order.len() && order[at] != tag
        invariant
            order@ == old(order)@,
            at <= order@.len(),
            forall|j: int| 0 <= j < at ==> order@[j] != tag,
        decreases order@.len() - at,
    {
        at = at + 1;
    }
    proof {
        order@.index_of_first_ensures(tag);
        if at < order@.len() {
            assert(order@.contains(tag));
            let first = order@.index_of_first(tag)->Some_0;
            assert(first == at) by {
                if first < at {
                    assert(order@[first] != tag);
                }
            }
        } else {
            assert(!order@.contains(tag));
        }
    }
    if at < order.len() {
        order.remove(at);
    }
    order.push(tag);
}

impl MsbtBuilder {
    /// Begins a container. With a bucket count it gets an empty label table
    /// of that many buckets and an empty text table; a bucket count of zero
    /// is refused.
    pub fn new(endianness: Endianness, encoding: Encoding, group_count: Option<u32>) -> (result:
        Result<MsbtBuilder, MsbtError>)
        ensures
            group_count == Some(0u32) <==> result is Err,
            result matches Err(error) ==> error == MsbtError::InvalidGroupCount,
            result matches Ok(builder) ==> builder@ == MsbtView::fresh(
                endianness,
                encoding,
                group_count,
            ) && builder@.wf(),
    {
        proof {
            lemma_fresh_sections(endianness, encoding, group_count);
        }
        match group_count {
            Some(count) => {
                let lbl1 = match Lbl1::new(count) {
                    Ok(table) => table,
                    Err(error) => {
                        return Err(error);
                    },
                };
                let mut section_order: Vec<SectionTag> = Vec::new();
                section_order.push(SectionTag::Lbl1);
                section_order.push(SectionTag::Txt2);
                assert(section_order@ =~= seq![SectionTag::Lbl1, SectionTag::Txt2]);
                Ok(
                    MsbtBuilder {
                        section_order,
                        header: Header::new(endianness, encoding, 2),
                        lbl1: Some(lbl1),
                        txt2: Some(Txt2::new()),
                        nli1: None,
                        ato1: None,
                        atr1: None,
                        tsy1: None,
                        pad_byte: 0,
                    },
                )
            },
            None => {
                let section_order: Vec<SectionTag> = Vec::new();
                assert(section_order@ =~= Seq::<SectionTag>::empty());
                Ok(
                    MsbtBuilder {
                        section_order,
                        header: Header::new(endianness, encoding, 0),
                        lbl1: None,
                        txt2: None,
                        nli1: None,
                        ato1: None,
                        atr1: None,
                        tsy1: None,
                        pad_byte: 0,
                    },
                )
            },
        }
    }

    /// The header as it stands.
    pub fn header(&self) -> (header: &Header)
        ensures
            header@ == self@.header,
    {
        &self.header
    }

    /// Adds a text entry given as tokens, and a label of the given name
    /// bound to it. A builder that was begun without a bucket count is left
    /// as it is.
    pub fn add_label_tokens(self, name: String, value: Vec<Token>) -> (builder: MsbtBuilder)
        requires
            self@.wf(),
            self@.lbl1 matches Some(table) ==> table.labels.len() < u32::MAX,
            self@.txt2 matches Some(table) ==> table.values.len() < u32::MAX,
        ensures
            builder@ == self@.with_entry(name@, value.deep_view()),
            builder@.wf(),
    {
        let ghost before = self@;
        let MsbtBuilder { section_order, header, lbl1, txt2, nli1, ato1, atr1, tsy1, pad_byte } =
            self;
        match (lbl1, txt2) {
            (Some(labels), Some(texts)) => {
                let mut labels = labels;
                let mut texts = texts;
                let index = texts.values().len() as u32;
                texts.push(value);
                labels.add_label(name, index);
                let builder = MsbtBuilder {
                    section_order,
                    header,
                    lbl1: Some(labels),
                    txt2: Some(texts),
                    nli1,
                    ato1,
                    atr1,
                    tsy1,
                    pad_byte,
                };
                proof {
                    let after = builder@;
                    let old_labels = before.lbl1->Some_0.labels;
                    let new_labels = after.lbl1->Some_0.labels;
                    assert forall|i: int| 0 <= i < new_labels.len() implies (
                    #[trigger] new_labels[i]).index < after.entry_count() by {
                        if i < old_labels.len() {
                            assert(new_labels[i] == old_labels[i]);
                        }
                    }
                    assert forall|tag: SectionTag| after.has(tag) == before.has(tag) by {}
                }
                builder
            },
            (lbl1, txt2) => MsbtBuilder {
                section_order,
                header,
                lbl1,
                txt2,
                nli1,
                ato1,
                atr1,
                tsy1,
                pad_byte,
            },
        }
    }

    /// Adds a text entry given as a raw stream, and a label of the given
    /// name bound to it. The stream is decoded in the byte order that the
    /// header declares; one that does not decode is refused. A builder that
    /// was begun without a bucket count is left as it is, whatever the stream.
    pub fn add_label(self, name: String, value: Vec<u8>) -> (result: Result<MsbtBuilder, MsbtError>)
        requires
            self@.wf(),
            self@.lbl1 matches Some(table) ==> table.labels.len() < u32::MAX,
            self@.txt2 matches Some(table) ==> table.values.len() < u32::MAX,
        ensures
            match (result, self@.with_raw_entry(name@, value@)) {
                (Ok(builder), Ok(container)) => builder@ == container && builder@.wf(),
                (Err(found), Err(error)) => found == error,
                _ => false,
            },
    {
        if self.lbl1.is_none() || self.txt2.is_none() {
            return Ok(self);
        }
        match parse_bytes(value.as_slice(), self.header.endianness()) {
            Ok(tokens) => Ok(self.add_label_tokens(name, tokens)),
            Err(error) => Err(error),
        }
    }

    /// Attaches the numeric lookup section and lists it last.
    pub fn nli1(self, nli1: Nli1) -> (builder: MsbtBuilder)
        requires
            self@.wf(),
        ensures
            builder@ == self@.with_nli1(nli1@),
            builder@.wf(),
    {
        let ghost before = self@;
        let mut builder = self;
        list_last(&mut builder.section_order, SectionTag::Nli1);
        builder.nli1 = Some(nli1);
        proof {
            lemma_listed_last(before.section_order, SectionTag::Nli1);
        }
        builder
    }

    /// Attaches the attribute offset section and lists it last.
    pub fn ato1(self, ato1: Ato1) -> (builder: MsbtBuilder)
        requires
            self@.wf(),
        ensures
            builder@ == self@.with_ato1(ato1@),
            builder@.wf(),
    {
        let ghost before = self@;
        let mut builder = self;
        list_last(&mut builder.section_order, SectionTag::Ato1);
        builder.ato1 = Some(ato1);
        proof {
            lemma_listed_last(before.section_order, SectionTag::Ato1);
        }
        builder
    }

    /// Attaches the attribute section and lists it last.
    pub fn atr1(self, atr1: Atr1) -> (builder: MsbtBuilder)
        requires
            self@.wf(),
        ensures
            builder@ == self@.with_atr1(atr1@),
            builder@.wf(),
    {
        let ghost before = self@;
        let mut builder = self;
        list_last(&mut builder.section_order, SectionTag::Atr1);
        builder.atr1 = Some(atr1);
        proof {
            lemma_listed_last(before.section_order, SectionTag::Atr1);
        }
        builder
    }

    /// Attaches the text style section and lists it last.
    pub fn tsy1(self, tsy1: Tsy1) -> (builder: MsbtBuilder)
        requires
            self@.wf(),
        ensures
            builder@ == self@.with_tsy1(tsy1@),
            builder@.wf(),
    {
        let ghost before = self@;
        let mut builder = self;
        list_last(&mut builder.section_order, SectionTag::Tsy1);
        builder.tsy1 = Some(tsy1);
        proof {
            lemma_listed_last(before.section_order, SectionTag::Tsy1);
        }
        builder
    }

    /// Whether every label is bound to an entry below `entry_count`.
    fn labels_below(&self, entry_count: usize) -> (bound: bool)
        ensures
            bound == self@.labels_below(entry_count as nat),
    {
        match &self.lbl1 {
            Some(table) => {
                let labels = table.labels();
                let mut i: usize = 0;
                while i < labels.len()
                    invariant
                        i <= labels@.len(),
                        self@.lbl1 == Some(table@),
                        labels.deep_view() == table@.labels,
                        labels@.len() == table@.labels.len(),
                        forall|j: int|
                            0 <= j < i ==> (#[trigger] table@.labels[j]).index < entry_count,
                    decreases labels@.len() - i,
                {
                    assert(table@.labels[i as int] == labels@[i as int]@);
                    if labels[i].index() as usize >= entry_count {
                        assert(self@.lbl1->Some_0.labels[i as int].index >= entry_count);
                        return false;
                    }
                    i = i + 1;
                }
                true
            },
            None => true,
        }
    }

    /// Replaces the text table and lists it last. A table that leaves a
    /// label without its entry is refused.
    pub fn txt2(self, txt2: Txt2) -> (result: Result<MsbtBuilder, MsbtError>)
        requires
            self@.wf(),
        ensures
            self@.with_txt2(txt2@).labels_bound() <==> result is Ok,
            result matches Ok(builder) ==> builder@ == self@.with_txt2(txt2@) && builder@.wf(),
            result matches Err(error) ==> error == MsbtError::IndexOutOfRange,
    {
        let ghost before = self@;
        if !self.labels_below(txt2.values().len()) {
            return Err(MsbtError::IndexOutOfRange);
        }
        let mut builder = self;
        list_last(&mut builder.section_order, SectionTag::Txt2);
        builder.txt2 = Some(txt2);
        proof {
            lemma_listed_last(before.section_order, SectionTag::Txt2);
        }
        Ok(builder)
    }

    /// Finishes the container: brings the label table's offsets and size
    /// and the text table's size up to date, then the total file size.
    pub fn build(self) -> (msbt: Msbt)
        requires
            self@.wf(),
            self@.file_size() <= u32::MAX,
        ensures
            msbt@ == self@.built(),
            msbt@.wf(),
    {
        let ghost before = self@;
        let MsbtBuilder { section_order, header, lbl1, txt2, nli1, ato1, atr1, tsy1, pad_byte } =
            self;
        proof {
            lemma_update_keeps_size(before);
            if before.has(SectionTag::Lbl1) {
                lemma_section_within_file(before, SectionTag::Lbl1);
            }
            if before.has(SectionTag::Txt2) {
                lemma_section_within_file(before, SectionTag::Txt2);
            }
        }
        let lbl1 = match lbl1 {
            Some(table) => {
                let mut table = table;
                table.update();
                Some(table)
            },
            None => None,
        };
        let txt2 = match txt2 {
            Some(table) => {
                let mut table = table;
                table.update();
                Some(table)
            },
            None => None,
        };
        let mut msbt = Msbt::from_parts(
            header,
            section_order,
            lbl1,
            nli1,
            ato1,
            atr1,
            tsy1,
            txt2,
            pad_byte,
        );
        assert(msbt@ == before.with_tables_updated());
        msbt.update();
        proof {
            let after = msbt@;
            assert forall|tag: SectionTag| after.has(tag) == before.has(tag) by {}
        }
        msbt
    }
}

} // verus!
