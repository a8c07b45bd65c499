//! The label table: hash buckets and the labels that fall into them.

use vstd::prelude::*;
use vstd::utf8::encode_utf8;
use crate::error::MsbtError;
use crate::section::{Section, SectionView, FRAME_SIZE};
use crate::sums::{
    lemma_sum_by_item, lemma_sum_by_le, lemma_sum_by_prefix, lemma_sum_by_push, lemma_sum_by_split,
    lemma_sum_by_take, lemma_sum_by_update, sum_by,
};

verus! {

/// The multiplier of the label hash.
pub const HASH_MAGIC: u32 = 0x492;

/// The tag of the label section.
pub const LBL1_TAG: [u8; 4] = [0x4C, 0x42, 0x4C, 0x31];

/// Bytes that one bucket takes in the bucket table.
pub const GROUP_SIZE: usize = 8;

/// One hash bucket: how many labels fall into it, and where the first of
/// them stands in the section's payload.
#[derive(Debug, Clone, Copy, PartialEq, Eq)]
pub struct Group {
    pub(crate) label_count: u32,
    pub(crate) offset: u32,
}

/// A bucket as plain values.
pub struct GroupView {
    pub label_count: u32,
    pub offset: u32,
}

impl View for Group {
    type V = GroupView;

    closed spec fn view(&self) -> GroupView {
        GroupView { label_count: self.label_count, offset: self.offset }
    }
}

impl DeepView for Group {
    type V = GroupView;

    open spec fn deep_view(&self) -> GroupView {
        self@
    }
}

impl Group {
    /// How many labels fall into this bucket.
    pub fn label_count(&self) -> (count: u32)
        ensures
            count == self@.label_count,
    {
        self.label_count
    }

    /// Where the bucket's first label stands in the section's payload.
    pub fn offset(&self) -> (offset: u32)
        ensures
            offset == self@.offset,
    {
        self.offset
    }

    /// Bytes that the bucket takes in the bucket table.
    pub fn calc_size(&self) -> (size: usize)
        ensures
            size == GROUP_SIZE,
    {
        GROUP_SIZE
    }
}

/// A name bound to the index of a text entry.
#[derive(Debug, Clone, PartialEq, Eq)]
pub struct Label {
    pub(crate) name: String,
    pub(crate) index: u32,
}

/// A label as plain values.
pub struct LabelView {
    pub name: Seq<char>,
    pub index: u32,
}

impl View for Label {
    type V = LabelView;

    closed spec fn view(&self) -> LabelView {
        LabelView { name: self.name@, index: self.index }
    }
}

impl DeepView for Label {
    type V = LabelView;

    open spec fn deep_view(&self) -> LabelView {
        self@
    }
}

/// The hash of a name's bytes: starting from zero, each byte in turn takes
/// the value to `value * 0x492 + byte`, cut to 32 bits.
pub open spec fn spec_hash(bytes: Seq<u8>) -> u32
    decreases bytes.len(),
{
    if bytes.len() == 0 {
        0
    } else {
        ((spec_hash(bytes.drop_last()) as int * HASH_MAGIC as int + bytes.last() as int)
            % 0x1_0000_0000) as u32
    }
}

impl LabelView {
    /// The name as it is stored: its UTF-8 bytes.
    pub open spec fn name_bytes(self) -> Seq<u8> {
        encode_utf8(self.name)
    }

    /// The bucket that the label falls into in a table of `group_count` buckets.
    pub open spec fn bucket(self, group_count: nat) -> nat
        recommends
            group_count >= 1,
    {
        (spec_hash(self.name_bytes()) as nat) % group_count
    }

    /// Bytes that the label takes in the section: one for the length of the
    /// name, the name, and four for the text index.
    pub open spec fn size(self) -> nat {
        1 + self.name_bytes().len() + 4
    }
}

/// The weight that gives each bucket its label count.
pub open spec fn count_of() -> spec_fn(GroupView) -> nat {
    |group: GroupView| group.label_count as nat
}

/// The weight that gives each label its size.
pub open spec fn size_of() -> spec_fn(LabelView) -> nat {
    |label: LabelView| label.size()
}

/// The weight that gives a label its size if it falls into a bucket before
/// `bucket`, and nothing otherwise.
pub open spec fn size_if_before(group_count: nat, bucket: nat) -> spec_fn(LabelView) -> nat {
    |label: LabelView|
        if label.bucket(group_count) < bucket {
            label.size()
        } else {
            0
        }
}

/// The weight that gives a label its size if it falls into `bucket`, and
/// nothing otherwise.
pub open spec fn size_if_in(group_count: nat, bucket: nat) -> spec_fn(LabelView) -> nat {
    |label: LabelView|
        if label.bucket(group_count) == bucket {
            label.size()
        } else {
            0
        }
}

/// The weight that counts a label if it falls into `bucket`.
pub open spec fn one_if_in(group_count: nat, bucket: nat) -> spec_fn(LabelView) -> nat {
    |label: LabelView|
        if label.bucket(group_count) == bucket {
            1
        } else {
            0
        }
}

/// The label table: a bucket table whose length never changes, and the
/// labels in the order in which they were added.
#[derive(Debug, Clone)]
pub struct Lbl1 {
    pub(crate) section: Section,
    pub(crate) groups: Vec<Group>,
    pub(crate) labels: Vec<Label>,
}

/// A label table as plain values.
pub struct Lbl1View {
    pub section: SectionView,
    pub groups: Seq<GroupView>,
    pub labels: Seq<LabelView>,
}

impl View for Lbl1 {
    type V = Lbl1View;

    closed spec fn view(&self) -> Lbl1View {
        Lbl1View {
            section: self.section@,
            groups: self.groups.deep_view(),
            labels: self.labels.deep_view(),
        }
    }
}

impl Lbl1View {
    /// A table of `group_count` empty buckets and no label.
    pub open spec fn empty(group_count: nat) -> Lbl1View {
        Lbl1View {
            section: SectionView { tag: LBL1_TAG@, size: 0 },
            groups: Seq::new(group_count, |bucket: int| GroupView { label_count: 0, offset: 0 }),
            labels: Seq::empty(),
        }
    }

    /// What every label table keeps: at least one bucket, a bucket count that
    /// fits 32 bits, and label counts that add up to the number of labels.
    pub open spec fn wf(self) -> bool {
        &&& 1 <= self.groups.len() <= u32::MAX
        &&& sum_by(self.groups, count_of()) == self.labels.len()
    }

    /// Whether every bucket counts exactly the labels that fall into it.
    /// Adding labels keeps this; giving a label another name may not.
    pub open spec fn counts_current(self) -> bool {
        forall|bucket: int|
            0 <= bucket < self.groups.len() ==> (#[trigger] self.groups[bucket]).label_count
                == sum_by(self.labels, one_if_in(self.groups.len(), bucket as nat))
    }

    /// Bytes of all labels.
    pub open spec fn labels_size(self) -> nat {
        sum_by(self.labels, size_of())
    }

    /// Bytes in front of the first label: the bucket count and the bucket table.
    pub open spec fn table_size(self) -> nat {
        4 + GROUP_SIZE as nat * self.groups.len()
    }

    /// Bytes of the payload: the bucket count, the bucket table and all labels.
    pub open spec fn payload_size(self) -> nat {
        self.table_size() + self.labels_size()
    }

    /// Bytes of the whole section, frame included.
    pub open spec fn calc_size(self) -> nat {
        FRAME_SIZE as nat + self.payload_size()
    }

    /// Where the labels of `bucket` start in the payload, labels being laid
    /// out bucket by bucket: behind the bucket table and behind every label
    /// of an earlier bucket.
    pub open spec fn offset_of(self, bucket: nat) -> nat {
        self.table_size() + sum_by(self.labels, size_if_before(self.groups.len(), bucket))
    }

    /// The table with every bucket's offset brought up to date.
    pub open spec fn with_offsets(self) -> Lbl1View {
        Lbl1View {
            groups: Seq::new(
                self.groups.len(),
                |bucket: int|
                    GroupView {
                        label_count: self.groups[bucket].label_count,
                        offset: self.offset_of(bucket as nat) as u32,
                    },
            ),
            ..self
        }
    }

    /// The table with its declared size and every bucket's offset brought up to date.
    pub open spec fn updated(self) -> Lbl1View {
        Lbl1View {
            section: SectionView { size: self.payload_size() as u32, ..self.section },
            ..self.with_offsets()
        }
    }

    /// The table with one more label, counted in its bucket.
    pub open spec fn with_label(self, label: LabelView) -> Lbl1View {
        let bucket = label.bucket(self.groups.len()) as int;
        Lbl1View {
            groups: self.groups.update(
                bucket,
                GroupView {
                    label_count: (self.groups[bucket].label_count + 1) as u32,
                    ..self.groups[bucket]
                },
            ),
            labels: self.labels.push(label),
            ..self
        }
    }
}

/// A bucket's offset lies behind the bucket table, at or behind the offset
/// of every earlier bucket, and inside the payload.
pub proof fn lemma_offsets_ordered(table: Lbl1View, earlier: nat, later: nat)
    requires
        earlier <= later,
    ensures
        table.table_size() <= table.offset_of(earlier) <= table.offset_of(later)
            <= table.payload_size(),
{
    let count = table.groups.len();
    assert forall|i: int| 0 <= i < table.labels.len() implies size_if_before(count, earlier)(
        #[trigger] table.labels[i],
    ) <= size_if_before(count, later)(table.labels[i]) by {}
    lemma_sum_by_le(table.labels, size_if_before(count, earlier), size_if_before(count, later));
    assert forall|i: int| 0 <= i < table.labels.len() implies size_if_before(count, later)(
        #[trigger] table.labels[i],
    ) <= size_of()(table.labels[i]) by {}
    lemma_sum_by_le(table.labels, size_if_before(count, later), size_of());
}

/// The offset of the bucket behind `bucket` is the offset of `bucket` and
/// the bytes of the labels in `bucket`.
pub proof fn lemma_offset_step(table: Lbl1View, bucket: nat)
    ensures
        table.offset_of(bucket + 1) == table.offset_of(bucket) + sum_by(
            table.labels,
            size_if_in(table.groups.len(), bucket),
        ),
{
    let count = table.groups.len();
    assert forall|i: int| 0 <= i < table.labels.len() implies size_if_before(count, bucket + 1)(
        #[trigger] table.labels[i],
    ) == size_if_before(count, bucket)(table.labels[i]) + size_if_in(count, bucket)(
        table.labels[i],
    ) by {}
    lemma_sum_by_split(
        table.labels,
        size_if_before(count, bucket + 1),
        size_if_before(count, bucket),
        size_if_in(count, bucket),
    );
}

/// Two labels of one name fall into one bucket, whatever table of that
/// bucket count they are looked up in; the bucket is one of the table's.
pub proof fn lemma_bucket_deterministic(first: LabelView, second: LabelView, group_count: nat)
    requires
        first.name == second.name,
        group_count >= 1,
    ensures
        first.bucket(group_count) == second.bucket(group_count),
        first.bucket(group_count) < group_count,
{
}

impl Label {
    /// The label's name.
    pub fn name(&self) -> (name: &str)
        ensures
            name@ == self@.name,
    {
        self.name.as_str()
    }

    /// Gives the label another name. The bucket counts of the table that
    /// holds the label are left as they are.
    pub fn set_name(&mut self, name: String)
        ensures
            final(self)@ == (LabelView { name: name@, index: old(self)@.index }),
    {
        self.name = name;
    }

    /// The index of the text entry that the label is bound to.
    pub fn index(&self) -> (index: u32)
        ensures
            index == self@.index,
    {
        self.index
    }

    /// The bucket of `lbl1` that the label falls into.
    pub fn checksum(&self, lbl1: &Lbl1) -> (bucket: u32)
        requires
            1 <= lbl1@.groups.len() <= u32::MAX,
        ensures
            bucket == self@.bucket(lbl1@.groups.len()),
            bucket < lbl1@.groups.len(),
    {
        let bytes = self.name.as_str().as_bytes();
        let mut hash: u32 = 0;
        let mut i: usize = 0;
        assert(bytes@.take(0) =~= Seq::<u8>::empty());
        while i < bytes.len()
            invariant
                i <= bytes@.len(),
                hash == spec_hash(bytes@.take(i as int)),
            decreases bytes@.len() - i,
        {
            assert(bytes@.take(i + 1).drop_last() =~= bytes@.take(i as int));
            hash = hash.wrapping_mul(HASH_MAGIC).wrapping_add(bytes[i] as u32);
            i = i + 1;
        }
        assert(bytes@.take(i as int) =~= bytes@);
        hash % (lbl1.groups.len() as u32)
    }

    /// Bytes that the label takes in the section.
    pub fn calc_size(&self) -> (size: usize)
        requires
            self@.size() <= usize::MAX,
        ensures
            size == self@.size(),
    {
        1 + self.name.as_str().as_bytes().len() + 4
    }
}

impl Lbl1 {
    /// A table of `group_count` empty buckets and no label.
    pub fn new(group_count: u32) -> (result: Result<Lbl1, MsbtError>)
        ensures
            group_count == 0 <==> result is Err,
            result matches Err(error) ==> error == MsbtError::InvalidGroupCount,
            result matches Ok(table) ==> table@ == Lbl1View::empty(group_count as nat)
                && table@.wf(),
    {
        if group_count == 0 {
            return Err(MsbtError::InvalidGroupCount);
        }
        let mut groups: Vec<Group> = Vec::new();
        let mut made: u32 = 0;
        while made < group_count
            invariant
                made <= group_count,
                groups@.len() == made,
                forall|bucket: int|
                    0 <= bucket < made ==> (#[trigger] groups@[bucket])@ == (GroupView {
                        label_count: 0,
                        offset: 0,
                    }),
                sum_by(groups.deep_view(), count_of()) == 0,
            decreases group_count - made,
        {
            let ghost before = groups.deep_view();
            let group = Group { label_count: 0, offset: 0 };
            groups.push(group);
            proof {
                assert(groups.deep_view() =~= before.push(group@));
                lemma_sum_by_push(before, group@, count_of());
            }
            made = made + 1;
        }
        let table = Lbl1 { section: Section::new(LBL1_TAG, 0), groups, labels: Vec::new() };
        assert(table@.groups =~= Seq::new(
            group_count as nat,
            |bucket: int| GroupView { label_count: 0, offset: 0 },
        ));
        assert(table@.labels =~= Seq::<LabelView>::empty());
        Ok(table)
    }

    /// The section's frame.
    pub fn section(&self) -> (section: &Section)
        ensures
            section@ == self@.section,
    {
        &self.section
    }

    /// The bucket table.
    pub fn groups(&self) -> (groups: &[Group])
        ensures
            groups.deep_view() == self@.groups,
    {
        let groups = self.groups.as_slice();
        assert(groups.deep_view() =~= self.groups.deep_view());
        groups
    }

    /// The labels, in the order in which they were added.
    pub fn labels(&self) -> (labels: &[Label])
        ensures
            labels.deep_view() == self@.labels,
    {
        let labels = self.labels.as_slice();
        assert(labels.deep_view() =~= self.labels.deep_view());
        labels
    }

    /// The labels, for editing in place. What the caller leaves in the slice
    /// is what the table holds afterwards; buckets and frame stay as they are.
    pub fn labels_mut(&mut self) -> (labels: &mut [Label])
        ensures
            labels.deep_view() == old(self)@.labels,
            final(self)@ == (Lbl1View { labels: final(labels).deep_view(), ..old(self)@ }),
    {
        self.labels.as_mut_slice()
    }

    /// Adds a label bound to the text entry `index`, and counts it in its
    /// bucket. Offsets and declared size are left for the next update.
    pub fn add_label(&mut self, name: String, index: u32)
        requires
            old(self)@.wf(),
            old(self)@.labels.len() < u32::MAX,
        ensures
            final(self)@ == old(self)@.with_label(LabelView { name: name@, index }),
            final(self)@.wf(),
    {
        let label = Label { name, index };
        let bucket = label.checksum(self) as usize;
        let ghost before = self@;
        let group = self.groups[bucket];
        proof {
            lemma_sum_by_item(before.groups, bucket as int, count_of());
        }
        let counted = Group { label_count: group.label_count + 1, offset: group.offset };
        self.groups.set(bucket, counted);
        self.labels.push(label);
        proof {
            assert(self@.groups =~= before.groups.update(bucket as int, counted@));
            assert(self@.labels =~= before.labels.push(label@));
            lemma_sum_by_update(before.groups, bucket as int, counted@, count_of());
        }
    }

    /// Bytes of all labels.
    fn labels_size(&self) -> (size: usize)
        requires
            self@.labels_size() <= usize::MAX,
        ensures
            size == self@.labels_size(),
    {
        let ghost labels = self@.labels;
        let mut size: usize = 0;
        let mut i: usize = 0;
        assert(labels.take(0) =~= Seq::<LabelView>::empty());
        while i < self.labels.len()
            invariant
                labels == self@.labels,
                labels.len() == self.labels@.len(),
                i <= labels.len(),
                sum_by(labels, size_of()) <= usize::MAX,
                size == sum_by(labels.take(i as int), size_of()),
            decreases labels.len() - i,
        {
            proof {
                lemma_sum_by_take(labels, i as int, size_of());
                lemma_sum_by_prefix(labels, i + 1, size_of());
            }
            size = size + self.labels[i].calc_size();
            i = i + 1;
        }
        assert(labels.take(i as int) =~= labels);
        size
    }

    /// Bytes of the whole section, frame included.
    pub fn calc_size(&self) -> (size: usize)
        requires
            self@.calc_size() <= usize::MAX,
        ensures
            size == self@.calc_size(),
    {
        self.section.calc_size() + 4 + GROUP_SIZE * self.groups.len() + self.labels_size()
    }

    /// Brings every bucket's offset up to date: labels are laid out bucket by
    /// bucket behind the bucket table, so a bucket starts behind the table
    /// and behind every label of an earlier bucket. Label counts, labels and
    /// frame stay as they are.
    pub fn update_group_offsets(&mut self)
        requires
            old(self)@.wf(),
            old(self)@.payload_size() <= u32::MAX,
        ensures
            final(self)@ == old(self)@.with_offsets(),
            final(self)@.wf(),
            sum_by(final(self)@.groups, count_of()) == final(self)@.labels.len(),
            forall|bucket: int|
                0 <= bucket < final(self)@.groups.len() ==> (
                #[trigger] final(self)@.groups[bucket]).offset >= final(self)@.table_size(),
            forall|earlier: int, later: int|
                0 <= earlier <= later < final(self)@.groups.len() ==> (
                #[trigger] final(self)@.groups[earlier]).offset <= (
                #[trigger] final(self)@.groups[later]).offset,
    {
        let ghost before = self@;
        let group_len = self.groups.len();
        let label_len = self.labels.len();
        let mut checksums: Vec<u32> = Vec::new();
        let mut k: usize = 0;
        while k < label_len
            invariant
                self@ == before,
                before.wf(),
                group_len == before.groups.len(),
                label_len == before.labels.len(),
                label_len == self.labels@.len(),
                k <= label_len,
                checksums@.len() == k,
                forall|j: int|
                    0 <= j < k ==> #[trigger] checksums@[j] == before.labels[j].bucket(
                        group_len as nat,
                    ),
            decreases label_len - k,
        {
            let bucket = self.labels[k].checksum(self);
            checksums.push(bucket);
            k = k + 1;
        }
        let base: u32 = (4 + GROUP_SIZE * group_len) as u32;
        let mut total: u32 = 0;
        let mut i: usize = 0;
        assert(sum_by(before.labels, size_if_before(group_len as nat, 0)) == 0) by {
            assert forall|j: int| 0 <= j < before.labels.len() implies size_if_before(
                group_len as nat,
                0,
            )(#[trigger] before.labels[j]) <= size_if_in(group_len as nat, group_len as nat)(
                before.labels[j],
            ) by {}
            lemma_sum_by_le(
                before.labels,
                size_if_before(group_len as nat, 0),
                size_if_in(group_len as nat, group_len as nat),
            );
            lemma_sum_zero_outside(before.labels, group_len as nat);
        }
        while i < group_len
            invariant
                before.wf(),
                before.payload_size() <= u32::MAX,
                group_len == before.groups.len(),
                label_len == before.labels.len(),
                label_len == self.labels@.len(),
                group_len == self.groups@.len(),
                i <= group_len,
                base == before.table_size(),
                self@.section == before.section,
                self@.labels == before.labels,
                checksums@.len() == label_len,
                forall|j: int|
                    0 <= j < label_len ==> #[trigger] checksums@[j] == before.labels[j].bucket(
                        group_len as nat,
                    ),
                total == sum_by(before.labels, size_if_before(group_len as nat, i as nat)),
                forall|b: int|
                    0 <= b < i ==> #[trigger] self@.groups[b] == before.with_offsets().groups[b],
                forall|b: int|
                    i <= b < group_len ==> #[trigger] self@.groups[b] == before.groups[b],
            decreases group_len - i,
        {
            let ghost groups_before = self@.groups;
            proof {
                lemma_offsets_ordered(before, i as nat, i as nat);
                lemma_offset_step(before, i as nat);
                lemma_offsets_ordered(before, i as nat + 1, i as nat + 1);
            }
            let group = self.groups[i];
            assert(group@ == groups_before[i as int]);
            let placed = Group { label_count: group.label_count, offset: base + total };
            self.groups.set(i, placed);
            assert(self@.groups =~= groups_before.update(i as int, placed@));
            assert(placed@ == before.with_offsets().groups[i as int]);
            let ghost groups_now = self@.groups;
            let ghost in_bucket = size_if_in(group_len as nat, i as nat);
            let mut found: u32 = 0;
            let mut k: usize = 0;
            assert(before.labels.take(0) =~= Seq::<LabelView>::empty());
            while k < label_len
                invariant
                    before.payload_size() <= u32::MAX,
                    label_len == before.labels.len(),
                    label_len == self.labels@.len(),
                    self@.labels == before.labels,
                    group_len == before.groups.len(),
                    i < group_len,
                    in_bucket == size_if_in(group_len as nat, i as nat),
                    k <= label_len,
                    checksums@.len() == label_len,
                    forall|j: int|
                        0 <= j < label_len ==> #[trigger] checksums@[j]
                            == before.labels[j].bucket(group_len as nat),
                    found == sum_by(before.labels.take(k as int), in_bucket),
                    sum_by(before.labels, in_bucket) <= before.labels_size(),
                    self@.groups == groups_now,
                    self@.section == before.section,
                decreases label_len - k,
            {
                proof {
                    lemma_sum_by_take(before.labels, k as int, in_bucket);
                    lemma_sum_by_prefix(before.labels, k + 1, in_bucket);
                    lemma_sum_by_item(before.labels, k as int, size_of());
                }
                if checksums[k] as usize == i {
                    found = found + self.labels[k].calc_size() as u32;
                }
                k = k + 1;
            }
            assert(before.labels.take(k as int) =~= before.labels);
            total = total + found;
            assert forall|b: int| 0 <= b < i + 1 implies #[trigger] self@.groups[b]
                == before.with_offsets().groups[b] by {
                if b < i {
                    assert(groups_before[b] == before.with_offsets().groups[b]);
                }
            }
            assert forall|b: int| i + 1 <= b < group_len implies #[trigger] self@.groups[b]
                == before.groups[b] by {
                assert(groups_before[b] == before.groups[b]);
            }
            i = i + 1;
        }
        proof {
            assert(self@.groups =~= before.with_offsets().groups);
            assert forall|bucket: int| 0 <= bucket < self@.groups.len() implies (
            #[trigger] self@.groups[bucket]).offset >= self@.table_size() by {
                lemma_offsets_ordered(before, bucket as nat, bucket as nat);
            }
            assert forall|earlier: int, later: int|
                0 <= earlier <= later < self@.groups.len() implies (
            #[trigger] self@.groups[earlier]).offset <= (#[trigger] self@.groups[later]).offset by {
                lemma_offsets_ordered(before, earlier as nat, later as nat);
            }
            lemma_counts_kept(before);
        }
    }

    /// Brings the declared size and every bucket's offset up to date.
    pub fn update(&mut self)
        requires
            old(self)@.wf(),
            old(self)@.payload_size() <= u32::MAX,
        ensures
            final(self)@ == old(self)@.updated(),
            final(self)@.wf(),
            final(self)@.section.size == final(self)@.calc_size() - FRAME_SIZE,
    {
        let size = 4 + GROUP_SIZE * self.groups.len() + self.labels_size();
        self.section = Section::new(self.section.tag(), size as u32);
        let ghost sized = self@;
        self.update_group_offsets();
        assert(sized.with_offsets().groups =~= old(self)@.with_offsets().groups);
    }
}

/// An empty table is well formed, and its buckets count what they hold.
pub proof fn lemma_empty_wf(group_count: nat)
    requires
        1 <= group_count <= u32::MAX,
    ensures
        Lbl1View::empty(group_count).wf(),
        Lbl1View::empty(group_count).counts_current(),
{
    lemma_zero_counts(group_count);
}

/// Where every bucket counts exactly its labels, it still does after a
/// label was added, and after offsets and size were brought up to date.
pub proof fn lemma_counts_current(table: Lbl1View, label: LabelView)
    requires
        table.wf(),
        table.counts_current(),
        table.labels.len() < u32::MAX,
    ensures
        table.with_label(label).counts_current(),
        table.with_offsets().counts_current(),
        table.updated().counts_current(),
{
    let count = table.groups.len();
    let added = table.with_label(label);
    let into = label.bucket(count) as int;
    lemma_sum_by_item(table.groups, into, count_of());
    assert forall|bucket: int| 0 <= bucket < added.groups.len() implies (
    #[trigger] added.groups[bucket]).label_count == sum_by(
        added.labels,
        one_if_in(count, bucket as nat),
    ) by {
        lemma_sum_by_push(table.labels, label, one_if_in(count, bucket as nat));
        assert(table.groups[bucket].label_count == sum_by(
            table.labels,
            one_if_in(count, bucket as nat),
        ));
    }
    let placed = table.with_offsets();
    assert forall|bucket: int| 0 <= bucket < placed.groups.len() implies (
    #[trigger] placed.groups[bucket]).label_count == sum_by(
        placed.labels,
        one_if_in(count, bucket as nat),
    ) by {
        assert(table.groups[bucket].label_count == sum_by(
            table.labels,
            one_if_in(count, bucket as nat),
        ));
    }
    assert(table.updated().groups == placed.groups);
}

/// Buckets without labels count no label.
proof fn lemma_zero_counts(group_count: nat)
    ensures
        sum_by(
            Seq::new(group_count, |bucket: int| GroupView { label_count: 0, offset: 0 }),
            count_of(),
        ) == 0,
    decreases group_count,
{
    if group_count > 0 {
        let all = Seq::new(group_count, |bucket: int| GroupView { label_count: 0, offset: 0 });
        let fewer = Seq::new(
            (group_count - 1) as nat,
            |bucket: int| GroupView { label_count: 0, offset: 0 },
        );
        assert(all.drop_last() =~= fewer);
        lemma_zero_counts((group_count - 1) as nat);
    }
}

/// Bringing offsets and size up to date keeps a table well formed.
pub proof fn lemma_updated_wf(table: Lbl1View)
    requires
        table.wf(),
    ensures
        table.with_offsets().wf(),
        table.updated().wf(),
{
    lemma_counts_kept(table);
    assert(table.updated().groups == table.with_offsets().groups);
}

/// No label falls into a bucket that the table does not have.
proof fn lemma_sum_zero_outside(labels: Seq<LabelView>, group_count: nat)
    requires
        group_count >= 1,
    ensures
        sum_by(labels, size_if_in(group_count, group_count)) == 0,
    decreases labels.len(),
{
    if labels.len() > 0 {
        lemma_sum_zero_outside(labels.drop_last(), group_count);
    }
}

/// Bringing offsets up to date leaves the label counts, and so their sum, as they were.
proof fn lemma_counts_kept(table: Lbl1View)
    ensures
        sum_by(table.with_offsets().groups, count_of()) == sum_by(table.groups, count_of()),
    decreases table.groups.len(),
{
    lemma_counts_kept_upto(table, table.groups.len() as int);
    assert(table.groups.take(table.groups.len() as int) =~= table.groups);
    assert(table.with_offsets().groups.take(table.groups.len() as int)
        =~= table.with_offsets().groups);
}

/// The label counts of the first `count` buckets are left as they were.
proof fn lemma_counts_kept_upto(table: Lbl1View, count: int)
    requires
        0 <= count <= table.groups.len(),
    ensures
        sum_by(table.with_offsets().groups.take(count), count_of()) == sum_by(
            table.groups.take(count),
            count_of(),
        ),
    decreases count,
{
    if count > 0 {
        lemma_counts_kept_upto(table, count - 1);
        lemma_sum_by_take(table.groups, count - 1, count_of());
        lemma_sum_by_take(table.with_offsets().groups, count - 1, count_of());
    } else {
        assert(table.groups.take(0) =~= Seq::<GroupView>::empty());
        assert(table.with_offsets().groups.take(0) =~= Seq::<GroupView>::empty());
    }
}

} // verus!
