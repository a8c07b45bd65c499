use msbt::section::lbl1::{Lbl1, GROUP_SIZE, HASH_MAGIC, LBL1_TAG};
use msbt::MsbtError;

fn reference_hash(name: &str) -> u32 {
    let mut hash: u32 = 0;
    for byte in name.as_bytes() {
        hash = ((u64::from(hash) * 0x492 + u64::from(*byte)) % 0x1_0000_0000) as u32;
    }
    hash
}

fn table_with(group_count: u32, names: &[&str]) -> Lbl1 {
    let mut table = Lbl1::new(group_count).unwrap();
    for (index, name) in names.iter().enumerate() {
        table.add_label(name.to_string(), index as u32);
    }
    table
}

#[test]
fn checksum_of_test_in_101_buckets() {
    let table = table_with(101, &["Test"]);
    assert_eq!(table.labels()[0].checksum(&table), 72);
    assert_eq!(reference_hash("Test"), 1529899390);
    assert_eq!(1529899390 % 101, 72);
}

#[test]
fn hash_constant_is_fixed() {
    assert_eq!(HASH_MAGIC, 0x492);
    assert_eq!(GROUP_SIZE, 8);
    assert_eq!(&LBL1_TAG, b"LBL1");
}

#[test]
fn checksum_wraps_at_32_bits() {
    let name = "AVeryLongLabelNameThatWraps";
    let table = table_with(101, &[name]);
    assert_eq!(reference_hash(name), 2761481815);
    assert_eq!(table.labels()[0].checksum(&table), 11);
}

#[test]
fn checksum_goes_over_the_bytes_of_the_name() {
    let table = table_with(101, &["é", ""]);
    assert_eq!(table.labels()[0].checksum(&table), 59);
    assert_eq!(table.labels()[1].checksum(&table), 0);
    assert_eq!(table.labels()[0].calc_size(), 1 + 2 + 4);
    assert_eq!(table.labels()[1].calc_size(), 5);
}

#[test]
fn checksum_depends_on_name_and_bucket_count_only() {
    let first = table_with(7, &["Test", "other"]);
    let second = table_with(7, &["x", "y", "Test"]);
    let once = first.labels()[0].checksum(&first);
    assert_eq!(once, 5);
    assert_eq!(first.labels()[0].checksum(&first), once);
    assert_eq!(second.labels()[2].checksum(&second), once);
    assert_eq!(first.labels()[0].checksum(&second), once);
    let single = table_with(1, &["Test"]);
    assert_eq!(single.labels()[0].checksum(&single), 0);
}

#[test]
fn checksum_stays_below_the_bucket_count() {
    for group_count in 1..40u32 {
        let table = table_with(group_count, &["hello", "world", "foo", "bar", "baz", "Test"]);
        for label in table.labels() {
            let bucket = label.checksum(&table);
            assert!(bucket < group_count);
            assert_eq!(bucket, reference_hash(label.name()) % group_count);
        }
    }
}

#[test]
fn table_without_buckets_is_refused() {
    assert_eq!(Lbl1::new(0).err(), Some(MsbtError::InvalidGroupCount));
}

#[test]
fn new_table_has_empty_buckets() {
    let table = Lbl1::new(3).unwrap();
    assert_eq!(table.section().tag(), *b"LBL1");
    assert_eq!(table.section().size(), 0);
    assert_eq!(table.groups().len(), 3);
    for group in table.groups() {
        assert_eq!(group.label_count(), 0);
        assert_eq!(group.offset(), 0);
        assert_eq!(group.calc_size(), 8);
    }
    assert!(table.labels().is_empty());
    assert_eq!(table.calc_size(), 8 + 4 + 3 * 8);
}

#[test]
fn add_label_counts_the_label_in_its_bucket() {
    let table = table_with(4, &["hello", "world", "foo", "bar", "baz"]);
    let counts: Vec<u32> = table.groups().iter().map(|group| group.label_count()).collect();
    assert_eq!(counts, vec![3, 1, 0, 1]);
    let names: Vec<&str> = table.labels().iter().map(|label| label.name()).collect();
    assert_eq!(names, vec!["hello", "world", "foo", "bar", "baz"]);
    let indices: Vec<u32> = table.labels().iter().map(|label| label.index()).collect();
    assert_eq!(indices, vec![0, 1, 2, 3, 4]);
}

#[test]
fn add_label_leaves_offsets_and_size_for_the_update() {
    let table = table_with(4, &["hello", "world"]);
    assert_eq!(table.section().size(), 0);
    for group in table.groups() {
        assert_eq!(group.offset(), 0);
    }
}

#[test]
fn offsets_follow_the_buckets_in_order() {
    let mut table = table_with(4, &["hello", "world", "foo", "bar", "baz"]);
    table.update_group_offsets();
    let offsets: Vec<u32> = table.groups().iter().map(|group| group.offset()).collect();
    // table: 4 + 4 * 8 = 36; bucket 0 holds world, bar, baz (10 + 8 + 8);
    // bucket 1 holds foo (8); bucket 2 nothing; bucket 3 holds hello (10).
    assert_eq!(offsets, vec![36, 62, 70, 70]);
    let counts: Vec<u32> = table.groups().iter().map(|group| group.label_count()).collect();
    assert_eq!(counts, vec![3, 1, 0, 1]);
    assert_eq!(table.section().size(), 0);
}

#[test]
fn offsets_are_ordered_and_counts_add_up() {
    let names = ["Test", "Label_000", "a", "b", "c", "é", "hello", "world", "foo", "bar", "baz"];
    for group_count in [1u32, 2, 3, 5, 101] {
        let mut table = table_with(group_count, &names);
        table.update();
        let total: u32 = table.groups().iter().map(|group| group.label_count()).sum();
        assert_eq!(total as usize, table.labels().len());
        let first = 4 + 8 * group_count;
        let mut last = first;
        for group in table.groups() {
            assert!(group.offset() >= first);
            assert!(group.offset() >= last);
            last = group.offset();
        }
        assert_eq!(table.groups()[0].offset(), first);
        assert!(last <= table.section().size());
    }
}

#[test]
fn update_sets_the_size_to_the_payload() {
    let mut table = table_with(4, &["hello", "world", "foo", "bar", "baz"]);
    table.update();
    assert_eq!(table.section().size(), 4 + 4 * 8 + 10 + 10 + 8 + 8 + 8);
    assert_eq!(table.calc_size(), 8 + 80);
    assert_eq!(table.section().size() as usize, table.calc_size() - 8);
    let offsets: Vec<u32> = table.groups().iter().map(|group| group.offset()).collect();
    assert_eq!(offsets, vec![36, 62, 70, 70]);
}

#[test]
fn update_of_an_empty_table() {
    let mut table = Lbl1::new(2).unwrap();
    table.update();
    assert_eq!(table.section().size(), 20);
    assert_eq!(table.groups()[0].offset(), 20);
    assert_eq!(table.groups()[1].offset(), 20);
}

#[test]
fn renamed_label_moves_in_the_layout_but_keeps_the_counts() {
    let mut table = table_with(3, &["a", "b", "c"]);
    table.update();
    let offsets: Vec<u32> = table.groups().iter().map(|group| group.offset()).collect();
    assert_eq!(offsets, vec![28, 34, 40]);
    table.labels_mut()[0].set_name(String::from("cc"));
    assert_eq!(table.labels()[0].name(), "cc");
    assert_eq!(table.labels()[0].index(), 0);
    table.update();
    // "cc" hashes to 99 * 0x492 + 99 = 115929, bucket 0 of 3.
    let offsets: Vec<u32> = table.groups().iter().map(|group| group.offset()).collect();
    assert_eq!(offsets, vec![28, 41, 41]);
    let counts: Vec<u32> = table.groups().iter().map(|group| group.label_count()).collect();
    assert_eq!(counts, vec![1, 1, 1]);
    assert_eq!(table.section().size(), 28 + 7 + 6 + 6);
}
