use msbt::section::txt2::{Token, Txt2};
use msbt::section::{Ato1, Atr1, Nli1, Tsy1};
use msbt::{Encoding, Endianness, Msbt, MsbtBuilder, MsbtError, SectionTag, HEADER_MAGIC};

fn text(words: &[u8]) -> Vec<Token> {
    vec![Token::Text(words.to_vec())]
}

fn counts(msbt: &Msbt) -> Vec<u32> {
    msbt.lbl1().unwrap().groups().iter().map(|group| group.label_count()).collect()
}

fn offsets(msbt: &Msbt) -> Vec<u32> {
    msbt.lbl1().unwrap().groups().iter().map(|group| group.offset()).collect()
}

#[test]
fn builder_without_buckets_builds_a_bare_header() {
    let builder = MsbtBuilder::new(Endianness::Little, Encoding::Utf16, None).unwrap();
    assert_eq!(builder.header().section_count(), 0);
    assert_eq!(builder.header().file_size(), 0);
    let msbt = builder.build();
    assert!(msbt.section_order().is_empty());
    assert!(msbt.lbl1().is_none());
    assert!(msbt.txt2().is_none());
    assert!(msbt.nli1().is_none());
    assert!(msbt.ato1().is_none());
    assert!(msbt.atr1().is_none());
    assert!(msbt.tsy1().is_none());
    assert_eq!(msbt.header().file_size(), 32);
    assert_eq!(msbt.calc_file_size(), 32);
    assert_eq!(msbt.pad_byte(), 0);
}

#[test]
fn builder_sets_the_header_as_given() {
    let builder = MsbtBuilder::new(Endianness::Big, Encoding::Utf8, Some(5)).unwrap();
    let header = builder.header();
    assert_eq!(header.endianness(), Endianness::Big);
    assert_eq!(header.encoding(), Encoding::Utf8);
    assert_eq!(header.section_count(), 2);
    assert_eq!(header.file_size(), 0);
    assert_eq!(header.calc_size(), 32);
    assert_eq!(&HEADER_MAGIC, b"MsgStdBn");
}

#[test]
fn builder_with_zero_buckets_is_refused() {
    let result = MsbtBuilder::new(Endianness::Little, Encoding::Utf16, Some(0));
    assert_eq!(result.err(), Some(MsbtError::InvalidGroupCount));
}

#[test]
fn builder_with_buckets_lists_both_tables() {
    let msbt = MsbtBuilder::new(Endianness::Little, Encoding::Utf16, Some(3)).unwrap().build();
    assert_eq!(msbt.section_order(), &[SectionTag::Lbl1, SectionTag::Txt2]);
    let labels = msbt.lbl1().unwrap();
    assert_eq!(labels.groups().len(), 3);
    assert!(labels.labels().is_empty());
    assert_eq!(labels.section().size(), 28);
    assert_eq!(offsets(&msbt), vec![28, 28, 28]);
    let texts = msbt.txt2().unwrap();
    assert!(texts.values().is_empty());
    assert_eq!(texts.section().size(), 4);
    // header 32; labels 8 + 28 = 36 -> 68, padded to 80; texts 8 + 4 = 12 -> 92, padded to 96
    assert_eq!(msbt.header().file_size(), 96);
}

#[test]
fn add_label_tokens_binds_the_name_to_a_new_entry() {
    let msbt = MsbtBuilder::new(Endianness::Little, Encoding::Utf16, Some(4))
        .unwrap()
        .add_label_tokens(String::from("hello"), text(&[0x41, 0x00]))
        .add_label_tokens(
            String::from("world"),
            vec![Token::TagStart(1, 2, vec![7]), Token::TagEnd],
        )
        .add_label_tokens(String::from("foo"), vec![])
        .build();
    let labels = msbt.lbl1().unwrap();
    let names: Vec<&str> = labels.labels().iter().map(|label| label.name()).collect();
    assert_eq!(names, vec!["hello", "world", "foo"]);
    let indices: Vec<u32> = labels.labels().iter().map(|label| label.index()).collect();
    assert_eq!(indices, vec![0, 1, 2]);
    assert_eq!(counts(&msbt), vec![1, 1, 0, 1]);
    // table 36; bucket 0: world (10); bucket 1: foo (8); bucket 3: hello (10)
    assert_eq!(offsets(&msbt), vec![36, 46, 54, 54]);
    assert_eq!(labels.section().size(), 36 + 28);
    let texts = msbt.txt2().unwrap();
    assert_eq!(texts.values().len(), 3);
    assert_eq!(texts.values()[0], text(&[0x41, 0x00]));
    assert_eq!(texts.values()[1], vec![Token::TagStart(1, 2, vec![7]), Token::TagEnd]);
    assert_eq!(texts.values()[2], Vec::<Token>::new());
    assert_eq!(texts.section().size(), 4 + 12 + 2 + 11);
    // 32 + (8 + 64) = 104 -> 112; + (8 + 29) = 149 -> 160
    assert_eq!(msbt.header().file_size(), 160);
    assert_eq!(msbt.calc_file_size(), 160);
    assert_eq!(msbt.section_order(), &[SectionTag::Lbl1, SectionTag::Txt2]);
}

#[test]
fn add_label_tokens_without_tables_changes_nothing() {
    let msbt = MsbtBuilder::new(Endianness::Little, Encoding::Utf16, None)
        .unwrap()
        .add_label_tokens(String::from("hello"), text(&[0x41, 0x00]))
        .build();
    assert!(msbt.lbl1().is_none());
    assert!(msbt.txt2().is_none());
    assert!(msbt.section_order().is_empty());
    assert_eq!(msbt.header().file_size(), 32);
}

#[test]
fn built_container_lists_only_what_was_attached() {
    let msbt = MsbtBuilder::new(Endianness::Little, Encoding::Utf16, None)
        .unwrap()
        .ato1(Ato1::new_unlinked(vec![0xFF; 3]))
        .build();
    assert_eq!(msbt.section_order(), &[SectionTag::Ato1]);
    assert_eq!(msbt.ato1().unwrap().unknown_bytes(), &[0xFF; 3]);
    assert!(msbt.atr1().is_none());
    assert!(msbt.lbl1().is_none());
    // 32 + 8 + 3 = 43 -> 48
    assert_eq!(msbt.header().file_size(), 48);
    assert_eq!(msbt.header().section_count(), 0);
}

#[test]
fn sections_are_listed_in_the_order_of_attachment() {
    let msbt = MsbtBuilder::new(Endianness::Big, Encoding::Utf8, Some(1))
        .unwrap()
        .tsy1(Tsy1::new_unlinked(vec![1; 16]))
        .nli1(Nli1::new_unlinked(vec![2; 8]))
        .atr1(Atr1::new_unlinked(vec![3; 9]))
        .ato1(Ato1::new_unlinked(vec![]))
        .build();
    assert_eq!(
        msbt.section_order(),
        &[
            SectionTag::Lbl1,
            SectionTag::Txt2,
            SectionTag::Tsy1,
            SectionTag::Nli1,
            SectionTag::Atr1,
            SectionTag::Ato1,
        ]
    );
    // 32; lbl1 8 + 12 = 20 -> 52 -> 64; txt2 12 -> 76 -> 80; tsy1 24 -> 104 -> 112;
    // nli1 16 -> 128; atr1 17 -> 145 -> 160; ato1 8 -> 168 -> 176
    assert_eq!(msbt.header().file_size(), 176);
    assert_eq!(msbt.tsy1().unwrap().section().size(), 16);
    assert_eq!(msbt.nli1().unwrap().section().size(), 8);
    assert_eq!(msbt.atr1().unwrap().section().size(), 9);
    assert_eq!(msbt.ato1().unwrap().section().size(), 0);
}

#[test]
fn attaching_again_replaces_and_moves_last() {
    let msbt = MsbtBuilder::new(Endianness::Little, Encoding::Utf16, None)
        .unwrap()
        .ato1(Ato1::new_unlinked(vec![1]))
        .atr1(Atr1::new_unlinked(vec![2, 2]))
        .ato1(Ato1::new_unlinked(vec![3, 3, 3]))
        .build();
    assert_eq!(msbt.section_order(), &[SectionTag::Atr1, SectionTag::Ato1]);
    assert_eq!(msbt.ato1().unwrap().unknown_bytes(), &[3, 3, 3]);
    assert_eq!(msbt.atr1().unwrap().unknown_bytes(), &[2, 2]);
}

#[test]
fn attached_text_table_replaces_the_built_in_one() {
    let mut texts = Txt2::new();
    texts.push(text(&[0x41, 0x00]));
    texts.push(text(&[0x42, 0x00, 0x43, 0x00]));
    let msbt = MsbtBuilder::new(Endianness::Little, Encoding::Utf16, Some(2))
        .unwrap()
        .add_label_tokens(String::from("a"), vec![])
        .txt2(texts)
        .unwrap()
        .add_label_tokens(String::from("b"), vec![Token::TagEnd])
        .build();
    assert_eq!(msbt.section_order(), &[SectionTag::Lbl1, SectionTag::Txt2]);
    let indices: Vec<u32> =
        msbt.lbl1().unwrap().labels().iter().map(|label| label.index()).collect();
    assert_eq!(indices, vec![0, 2]);
    assert_eq!(msbt.txt2().unwrap().values().len(), 3);
    assert_eq!(msbt.txt2().unwrap().section().size(), 4 + 12 + 2 + 4 + 2);
}

#[test]
fn text_table_that_loses_a_label_entry_is_refused() {
    let mut texts = Txt2::new();
    texts.push(vec![]);
    let result = MsbtBuilder::new(Endianness::Little, Encoding::Utf16, Some(2))
        .unwrap()
        .add_label_tokens(String::from("a"), vec![])
        .add_label_tokens(String::from("b"), vec![])
        .txt2(texts);
    assert_eq!(result.err(), Some(MsbtError::IndexOutOfRange));
}

#[test]
fn text_table_with_enough_entries_is_accepted() {
    let mut texts = Txt2::new();
    texts.push(vec![]);
    texts.push(vec![]);
    let result = MsbtBuilder::new(Endianness::Little, Encoding::Utf16, Some(2))
        .unwrap()
        .add_label_tokens(String::from("a"), vec![])
        .add_label_tokens(String::from("b"), vec![])
        .txt2(texts);
    assert!(result.is_ok());
    let empty = MsbtBuilder::new(Endianness::Little, Encoding::Utf16, None)
        .unwrap()
        .txt2(Txt2::new())
        .unwrap()
        .build();
    assert_eq!(empty.section_order(), &[SectionTag::Txt2]);
    assert_eq!(empty.header().file_size(), 48);
}

#[test]
fn every_section_declares_its_payload_after_build() {
    let msbt = MsbtBuilder::new(Endianness::Little, Encoding::Utf16, Some(101))
        .unwrap()
        .add_label_tokens(String::from("Test"), text(&[0x54, 0x00]))
        .atr1(Atr1::new_unlinked(vec![0; 20]))
        .build();
    let labels = msbt.lbl1().unwrap();
    assert_eq!(labels.section().size() as usize, labels.calc_size() - 8);
    assert_eq!(labels.section().size(), 4 + 101 * 8 + 9);
    assert_eq!(labels.groups()[72].label_count(), 1);
    assert_eq!(labels.groups()[72].offset(), 812);
    assert_eq!(labels.groups()[73].offset(), 821);
    let texts = msbt.txt2().unwrap();
    assert_eq!(texts.section().size() as usize, texts.calc_size() - 8);
    let attributes = msbt.atr1().unwrap();
    assert_eq!(attributes.section().size() as usize, attributes.calc_size() - 8);
    // 32 + 8 + 821 = 861 -> 864; + 8 + 10 = 882 -> 896; + 28 = 924 -> 928
    assert_eq!(msbt.header().file_size(), 928);
}

#[test]
fn pad_byte_can_be_chosen_and_changes_no_size() {
    let mut msbt = MsbtBuilder::new(Endianness::Little, Encoding::Utf16, Some(2))
        .unwrap()
        .build();
    assert_eq!(msbt.pad_byte(), 0);
    let size = msbt.header().file_size();
    msbt.set_pad_byte(0xAB);
    assert_eq!(msbt.pad_byte(), 0xAB);
    msbt.update();
    assert_eq!(msbt.header().file_size(), size);
    assert_eq!(msbt.section_order(), &[SectionTag::Lbl1, SectionTag::Txt2]);
}

#[test]
fn update_recomputes_the_file_size_from_the_content() {
    let mut msbt = MsbtBuilder::new(Endianness::Little, Encoding::Utf16, None)
        .unwrap()
        .nli1(Nli1::new_unlinked(vec![0; 8]))
        .build();
    assert_eq!(msbt.header().file_size(), 48);
    msbt.update();
    assert_eq!(msbt.header().file_size(), 48);
    assert_eq!(msbt.header().endianness(), Endianness::Little);
}

#[test]
fn add_label_decodes_the_raw_value() {
    let raw = vec![0x41, 0x00, 0x0E, 0x00, 0x01, 0x00, 0x02, 0x00, 0x01, 0x00, 0xAA, 0x0F, 0x00];
    let msbt = MsbtBuilder::new(Endianness::Little, Encoding::Utf16, Some(101))
        .unwrap()
        .add_label(String::from("Test"), raw)
        .unwrap()
        .build();
    let labels = msbt.lbl1().unwrap();
    assert_eq!(labels.labels().len(), 1);
    assert_eq!(labels.labels()[0].name(), "Test");
    assert_eq!(labels.labels()[0].index(), 0);
    assert_eq!(labels.groups()[72].label_count(), 1);
    assert_eq!(
        msbt.txt2().unwrap().values()[0],
        vec![Token::Text(vec![0x41, 0x00]), Token::TagStart(1, 2, vec![0xAA]), Token::TagEnd]
    );
    assert_eq!(msbt.txt2().unwrap().section().size(), 4 + 4 + 13);
}

#[test]
fn add_label_reads_the_raw_value_in_the_header_byte_order() {
    let raw = vec![0x00, 0x0F, 0x00, 0x41];
    let big = MsbtBuilder::new(Endianness::Big, Encoding::Utf16, Some(1))
        .unwrap()
        .add_label(String::from("a"), raw.clone())
        .unwrap()
        .build();
    assert_eq!(
        big.txt2().unwrap().values()[0],
        vec![Token::TagEnd, Token::Text(vec![0x00, 0x41])]
    );
    let little = MsbtBuilder::new(Endianness::Little, Encoding::Utf16, Some(1))
        .unwrap()
        .add_label(String::from("a"), raw.clone())
        .unwrap()
        .build();
    assert_eq!(little.txt2().unwrap().values()[0], vec![Token::Text(raw)]);
}

#[test]
fn add_label_refuses_a_truncated_raw_value() {
    let result = MsbtBuilder::new(Endianness::Little, Encoding::Utf16, Some(3))
        .unwrap()
        .add_label(String::from("a"), vec![0x41, 0x00, 0x0E, 0x00, 0x01]);
    assert_eq!(result.err(), Some(MsbtError::TruncatedTagStart { offset: 2 }));
}

#[test]
fn add_label_without_tables_changes_nothing() {
    let msbt = MsbtBuilder::new(Endianness::Little, Encoding::Utf16, None)
        .unwrap()
        .add_label(String::from("a"), vec![0x0E, 0x00])
        .unwrap()
        .build();
    assert!(msbt.lbl1().is_none());
    assert!(msbt.txt2().is_none());
    assert!(msbt.section_order().is_empty());
}
