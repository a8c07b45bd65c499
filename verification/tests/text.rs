use msbt::section::txt2::{Token, Txt2, TXT2_TAG};

fn sample_entry() -> Vec<Token> {
    vec![
        Token::Text(vec![0x48, 0x00, 0x69, 0x00]),
        Token::TagStart(1, 2, vec![0xAA, 0xBB, 0xCC]),
        Token::TagEnd,
    ]
}

#[test]
fn new_text_table_is_empty() {
    let table = Txt2::new();
    assert_eq!(table.section().tag(), *b"TXT2");
    assert_eq!(&TXT2_TAG, b"TXT2");
    assert_eq!(table.section().size(), 0);
    assert!(table.values().is_empty());
    assert_eq!(table.calc_size(), 8 + 4);
}

#[test]
fn push_adds_the_entry_last() {
    let mut table = Txt2::new();
    table.push(sample_entry());
    table.push(vec![]);
    table.push(vec![Token::TagEnd]);
    assert_eq!(table.values().len(), 3);
    assert_eq!(table.values()[0], sample_entry());
    assert_eq!(table.values()[1], Vec::<Token>::new());
    assert_eq!(table.values()[2], vec![Token::TagEnd]);
    assert_eq!(table.section().size(), 0);
}

#[test]
fn text_size_counts_count_offsets_and_streams() {
    let mut table = Txt2::new();
    table.push(sample_entry());
    table.push(vec![Token::Padding(vec![0x00, 0x00, 0x01])]);
    table.push(vec![]);
    // streams: 4 + (8 + 3) + 2 = 17, and 2 + 3 = 5, and 0
    assert_eq!(table.calc_size(), 8 + 4 + 3 * 4 + 17 + 5);
    table.update();
    assert_eq!(table.section().size(), 4 + 12 + 22);
    assert_eq!(table.section().size() as usize, table.calc_size() - 8);
    assert_eq!(table.values().len(), 3);
    assert_eq!(table.section().tag(), *b"TXT2");
}

#[test]
fn update_of_an_empty_text_table() {
    let mut table = Txt2::new();
    table.update();
    assert_eq!(table.section().size(), 4);
}

#[test]
fn stream_size_is_the_encoded_length() {
    let mut table = Txt2::new();
    table.push(sample_entry());
    table.update();
    let encoded = msbt::section::txt2::tokens_to_bytes(&sample_entry(), msbt::Endianness::Big);
    assert_eq!(table.section().size() as usize, 4 + 4 + encoded.len());
}
