use msbt::section::{Ato1, Atr1, Nli1, Section, Tsy1, FRAME_SIZE};

#[test]
fn frame_takes_eight_bytes() {
    let section = Section::new(*b"ABCD", 77);
    assert_eq!(section.tag(), *b"ABCD");
    assert_eq!(section.size(), 77);
    assert_eq!(section.calc_size(), 8);
    assert_eq!(FRAME_SIZE, 8);
}

#[test]
fn attribute_offsets_are_kept_as_bytes() {
    let section = Ato1::new_unlinked(vec![0xFF; 12]);
    assert_eq!(section.section().tag(), *b"ATO1");
    assert_eq!(section.section().size(), 12);
    assert_eq!(section.unknown_bytes(), &[0xFF; 12]);
    assert_eq!(section.calc_size(), 20);
    assert_eq!(section.section().size() as usize, section.calc_size() - 8);
}

#[test]
fn attributes_are_kept_as_bytes() {
    let section = Atr1::new_unlinked(vec![1, 2, 3]);
    assert_eq!(section.section().tag(), *b"ATR1");
    assert_eq!(section.section().size(), 3);
    assert_eq!(section.unknown_bytes(), &[1, 2, 3]);
    assert_eq!(section.calc_size(), 11);
    assert_eq!(section.section().size() as usize, section.calc_size() - 8);
}

#[test]
fn numeric_lookup_is_kept_as_bytes() {
    let section = Nli1::new_unlinked(vec![]);
    assert_eq!(section.section().tag(), *b"NLI1");
    assert_eq!(section.section().size(), 0);
    assert!(section.unknown_bytes().is_empty());
    assert_eq!(section.calc_size(), 8);
}

#[test]
fn text_styles_are_kept_as_bytes() {
    let section = Tsy1::new_unlinked(vec![9; 5]);
    assert_eq!(section.section().tag(), *b"TSY1");
    assert_eq!(section.section().size(), 5);
    assert_eq!(section.unknown_bytes(), &[9; 5]);
    assert_eq!(section.calc_size(), 13);
}
