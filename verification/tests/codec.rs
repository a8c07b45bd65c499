use msbt::section::txt2::{parse_bytes, tokens_to_bytes, Token, TAG_END, TAG_START};
use msbt::{Endianness, MsbtError};

#[test]
fn tag_start_and_tag_end_decode_and_encode_back() {
    let bytes = [0x0E, 0x00, 0x01, 0x00, 0x02, 0x00, 0x01, 0x00, 0xAA, 0x0F, 0x00];
    let tokens = parse_bytes(&bytes, Endianness::Little).unwrap();
    assert_eq!(tokens, vec![Token::TagStart(1, 2, vec![0xAA]), Token::TagEnd]);
    assert_eq!(tokens_to_bytes(&tokens, Endianness::Little), bytes.to_vec());
}

#[test]
fn big_endian_stream_reads_words_high_byte_first() {
    let bytes = [0x00, 0x0E, 0x01, 0x02, 0x03, 0x04, 0x00, 0x02, 0xAA, 0xBB, 0x00, 0x0F];
    let tokens = parse_bytes(&bytes, Endianness::Big).unwrap();
    assert_eq!(tokens, vec![Token::TagStart(0x0102, 0x0304, vec![0xAA, 0xBB]), Token::TagEnd]);
    assert_eq!(tokens_to_bytes(&tokens, Endianness::Big), bytes.to_vec());
}

#[test]
fn byte_order_decides_what_a_word_means() {
    let bytes = [0x00, 0x0F];
    assert_eq!(parse_bytes(&bytes, Endianness::Big).unwrap(), vec![Token::TagEnd]);
    assert_eq!(
        parse_bytes(&bytes, Endianness::Little).unwrap(),
        vec![Token::Text(vec![0x00, 0x0F])]
    );
}

#[test]
fn control_codes_have_their_fixed_values() {
    assert_eq!(TAG_START, 0x000E);
    assert_eq!(TAG_END, 0x000F);
}

#[test]
fn empty_stream_decodes_to_no_token() {
    assert_eq!(parse_bytes(&[], Endianness::Little).unwrap(), Vec::<Token>::new());
    assert_eq!(tokens_to_bytes(&[], Endianness::Little), Vec::<u8>::new());
}

#[test]
fn literal_words_coalesce_into_one_text_token() {
    let bytes = [0x41, 0x00, 0x42, 0x00, 0x43, 0x00];
    let tokens = parse_bytes(&bytes, Endianness::Little).unwrap();
    assert_eq!(tokens, vec![Token::Text(bytes.to_vec())]);
}

#[test]
fn unrecognized_codes_are_text() {
    let bytes = [0x10, 0x00, 0x0D, 0x00, 0xFF, 0xFF];
    let tokens = parse_bytes(&bytes, Endianness::Little).unwrap();
    assert_eq!(tokens, vec![Token::Text(bytes.to_vec())]);
}

#[test]
fn text_runs_break_at_control_codes() {
    let bytes = [0x41, 0x00, 0x0F, 0x00, 0x42, 0x00, 0x43, 0x00, 0x0E, 0x00, 0x05, 0x00, 0x06, 0x00,
        0x00, 0x00, 0x44, 0x00];
    let tokens = parse_bytes(&bytes, Endianness::Little).unwrap();
    assert_eq!(
        tokens,
        vec![
            Token::Text(vec![0x41, 0x00]),
            Token::TagEnd,
            Token::Text(vec![0x42, 0x00, 0x43, 0x00]),
            Token::TagStart(5, 6, vec![]),
            Token::Text(vec![0x44, 0x00]),
        ]
    );
    assert_eq!(tokens_to_bytes(&tokens, Endianness::Little), bytes.to_vec());
}

#[test]
fn odd_parameter_count_shifts_the_words_behind_it() {
    let bytes = [0x0E, 0x00, 0x01, 0x00, 0x02, 0x00, 0x03, 0x00, 0x0F, 0x00, 0x0E, 0x0F, 0x00];
    let tokens = parse_bytes(&bytes, Endianness::Little).unwrap();
    assert_eq!(tokens, vec![Token::TagStart(1, 2, vec![0x0F, 0x00, 0x0E]), Token::TagEnd]);
    assert_eq!(tokens_to_bytes(&tokens, Endianness::Little), bytes.to_vec());
}

#[test]
fn null_word_turns_the_rest_into_padding() {
    let bytes = [0x41, 0x00, 0x00, 0x00, 0x0E, 0x00, 0x07];
    let tokens = parse_bytes(&bytes, Endianness::Little).unwrap();
    assert_eq!(
        tokens,
        vec![Token::Text(vec![0x41, 0x00]), Token::Padding(vec![0x00, 0x00, 0x0E, 0x00, 0x07])]
    );
}

#[test]
fn padding_encodes_as_a_null_word_and_the_stored_bytes() {
    let tokens = vec![Token::Text(vec![0x41, 0x00]), Token::Padding(vec![0x00, 0x00, 0x0E])];
    assert_eq!(
        tokens_to_bytes(&tokens, Endianness::Little),
        vec![0x41, 0x00, 0x00, 0x00, 0x00, 0x00, 0x0E]
    );
    assert_eq!(Token::Padding(vec![]).to_bytes(Endianness::Big), vec![0x00, 0x00]);
}

#[test]
fn last_single_byte_is_left_unread() {
    let tokens = parse_bytes(&[0x41, 0x00, 0x42], Endianness::Little).unwrap();
    assert_eq!(tokens, vec![Token::Text(vec![0x41, 0x00])]);
    assert_eq!(parse_bytes(&[0x0E], Endianness::Little).unwrap(), Vec::<Token>::new());
}

#[test]
fn tag_start_without_its_codes_is_truncated() {
    let bytes = [0x41, 0x00, 0x0E, 0x00, 0x01, 0x00, 0x02];
    assert_eq!(
        parse_bytes(&bytes, Endianness::Little),
        Err(MsbtError::TruncatedTagStart { offset: 2 })
    );
    assert_eq!(
        parse_bytes(&[0x0E, 0x00], Endianness::Little),
        Err(MsbtError::TruncatedTagStart { offset: 0 })
    );
}

#[test]
fn tag_start_without_its_parameters_is_truncated() {
    let bytes = [0x0F, 0x00, 0x0E, 0x00, 0x01, 0x00, 0x02, 0x00, 0x03, 0x00, 0xAA, 0xBB];
    assert_eq!(
        parse_bytes(&bytes, Endianness::Little),
        Err(MsbtError::TruncatedTagStart { offset: 2 })
    );
}

#[test]
fn tag_start_that_just_fits_is_accepted() {
    let bytes = [0x0E, 0x00, 0x01, 0x00, 0x02, 0x00, 0x02, 0x00, 0xAA, 0xBB];
    assert_eq!(
        parse_bytes(&bytes, Endianness::Little).unwrap(),
        vec![Token::TagStart(1, 2, vec![0xAA, 0xBB])]
    );
}

#[test]
fn each_token_kind_has_its_bytes() {
    assert_eq!(
        Token::TagStart(0x0102, 0x0304, vec![9, 8, 7]).to_bytes(Endianness::Little),
        vec![0x0E, 0x00, 0x02, 0x01, 0x04, 0x03, 0x03, 0x00, 9, 8, 7]
    );
    assert_eq!(
        Token::TagStart(0x0102, 0x0304, vec![9, 8, 7]).to_bytes(Endianness::Big),
        vec![0x00, 0x0E, 0x01, 0x02, 0x03, 0x04, 0x00, 0x03, 9, 8, 7]
    );
    assert_eq!(Token::Text(vec![1, 2, 3]).to_bytes(Endianness::Little), vec![1, 2, 3]);
    assert_eq!(Token::Text(vec![]).to_bytes(Endianness::Big), Vec::<u8>::new());
    assert_eq!(Token::TagEnd.to_bytes(Endianness::Little), vec![0x0F, 0x00]);
    assert_eq!(Token::TagEnd.to_bytes(Endianness::Big), vec![0x00, 0x0F]);
    assert_eq!(Token::Padding(vec![5, 6]).to_bytes(Endianness::Little), vec![0x00, 0x00, 5, 6]);
}

#[test]
fn parameter_count_is_written_cut_to_sixteen_bits() {
    let bytes = Token::TagStart(1, 2, vec![0x55; 0x1_0002]).to_bytes(Endianness::Little);
    assert_eq!(bytes.len(), 8 + 0x1_0002);
    assert_eq!(&bytes[..8], &[0x0E, 0x00, 0x01, 0x00, 0x02, 0x00, 0x02, 0x00]);
}

#[test]
fn largest_parameter_count_round_trips() {
    let tokens = vec![Token::TagStart(7, 8, vec![0x11; 0xFFFF]), Token::TagEnd];
    let bytes = tokens_to_bytes(&tokens, Endianness::Big);
    assert_eq!(bytes.len(), 8 + 0xFFFF + 2);
    assert_eq!(parse_bytes(&bytes, Endianness::Big).unwrap(), tokens);
}

#[test]
fn canonical_tokens_survive_encoding_and_decoding() {
    let tokens = vec![
        Token::Text(vec![0x48, 0x00, 0x69, 0x00]),
        Token::TagStart(0, 3, vec![0x00, 0x00, 0x0E, 0x00]),
        Token::Text(vec![0x21, 0x00]),
        Token::TagEnd,
        Token::TagEnd,
        Token::TagStart(0xFFFF, 0xFFFF, vec![]),
    ];
    for endianness in [Endianness::Little, Endianness::Big] {
        let bytes = tokens_to_bytes(&tokens, endianness);
        assert_eq!(parse_bytes(&bytes, endianness).unwrap(), tokens);
    }
}

#[test]
fn neighbouring_text_tokens_come_back_as_one() {
    let tokens = vec![Token::Text(vec![0x41, 0x00]), Token::Text(vec![0x42, 0x00])];
    let bytes = tokens_to_bytes(&tokens, Endianness::Little);
    assert_eq!(
        parse_bytes(&bytes, Endianness::Little).unwrap(),
        vec![Token::Text(vec![0x41, 0x00, 0x42, 0x00])]
    );
}

#[test]
fn decoded_streams_encode_back_to_themselves() {
    let streams: Vec<Vec<u8>> = vec![
        vec![],
        vec![0x41, 0x00],
        vec![0x0F, 0x00, 0x0F, 0x00],
        vec![0x0E, 0x00, 0xFF, 0xFF, 0x00, 0x00, 0x00, 0x00, 0x41, 0x00],
        vec![0x31, 0x32, 0x33, 0x34, 0x0E, 0x00, 0x09, 0x00, 0x08, 0x00, 0x01, 0x00, 0x77],
    ];
    for stream in streams {
        let tokens = parse_bytes(&stream, Endianness::Little).unwrap();
        assert_eq!(tokens_to_bytes(&tokens, Endianness::Little), stream);
    }
}
