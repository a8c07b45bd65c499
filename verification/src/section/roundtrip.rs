//! How decoding and encoding of token streams undo each other.

use vstd::prelude::*;
use crate::endian::{
    lemma_word_bytes_roundtrip, lemma_word_of_roundtrip, word_at, word_bytes, Endianness,
};
use crate::error::MsbtError;
use crate::section::txt2::{
    decoded_after, is_control, lemma_text_end_bounds, spec_decode, spec_decode_from, spec_encode,
    spec_encode_token, text_end, TokenView, TAG_END, TAG_START,
};

verus! {

/// Whether every aligned word of a text run is one that the decoder takes as text.
pub open spec fn literal_words(bytes: Seq<u8>, endianness: Endianness) -> bool {
    forall|at: int|
        0 <= at && at % 2 == 0 && at + 2 <= bytes.len() ==> !is_control(
            #[trigger] word_at(bytes, at, endianness),
        )
}

/// Whether a token is one that the decoder can produce away from the end of
/// a stream: no padding; a tag start whose parameter count fits its length
/// word; a text run that is not empty, is made of whole words and holds no
/// control word.
pub open spec fn canonical_token(token: TokenView, endianness: Endianness) -> bool {
    match token {
        TokenView::TagStart(_, _, params) => params.len() <= 0xFFFF,
        TokenView::Text(bytes) => bytes.len() > 0 && bytes.len() % 2 == 0 && literal_words(
            bytes,
            endianness,
        ),
        TokenView::TagEnd => true,
        TokenView::Padding(_) => false,
    }
}

/// Whether a token sequence is in the form that decoding gives when it meets
/// no null word: every token is canonical and no two text runs are neighbours.
pub open spec fn canonical(tokens: Seq<TokenView>, endianness: Endianness) -> bool {
    &&& forall|i: int| 0 <= i < tokens.len() ==> canonical_token(#[trigger] tokens[i], endianness)
    &&& forall|i: int, j: int|
        0 <= i && j == i + 1 && j < tokens.len() && (#[trigger] tokens[i]) is Text ==> !((
        #[trigger] tokens[j]) is Text)
}

/// Whether a token sequence holds no padding token.
pub open spec fn no_padding(tokens: Seq<TokenView>) -> bool {
    forall|i: int| 0 <= i < tokens.len() ==> !(#[trigger] tokens[i] is Padding)
}

/// The word that stands at `pos` of a stream is the word at the start of
/// what the stream holds from `pos` on.
proof fn lemma_word_at_skip(bytes: Seq<u8>, pos: int, at: int, endianness: Endianness)
    requires
        0 <= pos,
        0 <= at,
        pos + at + 2 <= bytes.len(),
    ensures
        word_at(bytes, pos + at, endianness) == word_at(bytes.skip(pos), at, endianness),
{
}

/// A word in front of other bytes reads back as itself.
proof fn lemma_word_at_front(word: u16, tail: Seq<u8>, endianness: Endianness)
    ensures
        word_at(word_bytes(word, endianness) + tail, 0, endianness) == word,
        (word_bytes(word, endianness) + tail).len() == 2 + tail.len(),
        (word_bytes(word, endianness) + tail).skip(2) == tail,
{
    lemma_word_bytes_roundtrip(word, endianness);
    assert((word_bytes(word, endianness) + tail).skip(2) =~= tail);
}

/// The encoding of a canonical sequence does not begin with a literal word
/// unless the sequence begins with a text run.
proof fn lemma_encoded_front(tokens: Seq<TokenView>, endianness: Endianness)
    requires
        canonical(tokens, endianness),
        tokens.len() > 0,
        !(tokens[0] is Text),
    ensures
        spec_encode(tokens, endianness).len() >= 2,
        is_control(word_at(spec_encode(tokens, endianness), 0, endianness)),
{
    let tail = spec_encode(tokens.skip(1), endianness);
    assert(canonical_token(tokens[0], endianness));
    match tokens[0] {
        TokenView::TagStart(group, tag, params) => {
            let rest = word_bytes(group, endianness) + word_bytes(tag, endianness) + word_bytes(
                (params.len() % 0x1_0000) as u16,
                endianness,
            ) + params + tail;
            assert(spec_encode(tokens, endianness) =~= word_bytes(TAG_START, endianness) + rest);
            lemma_word_at_front(TAG_START, rest, endianness);
        },
        TokenView::TagEnd => {
            lemma_word_at_front(TAG_END, tail, endianness);
        },
        _ => {},
    }
}

/// A run of literal words that is followed by the end of the stream or by a
/// control word is exactly one text run.
proof fn lemma_text_end_of_run(
    bytes: Seq<u8>,
    pos: int,
    run: Seq<u8>,
    done: int,
    endianness: Endianness,
)
    requires
        0 <= pos,
        pos + run.len() <= bytes.len(),
        bytes.subrange(pos, pos + run.len()) == run,
        run.len() % 2 == 0,
        literal_words(run, endianness),
        0 <= done <= run.len(),
        done % 2 == 0,
        pos + run.len() + 2 > bytes.len() || is_control(
            word_at(bytes, pos + run.len(), endianness),
        ),
    ensures
        text_end(bytes, pos + done, endianness) == pos + run.len(),
    decreases run.len() - done,
{
    if done < run.len() {
        assert(!is_control(word_at(run, done, endianness)));
        assert(run[done] == bytes[pos + done]);
        assert(run[done + 1] == bytes[pos + done + 1]);
        lemma_text_end_of_run(bytes, pos, run, done + 2, endianness);
    }
}

/// A canonical sequence without its first token is canonical.
proof fn lemma_canonical_skip(tokens: Seq<TokenView>, endianness: Endianness)
    requires
        canonical(tokens, endianness),
        tokens.len() > 0,
    ensures
        canonical(tokens.skip(1), endianness),
{
    let rest = tokens.skip(1);
    assert forall|i: int| 0 <= i < rest.len() implies canonical_token(
        #[trigger] rest[i],
        endianness,
    ) by {
        assert(rest[i] == tokens[i + 1]);
    }
    assert forall|i: int, j: int|
        0 <= i && j == i + 1 && j < rest.len() && (#[trigger] rest[i]) is Text implies !((
        #[trigger] rest[j]) is Text) by {
        assert(rest[i] == tokens[i + 1]);
        assert(rest[j] == tokens[j + 1]);
    }
}

/// How the encoding of a tag start, with other bytes behind it, is laid out.
proof fn lemma_tag_start_layout(
    group: u16,
    tag: u16,
    params: Seq<u8>,
    tail: Seq<u8>,
    endianness: Endianness,
)
    requires
        params.len() <= 0xFFFF,
    ensures
        ({
            let all = spec_encode_token(TokenView::TagStart(group, tag, params), endianness) + tail;
            &&& all.len() == 8 + params.len() + tail.len()
            &&& word_at(all, 0, endianness) == TAG_START
            &&& word_at(all, 2, endianness) == group
            &&& word_at(all, 4, endianness) == tag
            &&& word_at(all, 6, endianness) == params.len()
            &&& all.subrange(8, 8 + params.len() as int) == params
            &&& all.skip(8 + params.len() as int) == tail
        }),
{
    let all = spec_encode_token(TokenView::TagStart(group, tag, params), endianness) + tail;
    let count = (params.len() % 0x1_0000) as u16;
    let after_count = params + tail;
    let after_tag = word_bytes(count, endianness) + after_count;
    let after_group = word_bytes(tag, endianness) + after_tag;
    let after_code = word_bytes(group, endianness) + after_group;
    lemma_word_at_front(TAG_START, after_code, endianness);
    lemma_word_at_front(group, after_group, endianness);
    lemma_word_at_front(tag, after_tag, endianness);
    lemma_word_at_front(count, after_count, endianness);
    assert(all =~= word_bytes(TAG_START, endianness) + after_code);
    lemma_word_at_skip(all, 2, 0, endianness);
    lemma_word_at_skip(all, 4, 0, endianness);
    lemma_word_at_skip(all, 6, 0, endianness);
    assert(all.skip(2) =~= after_code);
    assert(all.skip(4) =~= after_group);
    assert(all.skip(6) =~= after_tag);
    assert(all.subrange(8, 8 + params.len() as int) =~= params);
    assert(all.skip(8 + params.len() as int) =~= tail);
}

/// Decoding a stream that holds a tag start at `pos`.
proof fn lemma_decode_tag_start(
    bytes: Seq<u8>,
    pos: int,
    group: u16,
    tag: u16,
    params: Seq<u8>,
    endianness: Endianness,
)
    requires
        0 <= pos,
        pos + 8 + params.len() <= bytes.len(),
        word_at(bytes, pos, endianness) == TAG_START,
        word_at(bytes, pos + 2, endianness) == group,
        word_at(bytes, pos + 4, endianness) == tag,
        word_at(bytes, pos + 6, endianness) == params.len(),
        bytes.subrange(pos + 8, pos + 8 + params.len() as int) == params,
    ensures
        spec_decode_from(bytes, pos, endianness) == decoded_after(
            seq![TokenView::TagStart(group, tag, params)],
            spec_decode_from(bytes, pos + 8 + params.len(), endianness),
        ),
{
}

/// Decoding a stream that holds a text run from `pos` up to `end`.
proof fn lemma_decode_text(bytes: Seq<u8>, pos: int, end: int, endianness: Endianness)
    requires
        0 <= pos,
        pos + 2 <= bytes.len(),
        !is_control(word_at(bytes, pos, endianness)),
        text_end(bytes, pos, endianness) == end,
    ensures
        spec_decode_from(bytes, pos, endianness) == decoded_after(
            seq![TokenView::Text(bytes.subrange(pos, end))],
            spec_decode_from(bytes, end, endianness),
        ),
{
}

/// A text run at `pos` of a stream, followed by the encoding of a canonical
/// sequence that does not begin with text, ends where its bytes end.
proof fn lemma_text_run_end(
    bytes: Seq<u8>,
    pos: int,
    run: Seq<u8>,
    rest: Seq<TokenView>,
    endianness: Endianness,
)
    requires
        0 <= pos,
        pos + run.len() <= bytes.len(),
        bytes.subrange(pos, pos + run.len()) == run,
        bytes.skip(pos + run.len()) == spec_encode(rest, endianness),
        canonical_token(TokenView::Text(run), endianness),
        canonical(rest, endianness),
        rest.len() > 0 ==> !(rest[0] is Text),
    ensures
        text_end(bytes, pos, endianness) == pos + run.len(),
        !is_control(word_at(bytes, pos, endianness)),
{
    let end = pos + run.len();
    assert(!is_control(word_at(run, 0, endianness)));
    assert(run[0] == bytes[pos]);
    assert(run[1] == bytes[pos + 1]);
    if rest.len() > 0 {
        lemma_encoded_front(rest, endianness);
        lemma_word_at_skip(bytes, end, 0, endianness);
    } else {
        assert(bytes.skip(end).len() == 0);
    }
    lemma_text_end_of_run(bytes, pos, run, 0, endianness);
}

/// What a stream holds from `pos` on, split after its first `count` bytes.
proof fn lemma_skip_split(bytes: Seq<u8>, pos: int, head: Seq<u8>, tail: Seq<u8>)
    requires
        0 <= pos <= bytes.len(),
        bytes.skip(pos) == head + tail,
    ensures
        pos + head.len() <= bytes.len(),
        bytes.subrange(pos, pos + head.len()) == head,
        bytes.skip(pos + head.len()) == tail,
{
    let from_pos = bytes.skip(pos);
    assert(from_pos.len() == head.len() + tail.len());
    assert forall|i: int| 0 <= i < head.len() implies bytes[pos + i] == head[i] by {
        assert(from_pos[i] == bytes[pos + i]);
    }
    assert forall|i: int| 0 <= i < tail.len() implies bytes[pos + head.len() + i] == tail[i] by {
        assert(from_pos[head.len() + i] == bytes[pos + head.len() + i]);
    }
    assert(bytes.subrange(pos, pos + head.len()) =~= head);
    assert(bytes.skip(pos + head.len()) =~= tail);
}

/// Decoding at an encoded tag start gives the tag start back and goes on behind it.
proof fn lemma_step_tag_start(
    bytes: Seq<u8>,
    pos: int,
    group: u16,
    tag: u16,
    params: Seq<u8>,
    tail: Seq<u8>,
    endianness: Endianness,
) -> (next: int)
    requires
        0 <= pos <= bytes.len(),
        params.len() <= 0xFFFF,
        bytes.skip(pos) == spec_encode_token(TokenView::TagStart(group, tag, params), endianness)
            + tail,
    ensures
        pos <= next <= bytes.len(),
        bytes.skip(next) == tail,
        spec_decode_from(bytes, pos, endianness) == decoded_after(
            seq![TokenView::TagStart(group, tag, params)],
            spec_decode_from(bytes, next, endianness),
        ),
{
    let head = spec_encode_token(TokenView::TagStart(group, tag, params), endianness);
    let end = pos + 8 + params.len();
    lemma_tag_start_layout(group, tag, params, tail, endianness);
    assert(head.len() == 8 + params.len());
    lemma_skip_split(bytes, pos, head, tail);
    lemma_word_at_skip(bytes, pos, 0, endianness);
    lemma_word_at_skip(bytes, pos, 2, endianness);
    lemma_word_at_skip(bytes, pos, 4, endianness);
    lemma_word_at_skip(bytes, pos, 6, endianness);
    assert(bytes.subrange(pos + 8, end) =~= bytes.skip(pos).subrange(
        8,
        8 + params.len() as int,
    ));
    lemma_decode_tag_start(bytes, pos, group, tag, params, endianness);
    end
}

/// Decoding at an encoded tag end gives the tag end back and goes on behind it.
proof fn lemma_step_tag_end(bytes: Seq<u8>, pos: int, tail: Seq<u8>, endianness: Endianness)
    requires
        0 <= pos <= bytes.len(),
        bytes.skip(pos) == word_bytes(TAG_END, endianness) + tail,
    ensures
        pos + 2 <= bytes.len(),
        bytes.skip(pos + 2) == tail,
        spec_decode_from(bytes, pos, endianness) == decoded_after(
            seq![TokenView::TagEnd],
            spec_decode_from(bytes, pos + 2, endianness),
        ),
{
    lemma_word_at_front(TAG_END, tail, endianness);
    lemma_skip_split(bytes, pos, word_bytes(TAG_END, endianness), tail);
    lemma_word_at_skip(bytes, pos, 0, endianness);
}

/// Decoding at an encoded text run gives the run back and goes on behind it.
proof fn lemma_step_text(
    bytes: Seq<u8>,
    pos: int,
    run: Seq<u8>,
    rest: Seq<TokenView>,
    endianness: Endianness,
)
    requires
        0 <= pos <= bytes.len(),
        bytes.skip(pos) == run + spec_encode(rest, endianness),
        canonical_token(TokenView::Text(run), endianness),
        canonical(rest, endianness),
        rest.len() > 0 ==> !(rest[0] is Text),
    ensures
        pos + run.len() <= bytes.len(),
        bytes.skip(pos + run.len()) == spec_encode(rest, endianness),
        spec_decode_from(bytes, pos, endianness) == decoded_after(
            seq![TokenView::Text(run)],
            spec_decode_from(bytes, pos + run.len(), endianness),
        ),
{
    lemma_skip_split(bytes, pos, run, spec_encode(rest, endianness));
    lemma_text_run_end(bytes, pos, run, rest, endianness);
    lemma_decode_text(bytes, pos, pos + run.len(), endianness);
}

/// One step of decoding an encoded canonical sequence: the first token
/// comes back, and what is left of the stream is the encoding of the rest.
proof fn lemma_decode_encoded_step(
    bytes: Seq<u8>,
    pos: int,
    tokens: Seq<TokenView>,
    endianness: Endianness,
) -> (next: int)
    requires
        0 <= pos <= bytes.len(),
        canonical(tokens, endianness),
        tokens.len() > 0,
        bytes.skip(pos) == spec_encode(tokens, endianness),
    ensures
        pos <= next <= bytes.len(),
        bytes.skip(next) == spec_encode(tokens.skip(1), endianness),
        spec_decode_from(bytes, pos, endianness) == decoded_after(
            seq![tokens[0]],
            spec_decode_from(bytes, next, endianness),
        ),
{
    let rest = tokens.skip(1);
    let tail = spec_encode(rest, endianness);
    assert(canonical_token(tokens[0], endianness));
    match tokens[0] {
        TokenView::TagStart(group, tag, params) => {
            lemma_step_tag_start(bytes, pos, group, tag, params, tail, endianness)
        },
        TokenView::TagEnd => {
            lemma_step_tag_end(bytes, pos, tail, endianness);
            pos + 2
        },
        TokenView::Text(run) => {
            lemma_canonical_skip(tokens, endianness);
            if rest.len() > 0 {
                assert(rest[0] == tokens[1]);
            }
            lemma_step_text(bytes, pos, run, rest, endianness);
            pos + run.len()
        },
        TokenView::Padding(_) => pos,
    }
}

/// Where a stream holds the encoding of a canonical sequence from `pos` on,
/// decoding from `pos` gives that sequence.
proof fn lemma_decode_encoded_from(
    bytes: Seq<u8>,
    pos: int,
    tokens: Seq<TokenView>,
    endianness: Endianness,
)
    requires
        0 <= pos <= bytes.len(),
        canonical(tokens, endianness),
        bytes.skip(pos) == spec_encode(tokens, endianness),
    ensures
        spec_decode_from(bytes, pos, endianness) == Ok::<Seq<TokenView>, MsbtError>(tokens),
    decreases tokens.len(),
{
    if tokens.len() == 0 {
        assert(bytes.skip(pos).len() == 0);
        assert(tokens =~= Seq::<TokenView>::empty());
    } else {
        let next = lemma_decode_encoded_step(bytes, pos, tokens, endianness);
        lemma_canonical_skip(tokens, endianness);
        lemma_decode_encoded_from(bytes, next, tokens.skip(1), endianness);
        assert(seq![tokens[0]] + tokens.skip(1) =~= tokens);
    }
}

/// Decoding undoes encoding: a canonical token sequence, encoded and decoded
/// again in the same byte order, comes back unchanged.
pub proof fn lemma_decode_encode(tokens: Seq<TokenView>, endianness: Endianness)
    requires
        canonical(tokens, endianness),
    ensures
        spec_decode(spec_encode(tokens, endianness), endianness) == Ok::<
            Seq<TokenView>,
            MsbtError,
        >(tokens),
{
    let encoded = spec_encode(tokens, endianness);
    assert(encoded.skip(0) =~= encoded);
    lemma_decode_encoded_from(encoded, 0, tokens, endianness);
}

/// Every word of a text run, as the decoder delimits it, is a literal one.
proof fn lemma_text_run_literal(bytes: Seq<u8>, pos: int, endianness: Endianness)
    requires
        0 <= pos <= bytes.len(),
    ensures
        literal_words(
            bytes.subrange(pos, text_end(bytes, pos, endianness)),
            endianness,
        ),
    decreases bytes.len() - pos,
{
    lemma_text_end_bounds(bytes, pos, endianness);
    let end = text_end(bytes, pos, endianness);
    let run = bytes.subrange(pos, end);
    if pos + 2 <= bytes.len() && !is_control(word_at(bytes, pos, endianness)) {
        lemma_text_run_literal(bytes, pos + 2, endianness);
        lemma_text_end_bounds(bytes, pos + 2, endianness);
        let shorter = bytes.subrange(pos + 2, end);
        assert forall|at: int| 0 <= at && at % 2 == 0 && at + 2 <= run.len() implies !is_control(
            #[trigger] word_at(run, at, endianness),
        ) by {
            if at == 0 {
                assert(run[0] == bytes[pos]);
                assert(run[1] == bytes[pos + 1]);
            } else {
                assert(!is_control(word_at(shorter, at - 2, endianness)));
                assert(shorter[at - 2] == run[at]);
                assert(shorter[at - 1] == run[at + 1]);
            }
        }
    }
}

/// What decoding gives behind a text run does not begin with text.
proof fn lemma_after_text(bytes: Seq<u8>, pos: int, endianness: Endianness)
    requires
        0 <= pos <= bytes.len(),
    ensures
        match spec_decode_from(bytes, text_end(bytes, pos, endianness), endianness) {
            Ok(rest) => rest.len() > 0 ==> !(rest[0] is Text),
            Err(_) => true,
        },
    decreases bytes.len() - pos,
{
    if pos + 2 <= bytes.len() && !is_control(word_at(bytes, pos, endianness)) {
        lemma_after_text(bytes, pos + 2, endianness);
    }
}

/// A canonical token in front of a canonical sequence that does not go on
/// with text where the token is text.
proof fn lemma_canonical_cons(token: TokenView, rest: Seq<TokenView>, endianness: Endianness)
    requires
        canonical_token(token, endianness),
        canonical(rest, endianness),
        token is Text && rest.len() > 0 ==> !(rest[0] is Text),
    ensures
        canonical(seq![token] + rest, endianness),
{
    let all = seq![token] + rest;
    assert forall|i: int| 0 <= i < all.len() implies canonical_token(
        #[trigger] all[i],
        endianness,
    ) by {
        if i > 0 {
            assert(all[i] == rest[i - 1]);
        }
    }
    assert forall|i: int, j: int|
        0 <= i && j == i + 1 && j < all.len() && (#[trigger] all[i]) is Text implies !((
        #[trigger] all[j]) is Text) by {
        assert(all[j] == rest[j - 1]);
        if i > 0 {
            assert(all[i] == rest[i - 1]);
        }
    }
}

/// A sequence without padding, behind a token that is none, holds none.
proof fn lemma_no_padding_cons(token: TokenView, rest: Seq<TokenView>)
    ensures
        no_padding(seq![token] + rest) <==> !(token is Padding) && no_padding(rest),
{
    let all = seq![token] + rest;
    if !(token is Padding) && no_padding(rest) {
        assert forall|i: int| 0 <= i < all.len() implies !(#[trigger] all[i] is Padding) by {
            if i > 0 {
                assert(all[i] == rest[i - 1]);
            }
        }
    }
    if no_padding(all) {
        assert(all[0] == token);
        assert forall|i: int| 0 <= i < rest.len() implies !(#[trigger] rest[i] is Padding) by {
            assert(all[i + 1] == rest[i]);
        }
    }
}

/// The encoding of a token in front of a sequence.
proof fn lemma_encode_cons(token: TokenView, rest: Seq<TokenView>, endianness: Endianness)
    ensures
        spec_encode(seq![token] + rest, endianness) == spec_encode_token(token, endianness)
            + spec_encode(rest, endianness),
{
    let all = seq![token] + rest;
    assert(all.skip(1) =~= rest);
    assert(all.first() == token);
}

/// Whether `tokens` is a canonical sequence whose encoding is the stream
/// from `pos` up to the end or up to a last single byte.
spec fn decoded_well(
    bytes: Seq<u8>,
    pos: int,
    tokens: Seq<TokenView>,
    endianness: Endianness,
) -> bool {
    let encoded = spec_encode(tokens, endianness);
    &&& canonical(tokens, endianness)
    &&& no_padding(tokens)
    &&& pos + encoded.len() <= bytes.len() <= pos + encoded.len() + 1
    &&& bytes.subrange(pos, pos + encoded.len()) == encoded
}

/// One more token in front of a well decoded rest.
proof fn lemma_decoded_cons(
    bytes: Seq<u8>,
    pos: int,
    end: int,
    token: TokenView,
    rest: Seq<TokenView>,
    endianness: Endianness,
)
    requires
        0 <= pos <= end <= bytes.len(),
        canonical_token(token, endianness),
        bytes.subrange(pos, end) == spec_encode_token(token, endianness),
        token is Text && rest.len() > 0 ==> !(rest[0] is Text),
        decoded_well(bytes, end, rest, endianness),
    ensures
        decoded_well(bytes, pos, seq![token] + rest, endianness),
{
    lemma_no_padding_cons(token, rest);
    lemma_canonical_cons(token, rest, endianness);
    lemma_encode_cons(token, rest, endianness);
    let tail = spec_encode(rest, endianness);
    assert(bytes.subrange(pos, end + tail.len()) =~= bytes.subrange(pos, end) + bytes.subrange(
        end,
        end + tail.len(),
    ));
}

/// No token behind another keeps padding out unless the rest holds none.
proof fn lemma_padding_stays(token: TokenView, rest: Seq<TokenView>)
    requires
        !no_padding(rest) || token is Padding,
    ensures
        !no_padding(seq![token] + rest),
{
    lemma_no_padding_cons(token, rest);
}

/// What the decoder gives from `pos` on, where it met no null word, is
/// canonical, and its encoding is the stream from `pos` up to the end or up
/// to a last single byte.
proof fn lemma_decoded_from(bytes: Seq<u8>, pos: int, endianness: Endianness)
    requires
        0 <= pos <= bytes.len(),
    ensures
        match spec_decode_from(bytes, pos, endianness) {
            Ok(tokens) => no_padding(tokens) ==> decoded_well(bytes, pos, tokens, endianness),
            Err(_) => true,
        },
    decreases bytes.len() - pos,
{
    if pos + 2 > bytes.len() {
        assert(bytes.subrange(pos, pos + 0) =~= Seq::<u8>::empty());
        assert(decoded_well(bytes, pos, Seq::empty(), endianness));
    } else {
        let code = word_at(bytes, pos, endianness);
        if code == TAG_START {
            if !(pos + 8 > bytes.len() || pos + 8 + word_at(bytes, pos + 6, endianness)
                > bytes.len()) {
                let end = pos + 8 + word_at(bytes, pos + 6, endianness);
                let token = TokenView::TagStart(
                    word_at(bytes, pos + 2, endianness),
                    word_at(bytes, pos + 4, endianness),
                    bytes.subrange(pos + 8, end),
                );
                lemma_decoded_from(bytes, end, endianness);
                if let Ok(rest) = spec_decode_from(bytes, end, endianness) {
                    if no_padding(rest) {
                        lemma_tag_start_bytes(bytes, pos, endianness);
                        lemma_decoded_cons(bytes, pos, end, token, rest, endianness);
                    } else {
                        lemma_padding_stays(token, rest);
                    }
                }
            }
        } else if code == TAG_END {
            lemma_decoded_from(bytes, pos + 2, endianness);
            if let Ok(rest) = spec_decode_from(bytes, pos + 2, endianness) {
                if no_padding(rest) {
                    lemma_word_of_roundtrip(bytes[pos], bytes[pos + 1], endianness);
                    assert(bytes.subrange(pos, pos + 2) =~= seq![bytes[pos], bytes[pos + 1]]);
                    lemma_decoded_cons(bytes, pos, pos + 2, TokenView::TagEnd, rest, endianness);
                } else {
                    lemma_padding_stays(TokenView::TagEnd, rest);
                }
            }
        } else if code == 0 {
            lemma_padding_stays(TokenView::Padding(bytes.skip(pos)), Seq::empty());
            assert(seq![TokenView::Padding(bytes.skip(pos))] + Seq::<TokenView>::empty()
                =~= seq![TokenView::Padding(bytes.skip(pos))]);
        } else {
            let end = text_end(bytes, pos, endianness);
            let token = TokenView::Text(bytes.subrange(pos, end));
            lemma_text_end_bounds(bytes, pos + 2, endianness);
            lemma_text_run_literal(bytes, pos, endianness);
            lemma_after_text(bytes, pos, endianness);
            lemma_decoded_from(bytes, end, endianness);
            if let Ok(rest) = spec_decode_from(bytes, end, endianness) {
                if no_padding(rest) {
                    lemma_decoded_cons(bytes, pos, end, token, rest, endianness);
                } else {
                    lemma_padding_stays(token, rest);
                }
            }
        }
    }
}

/// The bytes of a tag start that the decoder accepts at `pos` are the
/// encoding of the tag start that it gives.
proof fn lemma_tag_start_bytes(bytes: Seq<u8>, pos: int, endianness: Endianness)
    requires
        0 <= pos,
        pos + 8 + word_at(bytes, pos + 6, endianness) <= bytes.len(),
        word_at(bytes, pos, endianness) == TAG_START,
    ensures
        ({
            let end = pos + 8 + word_at(bytes, pos + 6, endianness);
            bytes.subrange(pos, end) == spec_encode_token(
                TokenView::TagStart(
                    word_at(bytes, pos + 2, endianness),
                    word_at(bytes, pos + 4, endianness),
                    bytes.subrange(pos + 8, end),
                ),
                endianness,
            )
        }),
{
    let end = pos + 8 + word_at(bytes, pos + 6, endianness);
    let params = bytes.subrange(pos + 8, end);
    lemma_word_of_roundtrip(bytes[pos], bytes[pos + 1], endianness);
    lemma_word_of_roundtrip(bytes[pos + 2], bytes[pos + 3], endianness);
    lemma_word_of_roundtrip(bytes[pos + 4], bytes[pos + 5], endianness);
    lemma_word_of_roundtrip(bytes[pos + 6], bytes[pos + 7], endianness);
    assert(params.len() == word_at(bytes, pos + 6, endianness));
    let head = seq![bytes[pos], bytes[pos + 1]] + seq![bytes[pos + 2], bytes[pos + 3]] + seq![
        bytes[pos + 4],
        bytes[pos + 5],
    ] + seq![bytes[pos + 6], bytes[pos + 7]];
    assert(bytes.subrange(pos, end) =~= head + params);
}

/// What decoding gives, where it meets no null word, is a canonical sequence.
pub proof fn lemma_decoded_is_canonical(bytes: Seq<u8>, endianness: Endianness)
    requires
        spec_decode(bytes, endianness) is Ok,
        no_padding(spec_decode(bytes, endianness)->Ok_0),
    ensures
        canonical(spec_decode(bytes, endianness)->Ok_0, endianness),
{
    lemma_decoded_from(bytes, 0, endianness);
}

/// Encoding undoes decoding: where a stream decodes without meeting a null
/// word, the tokens encode to that stream again, up to a last single byte
/// that the decoder leaves unread.
pub proof fn lemma_encode_decode(bytes: Seq<u8>, endianness: Endianness)
    requires
        spec_decode(bytes, endianness) is Ok,
        no_padding(spec_decode(bytes, endianness)->Ok_0),
    ensures
        ({
            let encoded = spec_encode(spec_decode(bytes, endianness)->Ok_0, endianness);
            &&& encoded.len() <= bytes.len() <= encoded.len() + 1
            &&& encoded == bytes.take(encoded.len() as int)
            &&& encoded.len() == bytes.len() ==> encoded == bytes
        }),
{
    lemma_decoded_from(bytes, 0, endianness);
    let encoded = spec_encode(spec_decode(bytes, endianness)->Ok_0, endianness);
    assert(bytes.take(encoded.len() as int) =~= bytes.subrange(0, 0 + encoded.len() as int));
    if encoded.len() == bytes.len() {
        assert(bytes.take(encoded.len() as int) =~= bytes);
    }
}

/// Whether `tokens` ends in the padding token that the decoder makes of the
/// null word at `at`, and encodes to the stream from `pos` on with that null
/// word written twice.
spec fn decoded_padded(
    bytes: Seq<u8>,
    pos: int,
    at: int,
    tokens: Seq<TokenView>,
    endianness: Endianness,
) -> bool {
    &&& pos <= at
    &&& at + 2 <= bytes.len()
    &&& word_at(bytes, at, endianness) == 0
    &&& tokens.len() > 0
    &&& tokens.last() == TokenView::Padding(bytes.skip(at))
    &&& spec_encode(tokens, endianness) == bytes.subrange(pos, at) + word_bytes(0, endianness)
        + bytes.skip(at)
}

/// One more token in front of a rest that ends in padding.
proof fn lemma_padded_cons(
    bytes: Seq<u8>,
    pos: int,
    end: int,
    at: int,
    token: TokenView,
    rest: Seq<TokenView>,
    endianness: Endianness,
)
    requires
        0 <= pos <= end <= bytes.len(),
        bytes.subrange(pos, end) == spec_encode_token(token, endianness),
        decoded_padded(bytes, end, at, rest, endianness),
    ensures
        decoded_padded(bytes, pos, at, seq![token] + rest, endianness),
{
    lemma_encode_cons(token, rest, endianness);
    let all = seq![token] + rest;
    assert(all.last() == rest.last());
    assert(bytes.subrange(pos, end) + (bytes.subrange(end, at) + word_bytes(0, endianness)
        + bytes.skip(at)) =~= bytes.subrange(pos, at) + word_bytes(0, endianness) + bytes.skip(
        at,
    ));
}

/// What the decoder gives from `pos` on, where it met a null word: the
/// place of that word.
proof fn lemma_decoded_padded_from(bytes: Seq<u8>, pos: int, endianness: Endianness) -> (at: int)
    requires
        0 <= pos <= bytes.len(),
        spec_decode_from(bytes, pos, endianness) is Ok,
        !no_padding(spec_decode_from(bytes, pos, endianness)->Ok_0),
    ensures
        decoded_padded(bytes, pos, at, spec_decode_from(bytes, pos, endianness)->Ok_0, endianness),
    decreases bytes.len() - pos,
{
    if pos + 2 > bytes.len() {
        pos
    } else {
        let code = word_at(bytes, pos, endianness);
        if code == TAG_START {
            let end = pos + 8 + word_at(bytes, pos + 6, endianness);
            let token = TokenView::TagStart(
                word_at(bytes, pos + 2, endianness),
                word_at(bytes, pos + 4, endianness),
                bytes.subrange(pos + 8, end),
            );
            let rest = spec_decode_from(bytes, end, endianness)->Ok_0;
            lemma_no_padding_cons(token, rest);
            let at = lemma_decoded_padded_from(bytes, end, endianness);
            lemma_tag_start_bytes(bytes, pos, endianness);
            lemma_padded_cons(bytes, pos, end, at, token, rest, endianness);
            at
        } else if code == TAG_END {
            let rest = spec_decode_from(bytes, pos + 2, endianness)->Ok_0;
            lemma_no_padding_cons(TokenView::TagEnd, rest);
            let at = lemma_decoded_padded_from(bytes, pos + 2, endianness);
            lemma_word_of_roundtrip(bytes[pos], bytes[pos + 1], endianness);
            assert(bytes.subrange(pos, pos + 2) =~= seq![bytes[pos], bytes[pos + 1]]);
            lemma_padded_cons(bytes, pos, pos + 2, at, TokenView::TagEnd, rest, endianness);
            at
        } else if code == 0 {
            let token = TokenView::Padding(bytes.skip(pos));
            assert(spec_encode(seq![token], endianness) =~= bytes.subrange(pos, pos) + word_bytes(
                0,
                endianness,
            ) + bytes.skip(pos)) by {
                lemma_encode_cons(token, Seq::empty(), endianness);
                assert(seq![token] + Seq::<TokenView>::empty() =~= seq![token]);
            }
            pos
        } else {
            let end = text_end(bytes, pos, endianness);
            let token = TokenView::Text(bytes.subrange(pos, end));
            let rest = spec_decode_from(bytes, end, endianness)->Ok_0;
            lemma_text_end_bounds(bytes, pos + 2, endianness);
            lemma_no_padding_cons(token, rest);
            let at = lemma_decoded_padded_from(bytes, end, endianness);
            lemma_padded_cons(bytes, pos, end, at, token, rest, endianness);
            at
        }
    }
}

/// The null-word quirk: where a stream decodes and the decoder meets a null
/// word, at `at`, the tokens encode to the stream with that null word
/// written twice. The padding token holds the null word, and the encoder
/// puts one in front of what a padding token holds.
pub proof fn lemma_encode_decode_padded(bytes: Seq<u8>, endianness: Endianness) -> (at: int)
    requires
        spec_decode(bytes, endianness) is Ok,
        !no_padding(spec_decode(bytes, endianness)->Ok_0),
    ensures
        0 <= at,
        at + 2 <= bytes.len(),
        word_at(bytes, at, endianness) == 0,
        spec_decode(bytes, endianness)->Ok_0.last() == TokenView::Padding(bytes.skip(at)),
        spec_encode(spec_decode(bytes, endianness)->Ok_0, endianness) == bytes.take(at)
            + word_bytes(0, endianness) + bytes.skip(at),
{
    let at = lemma_decoded_padded_from(bytes, 0, endianness);
    assert(bytes.take(at) =~= bytes.subrange(0, at));
    at
}

} // verus!
