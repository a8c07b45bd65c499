//! The text table and the token codec of its entries.

use vstd::prelude::*;
use vstd::slice::{slice_subrange, slice_to_vec};
use crate::endian::{read_word, word_at, word_bytes, write_word, Endianness};
use crate::error::MsbtError;
use crate::section::{Section, SectionView, FRAME_SIZE};
use crate::sums::{lemma_sum_by_item, lemma_sum_by_prefix, lemma_sum_by_take, sum_by};

verus! {

/// The code that opens a control tag.
pub const TAG_START: u16 = 0x0E;

/// The code that closes a control tag.
pub const TAG_END: u16 = 0x0F;

/// The tag of the text section.
pub const TXT2_TAG: [u8; 4] = [0x54, 0x58, 0x54, 0x32];

/// One unit of a text entry's stream.
#[derive(Debug, Clone, PartialEq, Eq)]
pub enum Token {
    /// A control tag's start: group code, tag code and parameter bytes.
    TagStart(u16, u16, Vec<u8>),
    /// A run of literal text.
    Text(Vec<u8>),
    /// A control tag's end.
    TagEnd,
    /// Raw bytes kept as they are. The decoder makes one of an embedded null
    /// word and all that follows it, the null word included; the encoder
    /// writes a null word in front of the stored bytes.
    Padding(Vec<u8>),
}

/// A token as plain values.
pub enum TokenView {
    TagStart(u16, u16, Seq<u8>),
    Text(Seq<u8>),
    TagEnd,
    Padding(Seq<u8>),
}

impl View for Token {
    type V = TokenView;

    open spec fn view(&self) -> TokenView {
        match *self {
            Token::TagStart(group, tag, params) => TokenView::TagStart(group, tag, params@),
            Token::Text(bytes) => TokenView::Text(bytes@),
            Token::TagEnd => TokenView::TagEnd,
            Token::Padding(bytes) => TokenView::Padding(bytes@),
        }
    }
}

impl DeepView for Token {
    type V = TokenView;

    open spec fn deep_view(&self) -> TokenView {
        self@
    }
}

/// The bytes of one token. A tag start is its code, the two codes it
/// carries, the number of its parameter bytes as a word (cut to sixteen
/// bits), and the parameter bytes; padding is a null word and the stored bytes.
pub open spec fn spec_encode_token(token: TokenView, endianness: Endianness) -> Seq<u8> {
    match token {
        TokenView::TagStart(group, tag, params) => word_bytes(TAG_START, endianness) + word_bytes(
            group,
            endianness,
        ) + word_bytes(tag, endianness) + word_bytes(
            (params.len() % 0x1_0000) as u16,
            endianness,
        ) + params,
        TokenView::Text(bytes) => bytes,
        TokenView::TagEnd => word_bytes(TAG_END, endianness),
        TokenView::Padding(bytes) => word_bytes(0, endianness) + bytes,
    }
}

/// The bytes of a token sequence: those of its tokens, one after the other.
pub open spec fn spec_encode(tokens: Seq<TokenView>, endianness: Endianness) -> Seq<u8>
    decreases tokens.len(),
{
    if tokens.len() == 0 {
        Seq::empty()
    } else {
        spec_encode_token(tokens.first(), endianness) + spec_encode(tokens.skip(1), endianness)
    }
}

/// Whether a word is one that the decoder does not take as literal text.
pub open spec fn is_control(word: u16) -> bool {
    word == TAG_START || word == TAG_END || word == 0
}

/// Where the run of literal words that starts at `pos` stops: at the first
/// control word, or where fewer than two bytes are left.
pub open spec fn text_end(bytes: Seq<u8>, pos: int, endianness: Endianness) -> int
    decreases bytes.len() - pos,
{
    if 0 <= pos && pos + 2 <= bytes.len() && !is_control(word_at(bytes, pos, endianness)) {
        text_end(bytes, pos + 2, endianness)
    } else {
        pos
    }
}

/// `tokens` in front of what the rest of the stream decodes to.
pub open spec fn decoded_after(
    tokens: Seq<TokenView>,
    rest: Result<Seq<TokenView>, MsbtError>,
) -> Result<Seq<TokenView>, MsbtError> {
    match rest {
        Ok(more) => Ok(tokens + more),
        Err(error) => Err(error),
    }
}

/// What the stream decodes to from `pos` on.
///
/// Words are taken one at a time. A tag start carries three more words and
/// as many parameter bytes as the last of them says; if the stream ends before
/// that, decoding fails at the tag's offset. A null word turns all that is
/// left, itself included, into one padding token. Any other word begins a
/// text run. A last single byte is left unread.
pub open spec fn spec_decode_from(bytes: Seq<u8>, pos: int, endianness: Endianness) -> Result<
    Seq<TokenView>,
    MsbtError,
>
    decreases bytes.len() - pos,
    via spec_decode_from_decreases
{
    if pos < 0 || pos + 2 > bytes.len() {
        Ok(Seq::empty())
    } else {
        let code = word_at(bytes, pos, endianness);
        if code == TAG_START {
            if pos + 8 > bytes.len() || pos + 8 + word_at(bytes, pos + 6, endianness)
                > bytes.len() {
                Err(MsbtError::TruncatedTagStart { offset: pos as usize })
            } else {
                let end = pos + 8 + word_at(bytes, pos + 6, endianness);
                decoded_after(
                    seq![
                        TokenView::TagStart(
                            word_at(bytes, pos + 2, endianness),
                            word_at(bytes, pos + 4, endianness),
                            bytes.subrange(pos + 8, end),
                        ),
                    ],
                    spec_decode_from(bytes, end, endianness),
                )
            }
        } else if code == TAG_END {
            decoded_after(seq![TokenView::TagEnd], spec_decode_from(bytes, pos + 2, endianness))
        } else if code == 0 {
            Ok(seq![TokenView::Padding(bytes.skip(pos))])
        } else {
            let end = text_end(bytes, pos, endianness);
            decoded_after(
                seq![TokenView::Text(bytes.subrange(pos, end))],
                spec_decode_from(bytes, end, endianness),
            )
        }
    }
}

#[via_fn]
proof fn spec_decode_from_decreases(bytes: Seq<u8>, pos: int, endianness: Endianness) {
    if 0 <= pos && pos + 2 <= bytes.len() && !is_control(word_at(bytes, pos, endianness)) {
        lemma_text_end_bounds(bytes, pos + 2, endianness);
    }
}

/// What a whole stream decodes to.
pub open spec fn spec_decode(bytes: Seq<u8>, endianness: Endianness) -> Result<
    Seq<TokenView>,
    MsbtError,
> {
    spec_decode_from(bytes, 0, endianness)
}

/// A text run stops at or after its start, inside the stream, an even number
/// of bytes on.
pub proof fn lemma_text_end_bounds(bytes: Seq<u8>, pos: int, endianness: Endianness)
    requires
        0 <= pos <= bytes.len(),
    ensures
        pos <= text_end(bytes, pos, endianness) <= bytes.len(),
        (text_end(bytes, pos, endianness) - pos) % 2 == 0,
    decreases bytes.len() - pos,
{
    if pos + 2 <= bytes.len() && !is_control(word_at(bytes, pos, endianness)) {
        lemma_text_end_bounds(bytes, pos + 2, endianness);
    }
}

/// A token sequence extended by one token decodes and encodes as the
/// sequence followed by that token.
pub proof fn lemma_encode_push(tokens: Seq<TokenView>, token: TokenView, endianness: Endianness)
    ensures
        spec_encode(tokens.push(token), endianness) == spec_encode(tokens, endianness)
            + spec_encode_token(token, endianness),
    decreases tokens.len(),
{
    let longer = tokens.push(token);
    if tokens.len() == 0 {
        assert(longer.skip(1) =~= Seq::<TokenView>::empty());
        assert(spec_encode(longer.skip(1), endianness) =~= Seq::<u8>::empty());
        assert(spec_encode(longer, endianness) =~= spec_encode(tokens, endianness)
            + spec_encode_token(token, endianness));
    } else {
        assert(tokens.push(token).skip(1) =~= tokens.skip(1).push(token));
        lemma_encode_push(tokens.skip(1), token, endianness);
        assert(spec_encode(tokens.push(token), endianness) =~= spec_encode(tokens, endianness)
            + spec_encode_token(token, endianness));
    }
}

/// A copy of the bytes from `from` up to `to`.
fn copy_range(bytes: &[u8], from: usize, to: usize) -> (copy: Vec<u8>)
    requires
        from <= to <= bytes@.len(),
    ensures
        copy@ == bytes@.subrange(from as int, to as int),
{
    slice_to_vec(slice_subrange(bytes, from, to))
}

/// Appends `bytes` to `out`.
fn append_bytes(out: &mut Vec<u8>, bytes: &Vec<u8>)
    ensures
        final(out)@ == old(out)@ + bytes@,
{
    let ghost before = out@;
    let mut i: usize = 0;
    while i < bytes.len()
        invariant
            i <= bytes@.len(),
            out@ == before + bytes@.take(i as int),
        decreases bytes@.len() - i,
    {
        out.push(bytes[i]);
        assert(bytes@.take(i + 1) =~= bytes@.take(i as int).push(bytes@[i as int]));
        assert(out@ =~= before + bytes@.take(i + 1));
        i = i + 1;
    }
    assert(bytes@.take(i as int) =~= bytes@);
}

impl Token {
    /// The bytes that this token takes in a stream of the given byte order.
    pub fn to_bytes(&self, endianness: Endianness) -> (bytes: Vec<u8>)
        ensures
            bytes@ == spec_encode_token(self@, endianness),
    {
        let mut out: Vec<u8> = Vec::new();
        match self {
            Token::TagStart(group, tag, params) => {
                write_word(&mut out, TAG_START, endianness);
                write_word(&mut out, *group, endianness);
                write_word(&mut out, *tag, endianness);
                write_word(&mut out, (params.len() % 0x1_0000) as u16, endianness);
                append_bytes(&mut out, params);
            },
            Token::Text(bytes) => {
                append_bytes(&mut out, bytes);
            },
            Token::TagEnd => {
                write_word(&mut out, TAG_END, endianness);
            },
            Token::Padding(bytes) => {
                write_word(&mut out, 0, endianness);
                append_bytes(&mut out, bytes);
            },
        }
        assert(out@ =~= spec_encode_token(self@, endianness));
        out
    }
}

/// The bytes of a whole entry: its tokens' bytes, one after the other.
pub fn tokens_to_bytes(tokens: &[Token], endianness: Endianness) -> (bytes: Vec<u8>)
    ensures
        bytes@ == spec_encode(tokens.deep_view(), endianness),
{
    let mut out: Vec<u8> = Vec::new();
    let mut i: usize = 0;
    assert(tokens.deep_view().take(0) =~= Seq::<TokenView>::empty());
    while i < tokens.len()
        invariant
            i <= tokens@.len(),
            out@ == spec_encode(tokens.deep_view().take(i as int), endianness),
        decreases tokens@.len() - i,
    {
        let piece = tokens[i].to_bytes(endianness);
        append_bytes(&mut out, &piece);
        proof {
            let all = tokens.deep_view();
            assert(all.take(i + 1) =~= all.take(i as int).push(tokens@[i as int]@));
            lemma_encode_push(all.take(i as int), tokens@[i as int]@, endianness);
        }
        i = i + 1;
    }
    assert(tokens.deep_view().take(i as int) =~= tokens.deep_view());
    out
}

/// Decoding from `pos` does not depend on what was decoded before it: the
/// tokens found so far, then one more, then the rest.
proof fn lemma_decoded_after_push(
    tokens: Seq<TokenView>,
    token: TokenView,
    rest: Result<Seq<TokenView>, MsbtError>,
)
    ensures
        decoded_after(tokens, decoded_after(seq![token], rest)) == decoded_after(
            tokens.push(token),
            rest,
        ),
{
    if let Ok(more) = rest {
        assert(tokens + (seq![token] + more) =~= tokens.push(token) + more);
    }
}

/// Splits a stream into tokens, reading its words in the given byte order.
///
/// Fails only where a tag start is cut short, and then names the offset of
/// that tag's start code.
pub fn parse_bytes(bytes: &[u8], endianness: Endianness) -> (result: Result<Vec<Token>, MsbtError>)
    ensures
        match result {
            Ok(tokens) => spec_decode(bytes@, endianness) == Ok::<Seq<TokenView>, MsbtError>(
                tokens.deep_view(),
            ),
            Err(error) => spec_decode(bytes@, endianness) == Err::<Seq<TokenView>, MsbtError>(
                error,
            ),
        },
{
    let len = bytes.len();
    let mut tokens: Vec<Token> = Vec::new();
    let mut pos: usize = 0;
    assert(tokens.deep_view() =~= Seq::<TokenView>::empty());
    assert(decoded_after(tokens.deep_view(), spec_decode_from(bytes@, 0, endianness))
        == spec_decode(bytes@, endianness)) by {
        if let Ok(more) = spec_decode_from(bytes@, 0, endianness) {
            assert(Seq::<TokenView>::empty() + more =~= more);
        }
    }
    while len - pos >= 2
        invariant
            len == bytes@.len(),
            pos <= len,
            spec_decode(bytes@, endianness) == decoded_after(
                tokens.deep_view(),
                spec_decode_from(bytes@, pos as int, endianness),
            ),
        decreases len - pos,
    {
        let ghost found = tokens.deep_view();
        let code = read_word(bytes, pos, endianness);
        let token: Token;
        let next: usize;
        if code == TAG_START {
            if len - pos < 8 {
                return Err(MsbtError::TruncatedTagStart { offset: pos });
            }
            let group = read_word(bytes, pos + 2, endianness);
            let tag = read_word(bytes, pos + 4, endianness);
            let count = read_word(bytes, pos + 6, endianness) as usize;
            if len - pos - 8 < count {
                return Err(MsbtError::TruncatedTagStart { offset: pos });
            }
            next = pos + 8 + count;
            token = Token::TagStart(group, tag, copy_range(bytes, pos + 8, next));
        } else if code == TAG_END {
            next = pos + 2;
            token = Token::TagEnd;
        } else if code == 0 {
            next = len;
            token = Token::Padding(copy_range(bytes, pos, len));
            assert(bytes@.subrange(pos as int, len as int) =~= bytes@.skip(pos as int));
            assert(decoded_after(
                seq![token@],
                spec_decode_from(bytes@, len as int, endianness),
            ) == spec_decode_from(bytes@, pos as int, endianness)) by {
                assert(seq![token@] + Seq::<TokenView>::empty() =~= seq![token@]);
            }
        } else {
            let mut end: usize = pos + 2;
            while len - end >= 2 && !is_control_word(read_word(bytes, end, endianness))
                invariant
                    len == bytes@.len(),
                    pos < end <= len,
                    text_end(bytes@, pos as int, endianness) == text_end(
                        bytes@,
                        end as int,
                        endianness,
                    ),
                decreases len - end,
            {
                end = end + 2;
            }
            next = end;
            token = Token::Text(copy_range(bytes, pos, end));
        }
        proof {
            lemma_decoded_after_push(
                found,
                token@,
                spec_decode_from(bytes@, next as int, endianness),
            );
        }
        tokens.push(token);
        assert(tokens.deep_view() =~= found.push(token@));
        pos = next;
    }
    assert(decoded_after(tokens.deep_view(), Ok(Seq::empty())) == Ok::<
        Seq<TokenView>,
        MsbtError,
    >(tokens.deep_view())) by {
        assert(tokens.deep_view() + Seq::<TokenView>::empty() =~= tokens.deep_view());
    }
    Ok(tokens)
}

/// Whether the decoder treats `word` as a control code rather than as text.
fn is_control_word(word: u16) -> (control: bool)
    ensures
        control == is_control(word),
{
    word == TAG_START || word == TAG_END || word == 0
}

impl TokenView {
    /// Bytes that the token takes in a stream, whatever the byte order.
    pub open spec fn size(self) -> nat {
        match self {
            TokenView::TagStart(_, _, params) => 8 + params.len(),
            TokenView::Text(bytes) => bytes.len(),
            TokenView::TagEnd => 2,
            TokenView::Padding(bytes) => 2 + bytes.len(),
        }
    }
}

/// The weight that gives each token its size.
pub open spec fn token_size_of() -> spec_fn(TokenView) -> nat {
    |token: TokenView| token.size()
}

/// Bytes that an entry's token stream takes.
pub open spec fn spec_stream_size(tokens: Seq<TokenView>) -> nat {
    sum_by(tokens, token_size_of())
}

/// The weight that gives each entry the size of its token stream.
pub open spec fn stream_size_of() -> spec_fn(Seq<TokenView>) -> nat {
    |tokens: Seq<TokenView>| spec_stream_size(tokens)
}

/// A token's size is the length of its encoding, in either byte order.
pub proof fn lemma_token_size(token: TokenView, endianness: Endianness)
    ensures
        spec_encode_token(token, endianness).len() == token.size(),
{
}

/// The size of a token stream is the length of its encoding, in either byte order.
pub proof fn lemma_stream_size(tokens: Seq<TokenView>, endianness: Endianness)
    ensures
        spec_encode(tokens, endianness).len() == spec_stream_size(tokens),
    decreases tokens.len(),
{
    if tokens.len() > 0 {
        let front = tokens.drop_last();
        lemma_stream_size(front, endianness);
        lemma_encode_push(front, tokens.last(), endianness);
        lemma_token_size(tokens.last(), endianness);
        assert(front.push(tokens.last()) =~= tokens);
    }
}

/// The text table: one token sequence for each text entry, found by index.
#[derive(Debug, Clone)]
pub struct Txt2 {
    pub(crate) section: Section,
    pub(crate) values: Vec<Vec<Token>>,
}

/// A text table as plain values.
pub struct Txt2View {
    pub section: SectionView,
    pub values: Seq<Seq<TokenView>>,
}

impl View for Txt2 {
    type V = Txt2View;

    closed spec fn view(&self) -> Txt2View {
        Txt2View { section: self.section@, values: self.values.deep_view() }
    }
}

impl Txt2View {
    /// A table without entries.
    pub open spec fn empty() -> Txt2View {
        Txt2View { section: SectionView { tag: TXT2_TAG@, size: 0 }, values: Seq::empty() }
    }

    /// Bytes of all token streams together.
    pub open spec fn streams_size(self) -> nat {
        sum_by(self.values, stream_size_of())
    }

    /// Bytes of the payload: the entry count, one offset for each entry, and
    /// the token streams.
    pub open spec fn payload_size(self) -> nat {
        4 + 4 * self.values.len() + self.streams_size()
    }

    /// Bytes of the whole section, frame included.
    pub open spec fn calc_size(self) -> nat {
        FRAME_SIZE as nat + self.payload_size()
    }

    /// The table with its declared size brought up to date.
    pub open spec fn updated(self) -> Txt2View {
        Txt2View {
            section: SectionView { size: self.payload_size() as u32, ..self.section },
            ..self
        }
    }

    /// The table with one more entry.
    pub open spec fn with_value(self, value: Seq<TokenView>) -> Txt2View {
        Txt2View { values: self.values.push(value), ..self }
    }
}

/// Bytes that a token takes in a stream.
fn token_size(token: &Token) -> (size: usize)
    requires
        token@.size() <= usize::MAX,
    ensures
        size == token@.size(),
{
    match token {
        Token::TagStart(_, _, params) => 8 + params.len(),
        Token::Text(bytes) => bytes.len(),
        Token::TagEnd => 2,
        Token::Padding(bytes) => 2 + bytes.len(),
    }
}

/// Bytes that an entry's token stream takes.
fn stream_size(tokens: &Vec<Token>) -> (size: usize)
    requires
        spec_stream_size(tokens.deep_view()) <= usize::MAX,
    ensures
        size == spec_stream_size(tokens.deep_view()),
{
    let ghost all = tokens.deep_view();
    let mut size: usize = 0;
    let mut i: usize = 0;
    assert(all.take(0) =~= Seq::<TokenView>::empty());
    while i < tokens.len()
        invariant
            all == tokens.deep_view(),
            i <= all.len(),
            all.len() == tokens@.len(),
            sum_by(all, token_size_of()) <= usize::MAX,
            size == sum_by(all.take(i as int), token_size_of()),
        decreases all.len() - i,
    {
        proof {
            lemma_sum_by_take(all, i as int, token_size_of());
            lemma_sum_by_prefix(all, i + 1, token_size_of());
            lemma_sum_by_item(all, i as int, token_size_of());
        }
        size = size + token_size(&tokens[i]);
        i = i + 1;
    }
    assert(all.take(i as int) =~= all);
    size
}

impl Txt2 {
    /// A table without entries.
    pub fn new() -> (table: Txt2)
        ensures
            table@ == Txt2View::empty(),
    {
        let table = Txt2 { section: Section::new(TXT2_TAG, 0), values: Vec::new() };
        assert(table@.values =~= Seq::<Seq<TokenView>>::empty());
        table
    }

    /// The section's frame.
    pub fn section(&self) -> (section: &Section)
        ensures
            section@ == self@.section,
    {
        &self.section
    }

    /// The entries, each a token sequence, in index order.
    pub fn values(&self) -> (values: &[Vec<Token>])
        ensures
            values.deep_view() == self@.values,
    {
        let values = self.values.as_slice();
        assert(values.deep_view() =~= self.values.deep_view());
        values
    }

    /// Adds an entry behind the others. The declared size is left for the next update.
    pub fn push(&mut self, value: Vec<Token>)
        ensures
            final(self)@ == old(self)@.with_value(value.deep_view()),
    {
        self.values.push(value);
        assert(self.values.deep_view() =~= old(self).values.deep_view().push(value.deep_view()));
    }

    /// Bytes of all token streams together.
    fn streams_size(&self) -> (size: usize)
        requires
            self@.streams_size() <= usize::MAX,
        ensures
            size == self@.streams_size(),
    {
        let ghost values = self@.values;
        let mut size: usize = 0;
        let mut i: usize = 0;
        assert(values.take(0) =~= Seq::<Seq<TokenView>>::empty());
        while i < self.values.len()
            invariant
                values == self@.values,
                values.len() == self.values@.len(),
                i <= values.len(),
                sum_by(values, stream_size_of()) <= usize::MAX,
                size == sum_by(values.take(i as int), stream_size_of()),
            decreases values.len() - i,
        {
            proof {
                lemma_sum_by_take(values, i as int, stream_size_of());
                lemma_sum_by_prefix(values, i + 1, stream_size_of());
                lemma_sum_by_item(values, i as int, stream_size_of());
            }
            size = size + stream_size(&self.values[i]);
            i = i + 1;
        }
        assert(values.take(i as int) =~= values);
        size
    }

    /// Bytes of the whole section, frame included.
    pub fn calc_size(&self) -> (size: usize)
        requires
            self@.calc_size() <= usize::MAX,
        ensures
            size == self@.calc_size(),
    {
        self.section.calc_size() + 4 + 4 * self.values.len() + self.streams_size()
    }

    /// Brings the declared size up to date: the entry count, one offset for
    /// each entry, and the token streams.
    pub fn update(&mut self)
        requires
            old(self)@.payload_size() <= u32::MAX,
        ensures
            final(self)@ == old(self)@.updated(),
            final(self)@.section.size == final(self)@.calc_size() - FRAME_SIZE,
    {
        let size = 4 + 4 * self.values.len() + self.streams_size();
        self.section = Section::new(self.section.tag(), size as u32);
    }
}

} // verus!
