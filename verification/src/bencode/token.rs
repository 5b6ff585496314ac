//! Bencoded data as a stream of tokens, and the way through nested values in it.

use bendy::decoding::Decoder;
use bendy::state_tracker::Token as RawToken;
use vstd::prelude::*;

use crate::text::{append_bytes, bytes_equal, decimal, is_digit_byte};

verus! {

/// A token of a bencoded stream.
#[derive(Debug)]
pub enum Token {
    List,
    Dict,
    End,
    /// An integer, by its digits and sign.
    Integer(Vec<u8>),
    Bytes(Vec<u8>),
    /// The stream cannot be read further.
    Malformed,
}

/// A token in specifications.
pub enum TokenView {
    List,
    Dict,
    End,
    Integer(Seq<u8>),
    Bytes(Seq<u8>),
    Malformed,
}

impl View for Token {
    type V = TokenView;

    open spec fn view(&self) -> TokenView {
        match self {
            Token::List => TokenView::List,
            Token::Dict => TokenView::Dict,
            Token::End => TokenView::End,
            Token::Integer(digits) => TokenView::Integer(digits@),
            Token::Bytes(bytes) => TokenView::Bytes(bytes@),
            Token::Malformed => TokenView::Malformed,
        }
    }
}

pub open spec fn token_views(tokens: Seq<Token>) -> Seq<TokenView> {
    Seq::new(tokens.len(), |i: int| tokens[i]@)
}

/// The ASCII bytes of a text.
pub open spec fn ascii(text: Seq<char>) -> Seq<u8> {
    Seq::new(text.len(), |i: int| text[i] as u8)
}

/// The bytes that stand for a token in bencoded data.
pub open spec fn token_text(token: TokenView) -> Seq<u8> {
    match token {
        TokenView::List => seq![108u8],
        TokenView::Dict => seq![100u8],
        TokenView::End => seq![101u8],
        TokenView::Integer(digits) => seq![105u8] + digits + seq![101u8],
        TokenView::Bytes(bytes) => ascii(decimal(bytes.len())) + seq![58u8] + bytes,
        TokenView::Malformed => seq![],
    }
}

/// The bytes that stand for tokens one after another.
pub open spec fn tokens_text(tokens: Seq<TokenView>) -> Seq<u8>
    decreases tokens.len(),
{
    if tokens.len() == 0 {
        seq![]
    } else {
        tokens_text(tokens.drop_last()) + token_text(tokens.last())
    }
}

/// A number as it is written: digits, and a minus sign where it is negative.
pub open spec fn is_numeral(digits: Seq<u8>) -> bool {
    forall|i: int| 0 <= i < digits.len() ==> is_digit_byte(#[trigger] digits[i]) || digits[i] == 45
}

/// The integers among the tokens are numerals.
pub open spec fn has_plain_numbers(t: Seq<TokenView>) -> bool {
    forall|i: int|
        0 <= i < t.len() ==> ((#[trigger] t[i]) matches TokenView::Integer(digits) ==> is_numeral(
            digits,
        ))
}

/// The tokens that bencoded data is made of, up to and with the first fault in it.
pub uninterp spec fn bencode_tokens(source: Seq<u8>) -> Seq<TokenView>;

/// The tokens of bencoded data.
///
/// `bendy::decoding::Decoder::tokens`: the tokens are a function of the data alone. A fault
/// ends the stream: it comes as one last `Malformed`. An integer is handed out as it is
/// written, and the decoder takes digits alone and a leading minus sign. It takes no encoding
/// but the canonical one, so what was read is the text of the tokens, from the start of the
/// data on.
#[verifier::external_body]
pub(crate) fn tokenize(source: &[u8]) -> (tokens: Vec<Token>)
    ensures
        token_views(tokens@) == bencode_tokens(source@),
        forall|i: int| 0 <= i < tokens@.len() - 1 ==> (#[trigger] tokens@[i]) !is Malformed,
        has_plain_numbers(token_views(tokens@)),
        tokens_text(token_views(tokens@)).is_prefix_of(source@),
{
    let mut tokens = Vec::new();
    for token in Decoder::new(source).tokens() {
        tokens.push(match token {
            Ok(RawToken::List) => Token::List,
            Ok(RawToken::Dict) => Token::Dict,
            Ok(RawToken::End) => Token::End,
            Ok(RawToken::Num(digits)) => Token::Integer(digits.as_bytes().to_vec()),
            Ok(RawToken::String(bytes)) => Token::Bytes(bytes.to_vec()),
            Err(_) => Token::Malformed,
        });
    }
    tokens
}

/// There is a token to read at position `p`.
pub open spec fn live(t: Seq<TokenView>, p: int) -> bool {
    0 <= p < t.len() && t[p] !is Malformed
}

/// Where reading stops that starts at `p` inside `depth` open values: behind the token that
/// closes them all, or where no token is left.
pub open spec fn close_end(t: Seq<TokenView>, p: int, depth: nat) -> int
    decreases t.len() - p,
{
    if depth == 0 || !live(t, p) {
        p
    } else {
        match t[p] {
            TokenView::List | TokenView::Dict => close_end(t, p + 1, depth + 1),
            TokenView::End => close_end(t, p + 1, (depth - 1) as nat),
            _ => close_end(t, p + 1, depth),
        }
    }
}

/// Whether all of `depth` open values are closed again, from `p` on.
pub open spec fn closes(t: Seq<TokenView>, p: int, depth: nat) -> bool
    decreases t.len() - p,
{
    if depth == 0 {
        true
    } else if !live(t, p) {
        false
    } else {
        match t[p] {
            TokenView::List | TokenView::Dict => closes(t, p + 1, depth + 1),
            TokenView::End => closes(t, p + 1, (depth - 1) as nat),
            _ => closes(t, p + 1, depth),
        }
    }
}

/// The position behind the value that starts at `p`.
pub open spec fn value_end(t: Seq<TokenView>, p: int) -> int {
    if live(t, p) && (t[p] is List || t[p] is Dict) {
        close_end(t, p + 1, 1)
    } else {
        p + 1
    }
}

/// A key with its value stands at `p`.
pub open spec fn entry_at(t: Seq<TokenView>, p: int) -> bool {
    live(t, p) && t[p] is Bytes && live(t, p + 1) && t[p + 1] !is End
}

/// The entry at `p` has this key.
pub open spec fn key_at(t: Seq<TokenView>, p: int, key: Seq<char>) -> bool {
    t[p] is Bytes && t[p]->Bytes_0 == vstd::utf8::encode_utf8(key)
}

pub proof fn lemma_close_end(t: Seq<TokenView>, p: int, depth: nat)
    requires
        0 <= p <= t.len(),
    ensures
        p <= close_end(t, p, depth) <= t.len(),
    decreases t.len() - p,
{
    if depth > 0 && live(t, p) {
        match t[p] {
            TokenView::List | TokenView::Dict => lemma_close_end(t, p + 1, depth + 1),
            TokenView::End => lemma_close_end(t, p + 1, (depth - 1) as nat),
            _ => lemma_close_end(t, p + 1, depth),
        }
    }
}

/// Reading a value moves on and stays within the tokens.
pub proof fn lemma_value_end(t: Seq<TokenView>, p: int)
    requires
        0 <= p < t.len(),
    ensures
        p < value_end(t, p) <= t.len(),
{
    if live(t, p) && (t[p] is List || t[p] is Dict) {
        lemma_close_end(t, p + 1, 1);
    }
}

/// A token to read at position `p`?
pub fn is_live(tokens: &Vec<Token>, p: usize) -> (is: bool)
    ensures
        is == live(token_views(tokens@), p as int),
        tokens@.len() <= usize::MAX,
{
    let length: usize = tokens.len();
    p < length && !matches!(tokens[p], Token::Malformed)
}

/// Whether the dictionary or list whose contents start at `p` is closed, and the position
/// behind it.
pub fn close_value(tokens: &Vec<Token>, p: usize) -> (closed_end: (bool, usize))
    requires
        p <= tokens@.len(),
    ensures
        closed_end.0 == closes(token_views(tokens@), p as int, 1),
        closed_end.1 == close_end(token_views(tokens@), p as int, 1),
        p <= closed_end.1 <= tokens@.len(),
{
    let ghost t = token_views(tokens@);
    let mut q: usize = p;
    let length: usize = tokens.len();
    let mut depth: u128 = 1;
    while depth > 0 && is_live(tokens, q)
        invariant
            t == token_views(tokens@),
            p <= q <= length,
            length == tokens@.len(),
            depth <= q - p + 1,
            closes(t, p as int, 1) == closes(t, q as int, depth as nat),
            close_end(t, p as int, 1) == close_end(t, q as int, depth as nat),
        decreases tokens@.len() - q,
    {
        match &tokens[q] {
            Token::List => {
                depth = depth + 1;
            },
            Token::Dict => {
                depth = depth + 1;
            },
            Token::End => {
                depth = depth - 1;
            },
            _ => {},
        }
        q = q + 1;
    }
    (depth == 0, q)
}

/// The position behind the value that starts at `p`.
pub fn skip_value(tokens: &Vec<Token>, p: usize) -> (end: usize)
    requires
        p < tokens@.len(),
    ensures
        end == value_end(token_views(tokens@), p as int),
        p < end <= tokens@.len(),
{
    let length: usize = tokens.len();
    assert(p < length);
    match &tokens[p] {
        Token::List | Token::Dict => close_value(tokens, p + 1).1,
        _ => p + 1,
    }
}

/// A key with its value at `p`?
pub fn is_entry(tokens: &Vec<Token>, p: usize) -> (is: bool)
    requires
        p <= tokens@.len(),
    ensures
        is == entry_at(token_views(tokens@), p as int),
        is ==> p + 1 < tokens@.len(),
        tokens@.len() <= usize::MAX,
{
    let length: usize = tokens.len();
    if length - p < 2 || !is_live(tokens, p) || !is_live(tokens, p + 1) {
        return false;
    }
    matches!(tokens[p], Token::Bytes(_)) && !matches!(tokens[p + 1], Token::End)
}

/// Whether the entry at `p` has this key.
pub fn has_key(tokens: &Vec<Token>, p: usize, key: &str) -> (has: bool)
    requires
        p < tokens@.len(),
    ensures
        has == key_at(token_views(tokens@), p as int, key@),
{
    match &tokens[p] {
        Token::Bytes(bytes) => bytes_equal(bytes, key.as_bytes()),
        _ => false,
    }
}

fn append_decimal_bytes(out: &mut Vec<u8>, n: u64)
    ensures
        final(out)@ == old(out)@ + ascii(decimal(n as nat)),
    decreases n,
{
    if n >= 10 {
        append_decimal_bytes(out, n / 10);
    }
    let digit: u8 = (n % 10) as u8;
    out.push(48 + digit);
    assert(out@ =~= old(out)@ + ascii(decimal(n as nat)));
}

fn append_token(out: &mut Vec<u8>, token: &Token)
    ensures
        final(out)@ == old(out)@ + token_text(token@),
{
    match token {
        Token::List => {
            out.push(108);
        },
        Token::Dict => {
            out.push(100);
        },
        Token::End => {
            out.push(101);
        },
        Token::Integer(digits) => {
            out.push(105);
            append_bytes(out, digits);
            out.push(101);
        },
        Token::Bytes(bytes) => {
            append_decimal_bytes(out, bytes.len() as u64);
            out.push(58);
            append_bytes(out, bytes);
        },
        Token::Malformed => {},
    }
    assert(out@ =~= old(out)@ + token_text(token@));
}

/// The bytes that the tokens from `start` to `end` were read from.
pub fn span_text(tokens: &Vec<Token>, start: usize, end: usize) -> (text: Vec<u8>)
    requires
        start <= end <= tokens@.len(),
    ensures
        text@ == tokens_text(token_views(tokens@).subrange(start as int, end as int)),
{
    let ghost t = token_views(tokens@);
    let mut text: Vec<u8> = Vec::new();
    let mut p: usize = start;
    assert(t.subrange(start as int, start as int) =~= seq![]);
    while p < end
        invariant
            t == token_views(tokens@),
            start <= p <= end <= tokens@.len(),
            text@ == tokens_text(t.subrange(start as int, p as int)),
        decreases end - p,
    {
        append_token(&mut text, &tokens[p]);
        p = p + 1;
        assert(t.subrange(start as int, p as int).drop_last() =~= t.subrange(
            start as int,
            p - 1,
        ));
    }
    text
}

/// The text of consecutive tokens is a contiguous part of the text of all of them.
pub proof fn span_text_is_contiguous(t: Seq<TokenView>, start: int, end: int)
    requires
        0 <= start <= end <= t.len(),
    ensures
        tokens_text(t) == tokens_text(t.take(start)) + tokens_text(t.subrange(start, end))
            + tokens_text(t.skip(end)),
{
    lemma_tokens_text_concat(t.take(start), t.subrange(start, end));
    assert(t.take(start) + t.subrange(start, end) =~= t.take(end));
    lemma_tokens_text_concat(t.take(end), t.skip(end));
    assert(t.take(end) + t.skip(end) =~= t);
}

pub proof fn lemma_tokens_text_concat(a: Seq<TokenView>, b: Seq<TokenView>)
    ensures
        tokens_text(a + b) == tokens_text(a) + tokens_text(b),
    decreases b.len(),
{
    if b.len() == 0 {
        assert(a + b =~= a);
    } else {
        assert((a + b).drop_last() =~= a + b.drop_last());
        lemma_tokens_text_concat(a, b.drop_last());
        assert(tokens_text(a + b) =~= tokens_text(a) + tokens_text(b));
    }
}

} // verus!
