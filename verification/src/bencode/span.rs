//! Parts of a token stream: that their bytes tell them apart, and that a closed value is read
//! alike wherever it stands.

use vstd::prelude::*;

use super::token::{
    ascii, close_end, closes, entry_at, has_plain_numbers, is_numeral, key_at,
    lemma_tokens_text_concat, lemma_value_end, live, token_text, tokens_text, value_end, TokenView,
};
use crate::text::{all_digits, decimal, decimal_value, is_digit, lemma_decimal};

verus! {

// ---------------------------------------------------------------------------------------
// Bytes and tokens

/// No token is a fault.
pub open spec fn all_live(t: Seq<TokenView>) -> bool {
    forall|i: int| 0 <= i < t.len() ==> (#[trigger] t[i]) !is Malformed
}

/// What stands before the first mark is told by the bytes.
proof fn lemma_marked(a: Seq<u8>, a_rest: Seq<u8>, b: Seq<u8>, b_rest: Seq<u8>, mark: u8)
    requires
        !a.contains(mark),
        !b.contains(mark),
        a.push(mark) + a_rest == b.push(mark) + b_rest,
    ensures
        a == b,
        a_rest == b_rest,
{
    let left = a.push(mark) + a_rest;
    let right = b.push(mark) + b_rest;
    assert(left[a.len() as int] == mark);
    assert(right[b.len() as int] == mark);
    if a.len() < b.len() {
        assert(right[a.len() as int] == b[a.len() as int]);
    } else if b.len() < a.len() {
        assert(left[b.len() as int] == a[b.len() as int]);
    }
    assert(a =~= left.take(a.len() as int));
    assert(b =~= right.take(b.len() as int));
    assert(a_rest =~= left.skip(a.len() as int + 1));
    assert(b_rest =~= right.skip(b.len() as int + 1));
}

proof fn lemma_ascii_digits(text: Seq<char>, other: Seq<char>)
    requires
        all_digits(text),
        all_digits(other),
    ensures
        forall|i: int| 0 <= i < text.len() ==> 48 <= #[trigger] ascii(text)[i] <= 57,
        ascii(text) == ascii(other) ==> text == other,
{
    assert forall|i: int| 0 <= i < text.len() implies 48 <= #[trigger] ascii(text)[i] <= 57 by {
        assert(is_digit(text[i]));
    }
    if ascii(text) == ascii(other) {
        assert(text.len() == ascii(text).len());
        assert forall|i: int| 0 <= i < text.len() implies text[i] == #[trigger] other[i] by {
            assert(is_digit(text[i]) && is_digit(other[i]));
            assert(ascii(text)[i] == ascii(other)[i]);
        }
        assert(text =~= other);
    }
}

/// The first byte of a token tells its kind.
proof fn lemma_first_byte(token: TokenView)
    requires
        token !is Malformed,
    ensures
        token_text(token).len() > 0,
        match token {
            TokenView::List => token_text(token)[0] == 108,
            TokenView::Dict => token_text(token)[0] == 100,
            TokenView::End => token_text(token)[0] == 101,
            TokenView::Integer(_) => token_text(token)[0] == 105,
            TokenView::Bytes(_) => 48 <= token_text(token)[0] <= 57,
            TokenView::Malformed => true,
        },
{
    if let TokenView::Bytes(bytes) = token {
        lemma_decimal(bytes.len());
        lemma_ascii_digits(decimal(bytes.len()), decimal(bytes.len()));
        assert(token_text(token)[0] == ascii(decimal(bytes.len()))[0]);
    }
}

/// The bytes tell the first token, and where the rest starts.
proof fn lemma_first_token(a: TokenView, a_rest: Seq<u8>, b: TokenView, b_rest: Seq<u8>)
    requires
        a !is Malformed,
        b !is Malformed,
        a matches TokenView::Integer(digits) ==> is_numeral(digits),
        b matches TokenView::Integer(digits) ==> is_numeral(digits),
        token_text(a) + a_rest == token_text(b) + b_rest,
    ensures
        a == b,
        a_rest == b_rest,
{
    let text = token_text(a) + a_rest;
    lemma_first_byte(a);
    lemma_first_byte(b);
    assert(text[0] == token_text(a)[0]);
    assert((token_text(b) + b_rest)[0] == token_text(b)[0]);
    match (a, b) {
        (TokenView::Integer(a_digits), TokenView::Integer(b_digits)) => {
            assert(text.skip(1) =~= a_digits.push(101) + a_rest);
            assert(text.skip(1) =~= b_digits.push(101) + b_rest);
            lemma_marked(a_digits, a_rest, b_digits, b_rest, 101);
        },
        (TokenView::Bytes(a_bytes), TokenView::Bytes(b_bytes)) => {
            let a_length = decimal(a_bytes.len());
            let b_length = decimal(b_bytes.len());
            lemma_decimal(a_bytes.len());
            lemma_decimal(b_bytes.len());
            lemma_ascii_digits(a_length, b_length);
            lemma_ascii_digits(b_length, a_length);
            assert(text =~= ascii(a_length).push(58) + (a_bytes + a_rest));
            assert(text =~= ascii(b_length).push(58) + (b_bytes + b_rest));
            lemma_marked(ascii(a_length), a_bytes + a_rest, ascii(b_length), b_bytes + b_rest, 58);
            assert(decimal_value(a_length) == decimal_value(b_length));
            let length = a_bytes.len() as int;
            assert(a_bytes =~= (a_bytes + a_rest).take(length));
            assert(b_bytes =~= (b_bytes + b_rest).take(length));
            assert(a_rest =~= (a_bytes + a_rest).skip(length));
            assert(b_rest =~= (b_bytes + b_rest).skip(length));
        },
        _ => {
            assert(token_text(a).len() == 1);
            assert(a_rest =~= text.skip(1));
            assert(b_rest =~= (token_text(b) + b_rest).skip(1));
        },
    }
}

proof fn lemma_first_text(t: Seq<TokenView>)
    requires
        t.len() > 0,
    ensures
        tokens_text(t) == token_text(t[0]) + tokens_text(t.skip(1)),
{
    let first = seq![t[0]];
    assert(t =~= first + t.skip(1));
    lemma_tokens_text_concat(first, t.skip(1));
    assert(first.drop_last() =~= seq![]);
    assert(tokens_text(first.drop_last()) =~= seq![]);
    assert(tokens_text(first) =~= token_text(t[0]));
}

/// The bytes of tokens tell the tokens.
pub proof fn tokens_text_is_injective(a: Seq<TokenView>, b: Seq<TokenView>)
    requires
        all_live(a),
        all_live(b),
        has_plain_numbers(a),
        has_plain_numbers(b),
        tokens_text(a) == tokens_text(b),
    ensures
        a == b,
    decreases a.len(),
{
    if a.len() > 0 {
        lemma_first_text(a);
        lemma_first_byte(a[0]);
    }
    if b.len() > 0 {
        lemma_first_text(b);
        lemma_first_byte(b[0]);
    }
    if a.len() == 0 {
        assert(a =~= b);
    } else {
        assert(tokens_text(a).len() > 0);
        assert(b.len() > 0);
        lemma_first_token(a[0], tokens_text(a.skip(1)), b[0], tokens_text(b.skip(1)));
        assert forall|i: int| 0 <= i < a.skip(1).len() implies #[trigger] a.skip(1)[i] == a[
        i + 1] by {}
        assert forall|i: int| 0 <= i < b.skip(1).len() implies #[trigger] b.skip(1)[i] == b[
        i + 1] by {}
        tokens_text_is_injective(a.skip(1), b.skip(1));
        assert(a =~= seq![a[0]] + a.skip(1));
        assert(b =~= seq![b[0]] + b.skip(1));
    }
}

// ---------------------------------------------------------------------------------------
// Entries

/// The entry at `q` is among those from `p` on.
pub open spec fn is_entry_from(t: Seq<TokenView>, p: int, q: int) -> bool
    decreases t.len() - p,
{
    if !entry_at(t, p) {
        false
    } else {
        proof {
            lemma_value_end(t, p + 1);
        }
        p == q || is_entry_from(t, value_end(t, p + 1), q)
    }
}

/// Of the entries of the dictionary that the stream holds, the one at `q` alone has this key.
pub open spec fn is_only_entry(t: Seq<TokenView>, key: Seq<char>, q: int) -> bool {
    &&& is_entry_from(t, 1, q)
    &&& key_at(t, q, key)
    &&& forall|r: int| #[trigger] is_entry_from(t, 1, r) && key_at(t, r, key) ==> r == q
}

/// The entries from `p` on stand at `p` or behind it.
pub proof fn lemma_entry_from(t: Seq<TokenView>, p: int, q: int)
    requires
        is_entry_from(t, p, q),
    ensures
        p <= q,
        entry_at(t, q),
    decreases t.len() - p,
{
    lemma_value_end(t, p + 1);
    if p != q {
        lemma_entry_from(t, value_end(t, p + 1), q);
    }
}

// ---------------------------------------------------------------------------------------
// Closed values

/// The tokens of what is closed can all be read.
pub proof fn lemma_closed_is_live(t: Seq<TokenView>, p: int, depth: nat)
    requires
        0 <= p,
        closes(t, p, depth),
    ensures
        p <= close_end(t, p, depth),
        p <= t.len() ==> close_end(t, p, depth) <= t.len(),
        depth > 0 ==> p < close_end(t, p, depth),
        forall|i: int| p <= i < close_end(t, p, depth) ==> #[trigger] live(t, i),
    decreases t.len() - p,
{
    if depth > 0 {
        match t[p] {
            TokenView::List | TokenView::Dict => lemma_closed_is_live(t, p + 1, depth + 1),
            TokenView::End => lemma_closed_is_live(t, p + 1, (depth - 1) as nat),
            _ => lemma_closed_is_live(t, p + 1, depth),
        }
    }
}

/// To close some values and then others is to close them all.
proof fn lemma_close_in_turn(t: Seq<TokenView>, p: int, inner: nat, outer: nat)
    requires
        0 <= p,
        closes(t, p, inner + outer),
    ensures
        closes(t, p, inner),
        closes(t, close_end(t, p, inner), outer),
        close_end(t, p, inner + outer) == close_end(t, close_end(t, p, inner), outer),
    decreases t.len() - p,
{
    if inner > 0 {
        match t[p] {
            TokenView::List | TokenView::Dict => lemma_close_in_turn(t, p + 1, inner + 1, outer),
            TokenView::End => lemma_close_in_turn(t, p + 1, (inner - 1) as nat, outer),
            _ => lemma_close_in_turn(t, p + 1, inner, outer),
        }
    }
}

/// A value inside a closed one is closed before it.
pub proof fn lemma_inner_value(t: Seq<TokenView>, p: int)
    requires
        0 <= p,
        closes(t, p, 1),
        t[p] !is End,
    ensures
        closes(t, value_end(t, p), 1),
        close_end(t, value_end(t, p), 1) == close_end(t, p, 1),
        p < value_end(t, p) < close_end(t, p, 1) <= t.len(),
        t[p] is List || t[p] is Dict ==> closes(t, p + 1, 1) && close_end(t, p + 1, 1)
            == value_end(t, p),
{
    lemma_value_end(t, p);
    if t[p] is List || t[p] is Dict {
        lemma_close_in_turn(t, p + 1, 1, 1);
    }
    lemma_closed_is_live(t, value_end(t, p), 1);
}

/// What is closed within a part of the stream is closed in the part by itself.
pub proof fn lemma_part_closes(t: Seq<TokenView>, start: int, end: int, q: int, depth: nat)
    requires
        0 <= start <= end <= t.len(),
        0 <= q,
        closes(t, start + q, depth),
        close_end(t, start + q, depth) <= end,
    ensures
        closes(t.subrange(start, end), q, depth),
        close_end(t.subrange(start, end), q, depth) == close_end(t, start + q, depth) - start,
    decreases t.len() - start - q,
{
    let part = t.subrange(start, end);
    if depth > 0 {
        lemma_closed_is_live(t, start + q, depth);
        assert(part[q] == t[start + q]);
        match t[start + q] {
            TokenView::List | TokenView::Dict => lemma_part_closes(
                t,
                start,
                end,
                q + 1,
                depth + 1,
            ),
            TokenView::End => lemma_part_closes(t, start, end, q + 1, (depth - 1) as nat),
            _ => lemma_part_closes(t, start, end, q + 1, depth),
        }
    }
}

/// So is a value in it, and the entry that it stands in.
pub proof fn lemma_part_value(t: Seq<TokenView>, start: int, end: int, q: int)
    requires
        0 <= start <= end <= t.len(),
        0 <= q,
        closes(t, start + q, 1),
        close_end(t, start + q, 1) <= end,
    ensures
        start + q < end,
        live(t, start + q),
        live(t.subrange(start, end), q),
        t.subrange(start, end)[q] == t[start + q],
        t[start + q] !is End ==> value_end(t.subrange(start, end), q) == value_end(t, start + q)
            - start,
{
    let part = t.subrange(start, end);
    lemma_closed_is_live(t, start + q, 1);
    assert(part[q] == t[start + q]);
    if t[start + q] !is End {
        lemma_inner_value(t, start + q);
        if t[start + q] is List || t[start + q] is Dict {
            lemma_part_closes(t, start, end, q + 1, 1);
        }
    }
}

/// Entries are found in a part as in the whole.
pub proof fn lemma_part_entry(t: Seq<TokenView>, start: int, end: int, q: int)
    requires
        0 <= start <= end <= t.len(),
        0 <= q,
        closes(t, start + q, 1),
        close_end(t, start + q, 1) <= end,
    ensures
        entry_at(t.subrange(start, end), q) == entry_at(t, start + q),
        entry_at(t, start + q) ==> {
            &&& t.subrange(start, end)[q] == t[start + q]
            &&& t.subrange(start, end)[q + 1] == t[start + q + 1]
            &&& value_end(t.subrange(start, end), q + 1) == value_end(t, start + q + 1) - start
            &&& value_end(t, start + q + 1) > start + q + 1
            &&& closes(t, value_end(t, start + q + 1), 1)
            &&& close_end(t, value_end(t, start + q + 1), 1) == close_end(t, start + q, 1)
            &&& t[start + q + 1] is List || t[start + q + 1] is Dict ==> {
                &&& closes(t, start + q + 2, 1)
                &&& close_end(t, start + q + 2, 1) <= end
            }
        },
{
    lemma_part_value(t, start, end, q);
    if t[start + q] is Bytes {
        lemma_part_value(t, start, end, q + 1);
        if t[start + q + 1] !is End {
            lemma_inner_value(t, start + q + 1);
        }
    }
}

} // verus!
