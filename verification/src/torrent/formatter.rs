//! The names of peers and blocks.

use vstd::prelude::*;
use vstd::string::*;

use crate::order::{lemma_text_order_of_parts, text_at_most};
use crate::text::{
    all_digits, append_decimal, append_padded_decimal, chars_of, decimal, decimal_value, is_digit,
    lemma_decimal, lemma_decimal_length, lemma_padded_decimal, padded_decimal, same_text,
};

verus! {

/// The name of a peer: its address and its port, with a colon between them.
pub open spec fn peer_id(ip: Seq<char>, port: u16) -> Seq<char> {
    ip.push(':') + decimal(port as nat)
}

/// The name of a block: its piece in at least five digits and its position in the piece in
/// at least eight, with an underscore between them.
pub open spec fn block_id(index: usize, begin: usize) -> Seq<char> {
    padded_decimal(index as nat, 5).push('_') + padded_decimal(begin as nat, 8)
}

/// The name of a peer.
pub fn get_peer_id(ip: &str, port: u16) -> (id: String)
    ensures
        id@ == peer_id(ip@, port),
{
    let mut id = ip.to_owned();
    id.push(':');
    append_decimal(&mut id, port as u64);
    id
}

/// The name of a block.
pub fn get_block_id(index: usize, begin: usize) -> (id: String)
    ensures
        id@ == block_id(index, begin),
{
    let mut id = String::new();
    append_padded_decimal(&mut id, index as u64, 5);
    id.push('_');
    append_padded_decimal(&mut id, begin as u64, 8);
    assert(id@ =~= block_id(index, begin));
    id
}

/// Two texts that hold the same separator last, before digits alone, agree on both sides of
/// it.
proof fn lemma_split_before_digits(
    a: Seq<char>,
    b: Seq<char>,
    separator: char,
    a_digits: Seq<char>,
    b_digits: Seq<char>,
)
    requires
        !is_digit(separator),
        all_digits(a_digits),
        all_digits(b_digits),
        a.push(separator) + a_digits == b.push(separator) + b_digits,
    ensures
        a == b,
        a_digits == b_digits,
{
    let left = a.push(separator) + a_digits;
    let right = b.push(separator) + b_digits;
    assert(left.len() == a.len() + 1 + a_digits.len());
    assert(right.len() == b.len() + 1 + b_digits.len());
    assert(left[a.len() as int] == separator);
    assert(right[b.len() as int] == separator);
    if a.len() < b.len() {
        assert(left[b.len() as int] == a_digits[b.len() - a.len() - 1]);
    } else if b.len() < a.len() {
        assert(right[a.len() as int] == b_digits[a.len() - b.len() - 1]);
    }
    assert(a =~= left.take(a.len() as int));
    assert(b =~= right.take(b.len() as int));
    assert(a_digits =~= left.skip(a.len() as int + 1));
    assert(b_digits =~= right.skip(b.len() as int + 1));
}

/// Peers with the same name have the same address and port.
pub proof fn peer_id_is_injective(a_ip: Seq<char>, a_port: u16, b_ip: Seq<char>, b_port: u16)
    requires
        peer_id(a_ip, a_port) == peer_id(b_ip, b_port),
    ensures
        a_ip == b_ip,
        a_port == b_port,
{
    lemma_decimal(a_port as nat);
    lemma_decimal(b_port as nat);
    lemma_split_before_digits(a_ip, b_ip, ':', decimal(a_port as nat), decimal(b_port as nat));
}

/// Blocks with the same name are at the same place.
pub proof fn block_id_is_injective(a_index: usize, a_begin: usize, b_index: usize, b_begin: usize)
    requires
        block_id(a_index, a_begin) == block_id(b_index, b_begin),
    ensures
        a_index == b_index,
        a_begin == b_begin,
{
    lemma_padded_decimal(a_index as nat, 5);
    lemma_padded_decimal(b_index as nat, 5);
    lemma_padded_decimal(a_begin as nat, 8);
    lemma_padded_decimal(b_begin as nat, 8);
    lemma_split_before_digits(
        padded_decimal(a_index as nat, 5),
        padded_decimal(b_index as nat, 5),
        '_',
        padded_decimal(a_begin as nat, 8),
        padded_decimal(b_begin as nat, 8),
    );
}

/// Digits of one length are ordered as the numbers that they denote.
proof fn lemma_digits_order(a: Seq<char>, b: Seq<char>)
    requires
        a.len() == b.len(),
        all_digits(a),
        all_digits(b),
    ensures
        text_at_most(a, b) == (decimal_value(a) <= decimal_value(b)),
        a == b <==> decimal_value(a) == decimal_value(b),
    decreases a.len(),
{
    if a.len() == 0 {
        assert(a =~= b);
    } else {
        let (a_head, b_head) = (a.drop_last(), b.drop_last());
        let (a_digit, b_digit) = (seq![a.last()], seq![b.last()]);
        lemma_digits_order(a_head, b_head);
        lemma_text_order_of_parts(a_head, b_head, a_digit, b_digit);
        assert(a =~= a_head + a_digit);
        assert(b =~= b_head + b_digit);
        assert(is_digit(a.last()) && is_digit(b.last()));
        assert(text_at_most(a_digit.skip(1), b_digit.skip(1)));
        assert(text_at_most(a_digit, b_digit) == (a.last() <= b.last()));
    }
}

/// A number that has no more than this many digits is written in just as many.
proof fn lemma_padded_length(n: nat, most: nat, width: nat)
    requires
        n <= most,
        decimal(most).len() == width,
    ensures
        padded_decimal(n, width).len() == width,
{
    lemma_decimal_length(n, most);
}

/// Among torrents of fewer than a hundred thousand pieces, of fewer than a hundred million
/// bytes each, the names of blocks have one length and are ordered as the places of the
/// blocks are: by the piece, and by the position in it where the piece is the same.
pub proof fn block_ids_are_ordered_as_their_places(
    a_index: usize,
    a_begin: usize,
    b_index: usize,
    b_begin: usize,
)
    requires
        a_index < 100000,
        b_index < 100000,
        a_begin < 100000000,
        b_begin < 100000000,
    ensures
        block_id(a_index, a_begin).len() == 14,
        block_id(b_index, b_begin).len() == 14,
        text_at_most(block_id(a_index, a_begin), block_id(b_index, b_begin)) <==> (a_index
            < b_index || (a_index == b_index && a_begin <= b_begin)),
{
    reveal_with_fuel(decimal, 9);
    lemma_padded_length(a_index as nat, 99999, 5);
    lemma_padded_length(b_index as nat, 99999, 5);
    lemma_padded_length(a_begin as nat, 99999999, 8);
    lemma_padded_length(b_begin as nat, 99999999, 8);
    lemma_padded_decimal(a_index as nat, 5);
    lemma_padded_decimal(b_index as nat, 5);
    lemma_padded_decimal(a_begin as nat, 8);
    lemma_padded_decimal(b_begin as nat, 8);
    let (a_piece, b_piece) = (padded_decimal(a_index as nat, 5), padded_decimal(b_index as nat, 5));
    let (a_place, b_place) = (padded_decimal(a_begin as nat, 8), padded_decimal(b_begin as nat, 8));
    lemma_digits_order(a_piece, b_piece);
    lemma_digits_order(a_place, b_place);
    let line = seq!['_'];
    assert(block_id(a_index, a_begin) =~= a_piece + (line + a_place));
    assert(block_id(b_index, b_begin) =~= b_piece + (line + b_place));
    lemma_text_order_of_parts(a_piece, b_piece, line + a_place, line + b_place);
    lemma_text_order_of_parts(line, line, a_place, b_place);
}

proof fn lemma_decimal_value_grows(text: Seq<char>, n: int)
    requires
        0 <= n <= text.len(),
    ensures
        decimal_value(text.take(n)) <= decimal_value(text),
    decreases text.len(),
{
    if n == text.len() {
        assert(text.take(n) =~= text);
    } else {
        lemma_decimal_value_grows(text.drop_last(), n);
        assert(text.drop_last().take(n) =~= text.take(n));
    }
}

/// The number that the digits from `start` to `end` denote, where it is a number of this
/// machine.
fn parse_digits(chars: &Vec<char>, start: usize, end: usize) -> (number: Option<usize>)
    requires
        start <= end <= chars@.len(),
    ensures
        all_digits(chars@.subrange(start as int, end as int)) && decimal_value(
            chars@.subrange(start as int, end as int),
        ) <= usize::MAX ==> number == Some(
            decimal_value(chars@.subrange(start as int, end as int)) as usize,
        ),
{
    let ghost digits = chars@.subrange(start as int, end as int);
    let mut value: usize = 0;
    let mut i: usize = start;
    while i < end
        invariant
            start <= i <= end <= chars@.len(),
            digits == chars@.subrange(start as int, end as int),
            value == decimal_value(digits.take(i - start)),
        decreases end - i,
    {
        let c: char = chars[i];
        assert(c == digits[i - start]);
        if !('0' <= c && c <= '9') {
            assert(!is_digit(digits[i - start]));
            return None;
        }
        let digit: usize = (c as u32 - 48) as usize;
        assert(digits.take(i - start + 1).drop_last() =~= digits.take(i - start));
        proof {
            lemma_decimal_value_grows(digits, i - start + 1);
        }
        if value > (usize::MAX - digit) / 10 {
            return None;
        }
        value = value * 10 + digit;
        i = i + 1;
    }
    assert(digits.take(i - start) =~= digits);
    Some(value)
}

/// The place of the block with this name, where a block can have it.
pub fn parse_block_id(name: &str) -> (place: Option<(usize, usize)>)
    ensures
        match place {
            Some((index, begin)) => block_id(index, begin) == name@,
            None => forall|index: usize, begin: usize| #[trigger] block_id(index, begin) != name@,
        },
{
    let chars = chars_of(name);
    let length: usize = chars.len();
    let mut separator: usize = 0;
    while separator < length && chars[separator] != '_'
        invariant
            length == chars@.len(),
            separator <= length,
            forall|k: int| 0 <= k < separator ==> chars@[k] != '_',
        decreases length - separator,
    {
        separator = separator + 1;
    }
    let ghost low = chars@.subrange(0, separator as int);
    if separator < length {
        let ghost high = chars@.subrange(separator + 1, length as int);
        let index = parse_digits(&chars, 0, separator);
        let begin = parse_digits(&chars, separator + 1, length);
        if let (Some(index), Some(begin)) = (index, begin) {
            let id = get_block_id(index, begin);
            if same_text(id.as_str(), name) {
                return Some((index, begin));
            }
        }
        proof {
            assert forall|p: usize, b: usize| #[trigger] block_id(p, b) != name@ by {
                if block_id(p, b) == name@ {
                    lemma_named(p, b, chars@, separator as int);
                }
            }
        }
        return None;
    }
    proof {
        assert forall|p: usize, b: usize| #[trigger] block_id(p, b) != name@ by {
            lemma_padded_decimal(p as nat, 5);
            let at = padded_decimal(p as nat, 5).len() as int;
            assert(block_id(p, b)[at] == '_');
            if block_id(p, b) == name@ {
                assert(chars@[at] == '_');
            }
        }
    }
    None
}

/// What stands before and behind the first underscore of a block's name.
proof fn lemma_named(index: usize, begin: usize, name: Seq<char>, separator: int)
    requires
        block_id(index, begin) == name,
        0 <= separator < name.len(),
        name[separator] == '_',
        forall|k: int| 0 <= k < separator ==> name[k] != '_',
    ensures
        all_digits(name.subrange(0, separator)),
        decimal_value(name.subrange(0, separator)) == index,
        all_digits(name.subrange(separator + 1, name.len() as int)),
        decimal_value(name.subrange(separator + 1, name.len() as int)) == begin,
{
    let low = padded_decimal(index as nat, 5);
    let high = padded_decimal(begin as nat, 8);
    lemma_padded_decimal(index as nat, 5);
    lemma_padded_decimal(begin as nat, 8);
    assert(name[low.len() as int] == '_');
    if separator < low.len() {
        assert(is_digit(low[separator]));
        assert(name[separator] == low[separator]);
    }
    assert(separator == low.len());
    assert(name.subrange(0, separator) =~= low);
    assert(name.subrange(separator + 1, name.len() as int) =~= high);
}

} // verus!
