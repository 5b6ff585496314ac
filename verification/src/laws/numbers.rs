//! Numbers and texts as they are written.

use vstd::prelude::*;

use crate::path::joined;
use crate::text::{decimal, hex_char, padded_decimal};
use crate::torrent::formatter::{block_id, peer_id};
use crate::utils::percent_encoding;
use crate::wire::{be16, be32, be64};

verus! {

/// The number in four bytes, the first of which counts most.
pub open spec fn word_at(bytes: Seq<u8>, at: int) -> int {
    16777216 * bytes[at] + 65536 * bytes[at + 1] + 256 * bytes[at + 2] + bytes[at + 3]
}

/// The number in eight bytes, the first of which counts most.
pub open spec fn long_at(bytes: Seq<u8>, at: int) -> int {
    4294967296 * word_at(bytes, at) + word_at(bytes, at + 4)
}

/// The number in two bytes, the first of which counts more.
pub open spec fn short_at(bytes: Seq<u8>, at: int) -> int {
    256 * bytes[at] + bytes[at + 1]
}

/// A number is written in four bytes, the first of which counts most.
pub proof fn words_are_big_endian(n: int)
    requires
        0 <= n < 4294967296,
    ensures
        be32(n).len() == 4,
        word_at(be32(n), 0) == n,
{
    reveal(be32);
}

/// A number is written in two bytes, the first of which counts more.
pub proof fn shorts_are_big_endian(n: int)
    requires
        0 <= n < 65536,
    ensures
        be16(n).len() == 2,
        short_at(be16(n), 0) == n,
{
}

/// A number is written in eight bytes, the first of which counts most.
pub proof fn longs_are_big_endian(n: int)
    requires
        0 <= n < 18446744073709551616,
    ensures
        be64(n).len() == 8,
        long_at(be64(n), 0) == n,
{
    let high = n / 4294967296;
    let low = n % 4294967296;
    words_are_big_endian(high);
    words_are_big_endian(low);
    assert(be64(n) =~= be32(high) + be32(low));
    assert(word_at(be64(n), 0) == word_at(be32(high), 0));
    assert(word_at(be64(n), 4) == word_at(be32(low), 0));
}

/// The value of digits, the first of which counts most.
pub open spec fn digits_number(text: Seq<char>) -> nat
    decreases text.len(),
{
    if text.len() == 0 {
        0
    } else {
        10 * digits_number(text.drop_last()) + (text.last() as int - 48) as nat
    }
}

pub open spec fn is_decimal(text: Seq<char>) -> bool {
    forall|i: int| 0 <= i < text.len() ==> 48 <= (#[trigger] text[i]) as int <= 57
}

/// A number is written in decimal digits that denote it, the first of which is no zero unless
/// the number is.
pub proof fn decimals_denote_their_number(n: nat)
    ensures
        decimal(n).len() > 0,
        is_decimal(decimal(n)),
        digits_number(decimal(n)) == n,
        n > 0 ==> decimal(n)[0] != '0',
    decreases n,
{
    if n < 10 {
        let text = decimal(n);
        assert(text.drop_last() =~= Seq::<char>::empty());
        assert(digits_number(text.drop_last()) == 0);
    } else {
        decimals_denote_their_number(n / 10);
        assert(decimal(n).drop_last() =~= decimal(n / 10));
        assert(decimal(n)[0] == decimal(n / 10)[0]);
    }
}

proof fn lemma_zeros(zeros: nat, text: Seq<char>)
    ensures
        digits_number(Seq::new(zeros, |i: int| '0') + text) == digits_number(text),
    decreases text.len(), zeros,
{
    let all = Seq::new(zeros, |i: int| '0') + text;
    if text.len() > 0 {
        assert(all.drop_last() =~= Seq::new(zeros, |i: int| '0') + text.drop_last());
        lemma_zeros(zeros, text.drop_last());
    } else if zeros > 0 {
        assert(all.drop_last() =~= Seq::new((zeros - 1) as nat, |i: int| '0') + text);
        lemma_zeros((zeros - 1) as nat, text);
    }
}

/// A number with leading zeros has as many digits as are asked for, or as it needs, and
/// denotes the number.
pub proof fn padded_decimals_denote_their_number(n: nat, width: nat)
    ensures
        is_decimal(padded_decimal(n, width)),
        digits_number(padded_decimal(n, width)) == n,
        padded_decimal(n, width).len() == if decimal(n).len() < width {
            width
        } else {
            decimal(n).len()
        },
{
    decimals_denote_their_number(n);
    if decimal(n).len() < width {
        lemma_zeros((width - decimal(n).len()) as nat, decimal(n));
    }
}

/// The name of a block is the number of its piece in five digits or more, an underscore, and
/// its position in the piece in eight digits or more.
pub proof fn block_ids_say_where_the_block_is(index: usize, begin: usize) -> (line: int)
    ensures
        ({
            let name = block_id(index, begin);
            &&& 5 <= line
            &&& line + 9 <= name.len()
            &&& name[line] == '_'
            &&& is_decimal(name.take(line))
            &&& is_decimal(name.skip(line + 1))
            &&& digits_number(name.take(line)) == index
            &&& digits_number(name.skip(line + 1)) == begin
            &&& line > 5 ==> name[0] != '0'
            &&& name.len() > line + 9 ==> name[line + 1] != '0'
        }),
{
    let name = block_id(index, begin);
    let piece = padded_decimal(index as nat, 5);
    let place = padded_decimal(begin as nat, 8);
    decimals_denote_their_number(index as nat);
    decimals_denote_their_number(begin as nat);
    padded_decimals_denote_their_number(index as nat, 5);
    padded_decimals_denote_their_number(begin as nat, 8);
    assert(name.take(piece.len() as int) =~= piece);
    assert(name.skip(piece.len() as int + 1) =~= place);
    if piece.len() > 5 {
        assert(index > 0) by {
            reveal_with_fuel(decimal, 2);
        }
        assert(piece == decimal(index as nat));
        assert(name[0] == piece[0]);
    }
    if place.len() > 8 {
        assert(begin > 0) by {
            reveal_with_fuel(decimal, 2);
        }
        assert(place == decimal(begin as nat));
        assert(name[piece.len() as int + 1] == place[0]);
    }
    piece.len() as int
}

/// The name of a peer is its address, a colon, and its port.
pub proof fn peer_ids_are_address_and_port(ip: Seq<char>, port: u16)
    ensures
        ({
            let name = peer_id(ip, port);
            &&& name.len() > ip.len() + 1
            &&& name.take(ip.len() as int) == ip
            &&& name[ip.len() as int] == ':'
            &&& is_decimal(name.skip(ip.len() as int + 1))
            &&& digits_number(name.skip(ip.len() as int + 1)) == port
            &&& port > 0 ==> name[ip.len() as int + 1] != '0'
            &&& port == 0 ==> name.len() == ip.len() + 2
        }),
{
    let name = peer_id(ip, port);
    decimals_denote_their_number(port as nat);
    assert(name.take(ip.len() as int) =~= ip);
    assert(name.skip(ip.len() as int + 1) =~= decimal(port as nat));
}

/// The value of an upper-case hexadecimal digit.
pub open spec fn hex_number(c: char) -> int {
    if '0' <= c <= '9' {
        c as int - 48
    } else {
        c as int - 55
    }
}

pub open spec fn is_hex(c: char) -> bool {
    '0' <= c <= '9' || 'A' <= c <= 'F'
}

/// Each byte is encoded as a percent sign and two upper-case hexadecimal digits, the first of
/// which counts more.
pub proof fn bytes_are_percent_encoded(bytes: Seq<u8>, i: int)
    requires
        0 <= i < bytes.len(),
    ensures
        percent_encoding(bytes).len() == 3 * bytes.len(),
        percent_encoding(bytes)[3 * i] == '%',
        is_hex(percent_encoding(bytes)[3 * i + 1]),
        is_hex(percent_encoding(bytes)[3 * i + 2]),
        16 * hex_number(percent_encoding(bytes)[3 * i + 1]) + hex_number(
            percent_encoding(bytes)[3 * i + 2],
        ) == bytes[i],
{
    let high = 3 * i + 1;
    let low = 3 * i + 2;
    assert((3 * i) % 3 == 0 && high / 3 == i && high % 3 == 1 && low / 3 == i && low % 3 == 2);
    assert(percent_encoding(bytes)[high] == hex_char((bytes[i] / 16) as nat));
    assert(percent_encoding(bytes)[low] == hex_char((bytes[i] % 16) as nat));
}

/// A relative path is taken from a directory behind one separator, and an absolute path stands
/// for itself.
pub proof fn paths_are_joined_by_one_separator(base: Seq<char>, relative: Seq<char>)
    ensures
        relative.len() > 0 && relative[0] == '/' ==> joined(base, relative) == relative,
        !(relative.len() > 0 && relative[0] == '/') && base.len() > 0 && base.last() != '/'
            ==> joined(base, relative) == base + seq!['/'] + relative,
        !(relative.len() > 0 && relative[0] == '/') && (base.len() == 0 || base.last() == '/')
            ==> joined(base, relative) == base + relative,
{
    assert(base.push('/') =~= base + seq!['/']);
}

} // verus!
