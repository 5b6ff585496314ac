//! What the messages of peers say, byte by byte.

use vstd::prelude::*;
use vstd::string::*;

use crate::laws::numbers::{word_at, words_are_big_endian};
use crate::wire::{
    announced_length, be32, cancel_bytes, handshake_bytes, handshake_names, interested_bytes,
    is_readable, message_fits, message_in, payload_size, request_bytes, unchoke_bytes, MessageView,
};

verus! {

/// A handshake has 68 bytes: a 19, the name of the protocol, eight zeros, the info hash of the
/// torrent and the id of the client.
pub proof fn handshakes_are_laid_out(info_hash: Seq<u8>, client_id: Seq<u8>)
    requires
        info_hash.len() == 20,
        client_id.len() == 20,
    ensures
        ({
            let message = handshake_bytes(info_hash, client_id);
            &&& message.len() == 68
            &&& message.take(20) == seq![
                19u8, 66, 105, 116, 84, 111, 114, 114, 101, 110, 116, 32, 112, 114, 111, 116, 111,
                99, 111, 108,
            ]
            &&& forall|i: int| 20 <= i < 28 ==> #[trigger] message[i] == 0
            &&& message.subrange(28, 48) == info_hash
            &&& message.subrange(48, 68) == client_id
        }),
{
    reveal_strlit("BitTorrent protocol");
    let message = handshake_bytes(info_hash, client_id);
    assert(message.take(20) =~= seq![
        19u8, 66, 105, 116, 84, 111, 114, 114, 101, 110, 116, 32, 112, 114, 111, 116, 111,
        99, 111, 108,
    ]);
    assert(message.subrange(28, 48) =~= info_hash);
    assert(message.subrange(48, 68) =~= client_id);
}

/// The answer to a handshake is held to the info hash alone, all of it, behind the first 28
/// bytes.
pub proof fn handshakes_are_held_to_the_info_hash(message: Seq<u8>, info_hash: Seq<u8>)
    requires
        message.len() == 68,
        info_hash.len() == 20,
    ensures
        handshake_names(message, info_hash) <==> forall|i: int|
            0 <= i < 20 ==> #[trigger] info_hash[i] == message[28 + i],
{
    let named = message.subrange(28, 48);
    assert forall|i: int| 0 <= i < 20 implies #[trigger] named[i] == message[28 + i] by {}
    if forall|i: int| 0 <= i < 20 ==> #[trigger] info_hash[i] == message[28 + i] {
        assert(named =~= info_hash);
    }
    if named == info_hash {
        assert forall|i: int| 0 <= i < 20 implies #[trigger] info_hash[i] == message[28 + i] by {
            assert(named[i] == message[28 + i]);
        }
    }
}

/// To lift the choke and to be interested are messages of one byte behind their length.
pub proof fn plain_messages_are_laid_out()
    ensures
        unchoke_bytes() == seq![0u8, 0, 0, 1, 1],
        interested_bytes() == seq![0u8, 0, 0, 1, 2],
{
}

proof fn lemma_word_of_part(message: Seq<u8>, at: int, word: Seq<u8>)
    requires
        0 <= at,
        at + 4 <= message.len(),
        word.len() == 4,
        message.subrange(at, at + 4) == word,
    ensures
        word_at(message, at) == word_at(word, 0),
{
    let part = message.subrange(at, at + 4);
    assert(part[0] == message[at]);
    assert(part[1] == message[at + 1]);
    assert(part[2] == message[at + 2]);
    assert(part[3] == message[at + 3]);
}

/// A request has seventeen bytes: its length, its kind, and the number of the piece, the
/// position in it and the length of the block, each in four bytes and cut down to these.
pub proof fn requests_are_laid_out(index: int, begin: int, length: int)
    requires
        0 <= index,
        0 <= begin,
        0 <= length,
    ensures
        ({
            let message = request_bytes(index, begin, length);
            &&& message.len() == 17
            &&& message.take(5) == seq![0u8, 0, 0, 13, 6]
            &&& word_at(message, 5) == index % 4294967296
            &&& word_at(message, 9) == begin % 4294967296
            &&& word_at(message, 13) == length % 4294967296
        }),
{
    let message = request_bytes(index, begin, length);
    words_are_big_endian(index % 4294967296);
    words_are_big_endian(begin % 4294967296);
    words_are_big_endian(length % 4294967296);
    assert(message.take(5) =~= seq![0u8, 0, 0, 13, 6]);
    assert(message.subrange(5, 9) =~= be32(index % 4294967296));
    assert(message.subrange(9, 13) =~= be32(begin % 4294967296));
    assert(message.subrange(13, 17) =~= be32(length % 4294967296));
    lemma_word_of_part(message, 5, be32(index % 4294967296));
    lemma_word_of_part(message, 9, be32(begin % 4294967296));
    lemma_word_of_part(message, 13, be32(length % 4294967296));
}

/// To take a request back is the same message with another kind.
pub proof fn cancellations_are_laid_out(index: int, begin: int, length: int)
    requires
        0 <= index,
        0 <= begin,
        0 <= length,
    ensures
        ({
            let message = cancel_bytes(index, begin, length);
            &&& message.len() == 17
            &&& message.take(5) == seq![0u8, 0, 0, 13, 8]
            &&& word_at(message, 5) == index % 4294967296
            &&& word_at(message, 9) == begin % 4294967296
            &&& word_at(message, 13) == length % 4294967296
        }),
{
    let message = cancel_bytes(index, begin, length);
    words_are_big_endian(index % 4294967296);
    words_are_big_endian(begin % 4294967296);
    words_are_big_endian(length % 4294967296);
    assert(message.take(5) =~= seq![0u8, 0, 0, 13, 8]);
    assert(message.subrange(5, 9) =~= be32(index % 4294967296));
    assert(message.subrange(9, 13) =~= be32(begin % 4294967296));
    assert(message.subrange(13, 17) =~= be32(length % 4294967296));
    lemma_word_of_part(message, 5, be32(index % 4294967296));
    lemma_word_of_part(message, 9, be32(begin % 4294967296));
    lemma_word_of_part(message, 13, be32(length % 4294967296));
}

/// A header of four bytes announces a message of that length, unless it is empty or of 131072
/// bytes or more.
pub proof fn headers_announce_their_message(header: Seq<u8>)
    requires
        header.len() == 4,
    ensures
        announced_length(header) is Some <==> 0 < word_at(header, 0) < 131072,
        announced_length(header) is Some ==> announced_length(header)->0 == word_at(header, 0),
{
}

/// All of a message behind its kind is read, where the message is of interest: a choke or an
/// unchoke, a have with its four bytes, a bitfield, or a block with its eight bytes.
pub proof fn messages_of_interest_are_read_whole(length: int, kind: u8)
    requires
        0 < length,
    ensures
        payload_size(length, kind) is Some ==> payload_size(length, kind)->0 == length - 1,
        payload_size(length, kind) is Some <==> match kind {
            0 => length == 1,
            1 => length == 1,
            4 => length == 5,
            5 => true,
            7 => length >= 9,
            _ => false,
        },
{
}

/// A choke and an unchoke have no payload, and say just that.
pub proof fn chokes_are_read(piece_count: int)
    ensures
        is_readable(0, seq![], piece_count),
        is_readable(1, seq![], piece_count),
        message_in(0, seq![], piece_count) == MessageView::Choked(true),
        message_in(1, seq![], piece_count) == MessageView::Choked(false),
{
}

/// A have names the piece in its four bytes, which has to be one of the torrent.
pub proof fn haves_name_their_piece(payload: Seq<u8>, piece_count: int)
    ensures
        is_readable(4, payload, piece_count) <==> payload.len() == 4,
        message_in(4, payload, piece_count) == MessageView::Have(word_at(payload, 0)),
        message_fits(4, payload, piece_count) <==> payload.len() == 4 && word_at(payload, 0)
            < piece_count,
{
}

/// A block comes with the number of its piece and its position in four bytes each, and all of
/// the rest is its data.
pub proof fn blocks_are_read(payload: Seq<u8>, piece_count: int)
    ensures
        is_readable(7, payload, piece_count) <==> payload.len() >= 8,
        message_fits(7, payload, piece_count) <==> payload.len() >= 8,
        payload.len() >= 8 ==> {
            &&& message_in(7, payload, piece_count) is Block
            &&& message_in(7, payload, piece_count)->Block_0 == word_at(payload, 0)
            &&& message_in(7, payload, piece_count)->Block_1 == word_at(payload, 4)
            &&& message_in(7, payload, piece_count)->Block_2.len() == payload.len() - 8
            &&& forall|i: int|
                8 <= i < payload.len() ==> #[trigger] payload[i] == message_in(
                    7,
                    payload,
                    piece_count,
                )->Block_2[i - 8]
        },
{
}

/// What bit `j` of a byte counts, where the first counts most.
pub open spec fn weight(j: int) -> int {
    if j == 0 {
        128
    } else if j == 1 {
        64
    } else if j == 2 {
        32
    } else if j == 3 {
        16
    } else if j == 4 {
        8
    } else if j == 5 {
        4
    } else if j == 6 {
        2
    } else {
        1
    }
}

proof fn lemma_shifted_bit(byte: u8, j: int)
    requires
        0 <= j < 8,
    ensures
        ((byte >> ((7 - j) as u8)) & 1u8 == 1u8) == (byte as int / weight(j) % 2 == 1),
{
    assert((byte >> 7u8) & 1u8 == byte / 128 % 2) by (bit_vector);
    assert((byte >> 6u8) & 1u8 == byte / 64 % 2) by (bit_vector);
    assert((byte >> 5u8) & 1u8 == byte / 32 % 2) by (bit_vector);
    assert((byte >> 4u8) & 1u8 == byte / 16 % 2) by (bit_vector);
    assert((byte >> 3u8) & 1u8 == byte / 8 % 2) by (bit_vector);
    assert((byte >> 2u8) & 1u8 == byte / 4 % 2) by (bit_vector);
    assert((byte >> 1u8) & 1u8 == byte / 2 % 2) by (bit_vector);
    assert((byte >> 0u8) & 1u8 == byte / 1 % 2) by (bit_vector);
}

/// A bitfield has a bit for each piece, eight in a byte, the first of which counts most.
pub proof fn bitfields_have_a_bit_for_each_piece(payload: Seq<u8>, piece_count: int)
    requires
        0 <= piece_count,
    ensures
        is_readable(5, payload, piece_count) <==> piece_count <= 8 * payload.len(),
        message_fits(5, payload, piece_count) <==> piece_count <= 8 * payload.len(),
        message_in(5, payload, piece_count) is Bitfield,
        message_in(5, payload, piece_count)->Bitfield_0.len() == piece_count,
        forall|i: int|
            0 <= i < piece_count ==> #[trigger] message_in(5, payload, piece_count)->Bitfield_0[i]
                == (payload[i / 8] as int / weight(i % 8) % 2 == 1),
{
    let bits = message_in(5, payload, piece_count)->Bitfield_0;
    assert forall|i: int| 0 <= i < piece_count implies #[trigger] bits[i] == (
    payload[i / 8] as int / weight(i % 8) % 2 == 1) by {
        lemma_shifted_bit(payload[i / 8], i % 8);
    }
}

/// What a piece adds to the byte that has its bit.
pub open spec fn bit_value(bits: Seq<bool>, i: int) -> int {
    if 0 <= i < bits.len() && bits[i] {
        weight(i % 8)
    } else {
        0
    }
}

/// Bits, eight in a byte, the first of which counts most.
pub open spec fn packed(bits: Seq<bool>) -> Seq<u8> {
    Seq::new(
        ((bits.len() + 7) / 8) as nat,
        |b: int|
            (bit_value(bits, 8 * b) + bit_value(bits, 8 * b + 1) + bit_value(bits, 8 * b + 2)
                + bit_value(bits, 8 * b + 3) + bit_value(bits, 8 * b + 4) + bit_value(
                bits,
                8 * b + 5,
            ) + bit_value(bits, 8 * b + 6) + bit_value(bits, 8 * b + 7)) as u8,
    )
}

proof fn lemma_packed_bit(
    c0: bool,
    c1: bool,
    c2: bool,
    c3: bool,
    c4: bool,
    c5: bool,
    c6: bool,
    c7: bool,
)
    ensures
        ({
            let byte = (if c0 { 128int } else { 0 }) + (if c1 { 64int } else { 0 }) + (if c2 {
                32int
            } else {
                0
            }) + (if c3 { 16int } else { 0 }) + (if c4 { 8int } else { 0 }) + (if c5 {
                4int
            } else {
                0
            }) + (if c6 { 2int } else { 0 }) + (if c7 { 1int } else { 0 });
            &&& 0 <= byte < 256
            &&& c0 == (byte / 128 % 2 == 1)
            &&& c1 == (byte / 64 % 2 == 1)
            &&& c2 == (byte / 32 % 2 == 1)
            &&& c3 == (byte / 16 % 2 == 1)
            &&& c4 == (byte / 8 % 2 == 1)
            &&& c5 == (byte / 4 % 2 == 1)
            &&& c6 == (byte / 2 % 2 == 1)
            &&& c7 == (byte / 1 % 2 == 1)
        }),
{
}

/// Whatever pieces a peer has, a bitfield that says so is read as just these.
pub proof fn bitfields_come_through(bits: Seq<bool>)
    ensures
        is_readable(5, packed(bits), bits.len() as int),
        message_in(5, packed(bits), bits.len() as int) == MessageView::Bitfield(bits),
{
    let payload = packed(bits);
    let count = bits.len() as int;
    bitfields_have_a_bit_for_each_piece(payload, count);
    let read = message_in(5, payload, count)->Bitfield_0;
    assert forall|i: int| 0 <= i < count implies #[trigger] read[i] == bits[i] by {
        let b = i / 8;
        let has = |k: int| 0 <= k < count && bits[k];
        lemma_packed_bit(
            has(8 * b),
            has(8 * b + 1),
            has(8 * b + 2),
            has(8 * b + 3),
            has(8 * b + 4),
            has(8 * b + 5),
            has(8 * b + 6),
            has(8 * b + 7),
        );
        assert(0 <= b < payload.len());
        assert(read[i] == (payload[i / 8] as int / weight(i % 8) % 2 == 1));
    }
    assert(read =~= bits);
}

} // verus!
