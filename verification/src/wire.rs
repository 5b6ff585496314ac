//! The messages that peers exchange.

use vstd::prelude::*;
use vstd::slice::slice_subrange;
use vstd::string::*;

use crate::bencode::token::ascii;
use crate::text::{append_bytes, bytes_equal};

verus! {

/// The protocol that a handshake names.
pub const HANDSHAKE_PROTOCOL: &'static str = "BitTorrent protocol";

/// A message of this length or more is not read.
pub const MAX_MESSAGE_LENGTH: usize = 131072;

/// Two to the power of 32.
pub const WORD: u64 = 4294967296;

/// A number in four bytes, the most significant first.
#[verifier::opaque]
pub open spec fn be32(n: int) -> Seq<u8> {
    seq![
        (n / 16777216 % 256) as u8,
        (n / 65536 % 256) as u8,
        (n / 256 % 256) as u8,
        (n % 256) as u8,
    ]
}

/// The number in the four bytes from `at` on.
pub open spec fn be32_at(bytes: Seq<u8>, at: int) -> int {
    bytes[at] as int * 16777216 + bytes[at + 1] as int * 65536 + bytes[at + 2] as int * 256
        + bytes[at + 3] as int
}

/// What was written in four bytes is read from them.
pub proof fn be32_round_trip(n: int)
    requires
        0 <= n < WORD,
    ensures
        be32(n).len() == 4,
        be32_at(be32(n), 0) == n,
{
    reveal(be32);
}

/// What was written in four bytes is read from where they stand.
proof fn lemma_be32_at(bytes: Seq<u8>, at: int, n: int)
    requires
        0 <= n < WORD,
        0 <= at,
        at + 4 <= bytes.len(),
        bytes.subrange(at, at + 4) == be32(n),
    ensures
        be32_at(bytes, at) == n,
{
    be32_round_trip(n);
    let word = bytes.subrange(at, at + 4);
    assert(bytes[at] == word[0]);
    assert(bytes[at + 1] == word[1]);
    assert(bytes[at + 2] == word[2]);
    assert(bytes[at + 3] == word[3]);
}

/// Where the parts of a message on a block stand.
proof fn lemma_three_words(head: Seq<u8>, a: Seq<u8>, b: Seq<u8>, c: Seq<u8>)
    requires
        head.len() == 5,
        a.len() == 4,
        b.len() == 4,
        c.len() == 4,
    ensures
        (head + a + b + c).len() == 17,
        (head + a + b + c).subrange(0, 5) == head,
        (head + a + b + c).subrange(5, 9) == a,
        (head + a + b + c).subrange(9, 13) == b,
        (head + a + b + c).subrange(13, 17) == c,
{
    let message = head + a + b + c;
    assert(message.subrange(0, 5) =~= head);
    assert(message.subrange(5, 9) =~= a);
    assert(message.subrange(9, 13) =~= b);
    assert(message.subrange(13, 17) =~= c);
}

/// Appends a number in four bytes.
pub fn append_be32(out: &mut Vec<u8>, n: u32)
    ensures
        final(out)@ == old(out)@ + be32(n as int),
{
    out.push((n / 16777216) as u8);
    out.push((n / 65536 % 256) as u8);
    out.push((n / 256 % 256) as u8);
    out.push((n % 256) as u8);
    proof {
        reveal(be32);
        assert(out@ =~= old(out)@ + be32(n as int));
    }
}

/// Reads a number from four bytes.
pub fn read_be32(bytes: &[u8], at: usize) -> (n: u32)
    requires
        at + 4 <= bytes@.len(),
    ensures
        n == be32_at(bytes@, at as int),
{
    bytes[at] as u32 * 16777216 + bytes[at + 1] as u32 * 65536 + bytes[at + 2] as u32 * 256
        + bytes[at + 3] as u32
}

/// A number in two bytes, the more significant first.
pub open spec fn be16(n: int) -> Seq<u8> {
    seq![(n / 256 % 256) as u8, (n % 256) as u8]
}

/// A number in eight bytes, the most significant first.
pub open spec fn be64(n: int) -> Seq<u8> {
    be32(n / WORD as int) + be32(n % WORD as int)
}

/// Appends a number in two bytes.
pub fn append_be16(out: &mut Vec<u8>, n: u16)
    ensures
        final(out)@ == old(out)@ + be16(n as int),
{
    out.push((n / 256) as u8);
    out.push((n % 256) as u8);
    assert(out@ =~= old(out)@ + be16(n as int));
}

/// Appends a number in eight bytes.
pub fn append_be64(out: &mut Vec<u8>, n: u64)
    ensures
        final(out)@ == old(out)@ + be64(n as int),
{
    append_be32(out, (n / WORD) as u32);
    append_be32(out, (n % WORD) as u32);
    assert(out@ =~= old(out)@ + be64(n as int));
}

// ---------------------------------------------------------------------------------------
// Handshake

/// The handshake for a torrent: the length and the name of the protocol, eight zero bytes,
/// the info hash of the torrent and the id of the client.
pub open spec fn handshake_bytes(info_hash: Seq<u8>, client_id: Seq<u8>) -> Seq<u8> {
    seq![19u8] + ascii(HANDSHAKE_PROTOCOL@) + Seq::new(8, |i: int| 0u8) + info_hash + client_id
}

/// A handshake names the torrent behind the protocol and the zero bytes.
pub open spec fn handshake_names(message: Seq<u8>, info_hash: Seq<u8>) -> bool {
    message.subrange(28, 48) == info_hash
}

/// The handshake for a torrent.
pub fn handshake_message(info_hash: &[u8; 20], client_id: &[u8; 20]) -> (message: Vec<u8>)
    ensures
        message@ == handshake_bytes(info_hash@, client_id@),
        message@.len() == 68,
{
    let mut message: Vec<u8> = Vec::new();
    message.push(19);
    proof {
        reveal_strlit("BitTorrent protocol");
        is_ascii_spec_bytes(HANDSHAKE_PROTOCOL);
        assert(HANDSHAKE_PROTOCOL.spec_bytes() =~= ascii(HANDSHAKE_PROTOCOL@));
    }
    append_bytes(&mut message, HANDSHAKE_PROTOCOL.as_bytes());
    let zeros: [u8; 8] = [0u8; 8];
    append_bytes(&mut message, &zeros);
    append_bytes(&mut message, info_hash);
    append_bytes(&mut message, client_id);
    assert(zeros@ =~= Seq::new(8, |i: int| 0u8));
    assert(message@ =~= handshake_bytes(info_hash@, client_id@));
    message
}

/// Whether what came back to a handshake names the torrent.
pub fn verify_handshake(message: &[u8], info_hash: &[u8; 20]) -> (names: bool)
    requires
        message@.len() == 68,
    ensures
        names == handshake_names(message@, info_hash@),
{
    bytes_equal(slice_subrange(message, 28, 48), info_hash)
}

/// A handshake names the torrent that it is for, and no other.
pub proof fn handshakes_name_their_torrent(info_hash: Seq<u8>, client_id: Seq<u8>, other: Seq<u8>)
    requires
        info_hash.len() == 20,
        client_id.len() == 20,
    ensures
        handshake_bytes(info_hash, client_id).len() == 68,
        handshake_names(handshake_bytes(info_hash, client_id), other) <==> other == info_hash,
{
    reveal_strlit("BitTorrent protocol");
    assert(handshake_bytes(info_hash, client_id).subrange(28, 48) =~= info_hash);
}

// ---------------------------------------------------------------------------------------
// What the client sends

/// The message that lifts the choke off the peer.
pub open spec fn unchoke_bytes() -> Seq<u8> {
    seq![0u8, 0u8, 0u8, 1u8, 1u8]
}

/// The message that the client is interested.
pub open spec fn interested_bytes() -> Seq<u8> {
    seq![0u8, 0u8, 0u8, 1u8, 2u8]
}

/// The message that tells a peer that it may ask.
pub fn unchoke_message() -> (message: Vec<u8>)
    ensures
        message@ == unchoke_bytes(),
{
    let message: Vec<u8> = vec![0u8, 0u8, 0u8, 1u8, 1u8];
    assert(message@ =~= unchoke_bytes());
    message
}

/// The message that tells a peer that it will be asked.
pub fn interested_message() -> (message: Vec<u8>)
    ensures
        message@ == interested_bytes(),
{
    let message: Vec<u8> = vec![0u8, 0u8, 0u8, 1u8, 2u8];
    assert(message@ =~= interested_bytes());
    message
}

/// A message on a block: its length, its kind, and the place and length of the block, each
/// in the 32 bits that the protocol has for it.
pub open spec fn block_message_bytes(kind: u8, index: int, begin: int, length: int) -> Seq<u8> {
    seq![0u8, 0u8, 0u8, 13u8, kind] + be32(index % WORD as int) + be32(begin % WORD as int) + be32(
        length % WORD as int,
    )
}

fn block_message(kind: u8, index: usize, begin: usize, length: usize) -> (message: Vec<u8>)
    ensures
        message@ == block_message_bytes(kind, index as int, begin as int, length as int),
{
    let mut message: Vec<u8> = vec![0u8, 0u8, 0u8, 13u8, kind];
    append_be32(&mut message, (index as u64 % WORD) as u32);
    append_be32(&mut message, (begin as u64 % WORD) as u32);
    append_be32(&mut message, (length as u64 % WORD) as u32);
    assert(message@ =~= block_message_bytes(kind, index as int, begin as int, length as int));
    message
}

/// The request of a block.
pub open spec fn request_bytes(index: int, begin: int, length: int) -> Seq<u8> {
    block_message_bytes(6, index, begin, length)
}

/// The cancellation of a request.
pub open spec fn cancel_bytes(index: int, begin: int, length: int) -> Seq<u8> {
    block_message_bytes(8, index, begin, length)
}

/// The message that requests a block.
pub fn request_message(index: usize, begin: usize, length: usize) -> (message: Vec<u8>)
    ensures
        message@ == request_bytes(index as int, begin as int, length as int),
{
    block_message(6, index, begin, length)
}

/// The message that takes such a request back.
pub fn cancel_message(index: usize, begin: usize, length: usize) -> (message: Vec<u8>)
    ensures
        message@ == cancel_bytes(index as int, begin as int, length as int),
{
    block_message(8, index, begin, length)
}

/// A request has seventeen bytes and says where the block is and how long, as long as that
/// fits in 32 bits.
pub proof fn requests_name_their_block(index: int, begin: int, length: int)
    requires
        0 <= index < WORD,
        0 <= begin < WORD,
        0 <= length < WORD,
    ensures
        request_bytes(index, begin, length).len() == 17,
        be32_at(request_bytes(index, begin, length), 0) == 13,
        request_bytes(index, begin, length)[4] == 6,
        be32_at(request_bytes(index, begin, length), 5) == index,
        be32_at(request_bytes(index, begin, length), 9) == begin,
        be32_at(request_bytes(index, begin, length), 13) == length,
{
    let message = request_bytes(index, begin, length);
    let head = seq![0u8, 0u8, 0u8, 13u8, 6u8];
    be32_round_trip(index);
    be32_round_trip(begin);
    be32_round_trip(length);
    lemma_three_words(head, be32(index), be32(begin), be32(length));
    assert(message.subrange(0, 4) =~= be32(13)) by {
        reveal(be32);
        assert(message.subrange(0, 4) =~= head.subrange(0, 4));
    }
    assert(message[4] == message.subrange(0, 5)[4]);
    lemma_be32_at(message, 0, 13);
    lemma_be32_at(message, 5, index);
    lemma_be32_at(message, 9, begin);
    lemma_be32_at(message, 13, length);
}

// ---------------------------------------------------------------------------------------
// What a peer sends

/// The length of the message that a header announces. A message without content keeps the
/// connection alive, and one that is too long is not read.
pub open spec fn announced_length(header: Seq<u8>) -> Option<int> {
    if 0 < be32_at(header, 0) < MAX_MESSAGE_LENGTH {
        Some(be32_at(header, 0))
    } else {
        None
    }
}

/// The length of the message that follows these four bytes. `None` where nothing of
/// interest does.
pub fn message_length(header: &[u8; 4]) -> (length: Option<usize>)
    ensures
        length is Some <==> announced_length(header@) is Some,
        length is Some ==> length->0 == announced_length(header@)->0,
{
    let length: u32 = read_be32(header, 0);
    if 0 < length && length < 131072 {
        Some(length as usize)
    } else {
        None
    }
}

/// How many bytes follow the kind of a message of this length. `None` for a message that is
/// of no interest: nothing more of it is read.
pub open spec fn payload_size(length: int, kind: u8) -> Option<int> {
    if length == 1 && (kind == 0 || kind == 1) {
        Some(0)
    } else if length == 5 && kind == 4 {
        Some(4)
    } else if kind == 5 {
        Some(length - 1)
    } else if length >= 9 && kind == 7 {
        Some(length - 1)
    } else {
        None
    }
}

/// How many bytes follow the kind of a message of this length. `None` for a message that is
/// of no interest.
pub fn payload_length(length: usize, kind: u8) -> (size: Option<usize>)
    requires
        length > 0,
    ensures
        size is Some <==> payload_size(length as int, kind) is Some,
        size is Some ==> size->0 == payload_size(length as int, kind)->0,
{
    if length == 1 && (kind == 0 || kind == 1) {
        Some(0)
    } else if length == 5 && kind == 4 {
        Some(4)
    } else if kind == 5 || (length >= 9 && kind == 7) {
        Some(length - 1)
    } else {
        None
    }
}

/// A message of a peer.
#[derive(Debug)]
pub enum Message {
    /// The peer chokes the client, or no longer does.
    Choked(bool),
    /// The peer has this piece.
    Have(usize),
    /// The pieces that the peer has.
    Bitfield(Vec<bool>),
    /// The block at this place of this piece.
    Block(usize, usize, Vec<u8>),
}

pub enum MessageView {
    Choked(bool),
    Have(int),
    Bitfield(Seq<bool>),
    Block(int, int, Seq<u8>),
}

impl View for Message {
    type V = MessageView;

    open spec fn view(&self) -> MessageView {
        match self {
            Message::Choked(choked) => MessageView::Choked(*choked),
            Message::Have(index) => MessageView::Have(*index as int),
            Message::Bitfield(bits) => MessageView::Bitfield(bits@),
            Message::Block(index, begin, data) => MessageView::Block(
                *index as int,
                *begin as int,
                data@,
            ),
        }
    }
}

/// Bit `i` of a bitfield: the first is the most significant of the first byte.
pub open spec fn bit_at(bytes: Seq<u8>, i: int) -> bool {
    (bytes[i / 8] >> ((7 - i % 8) as u8)) & 1u8 == 1u8
}

/// The first `count` bits of a bitfield.
pub open spec fn bits_in(bytes: Seq<u8>, count: int) -> Seq<bool> {
    Seq::new(count as nat, |i: int| bit_at(bytes, i))
}

/// The message of this kind with this payload.
pub open spec fn message_in(kind: u8, payload: Seq<u8>, piece_count: int) -> MessageView {
    if kind == 0 || kind == 1 {
        MessageView::Choked(kind == 0)
    } else if kind == 4 {
        MessageView::Have(be32_at(payload, 0))
    } else if kind == 5 {
        MessageView::Bitfield(bits_in(payload, piece_count))
    } else {
        MessageView::Block(be32_at(payload, 0), be32_at(payload, 4), payload.skip(8))
    }
}

/// A message that can be read: of a kind and length of interest, and with a bit for each
/// piece where it is a bitfield.
pub open spec fn is_readable(kind: u8, payload: Seq<u8>, piece_count: int) -> bool {
    &&& payload_size(payload.len() as int + 1, kind) == Some(payload.len() as int)
    &&& kind == 5 ==> piece_count <= 8 * payload.len()
}

/// A message that can be read, and speaks of pieces that there are.
pub open spec fn message_fits(kind: u8, payload: Seq<u8>, piece_count: int) -> bool {
    &&& is_readable(kind, payload, piece_count)
    &&& message_in(kind, payload, piece_count) matches MessageView::Have(index) ==> index
        < piece_count
}

/// Whether a message can be read, and speaks of pieces that there are.
pub fn check_message(kind: u8, payload: &[u8], piece_count: usize) -> (fits: bool)
    ensures
        fits == message_fits(kind, payload@, piece_count as int),
{
    let size: usize = payload.len();
    if kind == 0 || kind == 1 {
        size == 0
    } else if kind == 4 {
        size == 4 && (read_be32(payload, 0) as usize) < piece_count
    } else if kind == 5 {
        piece_count / 8 < size || (piece_count / 8 == size && piece_count % 8 == 0)
    } else {
        kind == 7 && size >= 8
    }
}

fn read_bits(bytes: &[u8], count: usize) -> (bits: Vec<bool>)
    requires
        count <= 8 * bytes@.len(),
    ensures
        bits@ == bits_in(bytes@, count as int),
{
    let mut bits: Vec<bool> = Vec::new();
    let mut i: usize = 0;
    while i < count
        invariant
            i <= count,
            count <= 8 * bytes@.len(),
            bits@ == bits_in(bytes@, i as int),
        decreases count - i,
    {
        let byte: u8 = bytes[i / 8];
        let shift: u8 = (7 - i % 8) as u8;
        bits.push((byte >> shift) & 1u8 == 1u8);
        i = i + 1;
        assert(bits@ =~= bits_in(bytes@, i as int));
    }
    bits
}

/// The message of this kind with this payload.
pub fn read_message(kind: u8, payload: &[u8], piece_count: usize) -> (message: Message)
    requires
        is_readable(kind, payload@, piece_count as int),
    ensures
        message@ == message_in(kind, payload@, piece_count as int),
{
    if kind == 0 || kind == 1 {
        Message::Choked(kind == 0)
    } else if kind == 4 {
        Message::Have(read_be32(payload, 0) as usize)
    } else if kind == 5 {
        Message::Bitfield(read_bits(payload, piece_count))
    } else {
        let mut data: Vec<u8> = Vec::new();
        append_bytes(&mut data, slice_subrange(payload, 8, payload.len()));
        assert(data@ =~= payload@.skip(8));
        Message::Block(read_be32(payload, 0) as usize, read_be32(payload, 4) as usize, data)
    }
}

/// A block that a peer sends comes out as it went in: the numbers of the piece and the
/// position in four bytes each, and the data behind them.
pub proof fn blocks_come_through(index: int, begin: int, data: Seq<u8>, piece_count: int)
    requires
        0 <= index < WORD,
        0 <= begin < WORD,
    ensures
        is_readable(7, be32(index) + be32(begin) + data, piece_count),
        message_in(7, be32(index) + be32(begin) + data, piece_count) == MessageView::Block(
            index,
            begin,
            data,
        ),
{
    let payload = be32(index) + be32(begin) + data;
    be32_round_trip(index);
    be32_round_trip(begin);
    assert(payload.subrange(0, 4) =~= be32(index));
    assert(payload.subrange(4, 8) =~= be32(begin));
    lemma_be32_at(payload, 0, index);
    lemma_be32_at(payload, 4, begin);
    assert(payload.skip(8) =~= data);
}

} // verus!
