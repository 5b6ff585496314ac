//! What is announced to trackers and what they answer, said of bytes and of fields.

use vstd::prelude::*;
use vstd::string::*;
use vstd::utf8::*;

use crate::bencode::{
    compact_peer, compact_peers, dotted, listed_peers_from, peer_from, peers_entry, peers_from,
    peers_in, PeerInfoView,
};
use crate::bencode::token::{close_end, entry_at, value_end, TokenView};
use crate::laws::metainfo::{key, number_token, text_token};
use crate::laws::numbers::{
    decimals_denote_their_number, long_at, longs_are_big_endian, short_at, shorts_are_big_endian,
    word_at, words_are_big_endian,
};
use crate::laws::schedule::number_missing;
use crate::select::chosen;
use crate::text::decimal;
use crate::torrent::models::{is_persisted, TorrentView};
use crate::torrent::tracker::{
    announce_bytes, announce_query, announced_peers, answers, connect_bytes, downloaded_count,
    due_tracker, has_port_left, has_tracker, named_by, parsed_url, step_for, tracker_views,
    trackers_with, word_of, ANNOUNCE_HEADER_LENGTH, AnnounceRequest, AnnounceRound, AnnounceStep,
    CLIENT_PORT_BASE, TrackerError, TrackerManager, TrackerStateView, TrackerUrlView,
};
use crate::utils::percent_encoding;
use crate::wire::{be16, be32, be64};

verus! {

// ---------------------------------------------------------------------------------------
// By UDP

/// A signed number in four bytes.
pub open spec fn signed_at(bytes: Seq<u8>, at: int) -> int {
    if word_at(bytes, at) < 2147483648 {
        word_at(bytes, at)
    } else {
        word_at(bytes, at) - 4294967296
    }
}

proof fn lemma_part_words(message: Seq<u8>, at: int, part: Seq<u8>)
    requires
        0 <= at,
        at + part.len() <= message.len(),
        message.subrange(at, at + part.len()) == part,
    ensures
        part.len() == 2 ==> short_at(message, at) == short_at(part, 0),
        part.len() == 4 ==> word_at(message, at) == word_at(part, 0),
        part.len() == 8 ==> long_at(message, at) == long_at(part, 0),
{
    assert forall|i: int| 0 <= i < part.len() implies #[trigger] part[i] == message[at + i] by {
        assert(message.subrange(at, at + part.len())[i] == message[at + i]);
    }
    if part.len() == 2 {
        assert(part[0] == message[at] && part[1] == message[at + 1]);
    }
    if part.len() == 4 {
        assert(part[0] == message[at] && part[1] == message[at + 1] && part[2] == message[at + 2]
            && part[3] == message[at + 3]);
    }
    if part.len() == 8 {
        assert(part[0] == message[at] && part[1] == message[at + 1] && part[2] == message[at + 2]
            && part[3] == message[at + 3] && part[4] == message[at + 4] && part[5] == message[at
            + 5] && part[6] == message[at + 6] && part[7] == message[at + 7]);
    }
}

proof fn lemma_signed(n: int)
    requires
        -2147483648 <= n < 2147483648,
    ensures
        0 <= word_of(n) < 4294967296,
        signed_at(be32(word_of(n)), 0) == n,
{
    words_are_big_endian(word_of(n));
}

/// A connection is asked for in sixteen bytes: the number of the protocol, the action zero and
/// the transaction.
pub proof fn connections_are_asked_for(transaction_id: i32)
    ensures
        ({
            let message = connect_bytes(transaction_id);
            &&& message.len() == 16
            &&& long_at(message, 0) == 0x41727101980
            &&& word_at(message, 8) == 0
            &&& signed_at(message, 12) == transaction_id
        }),
{
    let message = connect_bytes(transaction_id);
    let word = word_of(transaction_id as int);
    longs_are_big_endian(0x41727101980);
    words_are_big_endian(0);
    lemma_signed(transaction_id as int);
    words_are_big_endian(word);
    assert(message.subrange(0, 8) =~= be64(0x41727101980));
    assert(message.subrange(8, 12) =~= be32(0));
    assert(message.subrange(12, 16) =~= be32(word));
    lemma_part_words(message, 0, be64(0x41727101980));
    lemma_part_words(message, 8, be32(0));
    lemma_part_words(message, 12, be32(word));
}

/// An announcement has 98 bytes, and says by their places what is to be announced: the
/// connection, the action one, the transaction, the torrent, the client, what is downloaded,
/// what is left, what is uploaded, the event, the address, the key, how many peers are wanted,
/// and the port.
pub proof fn announcements_are_laid_out(
    connection_id: u64,
    transaction_id: i32,
    hash: Seq<u8>,
    client_id: Seq<u8>,
    request: AnnounceRequest,
    client_port: u16,
)
    requires
        hash.len() == 20,
        client_id.len() == 20,
    ensures
        ({
            let message = announce_bytes(
                connection_id,
                transaction_id,
                hash,
                client_id,
                request,
                client_port,
            );
            &&& message.len() == 98
            &&& long_at(message, 0) == connection_id
            &&& word_at(message, 8) == 1
            &&& signed_at(message, 12) == transaction_id
            &&& message.subrange(16, 36) == hash
            &&& message.subrange(36, 56) == client_id
            &&& long_at(message, 56) == request.downloaded
            &&& long_at(message, 64) == request.left
            &&& long_at(message, 72) == request.uploaded
            &&& word_at(message, 80) == request.event
            &&& word_at(message, 84) == request.ip_address
            &&& word_at(message, 88) == request.key
            &&& signed_at(message, 92) == request.num_want
            &&& short_at(message, 96) == client_port
        }),
{
    let message = announce_bytes(
        connection_id,
        transaction_id,
        hash,
        client_id,
        request,
        client_port,
    );
    let transaction = be32(word_of(transaction_id as int));
    let wanted = be32(word_of(request.num_want as int));
    longs_are_big_endian(connection_id as int);
    words_are_big_endian(1);
    lemma_signed(transaction_id as int);
    words_are_big_endian(word_of(transaction_id as int));
    longs_are_big_endian(request.downloaded as int);
    longs_are_big_endian(request.left as int);
    longs_are_big_endian(request.uploaded as int);
    words_are_big_endian(request.event as int);
    words_are_big_endian(request.ip_address as int);
    words_are_big_endian(request.key as int);
    lemma_signed(request.num_want as int);
    words_are_big_endian(word_of(request.num_want as int));
    shorts_are_big_endian(client_port as int);
    assert(message.subrange(0, 8) =~= be64(connection_id as int));
    assert(message.subrange(8, 12) =~= be32(1));
    assert(message.subrange(12, 16) =~= transaction);
    assert(message.subrange(16, 36) =~= hash);
    assert(message.subrange(36, 56) =~= client_id);
    assert(message.subrange(56, 64) =~= be64(request.downloaded as int));
    assert(message.subrange(64, 72) =~= be64(request.left as int));
    assert(message.subrange(72, 80) =~= be64(request.uploaded as int));
    assert(message.subrange(80, 84) =~= be32(request.event as int));
    assert(message.subrange(84, 88) =~= be32(request.ip_address as int));
    assert(message.subrange(88, 92) =~= be32(request.key as int));
    assert(message.subrange(92, 96) =~= wanted);
    assert(message.subrange(96, 98) =~= be16(client_port as int));
    lemma_part_words(message, 0, be64(connection_id as int));
    lemma_part_words(message, 8, be32(1));
    lemma_part_words(message, 12, transaction);
    lemma_part_words(message, 56, be64(request.downloaded as int));
    lemma_part_words(message, 64, be64(request.left as int));
    lemma_part_words(message, 72, be64(request.uploaded as int));
    lemma_part_words(message, 80, be32(request.event as int));
    lemma_part_words(message, 84, be32(request.ip_address as int));
    lemma_part_words(message, 88, be32(request.key as int));
    lemma_part_words(message, 92, wanted);
    lemma_part_words(message, 96, be16(client_port as int));
}

/// A response belongs to a request where it has its action and its transaction.
pub proof fn responses_repeat_action_and_transaction(
    response: Seq<u8>,
    action: int,
    transaction_id: i32,
)
    requires
        response.len() >= 8,
    ensures
        answers(response, action, transaction_id) <==> word_at(response, 0) == action && signed_at(
            response,
            4,
        ) == transaction_id,
{
}

/// The address in four bytes, in decimal numbers with dots between them.
pub proof fn addresses_are_dotted(a: u8, b: u8, c: u8, d: u8)
    ensures
        dotted(a, b, c, d) == decimal(a as nat) + seq!['.'] + decimal(b as nat) + seq!['.']
            + decimal(c as nat) + seq!['.'] + decimal(d as nat),
{
}

/// A peer in six bytes: the four of its address, and the two of its port.
pub open spec fn is_peer_at(peer: (Seq<char>, int), bytes: Seq<u8>, at: int) -> bool {
    &&& peer.0 == decimal(bytes[at] as nat) + seq!['.'] + decimal(bytes[at + 1] as nat)
        + seq!['.'] + decimal(bytes[at + 2] as nat) + seq!['.'] + decimal(bytes[at + 3] as nat)
    &&& peer.1 == short_at(bytes, at + 4)
}

/// A response by UDP names a peer in each six bytes behind its first twenty, in order, and a
/// rest of fewer than six bytes names none.
pub proof fn responses_name_their_peers(response: Seq<u8>)
    requires
        response.len() >= 20,
    ensures
        ANNOUNCE_HEADER_LENGTH == 20,
        6 * announced_peers(response).len() <= response.len() - 20 < 6 * announced_peers(
            response,
        ).len() + 6,
        forall|i: int|
            0 <= i < announced_peers(response).len() ==> is_peer_at(
                (
                    (#[trigger] announced_peers(response)[i]).0,
                    announced_peers(response)[i].1 as int,
                ),
                response,
                20 + 6 * i,
            ),
{
    let rest = response.skip(20);
    let named = announced_peers(response);
    assert(rest.len() == response.len() - 20);
    assert forall|i: int| 0 <= i < named.len() implies is_peer_at(
        ((#[trigger] named[i]).0, named[i].1 as int),
        response,
        20 + 6 * i,
    ) by {
        let at = 6 * i;
        assert(named[i].0 == compact_peer(rest, at).ip);
        assert(rest[at] == response[20 + at] && rest[at + 1] == response[20 + at + 1] && rest[at
            + 2] == response[20 + at + 2] && rest[at + 3] == response[20 + at + 3] && rest[at + 4]
            == response[20 + at + 4] && rest[at + 5] == response[20 + at + 5]);
    }
}

/// Peers are named by their address and port, one for one and in order.
pub proof fn peers_are_named_one_for_one(peers: Seq<PeerInfoView>)
    requires
        forall|i: int| 0 <= i < peers.len() ==> 0 <= (#[trigger] peers[i]).port < 65536,
    ensures
        named_by(peers).len() == peers.len(),
        forall|i: int|
            0 <= i < peers.len() ==> {
                let named = #[trigger] named_by(peers)[i];
                named.0 == peers[i].ip && named.1 == peers[i].port
            },
{
}

// ---------------------------------------------------------------------------------------
// By HTTP

/// A response that says how long to wait and names its peers in a byte string.
pub open spec fn compact_response(interval: nat, peers: Seq<u8>) -> Seq<TokenView> {
    seq![TokenView::Dict, key("interval"), number_token(interval), key("peers"),
        TokenView::Bytes(peers), TokenView::End]
}

/// A peer that is listed: its address and its port, where they are there.
pub struct ListedPeer {
    pub ip: Option<Seq<char>>,
    pub port: Option<u16>,
}

pub open spec fn ip_entry(ip: Option<Seq<char>>) -> Seq<TokenView> {
    match ip {
        Some(ip) => seq![key("ip"), text_token(ip)],
        None => seq![],
    }
}

pub open spec fn port_entry(port: Option<u16>) -> Seq<TokenView> {
    match port {
        Some(port) => seq![key("port"), number_token(port as nat)],
        None => seq![],
    }
}

pub open spec fn peer_tokens(peer: ListedPeer) -> Seq<TokenView> {
    seq![TokenView::Dict] + ip_entry(peer.ip) + port_entry(peer.port) + seq![TokenView::End]
}

pub open spec fn all_peer_tokens(peers: Seq<ListedPeer>) -> Seq<TokenView>
    decreases peers.len(),
{
    if peers.len() == 0 {
        seq![]
    } else {
        all_peer_tokens(peers.drop_last()) + peer_tokens(peers.last())
    }
}

/// A response that names its peers in a list.
pub open spec fn list_response(interval: nat, peers: Seq<ListedPeer>) -> Seq<TokenView> {
    seq![TokenView::Dict, key("interval"), number_token(interval), key("peers"),
        TokenView::List] + all_peer_tokens(peers) + seq![TokenView::End, TokenView::End]
}

proof fn lemma_interval_is_no_peers()
    ensures
        encode_utf8("interval"@) != encode_utf8("peers"@),
{
    reveal_strlit("interval");
    reveal_strlit("peers");
    encode_utf8_decode_utf8("interval"@);
    encode_utf8_decode_utf8("peers"@);
}

/// The peers of a byte string are one in each six bytes, in order, and none where bytes are
/// missing.
pub proof fn compact_responses_are_read_as_written(interval: nat, peers: Seq<u8>)
    ensures
        peers_in(compact_response(interval, peers)) is Some <==> peers.len() % 6 == 0,
        peers_in(compact_response(interval, peers)) matches Some(read) ==> {
            &&& 6 * read.len() == peers.len()
            &&& forall|i: int|
                0 <= i < read.len() ==> is_peer_at(
                    ((#[trigger] read[i]).ip, read[i].port),
                    peers,
                    6 * i,
                )
        },
{
    let t = compact_response(interval, peers);
    lemma_interval_is_no_peers();
    assert(entry_at(t, 1));
    assert(peers_entry(t, 1, seq![]) == Some(Seq::<PeerInfoView>::empty()));
    assert(value_end(t, 2) == 3);
    assert(peers_from(t, 1, seq![]) == peers_from(t, 3, seq![]));
    assert(entry_at(t, 3));
    assert(value_end(t, 4) == 5);
    if peers.len() % 6 == 0 {
        let read = compact_peers(peers);
        assert(Seq::<PeerInfoView>::empty() + read =~= read);
        assert(peers_entry(t, 3, seq![]) == Some(read));
        assert(peers_from(t, 5, read) == Some(read));
        assert(peers_from(t, 3, seq![]) == Some(read));
        assert forall|i: int| 0 <= i < read.len() implies is_peer_at(
            ((#[trigger] read[i]).ip, read[i].port),
            peers,
            6 * i,
        ) by {
            assert(read[i] == compact_peer(peers, 6 * i));
        }
    } else {
        assert(peers_entry(t, 3, seq![]) is None);
    }
}

/// The peers before the first that lacks its address or its port.
spec fn all_whole(peers: Seq<ListedPeer>) -> bool {
    forall|i: int|
        0 <= i < peers.len() ==> (#[trigger] peers[i]).ip is Some && peers[i].port is Some
}

proof fn lemma_peer_read(t: Seq<TokenView>, p: int, peer: ListedPeer)
    requires
        0 <= p,
        p + peer_tokens(peer).len() <= t.len(),
        t.subrange(p, p + peer_tokens(peer).len()) == peer_tokens(peer),
    ensures
        t[p] is Dict,
        peer_from(t, p + 1, None, None) == Some((peer.ip, peer.port)),
        value_end(t, p) == p + peer_tokens(peer).len(),
{
    let form = peer_tokens(peer);
    assert forall|i: int| p <= i < p + form.len() implies #[trigger] t[i] == form[i - p] by {
        assert(t.subrange(p, p + form.len())[i - p] == t[i]);
    }
    assert(t[p] == form[0]);
    let q = p + 1 + ip_entry(peer.ip).len();
    let r = q + port_entry(peer.port).len();
    assert(t[r] == form[r - p]);
    assert(peer_from(t, r, peer.ip, peer.port) == Some((peer.ip, peer.port)));
    assert(peer_from(t, q, peer.ip, None) == Some((peer.ip, peer.port))) by {
        if let Some(port) = peer.port {
            assert(t[q] == form[q - p] && t[q + 1] == form[q - p + 1]);
            decimals_denote_their_number(port as nat);
            super::metainfo::lemma_number_token(t, q + 1, port as nat, u16::MAX as nat);
        }
    }
    assert(peer_from(t, p + 1, None, None) == Some((peer.ip, peer.port))) by {
        if let Some(ip) = peer.ip {
            assert(t[p + 1] == form[1] && t[p + 2] == form[2]);
            encode_utf8_valid_utf8(ip);
            encode_utf8_decode_utf8(ip);
        }
    }
    assert(close_end(t, r, 1) == r + 1) by {
        reveal_with_fuel(close_end, 2);
    }
    assert(close_end(t, q, 1) == close_end(t, r, 1)) by {
        if peer.port is Some {
            assert(t[q] == form[q - p] && t[q + 1] == form[q - p + 1]);
            reveal_with_fuel(close_end, 3);
        }
    }
    assert(close_end(t, p + 1, 1) == close_end(t, q, 1)) by {
        if peer.ip is Some {
            assert(t[p + 1] == form[1] && t[p + 2] == form[2]);
            reveal_with_fuel(close_end, 3);
        }
    }
}

proof fn lemma_peers_read(
    t: Seq<TokenView>,
    start: int,
    peers: Seq<ListedPeer>,
    n: int,
    rest: Seq<ListedPeer>,
    read: Seq<PeerInfoView>,
)
    requires
        0 <= start,
        0 <= n <= peers.len(),
        rest == peers.skip(n),
        start + all_peer_tokens(peers).len() < t.len(),
        t.subrange(start, start + all_peer_tokens(peers).len()) == all_peer_tokens(peers),
        t[start + all_peer_tokens(peers).len()] is End,
    ensures
        ({
            let found = listed_peers_from(
                t,
                start + all_peer_tokens(peers.take(n)).len(),
                read,
            );
            &&& found is Some <==> all_whole(rest)
            &&& found is Some ==> found->0 == read + Seq::new(
                rest.len(),
                |i: int| PeerInfoView { ip: rest[i].ip->0, port: rest[i].port->0 as int },
            )
        }),
    decreases peers.len() - n,
{
    let p = start + all_peer_tokens(peers.take(n)).len();
    if n == peers.len() {
        assert(peers.take(n) =~= peers);
        assert(read + Seq::new(
            rest.len(),
            |i: int| PeerInfoView { ip: rest[i].ip->0, port: rest[i].port->0 as int },
        ) =~= read);
    } else {
        let peer = peers[n];
        let one_more = peers.take(n + 1);
        assert(one_more.drop_last() =~= peers.take(n));
        assert(one_more.last() == peer);
        lemma_prefix_of_tokens(peers, n + 1);
        let all = all_peer_tokens(peers);
        let before = all_peer_tokens(peers.take(n));
        let with = all_peer_tokens(one_more);
        assert(with == before + peer_tokens(peer));
        assert(t.subrange(p, p + peer_tokens(peer).len()) =~= peer_tokens(peer)) by {
            assert forall|i: int| 0 <= i < peer_tokens(peer).len() implies t[p + i]
                == #[trigger] peer_tokens(peer)[i] by {
                assert(t.subrange(start, start + all.len())[before.len() + i] == t[p + i]);
                assert(all.take(with.len() as int)[before.len() + i] == with[before.len() + i]);
            }
        }
        lemma_peer_read(t, p, peer);
        let fewer = peers.skip(n + 1);
        assert(rest[0] == peer);
        assert(fewer =~= rest.skip(1));
        if peer.ip is Some && peer.port is Some {
            let next = read.push(PeerInfoView { ip: peer.ip->0, port: peer.port->0 as int });
            lemma_peers_read(t, start, peers, n + 1, fewer, next);
            assert(all_whole(fewer) == all_whole(rest)) by {
                if all_whole(fewer) {
                    assert forall|i: int| 0 <= i < rest.len() implies (#[trigger] rest[i]).ip
                        is Some && rest[i].port is Some by {
                        if i > 0 {
                            assert(fewer[i - 1] == rest[i]);
                        }
                    }
                }
                if all_whole(rest) {
                    assert forall|i: int| 0 <= i < fewer.len() implies (#[trigger] fewer[i]).ip
                        is Some && fewer[i].port is Some by {
                        assert(fewer[i] == rest[i + 1]);
                    }
                }
            }
            assert(next + Seq::new(
                fewer.len(),
                |i: int| PeerInfoView { ip: fewer[i].ip->0, port: fewer[i].port->0 as int },
            ) =~= read + Seq::new(
                rest.len(),
                |i: int| PeerInfoView { ip: rest[i].ip->0, port: rest[i].port->0 as int },
            ));
        }
    }
}

proof fn lemma_prefix_of_tokens(peers: Seq<ListedPeer>, n: int)
    requires
        0 <= n <= peers.len(),
    ensures
        all_peer_tokens(peers.take(n)).len() <= all_peer_tokens(peers).len(),
        all_peer_tokens(peers).take(all_peer_tokens(peers.take(n)).len() as int)
            == all_peer_tokens(peers.take(n)),
    decreases peers.len(),
{
    if n == peers.len() {
        assert(peers.take(n) =~= peers);
        assert(all_peer_tokens(peers).take(all_peer_tokens(peers).len() as int)
            =~= all_peer_tokens(peers));
    } else {
        let fewer = peers.drop_last();
        lemma_prefix_of_tokens(fewer, n);
        assert(fewer.take(n) =~= peers.take(n));
        let part = all_peer_tokens(peers.take(n));
        assert(all_peer_tokens(peers).take(part.len() as int) =~= all_peer_tokens(fewer).take(
            part.len() as int,
        ));
    }
}

/// The peers of a list are read as they are listed, one for one and in order, and none where
/// one of them lacks its address or its port.
pub proof fn listed_responses_are_read_as_written(interval: nat, peers: Seq<ListedPeer>)
    ensures
        peers_in(list_response(interval, peers)) is Some <==> forall|i: int|
            0 <= i < peers.len() ==> (#[trigger] peers[i]).ip is Some && peers[i].port is Some,
        peers_in(list_response(interval, peers)) matches Some(read) ==> {
            &&& read.len() == peers.len()
            &&& forall|i: int|
                0 <= i < peers.len() ==> (#[trigger] read[i]).ip == peers[i].ip->0
                    && read[i].port == peers[i].port->0
        },
{
    let t = list_response(interval, peers);
    let head = seq![TokenView::Dict, key("interval"), number_token(interval), key("peers"),
        TokenView::List];
    let all = all_peer_tokens(peers);
    let end = 5 + all.len() as int;
    lemma_interval_is_no_peers();
    assert(t[0] == head[0] && t[1] == head[1] && t[2] == head[2] && t[3] == head[3] && t[4]
        == head[4]);
    assert(t[end] is End && t[end + 1] is End);
    assert(t.subrange(5, end) =~= all);
    assert(entry_at(t, 1));
    assert(peers_entry(t, 1, seq![]) == Some(Seq::<PeerInfoView>::empty()));
    assert(value_end(t, 2) == 3);
    assert(peers_from(t, 1, seq![]) == peers_from(t, 3, seq![]));
    assert(entry_at(t, 3));
    assert(peers.take(0) =~= seq![]);
    assert(peers.skip(0) =~= peers);
    lemma_peers_read(t, 5, peers, 0, peers, seq![]);
    lemma_peers_passed(t, 5, peers);
    assert(value_end(t, 4) == end + 1);
    let found = listed_peers_from(t, 5, seq![]);
    assert(peers_entry(t, 3, seq![]) == found);
    if found is Some {
        assert(peers_from(t, end + 1, found->0) == Some(found->0));
        assert(peers_from(t, 3, seq![]) == Some(found->0));
    }
}

proof fn lemma_peers_passed(t: Seq<TokenView>, p: int, peers: Seq<ListedPeer>)
    requires
        0 <= p,
        p + all_peer_tokens(peers).len() < t.len(),
        t.subrange(p, p + all_peer_tokens(peers).len()) == all_peer_tokens(peers),
        t[p + all_peer_tokens(peers).len()] is End,
    ensures
        close_end(t, p, 1) == p + all_peer_tokens(peers).len() + 1,
{
    let end = p + all_peer_tokens(peers).len();
    assert(close_end(t, end, 1) == end + 1) by {
        reveal_with_fuel(close_end, 2);
    }
    lemma_peers_passed_to(t, p, peers, peers.len() as int);
    assert(peers.take(peers.len() as int) =~= peers);
}

proof fn lemma_peers_passed_to(t: Seq<TokenView>, p: int, peers: Seq<ListedPeer>, n: int)
    requires
        0 <= p,
        0 <= n <= peers.len(),
        p + all_peer_tokens(peers).len() < t.len(),
        t.subrange(p, p + all_peer_tokens(peers).len()) == all_peer_tokens(peers),
    ensures
        close_end(t, p, 1) == close_end(t, p + all_peer_tokens(peers.take(n)).len(), 1),
    decreases n,
{
    if n > 0 {
        lemma_peers_passed_to(t, p, peers, n - 1);
        let peer = peers[n - 1];
        let one_more = peers.take(n);
        assert(one_more.drop_last() =~= peers.take(n - 1));
        assert(one_more.last() == peer);
        lemma_prefix_of_tokens(peers, n);
        let all = all_peer_tokens(peers);
        let before = all_peer_tokens(peers.take(n - 1));
        let with = all_peer_tokens(one_more);
        assert(with == before + peer_tokens(peer));
        let q = p + before.len();
        let form = peer_tokens(peer);
        assert forall|i: int| q <= i < q + form.len() implies #[trigger] t[i] == form[i - q] by {
            assert(t.subrange(p, p + all.len())[i - p] == t[i]);
            assert(all.take(with.len() as int)[i - p] == with[i - p]);
        }
        lemma_peer_passed(t, q, peer);
    } else {
        assert(peers.take(0) =~= seq![]);
    }
}

proof fn lemma_peer_passed(t: Seq<TokenView>, p: int, peer: ListedPeer)
    requires
        0 <= p,
        p + peer_tokens(peer).len() <= t.len(),
        forall|i: int|
            p <= i < p + peer_tokens(peer).len() ==> #[trigger] t[i] == peer_tokens(peer)[i - p],
    ensures
        close_end(t, p, 1) == close_end(t, p + peer_tokens(peer).len(), 1),
{
    let form = peer_tokens(peer);
    let q = p + 1 + ip_entry(peer.ip).len();
    let r = q + port_entry(peer.port).len();
    assert(t[p] == form[0] && t[r] == form[r - p]);
    assert(close_end(t, r, 2) == close_end(t, r + 1, 1));
    assert(close_end(t, q, 2) == close_end(t, r, 2)) by {
        if peer.port is Some {
            assert(t[q] == form[q - p] && t[q + 1] == form[q - p + 1]);
            reveal_with_fuel(close_end, 3);
        }
    }
    assert(close_end(t, p + 1, 2) == close_end(t, q, 2)) by {
        if peer.ip is Some {
            assert(t[p + 1] == form[1] && t[p + 2] == form[2]);
            reveal_with_fuel(close_end, 3);
        }
    }
}

/// What a response says under another name names no peers, before the peers or after them,
/// and neither does a number.
pub proof fn other_entries_name_no_peers(name: Seq<u8>, value: TokenView, peers: Seq<u8>)
    requires
        name != encode_utf8("peers"@),
        value is Bytes || value is Integer,
    ensures
        ({
            let own = seq![key("peers"), TokenView::Bytes(peers)];
            let other = seq![TokenView::Bytes(name), value];
            let start = seq![TokenView::Dict];
            let end = seq![TokenView::End];
            &&& peers_in(start + other + own + end) == peers_in(start + own + end)
            &&& peers_in(start + own + other + end) == peers_in(start + own + end)
        }),
        value is Integer ==> peers_in(
            seq![TokenView::Dict, key("peers"), value, TokenView::End],
        ) == Some(Seq::<PeerInfoView>::empty()),
{
    let own = seq![key("peers"), TokenView::Bytes(peers)];
    let other = seq![TokenView::Bytes(name), value];
    let start = seq![TokenView::Dict];
    let end = seq![TokenView::End];
    let none = Seq::<PeerInfoView>::empty();
    let read = compact_peers(peers);
    let plain = start + own + end;
    assert(entry_at(plain, 1));
    assert(value_end(plain, 2) == 3);
    assert(peers_from(plain, 3, none + read) == Some(none + read));
    let before = start + other + own + end;
    assert(entry_at(before, 1));
    assert(value_end(before, 2) == 3);
    assert(peers_entry(before, 1, none) == Some(none));
    assert(peers_from(before, 1, none) == peers_from(before, 3, none));
    assert(entry_at(before, 3));
    assert(value_end(before, 4) == 5);
    assert(peers_entry(before, 3, none) == peers_entry(plain, 1, none));
    assert(peers_from(before, 5, none + read) == Some(none + read));
    let after = start + own + other + end;
    assert(entry_at(after, 1));
    assert(value_end(after, 2) == 3);
    assert(peers_entry(after, 1, none) == peers_entry(plain, 1, none));
    assert(entry_at(after, 3));
    assert(value_end(after, 4) == 5);
    assert(peers_entry(after, 3, none + read) == Some(none + read));
    assert(peers_from(after, 5, none + read) == Some(none + read));
    assert(peers_from(after, 3, none + read) == Some(none + read));
    let number = seq![TokenView::Dict, key("peers"), value, TokenView::End];
    if value is Integer {
        assert(entry_at(number, 1));
        assert(value_end(number, 2) == 3);
        assert(peers_entry(number, 1, none) == Some(none));
        assert(peers_from(number, 3, none) == Some(none));
        assert(peers_from(number, 1, none) == Some(none));
    }
}

/// A response that is no dictionary names no peers.
pub proof fn other_responses_name_no_peers(t: Seq<TokenView>)
    requires
        t.len() == 0 || !(t[0] is Dict),
    ensures
        peers_in(t) == Some(Seq::<PeerInfoView>::empty()),
{
    assert(Seq::<PeerInfoView>::empty() =~= seq![]);
}

/// The query of an announcement is the info hash and the id of the client, each encoded, under
/// their names.
pub proof fn queries_are_laid_out(hash: Seq<u8>, client_id: Seq<u8>)
    ensures
        announce_query(hash, client_id) == "info_hash="@ + percent_encoding(hash) + "&peer_id="@
            + percent_encoding(client_id),
{
}

// ---------------------------------------------------------------------------------------
// Which trackers are asked, and when

/// What is on disk and what is not make up all of the torrent, and each block counts once.
pub proof fn announced_blocks_are_those_on_disk(t: TorrentView)
    ensures
        downloaded_count(t) + number_missing(t.blocks, t.blocks.len() as int) == t.blocks.len(),
{
    lemma_downloaded(t, t.blocks.len() as int);
}

proof fn lemma_downloaded(t: TorrentView, n: int)
    requires
        0 <= n <= t.blocks.len(),
    ensures
        chosen(n, |i: int| is_persisted(t.blocks[i].data_status)).len() + number_missing(
            t.blocks,
            n,
        ) == n,
    decreases n,
{
    if n > 0 {
        lemma_downloaded(t, n - 1);
    }
}

/// The tracker was not announced to within the last minute.
pub open spec fn may_be_asked(tracker: TrackerStateView, now: u128) -> bool {
    match tracker.last_announced_at {
        None => true,
        Some(at) => now >= at && now - at >= 60000000000,
    }
}

pub open spec fn is_asked_later(tracker: TrackerStateView, now: u128) -> bool {
    tracker.last_announced_at matches Some(at) && now < at
}

/// The first tracker in turn is asked that was not asked within the last minute. Where the
/// clock is behind an announcement that comes before it, that is an error, and where there is
/// no such tracker nobody is asked.
pub proof fn the_first_tracker_that_may_be_is_asked(
    trackers: Seq<TrackerStateView>,
    start: int,
    now: u128,
)
    requires
        0 <= start <= trackers.len(),
    ensures
        due_tracker(trackers, start, now) matches Ok(Some(i)) ==> {
            &&& start <= i < trackers.len()
            &&& may_be_asked(trackers[i], now)
            &&& forall|j: int|
                start <= j < i ==> !may_be_asked(#[trigger] trackers[j], now) && !is_asked_later(
                    trackers[j],
                    now,
                )
        },
        due_tracker(trackers, start, now) matches Ok(None) ==> forall|j: int|
            start <= j < trackers.len() ==> !may_be_asked(#[trigger] trackers[j], now)
                && !is_asked_later(trackers[j], now),
        due_tracker(trackers, start, now) matches Err(error) ==> error
            == TrackerError::ClockTurnedBack && exists|i: int|
            start <= i < trackers.len() && is_asked_later(#[trigger] trackers[i], now)
                && forall|j: int|
                start <= j < i ==> !may_be_asked(#[trigger] trackers[j], now) && !is_asked_later(
                    trackers[j],
                    now,
                ),
    decreases trackers.len() - start,
{
    if start < trackers.len() {
        let first = trackers[start];
        if !may_be_asked(first, now) && !is_asked_later(first, now) {
            the_first_tracker_that_may_be_is_asked(trackers, start + 1, now);
            if due_tracker(trackers, start, now) is Err {
                let i = choose|i: int|
                    start + 1 <= i < trackers.len() && is_asked_later(#[trigger] trackers[i], now)
                        && forall|j: int|
                        start + 1 <= j < i ==> !may_be_asked(#[trigger] trackers[j], now)
                            && !is_asked_later(trackers[j], now);
                assert forall|j: int| start <= j < i implies !may_be_asked(
                    #[trigger] trackers[j],
                    now,
                ) && !is_asked_later(trackers[j], now) by {
                    if j == start {
                        assert(trackers[j] == first);
                    }
                }
                assert(is_asked_later(trackers[i], now));
            }
        } else if is_asked_later(first, now) {
            assert(is_asked_later(trackers[start], now));
        }
    }
}

/// Trackers with the schemes `http` and `https` are asked by HTTP, those with `udp` by UDP, and
/// the others not at all.
pub proof fn trackers_are_asked_by_their_scheme(url: TrackerUrlView, i: usize, port: u16)
    ensures
        url.scheme == "http"@ ==> step_for(url, i as int, port) == AnnounceStep::Http(i, port),
        url.scheme == "https"@ ==> step_for(url, i as int, port) == AnnounceStep::Http(i, port),
        url.scheme == "udp"@ ==> step_for(url, i as int, port) == AnnounceStep::Udp(i, port),
        url.scheme != "http"@ && url.scheme != "https"@ && url.scheme != "udp"@ ==> step_for(
            url,
            i as int,
            port,
        ) == AnnounceStep::Unsupported(i),
{
    reveal_strlit("http");
    reveal_strlit("https");
    reveal_strlit("udp");
    assert("udp"@.len() == 3 && "http"@.len() == 4 && "https"@.len() == 5);
}

/// A port is needed only where a tracker is asked, and the first one that is announced is
/// 22458.
pub proof fn ports_are_needed_where_a_tracker_is_asked(
    manager: TrackerManager,
    round: AnnounceRound,
    now: u128,
)
    ensures
        CLIENT_PORT_BASE == 22457,
        has_port_left(manager, round, now) <==> round.ended || manager.client_port_base < 65535
            || !(due_tracker(tracker_views(manager.trackers@), round.next_tracker as int, now)
            matches Ok(Some(_))),
{
}

/// Every text has to be a URL.
pub proof fn trackers_need_urls(urls: Seq<Seq<char>>)
    ensures
        trackers_with(urls) is Some <==> forall|i: int|
            0 <= i < urls.len() ==> parsed_url(#[trigger] urls[i]) is Some,
    decreases urls.len(),
{
    if urls.len() > 0 {
        let fewer = urls.drop_last();
        trackers_need_urls(fewer);
        assert(urls[urls.len() - 1] == urls.last());
        if trackers_with(urls) is Some {
            assert forall|i: int| 0 <= i < urls.len() implies parsed_url(
                #[trigger] urls[i],
            ) is Some by {
                if i < fewer.len() {
                    assert(fewer[i] == urls[i]);
                }
            }
        } else if parsed_url(urls.last()) is Some {
            let i = choose|i: int| 0 <= i < fewer.len() && parsed_url(#[trigger] fewer[i]) is None;
            assert(parsed_url(urls[i]) is None);
        } else {
            assert(parsed_url(urls[urls.len() - 1]) is None);
        }
    }
}

/// Each tracker is one of the URLs, and was not asked yet.
pub proof fn trackers_are_those_that_are_given(urls: Seq<Seq<char>>, k: int)
    requires
        trackers_with(urls) is Some,
        0 <= k < trackers_with(urls)->0.len(),
    ensures
        trackers_with(urls)->0[k].client_port is None,
        trackers_with(urls)->0[k].last_announced_at is None,
        exists|i: int|
            0 <= i < urls.len() && parsed_url(#[trigger] urls[i]) == Some(
                trackers_with(urls)->0[k].url,
            ),
    decreases urls.len(),
{
    let fewer = urls.drop_last();
    let before = trackers_with(fewer)->0;
    if k < before.len() {
        trackers_are_those_that_are_given(fewer, k);
        let i = choose|i: int|
            0 <= i < fewer.len() && parsed_url(#[trigger] fewer[i]) == Some(before[k].url);
        assert(parsed_url(urls[i]) == Some(before[k].url));
    } else {
        assert(parsed_url(urls[urls.len() - 1]) is Some);
    }
}

/// Each of the URLs is a tracker.
pub proof fn trackers_are_all_that_are_given(urls: Seq<Seq<char>>, i: int)
    requires
        trackers_with(urls) is Some,
        0 <= i < urls.len(),
    ensures
        exists|k: int|
            0 <= k < trackers_with(urls)->0.len() && (#[trigger] trackers_with(urls)->0[k]).url.text
                == parsed_url(urls[i])->0.text,
    decreases urls.len(),
{
    let fewer = urls.drop_last();
    let before = trackers_with(fewer)->0;
    let after = trackers_with(urls)->0;
    let url = parsed_url(urls.last())->0;
    if i < fewer.len() {
        trackers_are_all_that_are_given(fewer, i);
        let k = choose|k: int|
            0 <= k < before.len() && (#[trigger] before[k]).url.text == parsed_url(
                fewer[i],
            )->0.text;
        assert(after[k] == before[k]);
    } else if has_tracker(before, url.text) {
        let k = choose|k: int|
            0 <= k < before.len() && (#[trigger] before[k]).url.text == url.text;
        assert(after[k] == before[k]);
    } else {
        assert(after[after.len() - 1].url == url);
    }
}

/// A URL is one tracker, however often it is given.
pub proof fn trackers_are_kept_once_each(urls: Seq<Seq<char>>, j: int, k: int)
    requires
        trackers_with(urls) is Some,
        0 <= j < k < trackers_with(urls)->0.len(),
    ensures
        trackers_with(urls)->0[j].url.text != trackers_with(urls)->0[k].url.text,
    decreases urls.len(),
{
    let fewer = urls.drop_last();
    let before = trackers_with(fewer)->0;
    let after = trackers_with(urls)->0;
    assert(after[j] == before[j]);
    if k < before.len() {
        assert(after[k] == before[k]);
        trackers_are_kept_once_each(fewer, j, k);
    } else if before[j].url.text == after[k].url.text {
        assert(has_tracker(before, after[k].url.text));
    }
}

/// Trackers stand in the order in which they are first given: those of more URLs begin with
/// those of the first of them.
pub proof fn trackers_stand_as_they_are_given(urls: Seq<Seq<char>>, more: Seq<char>)
    requires
        trackers_with(urls.push(more)) is Some,
    ensures
        trackers_with(urls) is Some,
        trackers_with(urls)->0.is_prefix_of(trackers_with(urls.push(more))->0),
{
    assert(urls.push(more).drop_last() =~= urls);
}

} // verus!
