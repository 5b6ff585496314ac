//! What holds of torrent files and of tracker responses as a whole.

use vstd::prelude::*;
use vstd::utf8::*;

use super::span::{
    is_entry_from, is_only_entry, lemma_closed_is_live, lemma_entry_from, lemma_inner_value,
    lemma_part_entry, lemma_part_value, tokens_text_is_injective,
};
use super::token::{
    ascii, close_end, closes, entry_at, has_plain_numbers, key_at, lemma_value_end, live,
    value_end, TokenView,
};
use super::{
    compact_peer, compact_peers, completed, dotted, empty_draft, file_from, files_from,
    info_entry, info_from, info_text, listed_peers_from, metainfo_entry, metainfo_from,
    metainfo_in, number_at, path_from, peer_from, peers_entry, peers_from, peers_in, DraftView,
    FileInfoView, PeerInfoView, INFO_KEY, IP_KEY, PEERS_KEY, PORT_KEY,
};
use crate::path::joined;
use crate::text::{
    all_digit_bytes, all_digits, decimal, decimal_value, digits_value, is_digit, lemma_decimal,
};
use crate::utils::sha1_digest;

verus! {

// ---------------------------------------------------------------------------------------
// The info dictionary

/// Two drafts hold the same of the info dictionary.
pub open spec fn same_contents(a: DraftView, b: DraftView) -> bool {
    &&& a.name == b.name
    &&& a.length == b.length
    &&& a.files == b.files
    &&& a.piece_length == b.piece_length
    &&& a.hashes == b.hashes
}

proof fn lemma_part_path(t: Seq<TokenView>, start: int, end: int, q: int, path: Seq<char>)
    requires
        0 <= start <= end <= t.len(),
        0 <= q,
        closes(t, start + q, 1),
        close_end(t, start + q, 1) <= end,
    ensures
        path_from(t.subrange(start, end), q, path) == path_from(t, start + q, path),
    decreases t.len() - start - q,
{
    lemma_part_value(t, start, end, q);
    if t[start + q] is Bytes {
        let bytes = t[start + q]->Bytes_0;
        if valid_utf8(bytes) {
            lemma_part_path(t, start, end, q + 1, joined(path, decode_utf8(bytes)));
        }
    }
}

proof fn lemma_part_file(
    t: Seq<TokenView>,
    start: int,
    end: int,
    q: int,
    path: Option<Seq<char>>,
    length: Option<u64>,
)
    requires
        0 <= start <= end <= t.len(),
        0 <= q,
        closes(t, start + q, 1),
        close_end(t, start + q, 1) <= end,
    ensures
        file_from(t.subrange(start, end), q, path, length) == file_from(
            t,
            start + q,
            path,
            length,
        ),
    decreases t.len() - start - q,
{
    lemma_part_entry(t, start, end, q);
    if entry_at(t, start + q) {
        let next = value_end(t, start + q + 1);
        if t[start + q + 1] is List {
            lemma_part_path(t, start, end, q + 2, seq![]);
            if let Some(found) = path_from(t, start + q + 2, seq![]) {
                lemma_part_file(t, start, end, next - start, Some(found), length);
            }
        }
        if let Some(found) = number_at(t, start + q + 1, u64::MAX as nat) {
            lemma_part_file(t, start, end, next - start, path, Some(found as u64));
        }
        lemma_part_file(t, start, end, next - start, path, length);
    }
}

proof fn lemma_part_files(
    t: Seq<TokenView>,
    start: int,
    end: int,
    q: int,
    files: Seq<FileInfoView>,
)
    requires
        0 <= start <= end <= t.len(),
        0 <= q,
        closes(t, start + q, 1),
        close_end(t, start + q, 1) <= end,
    ensures
        files_from(t.subrange(start, end), q, files) == files_from(t, start + q, files),
    decreases t.len() - start - q,
{
    lemma_part_value(t, start, end, q);
    if t[start + q] is Dict {
        lemma_inner_value(t, start + q);
        lemma_part_file(t, start, end, q + 1, None, None);
        let next = value_end(t, start + q) - start;
        if let Some((Some(relative_path), Some(length))) = file_from(t, start + q + 1, None, None) {
            lemma_part_files(
                t,
                start,
                end,
                next,
                files.push(FileInfoView { relative_path, length }),
            );
        }
        lemma_part_files(t, start, end, next, files);
    }
}

/// A closed info dictionary says the same of its torrent by itself as where it stands,
/// whatever is known of the tracker.
proof fn lemma_part_info(
    t: Seq<TokenView>,
    start: int,
    end: int,
    q: int,
    draft: DraftView,
    part_draft: DraftView,
)
    requires
        0 <= start <= end <= t.len(),
        0 <= q,
        closes(t, start + q, 1),
        close_end(t, start + q, 1) <= end,
        same_contents(draft, part_draft),
    ensures
        match (info_from(t, start + q, draft), info_from(t.subrange(start, end), q, part_draft)) {
            (Some(whole), Some(part)) => same_contents(whole, part),
            (None, None) => true,
            _ => false,
        },
    decreases t.len() - start - q,
{
    let part = t.subrange(start, end);
    lemma_part_entry(t, start, end, q);
    if entry_at(t, start + q) {
        let next = value_end(t, start + q + 1);
        if t[start + q + 1] is List {
            lemma_part_files(t, start, end, q + 2, draft.files);
        }
        if let (Some(whole), Some(other)) = (
            info_entry(t, start + q, draft),
            info_entry(part, q, part_draft),
        ) {
            lemma_part_info(t, start, end, next - start, whole, other);
        }
    }
}

/// Entries other than the info dictionary leave its contents alone.
proof fn lemma_metainfo_rest(t: Seq<TokenView>, p: int, draft: DraftView)
    requires
        0 <= p,
        forall|r: int| #[trigger] is_entry_from(t, p, r) ==> !key_at(t, r, INFO_KEY@),
        metainfo_from(t, p, draft) is Some,
    ensures
        same_contents(draft, metainfo_from(t, p, draft)->0),
        metainfo_from(t, p, draft)->0.info_hash == draft.info_hash,
    decreases t.len() - p,
{
    if entry_at(t, p) {
        lemma_value_end(t, p + 1);
        assert(is_entry_from(t, p, p));
        let next = value_end(t, p + 1);
        assert forall|r: int| #[trigger] is_entry_from(t, next, r) implies !key_at(
            t,
            r,
            INFO_KEY@,
        ) by {
            assert(is_entry_from(t, p, r));
        }
        lemma_metainfo_rest(t, next, metainfo_entry(t, p, draft)->0);
    }
}

/// What is read of the metainfo is what the one info dictionary says, and its hash.
proof fn lemma_metainfo_of_info(t: Seq<TokenView>, p: int, q: int, draft: DraftView) -> (before:
    DraftView)
    requires
        0 <= p,
        is_entry_from(t, p, q),
        key_at(t, q, INFO_KEY@),
        t[q + 1] is Dict,
        forall|r: int| #[trigger] is_entry_from(t, p, r) && key_at(t, r, INFO_KEY@) ==> r == q,
        metainfo_from(t, p, draft) is Some,
    ensures
        same_contents(draft, before),
        closes(t, q + 2, 1),
        info_from(t, q + 2, before) is Some,
        same_contents(info_from(t, q + 2, before)->0, metainfo_from(t, p, draft)->0),
        metainfo_from(t, p, draft)->0.info_hash == Some(sha1_digest(info_text(t, q + 1))),
    decreases t.len() - p,
{
    lemma_value_end(t, p + 1);
    let next = value_end(t, p + 1);
    let read = metainfo_entry(t, p, draft)->0;
    assert forall|r: int| #[trigger] is_entry_from(t, next, r) implies is_entry_from(t, p, r) by {}
    if p == q {
        assert forall|r: int| #[trigger] is_entry_from(t, next, r) implies !key_at(
            t,
            r,
            INFO_KEY@,
        ) by {
            lemma_entry_from(t, next, r);
        }
        lemma_metainfo_rest(t, next, read);
        draft
    } else {
        assert(is_entry_from(t, p, p));
        lemma_metainfo_of_info(t, next, q, read)
    }
}

/// Two torrent files with the same bytes of the info dictionary are of the same torrent: the
/// info hash, which is the digest of these bytes, the files, the directory and the pieces are
/// the same, whatever else the files hold.
pub proof fn the_info_dictionary_tells_the_torrent(
    a: Seq<TokenView>,
    a_info: int,
    b: Seq<TokenView>,
    b_info: int,
)
    requires
        has_plain_numbers(a),
        has_plain_numbers(b),
        metainfo_in(a) is Some,
        metainfo_in(b) is Some,
        is_only_entry(a, INFO_KEY@, a_info),
        is_only_entry(b, INFO_KEY@, b_info),
        a[a_info + 1] is Dict,
        b[b_info + 1] is Dict,
        info_text(a, a_info + 1) == info_text(b, b_info + 1),
    ensures
        metainfo_in(a)->0.info_hash == sha1_digest(info_text(a, a_info + 1)),
        metainfo_in(b)->0.info_hash == metainfo_in(a)->0.info_hash,
        metainfo_in(b)->0.files == metainfo_in(a)->0.files,
        metainfo_in(b)->0.directory == metainfo_in(a)->0.directory,
        metainfo_in(b)->0.pieces == metainfo_in(a)->0.pieces,
{
    let a_last = metainfo_from(a, 1, empty_draft())->0;
    let b_last = metainfo_from(b, 1, empty_draft())->0;
    lemma_entry_from(a, 1, a_info);
    lemma_entry_from(b, 1, b_info);
    let a_before = lemma_metainfo_of_info(a, 1, a_info, empty_draft());
    let b_before = lemma_metainfo_of_info(b, 1, b_info, empty_draft());
    let (a_start, b_start) = (a_info + 1, b_info + 1);
    let (a_end, b_end) = (close_end(a, a_info + 2, 1), close_end(b, b_info + 2, 1));
    lemma_closed_is_live(a, a_info + 2, 1);
    lemma_closed_is_live(b, b_info + 2, 1);
    let (a_part, b_part) = (a.subrange(a_start, a_end), b.subrange(b_start, b_end));
    assert forall|i: int| 0 <= i < a_part.len() implies (#[trigger] a_part[i]) !is Malformed by {
        assert(a_part[i] == a[a_start + i]);
        assert(live(a, a_start + i));
    }
    assert forall|i: int| 0 <= i < b_part.len() implies (#[trigger] b_part[i]) !is Malformed by {
        assert(b_part[i] == b[b_start + i]);
        assert(live(b, b_start + i));
    }
    tokens_text_is_injective(a_part, b_part);
    lemma_part_info(a, a_start, a_end, 1, a_before, empty_draft());
    lemma_part_info(b, b_start, b_end, 1, b_before, empty_draft());
    assert(same_contents(a_last, b_last));
    assert(completed(a_last)->0.pieces =~= completed(b_last)->0.pieces);
}

/// Where the info dictionary has a name and a length and lists no files, the torrent is the
/// one file of that name and length, and has no directory. Where it has a name and no length,
/// the torrent is the files that are listed, in the directory of that name.
pub proof fn the_name_is_a_file_or_the_directory(t: Seq<TokenView>, info: int)
    requires
        metainfo_in(t) is Some,
        is_only_entry(t, INFO_KEY@, info),
        t[info + 1] is Dict,
    ensures
        info_from(t, info + 2, empty_draft()) is Some,
        ({
            let said = info_from(t, info + 2, empty_draft())->0;
            let torrent = metainfo_in(t)->0;
            &&& said.name is Some && said.length is Some && said.files.len() == 0 ==> {
                &&& torrent.files == seq![
                    FileInfoView { relative_path: said.name->0, length: said.length->0 },
                ]
                &&& torrent.directory is None
            }
            &&& said.name is Some && said.length is None ==> {
                &&& torrent.files == said.files
                &&& torrent.directory == said.name
            }
        }),
{
    lemma_entry_from(t, 1, info);
    let before = lemma_metainfo_of_info(t, 1, info, empty_draft());
    let end = close_end(t, info + 2, 1);
    lemma_closed_is_live(t, info + 2, 1);
    lemma_part_info(t, info + 1, end, 1, before, empty_draft());
    lemma_part_info(t, info + 1, end, 1, empty_draft(), empty_draft());
    let said = info_from(t, info + 2, empty_draft())->0;
    if said.name is Some && said.length is Some && said.files.len() == 0 {
        assert(metainfo_in(t)->0.files =~= seq![
            FileInfoView { relative_path: said.name->0, length: said.length->0 },
        ]);
    }
}

// ---------------------------------------------------------------------------------------
// The peers of a response

/// An IPv4 address with a port.
pub struct Endpoint {
    pub a: u8,
    pub b: u8,
    pub c: u8,
    pub d: u8,
    pub port: u16,
}

/// Peers in the compact form: six bytes for each.
pub open spec fn compact_form(peers: Seq<Endpoint>) -> Seq<u8>
    decreases peers.len(),
{
    if peers.len() == 0 {
        seq![]
    } else {
        let last = peers.last();
        compact_form(peers.drop_last()) + seq![
            last.a,
            last.b,
            last.c,
            last.d,
            (last.port / 256) as u8,
            (last.port % 256) as u8,
        ]
    }
}

/// Peers in the form of a list: a dictionary with address and port for each.
pub open spec fn listed_form(peers: Seq<Endpoint>) -> Seq<TokenView>
    decreases peers.len(),
{
    if peers.len() == 0 {
        seq![]
    } else {
        let last = peers.last();
        listed_form(peers.drop_last()) + seq![
            TokenView::Dict,
            TokenView::Bytes(encode_utf8(IP_KEY@)),
            TokenView::Bytes(encode_utf8(dotted(last.a, last.b, last.c, last.d))),
            TokenView::Bytes(encode_utf8(PORT_KEY@)),
            TokenView::Integer(ascii(decimal(last.port as nat))),
            TokenView::End,
        ]
    }
}

pub open spec fn named_peer(peer: Endpoint) -> PeerInfoView {
    PeerInfoView { ip: dotted(peer.a, peer.b, peer.c, peer.d), port: peer.port as int }
}

/// The peers as they are named to the client, one for one.
pub open spec fn named_peers(peers: Seq<Endpoint>) -> Seq<PeerInfoView> {
    Seq::new(peers.len(), |i: int| named_peer(peers[i]))
}

proof fn lemma_compact_form(peers: Seq<Endpoint>)
    ensures
        compact_form(peers).len() == 6 * peers.len(),
        compact_peers(compact_form(peers)) == named_peers(peers),
    decreases peers.len(),
{
    let bytes = compact_form(peers);
    if peers.len() > 0 {
        let fewer = peers.drop_last();
        lemma_compact_form(fewer);
        let before = compact_peers(compact_form(fewer));
        assert forall|i: int| 0 <= i < peers.len() implies #[trigger] compact_peer(bytes, 6 * i)
            == named_peer(peers[i]) by {
            if i < fewer.len() {
                assert(before[i] == named_peers(fewer)[i]);
                assert(before[i] == compact_peer(compact_form(fewer), 6 * i));
            }
        }
        assert(compact_peers(bytes) =~= named_peers(peers));
    } else {
        assert(compact_peers(bytes) =~= named_peers(peers));
    }
}

proof fn lemma_listed_form(peers: Seq<Endpoint>, i: int)
    requires
        0 <= i < peers.len(),
    ensures
        listed_form(peers).len() == 6 * peers.len(),
        listed_form(peers)[6 * i] == TokenView::Dict,
        listed_form(peers)[6 * i + 1] == TokenView::Bytes(encode_utf8(IP_KEY@)),
        listed_form(peers)[6 * i + 2] == TokenView::Bytes(encode_utf8(named_peer(peers[i]).ip)),
        listed_form(peers)[6 * i + 3] == TokenView::Bytes(encode_utf8(PORT_KEY@)),
        listed_form(peers)[6 * i + 4] == TokenView::Integer(
            ascii(decimal(peers[i].port as nat)),
        ),
        listed_form(peers)[6 * i + 5] == TokenView::End,
    decreases peers.len(),
{
    let fewer = peers.drop_last();
    if i < fewer.len() {
        lemma_listed_form(fewer, i);
    } else if fewer.len() > 0 {
        lemma_listed_form(fewer, 0);
    }
}

proof fn lemma_ascii_value(text: Seq<char>)
    requires
        all_digits(text),
    ensures
        all_digit_bytes(ascii(text)),
        digits_value(ascii(text)) == decimal_value(text),
    decreases text.len(),
{
    assert forall|i: int| 0 <= i < text.len() implies 48 <= #[trigger] ascii(text)[i] <= 57 by {
        assert(is_digit(text[i]));
    }
    if text.len() > 0 {
        assert(is_digit(text.last()));
        lemma_ascii_value(text.drop_last());
        assert(ascii(text).drop_last() =~= ascii(text.drop_last()));
    }
}

proof fn lemma_listed_peers(
    t: Seq<TokenView>,
    p: int,
    listed: Seq<Endpoint>,
    i: int,
    peers: Seq<PeerInfoView>,
)
    requires
        0 <= p,
        0 <= i <= listed.len(),
        p + 6 * listed.len() < t.len(),
        t.subrange(p, p + 6 * listed.len()) == listed_form(listed),
        t[p + 6 * listed.len()] is End,
    ensures
        listed_peers_from(t, p + 6 * i, peers) == Some(peers + named_peers(listed).skip(i)),
    decreases listed.len() - i,
{
    if i == listed.len() {
        assert(peers + named_peers(listed).skip(i) =~= peers);
    } else {
        let q = p + 6 * i;
        let form = listed_form(listed);
        lemma_listed_form(listed, i);
        assert(t[q] == form[6 * i]);
        assert(t[q + 1] == form[6 * i + 1]);
        assert(t[q + 2] == form[6 * i + 2]);
        assert(t[q + 3] == form[6 * i + 3]);
        assert(t[q + 4] == form[6 * i + 4]);
        assert(t[q + 5] == form[6 * i + 5]);
        let peer = named_peer(listed[i]);
        encode_utf8_valid_utf8(peer.ip);
        encode_utf8_decode_utf8(peer.ip);
        lemma_decimal(peer.port as nat);
        lemma_ascii_value(decimal(peer.port as nat));
        let port = listed[i].port;
        assert(ascii(decimal(port as nat))[0] != 43) by {
            assert(is_digit(decimal(port as nat)[0]));
        }
        assert(number_at(t, q + 4, u16::MAX as nat) == Some(port as nat));
        assert(peer_from(t, q + 5, Some(peer.ip), Some(port)) == Some(
            (Some(peer.ip), Some(port)),
        ));
        assert(peer_from(t, q + 3, Some(peer.ip), None) == Some((Some(peer.ip), Some(port))));
        assert(peer_from(t, q + 1, None, None) == Some((Some(peer.ip), Some(port))));
        assert(value_end(t, q) == q + 6) by {
            reveal_with_fuel(close_end, 7);
        }
        lemma_listed_peers(t, p, listed, i + 1, peers.push(peer));
        assert(peers.push(peer) + named_peers(listed).skip(i + 1) =~= peers + named_peers(
            listed,
        ).skip(i));
    }
}

proof fn lemma_peers_rest(t: Seq<TokenView>, p: int, peers: Seq<PeerInfoView>)
    requires
        0 <= p,
        forall|r: int| #[trigger] is_entry_from(t, p, r) ==> !key_at(t, r, PEERS_KEY@),
    ensures
        peers_from(t, p, peers) == Some(peers),
    decreases t.len() - p,
{
    if entry_at(t, p) {
        lemma_value_end(t, p + 1);
        assert(is_entry_from(t, p, p));
        let next = value_end(t, p + 1);
        assert forall|r: int| #[trigger] is_entry_from(t, next, r) implies !key_at(
            t,
            r,
            PEERS_KEY@,
        ) by {
            assert(is_entry_from(t, p, r));
        }
        lemma_peers_rest(t, next, peers);
    }
}

proof fn lemma_peers_of_entry(t: Seq<TokenView>, p: int, q: int, peers: Seq<PeerInfoView>)
    requires
        0 <= p,
        is_entry_from(t, p, q),
        key_at(t, q, PEERS_KEY@),
        forall|r: int| #[trigger] is_entry_from(t, p, r) && key_at(t, r, PEERS_KEY@) ==> r == q,
    ensures
        peers_from(t, p, peers) == peers_entry(t, q, peers),
    decreases t.len() - p,
{
    lemma_value_end(t, p + 1);
    let next = value_end(t, p + 1);
    assert forall|r: int| #[trigger] is_entry_from(t, next, r) implies is_entry_from(t, p, r) by {}
    if p == q {
        assert forall|r: int| #[trigger] is_entry_from(t, next, r) implies !key_at(
            t,
            r,
            PEERS_KEY@,
        ) by {
            lemma_entry_from(t, next, r);
        }
        if let Some(read) = peers_entry(t, p, peers) {
            lemma_peers_rest(t, next, read);
        }
    } else {
        assert(is_entry_from(t, p, p));
        lemma_peers_of_entry(t, next, q, peers);
    }
}

/// Whether a tracker sends its peers in the compact form or in the form of a list, they are
/// the same to the client: all of them, in their order, and one that is sent twice comes
/// twice.
pub proof fn both_forms_name_the_same_peers(
    peers: Seq<Endpoint>,
    compact: Seq<TokenView>,
    compact_entry: int,
    list: Seq<TokenView>,
    list_entry: int,
)
    requires
        live(compact, 0),
        compact[0] is Dict,
        is_only_entry(compact, PEERS_KEY@, compact_entry),
        compact[compact_entry + 1] == TokenView::Bytes(compact_form(peers)),
        live(list, 0),
        list[0] is Dict,
        is_only_entry(list, PEERS_KEY@, list_entry),
        list[list_entry + 1] is List,
        list_entry + 2 + 6 * peers.len() < list.len(),
        list.subrange(list_entry + 2, list_entry + 2 + 6 * peers.len()) == listed_form(peers),
        list[list_entry + 2 + 6 * peers.len()] is End,
    ensures
        peers_in(compact) == Some(named_peers(peers)),
        peers_in(list) == peers_in(compact),
{
    lemma_peers_of_entry(compact, 1, compact_entry, seq![]);
    lemma_compact_form(peers);
    assert(seq![] + named_peers(peers) =~= named_peers(peers));
    lemma_entry_from(list, 1, list_entry);
    lemma_peers_of_entry(list, 1, list_entry, seq![]);
    lemma_listed_peers(list, list_entry + 2, peers, 0, seq![]);
    assert(seq![] + named_peers(peers).skip(0) =~= named_peers(peers));
}

} // verus!
