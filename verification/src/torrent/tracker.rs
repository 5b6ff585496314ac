//! Announcing a torrent to its trackers.

use rand::Rng;
use vstd::prelude::*;
use vstd::slice::slice_subrange;
use vstd::string::*;

use super::models::{is_persisted, Torrent, TorrentView};
use crate::bencode::token::bencode_tokens;
use crate::bencode::{
    compact_peers, decode_peers, dotted_address, peer_views as peer_info_views, peers_in, text_view,
    DecodeError, PeerInfo, PeerInfoView,
};
use crate::select::chosen;
use crate::swarm::{add_peers, named_views, naming_peers_keeps_them_distinct, with_peers};
use crate::text::{append_bytes, same_text};
use crate::utils::{bytes_to_hex_encoding, percent_encoding, percent_encoding_is_injective};
use crate::wire::{
    append_be16, append_be32, append_be64, be16, be32, be32_at, be64, read_be32, WORD,
};

verus! {

/// How long a tracker has to answer, in seconds.
pub const ANNOUNCE_TIMEOUT_SECS: u64 = 60;

/// The port before the first that is announced.
pub const CLIENT_PORT_BASE: u16 = 22457;

/// How long a tracker is left alone after an announcement, in nanoseconds.
pub const ANNOUNCE_BUFFER: u128 = 60000000000;

/// The greatest length of a URL that is announced to.
pub const MAX_URL_LENGTH: usize = 134217728;

/// What a connection request of the UDP protocol begins with.
pub const UDP_PROTOCOL_ID: u64 = 4497486125440;

/// The length of the part of an announce response before the peers.
pub const ANNOUNCE_HEADER_LENGTH: usize = 20;

pub const INFO_HASH_PARAMETER: &'static str = "info_hash=";

pub const PEER_ID_PARAMETER: &'static str = "&peer_id=";

pub const HTTP_SCHEME: &'static str = "http";

pub const HTTPS_SCHEME: &'static str = "https";

pub const UDP_SCHEME: &'static str = "udp";

/// Why trackers could not be asked.
#[derive(Debug, Clone, Copy, PartialEq, Eq, Structural)]
pub enum TrackerError {
    /// A tracker has no valid URL.
    InvalidUrl,
    /// The clock was turned back.
    ClockTurnedBack,
    /// A response does not belong to the request.
    InvalidResponse,
}

// ---------------------------------------------------------------------------------------
// URLs

/// Why a URL cannot be parsed.
#[verifier::external_type_specification]
#[verifier::external_body]
pub struct ExParseError(url::ParseError);

/// A URL and its parts.
#[derive(Debug)]
pub struct TrackerUrl {
    pub text: String,
    pub scheme: String,
    pub host: Option<String>,
    pub port: Option<u16>,
}

#[verifier::ext_equal]
pub struct TrackerUrlView {
    pub text: Seq<char>,
    pub scheme: Seq<char>,
    pub host: Option<Seq<char>>,
    pub port: Option<u16>,
}

impl View for TrackerUrl {
    type V = TrackerUrlView;

    open spec fn view(&self) -> TrackerUrlView {
        TrackerUrlView {
            text: self.text@,
            scheme: self.scheme@,
            host: text_view(self.host),
            port: self.port,
        }
    }
}

/// The URL that a text denotes, with its parts.
pub uninterp spec fn parsed_url(text: Seq<char>) -> Option<TrackerUrlView>;

/// A URL with its query replaced.
pub uninterp spec fn url_with_query(url: Seq<char>, query: Seq<char>) -> Seq<char>;

/// The URL that a text denotes.
///
/// `url::Url::parse`: whether a text is a URL, and which scheme, host and port it has, is a
/// function of the text alone.
#[verifier::external_body]
fn parse_url(text: &str) -> (url: Result<TrackerUrl, url::ParseError>)
    ensures
        url is Ok <==> parsed_url(text@) is Some,
        url is Ok ==> (url->Ok_0)@ == parsed_url(text@)->0,
{
    let url = url::Url::parse(text)?;
    Ok(TrackerUrl {
        text: url.to_string(),
        scheme: url.scheme().to_string(),
        host: url.host_str().map(|host| host.to_string()),
        port: url.port(),
    })
}

/// A URL with its query replaced.
///
/// `url::Url::set_query`: the result is a function of the URL and the query alone. A text
/// that is no URL is refused. The positions in a URL have 32 bits, so what can be longer is
/// left out.
#[verifier::external_body]
fn set_query(url: &str, query: &str) -> (changed: Result<String, url::ParseError>)
    requires
        url@.len() + query@.len() <= 2 * MAX_URL_LENGTH,
    ensures
        changed is Ok <==> parsed_url(url@) is Some,
        changed is Ok ==> changed->Ok_0@ == url_with_query(url@, query@),
{
    let mut parsed = url::Url::parse(url)?;
    parsed.set_query(Some(query));
    Ok(parsed.to_string())
}

// ---------------------------------------------------------------------------------------
// Which trackers are asked, and when

/// A tracker.
#[derive(Debug)]
pub struct TrackerState {
    pub url: TrackerUrl,
    pub client_port: Option<u16>,
    /// When the torrent was announced, in nanoseconds.
    pub last_announced_at: Option<u128>,
}

#[verifier::ext_equal]
pub struct TrackerStateView {
    pub url: TrackerUrlView,
    pub client_port: Option<u16>,
    pub last_announced_at: Option<u128>,
}

impl View for TrackerState {
    type V = TrackerStateView;

    open spec fn view(&self) -> TrackerStateView {
        TrackerStateView {
            url: self.url@,
            client_port: self.client_port,
            last_announced_at: self.last_announced_at,
        }
    }
}

pub open spec fn tracker_views(trackers: Seq<TrackerState>) -> Seq<TrackerStateView> {
    Seq::new(trackers.len(), |i: int| trackers[i]@)
}

/// The trackers of a torrent.
#[derive(Debug)]
pub struct TrackerManager {
    pub trackers: Vec<TrackerState>,
    /// The port that was announced last.
    pub client_port_base: u16,
}

pub open spec fn has_tracker(trackers: Seq<TrackerStateView>, text: Seq<char>) -> bool {
    exists|i: int| 0 <= i < trackers.len() && (#[trigger] trackers[i]).url.text == text
}

/// The trackers with these URLs, each once. `None` where one of the texts is no URL.
pub open spec fn trackers_with(urls: Seq<Seq<char>>) -> Option<Seq<TrackerStateView>>
    decreases urls.len(),
{
    if urls.len() == 0 {
        Some(seq![])
    } else {
        match (trackers_with(urls.drop_last()), parsed_url(urls.last())) {
            (Some(trackers), Some(url)) => if has_tracker(trackers, url.text) {
                Some(trackers)
            } else {
                Some(
                    trackers.push(
                        TrackerStateView { url, client_port: None, last_announced_at: None },
                    ),
                )
            },
            _ => None,
        }
    }
}

pub open spec fn text_views(texts: Seq<String>) -> Seq<Seq<char>> {
    Seq::new(texts.len(), |i: int| texts[i]@)
}

/// A round of announcements.
#[derive(Debug)]
pub struct AnnounceRound {
    /// The first tracker that has not had its turn.
    pub next_tracker: usize,
    /// The peers that were named.
    pub peers: Vec<(String, u16)>,
    /// The round ends once so many peers were named.
    pub max_peers: usize,
    pub ended: bool,
}

/// What is to be done next.
#[derive(Debug, Clone, Copy, PartialEq, Eq, Structural)]
pub enum AnnounceStep {
    /// Announce to this tracker, with this port.
    Http(usize, u16),
    Udp(usize, u16),
    /// Nothing can be announced to this tracker.
    Unsupported(usize),
    /// Nothing: the round is over.
    Done,
}

/// Which of the trackers from `i` on is asked next: the first that was not asked lately. An
/// error where the clock was turned back.
pub open spec fn due_tracker(
    trackers: Seq<TrackerStateView>,
    i: int,
    now: u128,
) -> Result<Option<int>, TrackerError>
    decreases trackers.len() - i,
{
    if i >= trackers.len() {
        Ok(None)
    } else {
        match trackers[i].last_announced_at {
            Some(at) => if now < at {
                Err(TrackerError::ClockTurnedBack)
            } else if now - at < ANNOUNCE_BUFFER {
                due_tracker(trackers, i + 1, now)
            } else {
                Ok(Some(i))
            },
            None => Ok(Some(i)),
        }
    }
}

/// How a tracker is asked.
pub open spec fn step_for(url: TrackerUrlView, i: int, port: u16) -> AnnounceStep {
    if url.scheme == HTTP_SCHEME@ || url.scheme == HTTPS_SCHEME@ {
        AnnounceStep::Http(i as usize, port)
    } else if url.scheme == UDP_SCHEME@ {
        AnnounceStep::Udp(i as usize, port)
    } else {
        AnnounceStep::Unsupported(i as usize)
    }
}

/// A port is left for the tracker that is asked next, where one is.
pub open spec fn has_port_left(manager: TrackerManager, round: AnnounceRound, now: u128) -> bool {
    !round.ended ==> (due_tracker(
        tracker_views(manager.trackers@),
        round.next_tracker as int,
        now,
    ) matches Ok(Some(_)) ==> manager.client_port_base < u16::MAX)
}

fn find_due_tracker(trackers: &Vec<TrackerState>, start: usize, now: u128) -> (due: Result<
    Option<usize>,
    TrackerError,
>)
    requires
        start <= trackers@.len(),
    ensures
        match due_tracker(tracker_views(trackers@), start as int, now) {
            Ok(Some(i)) => due is Ok && due->Ok_0 is Some && due->Ok_0->0 == i && i
                < trackers@.len(),
            Ok(None) => due is Ok && due->Ok_0 is None,
            Err(error) => due is Err && due->Err_0 == error,
        },
{
    let ghost views = tracker_views(trackers@);
    let mut i: usize = start;
    while i < trackers.len()
        invariant
            i <= trackers@.len(),
            views == tracker_views(trackers@),
            due_tracker(views, start as int, now) == due_tracker(views, i as int, now),
        decreases trackers@.len() - i,
    {
        assert(views[i as int] == trackers@[i as int]@);
        match trackers[i].last_announced_at {
            Some(at) => {
                if now < at {
                    return Err(TrackerError::ClockTurnedBack);
                }
                if now - at >= ANNOUNCE_BUFFER {
                    return Ok(Some(i));
                }
            },
            None => {
                return Ok(Some(i));
            },
        }
        i = i + 1;
    }
    Ok(None)
}

impl TrackerManager {
    /// The trackers with these URLs.
    pub fn new(tracker_urls: &Vec<String>) -> (manager: Result<Self, TrackerError>)
        ensures
            manager is Ok <==> trackers_with(text_views(tracker_urls@)) is Some,
            manager is Ok ==> {
                &&& tracker_views((manager->Ok_0).trackers@) == trackers_with(
                    text_views(tracker_urls@),
                )->0
                &&& (manager->Ok_0).client_port_base == CLIENT_PORT_BASE
            },
            manager is Err ==> manager->Err_0 == TrackerError::InvalidUrl,
    {
        let ghost urls = text_views(tracker_urls@);
        let mut trackers: Vec<TrackerState> = Vec::new();
        let mut i: usize = 0;
        assert(urls.take(0) =~= seq![]);
        assert(tracker_views(trackers@) =~= seq![]);
        while i < tracker_urls.len()
            invariant
                i <= tracker_urls@.len(),
                urls == text_views(tracker_urls@),
                trackers_with(urls.take(i as int)) == Some(tracker_views(trackers@)),
            decreases tracker_urls@.len() - i,
        {
            assert(urls.take(i + 1).drop_last() =~= urls.take(i as int));
            let ghost before = tracker_views(trackers@);
            match parse_url(tracker_urls[i].as_str()) {
                Ok(url) => {
                    if !knows_tracker(&trackers, url.text.as_str()) {
                        let tracker = TrackerState {
                            url,
                            client_port: None,
                            last_announced_at: None,
                        };
                        let ghost view = tracker@;
                        trackers.push(tracker);
                        assert(tracker_views(trackers@) =~= before.push(view));
                    }
                },
                Err(_) => {
                    proof {
                        lemma_no_trackers(urls, i as int);
                    }
                    return Err(TrackerError::InvalidUrl);
                },
            }
            i = i + 1;
        }
        assert(urls.take(i as int) =~= urls);
        Ok(TrackerManager { trackers, client_port_base: CLIENT_PORT_BASE })
    }

    /// A round of announcements, until `max_peers` peers were named.
    pub fn start_round(&self, max_peers: usize) -> (round: AnnounceRound)
        ensures
            round.next_tracker == 0,
            round.peers@ == Seq::<(String, u16)>::empty(),
            round.max_peers == max_peers,
            !round.ended,
    {
        AnnounceRound { next_tracker: 0, peers: Vec::new(), max_peers, ended: false }
    }

    /// Whether a port is left for the tracker that is asked next, where one is.
    pub fn check_port(&self, round: &AnnounceRound, now: u128) -> (left: bool)
        requires
            round.next_tracker <= self.trackers@.len(),
        ensures
            left == has_port_left(*self, *round, now),
    {
        if round.ended || self.client_port_base < u16::MAX {
            return true;
        }
        match find_due_tracker(&self.trackers, round.next_tracker, now) {
            Ok(Some(_)) => false,
            _ => true,
        }
    }

    /// What is to be done next in a round. Each announcement has a port of its own.
    pub fn sync_with_trackers(&mut self, round: &mut AnnounceRound, now: u128) -> (step: Result<
        AnnounceStep,
        TrackerError,
    >)
        requires
            old(round).next_tracker <= old(self).trackers@.len(),
            has_port_left(*old(self), *old(round), now),
        ensures
            final(self).trackers == old(self).trackers,
            final(round).peers == old(round).peers,
            final(round).max_peers == old(round).max_peers,
            final(round).ended == old(round).ended,
            final(round).next_tracker <= final(self).trackers@.len(),
            ({
                let trackers = tracker_views(old(self).trackers@);
                match due_tracker(trackers, old(round).next_tracker as int, now) {
                    Ok(Some(i)) if !old(round).ended => {
                        &&& step == Ok::<_, TrackerError>(
                            step_for(
                                trackers[i].url,
                                i,
                                (old(self).client_port_base + 1) as u16,
                            ),
                        )
                        &&& final(self).client_port_base == old(self).client_port_base + 1
                        &&& final(round).next_tracker == i + 1
                    },
                    Err(error) if !old(round).ended => {
                        &&& step == Err::<AnnounceStep, _>(error)
                        &&& *final(self) == *old(self)
                        &&& *final(round) == *old(round)
                    },
                    _ => {
                        &&& step == Ok::<_, TrackerError>(AnnounceStep::Done)
                        &&& *final(self) == *old(self)
                        &&& *final(round) == *old(round)
                    },
                }
            }),
    {
        if round.ended {
            return Ok(AnnounceStep::Done);
        }
        let tracker_count: usize = self.trackers.len();
        match find_due_tracker(&self.trackers, round.next_tracker, now) {
            Ok(Some(i)) => {
                assert(tracker_views(self.trackers@)[i as int] == self.trackers@[i as int]@);
                self.client_port_base = self.client_port_base + 1;
                let port: u16 = self.client_port_base;
                let scheme = self.trackers[i].url.scheme.as_str();
                let step = if same_text(scheme, HTTP_SCHEME) || same_text(scheme, HTTPS_SCHEME) {
                    AnnounceStep::Http(i, port)
                } else if same_text(scheme, UDP_SCHEME) {
                    AnnounceStep::Udp(i, port)
                } else {
                    AnnounceStep::Unsupported(i)
                };
                round.next_tracker = i + 1;
                Ok(step)
            },
            Ok(None) => Ok(AnnounceStep::Done),
            Err(error) => Err(error),
        }
    }

    /// Takes in the peers that tracker `i` named, none where it could not be asked.
    pub fn announced(
        &mut self,
        round: &mut AnnounceRound,
        i: usize,
        named: Vec<(String, u16)>,
        now: u128,
    )
        requires
            i < old(self).trackers@.len(),
        ensures
            final(self).client_port_base == old(self).client_port_base,
            tracker_views(final(self).trackers@) == tracker_views(old(self).trackers@).update(
                i as int,
                TrackerStateView {
                    client_port: Some(old(self).client_port_base),
                    last_announced_at: Some(now),
                    ..tracker_views(old(self).trackers@)[i as int]
                },
            ),
            final(round).peers@ == old(round).peers@ + named@,
            final(round).next_tracker == old(round).next_tracker,
            final(round).max_peers == old(round).max_peers,
            final(round).ended == (old(round).ended || final(round).peers@.len()
                >= old(round).max_peers),
    {
        let ghost before = tracker_views(self.trackers@);
        self.trackers[i].client_port = Some(self.client_port_base);
        self.trackers[i].last_announced_at = Some(now);
        assert(tracker_views(self.trackers@) =~= before.update(
            i as int,
            TrackerStateView {
                client_port: Some(old(self).client_port_base),
                last_announced_at: Some(now),
                ..before[i as int]
            },
        ));
        let mut named = named;
        round.peers.append(&mut named);
        if round.peers.len() >= round.max_peers {
            round.ended = true;
        }
    }
}

fn knows_tracker(trackers: &Vec<TrackerState>, text: &str) -> (knows: bool)
    ensures
        knows == has_tracker(tracker_views(trackers@), text@),
{
    let mut i: usize = 0;
    while i < trackers.len()
        invariant
            i <= trackers@.len(),
            forall|k: int|
                0 <= k < i ==> (#[trigger] tracker_views(trackers@)[k]).url.text != text@,
        decreases trackers@.len() - i,
    {
        assert(tracker_views(trackers@)[i as int] == trackers@[i as int]@);
        if same_text(trackers[i].url.text.as_str(), text) {
            return true;
        }
        i = i + 1;
    }
    false
}

/// One text that is no URL leaves no trackers.
proof fn lemma_no_trackers(urls: Seq<Seq<char>>, i: int)
    requires
        0 <= i < urls.len(),
        parsed_url(urls[i]) is None,
    ensures
        trackers_with(urls) is None,
    decreases urls.len(),
{
    if i < urls.len() - 1 {
        lemma_no_trackers(urls.drop_last(), i);
    }
}

/// A tracker that was just asked is left alone for a while.
pub proof fn trackers_are_left_alone(
    trackers: Seq<TrackerStateView>,
    i: int,
    at: u128,
    start: int,
    now: u128,
)
    requires
        0 <= start <= i < trackers.len(),
        trackers[i].last_announced_at == Some(at),
        at <= now < at + ANNOUNCE_BUFFER,
    ensures
        due_tracker(trackers, start, now) != Ok::<Option<int>, TrackerError>(Some(i)),
    decreases i - start,
{
    if start < i {
        trackers_are_left_alone(trackers, i, at, start + 1, now);
    } else {
        lemma_due_later(trackers, i + 1, now);
    }
}

proof fn lemma_due_later(trackers: Seq<TrackerStateView>, start: int, now: u128)
    ensures
        due_tracker(trackers, start, now) matches Ok(Some(i)) ==> start <= i,
    decreases trackers.len() - start,
{
    if start < trackers.len() {
        lemma_due_later(trackers, start + 1, now);
    }
}

// ---------------------------------------------------------------------------------------
// What is announced

/// How much of a torrent is there.
#[derive(Debug, Clone, Copy, PartialEq, Eq, Structural)]
pub struct AnnounceRequest {
    pub downloaded: u64,
    pub uploaded: u64,
    pub left: u64,
    pub event: u32,
    pub ip_address: u32,
    pub key: u32,
    pub num_want: i32,
}

/// The number of blocks that are on disk.
pub open spec fn downloaded_count(t: TorrentView) -> nat {
    chosen(t.blocks.len() as int, |i: int| is_persisted(t.blocks[i].data_status)).len()
}

/// What is announced of a torrent: the number of blocks that are on disk, and of those that
/// are not.
pub fn build_announce_request(torrent: &Torrent) -> (request: AnnounceRequest)
    ensures
        request.downloaded == downloaded_count(torrent@),
        request.downloaded + request.left == torrent@.blocks.len(),
        request.uploaded == 0,
        request.event == 0,
        request.ip_address == 0,
        request.key == 0,
        request.num_want == -1,
{
    let ghost t = torrent@;
    let ghost wanted = |i: int| is_persisted(t.blocks[i].data_status);
    let block_count: usize = torrent.blocks.len();
    let mut downloaded: u64 = 0;
    let mut left: u64 = 0;
    let mut i: usize = 0;
    while i < block_count
        invariant
            i <= block_count,
            block_count == torrent.blocks@.len(),
            t == torrent@,
            wanted == (|i: int| is_persisted(t.blocks[i].data_status)),
            downloaded == chosen(i as int, wanted).len(),
            downloaded + left == i,
        decreases block_count - i,
    {
        assert(t.blocks[i as int] == torrent.blocks@[i as int]@);
        let persisted = torrent.blocks[i].data_status.persisted();
        assert(persisted == wanted(i as int));
        if persisted {
            downloaded = downloaded + 1;
        } else {
            left = left + 1;
        }
        i = i + 1;
    }
    AnnounceRequest { downloaded, uploaded: 0, left, event: 0, ip_address: 0, key: 0, num_want: -1 }
}

/// The query that names the torrent and the client.
pub open spec fn announce_query(hash: Seq<u8>, client_id: Seq<u8>) -> Seq<char> {
    INFO_HASH_PARAMETER@ + percent_encoding(hash) + PEER_ID_PARAMETER@ + percent_encoding(
        client_id,
    )
}

/// The URL that the torrent is announced to by HTTP.
pub fn http_announce_url(url: &str, hash: &[u8; 20], client_id: &[u8; 20]) -> (announce: Result<
    String,
    TrackerError,
>)
    requires
        url@.len() <= MAX_URL_LENGTH,
    ensures
        announce is Ok <==> parsed_url(url@) is Some,
        announce is Ok ==> announce->Ok_0@ == url_with_query(
            url@,
            announce_query(hash@, client_id@),
        ),
        announce is Err ==> announce->Err_0 == TrackerError::InvalidUrl,
{
    let mut query = INFO_HASH_PARAMETER.to_owned();
    let hash_text = bytes_to_hex_encoding(hash);
    query.append(hash_text.as_str());
    query.append(PEER_ID_PARAMETER);
    let id_text = bytes_to_hex_encoding(client_id);
    query.append(id_text.as_str());
    proof {
        reveal_strlit("info_hash=");
        reveal_strlit("&peer_id=");
        assert(query@ =~= announce_query(hash@, client_id@));
    }
    match set_query(url, query.as_str()) {
        Ok(announce) => Ok(announce),
        Err(_) => Err(TrackerError::InvalidUrl),
    }
}

/// Different torrents are announced by different queries.
pub proof fn queries_name_their_torrent(
    a_hash: Seq<u8>,
    a_client: Seq<u8>,
    b_hash: Seq<u8>,
    b_client: Seq<u8>,
)
    requires
        a_hash.len() == b_hash.len(),
        announce_query(a_hash, a_client) == announce_query(b_hash, b_client),
    ensures
        a_hash == b_hash,
        a_client == b_client,
{
    let a = announce_query(a_hash, a_client);
    let b = announce_query(b_hash, b_client);
    let start = INFO_HASH_PARAMETER@.len() as int;
    let end = start + 3 * a_hash.len();
    let rest = end + PEER_ID_PARAMETER@.len();
    assert(a.subrange(start, end) =~= percent_encoding(a_hash));
    assert(b.subrange(start, end) =~= percent_encoding(b_hash));
    assert(a.skip(rest) =~= percent_encoding(a_client));
    assert(b.skip(rest) =~= percent_encoding(b_client));
    percent_encoding_is_injective(a_hash, b_hash);
    percent_encoding_is_injective(a_client, b_client);
}

pub open spec fn named_by(peers: Seq<PeerInfoView>) -> Seq<(Seq<char>, u16)> {
    Seq::new(peers.len(), |i: int| (peers[i].ip, peers[i].port as u16))
}

/// The addresses and ports of peers.
pub fn name_peers(peers: &Vec<PeerInfo>) -> (named: Vec<(String, u16)>)
    ensures
        named_views(named@) == named_by(peer_info_views(peers@)),
{
    let ghost all = named_by(peer_info_views(peers@));
    let mut named: Vec<(String, u16)> = Vec::new();
    let mut i: usize = 0;
    assert(named_views(named@) =~= all.take(0));
    while i < peers.len()
        invariant
            i <= peers@.len(),
            all == named_by(peer_info_views(peers@)),
            named_views(named@) == all.take(i as int),
        decreases peers@.len() - i,
    {
        let ghost before = named_views(named@);
        named.push((peers[i].ip.as_str().to_owned(), peers[i].port));
        proof {
            assert(named_views(named@) =~= before.push(all[i as int]));
            assert(all.take(i + 1) =~= all.take(i as int).push(all[i as int]));
        }
        i = i + 1;
    }
    assert(all.take(i as int) =~= all);
    named
}

/// The peers that a tracker names in its response by HTTP.
pub fn http_peers(response: &[u8]) -> (named: Result<Vec<(String, u16)>, DecodeError>)
    ensures
        named is Ok <==> peers_in(bencode_tokens(response@)) is Some,
        named is Ok ==> named_views(named->Ok_0@) == named_by(
            peers_in(bencode_tokens(response@))->0,
        ),
        named is Err ==> named->Err_0 == DecodeError::InvalidPeers,
{
    match decode_peers(response) {
        Ok(peers) => Ok(name_peers(&peers)),
        Err(error) => Err(error),
    }
}

// ---------------------------------------------------------------------------------------
// Announcing by UDP

/// A random number.
///
/// `rand::Rng::gen` of `rand::thread_rng`: nothing is claimed of the number.
#[verifier::external_body]
fn random_number() -> (number: i32) {
    rand::thread_rng().gen()
}

/// A signed number of 32 bits as the unsigned one with the same bits.
pub open spec fn word_of(n: int) -> int {
    if n < 0 {
        n + WORD
    } else {
        n
    }
}

fn to_word(n: i32) -> (word: u32)
    ensures
        word == word_of(n as int),
{
    if n < 0 {
        (n as i64 + 4294967296) as u32
    } else {
        n as u32
    }
}

/// The request of a connection: sixteen bytes with the protocol, the action 0 and the
/// transaction.
pub open spec fn connect_bytes(transaction_id: i32) -> Seq<u8> {
    be64(UDP_PROTOCOL_ID as int) + be32(0) + be32(word_of(transaction_id as int))
}

/// The request of a connection.
pub fn connect_request(transaction_id: i32) -> (request: Vec<u8>)
    ensures
        request@ == connect_bytes(transaction_id),
{
    let mut request: Vec<u8> = Vec::new();
    append_be64(&mut request, UDP_PROTOCOL_ID);
    append_be32(&mut request, 0);
    append_be32(&mut request, to_word(transaction_id));
    assert(request@ =~= connect_bytes(transaction_id));
    request
}

/// The request of a connection, in a transaction of its own.
pub fn start_connect() -> (started: (i32, Vec<u8>))
    ensures
        started.1@ == connect_bytes(started.0),
{
    let transaction_id: i32 = random_number();
    (transaction_id, connect_request(transaction_id))
}

/// A response to a request with this action and transaction.
pub open spec fn answers(response: Seq<u8>, action: int, transaction_id: i32) -> bool {
    be32_at(response, 0) == action && be32_at(response, 4) == word_of(transaction_id as int)
}

/// The connection that a response grants: sixteen bytes with the action, the transaction and
/// the connection.
pub fn read_connect_response(response: &[u8], transaction_id: i32) -> (connection_id: Result<
    u64,
    TrackerError,
>)
    ensures
        connection_id is Ok <==> response@.len() == 16 && answers(response@, 0, transaction_id),
        connection_id is Ok ==> connection_id->Ok_0 == be32_at(response@, 8) * WORD + be32_at(
            response@,
            12,
        ),
        connection_id is Err ==> connection_id->Err_0 == TrackerError::InvalidResponse,
{
    if response.len() != 16 || read_be32(response, 0) != 0 || read_be32(response, 4) != to_word(
        transaction_id,
    ) {
        return Err(TrackerError::InvalidResponse);
    }
    let high: u32 = read_be32(response, 8);
    let low: u32 = read_be32(response, 12);
    Ok(high as u64 * WORD + low as u64)
}

/// An announcement: the connection, the action 1, the transaction, the torrent, the client,
/// how much of the torrent is there and left, and the port.
pub open spec fn announce_bytes(
    connection_id: u64,
    transaction_id: i32,
    hash: Seq<u8>,
    client_id: Seq<u8>,
    request: AnnounceRequest,
    client_port: u16,
) -> Seq<u8> {
    be64(connection_id as int) + be32(1) + be32(word_of(transaction_id as int)) + hash + client_id
        + be64(request.downloaded as int) + be64(request.left as int) + be64(
        request.uploaded as int,
    ) + be32(request.event as int) + be32(request.ip_address as int) + be32(request.key as int)
        + be32(word_of(request.num_want as int)) + be16(client_port as int)
}

/// An announcement.
pub fn announce_request(
    connection_id: u64,
    transaction_id: i32,
    hash: &[u8; 20],
    client_id: &[u8; 20],
    request: &AnnounceRequest,
    client_port: u16,
) -> (message: Vec<u8>)
    ensures
        message@ == announce_bytes(
            connection_id,
            transaction_id,
            hash@,
            client_id@,
            *request,
            client_port,
        ),
{
    let mut message: Vec<u8> = Vec::new();
    append_be64(&mut message, connection_id);
    append_be32(&mut message, 1);
    append_be32(&mut message, to_word(transaction_id));
    append_bytes(&mut message, hash);
    append_bytes(&mut message, client_id);
    append_be64(&mut message, request.downloaded);
    append_be64(&mut message, request.left);
    append_be64(&mut message, request.uploaded);
    append_be32(&mut message, request.event);
    append_be32(&mut message, request.ip_address);
    append_be32(&mut message, request.key);
    append_be32(&mut message, to_word(request.num_want));
    append_be16(&mut message, client_port);
    assert(message@ =~= announce_bytes(
        connection_id,
        transaction_id,
        hash@,
        client_id@,
        *request,
        client_port,
    ));
    message
}

/// An announcement, in a transaction of its own.
pub fn start_announce(
    connection_id: u64,
    hash: &[u8; 20],
    client_id: &[u8; 20],
    request: &AnnounceRequest,
    client_port: u16,
) -> (started: (i32, Vec<u8>))
    ensures
        started.1@ == announce_bytes(
            connection_id,
            started.0,
            hash@,
            client_id@,
            *request,
            client_port,
        ),
{
    let transaction_id: i32 = random_number();
    let message = announce_request(
        connection_id,
        transaction_id,
        hash,
        client_id,
        request,
        client_port,
    );
    (transaction_id, message)
}

/// The peers in the announce response: an address and a port in each six bytes behind its
/// first twenty.
pub open spec fn announced_peers(response: Seq<u8>) -> Seq<(Seq<char>, u16)> {
    named_by(compact_peers(response.skip(ANNOUNCE_HEADER_LENGTH as int)))
}

/// The peers that a tracker names in its response by UDP.
pub fn read_announce_response(response: &[u8], transaction_id: i32) -> (named: Result<
    Vec<(String, u16)>,
    TrackerError,
>)
    ensures
        named is Ok <==> ANNOUNCE_HEADER_LENGTH <= response@.len() && answers(
            response@,
            1,
            transaction_id,
        ),
        named is Ok ==> named_views(named->Ok_0@) == announced_peers(response@),
        named is Err ==> named->Err_0 == TrackerError::InvalidResponse,
{
    let length: usize = response.len();
    if length < ANNOUNCE_HEADER_LENGTH || read_be32(response, 0) != 1 || read_be32(response, 4)
        != to_word(transaction_id) {
        return Err(TrackerError::InvalidResponse);
    }
    let peers = slice_subrange(response, ANNOUNCE_HEADER_LENGTH, length);
    assert(peers@ =~= response@.skip(ANNOUNCE_HEADER_LENGTH as int));
    let ghost all = announced_peers(response@);
    let mut named: Vec<(String, u16)> = Vec::new();
    let mut offset: usize = 0;
    let ghost mut count: int = 0;
    assert(named_views(named@) =~= all.take(0));
    while peers.len() - offset >= 6
        invariant
            offset == 6 * count,
            offset <= peers@.len(),
            0 <= count <= all.len(),
            all == named_by(compact_peers(peers@)),
            named_views(named@) == all.take(count),
        decreases peers@.len() - offset,
    {
        let ghost before = named_views(named@);
        let port: u16 = peers[offset + 4] as u16 * 256 + peers[offset + 5] as u16;
        named.push((dotted_address(peers, offset), port));
        proof {
            assert(named_views(named@) =~= before.push(all[count]));
            assert(all.take(count + 1) =~= all.take(count).push(all[count]));
            count = count + 1;
        }
        offset = offset + 6;
    }
    assert(all.take(count) =~= all);
    Ok(named)
}

impl Torrent {
    /// Adds the peers that trackers named.
    pub fn sync_with_tracker(&mut self, named: &Vec<(String, u16)>)
        requires
            old(self).wf(),
        ensures
            final(self)@ == (TorrentView {
                peers: with_peers(old(self)@.peers, named_views(named@)),
                ..old(self)@
            }),
            final(self).wf(),
    {
        let ghost before = self@;
        add_peers(&mut self.peers, named);
        proof {
            naming_peers_keeps_them_distinct(
                before.peers,
                named_views(named@),
                before.pieces.len() as int,
            );
            super::models::a_frame_stays_whole(before, self@);
        }
    }
}

} // verus!
