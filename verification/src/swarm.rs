//! The peers of a torrent.

use vstd::prelude::*;
use vstd::string::*;

use crate::peer::{
    known_bits, no_bits, reports, state_after, EventView, State, StateEvent, StateEventView,
    StateView,
};
use crate::select::{
    at_most, chosen, lemma_chosen_grows, lemma_chosen_none, lemma_chosen_one,
};
use crate::text::same_text;
use crate::wire::MessageView;

verus! {

/// How long a block may be out, in nanoseconds, before it is requested again.
pub const BLOCK_REQUEST_TIMEOUT: u128 = 6000000000;

/// How long a peer is left alone, in nanoseconds, after a connection was tried.
pub const PEER_REQUEST_TIMEOUT: u128 = 6000000000;

/// A peer of a torrent.
#[derive(Debug)]
pub struct Peer {
    pub ip: String,
    pub port: u16,
    /// The connection takes commands.
    pub connected: bool,
    pub state: Option<State>,
    /// A connection was started.
    pub started: bool,
    /// When that was, in nanoseconds.
    pub last_initiated_at: Option<u128>,
}

#[verifier::ext_equal]
pub struct PeerView {
    pub ip: Seq<char>,
    pub port: u16,
    pub connected: bool,
    pub state: Option<StateView>,
    pub started: bool,
    pub last_initiated_at: Option<u128>,
}

pub open spec fn state_view(state: Option<State>) -> Option<StateView> {
    match state {
        Some(state) => Some(state@),
        None => None,
    }
}

impl View for Peer {
    type V = PeerView;

    open spec fn view(&self) -> PeerView {
        PeerView {
            ip: self.ip@,
            port: self.port,
            connected: self.connected,
            state: state_view(self.state),
            started: self.started,
            last_initiated_at: self.last_initiated_at,
        }
    }
}

pub open spec fn peer_views(peers: Seq<Peer>) -> Seq<PeerView> {
    Seq::new(peers.len(), |i: int| peers[i]@)
}

/// A peer that nothing is known of yet.
pub open spec fn new_peer(ip: Seq<char>, port: u16) -> PeerView {
    PeerView {
        ip,
        port,
        connected: false,
        state: None,
        started: false,
        last_initiated_at: None,
    }
}

pub open spec fn is_at(peer: PeerView, ip: Seq<char>, port: u16) -> bool {
    peer.ip == ip && peer.port == port
}

/// There is a peer with this address and port.
pub open spec fn has_peer(peers: Seq<PeerView>, ip: Seq<char>, port: u16) -> bool {
    exists|k: int| 0 <= k < peers.len() && is_at(#[trigger] peers[k], ip, port)
}

/// No two peers share address and port.
pub open spec fn distinct(peers: Seq<PeerView>) -> bool {
    forall|j: int, k: int|
        0 <= j < k < peers.len() ==> !is_at(
            #[trigger] peers[j],
            (#[trigger] peers[k]).ip,
            peers[k].port,
        )
}

/// What is known of a peer's pieces is known of all of them.
pub open spec fn bits_fit(peer: PeerView, piece_count: int) -> bool {
    peer.state is Some && peer.state->0.bitfield is Some ==> peer.state->0.bitfield->0.len()
        == piece_count
}

pub open spec fn all_bits_fit(peers: Seq<PeerView>, piece_count: int) -> bool {
    forall|k: int| 0 <= k < peers.len() ==> bits_fit(#[trigger] peers[k], piece_count)
}

/// Where the peer with this address and port is in the list.
pub fn find_peer(peers: &Vec<Peer>, ip: &str, port: u16) -> (found: Option<usize>)
    ensures
        match found {
            Some(k) => k < peers@.len() && is_at(peer_views(peers@)[k as int], ip@, port),
            None => !has_peer(peer_views(peers@), ip@, port),
        },
{
    let mut k: usize = 0;
    while k < peers.len()
        invariant
            k <= peers@.len(),
            forall|j: int| 0 <= j < k ==> !is_at(#[trigger] peer_views(peers@)[j], ip@, port),
        decreases peers@.len() - k,
    {
        if peers[k].port == port && same_text(peers[k].ip.as_str(), ip) {
            assert(peer_views(peers@)[k as int] == peers@[k as int]@);
            return Some(k);
        }
        assert(peer_views(peers@)[k as int] == peers@[k as int]@);
        k = k + 1;
    }
    None
}

/// The peers after a tracker has named some: those that are known stay as they are, and the
/// others are added.
pub open spec fn with_peers(peers: Seq<PeerView>, named: Seq<(Seq<char>, u16)>) -> Seq<PeerView>
    decreases named.len(),
{
    if named.len() == 0 {
        peers
    } else {
        let before = with_peers(peers, named.drop_last());
        let (ip, port) = named.last();
        if has_peer(before, ip, port) {
            before
        } else {
            before.push(new_peer(ip, port))
        }
    }
}

pub open spec fn named_views(named: Seq<(String, u16)>) -> Seq<(Seq<char>, u16)> {
    Seq::new(named.len(), |i: int| (named[i].0@, named[i].1))
}

/// Naming peers keeps them distinct, and adds every one that was named.
pub proof fn naming_peers_keeps_them_distinct(
    peers: Seq<PeerView>,
    named: Seq<(Seq<char>, u16)>,
    piece_count: int,
)
    requires
        distinct(peers),
        all_bits_fit(peers, piece_count),
    ensures
        distinct(with_peers(peers, named)),
        all_bits_fit(with_peers(peers, named), piece_count),
        peers.is_prefix_of(with_peers(peers, named)),
        forall|i: int|
            0 <= i < named.len() ==> has_peer(
                with_peers(peers, named),
                (#[trigger] named[i]).0,
                named[i].1,
            ),
    decreases named.len(),
{
    if named.len() > 0 {
        naming_peers_keeps_them_distinct(peers, named.drop_last(), piece_count);
        let before = with_peers(peers, named.drop_last());
        let after = with_peers(peers, named);
        let (ip, port) = named.last();
        assert forall|j: int, k: int| 0 <= j < k < after.len() implies !is_at(
            #[trigger] after[j],
            (#[trigger] after[k]).ip,
            after[k].port,
        ) by {
            if k < before.len() {
                assert(!is_at(before[j], before[k].ip, before[k].port));
            } else {
                assert(!is_at(before[j], ip, port));
            }
        }
        assert forall|i: int| 0 <= i < named.len() implies has_peer(
            after,
            (#[trigger] named[i]).0,
            named[i].1,
        ) by {
            if i < named.len() - 1 {
                assert(named.drop_last()[i] == named[i]);
                let k = choose|k: int|
                    0 <= k < before.len() && is_at(
                        #[trigger] before[k],
                        named[i].0,
                        named[i].1,
                    );
                assert(is_at(after[k], named[i].0, named[i].1));
            } else if !has_peer(before, ip, port) {
                assert(is_at(after[after.len() - 1], ip, port));
            }
        }
    }
}

/// Adds the peers that a tracker has named.
pub fn add_peers(peers: &mut Vec<Peer>, named: &Vec<(String, u16)>)
    ensures
        peer_views(final(peers)@) == with_peers(peer_views(old(peers)@), named_views(named@)),
{
    let ghost all = named_views(named@);
    let mut i: usize = 0;
    assert(all.take(0) =~= seq![]);
    while i < named.len()
        invariant
            i <= named@.len(),
            all == named_views(named@),
            peer_views(peers@) == with_peers(peer_views(old(peers)@), all.take(i as int)),
        decreases named@.len() - i,
    {
        let ghost before = peer_views(peers@);
        assert(all.take(i + 1).drop_last() =~= all.take(i as int));
        if find_peer(peers, named[i].0.as_str(), named[i].1).is_none() {
            let peer = Peer {
                ip: named[i].0.as_str().to_owned(),
                port: named[i].1,
                connected: false,
                state: None,
                started: false,
                last_initiated_at: None,
            };
            let ghost view = peer@;
            peers.push(peer);
            assert(peer_views(peers@) =~= before.push(view));
        }
        i = i + 1;
    }
    assert(all.take(i as int) =~= all);
}

// ---------------------------------------------------------------------------------------
// What peers report of themselves

/// A report that can be followed: where it counts, it speaks of the pieces of the torrent.
pub open spec fn is_followed(peer: PeerView, event: StateEventView, piece_count: int) -> bool {
    match (event, peer.state) {
        (StateEventView::Init(state), None) => state.bitfield is Some
            ==> state.bitfield->0.len() == piece_count,
        (StateEventView::FieldHave(index), Some(_)) => 0 <= index < piece_count,
        (StateEventView::FieldBitfield(bits), Some(_)) => piece_count <= bits.len(),
        _ => true,
    }
}

/// The peer after it reported a change. The first report counts only where nothing is known,
/// and the others only where something is.
pub open spec fn peer_after(peer: PeerView, event: StateEventView, piece_count: int) -> PeerView {
    match (event, peer.state) {
        (StateEventView::Init(state), None) => PeerView { state: Some(state), ..peer },
        (StateEventView::FieldChoked(choked), Some(state)) => PeerView {
            state: Some(StateView { choked, ..state }),
            ..peer
        },
        (StateEventView::FieldHave(index), Some(state)) => PeerView {
            state: Some(
                StateView {
                    bitfield: Some(known_bits(state.bitfield, piece_count).update(index, true)),
                    ..state
                },
            ),
            ..peer
        },
        (StateEventView::FieldBitfield(bits), Some(state)) => PeerView {
            state: Some(StateView { bitfield: Some(bits.take(piece_count)), ..state }),
            ..peer
        },
        _ => peer,
    }
}

/// Whether the report adds to the number of times that piece `i` was had: it does where the
/// peer was not known to have the piece and speaks of it.
pub open spec fn counts(
    peer: PeerView,
    event: StateEventView,
    piece_count: int,
    i: int,
) -> bool {
    match (event, peer.state) {
        (StateEventView::FieldHave(index), Some(state)) => i == index && !known_bits(
            state.bitfield,
            piece_count,
        )[i],
        (StateEventView::FieldBitfield(bits), Some(state)) => 0 <= i < piece_count && !known_bits(
            state.bitfield,
            piece_count,
        )[i],
        _ => false,
    }
}

/// The pieces that a report adds to.
pub open spec fn counted(peer: PeerView, event: StateEventView, piece_count: int) -> Seq<usize> {
    chosen(piece_count, |i: int| counts(peer, event, piece_count, i))
}

fn missing_bits(
    bits: &Vec<bool>,
    Ghost(wanted): Ghost<spec_fn(int) -> bool>,
) -> (missing: Vec<usize>)
    requires
        forall|i: int| 0 <= i < bits@.len() ==> #[trigger] wanted(i) == !bits@[i],
    ensures
        missing@ == chosen(bits@.len() as int, wanted),
{
    let mut missing: Vec<usize> = Vec::new();
    let mut i: usize = 0;
    assert(missing@ =~= chosen(0, wanted));
    while i < bits.len()
        invariant
            i <= bits@.len(),
            forall|i: int| 0 <= i < bits@.len() ==> #[trigger] wanted(i) == !bits@[i],
            missing@ == chosen(i as int, wanted),
        decreases bits@.len() - i,
    {
        assert(wanted(i as int) == !bits@[i as int]);
        if !bits[i] {
            missing.push(i);
        }
        i = i + 1;
    }
    missing
}

fn take_bits(bits: &Vec<bool>, count: usize) -> (taken: Vec<bool>)
    requires
        count <= bits@.len(),
    ensures
        taken@ == bits@.take(count as int),
{
    let mut taken: Vec<bool> = Vec::new();
    let mut i: usize = 0;
    while i < count
        invariant
            i <= count <= bits@.len(),
            taken@ == bits@.take(i as int),
        decreases count - i,
    {
        taken.push(bits[i]);
        i = i + 1;
        assert(taken@ =~= bits@.take(i as int));
    }
    taken
}

impl Peer {
    /// Takes in a change that the peer reports. The result names the pieces that it adds to.
    pub fn apply(&mut self, event: StateEvent, piece_count: usize) -> (gained: Vec<usize>)
        requires
            bits_fit(old(self)@, piece_count as int),
            is_followed(old(self)@, event@, piece_count as int),
        ensures
            final(self)@ == peer_after(old(self)@, event@, piece_count as int),
            bits_fit(final(self)@, piece_count as int),
            gained@ == counted(old(self)@, event@, piece_count as int),
    {
        let ghost wanted = |i: int| counts(old(self)@, event@, piece_count as int, i);
        let mut gained: Vec<usize> = Vec::new();
        match self.state.take() {
            None => {
                if let StateEvent::Init(state) = event {
                    self.state = Some(state);
                }
                proof {
                    lemma_chosen_none(piece_count as int, wanted);
                }
            },
            Some(mut state) => {
                match event {
                    StateEvent::Init(_) => {
                        proof {
                            lemma_chosen_none(piece_count as int, wanted);
                        }
                    },
                    StateEvent::FieldChoked(choked) => {
                        state.choked = choked;
                        proof {
                            lemma_chosen_none(piece_count as int, wanted);
                        }
                    },
                    StateEvent::FieldHave(index) => {
                        let mut bits = match state.bitfield.take() {
                            Some(bits) => bits,
                            None => no_bits(piece_count),
                        };
                        if !bits[index] {
                            gained.push(index);
                        }
                        bits.set(index, true);
                        state.bitfield = Some(bits);
                        proof {
                            lemma_chosen_one(piece_count as int, wanted, index as int);
                        }
                        assert(gained@ =~= counted(old(self)@, event@, piece_count as int));
                    },
                    StateEvent::FieldBitfield(reported) => {
                        let bits = match state.bitfield.take() {
                            Some(bits) => bits,
                            None => no_bits(piece_count),
                        };
                        gained = missing_bits(&bits, Ghost(wanted));
                        state.bitfield = Some(take_bits(&reported, piece_count));
                    },
                }
                self.state = Some(state);
            },
        }
        gained
    }
}

// ---------------------------------------------------------------------------------------
// Which peers to turn to

/// A peer that a block of this piece can be requested from.
pub open spec fn offers(peer: PeerView, piece_index: int) -> bool {
    &&& peer.connected
    &&& peer.state is Some
    &&& !peer.state->0.choked
    &&& peer.state->0.bitfield is Some
    &&& peer.state->0.bitfield->0[piece_index]
}

/// A peer that a connection can be started to.
pub open spec fn can_start(peer: PeerView, now: u128) -> bool {
    !peer.connected && (peer.last_initiated_at is None || now - peer.last_initiated_at->0
        > PEER_REQUEST_TIMEOUT)
}

/// The clock has not been turned back since a connection was tried that takes no commands.
pub open spec fn started_before(peers: Seq<PeerView>, now: u128) -> bool {
    forall|k: int|
        0 <= k < peers.len() && !(#[trigger] peers[k]).connected
            && peers[k].last_initiated_at is Some ==> peers[k].last_initiated_at->0 <= now
}

/// The peers that a block of this piece can be requested from.
pub open spec fn offering(peers: Seq<PeerView>, piece_index: int) -> Seq<usize> {
    chosen(peers.len() as int, |k: int| offers(peers[k], piece_index))
}

/// The peers that connections are started to, no more than `max` of them.
pub open spec fn starting(peers: Seq<PeerView>, now: u128, max: int) -> Seq<usize> {
    at_most(chosen(peers.len() as int, |k: int| can_start(peers[k], now)), max)
}

/// The peers after connections were started to some of them.
pub open spec fn after_start(peers: Seq<PeerView>, list: Seq<usize>, now: u128) -> Seq<PeerView> {
    Seq::new(
        peers.len(),
        |k: int|
            if list.contains(k as usize) {
                PeerView { started: true, last_initiated_at: Some(now), ..peers[k] }
            } else {
                peers[k]
            },
    )
}

pub(crate) fn find_offering(peers: &Vec<Peer>, piece_index: usize) -> (list: Vec<usize>)
    requires
        forall|k: int|
            0 <= k < peers@.len() && (#[trigger] peers@[k]@).state is Some
                && peers@[k]@.state->0.bitfield is Some ==> piece_index
                < peers@[k]@.state->0.bitfield->0.len(),
    ensures
        list@ == offering(peer_views(peers@), piece_index as int),
{
    let ghost wanted = |k: int| offers(peer_views(peers@)[k], piece_index as int);
    let mut list: Vec<usize> = Vec::new();
    let mut k: usize = 0;
    while k < peers.len()
        invariant
            k <= peers@.len(),
            forall|k: int|
                0 <= k < peers@.len() && (#[trigger] peers@[k]@).state is Some
                    && peers@[k]@.state->0.bitfield is Some ==> piece_index
                    < peers@[k]@.state->0.bitfield->0.len(),
            wanted == (|k: int| offers(peer_views(peers@)[k], piece_index as int)),
            list@ == chosen(k as int, wanted),
        decreases peers@.len() - k,
    {
        let peer = &peers[k];
        assert(peers@[k as int]@ == peer_views(peers@)[k as int]);
        let mut wants = false;
        if peer.connected {
            if let Some(state) = &peer.state {
                if !state.choked {
                    if let Some(bits) = &state.bitfield {
                        wants = bits[piece_index];
                    }
                }
            }
        }
        assert(wants == wanted(k as int));
        if wants {
            list.push(k);
        }
        k = k + 1;
    }
    list
}

/// Whether the clock has not been turned back since a connection was tried that takes no
/// commands.
pub(crate) fn is_past(peers: &Vec<Peer>, now: u128) -> (past: bool)
    ensures
        past == started_before(peer_views(peers@), now),
{
    let ghost views = peer_views(peers@);
    let mut k: usize = 0;
    while k < peers.len()
        invariant
            k <= peers@.len(),
            views == peer_views(peers@),
            forall|j: int|
                0 <= j < k && !(#[trigger] views[j]).connected && views[j].last_initiated_at is Some
                    ==> views[j].last_initiated_at->0 <= now,
        decreases peers@.len() - k,
    {
        let peer = &peers[k];
        assert(views[k as int] == peer@);
        if !peer.connected {
            if let Some(at) = peer.last_initiated_at {
                if at > now {
                    return false;
                }
            }
        }
        k = k + 1;
    }
    true
}

pub(crate) fn find_starting(peers: &Vec<Peer>, now: u128, max: usize) -> (list: Vec<usize>)
    requires
        started_before(peer_views(peers@), now),
    ensures
        list@ == starting(peer_views(peers@), now, max as int),
{
    let ghost views = peer_views(peers@);
    let ghost wanted = |k: int| can_start(views[k], now);
    let mut list: Vec<usize> = Vec::new();
    let mut k: usize = 0;
    while k < peers.len() && list.len() < max
        invariant
            k <= peers@.len(),
            views == peer_views(peers@),
            started_before(views, now),
            wanted == (|k: int| can_start(views[k], now)),
            list@ == chosen(k as int, wanted),
            list@.len() <= max,
        decreases peers@.len() - k,
    {
        let peer = &peers[k];
        assert(views[k as int] == peer@);
        let mut wants = false;
        if !peer.connected {
            wants = match peer.last_initiated_at {
                None => true,
                Some(at) => now - at > PEER_REQUEST_TIMEOUT,
            };
        }
        assert(wants == wanted(k as int));
        if wants {
            list.push(k);
        }
        k = k + 1;
    }
    proof {
        lemma_chosen_grows(k as int, peers@.len() as int, wanted);
        assert(list@ =~= starting(views, now, max as int));
    }
    list
}

// ---------------------------------------------------------------------------------------
// What is known of peers

/// What is known of a peer is as it is: whether it chokes the client, and its pieces.
pub open spec fn agrees(known: StateView, own: StateView) -> bool {
    known.choked == own.choked && known.bitfield == own.bitfield
}

/// What is known of a peer follows from what its connection reports: after each message it
/// is as the connection has it.
pub proof fn reports_keep_peers_known(
    peer: PeerView,
    own: StateView,
    message: MessageView,
    piece_count: int,
    second: u64,
)
    requires
        peer.state is Some,
        agrees(peer.state->0, own),
        match message {
            MessageView::Have(index) => 0 <= index < piece_count,
            MessageView::Bitfield(bits) => bits.len() == piece_count,
            _ => true,
        },
    ensures
        ({
            let after = state_after(own, message, piece_count, second);
            let event = reports(after, message)[0];
            &&& event matches EventView::State(change) ==> agrees(
                peer_after(peer, change, piece_count).state->0,
                after,
            )
            &&& !(event is State) ==> agrees(peer.state->0, after)
        }),
{
    if let MessageView::Bitfield(bits) = message {
        assert(bits.take(piece_count) =~= bits);
    }
}

/// A piece that a peer announces twice is counted once.
pub proof fn pieces_are_counted_once(peer: PeerView, piece_count: int, index: int)
    requires
        0 <= index < piece_count,
        peer.state is Some,
        bits_fit(peer, piece_count),
    ensures
        ({
            let event = StateEventView::FieldHave(index);
            let after = peer_after(peer, event, piece_count);
            counted(after, event, piece_count) == Seq::<usize>::empty()
        }),
{
    let event = StateEventView::FieldHave(index);
    let after = peer_after(peer, event, piece_count);
    lemma_chosen_none(piece_count, |i: int| counts(after, event, piece_count, i));
}

} // verus!
