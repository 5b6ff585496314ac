//! Types that the parts of a client share.

use vstd::prelude::*;

use crate::peer::{bitfield_view, copy_bitfield};

verus! {

/// The length of an info hash, in bytes.
pub const INFO_HASH_BYTE_LEN: usize = 20;

/// The length of a piece hash, in bytes.
pub const PIECE_HASH_BYTE_LEN: usize = 20;

/// The length of a peer id, in bytes.
pub const PEER_ID_BYTE_LEN: usize = 20;

/// A file of a torrent.
#[derive(Debug)]
pub struct FileInfo {
    /// Where the file is in the torrent.
    pub name: String,
    pub length: u64,
}

/// A piece of a torrent.
#[derive(Debug)]
pub struct PieceInfo {
    pub hash: [u8; PIECE_HASH_BYTE_LEN],
    pub length: u32,
}

/// A peer that a tracker names.
#[derive(Debug)]
pub struct PeerInfo {
    pub ip: String,
    pub port: u16,
}

/// What a torrent file says of its torrent.
#[derive(Debug)]
pub struct MetaInfo {
    pub info_hash: [u8; INFO_HASH_BYTE_LEN],
    pub tracker: String,
    pub files: Vec<FileInfo>,
    pub pieces: Vec<PieceInfo>,
}

/// A torrent and its peers.
#[derive(Debug)]
pub struct TorrentInfo {
    pub meta: MetaInfo,
    pub peers: Vec<PeerInfo>,
}

/// What a client is told about itself.
#[derive(Debug)]
pub struct ClientConfig {
    pub peer_id: [u8; PEER_ID_BYTE_LEN],
}

/// What is known of a peer.
#[derive(Debug)]
pub struct PeerState {
    pub handshake: bool,
    pub choked: bool,
    pub interested: bool,
    pub bitfield: Option<Vec<bool>>,
}

#[verifier::ext_equal]
pub struct PeerStateView {
    pub handshake: bool,
    pub choked: bool,
    pub interested: bool,
    pub bitfield: Option<Seq<bool>>,
}

impl View for PeerState {
    type V = PeerStateView;

    open spec fn view(&self) -> PeerStateView {
        PeerStateView {
            handshake: self.handshake,
            choked: self.choked,
            interested: self.interested,
            bitfield: bitfield_view(self.bitfield),
        }
    }
}

impl Clone for PeerState {
    fn clone(&self) -> (copied: Self)
        ensures
            copied@ == self@,
    {
        PeerState {
            handshake: self.handshake,
            choked: self.choked,
            interested: self.interested,
            bitfield: copy_bitfield(&self.bitfield),
        }
    }
}

/// A change of what is known of a peer.
#[derive(Debug)]
pub enum PeerStateEvent {
    Init(PeerState),
    FieldChoked(bool),
    FieldHave(usize),
    FieldBitfield(Vec<bool>),
}

pub enum PeerStateEventView {
    Init(PeerStateView),
    FieldChoked(bool),
    FieldHave(int),
    FieldBitfield(Seq<bool>),
}

impl View for PeerStateEvent {
    type V = PeerStateEventView;

    open spec fn view(&self) -> PeerStateEventView {
        match self {
            PeerStateEvent::Init(state) => PeerStateEventView::Init(state@),
            PeerStateEvent::FieldChoked(choked) => PeerStateEventView::FieldChoked(*choked),
            PeerStateEvent::FieldHave(index) => PeerStateEventView::FieldHave(*index as int),
            PeerStateEvent::FieldBitfield(bits) => PeerStateEventView::FieldBitfield(bits@),
        }
    }
}

/// What is reported of a peer.
#[derive(Debug)]
pub enum PeerEvent {
    /// Commands are taken from now on.
    Control,
    State(PeerStateEvent),
}

/// What is reported to a torrent.
#[derive(Debug)]
pub enum TorrentEvent {
    /// Of the peer with this address and port.
    Peer(String, u16, PeerEvent),
    /// The block at this place of this piece.
    Block(usize, usize, Vec<u8>),
}

pub enum TorrentEventView {
    PeerControl(Seq<char>, u16),
    PeerState(Seq<char>, u16, PeerStateEventView),
    Block(int, int, Seq<u8>),
}

impl View for TorrentEvent {
    type V = TorrentEventView;

    open spec fn view(&self) -> TorrentEventView {
        match self {
            TorrentEvent::Peer(ip, port, PeerEvent::Control) => TorrentEventView::PeerControl(
                ip@,
                *port,
            ),
            TorrentEvent::Peer(ip, port, PeerEvent::State(event)) => TorrentEventView::PeerState(
                ip@,
                *port,
                event@,
            ),
            TorrentEvent::Block(index, begin, data) => TorrentEventView::Block(
                *index as int,
                *begin as int,
                data@,
            ),
        }
    }
}

/// What a connection is told to do.
#[derive(Debug, Clone, Copy, PartialEq, Eq, Structural)]
pub enum PeerControlCommand {
    /// Request the block at this place of this piece, of this length.
    PieceBlockRequest(usize, usize, usize),
    /// Take such a request back.
    PieceBlockCancel(usize, usize, usize),
    Shutdown,
}

} // verus!
