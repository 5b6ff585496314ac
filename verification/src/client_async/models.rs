//! What a client keeps of its torrents.

use vstd::prelude::*;

use crate::bencode::{MetaInfo, MetaInfoView};
use crate::progress::{progress_of, Progress};

verus! {

pub const PEER_ID_BYTE_LEN: usize = 20;

/// The file that the state of the client is kept in.
pub const DB_FILE: &'static str = "client.json";

/// How far a torrent has come.
#[derive(Debug, Clone, Copy, PartialEq, Eq, Structural)]
pub enum TorrentStatus {
    Fetching,
    Downloading,
    Completed,
}

/// What a torrent last reported.
#[derive(Debug)]
pub struct TorrentState {
    pub status: TorrentStatus,
    pub files: Vec<(String, bool, bool)>,
    pub blocks: Vec<(String, bool, bool)>,
    pub peers: Vec<(String, bool)>,
    pub downloaded_window_second: (u64, usize),
}

/// What a client can be told to do.
#[derive(Debug)]
pub enum ClientControlCommand {
    /// Add the torrent of this torrent file, to be written to this directory.
    AddTorrent(String, String),
}

/// A torrent of the client.
#[derive(Debug)]
pub struct Torrent {
    pub file_path: String,
    pub dest_path: String,
    pub name: String,
    pub metainfo: MetaInfo,
    pub state: Option<TorrentState>,
}

#[verifier::ext_equal]
pub struct TorrentView {
    pub file_path: Seq<char>,
    pub dest_path: Seq<char>,
    pub name: Seq<char>,
    pub metainfo: MetaInfoView,
    pub state: Option<TorrentState>,
}

impl View for Torrent {
    type V = TorrentView;

    open spec fn view(&self) -> TorrentView {
        TorrentView {
            file_path: self.file_path@,
            dest_path: self.dest_path@,
            name: self.name@,
            metainfo: self.metainfo@,
            state: self.state,
        }
    }
}

/// What a client keeps: its torrents by the percent encoding of their hash.
#[derive(Debug)]
pub struct ClientState {
    pub data_dir: String,
    pub peer_id: [u8; PEER_ID_BYTE_LEN],
    pub torrents: Vec<(String, Torrent)>,
}

pub open spec fn torrent_views(torrents: Seq<(String, Torrent)>) -> Seq<(Seq<char>, TorrentView)> {
    Seq::new(torrents.len(), |i: int| (torrents[i].0@, torrents[i].1@))
}

impl ClientState {
    pub open spec fn entries(&self) -> Seq<(Seq<char>, TorrentView)> {
        torrent_views(self.torrents@)
    }
}

/// How far a torrent has come by what it last reported.
pub open spec fn progress_in(state: Option<TorrentState>) -> Option<Progress> {
    match state {
        Some(state) => Some(progress_of(state.files@, state.blocks@, state.peers@)),
        None => None,
    }
}

} // verus!
