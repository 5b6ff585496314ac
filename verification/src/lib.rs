//! The core of a BitTorrent client: metainfo and tracker responses, the layout of a
//! torrent in files, pieces and blocks, the peer wire protocol, block scheduling,
//! piece verification and the state that a client keeps of its torrents.

pub mod bencode;
pub mod client;
pub mod client_async;
pub mod connection;
pub mod laws;
pub mod layout;
pub mod models;
pub mod order;
pub mod path;
pub mod peer;
pub mod peer_async;
pub mod progress;
pub mod round;
pub mod select;
pub mod simple_torrent;
pub mod swarm;
pub mod text;
pub mod torrent;
pub mod torrent_async;
pub mod utils;
pub mod wire;
pub mod writer;
