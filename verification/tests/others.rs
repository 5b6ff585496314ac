use bittorrent_client::bencode::{FileInfo, MetaInfo, PeerInfo, PieceInfo};
use bittorrent_client::client;
use bittorrent_client::client_async;
use bittorrent_client::client_async::models::{
    ClientControlCommand, ClientState, TorrentState, TorrentStatus,
};
use bittorrent_client::client_async::render::view_state;
use bittorrent_client::models;
use bittorrent_client::order::sort_by_keys;
use bittorrent_client::peer;
use bittorrent_client::peer_async;
use bittorrent_client::simple_torrent;
use bittorrent_client::torrent;
use bittorrent_client::torrent::models::{BlockId, BlockStatus};
use bittorrent_client::torrent::scheduler::Scheduler;
use bittorrent_client::torrent::state::DiskEntry;
use bittorrent_client::torrent_async;
use bittorrent_client::torrent_async::event_processor::process_event;
use bittorrent_client::utils::{bytes_to_hex_encoding, sha1_hash};
use bittorrent_client::writer::{check_pieces, DataWriter};

fn meta(directory: Option<&str>) -> MetaInfo {
    MetaInfo {
        info_hash: [0x0f; 20],
        tracker: String::from("http://tracker/an"),
        files: vec![
            FileInfo { relative_path: String::from("a"), length: 3 },
            FileInfo { relative_path: String::from("b"), length: 5 },
        ],
        directory: directory.map(String::from),
        pieces: vec![
            PieceInfo { hash: [1; 20], length: 4 },
            PieceInfo { hash: [2; 20], length: 4 },
        ],
    }
}

fn torrent_file() -> Vec<u8> {
    let mut out = b"d8:announce7:http://4:infod5:filesld6:lengthi3e4:pathl1:aeee".to_vec();
    out.extend_from_slice(b"4:name3:dir12:piece lengthi4e6:pieces20:aaaaaaaaaaaaaaaaaaaaee");
    out
}

fn info_key() -> String {
    let file = torrent_file();
    let start = b"d8:announce7:http://4:info".len();
    bytes_to_hex_encoding(&sha1_hash(&file[start..file.len() - 1]))
}

fn entry(name: &str, path: &str, length: u64) -> DiskEntry {
    DiskEntry { name: String::from(name), path: String::from(path), length }
}

#[test]
fn positions_are_sorted_by_their_keys() {
    let keys = vec![5, 1, 5, 0, 1];
    assert_eq!(sort_by_keys(&keys, &vec![0, 1, 2, 3, 4]), vec![3, 1, 4, 0, 2]);
    assert_eq!(sort_by_keys(&keys, &vec![2, 0]), vec![0, 2]);
    assert_eq!(sort_by_keys(&keys, &vec![]), Vec::<usize>::new());
}

#[test]
fn a_simple_torrent_is_announced_and_counted() {
    // Fewer hashes than pieces do not matter here.
    let mut short = meta(Some("dir"));
    short.pieces.pop();
    let mut controller = simple_torrent::Controller::new(&short, [2; 20], "/data");
    assert_eq!(controller.left(), 8);
    assert_eq!(
        controller.announce_url().unwrap(),
        format!(
            "http://tracker/an?info_hash={}&peer_id={}",
            "%0F".repeat(20),
            "%02".repeat(20)
        )
    );
    let peers = vec![
        PeerInfo { ip: String::from("10.0.0.1"), port: 1 },
        PeerInfo { ip: String::from("10.0.0.1"), port: 1 },
    ];
    controller.get_announce_response(&peers);
    assert!(controller.announced);
    assert_eq!(controller.torrent.peers.len(), 1);
    let more = vec![PeerInfo { ip: String::from("10.0.0.2"), port: 1 }];
    controller.get_announce_response(&more);
    assert_eq!(controller.torrent.peers.len(), 1);
    let events = controller.send_torrent_controller_event();
    assert_eq!(events.len(), 1);
    match events[0].event {
        simple_torrent::Event::State(state) => {
            assert_eq!((state.files_total, state.files_completed), (2, 0));
            assert_eq!((state.blocks_total, state.blocks_completed), (3, 0));
            assert_eq!((state.peers_total, state.peers_connected), (1, 0));
        }
        _ => panic!("a state"),
    }
}

#[test]
fn a_simple_torrent_writes_a_file_with_its_last_block() {
    let mut controller = simple_torrent::Controller::new(&meta(Some("dir")), [2; 20], "/data");
    controller
        .get_announce_response(&vec![PeerInfo { ip: String::from("10.0.0.1"), port: 1 }]);
    let block = |index, begin, data| peer::ControllerEvent {
        ip: String::from("10.0.0.1"),
        port: 1,
        event: peer::Event::Block(index, begin, data),
    };
    let (data, path) = controller.process_event(block(1, 0, vec![1, 2, 3, 4])).unwrap();
    assert_eq!(data.data, vec![1, 2, 3, 4]);
    assert!(path.starts_with("/data/dir/.tmp_%0F"));
    assert!(path.ends_with("/00001_00000000"));
    let id = BlockId { piece_index: 1, begin: 0 };
    assert!(controller.block_written(id).is_none());
    assert!(controller.process_event(block(1, 0, vec![9])).is_none());
    let id = BlockId { piece_index: 0, begin: 3 };
    let write = controller.block_written(id).unwrap();
    assert_eq!(write.file_index, 1);
    assert_eq!(write.path, "/data/dir/b");
    assert_eq!(write.sources.len(), 2);
    assert!(!controller.all_files_written());
    controller.torrent.finish_file(1, write.path);
    controller.torrent.finish_file(0, String::from("/data/dir/a"));
    assert!(controller.all_files_written());
}

#[test]
fn a_simple_torrent_forgets_finished_connections() {
    let mut controller = simple_torrent::Controller::new(&meta(None), [2; 20], "/data");
    controller
        .get_announce_response(&vec![PeerInfo { ip: String::from("10.0.0.1"), port: 1 }]);
    controller.torrent.peers[0].started = true;
    controller.torrent.peers[0].connected = true;
    controller.release_finished_peers(&vec![true]);
    assert!(!controller.torrent.peers[0].started);
    assert!(controller.torrent.peers[0].connected);
    let mut scheduler = Scheduler::new();
    let (count, round) = controller.enqueue_pending_blocks_to_peers(&mut scheduler, 0);
    assert_eq!(count, 3);
    assert_eq!(round.unwrap().blocks.len(), 3);
    assert!(controller.torrent.close_connections().is_empty());
}

#[test]
fn a_simple_torrent_stops_with_its_last_block() {
    let mut controller = simple_torrent::Controller::new(&meta(None), [2; 20], "/data");
    controller
        .get_announce_response(&vec![PeerInfo { ip: String::from("10.0.0.1"), port: 1 }]);
    let mut scheduler = Scheduler::new();
    assert!(matches!(
        controller.next_task(&mut scheduler, &vec![false], 0),
        simple_torrent::Task::Download(round) if round.blocks.len() == 3
    ));
    for (piece_index, begin) in [(0, 0), (0, 3), (1, 0)] {
        if let Some(write) = controller.block_written(BlockId { piece_index, begin }) {
            controller.torrent.finish_file(write.file_index, write.path);
        }
    }
    controller.torrent.peers[0].started = true;
    controller.torrent.peers[0].connected = true;
    match controller.next_task(&mut scheduler, &vec![false], 0) {
        simple_torrent::Task::Stop(written, open) => {
            assert!(written);
            assert_eq!(open, vec![0]);
        }
        simple_torrent::Task::Download(_) => panic!("nothing is to come"),
    }
    assert!(!controller.torrent.peers[0].connected);
}

#[test]
fn a_cycle_of_a_client_is_bounded() {
    assert!(client::takes_another(500));
    assert!(!client::takes_another(501));
}

#[test]
fn disk_contents_are_taken_in_one_by_one() {
    let meta = meta(None);
    let temp = vec![
        entry(".tmp", "/data/.tmp", 0),
        entry("00001_00000000", "/data/.tmp/00001_00000000", 4),
    ];
    let dest = vec![entry("data", "/data", 0), entry("a", "/data/a", 3), entry("b", "/data/b", 4)];
    let mut controller = torrent_async::Controller::new([3; 20], &meta, "/data", temp, dest);
    match controller.listen() {
        Some(torrent_async::Event::State(state)) => {
            assert_eq!(state.blocks[2], (String::from("00001_00000000"), true, false));
            assert_eq!(state.files[0], (String::from("a"), false, false));
        }
        _ => panic!("a block"),
    }
    match controller.listen() {
        Some(torrent_async::Event::State(state)) => {
            assert_eq!(state.files[0], (String::from("a"), true, false));
            assert_eq!(state.blocks[0], (String::from("00000_00000000"), true, false));
            assert_eq!(state.blocks[1], (String::from("00000_00000003"), false, false));
        }
        _ => panic!("a file"),
    }
    assert!(matches!(controller.torrent.blocks[0].data_status, BlockStatus::PersistedInFile));
    assert!(controller.listen().is_none());
    assert!(controller.process_pending_peer_messages(false).is_none());
    assert!(controller.process_pending_peer_messages(true).is_some());
}

#[test]
fn reports_of_asked_connections_are_followed() {
    let meta = meta(None);
    let mut controller =
        torrent_async::Controller::new([3; 20], &meta, "/data", vec![], vec![]);
    controller.torrent.sync_with_tracker(&vec![(String::from("10.0.0.1"), 7)]);
    let state = peer_async::State {
        choked: true,
        bitfield: None,
        total_downloaded: 0,
        downloaded_window_second: (0, 0),
    };
    let torrent = &mut controller.torrent;
    let id = "10.0.0.1:7";
    let init = peer_async::Event::State(peer_async::StateEvent::Init(state));
    process_event(torrent, id, init);
    let have = peer_async::Event::State(peer_async::StateEvent::FieldHave(1));
    process_event(torrent, id, have);
    let metric = peer_async::Event::Metric(peer_async::Metric::DownloadWindowSecond(4, 5));
    process_event(torrent, id, metric);
    process_event(torrent, id, peer_async::Event::Block(0, 0, vec![1]));
    let known = torrent.peers[0].state.as_ref().unwrap();
    assert!(known.handshake && known.interested && known.choked);
    assert_eq!(known.bitfield, Some(vec![false, true]));
    assert_eq!(torrent.pieces[1].have, 1);
    assert_eq!(torrent.downloaded_window_second, (4, 5));
    assert!(matches!(torrent.blocks[0].data_status, BlockStatus::Pending));
}

#[test]
fn connections_are_handed_out() {
    let meta = meta(None);
    let mut controller =
        torrent_async::Controller::new([3; 20], &meta, "/data", vec![], vec![]);
    controller.torrent.sync_with_tracker(&vec![(String::from("10.0.0.1"), 7)]);
    let reply = bittorrent_client::wire::handshake_message(&[0x0f; 20], &[4; 20]);
    controller.peer_controllers.push(peer_async::Controller::new(
        String::from("10.0.0.1"),
        7,
        &[0x0f; 20],
        &reply,
        2,
    ));
    match controller.get_event_from_state() {
        torrent_async::Event::State(state) => {
            assert_eq!(state.peers, vec![(String::from("10.0.0.1:7"), true)])
        }
        _ => panic!("a state"),
    }
    assert_eq!(controller.take_peer_controllers().len(), 1);
    assert!(controller.peer_controllers.is_empty());
    match controller.get_event_from_state() {
        torrent_async::Event::State(state) => assert!(!state.peers[0].1),
        _ => panic!("a state"),
    }
}

fn data_writer() -> DataWriter {
    let files = vec![
        models::FileInfo { name: String::from("a"), length: 8 },
        models::FileInfo { name: String::from("b"), length: 1 },
    ];
    let pieces: Vec<models::PieceInfo> =
        (0..4).map(|i| models::PieceInfo { hash: [i; 20], length: 4 }).collect();
    DataWriter::new(&[0xaa], "/data", &files, &pieces)
}

#[test]
fn files_are_made_of_consecutive_pieces() {
    let writer = data_writer();
    assert_eq!(writer.meta.temp_path, "/data/.tmp_%AA");
    assert_eq!(writer.meta.files[0].piece_indices, vec![0, 1]);
    assert_eq!(writer.meta.files[1].piece_indices, vec![2]);
    let parts: Vec<usize> = writer.meta.pieces.iter().map(|p| p.file_index).collect();
    assert_eq!(parts, vec![0, 0, 1, 0]);
}

#[test]
fn files_need_enough_pieces() {
    let file = |length| models::FileInfo { name: String::from("a"), length };
    let piece = |length| models::PieceInfo { hash: [0; 20], length };
    assert!(check_pieces(&vec![file(4), file(5)], &vec![piece(4), piece(4), piece(4)]));
    assert!(!check_pieces(&vec![file(4), file(9)], &vec![piece(4), piece(4), piece(4)]));
    assert!(!check_pieces(&vec![file(4), file(0)], &vec![piece(4)]));
    assert!(!check_pieces(&vec![file(4)], &vec![piece(0)]));
    assert!(!check_pieces(&vec![], &vec![]));
    assert!(check_pieces(&vec![], &vec![piece(0)]));
    assert!(!check_pieces(&vec![file(u64::MAX)], &vec![piece(1)]));
}

#[test]
fn a_file_is_copied_with_its_last_piece() {
    let mut writer = data_writer();
    let path = writer.piece_path(1).unwrap();
    assert_eq!(path, format!("/data/.tmp_%AA/1_{}", "%01".repeat(20)));
    assert!(writer.write_piece(1).is_none());
    assert_eq!(writer.piece_path(1), None);
    assert!(writer.write_piece(1).is_none());
    let copy = writer.write_piece(0).unwrap();
    assert_eq!((copy.file_index, copy.path.as_str()), (0, "/data/a"));
    assert_eq!(copy.sources.len(), 2);
    assert_eq!(copy.sources[1].path, path);
    assert_eq!(copy.sources[1].byte_count, 2);
    writer.finish_file(0, copy.path);
    assert_eq!(writer.meta.files[0].path, Some(String::from("/data/a")));
}

#[test]
fn client_ids_begin_alike() {
    let id = client::peer_id_with(&[7; 12]);
    assert_eq!(&id[..8], b"-rS0001-");
    assert_eq!(&id[8..], &[7; 12]);
    let id = client::create_peer_id();
    assert_eq!(&id[..8], b"-rS0001-");
    let others: Vec<[u8; 20]> = (0..3).map(|_| client::create_peer_id()).collect();
    assert!(others.iter().any(|other| other != &id));
    assert_eq!(client::db_path("/var/x"), "/var/x/client.json");
}

#[test]
fn a_client_adds_a_torrent_once() {
    let mut client = client::Client::new(client::ClientState::init_state("/x"));
    let added = client.add_torrent("t.torrent", "/data", &torrent_file()).unwrap();
    assert_eq!(added, (info_key(), true));
    let again = client.add_torrent("u.torrent", "/other", &torrent_file()).unwrap();
    assert_eq!(again, (info_key(), false));
    assert_eq!(client.state.torrents.len(), 1);
    let torrent = &client.state.torrents[0].1;
    assert_eq!(torrent.name, "dir");
    assert_eq!(torrent.file_path, "t.torrent");
    assert_eq!(torrent.dest_path, "/data");
    assert_eq!(
        client.add_torrent("t", "/data", b"nothing"),
        Err(client::ClientError::InvalidMetaInfo)
    );
    let nameless = b"d8:announce7:http://4:infod6:pieces0:ee";
    assert_eq!(
        client.add_torrent("t", "/data", nameless),
        Err(client::ClientError::NoName)
    );
    let mut unnamed = meta(None);
    unnamed.info_hash = [0x77; 20];
    client.add_metainfo("t", "/data", unnamed).unwrap();
    assert_eq!(client.state.torrents[1].1.name, "a");
}

#[test]
fn a_client_starts_a_torrent_and_follows_it() {
    let mut client = client::Client::new(client::ClientState::init_state("/x"));
    let (key, _) = client.add_torrent("t", "/data", &torrent_file()).unwrap();
    assert_eq!(client.render_view(), "[Fetching] [dir]\n---\n");
    let controller = client.resume_torrent(&key).unwrap();
    assert_eq!(controller.torrent.dest_path, "/data/dir");
    assert_eq!(controller.torrent.client_id, client.state.peer_id);
    assert!(client.state.torrents[0].1.running && client.state.torrents[0].1.controlled);
    let metric = |second, count| torrent::ControllerEvent {
        hash: controller.torrent.hash,
        event: torrent::Event::Metric(torrent::Metric::DownloadWindowSecond(second, count)),
    };
    client.process_event(metric(1, 2));
    assert!(client.state.torrents[0].1.state.is_none());
    for event in controller.send_torrent_controller_event() {
        client.process_event(event);
    }
    client.process_event(metric(1, 2));
    let state = client.state.torrents[0].1.state.as_ref().unwrap();
    assert_eq!(state.downloaded_window_second, (1, 2));
    assert_eq!(
        client.render_view(),
        "[Downloading] [dir]\n \
         - Blocks - total 1, downloaded - 0, verified 0\n \
         - Files - total 1, downloaded - 0, verified 0\n \
         - Peers - total - 0, connected - 0\n\n"
    );
    client.release_finished(&vec![false]);
    assert!(client.state.torrents[0].1.running);
    client.release_finished(&vec![true]);
    assert!(!client.state.torrents[0].1.running);
}

#[test]
fn a_torrent_that_does_not_fit_together_is_not_started() {
    let mut client = client::Client::new(client::ClientState::init_state("/x"));
    let mut broken = meta(Some("dir"));
    broken.pieces.clear();
    let (key, _) = client.add_metainfo("t", "/data", broken).unwrap();
    assert!(client.resume_torrent(&key).is_none());
}

fn shown(files: Vec<(bool, bool)>) -> TorrentState {
    TorrentState {
        status: TorrentStatus::Downloading,
        files: files.into_iter().map(|(d, v)| (String::from("f"), d, v)).collect(),
        blocks: vec![
            (String::from("x"), true, true),
            (String::from("y"), true, false),
            (String::from("z"), false, false),
        ],
        peers: vec![(String::from("p"), true), (String::from("q"), false)],
        downloaded_window_second: (0, 0),
    }
}

#[test]
fn the_status_follows_the_files() {
    let mut client = client_async::Client::new(ClientState::init_state("/x"));
    client.add_torrent("t", "/data", &torrent_file()).unwrap();
    let key = info_key();
    let cases = vec![
        (vec![(true, true), (true, true)], "Completed"),
        (vec![(true, false), (true, false)], "Downloaded, verifying files"),
        (vec![(true, true), (true, false)], "Downloading"),
        (vec![(false, false)], "Downloading"),
        (vec![], "Completed"),
    ];
    for (files, status) in cases {
        let total = files.len();
        let downloaded = files.iter().filter(|f| f.0).count();
        let verified = files.iter().filter(|f| f.1).count();
        client.update_torrent(&key, shown(files));
        assert_eq!(
            view_state(&client.state),
            format!(
                "[{}] [dir]\n \
                 - Blocks - total 3, downloaded - 2, verified 1\n \
                 - Files - total {}, downloaded - {}, verified {}\n \
                 - Peers - total - 2, connected - 1\n\n",
                status, total, downloaded, verified
            )
        );
    }
}

#[test]
fn torrents_are_shown_one_below_the_other() {
    let mut client = client_async::Client::new(ClientState::init_state("/x"));
    assert_eq!(view_state(&client.state), "");
    client.add_torrent("t", "/data", &torrent_file()).unwrap();
    client.add_metainfo("u", "/data", meta(None)).unwrap();
    assert_eq!(
        view_state(&client.state),
        "[Fetching] [dir]\n---\n\n[Fetching] [a]\n---\n"
    );
}

#[test]
fn commands_of_a_client_are_obeyed_from_the_last() {
    let mut client = client_async::Client::new(ClientState::init_state("/x"));
    for name in ["one", "two"] {
        client.add_command(ClientControlCommand::AddTorrent(
            String::from(name),
            String::from("/data"),
        ));
    }
    for name in ["two", "one"] {
        match client.next_command() {
            Some(ClientControlCommand::AddTorrent(file, _)) => assert_eq!(file, name),
            None => panic!("a command is left"),
        }
    }
    assert!(client.next_command().is_none());
}

#[test]
fn started_torrents_are_pending_until_they_are_complete() {
    let mut client = client_async::Client::new(ClientState::init_state("/x"));
    client.add_torrent("t", "/data", &torrent_file()).unwrap();
    let key = info_key();
    assert!(!client.is_started(&key));
    assert!(client.process_pending_torrents().is_empty());
    assert!(client.start_torrent(&key, vec![], vec![]));
    assert!(client.is_started(&key));
    assert!(client.start_torrent(&key, vec![], vec![]));
    assert_eq!(client.controllers.len(), 1);
    assert_eq!(client.process_pending_torrents(), vec![key.clone()]);
    let mut controller = client.take_controller(&key).unwrap();
    assert!(client.take_controller(&key).is_none());
    assert!(controller.listen().is_none());
    let event = controller.get_event_from_state();
    client.put_controller(key.clone(), controller);
    let controller =
        torrent_async::Controller::new([9; 20], &meta(None), "/data", vec![], vec![]);
    client.put_controller(key.clone(), controller);
    assert_eq!(client.controllers.len(), 1);
    assert_eq!(client.controllers[0].1.torrent.client_id, [9; 20]);
    let state = client_async::torrent_state(event).unwrap();
    assert_eq!(state.status, TorrentStatus::Downloading);
    client.update_torrent(&key, state);
    assert_eq!(client.process_pending_torrents(), vec![key.clone()]);
    let mut done = shown(vec![(true, true)]);
    done.status = TorrentStatus::Completed;
    client.update_torrent(&key, done);
    assert!(client.process_pending_torrents().is_empty());
    let metric = torrent_async::Event::Metric(torrent_async::Metric::DownloadWindowSecond(1, 2));
    assert!(client_async::torrent_state(metric).is_none());
}

#[test]
fn a_client_refuses_what_it_cannot_name() {
    let mut client = client_async::Client::new(ClientState::init_state("/x"));
    assert_eq!(
        client.add_torrent("t", "/data", b"d"),
        Err(client::ClientError::InvalidMetaInfo)
    );
    let mut nameless = meta(None);
    nameless.files.clear();
    assert_eq!(
        client.add_metainfo("t", "/data", nameless),
        Err(client::ClientError::NoName)
    );
    let mut broken = meta(Some("dir"));
    broken.pieces.clear();
    client.add_metainfo("t", "/data", broken).unwrap();
    assert!(!client.start_torrent(&"%0F".repeat(20), vec![], vec![]));
}
