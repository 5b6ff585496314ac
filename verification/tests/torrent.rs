use bittorrent_client::bencode::{decode_metainfo, FileInfo, MetaInfo, PieceInfo};
use bittorrent_client::peer;
use bittorrent_client::round::Step;
use bittorrent_client::torrent::event_processor::{check_report, process_event, takes_another};
use bittorrent_client::torrent::formatter::{get_block_id, get_peer_id, parse_block_id};
use bittorrent_client::torrent::models::{BlockId, BlockStatus, Torrent};
use bittorrent_client::torrent::scheduler::{check_requests, check_starts, Scheduler};
use bittorrent_client::torrent::state::{meta_can_be_laid_out, meta_is_complete, DiskEntry};
use bittorrent_client::torrent::writer::FileStep;
use bittorrent_client::torrent::{Controller, Event, Metric, Task};
use bittorrent_client::utils::{bytes_to_hex_encoding, sha1_hash};

const SECOND: u128 = 1_000_000_000;

fn file(path: &str, length: u64) -> FileInfo {
    FileInfo { relative_path: String::from(path), length }
}

/// Two files of three and five bytes, in two pieces of four.
fn meta() -> MetaInfo {
    MetaInfo {
        info_hash: [0xab; 20],
        tracker: String::from("http://tracker/announce"),
        files: vec![file("a", 3), file("sub/b", 5)],
        directory: Some(String::from("dir")),
        pieces: vec![
            PieceInfo { hash: sha1_hash(b"aaab"), length: 4 },
            PieceInfo { hash: sha1_hash(b"bbbb"), length: 4 },
        ],
    }
}

fn new_torrent() -> Torrent {
    Torrent::new([1u8; 20], "/data", &meta())
}

fn id(piece_index: usize, begin: usize) -> BlockId {
    BlockId { piece_index, begin }
}

fn entry(name: &str, path: &str, length: u64) -> DiskEntry {
    DiskEntry { name: String::from(name), path: String::from(path), length }
}

fn event(port: u16, event: peer::Event) -> peer::ControllerEvent {
    peer::ControllerEvent { ip: String::from("10.0.0.1"), port, event }
}

fn initial_state() -> peer::State {
    peer::State {
        handshake: true,
        choked: true,
        interested: true,
        bitfield: None,
        total_downloaded: 0,
        downloaded_window_second: (0, 0),
    }
}

fn state_event(change: peer::StateEvent) -> peer::Event {
    peer::Event::State(change)
}

/// A torrent with two peers, the first of which is connected and has all pieces.
fn torrent_with_peers() -> Torrent {
    let mut torrent = new_torrent();
    let ip = String::from("10.0.0.1");
    torrent.sync_with_tracker(&vec![(ip.clone(), 1), (ip.clone(), 2), (ip, 1)]);
    assert_eq!(torrent.peers.len(), 2);
    process_event(&mut torrent, event(1, state_event(peer::StateEvent::Init(initial_state()))));
    process_event(&mut torrent, event(1, peer::Event::Control));
    process_event(&mut torrent, event(1, state_event(peer::StateEvent::FieldChoked(false))));
    let bits = vec![true, true];
    process_event(&mut torrent, event(1, state_event(peer::StateEvent::FieldBitfield(bits))));
    torrent
}

#[test]
fn a_torrent_of_one_file_is_laid_out() {
    let mut bytes = b"d8:announce3:url4:infod6:lengthi7e4:name1:n12:piece lengthi7e".to_vec();
    bytes.extend_from_slice(b"6:pieces20:AAAAAAAAAAAAAAAAAAAAee");
    let meta = decode_metainfo(&bytes).unwrap();
    assert!(meta_is_complete(&meta));
    let torrent = Torrent::new([1u8; 20], "/data", &meta);
    assert_eq!(torrent.dest_path, "/data");
    assert_eq!(torrent.files.len(), 1);
    assert_eq!(torrent.files[0].relative_path, "n");
    assert_eq!(torrent.files[0].length, 7);
    let blocks: Vec<_> = torrent
        .blocks
        .iter()
        .map(|b| (b.file_index, b.piece_index, b.begin, b.length))
        .collect();
    assert_eq!(blocks, vec![(0, 0, 0, 7)]);
}

#[test]
fn names_are_formatted() {
    assert_eq!(get_peer_id("10.0.0.1", 6881), "10.0.0.1:6881");
    assert_eq!(get_block_id(7, 16384), "00007_00016384");
    assert_eq!(get_block_id(123456, 1234567890), "123456_1234567890");
}

#[test]
fn block_names_are_ordered_as_their_places() {
    let places = vec![(0, 0), (0, 16384), (7, 0), (7, 99999999), (10, 5), (99999, 99999999)];
    let names: Vec<String> = places.iter().map(|(i, b)| get_block_id(*i, *b)).collect();
    assert!(names.iter().all(|name| name.len() == 14));
    assert!(names.windows(2).all(|pair| pair[0] < pair[1]));
    // Longer numbers get longer names, and their order is another.
    assert!(get_block_id(100000, 0) < get_block_id(20000, 0));
}

#[test]
fn block_names_are_read_back() {
    for (index, begin) in vec![(0, 0), (7, 16384), (123456, 1234567890)] {
        assert_eq!(parse_block_id(&get_block_id(index, begin)), Some((index, begin)));
    }
    for name in vec!["", "00007", "7_16384", "00007_00016384x", "_", "000007_00016384"] {
        assert_eq!(parse_block_id(name), None);
    }
}

#[test]
fn a_torrent_is_laid_out() {
    let torrent = new_torrent();
    assert_eq!(torrent.dest_path, "/data/dir");
    assert_eq!(torrent.hash, [0xab; 20]);
    let blocks: Vec<_> = torrent
        .blocks
        .iter()
        .map(|b| (b.file_index, b.piece_index, b.begin, b.length))
        .collect();
    assert_eq!(blocks, vec![(0, 0, 0, 3), (1, 0, 3, 1), (1, 1, 0, 4)]);
    assert!(torrent.blocks.iter().all(|b| matches!(b.data_status, BlockStatus::Pending)));
    assert_eq!(torrent.pieces[1].length, 4);
    assert_eq!(torrent.pieces[1].hash, sha1_hash(b"bbbb"));
    assert_eq!(torrent.files[1].block_ids, vec![id(0, 3), id(1, 0)]);
    assert_eq!(torrent.files[1].block_ids_pos, vec![(0, 1), (1, 4)]);
    assert_eq!(
        torrent.get_temp_dir_path(),
        format!("/data/dir/.tmp_{}", bytes_to_hex_encoding(&[0xab; 20]))
    );
    assert_eq!(torrent.find_block(id(0, 3)), Some(1));
    assert_eq!(torrent.find_block(id(0, 4)), None);
}

#[test]
fn incomplete_metainfo_is_recognised() {
    assert!(meta_is_complete(&meta()));
    let mut no_files = meta();
    no_files.files.clear();
    assert!(!meta_is_complete(&no_files));
    let mut too_few_hashes = meta();
    too_few_hashes.pieces.pop();
    assert!(!meta_is_complete(&too_few_hashes));
    assert!(meta_can_be_laid_out(&too_few_hashes));
    let mut no_length = meta();
    no_length.pieces[0].length = 0;
    assert!(!meta_is_complete(&no_length));
    assert!(!meta_can_be_laid_out(&no_length));
    no_length.files = vec![file("a", 0), file("b", 0)];
    assert!(meta_is_complete(&no_length));
}

#[test]
fn blocks_are_stored_and_found_again() {
    let mut torrent = new_torrent();
    let path = torrent.arriving_block_path(id(0, 3)).unwrap();
    assert_eq!(path, format!("{}/00000_00000003", torrent.get_temp_dir_path()));
    torrent.write_block(id(0, 3));
    assert!(matches!(
        &torrent.blocks[1].data_status,
        BlockStatus::PersistedSeparately(stored) if stored == &path
    ));
    assert_eq!(torrent.arriving_block_path(id(0, 3)), None);

    let mut restarted = new_torrent();
    let temp = vec![
        entry("00000_00000003", &path, 1),
        entry("something else", "/x", 1),
        entry("00009_00000000", "/y", 1),
    ];
    restarted.sync_with_disk(&temp, &vec![]);
    assert!(matches!(
        &restarted.blocks[1].data_status,
        BlockStatus::PersistedSeparately(stored) if stored == &path
    ));
    assert!(matches!(restarted.blocks[0].data_status, BlockStatus::Pending));
}

#[test]
fn written_files_are_found_by_path_and_length() {
    let mut torrent = new_torrent();
    let dest = vec![
        entry("dir", "/data/dir", 4096),
        entry("a", "/data/dir//a", 2),
        entry("b", "/data/dir/./sub/b", 5),
    ];
    torrent.sync_with_disk(&vec![], &dest);
    assert_eq!(torrent.files[0].path, None);
    assert_eq!(torrent.files[1].path, Some(String::from("/data/dir/./sub/b")));
    assert!(matches!(torrent.blocks[0].data_status, BlockStatus::Pending));
    assert!(matches!(torrent.blocks[1].data_status, BlockStatus::PersistedInFile));
    assert!(matches!(torrent.blocks[2].data_status, BlockStatus::PersistedInFile));
    assert_eq!(torrent.find_file("/data/dir", "/data/dir/a"), Some(0));
    assert_eq!(torrent.find_file("/data", "/data/dir/a"), None);
}

#[test]
fn pieces_are_read_block_by_block_and_checked() {
    let mut torrent = new_torrent();
    assert!(torrent.piece_sources(0).is_none());
    torrent.sync_with_disk(&vec![], &vec![entry("b", "/data/dir/sub/b", 5)]);
    assert!(torrent.piece_sources(0).is_none());
    torrent.write_block(id(0, 0));
    let sources = torrent.piece_sources(0).unwrap();
    assert_eq!(sources.len(), 2);
    assert!(!sources[0].in_file);
    assert_eq!((sources[0].offset, sources[0].length), (0, 3));
    assert!(sources[1].in_file);
    assert_eq!(sources[1].path, "/data/dir/sub/b");
    assert_eq!((sources[1].offset, sources[1].length), (0, 1));
    let sources = torrent.piece_sources(1).unwrap();
    assert_eq!((sources[0].offset, sources[0].length), (1, 4));
    assert!(torrent.is_piece_valid(0, b"aaab"));
    assert!(!torrent.is_piece_valid(0, b"aaaa"));
}

#[test]
fn pieces_are_verified_or_downloaded_again() {
    let mut torrent = new_torrent();
    torrent.sync_with_disk(
        &vec![],
        &vec![entry("a", "/data/dir/a", 3), entry("b", "/data/dir/sub/b", 5)],
    );
    assert_eq!(torrent.pieces_to_verify(50), vec![0, 0, 1]);
    assert_eq!(torrent.pieces_to_verify(2), vec![0, 0]);
    torrent.verify_blocks_and_files(&vec![(0, true), (1, false)]);
    assert!(torrent.blocks[0].verified && torrent.blocks[1].verified);
    assert!(matches!(torrent.blocks[0].data_status, BlockStatus::PersistedInFile));
    assert!(!torrent.blocks[2].verified);
    assert!(matches!(torrent.blocks[2].data_status, BlockStatus::Pending));
    assert!(torrent.files[0].verified);
    assert!(!torrent.files[1].verified);
    assert_eq!(torrent.find_unfinished_files(), vec![1]);
}

#[test]
fn files_are_written_from_their_blocks() {
    let mut torrent = new_torrent();
    torrent.write_block(id(0, 3));
    torrent.write_block(id(1, 0));
    assert!(matches!(torrent.verify_and_write_file(1), FileStep::Wait));
    torrent.verify_blocks_and_files(&vec![(0, true), (1, true)]);
    assert_eq!(torrent.find_files_to_write(10), vec![1]);
    match torrent.verify_and_write_file(1) {
        FileStep::Write(path, sources) => {
            assert_eq!(path, "/data/dir/sub/b");
            let lengths: Vec<usize> = sources.iter().map(|s| s.length).collect();
            assert_eq!(lengths, vec![1, 4]);
            assert!(sources[0].path.ends_with("/00000_00000003"));
            assert!(sources[1].path.ends_with("/00001_00000000"));
            torrent.finish_file(1, path);
        }
        _ => panic!("the file is to be written"),
    }
    assert!(torrent.files[1].verified);
    assert!(matches!(torrent.verify_and_write_file(1), FileStep::Keep));
    assert_eq!(torrent.find_unfinished_files(), vec![0]);
    assert!(torrent.find_files_to_write(10).is_empty());
}

#[test]
fn reports_of_peers_are_followed() {
    let mut torrent = torrent_with_peers();
    assert!(torrent.peers[0].connected);
    let state = torrent.peers[0].state.as_ref().unwrap();
    assert!(!state.choked);
    assert_eq!(state.bitfield, Some(vec![true, true]));
    assert_eq!((torrent.pieces[0].have, torrent.pieces[1].have), (1, 1));
    // The same again is not counted.
    process_event(&mut torrent, event(1, state_event(peer::StateEvent::FieldHave(1))));
    assert_eq!(torrent.pieces[1].have, 1);
    // The first report counts only once, and others only after it.
    process_event(&mut torrent, event(1, state_event(peer::StateEvent::Init(initial_state()))));
    assert!(!torrent.peers[0].state.as_ref().unwrap().choked);
    process_event(&mut torrent, event(2, state_event(peer::StateEvent::FieldHave(0))));
    assert!(torrent.peers[1].state.is_none());
    assert_eq!(torrent.pieces[0].have, 1);
    // A bitfield counts what was not known, whatever it says.
    process_event(&mut torrent, event(2, state_event(peer::StateEvent::Init(initial_state()))));
    let bits = vec![false, true];
    process_event(&mut torrent, event(2, state_event(peer::StateEvent::FieldBitfield(bits))));
    assert_eq!((torrent.pieces[0].have, torrent.pieces[1].have), (2, 2));
}

#[test]
fn downloaded_bytes_are_summed_up_by_second() {
    let mut torrent = torrent_with_peers();
    let metric = |second, count| {
        peer::Event::Metric(peer::Metric::DownloadWindowSecond(second, count))
    };
    process_event(&mut torrent, event(1, metric(10, 5)));
    process_event(&mut torrent, event(2, metric(10, 6)));
    assert_eq!(torrent.downloaded_window_second, (10, 11));
    process_event(&mut torrent, event(1, metric(9, 100)));
    assert_eq!(torrent.downloaded_window_second, (10, 11));
    process_event(&mut torrent, event(1, metric(11, 1)));
    assert_eq!(torrent.downloaded_window_second, (11, 1));
    assert!(takes_another(10000));
    assert!(!takes_another(10001));
}

#[test]
fn arriving_data_is_handed_back() {
    let mut torrent = torrent_with_peers();
    let block = process_event(&mut torrent, event(1, peer::Event::Block(1, 0, vec![1, 2, 3, 4])));
    let block = block.unwrap();
    assert_eq!((block.piece_index, block.begin, block.data), (1, 0, vec![1, 2, 3, 4]));
}

#[test]
fn blocks_are_requested_from_a_peer_that_has_them() {
    let mut torrent = torrent_with_peers();
    torrent.pieces[0].have = 5;
    let mut scheduler = Scheduler::new();
    assert!(!scheduler.end_game_mode);
    assert_eq!(scheduler.concurrent_peers, 3);
    let now = 100 * SECOND;
    let (count, round) =
        scheduler.enqueue_pending_blocks(&mut torrent, &vec![false, false], 500, now);
    assert_eq!(count, 3);
    assert!(!scheduler.end_game_mode);
    let mut round = round.unwrap();
    // The rarest piece comes first, and blocks of one piece in their order.
    let wanted: Vec<_> = round.blocks.iter().map(|b| (b.piece_index, b.begin, b.length)).collect();
    assert_eq!(wanted, vec![(1, 0, 4), (0, 0, 3), (0, 3, 1)]);
    let mut requested = vec![];
    loop {
        match scheduler.schedule(&mut torrent, &mut round, now) {
            Step::Request(peer, block) => {
                requested.push((peer, block.piece_index, block.begin));
                scheduler.requested(&mut torrent, &mut round, true, now);
            }
            Step::Start(_) => panic!("a peer has the blocks"),
            Step::Done => break,
        }
    }
    assert_eq!(requested, vec![(0, 1, 0), (0, 0, 0), (0, 0, 3)]);
    assert!(matches!(torrent.blocks[0].data_status, BlockStatus::Requested(at) if at == now));
    // Nothing is due before the time is out.
    let (_, round) =
        scheduler.enqueue_pending_blocks(&mut torrent, &vec![false, false], 500, now + 6 * SECOND);
    assert!(round.unwrap().blocks.is_empty());
    let (_, round) = scheduler.enqueue_pending_blocks(
        &mut torrent,
        &vec![false, false],
        2,
        now + 6 * SECOND + 1,
    );
    assert_eq!(round.unwrap().blocks.len(), 2);
}

#[test]
fn a_peer_that_cannot_be_reached_is_given_up() {
    let mut torrent = torrent_with_peers();
    let mut scheduler = Scheduler::new();
    let now = 100 * SECOND;
    let (_, round) = scheduler.enqueue_pending_blocks(&mut torrent, &vec![false, false], 1, now);
    let mut round = round.unwrap();
    assert!(matches!(
        scheduler.schedule(&mut torrent, &mut round, now),
        Step::Request(0, _)
    ));
    scheduler.requested(&mut torrent, &mut round, false, now);
    assert!(!torrent.peers[0].connected);
    assert!(torrent.peers[0].state.is_none());
    assert!(matches!(torrent.blocks[0].data_status, BlockStatus::Pending));
    assert!(matches!(scheduler.schedule(&mut torrent, &mut round, now), Step::Done));
}

#[test]
fn connections_are_started_where_nobody_has_a_block() {
    let mut torrent = new_torrent();
    let named = (1..=5).map(|port| (String::from("10.0.0.1"), port)).collect();
    torrent.sync_with_tracker(&named);
    let mut scheduler = Scheduler::new();
    let now = 100 * SECOND;
    let finished = vec![false; 5];
    let (_, round) = scheduler.enqueue_pending_blocks(&mut torrent, &finished, 500, now);
    let mut round = round.unwrap();
    let mut started = vec![];
    loop {
        match scheduler.schedule(&mut torrent, &mut round, now) {
            Step::Start(peers) => started.push(peers),
            Step::Request(_, _) => panic!("nobody has a block"),
            Step::Done => break,
        }
    }
    assert_eq!(started, vec![vec![0, 1, 2], vec![3, 4], vec![]]);
    assert!(torrent.peers.iter().all(|p| p.started && p.last_initiated_at == Some(now)));
    // A connection that came to its end can be started at once.
    let finished = vec![true, false, false, false, false];
    let later = now + SECOND;
    let (_, round) = scheduler.enqueue_pending_blocks(&mut torrent, &finished, 1, later);
    let mut round = round.unwrap();
    match scheduler.schedule(&mut torrent, &mut round, later) {
        Step::Start(peers) => assert_eq!(peers, vec![0]),
        _ => panic!("a connection is started"),
    }
}

#[test]
fn the_end_game_asks_everybody() {
    let mut torrent = torrent_with_peers();
    process_event(&mut torrent, event(2, state_event(peer::StateEvent::Init(initial_state()))));
    process_event(&mut torrent, event(2, peer::Event::Control));
    process_event(&mut torrent, event(2, state_event(peer::StateEvent::FieldChoked(false))));
    let bits = vec![true, true];
    process_event(&mut torrent, event(2, state_event(peer::StateEvent::FieldBitfield(bits))));
    torrent.write_block(id(0, 0));
    torrent.write_block(id(0, 3));
    let mut scheduler = Scheduler::new();
    let now = 100 * SECOND;
    let (count, round) =
        scheduler.enqueue_pending_blocks(&mut torrent, &vec![false, false], 500, now);
    assert_eq!(count, 1);
    assert!(scheduler.end_game_mode);
    assert_eq!(scheduler.concurrent_peers, 10);
    let mut round = round.unwrap();
    let mut asked = vec![];
    loop {
        match scheduler.schedule(&mut torrent, &mut round, now) {
            Step::Request(peer, _) => {
                asked.push(peer);
                scheduler.requested(&mut torrent, &mut round, true, now);
            }
            Step::Start(_) => panic!("peers have the block"),
            Step::Done => break,
        }
    }
    assert_eq!(asked, vec![0, 1]);
    torrent.write_block(id(1, 0));
    let (count, round) =
        scheduler.enqueue_pending_blocks(&mut torrent, &vec![false, false], 500, now);
    assert_eq!(count, 0);
    assert!(round.is_none());
}

#[test]
fn asking_goes_on_where_a_request_does_not_go_out() {
    for end_game in [false, true] {
        let mut torrent = new_torrent();
        let named = (1..=4).map(|port| (String::from("10.0.0.1"), port)).collect();
        torrent.sync_with_tracker(&named);
        // All but the third offer every piece.
        for port in [1, 2, 4] {
            let state = peer::State {
                choked: false,
                bitfield: Some(vec![true, true]),
                ..initial_state()
            };
            process_event(&mut torrent, event(port, state_event(peer::StateEvent::Init(state))));
            process_event(&mut torrent, event(port, peer::Event::Control));
        }
        let mut scheduler = Scheduler::new();
        let now = 100 * SECOND;
        let (_, round) = scheduler.enqueue_pending_blocks(&mut torrent, &vec![false; 4], 1, now);
        let mut round = round.unwrap();
        round.end_game_mode = end_game;
        let mut asked = vec![];
        loop {
            match scheduler.schedule(&mut torrent, &mut round, now) {
                Step::Request(peer, block) => {
                    assert_eq!((block.piece_index, block.begin), (0, 0));
                    assert_eq!(round.turn, asked.len());
                    assert_eq!(round.asked, vec![0, 1, 3]);
                    asked.push(peer);
                    scheduler.requested(&mut torrent, &mut round, peer == 1, now);
                }
                Step::Start(_) => panic!("peers have the block"),
                Step::Done => break,
            }
        }
        assert_eq!(asked, if end_game { vec![0, 1, 3] } else { vec![0, 1] });
        assert!(!torrent.peers[0].connected && torrent.peers[1].connected);
    }
}

#[test]
fn a_file_lists_its_blocks_by_name() {
    let count = 100002;
    let meta = MetaInfo {
        info_hash: [0xab; 20],
        tracker: String::from("http://tracker/announce"),
        files: vec![file("a", count as u64)],
        directory: None,
        pieces: (0..count).map(|_| PieceInfo { hash: [0; 20], length: 1 }).collect(),
    };
    let torrent = Torrent::new([1u8; 20], "/data", &meta);
    let listed = &torrent.files[0];
    assert_eq!(listed.block_ids.len(), count);
    let names: Vec<String> =
        listed.block_ids.iter().map(|id| get_block_id(id.piece_index, id.begin)).collect();
    assert!(names.windows(2).all(|pair| pair[0] < pair[1]));
    assert_eq!(listed.block_ids[9999], id(9999, 0));
    assert_eq!(listed.block_ids[10000], id(100000, 0));
    assert_eq!(listed.block_ids[10001], id(100001, 0));
    assert_eq!(listed.block_ids[10002], id(10000, 0));
    assert_eq!(listed.block_ids[count - 1], id(99999, 0));
    assert_eq!(listed.block_ids_pos[10000], (100000, 1));
    assert_eq!(listed.block_ids_pos[10002], (10000, 1));
    // The blocks themselves stay in the order of their places.
    assert_eq!(torrent.blocks[10000].piece_index, 10000);
}

#[test]
fn a_torrent_is_reported() {
    let mut controller = Controller::new([1u8; 20], &meta(), "/data");
    controller.torrent = torrent_with_peers();
    controller.torrent.write_block(id(0, 3));
    let events = controller.send_torrent_controller_event();
    assert_eq!(events.len(), 1);
    assert_eq!(events[0].hash, [0xab; 20]);
    match &events[0].event {
        Event::State(state) => {
            assert_eq!(
                state.files,
                vec![(String::from("a"), false, false), (String::from("sub/b"), false, false)]
            );
            assert_eq!(
                state.blocks,
                vec![
                    (String::from("00000_00000000"), false, false),
                    (String::from("00000_00000003"), true, false),
                    (String::from("00001_00000000"), false, false),
                ]
            );
            assert_eq!(
                state.peers,
                vec![(String::from("10.0.0.1:1"), true), (String::from("10.0.0.1:2"), false)]
            );
        }
        _ => panic!("a state"),
    }
    controller.torrent.downloaded_window_second = (10, 3);
    let events = controller.send_torrent_controller_event();
    assert_eq!(events.len(), 2);
    assert!(matches!(
        events[1].event,
        Event::Metric(Metric::DownloadWindowSecond(10, 3))
    ));
}

#[test]
fn blocks_are_shown_in_the_order_of_their_names() {
    let mut large = meta();
    large.files = vec![file("big", 100_002)];
    large.pieces = (0..100_002).map(|_| PieceInfo { hash: [0; 20], length: 1 }).collect();
    let controller = Controller::new([1u8; 20], &large, "/data");
    let events = controller.send_torrent_controller_event();
    match &events[0].event {
        Event::State(state) => {
            assert_eq!(state.blocks.len(), 100_002);
            assert!(state.blocks.windows(2).all(|pair| pair[0].0 < pair[1].0));
            // A digit comes before the line between index and offset.
            let at = state.blocks.iter().position(|b| b.0 == "100000_00000000").unwrap();
            assert_eq!(state.blocks[at - 1].0, "09999_00000000");
            assert_eq!(state.blocks[at + 2].0, "10000_00000000");
        }
        _ => panic!("a state"),
    }
}

#[test]
fn a_torrent_is_finished_when_all_of_it_is_verified() {
    let mut torrent = new_torrent();
    let dest = vec![entry("a", "/data/dir/a", 3), entry("b", "/data/dir/sub/b", 5)];
    torrent.sync_with_disk(&vec![], &dest);
    // What was found is verified anew.
    assert!(torrent.blocks.iter().all(|b| !b.verified));
    assert!(torrent.files.iter().all(|f| !f.verified));
    // A file is verified only with all its blocks.
    torrent.verify_blocks_and_files(&vec![(0, true)]);
    assert!(torrent.files[0].verified);
    assert!(!torrent.files[1].verified);
    assert!(torrent.blocks[1].verified);
    assert_eq!(torrent.find_unfinished_files(), vec![1]);
    assert_eq!(torrent.pieces_to_verify(50), vec![1]);
    torrent.verify_blocks_and_files(&vec![(1, true)]);
    assert!(torrent.find_unfinished_files().is_empty());
    assert!(torrent.blocks.iter().all(|b| b.verified));
    assert!(torrent.files.iter().all(|f| f.path.is_some() && f.verified));
}

#[test]
fn a_torrent_is_downloaded_then_verified_then_written() {
    let mut controller = Controller::new([1u8; 20], &meta(), "/data");
    let mut scheduler = Scheduler::new();
    match controller.next_task(&mut scheduler, &vec![], 0) {
        Task::Download(round) => assert_eq!(round.blocks.len(), 3),
        Task::Verify(_) => panic!("blocks are to come"),
    }
    for block in [id(0, 0), id(0, 3), id(1, 0)] {
        controller.torrent.write_block(block);
    }
    match controller.next_task(&mut scheduler, &vec![], 0) {
        Task::Verify(pieces) => assert_eq!(pieces, vec![0, 0, 1]),
        Task::Download(_) => panic!("all blocks are there"),
    }
    assert_eq!(controller.pieces_verified(&vec![(0, true)]), Some(vec![0, 1]));
    assert!(matches!(
        controller.torrent.verify_and_write_file(0),
        FileStep::Write(path, _) if path == "/data/dir/a"
    ));
    controller.torrent.finish_file(0, String::from("/data/dir/a"));
    // A piece that is wrong is downloaded again.
    assert_eq!(controller.pieces_verified(&vec![(1, false)]), Some(vec![1]));
    assert!(matches!(
        controller.next_task(&mut scheduler, &vec![], 0),
        Task::Download(_)
    ));
    assert!(scheduler.end_game_mode);
    controller.torrent.write_block(id(1, 0));
    controller.torrent.finish_file(1, String::from("/data/dir/sub/b"));
    assert_eq!(controller.pieces_verified(&vec![(1, true)]), None);
}

#[test]
fn the_last_block_of_a_file_has_it_written() {
    let mut controller = Controller::new([1u8; 20], &meta(), "/data");
    controller.torrent.write_block(id(0, 0));
    assert_eq!(controller.block_checked(id(0, 0), None), 0);
    assert!(!controller.torrent.blocks[0].verified);
    controller.torrent.write_block(id(0, 3));
    assert_eq!(controller.block_checked(id(0, 3), Some(true)), 1);
    assert!(controller.torrent.blocks[0].verified && controller.torrent.blocks[1].verified);
    assert!(matches!(controller.torrent.verify_and_write_file(1), FileStep::Wait));
    controller.torrent.write_block(id(1, 0));
    assert_eq!(controller.block_checked(id(1, 0), Some(true)), 1);
    assert!(controller.torrent.can_write_file(1));
    match controller.torrent.verify_and_write_file(1) {
        FileStep::Write(path, sources) => {
            assert_eq!(path, "/data/dir/sub/b");
            assert_eq!(sources.len(), 2);
        }
        _ => panic!("the file is to be written"),
    }
    assert_eq!(controller.block_checked(id(0, 0), Some(false)), 0);
    assert!(matches!(controller.torrent.blocks[0].data_status, BlockStatus::Pending));
}

#[test]
fn reports_that_cannot_be_followed_are_recognised() {
    let mut torrent = torrent_with_peers();
    let check = |torrent: &Torrent, reported| check_report(torrent, &reported);
    assert!(check(&torrent, event(2, peer::Event::Control)));
    assert!(!check(&torrent, event(3, peer::Event::Control)));
    let have = |index| state_event(peer::StateEvent::FieldHave(index));
    assert!(check(&torrent, event(1, have(1))));
    assert!(!check(&torrent, event(1, have(2))));
    let bits = |count| state_event(peer::StateEvent::FieldBitfield(vec![true; count]));
    assert!(check(&torrent, event(1, bits(2))));
    assert!(!check(&torrent, event(1, bits(1))));
    let metric = |second, count| {
        peer::Event::Metric(peer::Metric::DownloadWindowSecond(second, count))
    };
    torrent.downloaded_window_second = (1, 1);
    assert!(check(&torrent, event(1, metric(1, usize::MAX - 1))));
    assert!(!check(&torrent, event(1, metric(1, usize::MAX))));
    assert!(check(&torrent, event(1, metric(2, usize::MAX))));
    torrent.pieces[1].have = usize::MAX;
    torrent.peers[0].state.as_mut().unwrap().bitfield = Some(vec![false, false]);
    assert!(check(&torrent, event(1, have(0))));
    assert!(!check(&torrent, event(1, have(1))));
    assert!(!check(&torrent, event(1, bits(2))));
    // What the peer is known to have is not counted again.
    torrent.peers[0].state.as_mut().unwrap().bitfield = Some(vec![false, true]);
    assert!(check(&torrent, event(1, have(0))));
    assert!(check(&torrent, event(1, have(1))));
    assert!(check(&torrent, event(1, bits(2))));
    let choked = state_event(peer::StateEvent::FieldChoked(true));
    assert!(check(&torrent, event(1, choked)));
    // The first report counts only where nothing is known, and the others only where
    // something is.
    assert!(check(&torrent, event(2, have(1))));
    assert!(check(&torrent, event(2, have(2))));
    assert!(check(&torrent, event(2, bits(1))));
    let init = || {
        let state = peer::State { bitfield: Some(vec![true]), ..initial_state() };
        state_event(peer::StateEvent::Init(state))
    };
    assert!(!check(&torrent, event(2, init())));
    assert!(check(&torrent, event(1, init())));
}

#[test]
fn a_piece_that_is_announced_twice_is_counted_once() {
    let mut torrent = torrent_with_peers();
    torrent.peers[0].state.as_mut().unwrap().bitfield = Some(vec![true, false]);
    torrent.pieces[1].have = usize::MAX - 1;
    let have = || event(1, state_event(peer::StateEvent::FieldHave(1)));
    assert!(check_report(&torrent, &have()));
    process_event(&mut torrent, have());
    assert_eq!(torrent.pieces[1].have, usize::MAX);
    let shown = format!("{:?}", torrent);
    assert!(check_report(&torrent, &have()));
    process_event(&mut torrent, have());
    assert_eq!(format!("{:?}", torrent), shown);
}

#[test]
fn a_clock_that_is_turned_back_is_noticed() {
    let mut torrent = torrent_with_peers();
    torrent.blocks[0].data_status = BlockStatus::Requested(5);
    assert!(check_requests(&torrent, 5));
    assert!(!check_requests(&torrent, 4));
}

#[test]
fn the_clock_matters_where_connections_are_started() {
    let mut torrent = torrent_with_peers();
    let mut scheduler = Scheduler::new();
    let now = 100 * SECOND;
    let (_, round) = scheduler.enqueue_pending_blocks(&mut torrent, &vec![false, false], 500, now);
    let mut round = round.unwrap();
    torrent.peers[1].last_initiated_at = Some(now + 5);
    // The first peer offers the block.
    assert!(check_starts(&torrent, &round, now));
    assert!(matches!(
        scheduler.schedule(&mut torrent, &mut round, now),
        Step::Request(0, _)
    ));
    assert!(check_starts(&torrent, &round, now));
    scheduler.requested(&mut torrent, &mut round, false, now);
    // Nobody offers the next.
    assert!(!check_starts(&torrent, &round, now));
    assert!(!check_starts(&torrent, &round, now + 4));
    assert!(check_starts(&torrent, &round, now + 5));
    match scheduler.schedule(&mut torrent, &mut round, now + 5) {
        Step::Start(peers) => assert_eq!(peers, vec![0]),
        _ => panic!("connections are to be started"),
    }
}

#[test]
fn an_empty_file_shares_the_place_of_the_next() {
    let mut shared = meta();
    shared.files = vec![file("a", 4), file("empty", 0), file("b", 4)];
    let mut torrent = Torrent::new([1u8; 20], "/data", &shared);
    let blocks: Vec<_> = torrent
        .blocks
        .iter()
        .map(|b| (b.file_index, b.piece_index, b.begin, b.length))
        .collect();
    assert_eq!(blocks, vec![(0, 0, 0, 4), (2, 1, 0, 4)]);
    assert_eq!(torrent.files[1].block_ids, vec![id(1, 0)]);
    // The empty file lists the block, but it is not one of its own: the file waits.
    torrent.write_block(id(1, 0));
    torrent.verify_blocks_and_files(&vec![(1, true)]);
    assert!(matches!(torrent.verify_and_write_file(1), FileStep::Wait));
    assert!(matches!(torrent.verify_and_write_file(2), FileStep::Write(_, _)));
    // Once the empty file is found, the block is said to be in its own file, which is not
    // written.
    let mut torrent = Torrent::new([1u8; 20], "/data", &shared);
    torrent.sync_with_disk(&vec![], &vec![entry("empty", "/data/dir/empty", 0)]);
    assert!(matches!(torrent.blocks[1].data_status, BlockStatus::PersistedInFile));
    assert!(torrent.files[2].path.is_none());
    assert!(!torrent.can_read_piece(1));
    assert!(torrent.can_read_piece(0));
    assert!(matches!(torrent.verify_and_write_file(2), FileStep::Wait));
}

#[test]
fn connections_are_closed_at_the_end() {
    let mut controller = Controller::new([1u8; 20], &meta(), "/data");
    controller.torrent = torrent_with_peers();
    controller.torrent.peers[0].started = true;
    controller.torrent.peers[1].started = true;
    controller.torrent.finish_file(0, String::from("/data/dir/a"));
    controller.torrent.finish_file(1, String::from("/data/dir/sub/b"));
    assert_eq!(controller.cleanup(), vec![0]);
    assert!(controller
        .torrent
        .peers
        .iter()
        .all(|p| !p.connected && !p.started && p.state.is_none()));
}
