use bittorrent_client::bencode::{DecodeError, FileInfo, MetaInfo, PieceInfo};
use bittorrent_client::torrent::models::{BlockId, Torrent};
use bittorrent_client::torrent::tracker::{
    announce_request, build_announce_request, connect_request, http_announce_url, http_peers,
    read_announce_response, read_connect_response, start_announce, start_connect, AnnounceStep,
    TrackerError, TrackerManager,
};

const SECOND: u128 = 1_000_000_000;

fn texts(list: &[&str]) -> Vec<String> {
    list.iter().map(|text| text.to_string()).collect()
}

fn torrent() -> Torrent {
    let meta = MetaInfo {
        info_hash: [0x12; 20],
        tracker: String::from("http://t/"),
        files: vec![FileInfo { relative_path: String::from("a"), length: 10 }],
        directory: None,
        pieces: (0..3).map(|_| PieceInfo { hash: [0; 20], length: 4 }).collect(),
    };
    Torrent::new([0x34; 20], "/data", &meta)
}

#[test]
fn trackers_are_parsed_once_each() {
    let urls = texts(&["http://tracker:80/an", "udp://t:6969", "http://tracker/an"]);
    let manager = TrackerManager::new(&urls).unwrap();
    assert_eq!(manager.client_port_base, 22457);
    assert_eq!(manager.trackers.len(), 2);
    assert_eq!(manager.trackers[0].url.text, "http://tracker/an");
    assert_eq!(manager.trackers[0].url.scheme, "http");
    assert_eq!(manager.trackers[1].url.host, Some(String::from("t")));
    assert_eq!(manager.trackers[1].url.port, Some(6969));
}

#[test]
fn a_tracker_needs_a_url() {
    let urls = texts(&["http://tracker/an", "no url"]);
    assert_eq!(TrackerManager::new(&urls).unwrap_err(), TrackerError::InvalidUrl);
}

#[test]
fn trackers_are_asked_in_turn() {
    let urls = texts(&["http://a/", "udp://b:1", "wss://c/", "https://d/"]);
    let mut manager = TrackerManager::new(&urls).unwrap();
    let now = 1000 * SECOND;
    let mut round = manager.start_round(100);
    let mut steps = vec![];
    loop {
        let step = manager.sync_with_trackers(&mut round, now).unwrap();
        steps.push(step);
        match step {
            AnnounceStep::Http(i, port) => {
                let named = vec![(String::from("1.1.1.1"), port)];
                manager.announced(&mut round, i, named, now);
            }
            AnnounceStep::Udp(i, _) | AnnounceStep::Unsupported(i) => {
                manager.announced(&mut round, i, vec![], now)
            }
            AnnounceStep::Done => break,
        }
    }
    assert_eq!(
        steps,
        vec![
            AnnounceStep::Http(0, 22458),
            AnnounceStep::Udp(1, 22459),
            AnnounceStep::Unsupported(2),
            AnnounceStep::Http(3, 22461),
            AnnounceStep::Done,
        ]
    );
    assert_eq!(
        round.peers,
        vec![(String::from("1.1.1.1"), 22458), (String::from("1.1.1.1"), 22461)]
    );
    assert_eq!(manager.trackers[0].client_port, Some(22458));
    assert_eq!(manager.trackers[0].last_announced_at, Some(now));
    // They are left alone for a minute.
    let mut round = manager.start_round(100);
    assert_eq!(
        manager.sync_with_trackers(&mut round, now + 60 * SECOND - 1),
        Ok(AnnounceStep::Done)
    );
    assert_eq!(
        manager.sync_with_trackers(&mut round, now + 60 * SECOND),
        Ok(AnnounceStep::Http(0, 22462))
    );
    let mut round = manager.start_round(100);
    assert_eq!(
        manager.sync_with_trackers(&mut round, now - 1),
        Err(TrackerError::ClockTurnedBack)
    );
}

#[test]
fn a_port_is_needed_only_where_a_tracker_is_due() {
    let mut manager = TrackerManager::new(&texts(&["http://a/"])).unwrap();
    let now = 1000 * SECOND;
    let mut round = manager.start_round(100);
    manager.client_port_base = 65534;
    assert!(manager.check_port(&round, now));
    assert_eq!(manager.sync_with_trackers(&mut round, now), Ok(AnnounceStep::Http(0, 65535)));
    manager.announced(&mut round, 0, vec![], now);
    // No port is left, and no tracker is due.
    assert!(manager.check_port(&round, now));
    assert_eq!(manager.sync_with_trackers(&mut round, now), Ok(AnnounceStep::Done));
    let mut round = manager.start_round(100);
    assert!(manager.check_port(&round, now + SECOND));
    assert!(!manager.check_port(&round, now + 60 * SECOND));
    assert_eq!(
        manager.sync_with_trackers(&mut round, now + SECOND),
        Ok(AnnounceStep::Done)
    );
}

#[test]
fn a_round_ends_with_enough_peers() {
    let mut manager = TrackerManager::new(&texts(&["http://a/", "http://b/"])).unwrap();
    let mut round = manager.start_round(1);
    let now = SECOND;
    assert_eq!(
        manager.sync_with_trackers(&mut round, now),
        Ok(AnnounceStep::Http(0, 22458))
    );
    manager.announced(&mut round, 0, vec![(String::from("1.1.1.1"), 1)], now);
    assert!(round.ended);
    assert_eq!(manager.sync_with_trackers(&mut round, now), Ok(AnnounceStep::Done));
}

#[test]
fn blocks_are_counted_for_the_announcement() {
    let mut torrent = torrent();
    let request = build_announce_request(&torrent);
    assert_eq!((request.downloaded, request.left, request.uploaded), (0, 3, 0));
    assert_eq!((request.event, request.ip_address, request.key), (0, 0, 0));
    assert_eq!(request.num_want, -1);
    torrent.write_block(BlockId { piece_index: 1, begin: 0 });
    let request = build_announce_request(&torrent);
    assert_eq!((request.downloaded, request.left), (1, 2));
}

#[test]
fn the_query_names_torrent_and_client() {
    let url = http_announce_url("http://tracker/an?old=1", &[0x12; 20], &[0xfe; 20]).unwrap();
    let expected = format!(
        "http://tracker/an?info_hash={}&peer_id={}",
        "%12".repeat(20),
        "%FE".repeat(20)
    );
    assert_eq!(url, expected);
    assert_eq!(
        http_announce_url("no url", &[0; 20], &[0; 20]),
        Err(TrackerError::InvalidUrl)
    );
}

#[test]
fn peers_are_named_by_http() {
    let response = b"d5:peersld2:ip7:1.2.3.44:porti5eeee";
    assert_eq!(http_peers(response), Ok(vec![(String::from("1.2.3.4"), 5)]));
    assert_eq!(http_peers(b"d5:peers1:ae"), Err(DecodeError::InvalidPeers));
}

#[test]
fn connections_are_requested_by_udp() {
    assert_eq!(
        connect_request(-2),
        vec![0, 0, 0x04, 0x17, 0x27, 0x10, 0x19, 0x80, 0, 0, 0, 0, 255, 255, 255, 254]
    );
    let (transaction_id, request) = start_connect();
    assert_eq!(request, connect_request(transaction_id));
    let (first, _) = start_connect();
    let (second, _) = start_connect();
    let (third, _) = start_connect();
    assert!(first != second || second != third);
}

#[test]
fn connections_are_granted_by_udp() {
    let mut response = vec![0, 0, 0, 0, 255, 255, 255, 254, 1, 2, 3, 4, 5, 6, 7, 8];
    assert_eq!(read_connect_response(&response, -2), Ok(0x0102030405060708));
    assert_eq!(read_connect_response(&response, 2), Err(TrackerError::InvalidResponse));
    assert_eq!(
        read_connect_response(&response[..15], -2),
        Err(TrackerError::InvalidResponse)
    );
    response[3] = 3;
    assert_eq!(read_connect_response(&response, -2), Err(TrackerError::InvalidResponse));
}

#[test]
fn torrents_are_announced_by_udp() {
    let request = build_announce_request(&torrent());
    let message =
        announce_request(0x0102030405060708, 7, &[0x12; 20], &[0x34; 20], &request, 22458);
    assert_eq!(message.len(), 98);
    assert_eq!(&message[0..8], &[1, 2, 3, 4, 5, 6, 7, 8]);
    assert_eq!(&message[8..16], &[0, 0, 0, 1, 0, 0, 0, 7]);
    assert_eq!(&message[16..36], &[0x12; 20]);
    assert_eq!(&message[36..56], &[0x34; 20]);
    assert_eq!(&message[56..64], &[0; 8]);
    assert_eq!(&message[64..72], &[0, 0, 0, 0, 0, 0, 0, 3]);
    assert_eq!(&message[72..92], &[0; 20]);
    assert_eq!(&message[92..96], &[255; 4]);
    assert_eq!(&message[96..98], &[0x57, 0xba]);
    let (transaction_id, message) = start_announce(9, &[1; 20], &[2; 20], &request, 3);
    assert_eq!(message, announce_request(9, transaction_id, &[1; 20], &[2; 20], &request, 3));
}

#[test]
fn peers_are_named_by_udp() {
    let mut response = vec![0, 0, 0, 1, 0, 0, 0, 7];
    response.extend_from_slice(&[0; 12]);
    assert_eq!(read_announce_response(&response, 7), Ok(vec![]));
    response.extend_from_slice(&[10, 0, 0, 1, 0x1a, 0xe1, 10, 0, 0, 2, 0, 80, 99]);
    assert_eq!(
        read_announce_response(&response, 7),
        Ok(vec![(String::from("10.0.0.1"), 6881), (String::from("10.0.0.2"), 80)])
    );
    assert_eq!(read_announce_response(&response, 8), Err(TrackerError::InvalidResponse));
    assert_eq!(
        read_announce_response(&response[..19], 7),
        Err(TrackerError::InvalidResponse)
    );
    response[3] = 0;
    assert_eq!(read_announce_response(&response, 7), Err(TrackerError::InvalidResponse));
}

#[test]
fn named_peers_are_added_once() {
    let mut torrent = torrent();
    let named = vec![(String::from("1.1.1.1"), 1), (String::from("1.1.1.1"), 2)];
    torrent.sync_with_tracker(&named);
    torrent.peers[0].connected = true;
    torrent.sync_with_tracker(&named);
    assert_eq!(torrent.peers.len(), 2);
    assert!(torrent.peers[0].connected);
}
