use bittorrent_client::bencode::{
    decode_metainfo, decode_metainfo_tokens, decode_peers, decode_peers_tokens, dotted_address,
    DecodeError,
};
use bittorrent_client::bencode::token::Token;
use bittorrent_client::utils::sha1_hash;

fn hashes(count: usize) -> Vec<u8> {
    (0..count * 20).map(|i| (i / 20) as u8 + 1).collect()
}

fn info(count: usize) -> Vec<u8> {
    let mut out = b"d5:filesld6:lengthi3e4:pathl1:aeed6:lengthi5e4:pathl1:b1:ceee".to_vec();
    out.extend_from_slice(b"4:name3:dir12:piece lengthi4e6:pieces");
    out.extend_from_slice(format!("{}:", count * 20).as_bytes());
    out.extend_from_slice(&hashes(count));
    out.push(b'e');
    out
}

fn torrent_file(info: &[u8]) -> Vec<u8> {
    let mut out = b"d8:announce17:http://tracker/an4:info".to_vec();
    out.extend_from_slice(info);
    out.push(b'e');
    out
}

#[test]
fn metainfo_is_decoded() {
    let info = info(2);
    let meta = decode_metainfo(&torrent_file(&info)).unwrap();
    assert_eq!(meta.tracker, "http://tracker/an");
    assert_eq!(meta.directory, Some(String::from("dir")));
    assert_eq!(meta.files.len(), 2);
    assert_eq!(meta.files[0].relative_path, "a");
    assert_eq!(meta.files[0].length, 3);
    assert_eq!(meta.files[1].relative_path, "b/c");
    assert_eq!(meta.files[1].length, 5);
    assert_eq!(meta.pieces.len(), 2);
    assert_eq!(meta.pieces[0].hash, [1u8; 20]);
    assert_eq!(meta.pieces[1].hash, [2u8; 20]);
    assert_eq!(meta.pieces[0].length, 4);
    assert_eq!(meta.pieces[1].length, 4);
}

#[test]
fn the_info_hash_is_of_the_bytes_of_the_info_dictionary() {
    let info = info(2);
    let meta = decode_metainfo(&torrent_file(&info)).unwrap();
    assert_eq!(meta.info_hash, sha1_hash(&info));
}

#[test]
fn the_info_dictionary_tells_the_torrent() {
    let info = info(2);
    let one = decode_metainfo(&torrent_file(&info)).unwrap();
    let mut bytes = b"d8:announce5:other7:comment2:no13:creation datei7e4:info".to_vec();
    bytes.extend_from_slice(&info);
    bytes.extend_from_slice(b"8:url-listl1:aee");
    let other = decode_metainfo(&bytes).unwrap();
    assert_eq!(other.tracker, "other");
    assert_eq!(one.info_hash, sha1_hash(&info));
    assert_eq!(one.info_hash, other.info_hash);
    assert_eq!(one.directory, other.directory);
    assert_eq!(format!("{:?}", one.files), format!("{:?}", other.files));
    assert_eq!(format!("{:?}", one.pieces), format!("{:?}", other.pieces));
}

#[test]
fn a_name_with_a_length_is_the_last_file() {
    let mut with_files = b"d5:filesld6:lengthi3e4:pathl1:aeee6:lengthi9e4:name3:top".to_vec();
    with_files.extend_from_slice(b"12:piece lengthi4e6:pieces0:e");
    let meta = decode_metainfo(&torrent_file(&with_files)).unwrap();
    assert_eq!(meta.directory, None);
    assert_eq!(meta.files.len(), 2);
    assert_eq!(meta.files[0].relative_path, "a");
    assert_eq!(meta.files[0].length, 3);
    assert_eq!(meta.files[1].relative_path, "top");
    assert_eq!(meta.files[1].length, 9);
}

#[test]
fn a_torrent_of_one_file_has_that_file_and_no_directory() {
    let mut bytes = b"d8:announce3:url4:infod6:lengthi7e4:name1:n12:piece lengthi7e".to_vec();
    bytes.extend_from_slice(b"6:pieces20:AAAAAAAAAAAAAAAAAAAAee");
    let meta = decode_metainfo(&bytes).unwrap();
    assert_eq!(meta.tracker, "url");
    assert_eq!(meta.directory, None);
    assert_eq!(meta.files.len(), 1);
    assert_eq!(meta.files[0].relative_path, "n");
    assert_eq!(meta.files[0].length, 7);
    assert_eq!(meta.pieces.len(), 1);
    assert_eq!(meta.pieces[0].hash, [0x41u8; 20]);
    assert_eq!(meta.pieces[0].length, 7);
    let info = &bytes[bytes.len() - 72..bytes.len() - 1];
    assert!(info.starts_with(b"d6:length") && info.ends_with(b"Ae"));
    assert_eq!(meta.info_hash, sha1_hash(info));
}

#[test]
fn a_name_without_a_length_is_the_directory() {
    let info = b"d5:filesld6:lengthi3e4:pathl1:aeee4:name3:top12:piece lengthi4e6:pieces0:e";
    let meta = decode_metainfo(&torrent_file(info)).unwrap();
    assert_eq!(meta.directory, Some(String::from("top")));
    assert_eq!(meta.files.len(), 1);
    assert_eq!(meta.files[0].relative_path, "a");
}

#[test]
fn files_without_path_or_length_are_left_out() {
    let info = b"d5:filesld6:lengthi3eed4:pathl1:beed6:lengthi7e4:pathl1:ceee4:name1:d6:pieces0:e";
    let meta = decode_metainfo(&torrent_file(info)).unwrap();
    assert_eq!(meta.files.len(), 1);
    assert_eq!(meta.files[0].relative_path, "c");
}

#[test]
fn faulty_metainfo_is_refused() {
    let good = info(2);
    let cases: Vec<Vec<u8>> = vec![
        b"".to_vec(),
        b"le".to_vec(),
        b"i1e".to_vec(),
        // No tracker.
        [b"d4:info".to_vec(), good.clone(), b"e".to_vec()].concat(),
        // No info.
        b"d8:announce3:abce".to_vec(),
        // A tracker that is no text.
        [b"d8:announce1:\xff4:info".to_vec(), good.clone(), b"e".to_vec()].concat(),
        // The info dictionary is cut off.
        [b"d8:announce1:a4:info".to_vec(), good[..good.len() - 1].to_vec()].concat(),
        // Half a hash.
        torrent_file(b"d4:name1:a12:piece lengthi4e6:pieces3:abce"),
        // Hashes without a length.
        torrent_file(b"d4:name1:a6:pieces20:aaaaaaaaaaaaaaaaaaaae"),
        // A negative length.
        torrent_file(b"d6:lengthi-1e4:name1:a12:piece lengthi4e6:pieces0:e"),
        // A length that is too great for its field.
        torrent_file(b"d4:name1:a12:piece lengthi4294967296e6:pieces0:e"),
    ];
    for case in cases {
        assert_eq!(decode_metainfo(&case).unwrap_err(), DecodeError::InvalidMetaInfo);
    }
}

#[test]
fn metainfo_is_decoded_from_tokens() {
    let bytes = |text: &str| Token::Bytes(text.as_bytes().to_vec());
    let tokens = vec![
        Token::Dict,
        bytes("announce"),
        bytes("udp://t"),
        bytes("info"),
        Token::Dict,
        bytes("name"),
        bytes("n"),
        bytes("piece length"),
        Token::Integer(b"16".to_vec()),
        Token::End,
        Token::End,
    ];
    let meta = decode_metainfo_tokens(&tokens).unwrap();
    assert_eq!(meta.tracker, "udp://t");
    assert_eq!(meta.directory, Some(String::from("n")));
    assert_eq!(meta.info_hash, sha1_hash(b"d4:name1:n12:piece lengthi16ee"));
    assert!(meta.pieces.is_empty());
}

#[test]
fn compact_peers_are_decoded() {
    let mut response = b"d8:intervali900e5:peers12:".to_vec();
    response.extend_from_slice(&[192, 168, 0, 1, 0x1a, 0xe1, 10, 0, 0, 255, 0, 80]);
    response.push(b'e');
    let peers = decode_peers(&response).unwrap();
    assert_eq!(peers.len(), 2);
    assert_eq!((peers[0].ip.as_str(), peers[0].port), ("192.168.0.1", 6881));
    assert_eq!((peers[1].ip.as_str(), peers[1].port), ("10.0.0.255", 80));
}

#[test]
fn listed_peers_are_decoded() {
    let response = b"d5:peersld2:ip3:::14:porti6881eed2:ip7:1.2.3.44:porti1eeee";
    let peers = decode_peers(response).unwrap();
    assert_eq!(peers.len(), 2);
    assert_eq!((peers[0].ip.as_str(), peers[0].port), ("::1", 6881));
    assert_eq!((peers[1].ip.as_str(), peers[1].port), ("1.2.3.4", 1));
}

#[test]
fn both_forms_name_the_same_peers() {
    let ports = [6881u16, 1, 65535, 0, 6881];
    let mut bytes = vec![];
    let mut list = vec![];
    for (i, port) in ports.iter().enumerate() {
        let last = if i == 4 { 0 } else { i as u8 };
        bytes.extend_from_slice(&[10, 200, 0, last, (port / 256) as u8, (port % 256) as u8]);
        let ip = format!("10.200.0.{}", last);
        let peer = format!("d2:ip{}:{}4:porti{}ee", ip.len(), ip, port);
        list.extend_from_slice(peer.as_bytes());
    }
    let mut compact = b"d8:intervali9e5:peers30:".to_vec();
    compact.extend_from_slice(&bytes);
    compact.push(b'e');
    let listed = [b"d5:peersl".to_vec(), list, b"e3:zzzlee".to_vec()].concat();
    let read = |response: &[u8]| -> Vec<(String, u16)> {
        decode_peers(response).unwrap().into_iter().map(|peer| (peer.ip, peer.port)).collect()
    };
    let named = read(&compact);
    assert_eq!(named.len(), 5);
    assert_eq!(named[2], (String::from("10.200.0.2"), 65535));
    assert_eq!(named[0], named[4]);
    assert_eq!(named, read(&listed));
}

#[test]
fn faulty_peers_are_refused() {
    let cases: Vec<&[u8]> = vec![
        b"d5:peers5:abcdee",
        b"d5:peersld2:ip7:1.2.3.4eee",
        b"d5:peersld4:porti1eeee",
        b"d5:peersld2:ip1:\xff4:porti1eeee",
        b"d5:peersld2:ip7:1.2.3.44:porti65536eeee",
    ];
    for case in cases {
        assert_eq!(decode_peers(case).unwrap_err(), DecodeError::InvalidPeers);
    }
}

#[test]
fn a_response_without_peers_has_none() {
    assert!(decode_peers(b"").unwrap().is_empty());
    assert!(decode_peers(b"le").unwrap().is_empty());
    assert!(decode_peers(b"d14:failure reason3:noee").unwrap().is_empty());
    assert!(decode_peers_tokens(&vec![Token::Malformed]).unwrap().is_empty());
}

#[test]
fn addresses_are_written_with_dots() {
    assert_eq!(dotted_address(&[9, 127, 0, 0, 1], 1), "127.0.0.1");
}
