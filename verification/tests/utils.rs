use bittorrent_client::path::{join_path, same_path};
use bittorrent_client::text::{
    append_decimal, append_padded_decimal, bytes_equal, parse_number, same_text,
};
use bittorrent_client::utils;

#[test]
fn bytes_to_hex_encoding_works() {
    let bytes = [0x12];
    assert_eq!(utils::bytes_to_hex_encoding(&bytes), "%12");
}

#[test]
fn sha1_hash_works() {
    let val = String::from("test_123_jsdknv");
    let expected_hash: [u8; 20] = [
        0xC4, 0xD4, 0x85, 0xCA, 0xBF, 0x76, 0x52, 0xBF, 0xE2, 0x2A, 0x50, 0xED, 0xC4, 0xC0,
        0x6A, 0xAD, 0x0C, 0x2B, 0x7B, 0x2E,
    ];
    assert_eq!(utils::sha1_hash(&val.into_bytes()[..]), expected_hash);
}

#[test]
fn percent_encoding_has_three_characters_for_each_byte() {
    assert_eq!(utils::bytes_to_hex_encoding(&[]), "");
    assert_eq!(utils::bytes_to_hex_encoding(&[0x00, 0x0f, 0xf0, 0xab]), "%00%0F%F0%AB");
}

#[test]
fn sha1_of_nothing_is_known() {
    let digest = utils::sha1_hash(&[]);
    assert_eq!(
        utils::bytes_to_hex_encoding(&digest),
        "%DA%39%A3%EE%5E%6B%4B%0D%32%55%BF%EF%95%60%18%90%AF%D8%07%09"
    );
}

#[test]
fn numerals_are_written_and_read() {
    let mut text = String::new();
    append_decimal(&mut text, 0);
    append_decimal(&mut text, 18446744073709551615);
    assert_eq!(text, "018446744073709551615");
    let mut padded = String::new();
    append_padded_decimal(&mut padded, 42, 5);
    append_padded_decimal(&mut padded, 123456, 5);
    assert_eq!(padded, "00042123456");
    assert_eq!(parse_number(b"+17", 100), Some(17));
    assert_eq!(parse_number(b"00017", 100), Some(17));
    assert_eq!(parse_number(b"101", 100), None);
    assert_eq!(parse_number(b"-1", 100), None);
    assert_eq!(parse_number(b"", 100), None);
    assert_eq!(parse_number(b"+", 100), None);
}

#[test]
fn texts_and_bytes_are_compared() {
    assert!(same_text("abc", "abc"));
    assert!(!same_text("abc", "ab"));
    assert!(bytes_equal(&[1, 2], &[1, 2]));
    assert!(!bytes_equal(&[1, 2], &[1, 3]));
}

#[test]
fn paths_are_joined() {
    assert_eq!(join_path("/data", "a/b"), "/data/a/b");
    assert_eq!(join_path("/data/", "a"), "/data/a");
    assert_eq!(join_path("", "a"), "a");
    assert_eq!(join_path("/data", "/etc"), "/etc");
    assert_eq!(join_path("/data", ""), "/data/");
    let std_path = std::path::PathBuf::from("/data").join("a/b");
    assert_eq!(join_path("/data", "a/b"), std_path.to_str().unwrap());
}

#[test]
fn paths_are_compared_by_components() {
    let cases = vec![
        ("/a/b", "/a//b/", true),
        ("/a/./b", "/a/b", true),
        ("./a", "a", false),
        ("a/b", "/a/b", false),
        ("a/../b", "b", false),
        ("", "", true),
        ("/", "//", true),
        ("a", "b", false),
    ];
    for (a, b, same) in cases {
        assert_eq!(same_path(a, b), same);
        assert_eq!(std::path::Path::new(a) == std::path::Path::new(b), same);
    }
}
