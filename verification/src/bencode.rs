//! Torrent metainfo and tracker responses, read from bencoded data.

pub mod laws;
pub mod span;
pub mod token;

use vstd::prelude::*;
use vstd::string::*;
use vstd::utf8::*;

use crate::path::{join_path, joined};
use crate::text::{append_decimal, decimal, parse_number, parsed_number, utf8_text};
use crate::utils::{sha1_digest, sha1_hash};
use token::{
    bencode_tokens, close_end, close_value, closes, entry_at, has_key, has_plain_numbers,
    is_entry, is_live, key_at, lemma_close_end, lemma_value_end, live, skip_value, span_text,
    span_text_is_contiguous, token_views, tokenize, tokens_text, value_end, Token, TokenView,
};

verus! {

pub const ANNOUNCE_KEY: &'static str = "announce";

pub const INFO_KEY: &'static str = "info";

pub const NAME_KEY: &'static str = "name";

pub const PATH_KEY: &'static str = "path";

pub const LENGTH_KEY: &'static str = "length";

pub const FILES_KEY: &'static str = "files";

pub const PIECE_LENGTH_KEY: &'static str = "piece length";

pub const PIECES_KEY: &'static str = "pieces";

pub const PEERS_KEY: &'static str = "peers";

pub const IP_KEY: &'static str = "ip";

pub const PORT_KEY: &'static str = "port";

/// The length of an info hash, in bytes.
pub const INFO_HASH_BYTE_LEN: usize = 20;

/// The length of a piece hash, in bytes.
pub const PIECE_HASH_BYTE_LEN: usize = 20;

/// A file of a torrent.
#[derive(Debug)]
pub struct FileInfo {
    pub relative_path: String,
    pub length: u64,
}

pub struct FileInfoView {
    pub relative_path: Seq<char>,
    pub length: u64,
}

impl View for FileInfo {
    type V = FileInfoView;

    open spec fn view(&self) -> FileInfoView {
        FileInfoView { relative_path: self.relative_path@, length: self.length }
    }
}

/// A piece of a torrent.
#[derive(Debug)]
pub struct PieceInfo {
    pub hash: [u8; PIECE_HASH_BYTE_LEN],
    pub length: usize,
}

pub struct PieceInfoView {
    pub hash: Seq<u8>,
    pub length: int,
}

impl View for PieceInfo {
    type V = PieceInfoView;

    open spec fn view(&self) -> PieceInfoView {
        PieceInfoView { hash: self.hash@, length: self.length as int }
    }
}

/// A peer that a tracker names.
#[derive(Debug)]
pub struct PeerInfo {
    pub ip: String,
    pub port: u16,
}

pub struct PeerInfoView {
    pub ip: Seq<char>,
    pub port: int,
}

impl View for PeerInfo {
    type V = PeerInfoView;

    open spec fn view(&self) -> PeerInfoView {
        PeerInfoView { ip: self.ip@, port: self.port as int }
    }
}

/// What a torrent file says of its torrent.
#[derive(Debug)]
pub struct MetaInfo {
    pub info_hash: [u8; INFO_HASH_BYTE_LEN],
    pub tracker: String,
    pub files: Vec<FileInfo>,
    pub directory: Option<String>,
    pub pieces: Vec<PieceInfo>,
}

pub struct MetaInfoView {
    pub info_hash: Seq<u8>,
    pub tracker: Seq<char>,
    pub files: Seq<FileInfoView>,
    pub directory: Option<Seq<char>>,
    pub pieces: Seq<PieceInfoView>,
}

pub open spec fn file_views(files: Seq<FileInfo>) -> Seq<FileInfoView> {
    Seq::new(files.len(), |i: int| files[i]@)
}

pub open spec fn piece_views(pieces: Seq<PieceInfo>) -> Seq<PieceInfoView> {
    Seq::new(pieces.len(), |i: int| pieces[i]@)
}

pub open spec fn peer_views(peers: Seq<PeerInfo>) -> Seq<PeerInfoView> {
    Seq::new(peers.len(), |i: int| peers[i]@)
}

pub open spec fn text_view(text: Option<String>) -> Option<Seq<char>> {
    match text {
        Some(text) => Some(text@),
        None => None,
    }
}

impl View for MetaInfo {
    type V = MetaInfoView;

    open spec fn view(&self) -> MetaInfoView {
        MetaInfoView {
            info_hash: self.info_hash@,
            tracker: self.tracker@,
            files: file_views(self.files@),
            directory: text_view(self.directory),
            pieces: piece_views(self.pieces@),
        }
    }
}

impl Clone for FileInfo {
    fn clone(&self) -> (copied: Self)
        ensures
            copied@ == self@,
    {
        FileInfo { relative_path: self.relative_path.as_str().to_owned(), length: self.length }
    }
}

impl Clone for PieceInfo {
    fn clone(&self) -> (copied: Self)
        ensures
            copied@ == self@,
    {
        PieceInfo { hash: self.hash, length: self.length }
    }
}

impl Clone for PeerInfo {
    fn clone(&self) -> (copied: Self)
        ensures
            copied@ == self@,
    {
        PeerInfo { ip: self.ip.as_str().to_owned(), port: self.port }
    }
}

impl Clone for MetaInfo {
    fn clone(&self) -> (copied: Self)
        ensures
            copied@ == self@,
    {
        let mut files: Vec<FileInfo> = Vec::new();
        let mut i: usize = 0;
        while i < self.files.len()
            invariant
                i <= self.files@.len(),
                file_views(files@) == self@.files.take(i as int),
            decreases self.files@.len() - i,
        {
            let ghost before = file_views(files@);
            files.push(self.files[i].clone());
            proof {
                assert(file_views(files@) =~= before.push(self@.files[i as int]));
                assert(self@.files.take(i + 1) =~= self@.files.take(i as int).push(
                    self@.files[i as int],
                ));
            }
            i = i + 1;
        }
        let mut pieces: Vec<PieceInfo> = Vec::new();
        let mut j: usize = 0;
        while j < self.pieces.len()
            invariant
                j <= self.pieces@.len(),
                piece_views(pieces@) == self@.pieces.take(j as int),
            decreases self.pieces@.len() - j,
        {
            let ghost before = piece_views(pieces@);
            pieces.push(self.pieces[j].clone());
            proof {
                assert(piece_views(pieces@) =~= before.push(self@.pieces[j as int]));
                assert(self@.pieces.take(j + 1) =~= self@.pieces.take(j as int).push(
                    self@.pieces[j as int],
                ));
            }
            j = j + 1;
        }
        let directory = match &self.directory {
            Some(directory) => Some(directory.as_str().to_owned()),
            None => None,
        };
        proof {
            assert(file_views(files@) =~= self@.files);
            assert(piece_views(pieces@) =~= self@.pieces);
        }
        MetaInfo {
            info_hash: self.info_hash,
            tracker: self.tracker.as_str().to_owned(),
            files,
            directory,
            pieces,
        }
    }
}

/// Why bencoded data could not be decoded.
#[derive(Debug, Clone, Copy, PartialEq, Eq, Structural)]
pub enum DecodeError {
    /// It holds no metainfo.
    InvalidMetaInfo,
    /// It holds a peer that cannot be read.
    InvalidPeers,
}

// ---------------------------------------------------------------------------------------
// Metainfo

/// What has been read of the metainfo so far.
pub struct Draft {
    pub info_hash: Option<[u8; INFO_HASH_BYTE_LEN]>,
    pub tracker: Option<String>,
    pub name: Option<String>,
    pub length: Option<u64>,
    pub files: Vec<FileInfo>,
    pub piece_length: Option<u32>,
    pub hashes: Vec<[u8; PIECE_HASH_BYTE_LEN]>,
}

pub struct DraftView {
    pub info_hash: Option<Seq<u8>>,
    pub tracker: Option<Seq<char>>,
    pub name: Option<Seq<char>>,
    pub length: Option<u64>,
    pub files: Seq<FileInfoView>,
    pub piece_length: Option<u32>,
    pub hashes: Seq<Seq<u8>>,
}

pub open spec fn hash_view(hash: Option<[u8; INFO_HASH_BYTE_LEN]>) -> Option<Seq<u8>> {
    match hash {
        Some(hash) => Some(hash@),
        None => None,
    }
}

pub open spec fn hash_views(hashes: Seq<[u8; PIECE_HASH_BYTE_LEN]>) -> Seq<Seq<u8>> {
    Seq::new(hashes.len(), |i: int| hashes[i]@)
}

impl View for Draft {
    type V = DraftView;

    open spec fn view(&self) -> DraftView {
        DraftView {
            info_hash: hash_view(self.info_hash),
            tracker: text_view(self.tracker),
            name: text_view(self.name),
            length: self.length,
            files: file_views(self.files@),
            piece_length: self.piece_length,
            hashes: hash_views(self.hashes@),
        }
    }
}

/// Nothing read yet.
pub open spec fn empty_draft() -> DraftView {
    DraftView {
        info_hash: None,
        tracker: None,
        name: None,
        length: None,
        files: seq![],
        piece_length: None,
        hashes: seq![],
    }
}

/// The text of a byte string token.
pub open spec fn text_at(t: Seq<TokenView>, p: int) -> Option<Seq<char>> {
    if t[p] is Bytes && valid_utf8(t[p]->Bytes_0) {
        Some(decode_utf8(t[p]->Bytes_0))
    } else {
        None
    }
}

/// The number that an integer token denotes.
pub open spec fn number_at(t: Seq<TokenView>, p: int, max: nat) -> Option<nat> {
    if t[p] is Integer {
        parsed_number(t[p]->Integer_0, max)
    } else {
        None
    }
}

/// The path that the byte strings from `p` on add to `path`. `None` where one of them is no
/// text.
pub open spec fn path_from(t: Seq<TokenView>, p: int, path: Seq<char>) -> Option<Seq<char>>
    decreases t.len() - p,
{
    if live(t, p) && t[p] is Bytes {
        match text_at(t, p) {
            Some(component) => path_from(t, p + 1, joined(path, component)),
            None => None,
        }
    } else {
        Some(path)
    }
}

/// What the entries of a file's dictionary from `p` on say of its path and length, where
/// `path` and `length` are known before. `None` where an entry cannot be read.
pub open spec fn file_from(
    t: Seq<TokenView>,
    p: int,
    path: Option<Seq<char>>,
    length: Option<u64>,
) -> Option<(Option<Seq<char>>, Option<u64>)>
    decreases t.len() - p,
{
    if !entry_at(t, p) {
        Some((path, length))
    } else {
        proof {
            lemma_value_end(t, p + 1);
        }
        let next = value_end(t, p + 1);
        if key_at(t, p, PATH_KEY@) && t[p + 1] is List {
            match path_from(t, p + 2, seq![]) {
                Some(found) => file_from(t, next, Some(found), length),
                None => None,
            }
        } else if key_at(t, p, LENGTH_KEY@) && t[p + 1] is Integer {
            match number_at(t, p + 1, u64::MAX as nat) {
                Some(found) => file_from(t, next, path, Some(found as u64)),
                None => None,
            }
        } else {
            file_from(t, next, path, length)
        }
    }
}

/// The files that the dictionaries from `p` on add to `files`. A dictionary without a path
/// or a length adds none, and whatever is no dictionary ends the list.
pub open spec fn files_from(
    t: Seq<TokenView>,
    p: int,
    files: Seq<FileInfoView>,
) -> Option<Seq<FileInfoView>>
    decreases t.len() - p,
{
    if live(t, p) && t[p] is Dict {
        proof {
            lemma_value_end(t, p);
        }
        match file_from(t, p + 1, None, None) {
            Some((Some(relative_path), Some(length))) => files_from(
                t,
                value_end(t, p),
                files.push(FileInfoView { relative_path, length }),
            ),
            Some(_) => files_from(t, value_end(t, p), files),
            None => None,
        }
    } else {
        Some(files)
    }
}

/// The piece hashes in a byte string: one in each twenty bytes.
pub open spec fn hashes_in(value: Seq<u8>) -> Seq<Seq<u8>> {
    Seq::new(value.len() / 20, |i: int| value.subrange(20 * i, 20 * i + 20))
}

/// What the entry of the info dictionary at `p` adds to the draft.
pub open spec fn info_entry(t: Seq<TokenView>, p: int, draft: DraftView) -> Option<DraftView> {
    if key_at(t, p, NAME_KEY@) && t[p + 1] is Bytes {
        match text_at(t, p + 1) {
            Some(name) => Some(DraftView { name: Some(name), ..draft }),
            None => None,
        }
    } else if key_at(t, p, LENGTH_KEY@) && t[p + 1] is Integer {
        match number_at(t, p + 1, u64::MAX as nat) {
            Some(length) => Some(DraftView { length: Some(length as u64), ..draft }),
            None => None,
        }
    } else if key_at(t, p, FILES_KEY@) && t[p + 1] is List {
        match files_from(t, p + 2, draft.files) {
            Some(files) => Some(DraftView { files, ..draft }),
            None => None,
        }
    } else if key_at(t, p, PIECE_LENGTH_KEY@) && t[p + 1] is Integer {
        match number_at(t, p + 1, u32::MAX as nat) {
            Some(length) => Some(DraftView { piece_length: Some(length as u32), ..draft }),
            None => None,
        }
    } else if key_at(t, p, PIECES_KEY@) && t[p + 1] is Bytes {
        if t[p + 1]->Bytes_0.len() % 20 == 0 {
            Some(DraftView { hashes: draft.hashes + hashes_in(t[p + 1]->Bytes_0), ..draft })
        } else {
            None
        }
    } else {
        Some(draft)
    }
}

/// What the entries of the info dictionary from `p` on add to the draft.
pub open spec fn info_from(t: Seq<TokenView>, p: int, draft: DraftView) -> Option<DraftView>
    decreases t.len() - p,
{
    if !entry_at(t, p) {
        Some(draft)
    } else {
        proof {
            lemma_value_end(t, p + 1);
        }
        match info_entry(t, p, draft) {
            Some(next) => info_from(t, value_end(t, p + 1), next),
            None => None,
        }
    }
}

/// What the entry of the metainfo dictionary at `p` adds to the draft. The info hash is the
/// digest of the bytes of the info dictionary, which has to be closed.
pub open spec fn metainfo_entry(t: Seq<TokenView>, p: int, draft: DraftView) -> Option<DraftView> {
    if key_at(t, p, ANNOUNCE_KEY@) && t[p + 1] is Bytes {
        match text_at(t, p + 1) {
            Some(tracker) => Some(DraftView { tracker: Some(tracker), ..draft }),
            None => None,
        }
    } else if key_at(t, p, INFO_KEY@) && t[p + 1] is Dict {
        match info_from(t, p + 2, draft) {
            Some(next) => if closes(t, p + 2, 1) {
                Some(
                    DraftView {
                        info_hash: Some(sha1_digest(info_text(t, p + 1))),
                        ..next
                    },
                )
            } else {
                None
            },
            None => None,
        }
    } else {
        Some(draft)
    }
}

/// The bytes of the dictionary that starts at `p`.
pub open spec fn info_text(t: Seq<TokenView>, p: int) -> Seq<u8> {
    tokens_text(t.subrange(p, close_end(t, p + 1, 1)))
}

/// What the entries of the metainfo dictionary from `p` on add to the draft.
pub open spec fn metainfo_from(t: Seq<TokenView>, p: int, draft: DraftView) -> Option<DraftView>
    decreases t.len() - p,
{
    if !entry_at(t, p) {
        Some(draft)
    } else {
        proof {
            lemma_value_end(t, p + 1);
        }
        match metainfo_entry(t, p, draft) {
            Some(next) => metainfo_from(t, value_end(t, p + 1), next),
            None => None,
        }
    }
}

/// The metainfo that a draft holds. A name with a length is a file, the last one, and then
/// there is no directory; a name alone is the directory.
pub open spec fn completed(draft: DraftView) -> Option<MetaInfoView> {
    let named_file = draft.name is Some && draft.length is Some;
    if draft.tracker is None || draft.info_hash is None || (draft.hashes.len() > 0
        && draft.piece_length is None) {
        None
    } else {
        Some(
            MetaInfoView {
                info_hash: draft.info_hash->0,
                tracker: draft.tracker->0,
                files: if named_file {
                    draft.files.push(
                        FileInfoView { relative_path: draft.name->0, length: draft.length->0 },
                    )
                } else {
                    draft.files
                },
                directory: if named_file {
                    None
                } else {
                    draft.name
                },
                pieces: Seq::new(
                    draft.hashes.len(),
                    |i: int|
                        PieceInfoView {
                            hash: draft.hashes[i],
                            length: draft.piece_length->0 as int,
                        },
                ),
            },
        )
    }
}

/// The metainfo in a token stream: it is a dictionary.
pub open spec fn metainfo_in(t: Seq<TokenView>) -> Option<MetaInfoView> {
    if live(t, 0) && t[0] is Dict {
        match metainfo_from(t, 1, empty_draft()) {
            Some(draft) => completed(draft),
            None => None,
        }
    } else {
        None
    }
}

fn read_path(tokens: &Vec<Token>, start: usize) -> (path: Option<String>)
    requires
        start <= tokens@.len(),
    ensures
        text_view(path) == path_from(token_views(tokens@), start as int, seq![]),
{
    let ghost t = token_views(tokens@);
    let mut path = String::new();
    let mut p: usize = start;
    assert(path@ =~= seq![]);
    while is_live(tokens, p)
        invariant
            t == token_views(tokens@),
            start <= p <= tokens@.len(),
            path_from(t, start as int, seq![]) == path_from(t, p as int, path@),
        ensures
            !(live(t, p as int) && t[p as int] is Bytes),
        decreases tokens@.len() - p,
    {
        match &tokens[p] {
            Token::Bytes(bytes) => {
                match utf8_text(bytes) {
                    Some(component) => {
                        path = join_path(path.as_str(), component.as_str());
                    },
                    None => {
                        return None;
                    },
                }
            },
            _ => {
                break;
            },
        }
        p = p + 1;
    }
    Some(path)
}

fn read_file(tokens: &Vec<Token>, start: usize) -> (found: Option<(Option<String>, Option<u64>)>)
    requires
        start <= tokens@.len(),
    ensures
        found is Some <==> file_from(token_views(tokens@), start as int, None, None) is Some,
        found is Some ==> file_from(token_views(tokens@), start as int, None, None)->0 == (
            text_view((found->0).0),
            (found->0).1,
        ),
{
    let ghost t = token_views(tokens@);
    let mut path: Option<String> = None;
    let mut length: Option<u64> = None;
    let mut p: usize = start;
    while is_entry(tokens, p)
        invariant
            t == token_views(tokens@),
            start <= p <= tokens@.len(),
            file_from(t, start as int, None, None) == file_from(
                t,
                p as int,
                text_view(path),
                length,
            ),
        decreases tokens@.len() - p,
    {
        proof {
            lemma_value_end(t, p + 1);
        }
        match &tokens[p + 1] {
            Token::List => {
                if has_key(tokens, p, PATH_KEY) {
                    match read_path(tokens, p + 2) {
                        Some(found) => {
                            path = Some(found);
                        },
                        None => {
                            return None;
                        },
                    }
                }
            },
            Token::Integer(digits) => {
                if has_key(tokens, p, LENGTH_KEY) {
                    match parse_number(digits, u64::MAX) {
                        Some(found) => {
                            length = Some(found);
                        },
                        None => {
                            return None;
                        },
                    }
                }
            },
            _ => {},
        }
        p = skip_value(tokens, p + 1);
    }
    Some((path, length))
}

fn read_files(tokens: &Vec<Token>, start: usize, files: &mut Vec<FileInfo>) -> (ok: bool)
    requires
        start <= tokens@.len(),
    ensures
        ok <==> files_from(token_views(tokens@), start as int, file_views(old(files)@)) is Some,
        ok ==> file_views(final(files)@) == files_from(
            token_views(tokens@),
            start as int,
            file_views(old(files)@),
        )->0,
{
    let ghost t = token_views(tokens@);
    let mut p: usize = start;
    while is_live(tokens, p) && matches!(tokens[p], Token::Dict)
        invariant
            t == token_views(tokens@),
            start <= p <= tokens@.len(),
            files_from(t, start as int, file_views(old(files)@)) == files_from(
                t,
                p as int,
                file_views(files@),
            ),
        decreases tokens@.len() - p,
    {
        proof {
            lemma_value_end(t, p as int);
        }
        match read_file(tokens, p + 1) {
            Some((Some(relative_path), Some(length))) => {
                let ghost before = file_views(files@);
                files.push(FileInfo { relative_path, length });
                assert(file_views(files@) =~= before.push(
                    FileInfoView { relative_path: relative_path@, length },
                ));
            },
            Some(_) => {},
            None => {
                return false;
            },
        }
        p = skip_value(tokens, p);
    }
    true
}

fn hash_at(value: &[u8], start: usize) -> (hash: [u8; 20])
    requires
        start + 20 <= value@.len(),
    ensures
        hash@ == value@.subrange(start as int, start + 20),
{
    let length: usize = value.len();
    let mut hash: [u8; 20] = [0u8; 20];
    let mut i: usize = 0;
    while i < 20
        invariant
            i <= 20,
            start + 20 <= length,
            length == value@.len(),
            forall|k: int| 0 <= k < i ==> hash@[k] == value@[start + k],
        decreases 20 - i,
    {
        hash[i] = value[start + i];
        i = i + 1;
    }
    assert(hash@ =~= value@.subrange(start as int, start + 20));
    hash
}

fn read_hashes(value: &[u8], hashes: &mut Vec<[u8; PIECE_HASH_BYTE_LEN]>)
    requires
        value@.len() % 20 == 0,
    ensures
        hash_views(final(hashes)@) == hash_views(old(hashes)@) + hashes_in(value@),
{
    let mut offset: usize = 0;
    let ghost mut count: int = 0;
    assert(hash_views(hashes@) =~= hash_views(old(hashes)@) + hashes_in(value@).take(0));
    while offset < value.len()
        invariant
            value@.len() % 20 == 0,
            offset == 20 * count,
            0 <= count <= value@.len() / 20,
            hash_views(hashes@) == hash_views(old(hashes)@) + hashes_in(value@).take(count),
        decreases value@.len() - offset,
    {
        let hash = hash_at(value, offset);
        let ghost before = hash_views(hashes@);
        hashes.push(hash);
        offset = offset + 20;
        proof {
            assert(hashes_in(value@)[count] == hash@);
            count = count + 1;
            assert(hash_views(hashes@) =~= before.push(hash@));
            assert(hashes_in(value@).take(count) =~= hashes_in(value@).take(count - 1).push(
                hash@,
            ));
            assert(hash_views(hashes@) =~= hash_views(old(hashes)@) + hashes_in(value@).take(
                count,
            ));
        }
    }
    assert(hashes_in(value@).take(count) =~= hashes_in(value@));
}

fn read_info_entry(tokens: &Vec<Token>, p: usize, draft: &mut Draft) -> (ok: bool)
    requires
        entry_at(token_views(tokens@), p as int),
    ensures
        ok <==> info_entry(token_views(tokens@), p as int, old(draft)@) is Some,
        ok ==> final(draft)@ == info_entry(token_views(tokens@), p as int, old(draft)@)->0,
{
    let ghost t = token_views(tokens@);
    let ghost before = draft@;
    let length: usize = tokens.len();
    assert(p + 1 < length);
    match &tokens[p + 1] {
        Token::Bytes(value) => {
            if has_key(tokens, p, NAME_KEY) {
                match utf8_text(value) {
                    Some(name) => {
                        draft.name = Some(name);
                    },
                    None => {
                        return false;
                    },
                }
            } else if has_key(tokens, p, PIECES_KEY) {
                if value.len() % 20 != 0 {
                    return false;
                }
                read_hashes(value, &mut draft.hashes);
            }
        },
        Token::Integer(digits) => {
            if has_key(tokens, p, LENGTH_KEY) {
                match parse_number(digits, u64::MAX) {
                    Some(found) => {
                        draft.length = Some(found);
                    },
                    None => {
                        return false;
                    },
                }
            } else if has_key(tokens, p, PIECE_LENGTH_KEY) {
                match parse_number(digits, u32::MAX as u64) {
                    Some(found) => {
                        draft.piece_length = Some(found as u32);
                    },
                    None => {
                        return false;
                    },
                }
            }
        },
        Token::List => {
            if has_key(tokens, p, FILES_KEY) {
                if !read_files(tokens, p + 2, &mut draft.files) {
                    return false;
                }
            }
        },
        _ => {},
    }
    true
}

fn read_info(tokens: &Vec<Token>, start: usize, draft: &mut Draft) -> (ok: bool)
    requires
        start <= tokens@.len(),
    ensures
        ok <==> info_from(token_views(tokens@), start as int, old(draft)@) is Some,
        ok ==> final(draft)@ == info_from(token_views(tokens@), start as int, old(draft)@)->0,
{
    let ghost t = token_views(tokens@);
    let mut p: usize = start;
    while is_entry(tokens, p)
        invariant
            t == token_views(tokens@),
            start <= p <= tokens@.len(),
            info_from(t, start as int, old(draft)@) == info_from(t, p as int, draft@),
        decreases tokens@.len() - p,
    {
        proof {
            lemma_value_end(t, p + 1);
        }
        if !read_info_entry(tokens, p, draft) {
            return false;
        }
        p = skip_value(tokens, p + 1);
    }
    true
}

fn read_metainfo_entry(tokens: &Vec<Token>, p: usize, draft: &mut Draft) -> (ok: bool)
    requires
        entry_at(token_views(tokens@), p as int),
    ensures
        ok <==> metainfo_entry(token_views(tokens@), p as int, old(draft)@) is Some,
        ok ==> final(draft)@ == metainfo_entry(token_views(tokens@), p as int, old(draft)@)->0,
{
    let length: usize = tokens.len();
    assert(p + 1 < length);
    match &tokens[p + 1] {
        Token::Bytes(value) => {
            if has_key(tokens, p, ANNOUNCE_KEY) {
                match utf8_text(value) {
                    Some(tracker) => {
                        draft.tracker = Some(tracker);
                    },
                    None => {
                        return false;
                    },
                }
            }
        },
        Token::Dict => {
            if has_key(tokens, p, INFO_KEY) {
                if !read_info(tokens, p + 2, draft) {
                    return false;
                }
                let (closed, end) = close_value(tokens, p + 2);
                if !closed {
                    return false;
                }
                let text = span_text(tokens, p + 1, end);
                draft.info_hash = Some(sha1_hash(&text));
            }
        },
        _ => {},
    }
    true
}

fn pieces_of(hashes: Vec<[u8; PIECE_HASH_BYTE_LEN]>, length: u32) -> (pieces: Vec<PieceInfo>)
    ensures
        piece_views(pieces@) == Seq::new(
            hashes@.len(),
            |i: int| PieceInfoView { hash: hashes@[i]@, length: length as int },
        ),
{
    let mut pieces: Vec<PieceInfo> = Vec::new();
    let mut i: usize = 0;
    while i < hashes.len()
        invariant
            i <= hashes@.len(),
            pieces@.len() == i,
            forall|k: int|
                0 <= k < i ==> (#[trigger] pieces@[k])@ == (PieceInfoView {
                    hash: hashes@[k]@,
                    length: length as int,
                }),
        decreases hashes@.len() - i,
    {
        pieces.push(PieceInfo { hash: hashes[i], length: length as usize });
        i = i + 1;
    }
    assert(piece_views(pieces@) =~= Seq::new(
        hashes@.len(),
        |k: int| PieceInfoView { hash: hashes@[k]@, length: length as int },
    ));
    pieces
}

fn complete(draft: Draft) -> (metainfo: Option<MetaInfo>)
    ensures
        metainfo is Some <==> completed(draft@) is Some,
        metainfo is Some ==> metainfo->0@ == completed(draft@)->0,
{
    let ghost view = draft@;
    let Draft { info_hash, tracker, name, length, files, piece_length, hashes } = draft;
    let tracker = match tracker {
        Some(tracker) => tracker,
        None => {
            return None;
        },
    };
    let info_hash = match info_hash {
        Some(info_hash) => info_hash,
        None => {
            return None;
        },
    };
    let ghost hash_seq = hashes@;
    let pieces: Vec<PieceInfo> = match piece_length {
        Some(piece_length) => pieces_of(hashes, piece_length),
        None => {
            if hashes.len() > 0 {
                return None;
            }
            Vec::new()
        },
    };
    let mut files = files;
    let mut directory: Option<String> = None;
    match (name, length) {
        (Some(file_name), Some(file_length)) => {
            files.push(FileInfo { relative_path: file_name, length: file_length });
        },
        (Some(file_name), None) => {
            directory = Some(file_name);
        },
        _ => {},
    }
    let metainfo = MetaInfo { info_hash, tracker, files, directory, pieces };
    proof {
        let expected = completed(view)->0;
        assert(metainfo@.files =~= expected.files);
        assert(metainfo@.pieces =~= expected.pieces);
    }
    Some(metainfo)
}

/// The metainfo that a token stream holds.
pub fn decode_metainfo_tokens(tokens: &Vec<Token>) -> (metainfo: Result<MetaInfo, DecodeError>)
    ensures
        metainfo is Ok <==> metainfo_in(token_views(tokens@)) is Some,
        metainfo is Ok ==> metainfo->Ok_0@ == metainfo_in(token_views(tokens@))->0,
        metainfo is Err ==> metainfo->Err_0 == DecodeError::InvalidMetaInfo,
{
    let ghost t = token_views(tokens@);
    if !is_live(tokens, 0) || !matches!(tokens[0], Token::Dict) {
        return Err(DecodeError::InvalidMetaInfo);
    }
    let mut draft = Draft {
        info_hash: None,
        tracker: None,
        name: None,
        length: None,
        files: Vec::new(),
        piece_length: None,
        hashes: Vec::new(),
    };
    proof {
        assert(draft@.files =~= seq![]);
        assert(draft@.hashes =~= seq![]);
    }
    let mut p: usize = 1;
    while is_entry(tokens, p)
        invariant
            t == token_views(tokens@),
            p <= tokens@.len(),
            metainfo_from(t, 1, empty_draft()) == metainfo_from(t, p as int, draft@),
            live(t, 0) && t[0] is Dict,
        decreases tokens@.len() - p,
    {
        proof {
            lemma_value_end(t, p + 1);
        }
        if !read_metainfo_entry(tokens, p, &mut draft) {
            return Err(DecodeError::InvalidMetaInfo);
        }
        p = skip_value(tokens, p + 1);
    }
    match complete(draft) {
        Some(metainfo) => Ok(metainfo),
        None => Err(DecodeError::InvalidMetaInfo),
    }
}

/// The hash is that of a run of tokens.
pub open spec fn is_hash_of_tokens(hash: Seq<u8>, t: Seq<TokenView>) -> bool {
    exists|start: int, end: int|
        0 <= start <= end <= t.len() && hash == sha1_digest(
            tokens_text(#[trigger] t.subrange(start, end)),
        )
}

/// The hash is that of a part of the bytes.
pub open spec fn is_hash_of_part(hash: Seq<u8>, bytes: Seq<u8>) -> bool {
    exists|start: int, end: int|
        0 <= start <= end <= bytes.len() && hash == sha1_digest(
            #[trigger] bytes.subrange(start, end),
        )
}

proof fn lemma_info_hash(t: Seq<TokenView>, p: int, draft: DraftView)
    requires
        0 <= p,
        draft.info_hash is Some ==> is_hash_of_tokens(draft.info_hash->0, t),
    ensures
        metainfo_from(t, p, draft) matches Some(last) ==> last.info_hash is Some
            ==> is_hash_of_tokens(last.info_hash->0, t),
    decreases t.len() - p,
{
    if entry_at(t, p) {
        lemma_value_end(t, p + 1);
        lemma_close_end(t, p + 2, 1);
        match metainfo_entry(t, p, draft) {
            Some(next) => {
                if next.info_hash != draft.info_hash {
                    let end = close_end(t, p + 2, 1);
                    assert(next.info_hash->0 == sha1_digest(
                        tokens_text(t.subrange(p + 1, end)),
                    ));
                }
                lemma_info_hash(t, value_end(t, p + 1), next);
            },
            None => {},
        }
    }
}

/// The info hash is that of a run of the tokens: the dictionary with the files and pieces,
/// from its start to its end.
pub proof fn the_info_hash_is_of_the_tokens(t: Seq<TokenView>)
    requires
        metainfo_in(t) is Some,
    ensures
        is_hash_of_tokens(metainfo_in(t)->0.info_hash, t),
{
    lemma_info_hash(t, 1, empty_draft());
}

/// All pieces of a torrent have the same length, and no hash is without one.
pub proof fn pieces_have_one_length(t: Seq<TokenView>)
    requires
        metainfo_in(t) is Some,
    ensures
        forall|i: int, j: int|
            0 <= i < metainfo_in(t)->0.pieces.len() && 0 <= j < metainfo_in(t)->0.pieces.len()
                ==> (#[trigger] metainfo_in(t)->0.pieces[i]).length == (
            #[trigger] metainfo_in(t)->0.pieces[j]).length,
{
}

/// The metainfo in the bytes of a torrent file. Its info hash is that of a part of the bytes,
/// as they are, and the integers in it are plain numerals.
pub fn decode_metainfo(metainfo: &[u8]) -> (decoded: Result<MetaInfo, DecodeError>)
    ensures
        decoded is Ok <==> metainfo_in(bencode_tokens(metainfo@)) is Some,
        decoded is Ok ==> decoded->Ok_0@ == metainfo_in(bencode_tokens(metainfo@))->0,
        decoded is Ok ==> is_hash_of_part(decoded->Ok_0@.info_hash, metainfo@),
        decoded is Ok ==> has_plain_numbers(bencode_tokens(metainfo@)),
        decoded is Err ==> decoded->Err_0 == DecodeError::InvalidMetaInfo,
{
    let tokens = tokenize(metainfo);
    proof {
        let t = token_views(tokens@);
        if metainfo_in(t) is Some {
            the_info_hash_is_of_the_tokens(t);
            let hash = metainfo_in(t)->0.info_hash;
            let (start, end) = choose|start: int, end: int|
                0 <= start <= end <= t.len() && hash == sha1_digest(
                    tokens_text(#[trigger] t.subrange(start, end)),
                );
            span_text_is_contiguous(t, start, end);
            let before = tokens_text(t.take(start)).len() as int;
            let length = tokens_text(t.subrange(start, end)).len() as int;
            let text = tokens_text(t);
            assert(text == metainfo@.subrange(0, text.len() as int));
            assert forall|i: int| 0 <= i < length implies metainfo@[before + i]
                == #[trigger] tokens_text(t.subrange(start, end))[i] by {
                assert(text[before + i] == metainfo@.subrange(0, text.len() as int)[before + i]);
            }
            assert(metainfo@.subrange(before, before + length) =~= tokens_text(
                t.subrange(start, end),
            ));
        }
    }
    decode_metainfo_tokens(&tokens)
}

// ---------------------------------------------------------------------------------------
// Peers

/// The dotted form of an IPv4 address.
pub open spec fn dotted(a: u8, b: u8, c: u8, d: u8) -> Seq<char> {
    decimal(a as nat) + seq!['.'] + decimal(b as nat) + seq!['.'] + decimal(c as nat) + seq!['.']
        + decimal(d as nat)
}

/// The peer in six bytes: four of its address and two of its port, the higher first.
pub open spec fn compact_peer(bytes: Seq<u8>, start: int) -> PeerInfoView {
    PeerInfoView {
        ip: dotted(bytes[start], bytes[start + 1], bytes[start + 2], bytes[start + 3]),
        port: bytes[start + 4] * 256 + bytes[start + 5],
    }
}

/// The peers in a byte string, six bytes for each.
pub open spec fn compact_peers(bytes: Seq<u8>) -> Seq<PeerInfoView> {
    Seq::new(bytes.len() / 6, |i: int| compact_peer(bytes, 6 * i))
}

/// What the entries of a peer's dictionary from `p` on say of its address and port, where
/// `ip` and `port` are known before. `None` where an entry cannot be read.
pub open spec fn peer_from(
    t: Seq<TokenView>,
    p: int,
    ip: Option<Seq<char>>,
    port: Option<u16>,
) -> Option<(Option<Seq<char>>, Option<u16>)>
    decreases t.len() - p,
{
    if !entry_at(t, p) {
        Some((ip, port))
    } else {
        proof {
            lemma_value_end(t, p + 1);
        }
        let next = value_end(t, p + 1);
        if key_at(t, p, IP_KEY@) && t[p + 1] is Bytes {
            match text_at(t, p + 1) {
                Some(found) => peer_from(t, next, Some(found), port),
                None => None,
            }
        } else if key_at(t, p, PORT_KEY@) && t[p + 1] is Integer {
            match number_at(t, p + 1, u16::MAX as nat) {
                Some(found) => peer_from(t, next, ip, Some(found as u16)),
                None => None,
            }
        } else {
            peer_from(t, next, ip, port)
        }
    }
}

/// The peers that the dictionaries from `p` on add to `peers`. Each needs an address and a
/// port, and whatever is no dictionary ends the list.
pub open spec fn listed_peers_from(
    t: Seq<TokenView>,
    p: int,
    peers: Seq<PeerInfoView>,
) -> Option<Seq<PeerInfoView>>
    decreases t.len() - p,
{
    if live(t, p) && t[p] is Dict {
        proof {
            lemma_value_end(t, p);
        }
        match peer_from(t, p + 1, None, None) {
            Some((Some(ip), Some(port))) => listed_peers_from(
                t,
                value_end(t, p),
                peers.push(PeerInfoView { ip, port: port as int }),
            ),
            _ => None,
        }
    } else {
        Some(peers)
    }
}

/// What the entry of the response at `p` adds to the peers.
pub open spec fn peers_entry(
    t: Seq<TokenView>,
    p: int,
    peers: Seq<PeerInfoView>,
) -> Option<Seq<PeerInfoView>> {
    if key_at(t, p, PEERS_KEY@) && t[p + 1] is List {
        listed_peers_from(t, p + 2, peers)
    } else if key_at(t, p, PEERS_KEY@) && t[p + 1] is Bytes {
        if t[p + 1]->Bytes_0.len() % 6 == 0 {
            Some(peers + compact_peers(t[p + 1]->Bytes_0))
        } else {
            None
        }
    } else {
        Some(peers)
    }
}

/// What the entries of the response from `p` on add to the peers.
pub open spec fn peers_from(
    t: Seq<TokenView>,
    p: int,
    peers: Seq<PeerInfoView>,
) -> Option<Seq<PeerInfoView>>
    decreases t.len() - p,
{
    if !entry_at(t, p) {
        Some(peers)
    } else {
        proof {
            lemma_value_end(t, p + 1);
        }
        match peers_entry(t, p, peers) {
            Some(next) => peers_from(t, value_end(t, p + 1), next),
            None => None,
        }
    }
}

/// The peers in a tracker's response: none where it is no dictionary.
pub open spec fn peers_in(t: Seq<TokenView>) -> Option<Seq<PeerInfoView>> {
    if live(t, 0) && t[0] is Dict {
        peers_from(t, 1, seq![])
    } else {
        Some(seq![])
    }
}

/// The dotted form of the IPv4 address in four bytes.
pub fn dotted_address(bytes: &[u8], start: usize) -> (ip: String)
    requires
        start + 4 <= bytes@.len(),
    ensures
        ip@ == dotted(
            bytes@[start as int],
            bytes@[start + 1],
            bytes@[start + 2],
            bytes@[start + 3],
        ),
{
    let length: usize = bytes.len();
    assert(start + 4 <= length);
    let mut ip = String::new();
    append_decimal(&mut ip, bytes[start] as u64);
    ip.push('.');
    append_decimal(&mut ip, bytes[start + 1] as u64);
    ip.push('.');
    append_decimal(&mut ip, bytes[start + 2] as u64);
    ip.push('.');
    append_decimal(&mut ip, bytes[start + 3] as u64);
    assert(ip@ =~= dotted(
        bytes@[start as int],
        bytes@[start + 1],
        bytes@[start + 2],
        bytes@[start + 3],
    ));
    ip
}

fn read_peer(tokens: &Vec<Token>, start: usize) -> (found: Option<(Option<String>, Option<u16>)>)
    requires
        start <= tokens@.len(),
    ensures
        found is Some <==> peer_from(token_views(tokens@), start as int, None, None) is Some,
        found is Some ==> peer_from(token_views(tokens@), start as int, None, None)->0 == (
            text_view((found->0).0),
            (found->0).1,
        ),
{
    let ghost t = token_views(tokens@);
    let mut ip: Option<String> = None;
    let mut port: Option<u16> = None;
    let mut p: usize = start;
    while is_entry(tokens, p)
        invariant
            t == token_views(tokens@),
            start <= p <= tokens@.len(),
            peer_from(t, start as int, None, None) == peer_from(t, p as int, text_view(ip), port),
        decreases tokens@.len() - p,
    {
        proof {
            lemma_value_end(t, p + 1);
        }
        match &tokens[p + 1] {
            Token::Bytes(value) => {
                if has_key(tokens, p, IP_KEY) {
                    match utf8_text(value) {
                        Some(found) => {
                            ip = Some(found);
                        },
                        None => {
                            return None;
                        },
                    }
                }
            },
            Token::Integer(digits) => {
                if has_key(tokens, p, PORT_KEY) {
                    match parse_number(digits, u16::MAX as u64) {
                        Some(found) => {
                            port = Some(found as u16);
                        },
                        None => {
                            return None;
                        },
                    }
                }
            },
            _ => {},
        }
        p = skip_value(tokens, p + 1);
    }
    Some((ip, port))
}

fn read_listed_peers(tokens: &Vec<Token>, start: usize, peers: &mut Vec<PeerInfo>) -> (ok: bool)
    requires
        start <= tokens@.len(),
    ensures
        ok <==> listed_peers_from(
            token_views(tokens@),
            start as int,
            peer_views(old(peers)@),
        ) is Some,
        ok ==> peer_views(final(peers)@) == listed_peers_from(
            token_views(tokens@),
            start as int,
            peer_views(old(peers)@),
        )->0,
{
    let ghost t = token_views(tokens@);
    let mut p: usize = start;
    while is_live(tokens, p) && matches!(tokens[p], Token::Dict)
        invariant
            t == token_views(tokens@),
            start <= p <= tokens@.len(),
            listed_peers_from(t, start as int, peer_views(old(peers)@)) == listed_peers_from(
                t,
                p as int,
                peer_views(peers@),
            ),
        decreases tokens@.len() - p,
    {
        proof {
            lemma_value_end(t, p as int);
        }
        match read_peer(tokens, p + 1) {
            Some((Some(ip), Some(port))) => {
                let ghost before = peer_views(peers@);
                peers.push(PeerInfo { ip, port });
                assert(peer_views(peers@) =~= before.push(
                    PeerInfoView { ip: ip@, port: port as int },
                ));
            },
            _ => {
                return false;
            },
        }
        p = skip_value(tokens, p);
    }
    true
}

fn read_compact_peers(value: &[u8], peers: &mut Vec<PeerInfo>)
    requires
        value@.len() % 6 == 0,
    ensures
        peer_views(final(peers)@) == peer_views(old(peers)@) + compact_peers(value@),
{
    let length: usize = value.len();
    let mut offset: usize = 0;
    let ghost mut count: int = 0;
    assert(peer_views(peers@) =~= peer_views(old(peers)@) + compact_peers(value@).take(0));
    while offset < length
        invariant
            length == value@.len(),
            length % 6 == 0,
            offset == 6 * count,
            0 <= count <= length / 6,
            peer_views(peers@) == peer_views(old(peers)@) + compact_peers(value@).take(count),
        decreases length - offset,
    {
        let ghost before = peer_views(peers@);
        let peer = PeerInfo {
            ip: dotted_address(value, offset),
            port: value[offset + 4] as u16 * 256 + value[offset + 5] as u16,
        };
        let ghost view = peer@;
        peers.push(peer);
        offset = offset + 6;
        proof {
            assert(compact_peers(value@)[count] == view);
            count = count + 1;
            assert(peer_views(peers@) =~= before.push(view));
            assert(compact_peers(value@).take(count) =~= compact_peers(value@).take(
                count - 1,
            ).push(view));
            assert(peer_views(peers@) =~= peer_views(old(peers)@) + compact_peers(value@).take(
                count,
            ));
        }
    }
    assert(compact_peers(value@).take(count) =~= compact_peers(value@));
}

/// The peers in the tokens of a tracker's response.
pub fn decode_peers_tokens(tokens: &Vec<Token>) -> (peers: Result<Vec<PeerInfo>, DecodeError>)
    ensures
        peers is Ok <==> peers_in(token_views(tokens@)) is Some,
        peers is Ok ==> peer_views(peers->Ok_0@) == peers_in(token_views(tokens@))->0,
        peers is Err ==> peers->Err_0 == DecodeError::InvalidPeers,
{
    let ghost t = token_views(tokens@);
    let mut peers: Vec<PeerInfo> = Vec::new();
    assert(peer_views(peers@) =~= seq![]);
    if !is_live(tokens, 0) || !matches!(tokens[0], Token::Dict) {
        return Ok(peers);
    }
    let mut p: usize = 1;
    while is_entry(tokens, p)
        invariant
            t == token_views(tokens@),
            p <= tokens@.len(),
            peers_from(t, 1, seq![]) == peers_from(t, p as int, peer_views(peers@)),
            live(t, 0) && t[0] is Dict,
        decreases tokens@.len() - p,
    {
        proof {
            lemma_value_end(t, p + 1);
        }
        if has_key(tokens, p, PEERS_KEY) {
            match &tokens[p + 1] {
                Token::List => {
                    if !read_listed_peers(tokens, p + 2, &mut peers) {
                        return Err(DecodeError::InvalidPeers);
                    }
                },
                Token::Bytes(value) => {
                    if value.len() % 6 != 0 {
                        return Err(DecodeError::InvalidPeers);
                    }
                    read_compact_peers(value, &mut peers);
                },
                _ => {},
            }
        }
        p = skip_value(tokens, p + 1);
    }
    Ok(peers)
}

/// The peers in the bytes of a tracker's response.
pub fn decode_peers(announce_response: &[u8]) -> (peers: Result<Vec<PeerInfo>, DecodeError>)
    ensures
        peers is Ok <==> peers_in(bencode_tokens(announce_response@)) is Some,
        peers is Ok ==> peer_views(peers->Ok_0@) == peers_in(
            bencode_tokens(announce_response@),
        )->0,
        peers is Err ==> peers->Err_0 == DecodeError::InvalidPeers,
{
    let tokens = tokenize(announce_response);
    decode_peers_tokens(&tokens)
}

} // verus!
