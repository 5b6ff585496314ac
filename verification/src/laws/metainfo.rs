//! What is read from torrent files, said of what is written in them.

use vstd::prelude::*;
use vstd::string::*;
use vstd::utf8::*;

use crate::bencode::{
    completed, empty_draft, file_from, files_from, hashes_in, info_entry, info_from, info_text,
    metainfo_entry, metainfo_from, metainfo_in, number_at, path_from, text_at, DraftView,
    FileInfoView,
};
use crate::bencode::token::{
    ascii, close_end, closes, entry_at, live, token_text, tokens_text, value_end, TokenView,
};
use crate::laws::numbers::{decimals_denote_their_number, digits_number, is_decimal};
use crate::path::joined;
use crate::text::{decimal, digits_value, parsed_number};
use crate::utils::sha1_digest;

verus! {

// ---------------------------------------------------------------------------------------
// Numbers

/// The value of digits, the first of which counts most.
pub open spec fn digit_bytes_number(digits: Seq<u8>) -> nat
    decreases digits.len(),
{
    if digits.len() == 0 {
        0
    } else {
        10 * digit_bytes_number(digits.drop_last()) + (digits.last() - 48) as nat
    }
}

/// There are digits, and nothing else.
pub open spec fn are_digits(text: Seq<u8>) -> bool {
    text.len() > 0 && forall|i: int| 0 <= i < text.len() ==> 48 <= #[trigger] text[i] <= 57
}

proof fn lemma_digit_bytes(digits: Seq<u8>)
    ensures
        digits_value(digits) == digit_bytes_number(digits),
    decreases digits.len(),
{
    if digits.len() > 0 {
        lemma_digit_bytes(digits.drop_last());
    }
}

/// A number is read from its digits, with or without a plus sign before them, where it is not
/// too large.
pub proof fn numbers_are_read_from_their_digits(text: Seq<u8>, max: nat)
    ensures
        are_digits(text) && digit_bytes_number(text) <= max ==> parsed_number(text, max) == Some(
            digit_bytes_number(text),
        ),
        are_digits(text) && digit_bytes_number(text) > max ==> parsed_number(text, max) is None,
        text.len() > 0 && text[0] == 43 && are_digits(text.skip(1)) && digit_bytes_number(
            text.skip(1),
        ) <= max ==> parsed_number(text, max) == Some(digit_bytes_number(text.skip(1))),
        text.len() > 0 && text[0] == 43 && are_digits(text.skip(1)) && digit_bytes_number(
            text.skip(1),
        ) > max ==> parsed_number(text, max) is None,
        !are_digits(text) && !(text.len() > 0 && text[0] == 43 && are_digits(text.skip(1)))
            ==> parsed_number(text, max) is None,
{
    lemma_digit_bytes(text);
    lemma_digit_bytes(text.skip(1));
    if text.len() > 0 && text[0] == 43 {
        assert(!are_digits(text));
    }
}

/// The token of a number.
pub open spec fn number_token(n: nat) -> TokenView {
    TokenView::Integer(ascii(decimal(n)))
}

proof fn lemma_number_bytes(text: Seq<char>)
    requires
        is_decimal(text),
    ensures
        digit_bytes_number(ascii(text)) == digits_number(text),
        forall|i: int| 0 <= i < text.len() ==> 48 <= #[trigger] ascii(text)[i] <= 57,
    decreases text.len(),
{
    assert forall|i: int| 0 <= i < text.len() implies 48 <= #[trigger] ascii(text)[i] <= 57 by {
        assert(48 <= text[i] as int <= 57);
    }
    if text.len() > 0 {
        lemma_number_bytes(text.drop_last());
        assert(ascii(text).drop_last() =~= ascii(text.drop_last()));
        assert(48 <= text[text.len() - 1] as int <= 57);
    }
}

pub proof fn lemma_number_token(t: Seq<TokenView>, p: int, n: nat, max: nat)
    requires
        t[p] == number_token(n),
        n <= max,
    ensures
        number_at(t, p, max) == Some(n),
{
    decimals_denote_their_number(n);
    lemma_number_bytes(decimal(n));
    numbers_are_read_from_their_digits(ascii(decimal(n)), max);
}

// ---------------------------------------------------------------------------------------
// What is written in a torrent file

/// A file as it is listed: the parts of its path, and its length.
pub struct ListedFile {
    pub parts: Seq<Seq<char>>,
    pub length: u64,
}

/// An entry that says nothing of the torrent: a key with a list of strings and numbers.
pub struct Remark {
    pub key: Seq<u8>,
    pub values: Seq<TokenView>,
}

/// The info dictionary of a torrent file.
pub struct WrittenInfo {
    pub files: Option<Seq<ListedFile>>,
    pub length: Option<u64>,
    pub name: Option<Seq<char>>,
    pub piece_length: Option<u32>,
    pub pieces: Seq<u8>,
    pub remark: Remark,
}

pub open spec fn key(name: &str) -> TokenView {
    TokenView::Bytes(encode_utf8(name@))
}

pub open spec fn text_token(text: Seq<char>) -> TokenView {
    TokenView::Bytes(encode_utf8(text))
}

pub open spec fn part_tokens(parts: Seq<Seq<char>>) -> Seq<TokenView> {
    Seq::new(parts.len(), |i: int| text_token(parts[i]))
}

pub open spec fn file_tokens(file: ListedFile) -> Seq<TokenView> {
    seq![TokenView::Dict, key("length"), number_token(file.length as nat), key("path"),
        TokenView::List] + part_tokens(file.parts) + seq![TokenView::End, TokenView::End]
}

pub open spec fn all_file_tokens(files: Seq<ListedFile>) -> Seq<TokenView>
    decreases files.len(),
{
    if files.len() == 0 {
        seq![]
    } else {
        file_tokens(files[0]) + all_file_tokens(files.skip(1))
    }
}

pub open spec fn files_entry(files: Option<Seq<ListedFile>>) -> Seq<TokenView> {
    match files {
        Some(files) => seq![key("files"), TokenView::List] + all_file_tokens(files)
            + seq![TokenView::End],
        None => seq![],
    }
}

pub open spec fn length_entry(length: Option<u64>) -> Seq<TokenView> {
    match length {
        Some(length) => seq![key("length"), number_token(length as nat)],
        None => seq![],
    }
}

pub open spec fn name_entry(name: Option<Seq<char>>) -> Seq<TokenView> {
    match name {
        Some(name) => seq![key("name"), text_token(name)],
        None => seq![],
    }
}

pub open spec fn piece_length_entry(piece_length: Option<u32>) -> Seq<TokenView> {
    match piece_length {
        Some(length) => seq![key("piece length"), number_token(length as nat)],
        None => seq![],
    }
}

pub open spec fn pieces_entry(pieces: Seq<u8>) -> Seq<TokenView> {
    seq![key("pieces"), TokenView::Bytes(pieces)]
}

pub open spec fn remark_tokens(remark: Remark) -> Seq<TokenView> {
    seq![TokenView::Bytes(remark.key), TokenView::List] + remark.values + seq![TokenView::End]
}

pub open spec fn info_entries(info: WrittenInfo) -> Seq<TokenView> {
    files_entry(info.files) + length_entry(info.length) + name_entry(info.name)
        + piece_length_entry(info.piece_length) + pieces_entry(info.pieces) + remark_tokens(
        info.remark,
    )
}

pub open spec fn info_tokens(info: WrittenInfo) -> Seq<TokenView> {
    seq![TokenView::Dict] + info_entries(info) + seq![TokenView::End]
}

pub open spec fn announce_entry(tracker: Option<Seq<u8>>) -> Seq<TokenView> {
    match tracker {
        Some(tracker) => seq![key("announce"), TokenView::Bytes(tracker)],
        None => seq![],
    }
}

pub open spec fn info_part(info: Option<WrittenInfo>) -> Seq<TokenView> {
    match info {
        Some(info) => seq![key("info")] + info_tokens(info),
        None => seq![],
    }
}

/// A torrent file: a dictionary with the tracker and the info dictionary, and with a remark
/// between them.
pub open spec fn torrent_file(
    tracker: Option<Seq<u8>>,
    remark: Remark,
    info: Option<WrittenInfo>,
) -> Seq<TokenView> {
    seq![TokenView::Dict] + announce_entry(tracker) + remark_tokens(remark) + info_part(info)
        + seq![TokenView::End]
}

/// Strings and numbers, and no key that says something of a torrent.
pub open spec fn is_remark(remark: Remark) -> bool {
    &&& forall|i: int|
        0 <= i < remark.values.len() ==> {
            let value = #[trigger] remark.values[i];
            value is Bytes || value is Integer
        }
    &&& remark.key != encode_utf8("announce"@)
    &&& remark.key != encode_utf8("info"@)
    &&& remark.key != encode_utf8("files"@)
    &&& remark.key != encode_utf8("length"@)
    &&& remark.key != encode_utf8("name"@)
    &&& remark.key != encode_utf8("piece length"@)
    &&& remark.key != encode_utf8("pieces"@)
}

/// A part of a path: not empty, and with no separator at its ends.
pub open spec fn is_part(part: Seq<char>) -> bool {
    part.len() > 0 && part[0] != '/' && part.last() != '/'
}

pub open spec fn is_listed(file: ListedFile) -> bool {
    file.parts.len() > 0 && forall|i: int|
        0 <= i < file.parts.len() ==> is_part(#[trigger] file.parts[i])
}

/// The parts of a path with one separator between each two.
pub open spec fn slashed(parts: Seq<Seq<char>>) -> Seq<char>
    decreases parts.len(),
{
    if parts.len() == 0 {
        seq![]
    } else if parts.len() == 1 {
        parts[0]
    } else {
        slashed(parts.drop_last()) + seq!['/'] + parts.last()
    }
}

// ---------------------------------------------------------------------------------------
// Where the parts stand

/// The tokens from `p` on are these.
pub open spec fn stands(t: Seq<TokenView>, p: int, part: Seq<TokenView>) -> bool {
    &&& 0 <= p
    &&& p + part.len() <= t.len()
    &&& t.subrange(p, p + part.len()) == part
}

proof fn lemma_stands_at(t: Seq<TokenView>, p: int, part: Seq<TokenView>)
    requires
        stands(t, p, part),
    ensures
        forall|i: int| p <= i < p + part.len() ==> #[trigger] t[i] == part[i - p],
{
    assert forall|i: int| p <= i < p + part.len() implies #[trigger] t[i] == part[i - p] by {
        assert(t.subrange(p, p + part.len())[i - p] == t[i]);
    }
}

proof fn lemma_stands_apart(t: Seq<TokenView>, p: int, a: Seq<TokenView>, b: Seq<TokenView>)
    requires
        stands(t, p, a + b),
    ensures
        stands(t, p, a),
        stands(t, p + a.len(), b),
{
    lemma_stands_at(t, p, a + b);
    assert(t.subrange(p, p + a.len()) =~= a);
    assert(t.subrange(p + a.len(), p + a.len() + b.len()) =~= b);
}

/// What stands at `p` is passed over in search of the end of a value.
#[verifier::opaque]
spec fn is_passed(t: Seq<TokenView>, p: int, end: int, depth: nat) -> bool {
    &&& closes(t, p, depth) == closes(t, end, depth)
    &&& close_end(t, p, depth) == close_end(t, end, depth)
}

proof fn lemma_pass_leaves(t: Seq<TokenView>, p: int, leaves: Seq<TokenView>, depth: nat)
    requires
        stands(t, p, leaves),
        depth > 0,
        forall|i: int|
            0 <= i < leaves.len() ==> {
                let leaf = #[trigger] leaves[i];
                leaf is Bytes || leaf is Integer
            },
    ensures
        is_passed(t, p, p + leaves.len(), depth),
    decreases leaves.len(),
{
    reveal(is_passed);
    if leaves.len() > 0 {
        let rest = leaves.skip(1);
        assert(leaves =~= seq![leaves[0]] + rest);
        lemma_stands_apart(t, p, seq![leaves[0]], rest);
        lemma_stands_at(t, p, seq![leaves[0]]);
        assert(t[p] == leaves[0]);
        assert forall|i: int| 0 <= i < rest.len() implies {
            let leaf = #[trigger] rest[i];
            leaf is Bytes || leaf is Integer
        } by {
            assert(rest[i] == leaves[i + 1]);
        }
        lemma_pass_leaves(t, p + 1, rest, depth);
    }
}

/// A list of leaves, or a dictionary, is passed over with what is in it.
proof fn lemma_pass_open(t: Seq<TokenView>, p: int, end: int, depth: nat)
    requires
        0 <= p < end < t.len(),
        t[p] is List || t[p] is Dict,
        t[end] is End,
        is_passed(t, p + 1, end, depth + 1),
        depth > 0,
    ensures
        is_passed(t, p, end + 1, depth),
{
    reveal(is_passed);
}

proof fn lemma_pass_file(t: Seq<TokenView>, p: int, file: ListedFile, depth: nat)
    requires
        stands(t, p, file_tokens(file)),
        depth > 0,
    ensures
        is_passed(t, p, p + file_tokens(file).len(), depth),
{
    reveal(is_passed);
    let parts = part_tokens(file.parts);
    let head = seq![TokenView::Dict, key("length"), number_token(file.length as nat), key("path"),
        TokenView::List];
    let tail = seq![TokenView::End, TokenView::End];
    lemma_stands_apart(t, p, head + parts, tail);
    lemma_stands_apart(t, p, head, parts);
    lemma_stands_at(t, p, head);
    let q = p + 5 + parts.len();
    lemma_stands_at(t, q, tail);
    assert(t[p] == head[0] && t[p + 1] == head[1] && t[p + 2] == head[2] && t[p + 3] == head[3]
        && t[p + 4] == head[4]);
    assert(t[q] == tail[0] && t[q + 1] == tail[1]);
    lemma_pass_leaves(t, p + 5, parts, depth + 2);
    lemma_pass_open(t, p + 4, q, depth + 1);
    assert(is_passed(t, p + 3, q + 1, depth + 1));
    assert(is_passed(t, p + 2, q + 1, depth + 1));
    assert(is_passed(t, p + 1, q + 1, depth + 1));
    lemma_pass_open(t, p, q + 1, depth);
}

proof fn lemma_pass_files(t: Seq<TokenView>, p: int, files: Seq<ListedFile>, depth: nat)
    requires
        stands(t, p, all_file_tokens(files)),
        depth > 0,
    ensures
        is_passed(t, p, p + all_file_tokens(files).len(), depth),
    decreases files.len(),
{
    reveal(is_passed);
    if files.len() > 0 {
        let first = file_tokens(files[0]);
        lemma_stands_apart(t, p, first, all_file_tokens(files.skip(1)));
        lemma_pass_file(t, p, files[0], depth);
        lemma_pass_files(t, p + first.len(), files.skip(1), depth);
    }
}

proof fn lemma_pass_remark(t: Seq<TokenView>, p: int, remark: Remark, depth: nat)
    requires
        stands(t, p, remark_tokens(remark)),
        is_remark(remark),
        depth > 0,
    ensures
        is_passed(t, p, p + remark_tokens(remark).len(), depth),
        entry_at(t, p),
        t[p] == TokenView::Bytes(remark.key),
        t[p + 1] is List,
        value_end(t, p + 1) == p + remark_tokens(remark).len(),
{
    reveal(is_passed);
    let head = seq![TokenView::Bytes(remark.key), TokenView::List];
    let tail = seq![TokenView::End];
    lemma_stands_apart(t, p, head + remark.values, tail);
    lemma_stands_apart(t, p, head, remark.values);
    lemma_stands_at(t, p, head);
    let q = p + 2 + remark.values.len();
    lemma_stands_at(t, q, tail);
    assert(t[p] == head[0] && t[p + 1] == head[1]);
    assert(t[q] == tail[0]);
    lemma_pass_leaves(t, p + 2, remark.values, depth + 1);
    lemma_pass_leaves(t, p + 2, remark.values, 1);
    lemma_pass_open(t, p + 1, q, depth);
    assert(close_end(t, q, 1) == q + 1) by {
        reveal_with_fuel(close_end, 2);
    }
}

// ---------------------------------------------------------------------------------------
// What is read

proof fn lemma_slashed(parts: Seq<Seq<char>>)
    requires
        parts.len() > 0,
        forall|i: int| 0 <= i < parts.len() ==> is_part(#[trigger] parts[i]),
    ensures
        slashed(parts).len() > 0,
        slashed(parts).last() != '/',
{
    assert(is_part(parts[parts.len() - 1]));
}

proof fn lemma_read_path(t: Seq<TokenView>, p: int, parts: Seq<Seq<char>>, n: int)
    requires
        stands(t, p, part_tokens(parts)),
        p + parts.len() < t.len(),
        t[p + parts.len()] is End,
        parts.len() > 0,
        forall|i: int| 0 <= i < parts.len() ==> is_part(#[trigger] parts[i]),
        0 <= n <= parts.len(),
    ensures
        path_from(t, p + n, slashed(parts.take(n))) == Some(slashed(parts)),
    decreases parts.len() - n,
{
    if n == parts.len() {
        assert(parts.take(n) =~= parts);
    } else {
        lemma_stands_at(t, p, part_tokens(parts));
        assert(t[p + n] == part_tokens(parts)[n]);
        let part = parts[n];
        assert(is_part(part));
        encode_utf8_valid_utf8(part);
        encode_utf8_decode_utf8(part);
        assert(text_at(t, p + n) == Some(part));
        let before = parts.take(n);
        let after = parts.take(n + 1);
        assert(after.drop_last() =~= before);
        assert(after.last() == part);
        if n > 0 {
            assert forall|i: int| 0 <= i < before.len() implies is_part(#[trigger] before[i]) by {
                assert(before[i] == parts[i]);
            }
            lemma_slashed(before);
            assert(joined(slashed(before), part) =~= slashed(after));
        } else {
            assert(slashed(before) =~= seq![]);
            assert(joined(slashed(before), part) =~= slashed(after));
        }
        lemma_read_path(t, p, parts, n + 1);
    }
}

proof fn lemma_read_file(t: Seq<TokenView>, p: int, file: ListedFile)
    requires
        stands(t, p, file_tokens(file)),
        is_listed(file),
    ensures
        t[p] is Dict,
        live(t, p),
        file_from(t, p + 1, None, None) == Some((Some(slashed(file.parts)), Some(file.length))),
        value_end(t, p) == p + file_tokens(file).len(),
{
    reveal(is_passed);
    let parts = part_tokens(file.parts);
    let head = seq![TokenView::Dict, key("length"), number_token(file.length as nat), key("path"),
        TokenView::List];
    let tail = seq![TokenView::End, TokenView::End];
    lemma_stands_apart(t, p, head + parts, tail);
    lemma_stands_apart(t, p, head, parts);
    lemma_stands_at(t, p, head);
    let q = p + 5 + parts.len();
    lemma_stands_at(t, q, tail);
    assert(t[p] == head[0] && t[p + 1] == head[1] && t[p + 2] == head[2] && t[p + 3] == head[3]
        && t[p + 4] == head[4]);
    assert(t[q] == tail[0] && t[q + 1] == tail[1]);
    lemma_pass_leaves(t, p + 5, parts, 1);
    lemma_pass_leaves(t, p + 5, parts, 2);
    assert(close_end(t, q, 1) == q + 1) by {
        reveal_with_fuel(close_end, 2);
    }
    assert(value_end(t, p + 4) == q + 1);
    lemma_number_token(t, p + 2, file.length as nat, u64::MAX as nat);
    lemma_read_path(t, p + 5, file.parts, 0);
    assert(slashed(file.parts.take(0)) =~= seq![]);
    let found = slashed(file.parts);
    assert(file_from(t, q + 1, Some(found), Some(file.length)) == Some(
        (Some(found), Some(file.length)),
    ));
    assert(file_from(t, p + 3, None, Some(file.length)) == Some(
        (Some(found), Some(file.length)),
    ));
    lemma_pass_open(t, p + 4, q, 1);
    assert(is_passed(t, p + 3, q + 1, 1));
    assert(is_passed(t, p + 2, q + 1, 1));
    assert(is_passed(t, p + 1, q + 1, 1));
    assert(close_end(t, q + 1, 1) == q + 2) by {
        reveal_with_fuel(close_end, 2);
    }
}

/// The files as they are listed.
pub open spec fn listed_files(files: Seq<ListedFile>) -> Seq<FileInfoView> {
    Seq::new(
        files.len(),
        |i: int|
            FileInfoView { relative_path: slashed(files[i].parts), length: files[i].length },
    )
}

proof fn lemma_read_files(
    t: Seq<TokenView>,
    p: int,
    files: Seq<ListedFile>,
    before: Seq<FileInfoView>,
)
    requires
        stands(t, p, all_file_tokens(files)),
        p + all_file_tokens(files).len() < t.len(),
        t[p + all_file_tokens(files).len()] is End,
        forall|i: int| 0 <= i < files.len() ==> is_listed(#[trigger] files[i]),
    ensures
        files_from(t, p, before) == Some(before + listed_files(files)),
    decreases files.len(),
{
    if files.len() == 0 {
        assert(before + listed_files(files) =~= before);
    } else {
        let first = file_tokens(files[0]);
        let rest = files.skip(1);
        lemma_stands_apart(t, p, first, all_file_tokens(rest));
        lemma_read_file(t, p, files[0]);
        let read = FileInfoView {
            relative_path: slashed(files[0].parts),
            length: files[0].length,
        };
        assert forall|i: int| 0 <= i < rest.len() implies is_listed(#[trigger] rest[i]) by {
            assert(rest[i] == files[i + 1]);
        }
        lemma_read_files(t, p + first.len(), rest, before.push(read));
        assert(before.push(read) + listed_files(rest) =~= before + listed_files(files));
    }
}

/// What the info dictionary says, before the hashes.
spec fn said_before_pieces(info: WrittenInfo, draft: DraftView) -> DraftView {
    DraftView {
        files: match info.files {
            Some(files) => draft.files + listed_files(files),
            None => draft.files,
        },
        length: match info.length {
            Some(length) => Some(length),
            None => draft.length,
        },
        name: match info.name {
            Some(name) => Some(name),
            None => draft.name,
        },
        piece_length: match info.piece_length {
            Some(length) => Some(length),
            None => draft.piece_length,
        },
        ..draft
    }
}

proof fn lemma_different_keys()
    ensures
        encode_utf8("pieces"@) != encode_utf8("name"@),
        encode_utf8("piece length"@) != encode_utf8("length"@),
{
    reveal_strlit("pieces");
    reveal_strlit("name");
    reveal_strlit("piece length");
    reveal_strlit("length");
    encode_utf8_decode_utf8("pieces"@);
    encode_utf8_decode_utf8("name"@);
    encode_utf8_decode_utf8("piece length"@);
    encode_utf8_decode_utf8("length"@);
}

proof fn lemma_read_files_entry(
    t: Seq<TokenView>,
    p: int,
    files: Option<Seq<ListedFile>>,
    draft: DraftView,
)
    requires
        stands(t, p, files_entry(files)),
        files matches Some(files) ==> forall|i: int|
            0 <= i < files.len() ==> is_listed(#[trigger] files[i]),
    ensures
        info_from(t, p, draft) == info_from(
            t,
            p + files_entry(files).len(),
            DraftView {
                files: match files {
                    Some(files) => draft.files + listed_files(files),
                    None => draft.files,
                },
                ..draft
            },
        ),
        is_passed(t, p, p + files_entry(files).len(), 1),
{
    reveal(is_passed);
    if let Some(listed) = files {
        let all = all_file_tokens(listed);
        let head = seq![key("files"), TokenView::List];
        let tail = seq![TokenView::End];
        lemma_stands_apart(t, p, head + all, tail);
        lemma_stands_apart(t, p, head, all);
        lemma_stands_at(t, p, head);
        let q = p + 2 + all.len();
        lemma_stands_at(t, q, tail);
        assert(t[p] == head[0] && t[p + 1] == head[1] && t[q] == tail[0]);
        lemma_read_files(t, p + 2, listed, draft.files);
        lemma_pass_files(t, p + 2, listed, 1);
        lemma_pass_files(t, p + 2, listed, 2);
        lemma_pass_open(t, p + 1, q, 1);
        assert(close_end(t, q, 1) == q + 1) by {
            reveal_with_fuel(close_end, 2);
        }
        assert(value_end(t, p + 1) == q + 1);
        assert(info_entry(t, p, draft) == Some(
            DraftView { files: draft.files + listed_files(listed), ..draft },
        ));
    }
}

proof fn lemma_read_length_entry(
    t: Seq<TokenView>,
    p: int,
    length: Option<u64>,
    draft: DraftView,
)
    requires
        stands(t, p, length_entry(length)),
    ensures
        info_from(t, p, draft) == info_from(
            t,
            p + length_entry(length).len(),
            DraftView {
                length: match length {
                    Some(length) => Some(length),
                    None => draft.length,
                },
                ..draft
            },
        ),
        is_passed(t, p, p + length_entry(length).len(), 1),
{
    reveal(is_passed);
    if let Some(bytes) = length {
        let entry = length_entry(length);
        lemma_stands_at(t, p, entry);
        assert(t[p] == entry[0] && t[p + 1] == entry[1]);
        lemma_number_token(t, p + 1, bytes as nat, u64::MAX as nat);
        assert(info_entry(t, p, draft) == Some(DraftView { length: Some(bytes), ..draft }));
        lemma_pass_leaves(t, p, entry, 1);
    }
}

proof fn lemma_read_name_entry(
    t: Seq<TokenView>,
    p: int,
    name: Option<Seq<char>>,
    draft: DraftView,
)
    requires
        stands(t, p, name_entry(name)),
    ensures
        info_from(t, p, draft) == info_from(
            t,
            p + name_entry(name).len(),
            DraftView {
                name: match name {
                    Some(name) => Some(name),
                    None => draft.name,
                },
                ..draft
            },
        ),
        is_passed(t, p, p + name_entry(name).len(), 1),
{
    reveal(is_passed);
    if let Some(text) = name {
        let entry = name_entry(name);
        lemma_stands_at(t, p, entry);
        assert(t[p] == entry[0] && t[p + 1] == entry[1]);
        encode_utf8_valid_utf8(text);
        encode_utf8_decode_utf8(text);
        assert(info_entry(t, p, draft) == Some(DraftView { name: Some(text), ..draft }));
        lemma_pass_leaves(t, p, entry, 1);
    }
}

proof fn lemma_read_piece_length_entry(
    t: Seq<TokenView>,
    p: int,
    piece_length: Option<u32>,
    draft: DraftView,
)
    requires
        stands(t, p, piece_length_entry(piece_length)),
    ensures
        info_from(t, p, draft) == info_from(
            t,
            p + piece_length_entry(piece_length).len(),
            DraftView {
                piece_length: match piece_length {
                    Some(length) => Some(length),
                    None => draft.piece_length,
                },
                ..draft
            },
        ),
        is_passed(t, p, p + piece_length_entry(piece_length).len(), 1),
{
    reveal(is_passed);
    if let Some(bytes) = piece_length {
        let entry = piece_length_entry(piece_length);
        lemma_different_keys();
        lemma_stands_at(t, p, entry);
        assert(t[p] == entry[0] && t[p + 1] == entry[1]);
        lemma_number_token(t, p + 1, bytes as nat, u32::MAX as nat);
        assert(info_entry(t, p, draft) == Some(DraftView { piece_length: Some(bytes), ..draft }));
        lemma_pass_leaves(t, p, entry, 1);
    }
}

proof fn lemma_read_pieces_entry(t: Seq<TokenView>, p: int, pieces: Seq<u8>, draft: DraftView)
    requires
        stands(t, p, pieces_entry(pieces)),
    ensures
        pieces.len() % 20 != 0 ==> info_from(t, p, draft) is None,
        pieces.len() % 20 == 0 ==> info_from(t, p, draft) == info_from(
            t,
            p + 2,
            DraftView { hashes: draft.hashes + hashes_in(pieces), ..draft },
        ),
        is_passed(t, p, p + 2, 1),
{
    reveal(is_passed);
    let entry = pieces_entry(pieces);
    lemma_different_keys();
    lemma_stands_at(t, p, entry);
    assert(t[p] == entry[0] && t[p + 1] == entry[1]);
    lemma_pass_leaves(t, p, entry, 1);
    if pieces.len() % 20 == 0 {
        assert(info_entry(t, p, draft) == Some(
            DraftView { hashes: draft.hashes + hashes_in(pieces), ..draft },
        ));
    } else {
        assert(info_entry(t, p, draft) is None);
    }
}

proof fn lemma_read_remark(t: Seq<TokenView>, p: int, remark: Remark, draft: DraftView)
    requires
        stands(t, p, remark_tokens(remark)),
        is_remark(remark),
    ensures
        info_from(t, p, draft) == info_from(t, p + remark_tokens(remark).len(), draft),
        is_passed(t, p, p + remark_tokens(remark).len(), 1),
{
    reveal(is_passed);
    lemma_pass_remark(t, p, remark, 1);
    assert(info_entry(t, p, draft) == Some(draft));
}

proof fn lemma_passed_on(t: Seq<TokenView>, a: int, b: int, c: int)
    requires
        is_passed(t, a, b, 1),
        is_passed(t, b, c, 1),
    ensures
        is_passed(t, a, c, 1),
{
    reveal(is_passed);
}

/// `info_from`, not looked into.
#[verifier::opaque]
spec fn info_read(t: Seq<TokenView>, p: int, draft: DraftView) -> Option<DraftView> {
    info_from(t, p, draft)
}

proof fn lemma_info_places(t: Seq<TokenView>, p: int, info: WrittenInfo)
    requires
        stands(t, p, info_entries(info)),
    ensures
        ({
            let p1 = p + files_entry(info.files).len();
            let p2 = p1 + length_entry(info.length).len();
            let p3 = p2 + name_entry(info.name).len();
            let p4 = p3 + piece_length_entry(info.piece_length).len();
            &&& stands(t, p, files_entry(info.files))
            &&& stands(t, p1, length_entry(info.length))
            &&& stands(t, p2, name_entry(info.name))
            &&& stands(t, p3, piece_length_entry(info.piece_length))
            &&& stands(t, p4, pieces_entry(info.pieces))
            &&& stands(t, p4 + 2, remark_tokens(info.remark))
            &&& p4 + 2 + remark_tokens(info.remark).len() == p + info_entries(info).len()
        }),
{
    let files = files_entry(info.files);
    let length = length_entry(info.length);
    let name = name_entry(info.name);
    let piece_length = piece_length_entry(info.piece_length);
    let pieces = pieces_entry(info.pieces);
    let remark = remark_tokens(info.remark);
    lemma_stands_apart(t, p, files + length + name + piece_length + pieces, remark);
    lemma_stands_apart(t, p, files + length + name + piece_length, pieces);
    lemma_stands_apart(t, p, files + length + name, piece_length);
    lemma_stands_apart(t, p, files + length, name);
    lemma_stands_apart(t, p, files, length);
}

proof fn lemma_read_info(t: Seq<TokenView>, p: int, info: WrittenInfo, draft: DraftView)
    requires
        stands(t, p, info_entries(info)),
        p + info_entries(info).len() < t.len(),
        t[p + info_entries(info).len()] is End,
        is_remark(info.remark),
        info.files matches Some(files) ==> forall|i: int|
            0 <= i < files.len() ==> is_listed(#[trigger] files[i]),
    ensures
        info.pieces.len() % 20 != 0 ==> info_from(t, p, draft) is None,
        info.pieces.len() % 20 == 0 ==> info_from(t, p, draft) == Some(
            DraftView {
                hashes: draft.hashes + hashes_in(info.pieces),
                ..said_before_pieces(info, draft)
            },
        ),
        is_passed(t, p, p + info_entries(info).len(), 1),
{
    lemma_info_places(t, p, info);
    let p1 = p + files_entry(info.files).len();
    let p2 = p1 + length_entry(info.length).len();
    let p3 = p2 + name_entry(info.name).len();
    let p4 = p3 + piece_length_entry(info.piece_length).len();
    let p5 = p4 + 2;
    let p6 = p5 + remark_tokens(info.remark).len();
    let d1 = DraftView {
        files: match info.files {
            Some(files) => draft.files + listed_files(files),
            None => draft.files,
        },
        ..draft
    };
    let d2 = DraftView {
        length: match info.length {
            Some(length) => Some(length),
            None => d1.length,
        },
        ..d1
    };
    let d3 = DraftView {
        name: match info.name {
            Some(name) => Some(name),
            None => d2.name,
        },
        ..d2
    };
    let d4 = said_before_pieces(info, draft);
    let d5 = DraftView { hashes: d4.hashes + hashes_in(info.pieces), ..d4 };
    assert(info_read(t, p, draft) == info_read(t, p1, d1) && is_passed(t, p, p1, 1)) by {
        reveal(info_read);
        lemma_read_files_entry(t, p, info.files, draft);
    }
    assert(info_read(t, p1, d1) == info_read(t, p2, d2) && is_passed(t, p1, p2, 1)) by {
        reveal(info_read);
        lemma_read_length_entry(t, p1, info.length, d1);
    }
    assert(info_read(t, p2, d2) == info_read(t, p3, d3) && is_passed(t, p2, p3, 1)) by {
        reveal(info_read);
        lemma_read_name_entry(t, p2, info.name, d2);
    }
    assert(info_read(t, p3, d3) == info_read(t, p4, d4) && is_passed(t, p3, p4, 1)) by {
        reveal(info_read);
        lemma_read_piece_length_entry(t, p3, info.piece_length, d3);
    }
    let right = info.pieces.len() % 20 == 0;
    assert((if right {
        info_read(t, p4, d4) == info_read(t, p5, d5)
    } else {
        info_read(t, p4, d4) is None
    }) && is_passed(t, p4, p5, 1)) by {
        reveal(info_read);
        lemma_read_pieces_entry(t, p4, info.pieces, d4);
    }
    assert(info_read(t, p5, d5) == info_read(t, p6, d5) && is_passed(t, p5, p6, 1)) by {
        reveal(info_read);
        lemma_read_remark(t, p5, info.remark, d5);
    }
    assert(info_read(t, p6, d5) == Some(d5)) by {
        reveal(info_read);
        assert(!entry_at(t, p6));
    }
    lemma_passed_on(t, p, p1, p2);
    lemma_passed_on(t, p, p2, p3);
    lemma_passed_on(t, p, p3, p4);
    lemma_passed_on(t, p, p4, p5);
    lemma_passed_on(t, p, p5, p6);
    assert(info_read(t, p, draft) == info_from(t, p, draft)) by {
        reveal(info_read);
    }
}

// ---------------------------------------------------------------------------------------
// The bytes of tokens

/// The bytes of a token.
pub open spec fn written(token: TokenView) -> Seq<u8> {
    match token {
        TokenView::List => seq![108u8],
        TokenView::Dict => seq![100u8],
        TokenView::End => seq![101u8],
        TokenView::Integer(digits) => seq![105u8] + digits + seq![101u8],
        TokenView::Bytes(bytes) => ascii(decimal(bytes.len())) + seq![58u8] + bytes,
        TokenView::Malformed => seq![],
    }
}

/// The bytes of tokens one after another.
pub open spec fn all_written(tokens: Seq<TokenView>) -> Seq<u8>
    decreases tokens.len(),
{
    if tokens.len() == 0 {
        seq![]
    } else {
        all_written(tokens.drop_last()) + written(tokens.last())
    }
}

/// Tokens are put back into the bytes that they are written in.
pub proof fn tokens_are_written_as_bencode(tokens: Seq<TokenView>)
    ensures
        tokens_text(tokens) == all_written(tokens),
    decreases tokens.len(),
{
    if tokens.len() > 0 {
        tokens_are_written_as_bencode(tokens.drop_last());
        assert(token_text(tokens.last()) == written(tokens.last()));
    }
}

// ---------------------------------------------------------------------------------------
// The torrent that is read

/// A torrent file is read as it is written. Its tracker is the text of `announce`. Its files
/// are those that are listed, with one separator between the parts of a path, and behind them
/// the one that the name and the length are of, where there is a length; without a length the
/// name is that of the directory. Each twenty bytes of `pieces` are the hash of a piece, byte
/// for byte and in order, and each piece has the piece length. The info hash is the digest of
/// the bytes of the info dictionary, from its start to its end. Without a tracker that is a
/// text, without the info dictionary, with hashes cut short, or with hashes and no piece
/// length, nothing is read.
pub proof fn torrent_files_are_read_as_written(
    tracker: Option<Seq<u8>>,
    remark: Remark,
    info: Option<WrittenInfo>,
)
    requires
        is_remark(remark),
        info matches Some(info) ==> is_remark(info.remark) && (info.files matches Some(files)
            ==> forall|i: int| 0 <= i < files.len() ==> is_listed(#[trigger] files[i])),
    ensures
        metainfo_in(torrent_file(tracker, remark, info)) is Some <==> {
            &&& tracker is Some
            &&& valid_utf8(tracker->0)
            &&& info is Some
            &&& info->0.pieces.len() % 20 == 0
            &&& info->0.pieces.len() > 0 ==> info->0.piece_length is Some
        },
        metainfo_in(torrent_file(tracker, remark, info)) matches Some(read) ==> {
            let info = info->0;
            let listed = match info.files {
                Some(files) => listed_files(files),
                None => seq![],
            };
            &&& encode_utf8(read.tracker) == tracker->0
            &&& read.info_hash == sha1_digest(all_written(info_tokens(info)))
            &&& info.name is Some && info.length is Some ==> {
                &&& read.directory is None
                &&& read.files == listed.push(
                    FileInfoView { relative_path: info.name->0, length: info.length->0 },
                )
            }
            &&& !(info.name is Some && info.length is Some) ==> {
                &&& read.directory == info.name
                &&& read.files == listed
            }
            &&& 20 * read.pieces.len() == info.pieces.len()
            &&& forall|i: int|
                0 <= i < read.pieces.len() ==> {
                    let piece = #[trigger] read.pieces[i];
                    &&& piece.hash.len() == 20
                    &&& piece.length == info.piece_length->0
                    &&& forall|k: int|
                        0 <= k < 20 ==> #[trigger] piece.hash[k] == info.pieces[20 * i + k]
                }
        },
{
    let t = torrent_file(tracker, remark, info);
    lemma_torrent_places(tracker, remark, info);
    let p2: int = 1 + announce_entry(tracker).len() as int;
    let p3 = p2 + remark_tokens(remark).len();
    let d1 = empty_draft();
    let d2 = announced(tracker, d1);
    assert(tracker is Some && !valid_utf8(tracker->0) ==> metainfo_in(t) is None) by {
        lemma_read_announce(t, 1, tracker, d1);
    }
    if !(tracker is Some && !valid_utf8(tracker->0)) {
        assert(metainfo_read(t, 1, d1) == metainfo_read(t, p2, d2)) by {
            reveal(metainfo_read);
            lemma_read_announce(t, 1, tracker, d1);
        }
        assert(metainfo_read(t, p2, d2) == metainfo_read(t, p3, d2)) by {
            reveal(metainfo_read);
            lemma_pass_remark(t, p2, remark, 1);
            assert(metainfo_entry(t, p2, d2) == Some(d2));
        }
        assert(metainfo_in(t) == match metainfo_read(t, p3, d2) {
            Some(draft) => completed(draft),
            None => None,
        }) by {
            reveal(metainfo_read);
        }
        if tracker is Some {
            decode_utf8_encode_utf8(tracker->0);
        }
        match info {
            None => {
                assert(metainfo_read(t, p3, d2) == Some(d2)) by {
                    reveal(metainfo_read);
                    assert(!entry_at(t, p3));
                }
            },
            Some(info) => {
                assert(metainfo_read(t, p3, d2) == if info.pieces.len() % 20 == 0 {
                    Some(informed(info, d2))
                } else {
                    None
                }) by {
                    reveal(metainfo_read);
                    lemma_read_info_part(t, p3, info, d2);
                }
                if info.pieces.len() % 20 == 0 {
                    assert(d2.hashes + hashes_in(info.pieces) =~= hashes_in(info.pieces));
                    lemma_completed(info, informed(info, d2));
                }
            },
        }
    }
}

/// `metainfo_from`, not looked into.
#[verifier::opaque]
spec fn metainfo_read(t: Seq<TokenView>, p: int, draft: DraftView) -> Option<DraftView> {
    metainfo_from(t, p, draft)
}

spec fn announced(tracker: Option<Seq<u8>>, draft: DraftView) -> DraftView {
    match tracker {
        Some(tracker) => DraftView { tracker: Some(decode_utf8(tracker)), ..draft },
        None => draft,
    }
}

spec fn informed(info: WrittenInfo, draft: DraftView) -> DraftView {
    DraftView {
        hashes: draft.hashes + hashes_in(info.pieces),
        info_hash: Some(sha1_digest(all_written(info_tokens(info)))),
        ..said_before_pieces(info, draft)
    }
}

proof fn lemma_torrent_places(
    tracker: Option<Seq<u8>>,
    remark: Remark,
    info: Option<WrittenInfo>,
)
    ensures
        ({
            let t = torrent_file(tracker, remark, info);
            let p2: int = 1 + announce_entry(tracker).len() as int;
            let p3 = p2 + remark_tokens(remark).len();
            let p4 = p3 + info_part(info).len();
            &&& live(t, 0)
            &&& t[0] is Dict
            &&& stands(t, 1, announce_entry(tracker))
            &&& stands(t, p2, remark_tokens(remark))
            &&& stands(t, p3, info_part(info))
            &&& p4 < t.len()
            &&& t[p4] is End
        }),
{
    let t = torrent_file(tracker, remark, info);
    let head = seq![TokenView::Dict];
    let announce = announce_entry(tracker);
    let said = remark_tokens(remark);
    let part = info_part(info);
    let tail = seq![TokenView::End];
    assert(t.subrange(0, t.len() as int) =~= t);
    assert(stands(t, 0, t));
    lemma_stands_apart(t, 0, head + announce + said + part, tail);
    lemma_stands_apart(t, 0, head + announce + said, part);
    lemma_stands_apart(t, 0, head + announce, said);
    lemma_stands_apart(t, 0, head, announce);
    lemma_stands_at(t, 0, head);
    assert(t[0] == head[0]);
    let p4: int = 1 + announce.len() as int + said.len() + part.len();
    lemma_stands_at(t, p4, tail);
    assert(t[p4] == tail[0]);
}

proof fn lemma_read_announce(
    t: Seq<TokenView>,
    p: int,
    tracker: Option<Seq<u8>>,
    draft: DraftView,
)
    requires
        stands(t, p, announce_entry(tracker)),
    ensures
        tracker is Some && !valid_utf8(tracker->0) ==> metainfo_from(t, p, draft) is None,
        !(tracker is Some && !valid_utf8(tracker->0)) ==> metainfo_from(t, p, draft)
            == metainfo_from(t, p + announce_entry(tracker).len(), announced(tracker, draft)),
{
    if let Some(bytes) = tracker {
        let entry = announce_entry(tracker);
        lemma_stands_at(t, p, entry);
        assert(t[p] == entry[0] && t[p + 1] == entry[1]);
        if valid_utf8(bytes) {
            assert(metainfo_entry(t, p, draft) == Some(announced(tracker, draft)));
        } else {
            assert(metainfo_entry(t, p, draft) is None);
        }
    }
}

proof fn lemma_read_info_part(t: Seq<TokenView>, p: int, info: WrittenInfo, draft: DraftView)
    requires
        stands(t, p, seq![key("info")] + info_tokens(info)),
        p + 1 + info_tokens(info).len() < t.len(),
        t[p + 1 + info_tokens(info).len()] is End,
        is_remark(info.remark),
        info.files matches Some(files) ==> forall|i: int|
            0 <= i < files.len() ==> is_listed(#[trigger] files[i]),
    ensures
        metainfo_from(t, p, draft) == if info.pieces.len() % 20 == 0 {
            Some(informed(info, draft))
        } else {
            None
        },
{
    let all = info_tokens(info);
    let entries = info_entries(info);
    let name = seq![key("info")];
    let open = seq![TokenView::Dict];
    let tail = seq![TokenView::End];
    lemma_stands_apart(t, p, name, all);
    lemma_stands_at(t, p, name);
    assert(t[p] == name[0]);
    lemma_stands_apart(t, p + 1, open + entries, tail);
    lemma_stands_apart(t, p + 1, open, entries);
    lemma_stands_at(t, p + 1, open);
    assert(t[p + 1] == open[0]);
    let q = p + 2 + entries.len();
    lemma_stands_at(t, q, tail);
    assert(t[q] == tail[0]);
    lemma_read_info(t, p + 2, info, draft);
    assert(close_end(t, p + 2, 1) == q + 1 && closes(t, p + 2, 1)) by {
        reveal(is_passed);
        reveal_with_fuel(close_end, 2);
        reveal_with_fuel(closes, 2);
    }
    assert(value_end(t, p + 1) == q + 1);
    assert(info_text(t, p + 1) == tokens_text(all));
    tokens_are_written_as_bencode(all);
    if info.pieces.len() % 20 == 0 {
        assert(metainfo_entry(t, p, draft) == Some(informed(info, draft)));
        assert(!entry_at(t, q + 1));
        assert(metainfo_from(t, q + 1, informed(info, draft)) == Some(informed(info, draft)));
        assert(entry_at(t, p));
        assert(metainfo_from(t, p, draft) == metainfo_from(t, q + 1, informed(info, draft)));
    } else {
        assert(metainfo_entry(t, p, draft) is None);
        assert(entry_at(t, p));
    }
}

proof fn lemma_completed(info: WrittenInfo, draft: DraftView)
    requires
        info.pieces.len() % 20 == 0,
        draft.hashes == hashes_in(info.pieces),
        draft.info_hash is Some,
        draft.files == (match info.files {
            Some(files) => Seq::<FileInfoView>::empty() + listed_files(files),
            None => Seq::<FileInfoView>::empty(),
        }),
        draft.name == info.name,
        draft.length == info.length,
        draft.piece_length == info.piece_length,
    ensures
        completed(draft) is Some <==> draft.tracker is Some && (info.pieces.len() > 0
            ==> info.piece_length is Some),
        completed(draft) matches Some(read) ==> {
            let listed = match info.files {
                Some(files) => listed_files(files),
                None => seq![],
            };
            &&& read.tracker == draft.tracker->0
            &&& read.info_hash == draft.info_hash->0
            &&& info.name is Some && info.length is Some ==> {
                &&& read.directory is None
                &&& read.files == listed.push(
                    FileInfoView { relative_path: info.name->0, length: info.length->0 },
                )
            }
            &&& !(info.name is Some && info.length is Some) ==> {
                &&& read.directory == info.name
                &&& read.files == listed
            }
            &&& 20 * read.pieces.len() == info.pieces.len()
            &&& forall|i: int|
                0 <= i < read.pieces.len() ==> {
                    let piece = #[trigger] read.pieces[i];
                    &&& piece.hash.len() == 20
                    &&& piece.length == info.piece_length->0
                    &&& forall|k: int|
                        0 <= k < 20 ==> #[trigger] piece.hash[k] == info.pieces[20 * i + k]
                }
        },
{
    let listed = match info.files {
        Some(files) => listed_files(files),
        None => seq![],
    };
    assert(draft.files =~= listed);
    if let Some(read) = completed(draft) {
        assert forall|i: int| 0 <= i < read.pieces.len() implies {
            let piece = #[trigger] read.pieces[i];
            &&& piece.hash.len() == 20
            &&& piece.length == info.piece_length->0
            &&& forall|k: int| 0 <= k < 20 ==> #[trigger] piece.hash[k] == info.pieces[20 * i + k]
        } by {
            assert(read.pieces[i].hash == info.pieces.subrange(20 * i, 20 * i + 20));
        }
    }
}

} // verus!
