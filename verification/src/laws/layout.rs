//! How a torrent is laid out, said of the bytes of its files.

use vstd::arithmetic::div_mod::*;
use vstd::arithmetic::mul::*;
use vstd::prelude::*;

use crate::bencode::{FileInfoView, MetaInfoView};
use crate::layout::{
    blocks_are_in_order, blocks_cover_the_torrent, blocks_lie_in_the_pieces, blocks_of, can_be_cut,
    covers, cut_length, cuts_of_file, cuts_upto, file_blocks_cover_the_file, file_cuts, file_start,
    files_and_torrent_share_their_blocks, files_have_no_more_cuts_than_bytes, holds_place, in_place,
    is_before, lemma_total_grows, meets, next_cursor, piece_count, pieces_are_as_long_as_the_files,
    position, same_place, torrent_blocks, total_length, Cursor, Cut,
};
use crate::order::{by_texts, lemma_by_texts, text_at_most};
use crate::path::joined;
use crate::torrent::formatter::block_id;
use crate::torrent::models::TorrentView;
use crate::torrent::state::{
    can_be_laid_out, cut_id, cut_names, file_lengths, files_list_their_blocks_by_name,
    is_listed_cut, listed_cuts, name_of, new_torrent, plain_torrent,
};

verus! {

/// How many bytes the first `k` files have together.
pub open spec fn bytes_before(files: Seq<FileInfoView>, k: int) -> int
    decreases k,
{
    if k <= 0 {
        0
    } else {
        bytes_before(files, k - 1) + files[k - 1].length
    }
}

/// A torrent with files, and with pieces that are not empty.
pub open spec fn has_pieces(meta: MetaInfoView) -> bool {
    &&& meta.files.len() > 0
    &&& meta.pieces.len() > 0
    &&& meta.pieces[0].length > 0
    &&& forall|k: int|
        0 <= k < meta.files.len() ==> (#[trigger] meta.files[k]).length <= usize::MAX
}

proof fn lemma_bytes_before(meta: MetaInfoView, k: int)
    requires
        has_pieces(meta),
        0 <= k <= meta.files.len(),
    ensures
        bytes_before(meta.files, k) == total_length(file_lengths(meta.files), k),
    decreases k,
{
    if k > 0 {
        lemma_bytes_before(meta, k - 1);
        assert(meta.files[k - 1].length <= usize::MAX);
    }
}

/// A new torrent is that of its file, at its destination, with nothing of it there.
pub proof fn new_torrents_have_nothing(
    client_id: Seq<u8>,
    dest_path: Seq<char>,
    meta: MetaInfoView,
)
    ensures
        ({
            let t = new_torrent(client_id, dest_path, meta);
            &&& t.client_id == client_id
            &&& meta.directory is None ==> t.dest_path == dest_path
            &&& meta.directory is Some ==> t.dest_path == joined(dest_path, meta.directory->0)
            &&& t.hash == meta.info_hash
            &&& t.tracker == meta.tracker
            &&& t.directory == meta.directory
            &&& t.peers.len() == 0
            &&& t.downloaded_window_second == (0u64, 0usize)
            &&& t.files.len() == meta.files.len()
            &&& forall|f: int|
                0 <= f < t.files.len() ==> {
                    let file = #[trigger] t.files[f];
                    &&& file.index == f
                    &&& file.relative_path == meta.files[f].relative_path
                    &&& meta.files[f].length <= usize::MAX ==> file.length == meta.files[f].length
                    &&& file.path is None
                    &&& !file.verified
                }
            &&& forall|i: int|
                0 <= i < t.pieces.len() ==> {
                    let piece = #[trigger] t.pieces[i];
                    &&& piece.index == i
                    &&& piece.have == 0
                    &&& piece.hash == meta.pieces[i].hash
                }
            &&& forall|i: int|
                0 <= i < t.blocks.len() ==> {
                    let block = #[trigger] t.blocks[i];
                    &&& block.data_status is Pending
                    &&& !block.verified
                }
        }),
{
}

/// A torrent that is not going to be verified is laid out like any other, with no hashes.
pub proof fn plain_torrents_have_no_hashes(
    client_id: Seq<u8>,
    dest_path: Seq<char>,
    meta: MetaInfoView,
)
    ensures
        ({
            let t = new_torrent(client_id, dest_path, meta);
            let plain = plain_torrent(client_id, dest_path, meta);
            &&& plain == (TorrentView { pieces: plain.pieces, ..t })
            &&& plain.pieces.len() == t.pieces.len()
            &&& forall|i: int|
                0 <= i < t.pieces.len() ==> {
                    let piece = #[trigger] plain.pieces[i];
                    &&& piece.index == t.pieces[i].index
                    &&& piece.length == t.pieces[i].length
                    &&& piece.have == t.pieces[i].have
                    &&& piece.hash.len() == 20
                    &&& forall|k: int| 0 <= k < 20 ==> #[trigger] piece.hash[k] == 0u8
                }
        }),
{
}

// ---------------------------------------------------------------------------------------
// Pieces

/// All pieces but the last are full, and together they are as long as the files. The last is
/// not empty, unless the last file is: then it is not full.
pub proof fn pieces_are_full_but_the_last(
    client_id: Seq<u8>,
    dest_path: Seq<char>,
    meta: MetaInfoView,
    i: int,
)
    requires
        has_pieces(meta),
        0 <= i < new_torrent(client_id, dest_path, meta).pieces.len(),
    ensures
        ({
            let pieces = new_torrent(client_id, dest_path, meta).pieces;
            let full = meta.pieces[0].length;
            let n = pieces.len() as int;
            &&& i < n - 1 ==> pieces[i].length == full
            &&& (n - 1) * full + pieces[n - 1].length == bytes_before(
                meta.files,
                meta.files.len() as int,
            )
            &&& 0 <= pieces[n - 1].length <= full
            &&& meta.files.last().length > 0 ==> pieces[n - 1].length > 0
            &&& meta.files.last().length == 0 ==> pieces[n - 1].length < full
        }),
{
    let full = meta.pieces[0].length;
    let lengths = file_lengths(meta.files);
    let k = meta.files.len() as int;
    let total = total_length(lengths, k);
    lemma_bytes_before(meta, k);
    lemma_total_grows(lengths, 0, k);
    lemma_total_grows(lengths, k - 1, k);
    assert(lengths.last() == meta.files.last().length) by {
        assert(meta.files[k - 1].length <= usize::MAX);
    }
    lemma_fundamental_div_mod(total, full);
    lemma_mod_bound(total, full);
    let up = total + full - 1;
    lemma_fundamental_div_mod(up, full);
    lemma_mod_bound(up, full);
    let n = piece_count(full, lengths);
    if lengths.last() == 0 {
        assert((n - 1) * full == full * (total / full)) by {
            lemma_mul_is_commutative(full, total / full);
        }
    } else {
        lemma_total_grows(lengths, 0, k - 1);
        assert(total > 0);
        assert((n - 1) * full == full * (up / full) - full) by {
            lemma_mul_is_commutative(full, up / full);
            lemma_mul_is_distributive_sub_other_way(full, n, 1);
        }
    }
    assert(n == new_torrent(client_id, dest_path, meta).pieces.len());
}

/// There are pieces, as there are files.
pub proof fn torrents_have_pieces(client_id: Seq<u8>, dest_path: Seq<char>, meta: MetaInfoView)
    requires
        has_pieces(meta),
    ensures
        new_torrent(client_id, dest_path, meta).pieces.len() > 0,
{
    let full = meta.pieces[0].length;
    let lengths = file_lengths(meta.files);
    pieces_are_as_long_as_the_files(full, lengths);
}

// ---------------------------------------------------------------------------------------
// Blocks

/// A part of file `f` that starts at a distance from the start of the torrent, and in a piece.
/// It is within both, and as long as a block may be unless it reaches the end of one of them.
pub open spec fn is_long_enough(
    meta: MetaInfoView,
    f: int,
    distance: int,
    begin: int,
    length: int,
) -> bool {
    let full = meta.pieces[0].length;
    &&& 0 <= f < meta.files.len()
    &&& 0 <= begin < full
    &&& 0 <= length <= 16384
    &&& begin + length <= full
    &&& bytes_before(meta.files, f) <= distance
    &&& distance + length <= bytes_before(meta.files, f + 1)
    &&& length == 16384 || begin + length == full || distance + length == bytes_before(
        meta.files,
        f + 1,
    )
    &&& length == 0 ==> meta.files[f].length == 0
}

proof fn lemma_cut_lengths(piece_length: int, at: Cursor, file: int, offset: int, length: int)
    ensures
        forall|i: int|
            0 <= i < file_cuts(piece_length, at, file, offset, length).len() ==> {
                let cut = #[trigger] file_cuts(piece_length, at, file, offset, length)[i];
                cut.length == cut_length(piece_length, cut.begin, length - cut.offset)
            },
    decreases length - offset,
{
    let n = cut_length(piece_length, at.begin, length - offset);
    if !(n <= 0 || offset + n >= length) {
        let next = next_cursor(piece_length, at, n);
        lemma_cut_lengths(piece_length, next, file, offset + n, length);
        let rest = file_cuts(piece_length, next, file, offset + n, length);
        let all = file_cuts(piece_length, at, file, offset, length);
        assert forall|i: int| 0 <= i < all.len() implies {
            let cut = #[trigger] all[i];
            cut.length == cut_length(piece_length, cut.begin, length - cut.offset)
        } by {
            if i > 0 {
                assert(all[i] == rest[i - 1]);
            }
        }
    }
}

proof fn lemma_some_left(piece_length: int, at: Cursor, file: int, offset: int, length: int)
    requires
        0 <= offset < length,
    ensures
        forall|i: int|
            0 <= i < file_cuts(piece_length, at, file, offset, length).len() ==> (
            #[trigger] file_cuts(piece_length, at, file, offset, length)[i]).offset < length,
    decreases length - offset,
{
    let n = cut_length(piece_length, at.begin, length - offset);
    if !(n <= 0 || offset + n >= length) {
        let next = next_cursor(piece_length, at, n);
        lemma_some_left(piece_length, next, file, offset + n, length);
        let rest = file_cuts(piece_length, next, file, offset + n, length);
        let all = file_cuts(piece_length, at, file, offset, length);
        assert forall|i: int| 0 <= i < all.len() implies (#[trigger] all[i]).offset < length by {
            if i > 0 {
                assert(all[i] == rest[i - 1]);
            }
        }
    }
}

/// What is true of each part that a file is cut into.
proof fn lemma_own_cut(meta: MetaInfoView, f: int, j: int)
    requires
        has_pieces(meta),
        0 <= f < meta.files.len(),
        0 <= j < cuts_of_file(meta.pieces[0].length, file_lengths(meta.files), f).len(),
    ensures
        ({
            let full = meta.pieces[0].length;
            let cut = cuts_of_file(full, file_lengths(meta.files), f)[j];
            let distance = cut.piece * full + cut.begin;
            &&& cut.file == f
            &&& 0 <= cut.piece
            &&& 0 <= cut.offset
            &&& distance == bytes_before(meta.files, f) + cut.offset
            &&& is_long_enough(meta, f, distance, cut.begin, cut.length)
        }),
{
    let full = meta.pieces[0].length;
    let lengths = file_lengths(meta.files);
    let cuts = cuts_of_file(full, lengths, f);
    let cut = cuts[j];
    assert(can_be_cut(full, lengths));
    file_blocks_cover_the_file(full, lengths, f);
    lemma_bytes_before(meta, f);
    lemma_bytes_before(meta, f + 1);
    assert(meta.files[f].length <= usize::MAX);
    assert(in_place(full, lengths, cut));
    let at = file_start(full, lengths, f);
    lemma_cut_lengths(full, at, f, 0, lengths[f] as int);
    assert(cut.length == cut_length(full, cut.begin, lengths[f] - cut.offset));
    if lengths[f] > 0 {
        lemma_some_left(full, at, f, 0, lengths[f] as int);
    }
}

/// Each block lies in its piece and in its file, and is as long as a block may be unless it
/// reaches the end of one of them.
pub proof fn blocks_are_as_long_as_they_can_be(
    client_id: Seq<u8>,
    dest_path: Seq<char>,
    meta: MetaInfoView,
    i: int,
)
    requires
        has_pieces(meta),
        0 <= i < new_torrent(client_id, dest_path, meta).blocks.len(),
    ensures
        ({
            let t = new_torrent(client_id, dest_path, meta);
            let block = t.blocks[i];
            &&& 0 <= block.piece_index < t.pieces.len()
            &&& is_long_enough(
                meta,
                block.file_index,
                block.piece_index * meta.pieces[0].length + block.begin,
                block.begin,
                block.length,
            )
        }),
{
    let full = meta.pieces[0].length;
    let lengths = file_lengths(meta.files);
    let cuts = torrent_blocks(full, lengths);
    files_and_torrent_share_their_blocks(full, lengths);
    blocks_lie_in_the_pieces(full, lengths);
    let cut = cuts[i];
    let own = cuts_of_file(full, lengths, cut.file);
    assert(own.contains(cut));
    let j = choose|j: int| 0 <= j < own.len() && own[j] == cut;
    lemma_own_cut(meta, cut.file, j);
}

/// The blocks follow one another from the first byte to the last, in the order of their
/// places, and the last is one of the last file.
pub proof fn blocks_follow_one_another(
    client_id: Seq<u8>,
    dest_path: Seq<char>,
    meta: MetaInfoView,
    i: int,
)
    requires
        has_pieces(meta),
        0 <= i < new_torrent(client_id, dest_path, meta).blocks.len(),
    ensures
        ({
            let blocks = new_torrent(client_id, dest_path, meta).blocks;
            let full = meta.pieces[0].length;
            let end = blocks[i].piece_index * full + blocks[i].begin + blocks[i].length;
            &&& blocks[0].piece_index == 0
            &&& blocks[0].begin == 0
            &&& i + 1 < blocks.len() ==> end == blocks[i + 1].piece_index * full + blocks[i
                + 1].begin
            &&& i + 1 < blocks.len() ==> blocks[i].length > 0
            &&& i + 1 == blocks.len() ==> end == bytes_before(
                meta.files,
                meta.files.len() as int,
            )
            &&& i + 1 == blocks.len() ==> blocks[i].file_index == meta.files.len() - 1
        }),
{
    let full = meta.pieces[0].length;
    let lengths = file_lengths(meta.files);
    let n = lengths.len() as int;
    let cuts = torrent_blocks(full, lengths);
    assert(can_be_cut(full, lengths));
    blocks_cover_the_torrent(full, lengths);
    blocks_are_in_order(full, lengths);
    lemma_bytes_before(meta, n);
    assert(in_place(full, lengths, cuts[0]));
    assert(position(full, cuts[0]) == 0);
    assert(cuts[0].piece * full == 0) by {
        assert(cuts[0].piece * full >= 0) by (nonlinear_arith)
            requires
                cuts[0].piece >= 0,
                full > 0,
        ;
    }
    assert(cuts[0].piece == 0) by (nonlinear_arith)
        requires
            cuts[0].piece * full == 0,
            full > 0,
    ;
    if i + 1 < cuts.len() {
        assert(meets(full, cuts[i], cuts[i + 1]));
        assert(is_before(cuts[i], cuts[i + 1]));
        assert(in_place(full, lengths, cuts[i]));
        assert(in_place(full, lengths, cuts[i + 1]));
        if cuts[i].length == 0 {
            let (a, b) = (cuts[i], cuts[i + 1]);
            lemma_fundamental_div_mod_converse(position(full, a), full, a.piece, a.begin);
            lemma_fundamental_div_mod_converse(position(full, b), full, b.piece, b.begin);
        }
    }
    lemma_last_block(cuts_upto(full, lengths, n));
    let own = cuts_of_file(full, lengths, n - 1);
    file_blocks_cover_the_file(full, lengths, n - 1);
    assert(cuts_upto(full, lengths, n).last() == own.last());
    assert(own[own.len() - 1].file == n - 1);
}

proof fn lemma_last_block(cuts: Seq<Cut>)
    requires
        cuts.len() > 0,
    ensures
        blocks_of(cuts).len() > 0,
        blocks_of(cuts).last() == cuts.last(),
{
}

/// Where the pieces are empty all files are, and each has a piece and a block of its own.
pub proof fn empty_files_have_a_block_each(
    client_id: Seq<u8>,
    dest_path: Seq<char>,
    meta: MetaInfoView,
    i: int,
)
    requires
        meta.pieces.len() > 0,
        meta.pieces[0].length == 0,
        0 <= i < meta.files.len(),
        forall|k: int| 0 <= k < meta.files.len() ==> (#[trigger] meta.files[k]).length == 0,
    ensures
        ({
            let t = new_torrent(client_id, dest_path, meta);
            &&& t.pieces.len() == meta.files.len()
            &&& t.blocks.len() == meta.files.len()
            &&& t.blocks[i].file_index == i
            &&& t.blocks[i].piece_index == i
            &&& t.blocks[i].begin == 0
            &&& t.blocks[i].length == 0
        }),
{
    let lengths = file_lengths(meta.files);
    assert forall|k: int| 0 <= k < lengths.len() implies #[trigger] lengths[k] == 0 by {
        assert(meta.files[k].length == 0);
    }
    lemma_empty_cuts(lengths, lengths.len() as int);
}

proof fn lemma_empty_cuts(lengths: Seq<usize>, k: int)
    requires
        0 <= k <= lengths.len(),
        forall|f: int| 0 <= f < lengths.len() ==> #[trigger] lengths[f] == 0,
    ensures
        ({
            let blocks = blocks_of(cuts_upto(0, lengths, k));
            &&& blocks.len() == k
            &&& forall|i: int|
                0 <= i < k ==> #[trigger] blocks[i] == (Cut {
                    file: i,
                    piece: i,
                    begin: 0,
                    offset: 0,
                    length: 0,
                })
        }),
    decreases k,
{
    if k > 0 {
        lemma_empty_cuts(lengths, k - 1);
        let before = cuts_upto(0, lengths, k - 1);
        let all = cuts_upto(0, lengths, k);
        assert(lengths[k - 1] == 0);
        assert(all =~= before + cuts_of_file(0, lengths, k - 1));
        assert(all.drop_last() =~= before);
        let blocks = blocks_of(before);
        if blocks.len() > 0 {
            assert(blocks.last() == blocks[k - 2]);
            assert(!same_place(blocks.last(), all.last()));
        }
        assert(blocks_of(all) =~= blocks.push(all.last()));
    }
}

// ---------------------------------------------------------------------------------------
// What a file lists

/// What a file lists are parts of it, each as long as a block may be unless it reaches an end,
/// in the order of their names. The place with each says where it starts in the file, and how
/// long it is.
pub proof fn files_list_parts_of_theirs(
    client_id: Seq<u8>,
    dest_path: Seq<char>,
    meta: MetaInfoView,
    f: int,
    j: int,
)
    requires
        has_pieces(meta),
        can_be_laid_out(meta),
        meta.pieces[0].length <= usize::MAX,
        0 <= f < meta.files.len(),
        0 <= j < new_torrent(client_id, dest_path, meta).files[f].block_ids.len(),
    ensures
        ({
            let file = new_torrent(client_id, dest_path, meta).files[f];
            let id = file.block_ids[j];
            let (offset, length) = file.block_ids_pos[j];
            let distance = id.piece_index * meta.pieces[0].length + id.begin;
            &&& file.block_ids_pos.len() == file.block_ids.len()
            &&& distance == bytes_before(meta.files, f) + offset
            &&& is_long_enough(meta, f, distance, id.begin as int, length as int)
            &&& forall|k: int|
                j < k < file.block_ids.len() ==> text_at_most(
                    block_id(id.piece_index, id.begin),
                    block_id(
                        (#[trigger] file.block_ids[k]).piece_index,
                        file.block_ids[k].begin,
                    ),
                )
        }),
{
    let full = meta.pieces[0].length;
    let lengths = file_lengths(meta.files);
    let own = cuts_of_file(full, lengths, f);
    let file = new_torrent(client_id, dest_path, meta).files[f];
    files_list_their_blocks_by_name(meta, f);
    assert(is_listed_cut(own, file.block_ids[j], file.block_ids_pos[j]));
    let i = choose|i: int|
        0 <= i < own.len() && cut_id(#[trigger] own[i]) == file.block_ids[j]
            && file.block_ids_pos[j] == (own[i].offset as usize, own[i].length as usize);
    lemma_own_cut(meta, f, i);
    lemma_cut_fits(meta, f, i);
    assert forall|k: int| j < k < file.block_ids.len() implies text_at_most(
        block_id(file.block_ids[j].piece_index, file.block_ids[j].begin),
        block_id((#[trigger] file.block_ids[k]).piece_index, file.block_ids[k].begin),
    ) by {
        assert(text_at_most(name_of(file.block_ids[j]), name_of(file.block_ids[k])));
    }
}

/// The numbers of a part of a file fit this machine.
proof fn lemma_cut_fits(meta: MetaInfoView, f: int, i: int)
    requires
        has_pieces(meta),
        can_be_laid_out(meta),
        meta.pieces[0].length <= usize::MAX,
        0 <= f < meta.files.len(),
        0 <= i < cuts_of_file(meta.pieces[0].length, file_lengths(meta.files), f).len(),
    ensures
        ({
            let cut = cuts_of_file(meta.pieces[0].length, file_lengths(meta.files), f)[i];
            &&& 0 <= cut.piece <= usize::MAX
            &&& 0 <= cut.begin <= usize::MAX
            &&& 0 <= cut.offset <= usize::MAX
            &&& 0 <= cut.length <= usize::MAX
        }),
{
    let full = meta.pieces[0].length;
    let lengths = file_lengths(meta.files);
    let cut = cuts_of_file(full, lengths, f)[i];
    let blocks = torrent_blocks(full, lengths);
    lemma_own_cut(meta, f, i);
    file_blocks_cover_the_file(full, lengths, f);
    assert(in_place(full, lengths, cut));
    files_and_torrent_share_their_blocks(full, lengths);
    blocks_lie_in_the_pieces(full, lengths);
    assert(holds_place(blocks, cut));
    let j = choose|j: int| 0 <= j < blocks.len() && same_place(#[trigger] blocks[j], cut);
    assert(blocks[j].piece == cut.piece);
}

/// Every byte of a file is in one of the parts that it lists, and an empty file lists one.
pub proof fn files_list_all_of_theirs(
    client_id: Seq<u8>,
    dest_path: Seq<char>,
    meta: MetaInfoView,
    f: int,
    at: int,
)
    requires
        has_pieces(meta),
        can_be_laid_out(meta),
        meta.pieces[0].length <= usize::MAX,
        0 <= f < meta.files.len(),
    ensures
        ({
            let file = new_torrent(client_id, dest_path, meta).files[f];
            &&& meta.files[f].length == 0 ==> file.block_ids.len() == 1
            &&& 0 <= at < meta.files[f].length ==> exists|j: int|
                0 <= j < file.block_ids.len() && {
                    let (offset, length) = #[trigger] file.block_ids_pos[j];
                    offset <= at < offset + length
                }
        }),
{
    let full = meta.pieces[0].length;
    let lengths = file_lengths(meta.files);
    let own = cuts_of_file(full, lengths, f);
    let file = new_torrent(client_id, dest_path, meta).files[f];
    assert(meta.files[f].length <= usize::MAX);
    files_list_their_blocks_by_name(meta, f);
    files_have_no_more_cuts_than_bytes(full, lengths, f);
    file_blocks_cover_the_file(full, lengths, f);
    if 0 <= at < meta.files[f].length {
        let i = lemma_covered(
            full,
            own,
            total_length(lengths, f),
            total_length(lengths, f + 1),
            total_length(lengths, f) + at,
        );
        assert(in_place(full, lengths, own[i]));
        assert(own[i].file == f);
        lemma_cut_fits(meta, f, i);
        lemma_listed(own, i);
        let listed = listed_cuts(own);
        let j = choose|j: int| 0 <= j < listed.len() && listed[j] == own[i];
        assert(file.block_ids_pos[j] == (own[i].offset as usize, own[i].length as usize));
    }
}

proof fn lemma_listed(cuts: Seq<Cut>, i: int)
    requires
        cuts.len() <= usize::MAX,
        0 <= i < cuts.len(),
    ensures
        listed_cuts(cuts).len() == cuts.len(),
        listed_cuts(cuts).contains(cuts[i]),
{
    let names = cut_names(cuts);
    let order = by_texts(names);
    let listed = listed_cuts(cuts);
    lemma_by_texts(names);
    assert(order.contains(i as usize));
    let k = choose|k: int| 0 <= k < order.len() && order[k] == i as usize;
    assert(listed[k] == cuts[i]);
}

/// What covers a part of the torrent has each of its bytes.
proof fn lemma_covered(piece_length: int, cuts: Seq<Cut>, start: int, end: int, at: int) -> (i: int)
    requires
        covers(piece_length, cuts, start, end),
        start <= at < end,
    ensures
        0 <= i < cuts.len(),
        position(piece_length, cuts[i]) <= at < position(piece_length, cuts[i]) + cuts[i].length,
    decreases cuts.len(),
{
    if cuts.len() == 1 {
        0
    } else {
        let last = cuts.len() - 1;
        if at >= position(piece_length, cuts[last]) {
            last
        } else {
            let fewer = cuts.drop_last();
            assert(meets(piece_length, cuts[last - 1], cuts[last]));
            assert forall|i: int, j: int| 0 <= i && j == i + 1 && j < fewer.len() implies meets(
                piece_length,
                #[trigger] fewer[i],
                #[trigger] fewer[j],
            ) by {
                assert(meets(piece_length, cuts[i], cuts[j]));
            }
            assert(covers(piece_length, fewer, start, position(piece_length, cuts[last])));
            lemma_covered(piece_length, fewer, start, position(piece_length, cuts[last]), at)
        }
    }
}

} // verus!
