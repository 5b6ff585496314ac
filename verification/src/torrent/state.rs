//! How a torrent starts out, and what is found of it on disk.

use vstd::arithmetic::mul::*;
use vstd::prelude::*;
use vstd::string::*;

use super::formatter::{block_id, block_id_is_injective, get_block_id, parse_block_id};
use super::models::{
    a_frame_stays_whole, block_views, comes_before, file_views, has_block, id_of, is_block,
    is_whole, lemma_one_block, lists, piece_views, same_frame, Block, BlockId, BlockStatus,
    BlockStatusView, BlockView, File, FileView, Piece, PieceView, Torrent, TorrentView,
};
use crate::bencode::{text_view, FileInfoView, MetaInfo, MetaInfoView};
use crate::layout::{
    blocks_are_in_order, blocks_lie_in_the_pieces, can_be_cut, cuts_of_file,
    files_and_torrent_share_their_blocks, files_have_no_more_cuts_than_bytes, holds_place,
    is_before, lay_out, piece_count, piece_length_at, same_place, span_views, torrent_blocks,
    total_length, BlockSpan, Cut, Layout,
};
use crate::order::{by_texts, char_views, lemma_by_texts, sort_by_texts, text_at_most};
use crate::path::{join_path, joined, lemma_joined_is_injective, same_path, same_path_text};
use crate::select::{at_most, chosen, lemma_chosen, lemma_chosen_grows, lemma_chosen_one};
use crate::text::chars_of;
use crate::utils::{bytes_to_hex_encoding, percent_encoding, percent_encoding_is_injective};

verus! {

/// What the name of the directory with the blocks of a torrent begins with.
pub const TEMP_DIR_PREFIX: &'static str = ".tmp_";

/// The lengths of files, as numbers of this machine.
pub open spec fn file_lengths(files: Seq<FileInfoView>) -> Seq<usize> {
    Seq::new(files.len(), |i: int| files[i].length as usize)
}

/// A torrent that can be laid out: with files, and with pieces that can be counted.
pub open spec fn can_be_laid_out(meta: MetaInfoView) -> bool {
    &&& meta.pieces.len() > 0
    &&& can_be_cut(meta.pieces[0].length, file_lengths(meta.files))
    &&& piece_count(meta.pieces[0].length, file_lengths(meta.files)) <= usize::MAX
}

/// A torrent that can be laid out, with a hash for each piece.
pub open spec fn is_complete(meta: MetaInfoView) -> bool {
    &&& can_be_laid_out(meta)
    &&& piece_count(meta.pieces[0].length, file_lengths(meta.files)) <= meta.pieces.len()
}

pub open spec fn cut_id(cut: Cut) -> BlockId {
    BlockId { piece_index: cut.piece as usize, begin: cut.begin as usize }
}

pub open spec fn cut_ids(cuts: Seq<Cut>) -> Seq<BlockId> {
    Seq::new(cuts.len(), |i: int| cut_id(cuts[i]))
}

pub open spec fn cut_positions(cuts: Seq<Cut>) -> Seq<(usize, usize)> {
    Seq::new(cuts.len(), |i: int| (cuts[i].offset as usize, cuts[i].length as usize))
}

/// The name of the block at a place.
pub open spec fn name_of(id: BlockId) -> Seq<char> {
    block_id(id.piece_index, id.begin)
}

/// One of the cuts has this place, and this offset and length in its file.
pub open spec fn is_listed_cut(cuts: Seq<Cut>, id: BlockId, position: (usize, usize)) -> bool {
    exists|i: int|
        0 <= i < cuts.len() && cut_id(#[trigger] cuts[i]) == id && position == (
            cuts[i].offset as usize,
            cuts[i].length as usize,
        )
}

pub open spec fn cut_names(cuts: Seq<Cut>) -> Seq<Seq<char>> {
    Seq::new(cuts.len(), |i: int| name_of(cut_id(cuts[i])))
}

/// The cuts of a file as it lists them: in the order of their names.
pub open spec fn listed_cuts(cuts: Seq<Cut>) -> Seq<Cut> {
    by_texts(cut_names(cuts)).map_values(|p: usize| cuts[p as int])
}

/// A file that nothing has been written of.
pub open spec fn new_file(
    index: int,
    relative_path: Seq<char>,
    length: int,
    cuts: Seq<Cut>,
) -> FileView {
    FileView {
        index,
        relative_path,
        length,
        block_ids: cut_ids(listed_cuts(cuts)),
        block_ids_pos: cut_positions(listed_cuts(cuts)),
        path: None,
        verified: false,
    }
}

/// A block that has not been requested.
pub open spec fn new_block(cut: Cut) -> BlockView {
    BlockView {
        file_index: cut.file,
        piece_index: cut.piece,
        begin: cut.begin,
        length: cut.length,
        data_status: BlockStatusView::Pending,
        verified: false,
    }
}

/// Where the files of a torrent go: to the destination, or to a directory in it.
pub open spec fn destination(dest_path: Seq<char>, directory: Option<Seq<char>>) -> Seq<char> {
    match directory {
        Some(directory) => joined(dest_path, directory),
        None => dest_path,
    }
}

pub open spec fn new_files(meta: MetaInfoView) -> Seq<FileView> {
    let lengths = file_lengths(meta.files);
    Seq::new(
        meta.files.len(),
        |k: int|
            new_file(
                k,
                meta.files[k].relative_path,
                lengths[k] as int,
                cuts_of_file(meta.pieces[0].length, lengths, k),
            ),
    )
}

pub open spec fn new_pieces(meta: MetaInfoView) -> Seq<PieceView> {
    let lengths = file_lengths(meta.files);
    Seq::new(
        piece_count(meta.pieces[0].length, lengths) as nat,
        |i: int|
            PieceView {
                index: i,
                length: piece_length_at(meta.pieces[0].length, lengths, i),
                have: 0,
                hash: meta.pieces[i].hash,
            },
    )
}

/// Pieces that are not going to be verified: no hash is kept of them.
pub open spec fn plain_pieces(meta: MetaInfoView) -> Seq<PieceView> {
    let lengths = file_lengths(meta.files);
    Seq::new(
        piece_count(meta.pieces[0].length, lengths) as nat,
        |i: int|
            PieceView {
                index: i,
                length: piece_length_at(meta.pieces[0].length, lengths, i),
                have: 0,
                hash: Seq::new(20, |k: int| 0u8),
            },
    )
}

pub open spec fn new_blocks(meta: MetaInfoView) -> Seq<BlockView> {
    let cuts = torrent_blocks(meta.pieces[0].length, file_lengths(meta.files));
    Seq::new(cuts.len(), |i: int| new_block(cuts[i]))
}

/// A torrent of which nothing is there yet.
pub open spec fn new_torrent(
    client_id: Seq<u8>,
    dest_path: Seq<char>,
    meta: MetaInfoView,
) -> TorrentView {
    TorrentView {
        client_id,
        dest_path: destination(dest_path, meta.directory),
        hash: meta.info_hash,
        tracker: meta.tracker,
        directory: meta.directory,
        files: new_files(meta),
        pieces: new_pieces(meta),
        blocks: new_blocks(meta),
        peers: seq![],
        downloaded_window_second: (0, 0),
    }
}

/// A torrent of which nothing is there yet, and whose pieces are not going to be verified.
pub open spec fn plain_torrent(
    client_id: Seq<u8>,
    dest_path: Seq<char>,
    meta: MetaInfoView,
) -> TorrentView {
    TorrentView { pieces: plain_pieces(meta), ..new_torrent(client_id, dest_path, meta) }
}

/// The directory that holds the blocks of a torrent until its files are written.
pub open spec fn temp_dir(t: TorrentView) -> Seq<char> {
    joined(t.dest_path, TEMP_DIR_PREFIX@ + percent_encoding(t.hash))
}

/// A copy of a text that may be there.
pub fn copy_text(text: &Option<String>) -> (copied: Option<String>)
    ensures
        text_view(copied) == text_view(*text),
{
    match text {
        Some(text) => Some(text.as_str().to_owned()),
        None => None,
    }
}

/// Where the files of a torrent go: to the destination, or to a directory in it.
pub fn destination_path(dest_path: &str, directory: &Option<String>) -> (path: String)
    ensures
        path@ == destination(dest_path@, text_view(*directory)),
{
    match directory {
        Some(directory) => join_path(dest_path, directory.as_str()),
        None => dest_path.to_owned(),
    }
}

/// The directory that holds the blocks of the torrent with this hash.
pub fn temp_dir_path(dest_path: &str, hash: &[u8]) -> (path: String)
    ensures
        path@ == joined(dest_path@, TEMP_DIR_PREFIX@ + percent_encoding(hash@)),
{
    let mut name = TEMP_DIR_PREFIX.to_owned();
    let encoded = bytes_to_hex_encoding(hash);
    name.append(encoded.as_str());
    join_path(dest_path, name.as_str())
}

fn span_names(spans: &Vec<BlockSpan>) -> (names: Vec<Vec<char>>)
    ensures
        char_views(names@) == cut_names(span_views(spans@)),
{
    let ghost all = cut_names(span_views(spans@));
    let mut names: Vec<Vec<char>> = Vec::new();
    let mut i: usize = 0;
    while i < spans.len()
        invariant
            i <= spans@.len(),
            all == cut_names(span_views(spans@)),
            char_views(names@) == all.take(i as int),
        decreases spans@.len() - i,
    {
        let ghost before = char_views(names@);
        let name = get_block_id(spans[i].piece_index, spans[i].begin);
        names.push(chars_of(name.as_str()));
        i = i + 1;
        assert(char_views(names@) =~= before.push(all[i - 1]));
        assert(char_views(names@) =~= all.take(i as int));
    }
    assert(char_views(names@) =~= all);
    names
}

/// The blocks of a file in the order of their names.
fn list_spans(spans: &Vec<BlockSpan>) -> (listed: Vec<BlockSpan>)
    ensures
        span_views(listed@) == listed_cuts(span_views(spans@)),
{
    let ghost cuts = span_views(spans@);
    let ghost all = listed_cuts(cuts);
    let names = span_names(spans);
    let sorted = sort_by_texts(&names);
    let length: usize = spans.len();
    proof {
        lemma_by_texts(cut_names(cuts));
    }
    let mut listed: Vec<BlockSpan> = Vec::new();
    let mut k: usize = 0;
    while k < sorted.len()
        invariant
            k <= sorted@.len(),
            cuts == span_views(spans@),
            all == listed_cuts(cuts),
            sorted@ == by_texts(cut_names(cuts)),
            forall|j: int| 0 <= j < sorted@.len() ==> (#[trigger] sorted@[j]) < spans@.len(),
            span_views(listed@) == all.take(k as int),
        decreases sorted@.len() - k,
    {
        let ghost before = span_views(listed@);
        let span = spans[sorted[k]];
        listed.push(span);
        k = k + 1;
        assert(all[k - 1] == span@);
        assert(span_views(listed@) =~= before.push(span@));
        assert(span_views(listed@) =~= all.take(k as int));
    }
    assert(span_views(listed@) =~= all);
    listed
}

fn ids_of_spans(spans: &Vec<BlockSpan>) -> (ids: Vec<BlockId>)
    ensures
        ids@ == cut_ids(span_views(spans@)),
{
    let mut ids: Vec<BlockId> = Vec::new();
    let mut i: usize = 0;
    while i < spans.len()
        invariant
            i <= spans@.len(),
            ids@ == cut_ids(span_views(spans@)).take(i as int),
        decreases spans@.len() - i,
    {
        ids.push(BlockId { piece_index: spans[i].piece_index, begin: spans[i].begin });
        i = i + 1;
        assert(ids@ =~= cut_ids(span_views(spans@)).take(i as int));
    }
    assert(ids@ =~= cut_ids(span_views(spans@)));
    ids
}

fn positions_of_spans(spans: &Vec<BlockSpan>) -> (positions: Vec<(usize, usize)>)
    ensures
        positions@ == cut_positions(span_views(spans@)),
{
    let mut positions: Vec<(usize, usize)> = Vec::new();
    let mut i: usize = 0;
    while i < spans.len()
        invariant
            i <= spans@.len(),
            positions@ == cut_positions(span_views(spans@)).take(i as int),
        decreases spans@.len() - i,
    {
        positions.push((spans[i].offset, spans[i].length));
        i = i + 1;
        assert(positions@ =~= cut_positions(span_views(spans@)).take(i as int));
    }
    assert(positions@ =~= cut_positions(span_views(spans@)));
    positions
}

fn lengths_of(meta: &MetaInfo) -> (lengths: Vec<usize>)
    ensures
        lengths@ == file_lengths(meta@.files),
{
    let mut lengths: Vec<usize> = Vec::new();
    let mut k: usize = 0;
    while k < meta.files.len()
        invariant
            k <= meta.files@.len(),
            lengths@ == file_lengths(meta@.files).take(k as int),
        decreases meta.files@.len() - k,
    {
        lengths.push(meta.files[k].length as usize);
        k = k + 1;
        assert(lengths@ =~= file_lengths(meta@.files).take(k as int));
    }
    assert(lengths@ =~= file_lengths(meta@.files));
    lengths
}

/// The number of pieces of a torrent, where it can be cut.
fn count_pieces(meta: &MetaInfo) -> (count: Option<u128>)
    ensures
        count is Some <==> meta@.pieces.len() > 0 && can_be_cut(
            meta@.pieces[0].length,
            file_lengths(meta@.files),
        ),
        count is Some ==> count->0 == piece_count(
            meta@.pieces[0].length,
            file_lengths(meta@.files),
        ),
{
    let lengths = lengths_of(meta);
    let file_count: usize = lengths.len();
    if meta.pieces.len() == 0 || file_count == 0 {
        return None;
    }
    assert(meta@.pieces[0] == meta.pieces@[0]@);
    let piece_length: usize = meta.pieces[0].length;
    let mut total: u128 = 0;
    let mut k: usize = 0;
    while k < file_count
        invariant
            file_count == lengths@.len(),
            k <= file_count,
            lengths@ == file_lengths(meta@.files),
            total == total_length(lengths@, k as int),
            total <= k * usize::MAX,
            piece_length == meta@.pieces[0].length,
            piece_length == 0 ==> forall|i: int| 0 <= i < k ==> #[trigger] lengths@[i] == 0,
        decreases file_count - k,
    {
        if piece_length == 0 && lengths[k] != 0 {
            assert(lengths@[k as int] != 0);
            return None;
        }
        proof {
            lemma_mul_upper_bound(
                k as int,
                usize::MAX as int,
                usize::MAX as int,
                usize::MAX as int,
            );
            lemma_mul_is_distributive_add_other_way(usize::MAX as int, k as int, 1);
            assert(usize::MAX as int * usize::MAX as int + usize::MAX as int <= u128::MAX) by {
                lemma_mul_upper_bound(
                    usize::MAX as int,
                    0xffff_ffff_ffff_ffff,
                    usize::MAX as int,
                    0xffff_ffff_ffff_ffff,
                );
            }
        }
        total = total + lengths[k] as u128;
        k = k + 1;
    }
    let count: u128 = if piece_length == 0 {
        file_count as u128
    } else if lengths[file_count - 1] == 0 {
        total / (piece_length as u128) + 1
    } else {
        proof {
            lemma_mul_upper_bound(
                file_count as int,
                0xffff_ffff_ffff_ffff,
                usize::MAX as int,
                0xffff_ffff_ffff_ffff,
            );
        }
        (total + piece_length as u128 - 1) / (piece_length as u128)
    };
    assert(count == piece_count(piece_length as int, lengths@));
    Some(count)
}

/// Whether the torrent can be laid out.
pub fn meta_can_be_laid_out(meta: &MetaInfo) -> (can: bool)
    ensures
        can == can_be_laid_out(meta@),
{
    match count_pieces(meta) {
        Some(count) => count <= usize::MAX as u128,
        None => false,
    }
}

/// Whether the torrent can be laid out, with a hash for each piece.
pub fn meta_is_complete(meta: &MetaInfo) -> (complete: bool)
    ensures
        complete == is_complete(meta@),
{
    let hash_count: usize = meta.pieces.len();
    match count_pieces(meta) {
        Some(count) => count <= hash_count as u128,
        None => false,
    }
}

fn files_of(meta: &MetaInfo, lengths: &Vec<usize>, layout: &Layout) -> (files: Vec<File>)
    requires
        lengths@ == file_lengths(meta@.files),
        layout.file_blocks@.len() == lengths@.len(),
        forall|k: int|
            0 <= k < lengths@.len() ==> span_views((#[trigger] layout.file_blocks@[k])@)
                == cuts_of_file(meta@.pieces[0].length, lengths@, k),
    ensures
        file_views(files@) == new_files(meta@),
{
    let mut files: Vec<File> = Vec::new();
    let mut k: usize = 0;
    assert(file_views(files@) =~= new_files(meta@).take(0));
    while k < meta.files.len()
        invariant
            k <= meta.files@.len(),
            lengths@ == file_lengths(meta@.files),
            layout.file_blocks@.len() == lengths@.len(),
            forall|k: int|
                0 <= k < lengths@.len() ==> span_views((#[trigger] layout.file_blocks@[k])@)
                    == cuts_of_file(meta@.pieces[0].length, lengths@, k),
            file_views(files@) == new_files(meta@).take(k as int),
        decreases meta.files@.len() - k,
    {
        let ghost before = file_views(files@);
        let spans = list_spans(&layout.file_blocks[k]);
        let file = File {
            index: k,
            relative_path: meta.files[k].relative_path.as_str().to_owned(),
            length: lengths[k],
            block_ids: ids_of_spans(&spans),
            block_ids_pos: positions_of_spans(&spans),
            path: None,
            verified: false,
        };
        let ghost view = file@;
        files.push(file);
        proof {
            assert(meta@.files[k as int] == meta.files@[k as int]@);
            assert(view == new_files(meta@)[k as int]);
            assert(file_views(files@) =~= before.push(view));
            assert(new_files(meta@).take(k + 1) =~= new_files(meta@).take(k as int).push(view));
        }
        k = k + 1;
    }
    assert(new_files(meta@).take(k as int) =~= new_files(meta@));
    files
}

fn pieces_of(meta: &MetaInfo, layout: &Layout) -> (pieces: Vec<Piece>)
    requires
        is_complete(meta@),
        layout.piece_lengths@.len() == piece_count(
            meta@.pieces[0].length,
            file_lengths(meta@.files),
        ),
        forall|i: int|
            0 <= i < layout.piece_lengths@.len() ==> #[trigger] layout.piece_lengths@[i]
                == piece_length_at(meta@.pieces[0].length, file_lengths(meta@.files), i),
    ensures
        piece_views(pieces@) == new_pieces(meta@),
{
    let ghost all = new_pieces(meta@);
    let mut pieces: Vec<Piece> = Vec::new();
    let mut i: usize = 0;
    assert(piece_views(pieces@) =~= all.take(0));
    while i < layout.piece_lengths.len()
        invariant
            is_complete(meta@),
            all == new_pieces(meta@),
            i <= layout.piece_lengths@.len(),
            layout.piece_lengths@.len() == piece_count(
                meta@.pieces[0].length,
                file_lengths(meta@.files),
            ),
            forall|i: int|
                0 <= i < layout.piece_lengths@.len() ==> #[trigger] layout.piece_lengths@[i]
                    == piece_length_at(meta@.pieces[0].length, file_lengths(meta@.files), i),
            piece_views(pieces@) == all.take(i as int),
        decreases layout.piece_lengths@.len() - i,
    {
        let ghost before = piece_views(pieces@);
        let piece = Piece {
            index: i,
            length: layout.piece_lengths[i],
            have: 0,
            hash: meta.pieces[i].hash,
        };
        let ghost view = piece@;
        pieces.push(piece);
        proof {
            assert(meta@.pieces[i as int] == meta.pieces@[i as int]@);
            assert(view == all[i as int]);
            assert(piece_views(pieces@) =~= before.push(view));
            assert(all.take(i + 1) =~= all.take(i as int).push(view));
        }
        i = i + 1;
    }
    assert(all.take(i as int) =~= all);
    pieces
}

fn plain_pieces_of(meta: &MetaInfo, layout: &Layout) -> (pieces: Vec<Piece>)
    requires
        layout.piece_lengths@.len() == piece_count(
            meta@.pieces[0].length,
            file_lengths(meta@.files),
        ),
        forall|i: int|
            0 <= i < layout.piece_lengths@.len() ==> #[trigger] layout.piece_lengths@[i]
                == piece_length_at(meta@.pieces[0].length, file_lengths(meta@.files), i),
    ensures
        piece_views(pieces@) == plain_pieces(meta@),
{
    let ghost all = plain_pieces(meta@);
    let mut pieces: Vec<Piece> = Vec::new();
    let mut i: usize = 0;
    assert(piece_views(pieces@) =~= all.take(0));
    while i < layout.piece_lengths.len()
        invariant
            all == plain_pieces(meta@),
            i <= layout.piece_lengths@.len(),
            layout.piece_lengths@.len() == piece_count(
                meta@.pieces[0].length,
                file_lengths(meta@.files),
            ),
            forall|i: int|
                0 <= i < layout.piece_lengths@.len() ==> #[trigger] layout.piece_lengths@[i]
                    == piece_length_at(meta@.pieces[0].length, file_lengths(meta@.files), i),
            piece_views(pieces@) == all.take(i as int),
        decreases layout.piece_lengths@.len() - i,
    {
        let ghost before = piece_views(pieces@);
        let piece = Piece {
            index: i,
            length: layout.piece_lengths[i],
            have: 0,
            hash: [0u8; 20],
        };
        let ghost view = piece@;
        pieces.push(piece);
        proof {
            assert(view =~= all[i as int]);
            assert(piece_views(pieces@) =~= before.push(view));
            assert(all.take(i + 1) =~= all.take(i as int).push(view));
        }
        i = i + 1;
    }
    assert(all.take(i as int) =~= all);
    pieces
}

fn blocks_of_spans(spans: &Vec<BlockSpan>) -> (blocks: Vec<Block>)
    ensures
        block_views(blocks@) == Seq::new(
            spans@.len(),
            |i: int| new_block(span_views(spans@)[i]),
        ),
{
    let ghost all = Seq::new(spans@.len(), |i: int| new_block(span_views(spans@)[i]));
    let mut blocks: Vec<Block> = Vec::new();
    let mut i: usize = 0;
    assert(block_views(blocks@) =~= all.take(0));
    while i < spans.len()
        invariant
            i <= spans@.len(),
            all == Seq::new(spans@.len(), |i: int| new_block(span_views(spans@)[i])),
            block_views(blocks@) == all.take(i as int),
        decreases spans@.len() - i,
    {
        let ghost before = block_views(blocks@);
        let block = Block {
            file_index: spans[i].file_index,
            piece_index: spans[i].piece_index,
            begin: spans[i].begin,
            length: spans[i].length,
            data_status: BlockStatus::Pending,
            verified: false,
        };
        let ghost view = block@;
        blocks.push(block);
        proof {
            assert(view == all[i as int]);
            assert(block_views(blocks@) =~= before.push(view));
            assert(all.take(i + 1) =~= all.take(i as int).push(view));
        }
        i = i + 1;
    }
    assert(all.take(i as int) =~= all);
    blocks
}

/// A list of cuts by name has each of them, and no others.
proof fn lemma_listed_cuts(cuts: Seq<Cut>)
    requires
        cuts.len() <= usize::MAX,
    ensures
        listed_cuts(cuts).len() == cuts.len(),
        forall|k: int|
            0 <= k < listed_cuts(cuts).len() ==> cuts.contains(#[trigger] listed_cuts(cuts)[k]),
        forall|i: int| 0 <= i < cuts.len() ==> listed_cuts(cuts).contains(#[trigger] cuts[i]),
        forall|j: int, k: int|
            0 <= j < k < listed_cuts(cuts).len() ==> text_at_most(
                #[trigger] cut_names(listed_cuts(cuts))[j],
                #[trigger] cut_names(listed_cuts(cuts))[k],
            ),
{
    let names = cut_names(cuts);
    let order = by_texts(names);
    let listed = listed_cuts(cuts);
    lemma_by_texts(names);
    assert forall|k: int| 0 <= k < listed.len() implies cuts.contains(#[trigger] listed[k]) by {
        assert(order[k] < cuts.len());
        assert(listed[k] == cuts[order[k] as int]);
    }
    assert forall|i: int| 0 <= i < cuts.len() implies listed.contains(#[trigger] cuts[i]) by {
        assert(order.contains(i as usize));
        let k = choose|k: int| 0 <= k < order.len() && order[k] == i as usize;
        assert(listed[k] == cuts[i]);
    }
    assert forall|j: int, k: int| 0 <= j < k < listed.len() implies text_at_most(
        #[trigger] cut_names(listed)[j],
        #[trigger] cut_names(listed)[k],
    ) by {
        assert(text_at_most(names[order[j] as int], names[order[k] as int]));
    }
}

/// A new file lists just the blocks that it is cut into, in the order of their names, and with
/// each the place where it lies in the file.
pub proof fn files_list_their_blocks_by_name(meta: MetaInfoView, f: int)
    requires
        can_be_laid_out(meta),
        0 <= f < meta.files.len(),
    ensures
        ({
            let cuts = cuts_of_file(meta.pieces[0].length, file_lengths(meta.files), f);
            let file = new_files(meta)[f];
            &&& file.block_ids.len() == cuts.len()
            &&& file.block_ids_pos.len() == cuts.len()
            &&& forall|k: int|
                0 <= k < cuts.len() ==> is_listed_cut(
                    cuts,
                    #[trigger] file.block_ids[k],
                    file.block_ids_pos[k],
                )
            &&& forall|i: int| 0 <= i < cuts.len() ==> lists(file, cut_id(#[trigger] cuts[i]))
            &&& forall|j: int, k: int|
                0 <= j < k < cuts.len() ==> text_at_most(
                    name_of(#[trigger] file.block_ids[j]),
                    name_of(#[trigger] file.block_ids[k]),
                )
        }),
{
    let lengths = file_lengths(meta.files);
    let cuts = cuts_of_file(meta.pieces[0].length, lengths, f);
    let listed = listed_cuts(cuts);
    let file = new_files(meta)[f];
    files_have_no_more_cuts_than_bytes(meta.pieces[0].length, lengths, f);
    lemma_listed_cuts(cuts);
    assert forall|k: int| 0 <= k < cuts.len() implies is_listed_cut(
        cuts,
        #[trigger] file.block_ids[k],
        file.block_ids_pos[k],
    ) by {
        assert(cuts.contains(listed[k]));
        let i = choose|i: int| 0 <= i < cuts.len() && cuts[i] == listed[k];
        assert(file.block_ids[k] == cut_id(cuts[i]));
    }
    assert forall|i: int| 0 <= i < cuts.len() implies lists(file, cut_id(#[trigger] cuts[i])) by {
        assert(listed.contains(cuts[i]));
        let k = choose|k: int| 0 <= k < listed.len() && listed[k] == cuts[i];
        assert(file.block_ids[k] == cut_id(cuts[i]));
    }
    assert forall|j: int, k: int| 0 <= j < k < cuts.len() implies text_at_most(
        name_of(#[trigger] file.block_ids[j]),
        name_of(#[trigger] file.block_ids[k]),
    ) by {
        assert(text_at_most(cut_names(listed)[j], cut_names(listed)[k]));
    }
}

/// The parts of a new torrent fit together.
pub proof fn a_new_torrent_is_whole(client_id: Seq<u8>, dest_path: Seq<char>, meta: MetaInfoView)
    requires
        can_be_laid_out(meta),
        meta.pieces[0].length <= usize::MAX,
    ensures
        is_whole(new_torrent(client_id, dest_path, meta)),
        is_whole(plain_torrent(client_id, dest_path, meta)),
{
    let t = new_torrent(client_id, dest_path, meta);
    let p = meta.pieces[0].length;
    let lengths = file_lengths(meta.files);
    let cuts = torrent_blocks(p, lengths);
    blocks_are_in_order(p, lengths);
    blocks_lie_in_the_pieces(p, lengths);
    files_and_torrent_share_their_blocks(p, lengths);
    assert forall|i: int, j: int| 0 <= i < j < t.blocks.len() implies comes_before(
        #[trigger] t.blocks[i],
        #[trigger] t.blocks[j],
    ) by {
        assert(is_before(cuts[i], cuts[j]));
    }
    assert forall|i: int| 0 <= i < t.blocks.len() implies {
        let block = #[trigger] t.blocks[i];
        &&& 0 <= block.piece_index < t.pieces.len()
        &&& 0 <= block.file_index < t.files.len()
        &&& lists(t.files[block.file_index], id_of(block))
    } by {
        let cut = cuts[i];
        let own = cuts_of_file(p, lengths, cut.file);
        assert(own.contains(cut));
        let k = choose|k: int| 0 <= k < own.len() && own[k] == cut;
        files_list_their_blocks_by_name(meta, cut.file);
        assert(lists(t.files[cut.file], cut_id(own[k])));
    }
    assert forall|f: int, k: int|
        0 <= f < t.files.len() && 0 <= k < t.files[f].block_ids.len() implies has_block(
        t.blocks,
        #[trigger] t.files[f].block_ids[k],
    ) by {
        let own = cuts_of_file(p, lengths, f);
        files_list_their_blocks_by_name(meta, f);
        assert(is_listed_cut(own, t.files[f].block_ids[k], t.files[f].block_ids_pos[k]));
        let i = choose|i: int|
            0 <= i < own.len() && cut_id(#[trigger] own[i]) == t.files[f].block_ids[k];
        let cut = own[i];
        assert(holds_place(cuts, cut));
        let j = choose|j: int| 0 <= j < cuts.len() && same_place(#[trigger] cuts[j], cut);
        assert(0 <= cuts[j].piece < piece_count(p, lengths));
        assert(is_block(t.blocks[j], t.files[f].block_ids[k]));
    }
    assert(is_whole(t));
    let plain = plain_torrent(client_id, dest_path, meta);
    assert forall|f: int, k: int|
        0 <= f < plain.files.len() && 0 <= k < plain.files[f].block_ids.len() implies has_block(
        plain.blocks,
        #[trigger] plain.files[f].block_ids[k],
    ) by {
        assert(has_block(t.blocks, t.files[f].block_ids[k]));
    }
}

fn assemble(
    client_id: [u8; 20],
    dest_path: &str,
    meta: &MetaInfo,
    files: Vec<File>,
    pieces: Vec<Piece>,
    blocks: Vec<Block>,
) -> (torrent: Torrent)
    ensures
        torrent@ == (TorrentView {
            client_id: client_id@,
            dest_path: destination(dest_path@, meta@.directory),
            hash: meta@.info_hash,
            tracker: meta@.tracker,
            directory: meta@.directory,
            files: file_views(files@),
            pieces: piece_views(pieces@),
            blocks: block_views(blocks@),
            peers: seq![],
            downloaded_window_second: (0, 0),
        }),
{
    let torrent = Torrent {
        client_id,
        dest_path: destination_path(dest_path, &meta.directory),
        hash: meta.info_hash,
        tracker: meta.tracker.as_str().to_owned(),
        directory: copy_text(&meta.directory),
        files,
        pieces,
        blocks,
        peers: Vec::new(),
        downloaded_window_second: (0, 0),
    };
    assert(torrent@.peers =~= seq![]);
    torrent
}

impl Torrent {
    /// A torrent of which nothing is there yet.
    pub fn new(client_id: [u8; 20], dest_path: &str, meta: &MetaInfo) -> (torrent: Self)
        requires
            is_complete(meta@),
        ensures
            torrent@ == new_torrent(client_id@, dest_path@, meta@),
            torrent.wf(),
    {
        let lengths = lengths_of(meta);
        assert(meta@.pieces[0] == meta.pieces@[0]@);
        let layout = lay_out(meta.pieces[0].length, &lengths);
        let files = files_of(meta, &lengths, &layout);
        let pieces = pieces_of(meta, &layout);
        let blocks = blocks_of_spans(&layout.blocks);
        assert(block_views(blocks@) =~= new_blocks(meta@));
        proof {
            a_new_torrent_is_whole(client_id@, dest_path@, meta@);
        }
        assemble(client_id, dest_path, meta, files, pieces, blocks)
    }

    /// A torrent of which nothing is there yet, and whose pieces are not going to be
    /// verified.
    pub fn new_plain(client_id: [u8; 20], dest_path: &str, meta: &MetaInfo) -> (torrent: Self)
        requires
            can_be_laid_out(meta@),
        ensures
            torrent@ == plain_torrent(client_id@, dest_path@, meta@),
            torrent.wf(),
    {
        let lengths = lengths_of(meta);
        assert(meta@.pieces[0] == meta.pieces@[0]@);
        let layout = lay_out(meta.pieces[0].length, &lengths);
        let files = files_of(meta, &lengths, &layout);
        let pieces = plain_pieces_of(meta, &layout);
        let blocks = blocks_of_spans(&layout.blocks);
        assert(block_views(blocks@) =~= new_blocks(meta@));
        proof {
            a_new_torrent_is_whole(client_id@, dest_path@, meta@);
        }
        assemble(client_id, dest_path, meta, files, pieces, blocks)
    }

    /// The directory that holds the blocks of the torrent until its files are written.
    pub fn get_temp_dir_path(&self) -> (path: String)
        ensures
            path@ == temp_dir(self@),
    {
        temp_dir_path(self.dest_path.as_str(), &self.hash)
    }
}

// ---------------------------------------------------------------------------------------
// What is found on disk

/// A file on disk: its name, its path and its length.
#[derive(Debug)]
pub struct DiskEntry {
    pub name: String,
    pub path: String,
    pub length: u64,
}

pub struct DiskEntryView {
    pub name: Seq<char>,
    pub path: Seq<char>,
    pub length: u64,
}

impl View for DiskEntry {
    type V = DiskEntryView;

    open spec fn view(&self) -> DiskEntryView {
        DiskEntryView { name: self.name@, path: self.path@, length: self.length }
    }
}

pub open spec fn entry_views(entries: Seq<DiskEntry>) -> Seq<DiskEntryView> {
    Seq::new(entries.len(), |i: int| entries[i]@)
}

/// The block has this name.
pub open spec fn is_named(block: BlockView, name: Seq<char>) -> bool {
    block_id(block.piece_index as usize, block.begin as usize) == name
}

/// The block, found in a file of its own.
pub open spec fn stored(block: BlockView, path: Seq<char>) -> BlockView {
    BlockView {
        data_status: BlockStatusView::PersistedSeparately(path),
        verified: false,
        ..block
    }
}

/// The blocks after the one with this name was found in a file of its own.
pub open spec fn with_stored_block(
    blocks: Seq<BlockView>,
    name: Seq<char>,
    path: Seq<char>,
) -> Seq<BlockView> {
    Seq::new(
        blocks.len(),
        |i: int|
            if is_named(blocks[i], name) {
                stored(blocks[i], path)
            } else {
                blocks[i]
            },
    )
}

/// The torrent after these files were found in the directory for its blocks.
pub open spec fn with_temp_entries(t: TorrentView, entries: Seq<DiskEntryView>) -> TorrentView
    decreases entries.len(),
{
    if entries.len() == 0 {
        t
    } else {
        let before = with_temp_entries(t, entries.drop_last());
        TorrentView {
            blocks: with_stored_block(before.blocks, entries.last().name, entries.last().path),
            ..before
        }
    }
}

/// The path is the one that file `f` is written to, taken from `base`.
pub open spec fn is_file_path(
    base: Seq<char>,
    files: Seq<FileView>,
    f: int,
    path: Seq<char>,
) -> bool {
    same_path_text(joined(base, files[f].relative_path), path)
}

/// The file that is written to this path, taken from `base`, where there is exactly one.
pub open spec fn file_at(base: Seq<char>, files: Seq<FileView>, path: Seq<char>) -> Option<int> {
    let found = chosen(files.len() as int, |f: int| is_file_path(base, files, f, path));
    if found.len() == 1 {
        Some(found[0] as int)
    } else {
        None
    }
}

/// The torrent after one of its files was found. Its blocks are in it, verified or not as
/// they were.
pub open spec fn with_written_file(t: TorrentView, f: int, path: Seq<char>) -> TorrentView {
    TorrentView {
        blocks: Seq::new(
            t.blocks.len(),
            |i: int|
                if lists(t.files[f], id_of(t.blocks[i])) {
                    BlockView { data_status: BlockStatusView::PersistedInFile, ..t.blocks[i] }
                } else {
                    t.blocks[i]
                },
        ),
        files: t.files.update(f, FileView { path: Some(path), ..t.files[f] }),
        ..t
    }
}

/// The torrent after these files were found at its destination. A file counts where it is as
/// long as the torrent says.
pub open spec fn with_dest_entries(t: TorrentView, entries: Seq<DiskEntryView>) -> TorrentView
    decreases entries.len(),
{
    if entries.len() == 0 {
        t
    } else {
        let before = with_dest_entries(t, entries.drop_last());
        let entry = entries.last();
        match file_at(before.dest_path, before.files, entry.path) {
            Some(f) => if before.files[f].length == entry.length {
                with_written_file(before, f, entry.path)
            } else {
                before
            },
            None => before,
        }
    }
}

/// A file that is found is one of the files.
pub proof fn lemma_file_at(base: Seq<char>, files: Seq<FileView>, path: Seq<char>)
    requires
        files.len() <= usize::MAX,
    ensures
        file_at(base, files, path) is Some ==> 0 <= file_at(base, files, path)->0 < files.len(),
{
    lemma_chosen(files.len() as int, |f: int| is_file_path(base, files, f, path));
}

/// What is found on disk does not change how the parts of a torrent fit together.
pub proof fn disk_entries_keep_a_torrent_whole(
    t: TorrentView,
    temp_entries: Seq<DiskEntryView>,
    dest_entries: Seq<DiskEntryView>,
)
    requires
        is_whole(t),
        t.files.len() <= usize::MAX,
    ensures
        is_whole(with_temp_entries(t, temp_entries)),
        is_whole(with_dest_entries(t, dest_entries)),
        same_frame(t, with_temp_entries(t, temp_entries)),
        same_frame(t, with_dest_entries(t, dest_entries)),
    decreases temp_entries.len() + dest_entries.len(),
{
    if temp_entries.len() > 0 {
        disk_entries_keep_a_torrent_whole(t, temp_entries.drop_last(), seq![]);
        a_frame_stays_whole(
            with_temp_entries(t, temp_entries.drop_last()),
            with_temp_entries(t, temp_entries),
        );
    }
    if dest_entries.len() > 0 {
        disk_entries_keep_a_torrent_whole(t, seq![], dest_entries.drop_last());
        let before = with_dest_entries(t, dest_entries.drop_last());
        lemma_file_at(before.dest_path, before.files, dest_entries.last().path);
        a_frame_stays_whole(before, with_dest_entries(t, dest_entries));
    }
}

impl Torrent {
    /// Takes in that the block with this name is in a file of its own.
    pub fn store_block(&mut self, name: &str, path: &str)
        requires
            old(self).wf(),
        ensures
            final(self)@ == (TorrentView {
                blocks: with_stored_block(old(self)@.blocks, name@, path@),
                ..old(self)@
            }),
            final(self).wf(),
            final(self).files == old(self).files,
            final(self).pieces == old(self).pieces,
            final(self).peers == old(self).peers,
    {
        let ghost before = self@;
        let ghost blocks = self.blocks@;
        if let Some((piece_index, begin)) = parse_block_id(name) {
            let id = BlockId { piece_index, begin };
            if let Some(k) = self.find_block(id) {
                self.blocks[k].data_status = BlockStatus::PersistedSeparately(path.to_owned());
                self.blocks[k].verified = false;
                proof {
                    assert forall|i: int| 0 <= i < before.blocks.len() && i != k implies !is_named(
                        #[trigger] before.blocks[i],
                        name@,
                    ) by {
                        if is_named(before.blocks[i], name@) {
                            block_id_is_injective(
                                blocks[i].piece_index,
                                blocks[i].begin,
                                piece_index,
                                begin,
                            );
                            lemma_one_block(before.blocks, i, k as int, id);
                        }
                    }
                    assert(self@.blocks[k as int] == stored(before.blocks[k as int], path@));
                }
            } else {
                assert forall|i: int| 0 <= i < before.blocks.len() implies !is_named(
                    #[trigger] before.blocks[i],
                    name@,
                ) by {
                    if is_named(before.blocks[i], name@) {
                        block_id_is_injective(
                            blocks[i].piece_index,
                            blocks[i].begin,
                            piece_index,
                            begin,
                        );
                        assert(is_block(before.blocks[i], id));
                    }
                }
            }
        }
        proof {
            let after = TorrentView {
                blocks: with_stored_block(before.blocks, name@, path@),
                ..before
            };
            assert(self@.blocks =~= after.blocks);
            assert(self@ =~= after);
            a_frame_stays_whole(before, after);
        }
    }

    /// Takes in that file `f` is written.
    pub fn store_file(&mut self, f: usize, path: &str)
        requires
            old(self).wf(),
            f < old(self).files@.len(),
        ensures
            final(self)@ == with_written_file(old(self)@, f as int, path@),
            final(self).wf(),
            final(self).pieces == old(self).pieces,
            final(self).peers == old(self).peers,
    {
        let ghost before = self@;
        let ghost ids = before.files[f as int].block_ids;
        let mut k: usize = 0;
        let ghost marked = |n: int|
            Seq::new(
                before.blocks.len(),
                |i: int|
                    if ids.take(n).contains(id_of(before.blocks[i])) {
                        BlockView {
                            data_status: BlockStatusView::PersistedInFile,
                            ..before.blocks[i]
                        }
                    } else {
                        before.blocks[i]
                    },
            );
        assert(self@.blocks =~= marked(0));
        while k < self.files[f].block_ids.len()
            invariant
                before == old(self)@,
                is_whole(before),
                f < self.files@.len(),
                self.files == old(self).files,
                self.pieces == old(self).pieces,
                self.peers == old(self).peers,
                ids == before.files[f as int].block_ids,
                ids == self.files@[f as int].block_ids@,
                k <= ids.len(),
                marked == (|n: int|
                    Seq::new(
                        before.blocks.len(),
                        |i: int|
                            if ids.take(n).contains(id_of(before.blocks[i])) {
                                BlockView {
                                    data_status: BlockStatusView::PersistedInFile,
                                    ..before.blocks[i]
                                }
                            } else {
                                before.blocks[i]
                            },
                    )),
                self@ == (TorrentView { blocks: marked(k as int), ..before }),
            decreases ids.len() - k,
        {
            let id = self.files[f].block_ids[k];
            let ghost so_far = self@;
            proof {
                a_frame_stays_whole(before, so_far);
                assert(before.files[f as int].block_ids[k as int] == id);
                assert(has_block(before.blocks, id));
                let w = choose|w: int|
                    0 <= w < before.blocks.len() && is_block(#[trigger] before.blocks[w], id);
                assert(is_block(so_far.blocks[w], id));
            }
            if let Some(i) = self.find_block(id) {
                self.blocks[i].data_status = BlockStatus::PersistedInFile;
                proof {
                    let fewer = ids.take(k as int);
                    let more = ids.take(k + 1);
                    assert(more =~= fewer.push(id));
                    let after = self@;
                    assert(is_block(before.blocks[i as int], id));
                    assert forall|j: int|
                        0 <= j < before.blocks.len() implies #[trigger] after.blocks[j] == marked(
                        k + 1,
                    )[j] by {
                        let own = id_of(before.blocks[j]);
                        assert(more.contains(own) == (fewer.contains(own) || own == id)) by {
                            if fewer.contains(own) {
                                let w = choose|w: int| 0 <= w < fewer.len() && fewer[w] == own;
                                assert(more[w] == own);
                            }
                            assert(more[k as int] == id);
                        }
                        assert(so_far.blocks[j] == marked(k as int)[j]);
                        assert(before.blocks[j] == old(self).blocks@[j]@);
                        if j != i && own == id {
                            assert(is_block(before.blocks[j], id));
                            lemma_one_block(before.blocks, i as int, j, id);
                        }
                        if j == i {
                            assert(own == id);
                        }
                    }
                    assert(after.blocks =~= marked(k + 1));
                }
            }
            k = k + 1;
        }
        self.files[f].path = Some(path.to_owned());
        proof {
            assert(ids.take(k as int) =~= ids);
            let after = with_written_file(before, f as int, path@);
            assert forall|i: int| 0 <= i < before.blocks.len() implies marked(k as int)[i]
                == #[trigger] after.blocks[i] by {
                let own = id_of(before.blocks[i]);
                if lists(before.files[f as int], own) {
                    let w = choose|w: int| 0 <= w < ids.len() && #[trigger] ids[w] == own;
                    assert(ids.contains(own));
                }
            }
            assert(self@.blocks =~= after.blocks);
            assert(self@.files =~= after.files);
            a_frame_stays_whole(before, after);
        }
    }

    /// The file that is written to this path, taken from `base`, where there is exactly one.
    pub fn find_file(&self, base: &str, path: &str) -> (found: Option<usize>)
        ensures
            found is Some <==> file_at(base@, self@.files, path@) is Some,
            found is Some ==> found->0 == file_at(base@, self@.files, path@)->0 && found->0
                < self.files@.len(),
    {
        let ghost wanted = |f: int| is_file_path(base@, self@.files, f, path@);
        let mut matching: Vec<usize> = Vec::new();
        let mut f: usize = 0;
        while f < self.files.len()
            invariant
                f <= self.files@.len(),
                wanted == (|f: int| is_file_path(base@, self@.files, f, path@)),
                matching@ == chosen(f as int, wanted),
            decreases self.files@.len() - f,
        {
            let file_path = join_path(base, self.files[f].relative_path.as_str());
            let matches = same_path(file_path.as_str(), path);
            assert(self@.files[f as int] == self.files@[f as int]@);
            assert(matches == wanted(f as int));
            if matches {
                matching.push(f);
            }
            f = f + 1;
        }
        proof {
            lemma_chosen(self.files@.len() as int, wanted);
        }
        if matching.len() == 1 {
            Some(matching[0])
        } else {
            None
        }
    }

    /// Takes in what is found on disk: files in the directory for the blocks, and files at
    /// the destination.
    pub fn sync_with_disk(
        &mut self,
        temp_entries: &Vec<DiskEntry>,
        dest_entries: &Vec<DiskEntry>,
    )
        requires
            old(self).wf(),
        ensures
            final(self)@ == with_dest_entries(
                with_temp_entries(old(self)@, entry_views(temp_entries@)),
                entry_views(dest_entries@),
            ),
            final(self).wf(),
    {
        let ghost start = self@;
        let ghost temp = entry_views(temp_entries@);
        let ghost dest = entry_views(dest_entries@);
        let mut i: usize = 0;
        assert(temp.take(0) =~= seq![]);
        while i < temp_entries.len()
            invariant
                i <= temp_entries@.len(),
                temp == entry_views(temp_entries@),
                self.wf(),
                self@ == with_temp_entries(start, temp.take(i as int)),
            decreases temp_entries@.len() - i,
        {
            assert(temp.take(i + 1).drop_last() =~= temp.take(i as int));
            let entry = &temp_entries[i];
            self.store_block(entry.name.as_str(), entry.path.as_str());
            i = i + 1;
        }
        assert(temp.take(i as int) =~= temp);
        let ghost middle = self@;
        let mut j: usize = 0;
        assert(dest.take(0) =~= seq![]);
        while j < dest_entries.len()
            invariant
                j <= dest_entries@.len(),
                dest == entry_views(dest_entries@),
                self.wf(),
                self@ == with_dest_entries(middle, dest.take(j as int)),
            decreases dest_entries@.len() - j,
        {
            assert(dest.take(j + 1).drop_last() =~= dest.take(j as int));
            let entry = &dest_entries[j];
            if let Some(f) = self.find_file(self.dest_path.as_str(), entry.path.as_str()) {
                assert(self@.files[f as int] == self.files@[f as int]@);
                if self.files[f].length as u64 == entry.length {
                    self.store_file(f, entry.path.as_str());
                }
            }
            j = j + 1;
        }
        assert(dest.take(j as int) =~= dest);
    }
}

// ---------------------------------------------------------------------------------------
// What has been verified

/// The pieces of the blocks that are not verified, for no more than `max` such blocks.
pub open spec fn unverified_pieces(t: TorrentView, max: int) -> Seq<int> {
    at_most(chosen(t.blocks.len() as int, |i: int| !t.blocks[i].verified), max).map_values(
        |i: usize| t.blocks[i as int].piece_index,
    )
}

/// A block of a piece that turned out right, or wrong. One that is wrong is downloaded
/// again.
pub open spec fn checked(block: BlockView, right: bool) -> BlockView {
    if right {
        BlockView { verified: true, ..block }
    } else {
        BlockView { data_status: BlockStatusView::Pending, ..block }
    }
}

/// The blocks after a piece turned out right, or wrong.
pub open spec fn with_piece_result(
    blocks: Seq<BlockView>,
    piece_index: int,
    right: bool,
) -> Seq<BlockView> {
    Seq::new(
        blocks.len(),
        |i: int|
            if blocks[i].piece_index == piece_index {
                checked(blocks[i], right)
            } else {
                blocks[i]
            },
    )
}

/// The blocks after several pieces did.
pub open spec fn with_piece_results(
    blocks: Seq<BlockView>,
    results: Seq<(usize, bool)>,
) -> Seq<BlockView>
    decreases results.len(),
{
    if results.len() == 0 {
        blocks
    } else {
        let (piece_index, right) = results.last();
        with_piece_result(
            with_piece_results(blocks, results.drop_last()),
            piece_index as int,
            right,
        )
    }
}

/// Every block of the file is verified.
pub open spec fn blocks_verified(blocks: Seq<BlockView>, file_index: int) -> bool {
    forall|i: int|
        0 <= i < blocks.len() && (#[trigger] blocks[i]).file_index == file_index
            ==> blocks[i].verified
}

/// A file is verified once it is written and all its blocks are verified.
pub open spec fn with_verified_files(
    files: Seq<FileView>,
    blocks: Seq<BlockView>,
) -> Seq<FileView> {
    Seq::new(
        files.len(),
        |f: int|
            if files[f].path is Some && blocks_verified(blocks, files[f].index) {
                FileView { verified: true, ..files[f] }
            } else {
                files[f]
            },
    )
}

/// The torrent after these pieces turned out right, or wrong.
pub open spec fn with_verification(t: TorrentView, results: Seq<(usize, bool)>) -> TorrentView {
    let blocks = with_piece_results(t.blocks, results);
    TorrentView { blocks, files: with_verified_files(t.files, blocks), ..t }
}

proof fn lemma_piece_results(blocks: Seq<BlockView>, results: Seq<(usize, bool)>)
    ensures
        with_piece_results(blocks, results).len() == blocks.len(),
        forall|i: int|
            0 <= i < blocks.len() ==> {
                let block = #[trigger] with_piece_results(blocks, results)[i];
                &&& block.piece_index == blocks[i].piece_index
                &&& block.begin == blocks[i].begin
                &&& block.file_index == blocks[i].file_index
                &&& block.length == blocks[i].length
            },
    decreases results.len(),
{
    if results.len() > 0 {
        lemma_piece_results(blocks, results.drop_last());
    }
}

/// Verification does not change how the parts of a torrent fit together.
pub proof fn verification_keeps_a_torrent_whole(t: TorrentView, results: Seq<(usize, bool)>)
    requires
        is_whole(t),
    ensures
        is_whole(with_verification(t, results)),
        same_frame(t, with_verification(t, results)),
{
    lemma_piece_results(t.blocks, results);
    a_frame_stays_whole(t, with_verification(t, results));
}

proof fn lemma_checked_pieces(blocks: Seq<BlockView>, results: Seq<(usize, bool)>, i: int)
    requires
        0 <= i < blocks.len(),
        forall|k: int|
            0 <= k < results.len() && (#[trigger] results[k]).0 == blocks[i].piece_index
                ==> results[k].1,
    ensures
        with_piece_results(blocks, results)[i].data_status == blocks[i].data_status,
        blocks[i].verified ==> with_piece_results(blocks, results)[i].verified,
        (exists|k: int|
            0 <= k < results.len() && (#[trigger] results[k]).0 == blocks[i].piece_index)
            ==> with_piece_results(blocks, results)[i].verified,
    decreases results.len(),
{
    if results.len() > 0 {
        let fewer = results.drop_last();
        assert forall|k: int|
            0 <= k < fewer.len() && (#[trigger] fewer[k]).0
                == blocks[i].piece_index implies fewer[k].1 by {
            assert(fewer[k] == results[k]);
        }
        lemma_checked_pieces(blocks, fewer, i);
        lemma_piece_results(blocks, fewer);
        assert(results[results.len() - 1] == results.last());
        if exists|k: int|
            0 <= k < results.len() && (#[trigger] results[k]).0 == blocks[i].piece_index {
            let k = choose|k: int|
                0 <= k < results.len() && (#[trigger] results[k]).0 == blocks[i].piece_index;
            if k < fewer.len() {
                assert(fewer[k].0 == blocks[i].piece_index);
            }
        }
    }
}

/// A piece that turned out right has all its blocks verified, and its data stays where it
/// is; the blocks of a piece that was not looked at stay as they are.
pub proof fn right_pieces_are_verified(
    blocks: Seq<BlockView>,
    results: Seq<(usize, bool)>,
    i: int,
)
    requires
        0 <= i < blocks.len(),
        forall|k: int|
            0 <= k < results.len() && (#[trigger] results[k]).0 == blocks[i].piece_index
                ==> results[k].1,
    ensures
        (exists|k: int|
            0 <= k < results.len() && (#[trigger] results[k]).0 == blocks[i].piece_index)
            ==> with_piece_results(blocks, results)[i] == checked(blocks[i], true),
        !(exists|k: int|
            0 <= k < results.len() && (#[trigger] results[k]).0 == blocks[i].piece_index)
            ==> with_piece_results(blocks, results)[i] == blocks[i],
    decreases results.len(),
{
    lemma_checked_pieces(blocks, results, i);
    lemma_piece_results(blocks, results);
    if results.len() > 0 {
        let fewer = results.drop_last();
        assert forall|k: int|
            0 <= k < fewer.len() && (#[trigger] fewer[k]).0
                == blocks[i].piece_index implies fewer[k].1 by {
            assert(fewer[k] == results[k]);
        }
        right_pieces_are_verified(blocks, fewer, i);
        lemma_piece_results(blocks, fewer);
        assert(results[results.len() - 1] == results.last());
        if !(exists|k: int|
            0 <= k < results.len() && (#[trigger] results[k]).0 == blocks[i].piece_index) {
            assert forall|k: int| 0 <= k < fewer.len() implies (#[trigger] fewer[k]).0
                != blocks[i].piece_index by {
                assert(fewer[k] == results[k]);
            }
        }
    }
}

/// The blocks of a piece that turned out wrong are downloaded again, whatever else was
/// found.
pub proof fn wrong_pieces_are_downloaded_again(
    blocks: Seq<BlockView>,
    results: Seq<(usize, bool)>,
    i: int,
    k: int,
)
    requires
        0 <= i < blocks.len(),
        0 <= k < results.len(),
        results[k].0 == blocks[i].piece_index,
        !results[k].1,
    ensures
        with_piece_results(blocks, results)[i].data_status is Pending,
    decreases results.len(),
{
    let fewer = results.drop_last();
    lemma_piece_results(blocks, fewer);
    if k < fewer.len() {
        wrong_pieces_are_downloaded_again(blocks, fewer, i, k);
    }
}

impl Torrent {
    /// The pieces that are to be verified next, for no more than `max_count` blocks.
    pub fn pieces_to_verify(&self, max_count: usize) -> (pieces: Vec<usize>)
        ensures
            pieces@.map_values(|p: usize| p as int) == unverified_pieces(
                self@,
                max_count as int,
            ),
            self.wf() ==> forall|k: int|
                0 <= k < pieces@.len() ==> (#[trigger] pieces@[k]) < self.pieces@.len(),
    {
        let ghost blocks = self@.blocks;
        let ghost wanted = |i: int| !blocks[i].verified;
        let ghost mut positions: Seq<usize> = seq![];
        let mut pieces: Vec<usize> = Vec::new();
        let mut i: usize = 0;
        assert(positions =~= chosen(0, wanted));
        while i < self.blocks.len() && pieces.len() < max_count
            invariant
                i <= self.blocks@.len(),
                blocks == self@.blocks,
                wanted == (|i: int| !blocks[i].verified),
                positions == chosen(i as int, wanted),
                positions.len() == pieces@.len(),
                pieces@.len() <= max_count,
                forall|k: int|
                    0 <= k < positions.len() ==> (#[trigger] positions[k]) < blocks.len()
                        && pieces@[k] == blocks[positions[k] as int].piece_index,
            decreases self.blocks@.len() - i,
        {
            assert(blocks[i as int] == self.blocks@[i as int]@);
            assert(wanted(i as int) == !self.blocks@[i as int].verified);
            if !self.blocks[i].verified {
                pieces.push(self.blocks[i].piece_index);
                proof {
                    positions = positions.push(i);
                }
            }
            i = i + 1;
        }
        proof {
            lemma_chosen_grows(i as int, blocks.len() as int, wanted);
            assert(positions =~= at_most(
                chosen(blocks.len() as int, wanted),
                max_count as int,
            ));
            assert(pieces@.map_values(|p: usize| p as int) =~= unverified_pieces(
                self@,
                max_count as int,
            ));
            if self.wf() {
                assert forall|k: int| 0 <= k < pieces@.len() implies (#[trigger] pieces@[k])
                    < self.pieces@.len() by {
                    assert(0 <= blocks[positions[k] as int].piece_index < self@.pieces.len());
                }
            }
        }
        pieces
    }

    fn apply_piece_result(&mut self, piece_index: usize, right: bool)
        ensures
            final(self)@ == (TorrentView {
                blocks: with_piece_result(old(self)@.blocks, piece_index as int, right),
                ..old(self)@
            }),
            final(self).files == old(self).files,
            final(self).peers == old(self).peers,
    {
        let ghost before = self@;
        let ghost all = with_piece_result(before.blocks, piece_index as int, right);
        let mut i: usize = 0;
        while i < self.blocks.len()
            invariant
                before == old(self)@,
                all == with_piece_result(before.blocks, piece_index as int, right),
                i <= self.blocks@.len(),
                self.files == old(self).files,
                self.peers == old(self).peers,
                self@ == (TorrentView { blocks: self@.blocks, ..before }),
                self@.blocks.len() == before.blocks.len(),
                forall|k: int| 0 <= k < i ==> self@.blocks[k] == #[trigger] all[k],
                forall|k: int|
                    i <= k < before.blocks.len() ==> self@.blocks[k]
                        == #[trigger] before.blocks[k],
            decreases self.blocks@.len() - i,
        {
            let ghost so_far = self@;
            assert(so_far.blocks[i as int] == self.blocks@[i as int]@);
            assert(so_far.blocks[i as int] == before.blocks[i as int]);
            if self.blocks[i].piece_index == piece_index {
                if right {
                    self.blocks[i].verified = true;
                } else {
                    self.blocks[i].data_status = BlockStatus::Pending;
                }
            }
            proof {
                let after = self@;
                assert(after.blocks[i as int] == all[i as int]);
                assert forall|k: int| 0 <= k < i implies after.blocks[k] == #[trigger] all[k] by {
                    assert(after.blocks[k] == so_far.blocks[k]);
                }
                assert forall|k: int| i < k < before.blocks.len() implies after.blocks[k]
                    == #[trigger] before.blocks[k] by {
                    assert(after.blocks[k] == so_far.blocks[k]);
                }
            }
            i = i + 1;
        }
        assert(self@.blocks =~= all);
    }

    fn file_blocks_verified(&self, file_index: usize) -> (verified: bool)
        ensures
            verified == blocks_verified(self@.blocks, file_index as int),
    {
        let mut i: usize = 0;
        while i < self.blocks.len()
            invariant
                i <= self.blocks@.len(),
                forall|k: int|
                    0 <= k < i && (#[trigger] self@.blocks[k]).file_index == file_index
                        ==> self@.blocks[k].verified,
            decreases self.blocks@.len() - i,
        {
            assert(self@.blocks[i as int] == self.blocks@[i as int]@);
            if self.blocks[i].file_index == file_index && !self.blocks[i].verified {
                return false;
            }
            i = i + 1;
        }
        true
    }

    /// Takes in which pieces turned out right and which did not: their blocks are verified
    /// or downloaded again, and files that are written and have all blocks verified are
    /// verified.
    pub fn verify_blocks_and_files(&mut self, results: &Vec<(usize, bool)>)
        requires
            old(self).wf(),
        ensures
            final(self)@ == with_verification(old(self)@, results@),
            final(self).wf(),
    {
        let ghost before = self@;
        let mut k: usize = 0;
        assert(results@.take(0) =~= seq![]);
        while k < results.len()
            invariant
                k <= results@.len(),
                self.files == old(self).files,
                self@ == (TorrentView {
                    blocks: with_piece_results(before.blocks, results@.take(k as int)),
                    ..before
                }),
            decreases results@.len() - k,
        {
            assert(results@.take(k + 1).drop_last() =~= results@.take(k as int));
            let (piece_index, right) = results[k];
            self.apply_piece_result(piece_index, right);
            k = k + 1;
        }
        assert(results@.take(k as int) =~= results@);
        let ghost blocks = self@.blocks;
        let ghost all = with_verified_files(before.files, blocks);
        let mut f: usize = 0;
        while f < self.files.len()
            invariant
                all == with_verified_files(before.files, blocks),
                f <= self.files@.len(),
                self@ == (TorrentView { blocks, files: self@.files, ..before }),
                self@.files.len() == before.files.len(),
                forall|k: int| 0 <= k < f ==> self@.files[k] == #[trigger] all[k],
                forall|k: int|
                    f <= k < before.files.len() ==> self@.files[k] == #[trigger] before.files[k],
            decreases self.files@.len() - f,
        {
            let ghost so_far = self@;
            assert(so_far.files[f as int] == self.files@[f as int]@);
            assert(so_far.files[f as int] == before.files[f as int]);
            if self.files[f].path.is_some() && self.file_blocks_verified(self.files[f].index) {
                self.files[f].verified = true;
            }
            proof {
                let after = self@;
                assert(after.blocks =~= blocks);
                assert(after.files[f as int] == all[f as int]);
                assert forall|k: int| 0 <= k < f implies after.files[k] == #[trigger] all[k] by {
                    assert(after.files[k] == so_far.files[k]);
                }
                assert forall|k: int| f < k < before.files.len() implies after.files[k]
                    == #[trigger] before.files[k] by {
                    assert(after.files[k] == so_far.files[k]);
                }
            }
            f = f + 1;
        }
        proof {
            assert(self@.files =~= all);
            verification_keeps_a_torrent_whole(before, results@);
        }
    }
}

// ---------------------------------------------------------------------------------------
// What is written is found again

/// Different torrents have different directories for their blocks.
pub proof fn temp_dirs_are_distinct(a: TorrentView, b: TorrentView)
    requires
        a.dest_path == b.dest_path,
        temp_dir(a) == temp_dir(b),
    ensures
        a.hash == b.hash,
{
    let left = TEMP_DIR_PREFIX@ + percent_encoding(a.hash);
    let right = TEMP_DIR_PREFIX@ + percent_encoding(b.hash);
    reveal_strlit(".tmp_");
    assert(left[0] == '.' && right[0] == '.');
    lemma_joined_is_injective(a.dest_path, left, right);
    assert(left.skip(5) =~= percent_encoding(a.hash));
    assert(right.skip(5) =~= percent_encoding(b.hash));
    percent_encoding_is_injective(a.hash, b.hash);
}

/// A file that was written whole, where it goes, is found there: the torrent has it, with all
/// the blocks that it lists.
pub proof fn a_written_file_is_found_again(t: TorrentView, f: int, entry: DiskEntryView)
    requires
        0 <= f < t.files.len(),
        t.files.len() <= usize::MAX,
        entry.path == joined(t.dest_path, t.files[f].relative_path),
        entry.length == t.files[f].length,
        forall|g: int|
            0 <= g < t.files.len() && g != f ==> !#[trigger] is_file_path(
                t.dest_path,
                t.files,
                g,
                entry.path,
            ),
    ensures
        with_dest_entries(t, seq![entry]) == with_written_file(t, f, entry.path),
        with_dest_entries(t, seq![entry]).files[f].path == Some(entry.path),
        forall|i: int|
            0 <= i < t.blocks.len() && lists(t.files[f], id_of(#[trigger] t.blocks[i]))
                ==> with_dest_entries(t, seq![entry]).blocks[i].data_status is PersistedInFile,
{
    let wanted = |g: int| is_file_path(t.dest_path, t.files, g, entry.path);
    assert(wanted(f));
    assert forall|g: int| 0 <= g < t.files.len() && g != f implies !#[trigger] wanted(g) by {
        assert(!is_file_path(t.dest_path, t.files, g, entry.path));
    }
    lemma_chosen_one(t.files.len() as int, wanted, f);
    assert(seq![entry].drop_last() =~= seq![]);
    assert(with_dest_entries(t, seq![]) == t);
}

} // verus!
