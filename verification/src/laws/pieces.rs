//! Pieces that are written one by one, said of the files that they make up.

use vstd::arithmetic::div_mod::*;
use vstd::arithmetic::mul::*;
use vstd::prelude::*;

use crate::models::{FileInfo, PieceInfo};
use crate::path::joined;
use crate::text::decimal;
use crate::utils::percent_encoding;
use crate::writer::{
    file_is_complete, file_of_piece, file_sources, first_piece, is_piece_of, new_writer, pieces_for,
    pieces_suffice, with_piece, DataWriterView, FilePersistenceView, PiecePersistenceView,
};

verus! {

/// A new writer has the files and pieces that it was given, with nothing of them written, and a
/// directory for pieces that is named after the torrent.
pub proof fn new_writers_have_written_nothing(
    info_hash: Seq<u8>,
    dest_path: Seq<char>,
    files: Seq<FileInfo>,
    pieces: Seq<PieceInfo>,
)
    ensures
        ({
            let w = new_writer(info_hash, dest_path, files, pieces);
            &&& w.dest_path == dest_path
            &&& w.temp_path == joined(dest_path, ".tmp_"@ + percent_encoding(info_hash))
            &&& w.files.len() == files.len()
            &&& forall|k: int|
                0 <= k < files.len() ==> {
                    let file = #[trigger] w.files[k];
                    &&& file.relative_path == files[k].name@
                    &&& file.length == files[k].length
                    &&& file.path is None
                }
            &&& w.pieces.len() == pieces.len()
            &&& forall|i: int|
                0 <= i < pieces.len() ==> {
                    let piece = #[trigger] w.pieces[i];
                    &&& piece.hash == pieces[i].hash@
                    &&& piece.length == pieces[i].length
                    &&& piece.path is None
                }
        }),
{
}

/// How many pieces the first `k` files are made of.
pub open spec fn pieces_before(files: Seq<FilePersistenceView>, k: int) -> int
    decreases k,
{
    if k <= 0 {
        0
    } else {
        pieces_before(files, k - 1) + files[k - 1].piece_indices.len()
    }
}

proof fn lemma_pieces_before(
    info_hash: Seq<u8>,
    dest_path: Seq<char>,
    files: Seq<FileInfo>,
    pieces: Seq<PieceInfo>,
    k: int,
)
    requires
        pieces_suffice(files, pieces),
        0 <= k <= files.len(),
    ensures
        first_piece(files, pieces[0].length as int, k) == pieces_before(
            new_writer(info_hash, dest_path, files, pieces).files,
            k,
        ),
        first_piece(files, pieces[0].length as int, k) >= 0,
    decreases k,
{
    if k > 0 {
        let piece_length = pieces[0].length as int;
        lemma_pieces_before(info_hash, dest_path, files, pieces, k - 1);
        lemma_div_pos_is_pos(
            files[k - 1].length as usize as int + piece_length - 1,
            piece_length,
        );
    }
}

proof fn lemma_first_pieces_grow(files: Seq<FileInfo>, piece_length: int, j: int, k: int)
    requires
        piece_length > 0,
        0 <= j <= k,
    ensures
        first_piece(files, piece_length, j) <= first_piece(files, piece_length, k),
    decreases k - j,
{
    if j < k {
        lemma_first_pieces_grow(files, piece_length, j, k - 1);
        lemma_div_pos_is_pos(
            files[k - 1].length as usize as int + piece_length - 1,
            piece_length,
        );
    }
}

/// A file is made of as many pieces as it takes to hold it, the first of them the one that
/// comes after those of the files before it.
pub proof fn files_have_the_pieces_they_need(
    info_hash: Seq<u8>,
    dest_path: Seq<char>,
    files: Seq<FileInfo>,
    pieces: Seq<PieceInfo>,
    k: int,
)
    requires
        pieces_suffice(files, pieces),
        pieces.len() <= usize::MAX,
        0 <= k < files.len(),
        files[k].length <= usize::MAX,
    ensures
        ({
            let w = new_writer(info_hash, dest_path, files, pieces);
            let indices = w.files[k].piece_indices;
            let n = indices.len();
            &&& files[k].length <= n * pieces[0].length
            &&& n > 0 ==> (n - 1) * pieces[0].length < files[k].length
            &&& forall|j: int|
                0 <= j < n ==> #[trigger] indices[j] == pieces_before(w.files, k) + j
            &&& pieces_before(w.files, k) + n <= pieces.len()
        }),
{
    let w = new_writer(info_hash, dest_path, files, pieces);
    let piece_length = pieces[0].length as int;
    let length = files[k].length as int;
    let up = length + piece_length - 1;
    let n = pieces_for(length, piece_length);
    lemma_pieces_before(info_hash, dest_path, files, pieces, k);
    lemma_pieces_before(info_hash, dest_path, files, pieces, k + 1);
    lemma_first_pieces_grow(files, piece_length, k + 1, files.len() as int);
    lemma_div_pos_is_pos(up, piece_length);
    lemma_fundamental_div_mod(up, piece_length);
    lemma_mod_bound(up, piece_length);
    lemma_mul_is_commutative(piece_length, n);
    lemma_mul_is_distributive_sub_other_way(piece_length, n, 1);
    assert(w.files[k].piece_indices.len() == n);
    assert forall|j: int| 0 <= j < n implies #[trigger] w.files[k].piece_indices[j]
        == pieces_before(w.files, k) + j by {
        assert(first_piece(files, piece_length, k) + j < pieces.len());
    }
}

/// The pieces of a file know it.
pub proof fn pieces_know_their_file(
    info_hash: Seq<u8>,
    dest_path: Seq<char>,
    files: Seq<FileInfo>,
    pieces: Seq<PieceInfo>,
    k: int,
    i: int,
)
    requires
        pieces_suffice(files, pieces),
        0 <= k < files.len(),
        0 <= i < pieces.len(),
    ensures
        ({
            let w = new_writer(info_hash, dest_path, files, pieces);
            &&& pieces_before(w.files, k) <= i < pieces_before(w.files, k + 1)
                ==> w.pieces[i].file_index == k
            &&& i >= pieces_before(w.files, files.len() as int) ==> w.pieces[i].file_index == 0
        }),
{
    let w = new_writer(info_hash, dest_path, files, pieces);
    let piece_length = pieces[0].length as int;
    lemma_pieces_before(info_hash, dest_path, files, pieces, k);
    lemma_pieces_before(info_hash, dest_path, files, pieces, k + 1);
    lemma_pieces_before(info_hash, dest_path, files, pieces, files.len() as int);
    if pieces_before(w.files, k) <= i < pieces_before(w.files, k + 1) {
        lemma_file_of_piece(files, piece_length, i, k, files.len() as int);
    }
    if i >= pieces_before(w.files, files.len() as int) {
        lemma_file_of_none(files, piece_length, i, files.len() as int);
    }
}

proof fn lemma_file_of_piece(files: Seq<FileInfo>, piece_length: int, i: int, k: int, n: int)
    requires
        piece_length > 0,
        0 <= k < n,
        is_piece_of(files, piece_length, i, k),
    ensures
        file_of_piece(files, piece_length, i, n) == k,
    decreases n,
{
    if k < n - 1 {
        lemma_first_pieces_grow(files, piece_length, k + 1, n - 1);
        lemma_file_of_piece(files, piece_length, i, k, n - 1);
    }
}

proof fn lemma_file_of_none(files: Seq<FileInfo>, piece_length: int, i: int, n: int)
    requires
        piece_length > 0,
        0 <= n,
        i >= first_piece(files, piece_length, n),
    ensures
        file_of_piece(files, piece_length, i, n) == 0,
    decreases n,
{
    if n > 0 {
        lemma_first_pieces_grow(files, piece_length, n - 1, n);
        lemma_file_of_none(files, piece_length, i, n - 1);
    }
}

/// A piece that is written goes to a file of its own, named by its index and its hash. Nothing
/// else is changed.
pub proof fn pieces_go_to_files_of_their_own(w: DataWriterView, index: int, i: int)
    requires
        0 <= index < w.pieces.len(),
        0 <= i < w.pieces.len(),
    ensures
        ({
            let after = with_piece(w, index);
            let name = decimal(index as nat) + seq!['_'] + percent_encoding(w.pieces[index].hash);
            &&& after.dest_path == w.dest_path
            &&& after.temp_path == w.temp_path
            &&& after.files == w.files
            &&& after.pieces.len() == w.pieces.len()
            &&& i != index ==> after.pieces[i] == w.pieces[i]
            &&& after.pieces[index] == (PiecePersistenceView {
                path: Some(joined(w.temp_path, name)),
                ..w.pieces[index]
            })
        }),
{
    let hash = percent_encoding(w.pieces[index].hash);
    assert(decimal(index as nat).push('_') + hash =~= decimal(index as nat) + seq!['_'] + hash);
}

/// A file is complete where none of its pieces is missing, and it is copied from all of them,
/// one after the other, with half as many bytes of each as the piece is long.
pub proof fn files_are_copied_from_their_pieces(w: DataWriterView, f: int, j: int)
    requires
        0 <= f < w.files.len(),
        0 <= j < w.files[f].piece_indices.len(),
    ensures
        ({
            let indices = w.files[f].piece_indices;
            let piece = w.pieces[indices[j] as int];
            let sources = file_sources(w, f);
            &&& piece.path is None ==> !file_is_complete(w, f)
            &&& !file_is_complete(w, f) ==> exists|k: int|
                0 <= k < indices.len() && w.pieces[(#[trigger] indices[k]) as int].path is None
            &&& sources.len() == indices.len()
            &&& piece.path is Some ==> sources[j].path == piece.path->0
            &&& 2 * sources[j].byte_count <= piece.length <= 2 * sources[j].byte_count + 1
        }),
{
}

} // verus!
