//! Pieces that are written one by one, and the files that they make up.

use vstd::arithmetic::div_mod::*;
use vstd::prelude::*;
use vstd::string::*;

use crate::bencode::text_view;
use crate::models::{FileInfo, PieceInfo};
use crate::path::{join_path, joined};
use crate::text::{append_decimal, decimal};
use crate::torrent::state::{temp_dir_path, TEMP_DIR_PREFIX};
use crate::utils::{bytes_to_hex_encoding, percent_encoding};

verus! {

/// A file, and the pieces that it is made of.
#[derive(Debug)]
pub struct FilePersistenceInfo {
    pub relative_path: String,
    pub length: u64,
    pub piece_indices: Vec<usize>,
    /// Where the file was written.
    pub path: Option<String>,
}

#[verifier::ext_equal]
pub struct FilePersistenceView {
    pub relative_path: Seq<char>,
    pub length: u64,
    pub piece_indices: Seq<usize>,
    pub path: Option<Seq<char>>,
}

impl View for FilePersistenceInfo {
    type V = FilePersistenceView;

    open spec fn view(&self) -> FilePersistenceView {
        FilePersistenceView {
            relative_path: self.relative_path@,
            length: self.length,
            piece_indices: self.piece_indices@,
            path: text_view(self.path),
        }
    }
}

/// A piece, and the file that it is a part of.
#[derive(Debug)]
pub struct PiecePersistenceInfo {
    pub hash: [u8; 20],
    pub length: u32,
    pub file_index: usize,
    /// Where the piece was written.
    pub path: Option<String>,
}

#[verifier::ext_equal]
pub struct PiecePersistenceView {
    pub hash: Seq<u8>,
    pub length: u32,
    pub file_index: int,
    pub path: Option<Seq<char>>,
}

impl View for PiecePersistenceInfo {
    type V = PiecePersistenceView;

    open spec fn view(&self) -> PiecePersistenceView {
        PiecePersistenceView {
            hash: self.hash@,
            length: self.length,
            file_index: self.file_index as int,
            path: text_view(self.path),
        }
    }
}

/// The files and pieces, and where they go.
#[derive(Debug)]
pub struct DataWriterMeta {
    pub dest_path: String,
    pub temp_path: String,
    pub files: Vec<FilePersistenceInfo>,
    pub pieces: Vec<PiecePersistenceInfo>,
}

#[verifier::ext_equal]
pub struct DataWriterView {
    pub dest_path: Seq<char>,
    pub temp_path: Seq<char>,
    pub files: Seq<FilePersistenceView>,
    pub pieces: Seq<PiecePersistenceView>,
}

pub open spec fn file_views(files: Seq<FilePersistenceInfo>) -> Seq<FilePersistenceView> {
    Seq::new(files.len(), |i: int| files[i]@)
}

pub open spec fn piece_views(pieces: Seq<PiecePersistenceInfo>) -> Seq<PiecePersistenceView> {
    Seq::new(pieces.len(), |i: int| pieces[i]@)
}

/// What is handed to the writer.
#[derive(Debug)]
pub enum Data {
    /// The data of the piece with this index.
    Piece(usize, Vec<u8>),
}

/// What writes pieces and files.
#[derive(Debug)]
pub struct DataWriter {
    pub meta: DataWriterMeta,
}

impl View for DataWriter {
    type V = DataWriterView;

    open spec fn view(&self) -> DataWriterView {
        DataWriterView {
            dest_path: self.meta.dest_path@,
            temp_path: self.meta.temp_path@,
            files: file_views(self.meta.files@),
            pieces: piece_views(self.meta.pieces@),
        }
    }
}

/// The number of pieces that a file of this length takes.
pub open spec fn pieces_for(length: int, piece_length: int) -> int {
    (length + piece_length - 1) / piece_length
}

/// The first piece of file `k`: the pieces of the files come one after another.
pub open spec fn first_piece(files: Seq<FileInfo>, piece_length: int, k: int) -> int
    decreases k,
{
    if k <= 0 {
        0
    } else {
        first_piece(files, piece_length, k - 1) + pieces_for(
            files[k - 1].length as usize as int,
            piece_length,
        )
    }
}

/// The pieces are enough for the files.
pub open spec fn pieces_suffice(files: Seq<FileInfo>, pieces: Seq<PieceInfo>) -> bool {
    let piece_length = pieces[0].length as int;
    &&& pieces.len() > 0
    &&& files.len() > 0 ==> piece_length > 0
    &&& forall|k: int|
        0 <= k < files.len() ==> (#[trigger] files[k]).length as usize + piece_length
            <= usize::MAX
    &&& forall|k: int|
        0 <= k < files.len() ==> #[trigger] first_piece(files, piece_length, k) < pieces.len()
    &&& first_piece(files, piece_length, files.len() as int) <= pieces.len()
}

/// Piece `i` is one of file `k`.
pub open spec fn is_piece_of(files: Seq<FileInfo>, piece_length: int, i: int, k: int) -> bool {
    first_piece(files, piece_length, k) <= i < first_piece(files, piece_length, k + 1)
}

/// The file, before anything was written.
pub open spec fn new_file(files: Seq<FileInfo>, piece_length: int, k: int) -> FilePersistenceView {
    let first = first_piece(files, piece_length, k);
    FilePersistenceView {
        relative_path: files[k].name@,
        length: files[k].length,
        piece_indices: Seq::new(
            pieces_for(files[k].length as usize as int, piece_length) as nat,
            |j: int| (first + j) as usize,
        ),
        path: None,
    }
}

/// The file that piece `i` is a part of, among the first `k`. The first file where it is a
/// part of none.
pub open spec fn file_of_piece(files: Seq<FileInfo>, piece_length: int, i: int, k: int) -> int
    decreases k,
{
    if k <= 0 {
        0
    } else if is_piece_of(files, piece_length, i, k - 1) {
        k - 1
    } else {
        file_of_piece(files, piece_length, i, k - 1)
    }
}

/// The pieces, before anything was written, as parts of the first `k` files.
pub open spec fn new_pieces(
    files: Seq<FileInfo>,
    pieces: Seq<PieceInfo>,
    k: int,
) -> Seq<PiecePersistenceView> {
    Seq::new(
        pieces.len(),
        |i: int|
            PiecePersistenceView {
                hash: pieces[i].hash@,
                length: pieces[i].length,
                file_index: file_of_piece(files, pieces[0].length as int, i, k),
                path: None,
            },
    )
}

/// A writer that has written nothing.
pub open spec fn new_writer(
    info_hash: Seq<u8>,
    dest_path: Seq<char>,
    files: Seq<FileInfo>,
    pieces: Seq<PieceInfo>,
) -> DataWriterView {
    DataWriterView {
        dest_path,
        temp_path: joined(dest_path, TEMP_DIR_PREFIX@ + percent_encoding(info_hash)),
        files: Seq::new(files.len(), |k: int| new_file(files, pieces[0].length as int, k)),
        pieces: new_pieces(files, pieces, files.len() as int),
    }
}

/// Every piece is a part of a file, and every file is made of pieces that there are.
pub open spec fn is_linked(w: DataWriterView) -> bool {
    &&& forall|f: int, j: int|
        0 <= f < w.files.len() && 0 <= j < w.files[f].piece_indices.len() ==> (
        #[trigger] w.files[f].piece_indices[j]) < w.pieces.len()
    &&& w.files.len() > 0 ==> forall|i: int|
        0 <= i < w.pieces.len() ==> 0 <= (#[trigger] w.pieces[i]).file_index < w.files.len()
}

/// Where the data of a piece goes.
pub open spec fn piece_path(w: DataWriterView, index: int) -> Seq<char> {
    joined(
        w.temp_path,
        decimal(index as nat).push('_') + percent_encoding(w.pieces[index].hash),
    )
}

/// The writer after the data of a piece was written.
pub open spec fn with_piece(w: DataWriterView, index: int) -> DataWriterView {
    DataWriterView {
        pieces: w.pieces.update(
            index,
            PiecePersistenceView { path: Some(piece_path(w, index)), ..w.pieces[index] },
        ),
        ..w
    }
}

/// All pieces of the file are written.
pub open spec fn file_is_complete(w: DataWriterView, f: int) -> bool {
    forall|j: int|
        0 <= j < w.files[f].piece_indices.len() ==> w.pieces[(
        #[trigger] w.files[f].piece_indices[j]) as int].path is Some
}

/// A piece to be copied to its file: where it is, and how many bytes it must have.
#[derive(Debug)]
pub struct PieceSource {
    pub path: String,
    pub byte_count: u64,
}

pub struct PieceSourceView {
    pub path: Seq<char>,
    pub byte_count: int,
}

impl View for PieceSource {
    type V = PieceSourceView;

    open spec fn view(&self) -> PieceSourceView {
        PieceSourceView { path: self.path@, byte_count: self.byte_count as int }
    }
}

pub open spec fn source_views(sources: Seq<PieceSource>) -> Seq<PieceSourceView> {
    Seq::new(sources.len(), |i: int| sources[i]@)
}

/// Half the length of a piece is what must be copied of it.
pub open spec fn piece_source(piece: PiecePersistenceView) -> PieceSourceView {
    PieceSourceView { path: piece.path->0, byte_count: piece.length as int / 2 }
}

pub open spec fn file_sources(w: DataWriterView, f: int) -> Seq<PieceSourceView> {
    w.files[f].piece_indices.map_values(|i: usize| piece_source(w.pieces[i as int]))
}

/// A file that is to be written to this path, from these pieces.
#[derive(Debug)]
pub struct FileCopy {
    pub file_index: usize,
    pub path: String,
    pub sources: Vec<PieceSource>,
}

proof fn lemma_first_piece(files: Seq<FileInfo>, piece_length: int, k: int)
    requires
        piece_length > 0,
        0 <= k,
    ensures
        first_piece(files, piece_length, k) >= 0,
        k < files.len() ==> pieces_for(files[k].length as usize as int, piece_length) >= 0,
        first_piece(files, piece_length, k) <= first_piece(files, piece_length, k + 1),
    decreases k,
{
    if k > 0 {
        lemma_first_piece(files, piece_length, k - 1);
    }
    lemma_div_pos_is_pos(files[k].length as usize as int + piece_length - 1, piece_length);
}

/// Whether the pieces are enough for the files.
pub fn check_pieces(files: &Vec<FileInfo>, pieces: &Vec<PieceInfo>) -> (enough: bool)
    ensures
        enough == pieces_suffice(files@, pieces@),
{
    if pieces.len() == 0 {
        return false;
    }
    let piece_length: usize = pieces[0].length as usize;
    if files.len() > 0 && piece_length == 0 {
        return false;
    }
    let mut next: usize = 0;
    let mut k: usize = 0;
    while k < files.len()
        invariant
            k <= files@.len(),
            pieces@.len() > 0,
            piece_length == pieces@[0].length,
            k < files@.len() ==> piece_length > 0,
            next == first_piece(files@, piece_length as int, k as int),
            next <= pieces@.len(),
            forall|j: int|
                0 <= j < k ==> (#[trigger] files@[j]).length as usize + piece_length <= usize::MAX,
            forall|j: int|
                0 <= j < k ==> #[trigger] first_piece(files@, piece_length as int, j)
                    < pieces@.len(),
        decreases files@.len() - k,
    {
        let length: usize = files[k].length as usize;
        if next >= pieces.len() || length > usize::MAX - piece_length {
            assert(files@[k as int].length as usize == length);
            assert(next == first_piece(files@, piece_length as int, k as int));
            return false;
        }
        let count: usize = (length + piece_length - 1) / piece_length;
        proof {
            lemma_first_piece(files@, piece_length as int, k as int);
        }
        if count > pieces.len() - next {
            proof {
                lemma_later_file(files@, piece_length as int, k + 1, files@.len() as int);
            }
            return false;
        }
        next = next + count;
        k = k + 1;
    }
    true
}

fn piece_range(first: usize, count: usize) -> (indices: Vec<usize>)
    requires
        first + count <= usize::MAX,
    ensures
        indices@ == Seq::new(count as nat, |j: int| (first + j) as usize),
{
    let mut indices: Vec<usize> = Vec::new();
    let mut j: usize = 0;
    while j < count
        invariant
            j <= count,
            first + count <= usize::MAX,
            indices@ == Seq::new(j as nat, |i: int| (first + i) as usize),
        decreases count - j,
    {
        indices.push(first + j);
        j = j + 1;
        assert(indices@ =~= Seq::new(j as nat, |i: int| (first + i) as usize));
    }
    indices
}

fn unwritten_pieces(
    pieces_info: &Vec<PieceInfo>,
    Ghost(files): Ghost<Seq<FileInfo>>,
) -> (pieces: Vec<PiecePersistenceInfo>)
    ensures
        piece_views(pieces@) == new_pieces(files, pieces_info@, 0),
{
    let ghost all = new_pieces(files, pieces_info@, 0);
    let mut pieces: Vec<PiecePersistenceInfo> = Vec::new();
    let mut i: usize = 0;
    assert(piece_views(pieces@) =~= all.take(0));
    while i < pieces_info.len()
        invariant
            i <= pieces_info@.len(),
            all == new_pieces(files, pieces_info@, 0),
            piece_views(pieces@) == all.take(i as int),
        decreases pieces_info@.len() - i,
    {
        let ghost before = piece_views(pieces@);
        let piece = PiecePersistenceInfo {
            hash: pieces_info[i].hash,
            length: pieces_info[i].length,
            file_index: 0,
            path: None,
        };
        let ghost view = piece@;
        pieces.push(piece);
        proof {
            assert(view == all[i as int]);
            assert(piece_views(pieces@) =~= before.push(view));
            assert(all.take(i + 1) =~= all.take(i as int).push(view));
        }
        i = i + 1;
    }
    assert(all.take(i as int) =~= all);
    pieces
}

fn assign_pieces(
    pieces: &mut Vec<PiecePersistenceInfo>,
    first: usize,
    count: usize,
    file_index: usize,
    Ghost(files): Ghost<Seq<FileInfo>>,
    Ghost(infos): Ghost<Seq<PieceInfo>>,
)
    requires
        first == first_piece(files, infos[0].length as int, file_index as int),
        first + count == first_piece(files, infos[0].length as int, file_index + 1),
        first + count <= old(pieces)@.len(),
        piece_views(old(pieces)@) == new_pieces(files, infos, file_index as int),
    ensures
        piece_views(final(pieces)@) == new_pieces(files, infos, file_index + 1),
{
    let ghost before = piece_views(pieces@);
    let ghost all = new_pieces(files, infos, file_index + 1);
    let length: usize = pieces.len();
    let mut j: usize = 0;
    while j < count
        invariant
            j <= count,
            length == pieces@.len(),
            first + count <= length,
            before == new_pieces(files, infos, file_index as int),
            all == new_pieces(files, infos, file_index + 1),
            first == first_piece(files, infos[0].length as int, file_index as int),
            first + count == first_piece(files, infos[0].length as int, file_index + 1),
            before.len() == length,
            piece_views(pieces@).len() == length,
            forall|i: int|
                0 <= i < length ==> #[trigger] piece_views(pieces@)[i] == if first <= i < first
                    + j {
                    all[i]
                } else {
                    before[i]
                },
        decreases count - j,
    {
        let ghost so_far = piece_views(pieces@);
        let at: usize = first + j;
        assert(so_far[at as int] == before[at as int]);
        pieces[at].file_index = file_index;
        proof {
            let after = piece_views(pieces@);
            assert(is_piece_of(files, infos[0].length as int, at as int, file_index as int));
            assert(after[at as int] == all[at as int]);
            assert forall|i: int| 0 <= i < length implies #[trigger] after[i] == if first <= i
                < first + j + 1 {
                all[i]
            } else {
                before[i]
            } by {
                if i != at {
                    assert(after[i] == so_far[i]);
                }
            }
        }
        j = j + 1;
    }
    proof {
        assert forall|i: int| 0 <= i < length implies #[trigger] piece_views(pieces@)[i]
            == all[i] by {
            if !(first <= i < first + count) {
                assert(before[i] == all[i]);
            }
        }
        assert(piece_views(pieces@) =~= all);
    }
}

proof fn lemma_file_of_piece(files: Seq<FileInfo>, piece_length: int, i: int, k: int)
    requires
        0 <= k,
    ensures
        0 <= file_of_piece(files, piece_length, i, k),
        k > 0 ==> file_of_piece(files, piece_length, i, k) < k,
    decreases k,
{
    if k > 0 {
        lemma_file_of_piece(files, piece_length, i, k - 1);
    }
}

/// A piece is one of the file that it is a part of, and every piece of a file says so.
pub proof fn pieces_and_files_agree(files: Seq<FileInfo>, pieces: Seq<PieceInfo>, i: int, k: int)
    requires
        pieces_suffice(files, pieces),
        0 <= k < files.len(),
        is_piece_of(files, pieces[0].length as int, i, k),
    ensures
        file_of_piece(files, pieces[0].length as int, i, files.len() as int) == k,
{
    lemma_only_file(files, pieces[0].length as int, i, k, files.len() as int);
}

proof fn lemma_only_file(files: Seq<FileInfo>, piece_length: int, i: int, k: int, n: int)
    requires
        piece_length > 0,
        0 <= k < n,
        is_piece_of(files, piece_length, i, k),
    ensures
        file_of_piece(files, piece_length, i, n) == k,
    decreases n,
{
    if k < n - 1 {
        lemma_only_file(files, piece_length, i, k, n - 1);
        lemma_later_file(files, piece_length, k + 1, n - 1);
    }
}

proof fn lemma_later_file(files: Seq<FileInfo>, piece_length: int, j: int, k: int)
    requires
        piece_length > 0,
        0 <= j <= k,
    ensures
        first_piece(files, piece_length, j) <= first_piece(files, piece_length, k),
    decreases k,
{
    if j < k {
        lemma_later_file(files, piece_length, j, k - 1);
        lemma_first_piece(files, piece_length, k - 1);
    }
}

/// The files and pieces of a new writer are linked.
pub proof fn a_new_writer_is_linked(
    info_hash: Seq<u8>,
    dest_path: Seq<char>,
    files: Seq<FileInfo>,
    pieces: Seq<PieceInfo>,
)
    requires
        pieces_suffice(files, pieces),
        pieces.len() <= usize::MAX,
    ensures
        is_linked(new_writer(info_hash, dest_path, files, pieces)),
{
    let w = new_writer(info_hash, dest_path, files, pieces);
    let piece_length = pieces[0].length as int;
    assert forall|f: int, j: int|
        0 <= f < w.files.len() && 0 <= j < w.files[f].piece_indices.len() implies (
    #[trigger] w.files[f].piece_indices[j]) < w.pieces.len() by {
        lemma_first_piece(files, piece_length, f);
        assert(first_piece(files, piece_length, f) < pieces.len());
        assert(first_piece(files, piece_length, f + 1) <= pieces.len());
    }
    assert forall|i: int| 0 <= i < w.pieces.len() && w.files.len() > 0 implies 0 <= (
    #[trigger] w.pieces[i]).file_index < w.files.len() by {
        lemma_file_of_piece(files, piece_length, i, files.len() as int);
    }
}

impl DataWriter {
    /// The files and pieces are linked.
    pub open spec fn wf(&self) -> bool {
        is_linked(self@)
    }

    /// A writer for files and pieces of which nothing is written.
    pub fn new(
        info_hash: &[u8],
        dest_path: &str,
        files_info: &Vec<FileInfo>,
        pieces_info: &Vec<PieceInfo>,
    ) -> (writer: Self)
        requires
            pieces_suffice(files_info@, pieces_info@),
        ensures
            writer@ == new_writer(info_hash@, dest_path@, files_info@, pieces_info@),
            writer.wf(),
    {
        let ghost infos = files_info@;
        let ghost piece_infos = pieces_info@;
        let ghost piece_length = piece_infos[0].length as int;
        let ghost all = new_writer(info_hash@, dest_path@, infos, piece_infos).files;
        let piece_count: usize = pieces_info.len();
        let piece_len: usize = pieces_info[0].length as usize;
        let mut pieces = unwritten_pieces(pieces_info, Ghost(infos));
        let mut files: Vec<FilePersistenceInfo> = Vec::new();
        let mut next_piece_index: usize = 0;
        let mut k: usize = 0;
        assert(file_views(files@) =~= all.take(0));
        while k < files_info.len()
            invariant
                k <= files_info@.len(),
                infos == files_info@,
                piece_infos == pieces_info@,
                piece_count == piece_infos.len(),
                piece_len == piece_length,
                piece_length == piece_infos[0].length as int,
                pieces_suffice(infos, piece_infos),
                all == new_writer(info_hash@, dest_path@, infos, piece_infos).files,
                next_piece_index == first_piece(infos, piece_length, k as int),
                piece_views(pieces@) == new_pieces(infos, piece_infos, k as int),
                file_views(files@) == all.take(k as int),
            decreases files_info@.len() - k,
        {
            proof {
                lemma_first_piece(infos, piece_length, k as int);
                assert(first_piece(infos, piece_length, k as int) < piece_infos.len());
                assert(first_piece(infos, piece_length, k + 1) <= piece_infos.len());
                assert(piece_views(pieces@).len() == piece_infos.len());
            }
            let ghost before = file_views(files@);
            assert(infos[k as int].length as usize + piece_length <= usize::MAX);
            let file_pieces_count: usize = (files_info[k].length as usize + piece_len - 1)
                / piece_len;
            let file = FilePersistenceInfo {
                relative_path: files_info[k].name.as_str().to_owned(),
                length: files_info[k].length,
                piece_indices: piece_range(next_piece_index, file_pieces_count),
                path: None,
            };
            let ghost view = file@;
            files.push(file);
            assign_pieces(
                &mut pieces,
                next_piece_index,
                file_pieces_count,
                k,
                Ghost(infos),
                Ghost(piece_infos),
            );
            next_piece_index = next_piece_index + file_pieces_count;
            proof {
                assert(view =~= all[k as int]);
                assert(file_views(files@) =~= before.push(view));
                assert(all.take(k + 1) =~= all.take(k as int).push(view));
            }
            k = k + 1;
        }
        assert(all.take(k as int) =~= all);
        proof {
            a_new_writer_is_linked(info_hash@, dest_path@, infos, piece_infos);
        }
        DataWriter {
            meta: DataWriterMeta {
                dest_path: dest_path.to_owned(),
                temp_path: temp_dir_path(dest_path, info_hash),
                files,
                pieces,
            },
        }
    }

    /// Where the data of a piece goes. `None` where it is there already.
    pub fn piece_path(&self, index: usize) -> (path: Option<String>)
        requires
            index < self.meta.pieces@.len(),
        ensures
            path is Some <==> self@.pieces[index as int].path is None,
            path is Some ==> path->0@ == piece_path(self@, index as int),
    {
        assert(self@.pieces[index as int] == self.meta.pieces@[index as int]@);
        if self.meta.pieces[index].path.is_some() {
            return None;
        }
        let mut name = String::new();
        append_decimal(&mut name, index as u64);
        name.push('_');
        let hash_text = bytes_to_hex_encoding(&self.meta.pieces[index].hash);
        name.append(hash_text.as_str());
        assert(name@ =~= decimal(index as nat).push('_') + percent_encoding(
            self@.pieces[index as int].hash,
        ));
        Some(join_path(self.meta.temp_path.as_str(), name.as_str()))
    }

    fn check_and_write_file(&self, index: usize) -> (copy: Option<FileCopy>)
        requires
            self.wf(),
            index < self.meta.files@.len(),
        ensures
            copy is Some <==> file_is_complete(self@, index as int),
            copy is Some ==> {
                &&& copy->0.file_index == index
                &&& copy->0.path@ == joined(
                    self@.dest_path,
                    self@.files[index as int].relative_path,
                )
                &&& source_views(copy->0.sources@) == file_sources(self@, index as int)
            },
    {
        let ghost w = self@;
        let ghost all = file_sources(w, index as int);
        let file = &self.meta.files[index];
        assert(w.files[index as int] == file@);
        let mut sources: Vec<PieceSource> = Vec::new();
        let mut j: usize = 0;
        assert(source_views(sources@) =~= all.take(0));
        while j < file.piece_indices.len()
            invariant
                w == self@,
                is_linked(w),
                index < w.files.len(),
                w.files[index as int] == file@,
                all == file_sources(w, index as int),
                j <= file.piece_indices@.len(),
                source_views(sources@) == all.take(j as int),
                forall|i: int|
                    0 <= i < j ==> w.pieces[(
                    #[trigger] w.files[index as int].piece_indices[i]) as int].path is Some,
            decreases file.piece_indices@.len() - j,
        {
            let ghost before = source_views(sources@);
            assert(w.files[index as int].piece_indices[j as int] < w.pieces.len());
            let i: usize = file.piece_indices[j];
            let piece = &self.meta.pieces[i];
            assert(w.pieces[i as int] == piece@);
            match &piece.path {
                Some(path) => {
                    let source = PieceSource {
                        path: path.as_str().to_owned(),
                        byte_count: (piece.length / 2) as u64,
                    };
                    let ghost view = source@;
                    sources.push(source);
                    proof {
                        assert(view == all[j as int]);
                        assert(source_views(sources@) =~= before.push(view));
                        assert(all.take(j + 1) =~= all.take(j as int).push(view));
                    }
                },
                None => {
                    assert(w.pieces[w.files[index as int].piece_indices[j as int] as int].path
                        is None);
                    return None;
                },
            }
            j = j + 1;
        }
        assert(all.take(j as int) =~= all);
        let path = join_path(self.meta.dest_path.as_str(), file.relative_path.as_str());
        Some(FileCopy { file_index: index, path, sources })
    }

    /// Takes in that the data of a piece was written where it goes. The result says how its
    /// file is written, where that was the last of its pieces.
    pub fn write_piece(&mut self, index: usize) -> (copy: Option<FileCopy>)
        requires
            old(self).wf(),
            index < old(self).meta.pieces@.len(),
            old(self)@.pieces[index as int].path is None ==> old(self).meta.files@.len() > 0,
        ensures
            final(self).wf(),
            old(self)@.pieces[index as int].path is Some ==> copy is None && *final(self) == *old(
                self,
            ),
            old(self)@.pieces[index as int].path is None ==> {
                let f = old(self)@.pieces[index as int].file_index;
                &&& final(self)@ == with_piece(old(self)@, index as int)
                &&& copy is Some <==> file_is_complete(final(self)@, f)
                &&& copy is Some ==> {
                    &&& copy->0.file_index == f
                    &&& copy->0.path@ == joined(
                        old(self)@.dest_path,
                        old(self)@.files[f].relative_path,
                    )
                    &&& source_views(copy->0.sources@) == file_sources(final(self)@, f)
                }
            },
    {
        let ghost before = self@;
        assert(before.pieces[index as int] == self.meta.pieces@[index as int]@);
        match self.piece_path(index) {
            None => None,
            Some(path) => {
                self.meta.pieces[index].path = Some(path);
                assert(self@.pieces =~= with_piece(before, index as int).pieces);
                assert(self@ =~= with_piece(before, index as int));
                assert(self@.pieces[index as int] == self.meta.pieces@[index as int]@);
                self.check_and_write_file(self.meta.pieces[index].file_index)
            },
        }
    }

    /// Takes in that a file was written to this path.
    pub fn finish_file(&mut self, index: usize, path: String)
        requires
            old(self).wf(),
            index < old(self).meta.files@.len(),
        ensures
            final(self).wf(),
            final(self)@ == (DataWriterView {
                files: old(self)@.files.update(
                    index as int,
                    FilePersistenceView { path: Some(path@), ..old(self)@.files[index as int] },
                ),
                ..old(self)@
            }),
    {
        let ghost before = self@;
        self.meta.files[index].path = Some(path);
        proof {
            let after = DataWriterView {
                files: before.files.update(
                    index as int,
                    FilePersistenceView { path: Some(path@), ..before.files[index as int] },
                ),
                ..before
            };
            assert(self@.files =~= after.files);
            assert(self@ =~= after);
            assert forall|f: int, j: int|
                0 <= f < after.files.len() && 0 <= j
                    < after.files[f].piece_indices.len() implies (
            #[trigger] after.files[f].piece_indices[j]) < after.pieces.len() by {
                assert(before.files[f].piece_indices[j] < before.pieces.len());
            }
        }
    }
}

} // verus!
