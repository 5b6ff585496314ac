//! Which data of a torrent is read and written where.

use vstd::prelude::*;
use vstd::string::*;

use super::formatter::{block_id, block_id_is_injective, get_block_id};
use super::models::{
    a_frame_stays_whole, blocks_in_order, has_block, id_of, is_block, is_persisted, is_whole,
    lemma_one_block, lists, same_frame, BlockId, BlockStatus, BlockStatusView, BlockView, FileView,
    Torrent, TorrentView,
};
use super::state::{
    can_be_laid_out, file_lengths, files_list_their_blocks_by_name, is_named, new_torrent,
    temp_dir, with_stored_block,
};
use crate::bencode::MetaInfoView;
use crate::layout::{
    all_blocks_of_a_file_make_it_up, covers, cuts_of_file, file_blocks_cover_the_file,
    torrent_blocks, total_length,
};
use crate::path::{is_absolute, join_path, joined, lemma_joined_is_injective};
use crate::select::{at_most, chosen, lemma_chosen, lemma_chosen_grows};
use crate::text::{bytes_equal, is_digit, lemma_padded_decimal, padded_decimal};
use crate::utils::{sha1_digest, sha1_hash};

verus! {

/// Where the data of a block is read.
#[derive(Debug)]
pub struct BlockSource {
    pub path: String,
    pub offset: usize,
    pub length: usize,
    /// The data is in the file that it is a part of, and not in one of its own.
    pub in_file: bool,
}

#[verifier::ext_equal]
pub struct BlockSourceView {
    pub path: Seq<char>,
    pub offset: int,
    pub length: int,
    pub in_file: bool,
}

impl View for BlockSource {
    type V = BlockSourceView;

    open spec fn view(&self) -> BlockSourceView {
        BlockSourceView {
            path: self.path@,
            offset: self.offset as int,
            length: self.length as int,
            in_file: self.in_file,
        }
    }
}

pub open spec fn source_views(sources: Seq<BlockSource>) -> Seq<BlockSourceView> {
    Seq::new(sources.len(), |i: int| sources[i]@)
}

/// Where the data of a block goes when it arrives.
pub open spec fn block_path(t: TorrentView, id: BlockId) -> Seq<char> {
    joined(temp_dir(t), block_id(id.piece_index, id.begin))
}

/// The torrent after the data of a block was written to a file of its own.
pub open spec fn with_arrived_block(t: TorrentView, id: BlockId) -> TorrentView {
    TorrentView {
        blocks: Seq::new(
            t.blocks.len(),
            |i: int|
                if is_block(t.blocks[i], id) {
                    BlockView {
                        data_status: BlockStatusView::PersistedSeparately(block_path(t, id)),
                        ..t.blocks[i]
                    }
                } else {
                    t.blocks[i]
                },
        ),
        ..t
    }
}

/// The data of a block that arrives is of use: it is not on disk yet.
pub open spec fn is_awaited(t: TorrentView, id: BlockId) -> bool {
    exists|i: int|
        0 <= i < t.blocks.len() && is_block(#[trigger] t.blocks[i], id) && !is_persisted(
            t.blocks[i].data_status,
        )
}

/// Where the file first lists the block.
pub open spec fn listed_at(ids: Seq<BlockId>, id: BlockId) -> int
    decreases ids.len(),
{
    if ids.len() == 0 {
        0
    } else if ids[0] == id {
        0
    } else {
        1 + listed_at(ids.skip(1), id)
    }
}

/// Where a block starts in its file.
pub open spec fn offset_in(file: FileView, id: BlockId) -> int {
    file.block_ids_pos[listed_at(file.block_ids, id)].0 as int
}

/// Where the data of a block is read.
pub open spec fn source_of(t: TorrentView, block: BlockView) -> BlockSourceView {
    let file = t.files[block.file_index];
    match block.data_status {
        BlockStatusView::PersistedSeparately(path) => BlockSourceView {
            path,
            offset: 0,
            length: block.length,
            in_file: false,
        },
        _ => BlockSourceView {
            path: file.path->0,
            offset: offset_in(file, id_of(block)),
            length: block.length,
            in_file: true,
        },
    }
}

/// A block that is said to be in its file has a file that is written.
pub open spec fn can_be_read(t: TorrentView, block: BlockView) -> bool {
    block.data_status is PersistedInFile ==> t.files[block.file_index].path is Some
}

pub open spec fn piece_blocks(t: TorrentView, piece_index: int) -> Seq<usize> {
    chosen(t.blocks.len() as int, |i: int| t.blocks[i].piece_index == piece_index)
}

/// The data of every block of the piece is on disk.
pub open spec fn piece_is_there(t: TorrentView, piece_index: int) -> bool {
    forall|i: int|
        0 <= i < t.blocks.len() && (#[trigger] t.blocks[i]).piece_index == piece_index
            ==> is_persisted(t.blocks[i].data_status)
}

/// The blocks of a piece that is there can be read where they are said to be.
pub open spec fn piece_can_be_read(t: TorrentView, piece_index: int) -> bool {
    piece_is_there(t, piece_index) ==> forall|i: int|
        0 <= i < t.blocks.len() && (#[trigger] t.blocks[i]).piece_index == piece_index
            ==> can_be_read(t, t.blocks[i])
}

/// Where the data of the blocks at these positions is read, in their order.
pub open spec fn sources_of(t: TorrentView, positions: Seq<usize>) -> Seq<BlockSourceView> {
    positions.map_values(|i: usize| source_of(t, t.blocks[i as int]))
}

/// A block of this file whose data is on disk and verified.
pub open spec fn is_done(block: BlockView, file_index: int) -> bool {
    block.file_index == file_index && is_persisted(block.data_status) && block.verified
}

/// The blocks of the file that are done, in the order of their places.
pub open spec fn done_blocks(t: TorrentView, file_index: int) -> Seq<usize> {
    chosen(t.blocks.len() as int, |i: int| is_done(t.blocks[i], file_index))
}

/// As many blocks of the file are done as it lists.
pub open spec fn file_is_done(t: TorrentView, f: int) -> bool {
    done_blocks(t, t.files[f].index).len() == t.files[f].block_ids.len()
}

/// The file is not written, or not verified.
pub open spec fn is_unfinished(file: FileView) -> bool {
    file.path is None || !file.verified
}

/// The files that are not finished.
pub open spec fn unfinished_files(t: TorrentView) -> Seq<usize> {
    chosen(t.files.len() as int, |f: int| is_unfinished(t.files[f]))
}

/// The files that are not finished but have all their blocks, no more than `max` of them.
pub open spec fn files_to_write(t: TorrentView, max: int) -> Seq<usize> {
    at_most(
        chosen(t.files.len() as int, |f: int| is_unfinished(t.files[f]) && file_is_done(t, f)),
        max,
    )
}

/// What is to be done about a file.
#[derive(Debug)]
pub enum FileStep {
    /// Nothing: blocks are missing.
    Wait,
    /// Nothing: it is written already.
    Keep,
    /// Write it to this path, from the data of its blocks.
    Write(String, Vec<BlockSource>),
}

pub enum FileStepView {
    Wait,
    Keep,
    Write(Seq<char>, Seq<BlockSourceView>),
}

impl View for FileStep {
    type V = FileStepView;

    open spec fn view(&self) -> FileStepView {
        match self {
            FileStep::Wait => FileStepView::Wait,
            FileStep::Keep => FileStepView::Keep,
            FileStep::Write(path, sources) => FileStepView::Write(path@, source_views(sources@)),
        }
    }
}

/// What is to be done about file `f`.
pub open spec fn file_step(t: TorrentView, f: int) -> FileStepView {
    if !file_is_done(t, f) {
        FileStepView::Wait
    } else if t.files[f].path is Some {
        FileStepView::Keep
    } else {
        FileStepView::Write(
            joined(t.dest_path, t.files[f].relative_path),
            sources_of(t, done_blocks(t, f)),
        )
    }
}

/// The torrent after that: a file that has all its blocks is verified.
pub open spec fn after_file_step(t: TorrentView, f: int) -> TorrentView {
    if file_is_done(t, f) {
        TorrentView {
            files: t.files.update(f, FileView { verified: true, ..t.files[f] }),
            ..t
        }
    } else {
        t
    }
}

/// A file that is done but not written has no block that is said to be in it.
pub open spec fn file_can_be_written(t: TorrentView, f: int) -> bool {
    file_is_done(t, f) && t.files[f].path is None ==> forall|i: int|
        0 <= i < t.blocks.len() && is_done(#[trigger] t.blocks[i], f) ==> !(t.blocks[
        i].data_status is PersistedInFile)
}

proof fn lemma_listed_at(ids: Seq<BlockId>, id: BlockId)
    ensures
        0 <= listed_at(ids, id) <= ids.len(),
        forall|k: int| 0 <= k < listed_at(ids, id) ==> #[trigger] ids[k] != id,
        listed_at(ids, id) < ids.len() ==> ids[listed_at(ids, id)] == id,
    decreases ids.len(),
{
    if ids.len() > 0 && ids[0] != id {
        lemma_listed_at(ids.skip(1), id);
        assert forall|k: int| 0 <= k < listed_at(ids, id) implies #[trigger] ids[k] != id by {
            if k > 0 {
                assert(ids.skip(1)[k - 1] == ids[k]);
            }
        }
    }
}

fn find_listed(ids: &Vec<BlockId>, id: BlockId) -> (at: usize)
    ensures
        at == listed_at(ids@, id),
        at <= ids@.len(),
{
    proof {
        lemma_listed_at(ids@, id);
    }
    let mut k: usize = 0;
    while k < ids.len() && !(ids[k].piece_index == id.piece_index && ids[k].begin == id.begin)
        invariant
            k <= ids@.len(),
            forall|j: int| 0 <= j < k ==> ids@[j] != id,
            0 <= listed_at(ids@, id) <= ids@.len(),
            forall|k: int| 0 <= k < listed_at(ids@, id) ==> #[trigger] ids@[k] != id,
            listed_at(ids@, id) < ids@.len() ==> ids@[listed_at(ids@, id)] == id,
        decreases ids@.len() - k,
    {
        k = k + 1;
    }
    k
}

impl Torrent {
    /// Where the data of a block goes when it arrives. `None` where it is on disk already.
    pub fn arriving_block_path(&self, id: BlockId) -> (path: Option<String>)
        requires
            self.wf(),
            has_block(self@.blocks, id),
        ensures
            path is Some <==> is_awaited(self@, id),
            path is Some ==> path->0@ == block_path(self@, id),
    {
        if let Some(k) = self.find_block(id) {
            assert(self@.blocks[k as int] == self.blocks@[k as int]@);
            if self.blocks[k].data_status.persisted() {
                assert forall|i: int|
                    0 <= i < self@.blocks.len() && is_block(
                        #[trigger] self@.blocks[i],
                        id,
                    ) implies is_persisted(self@.blocks[i].data_status) by {
                    lemma_one_block(self@.blocks, i, k as int, id);
                }
                return None;
            }
        }
        let directory = self.get_temp_dir_path();
        let name = get_block_id(id.piece_index, id.begin);
        Some(join_path(directory.as_str(), name.as_str()))
    }

    /// Takes in that the data of a block was written where it goes. Data that is on disk
    /// already stays where it is.
    pub fn write_block(&mut self, id: BlockId)
        requires
            old(self).wf(),
            has_block(old(self)@.blocks, id),
        ensures
            is_awaited(old(self)@, id) ==> final(self)@ == with_arrived_block(old(self)@, id),
            !is_awaited(old(self)@, id) ==> *final(self) == *old(self),
            final(self).wf(),
    {
        let ghost before = self@;
        if let Some(path) = self.arriving_block_path(id) {
            if let Some(k) = self.find_block(id) {
                self.blocks[k].data_status = BlockStatus::PersistedSeparately(path);
                proof {
                    let after = with_arrived_block(before, id);
                    assert forall|i: int| 0 <= i < before.blocks.len() implies self@.blocks[i]
                        == #[trigger] after.blocks[i] by {
                        if is_block(before.blocks[i], id) {
                            lemma_one_block(before.blocks, i, k as int, id);
                        }
                    }
                    assert(self@.blocks =~= after.blocks);
                    assert(self@ =~= after);
                    a_frame_stays_whole(before, after);
                }
            }
        }
    }

    fn block_source(&self, i: usize) -> (source: BlockSource)
        requires
            self.wf(),
            i < self.blocks@.len(),
            is_persisted(self@.blocks[i as int].data_status),
            can_be_read(self@, self@.blocks[i as int]),
        ensures
            source@ == source_of(self@, self@.blocks[i as int]),
    {
        let block = &self.blocks[i];
        let ghost view = self@.blocks[i as int];
        assert(view == block@);
        let file = &self.files[block.file_index];
        assert(self@.files[block.file_index as int] == file@);
        if let BlockStatus::PersistedSeparately(path) = &block.data_status {
            return BlockSource {
                path: path.as_str().to_owned(),
                offset: 0,
                length: block.length,
                in_file: false,
            };
        }
        let id = BlockId { piece_index: block.piece_index, begin: block.begin };
        let at: usize = find_listed(&file.block_ids, id);
        proof {
            lemma_listed_at(file.block_ids@, id);
            assert(lists(file@, id_of(view)));
            let k = choose|k: int|
                0 <= k < file@.block_ids.len() && #[trigger] file@.block_ids[k] == id_of(view);
            assert(at <= k);
        }
        let path = match &file.path {
            Some(path) => path.as_str().to_owned(),
            None => String::new(),
        };
        BlockSource { path, offset: file.block_ids_pos[at].0, length: block.length, in_file: true }
    }

    /// Where the data of the blocks at these positions is read, in their order.
    pub fn block_sources(&self, positions: &Vec<usize>) -> (sources: Vec<BlockSource>)
        requires
            self.wf(),
            forall|j: int|
                0 <= j < positions@.len() ==> {
                    &&& (#[trigger] positions@[j]) < self@.blocks.len()
                    &&& is_persisted(self@.blocks[positions@[j] as int].data_status)
                    &&& can_be_read(self@, self@.blocks[positions@[j] as int])
                },
        ensures
            source_views(sources@) == sources_of(self@, positions@),
    {
        let ghost t = self@;
        let mut sources: Vec<BlockSource> = Vec::new();
        let mut k: usize = 0;
        assert(source_views(sources@) =~= sources_of(t, positions@.take(0)));
        while k < positions.len()
            invariant
                self.wf(),
                self@ == t,
                k <= positions@.len(),
                forall|j: int|
                    0 <= j < positions@.len() ==> {
                        &&& (#[trigger] positions@[j]) < self@.blocks.len()
                        &&& is_persisted(self@.blocks[positions@[j] as int].data_status)
                        &&& can_be_read(self@, self@.blocks[positions@[j] as int])
                    },
                source_views(sources@) == sources_of(t, positions@.take(k as int)),
            decreases positions@.len() - k,
        {
            let ghost before = source_views(sources@);
            let i: usize = positions[k];
            let source = self.block_source(i);
            let ghost view = source@;
            sources.push(source);
            proof {
                assert(source_views(sources@) =~= before.push(view));
                assert(sources_of(t, positions@.take(k + 1)) =~= sources_of(
                    t,
                    positions@.take(k as int),
                ).push(view));
            }
            k = k + 1;
        }
        assert(positions@.take(k as int) =~= positions@);
        sources
    }

    /// Whether the blocks of a piece that is there can be read where they are said to be.
    pub fn can_read_piece(&self, piece_index: usize) -> (can: bool)
        requires
            self.wf(),
        ensures
            can == piece_can_be_read(self@, piece_index as int),
    {
        let ghost t = self@;
        let mut there = true;
        let mut can = true;
        let mut i: usize = 0;
        while i < self.blocks.len()
            invariant
                i <= self.blocks@.len(),
                self.wf(),
                t == self@,
                there == forall|k: int|
                    0 <= k < i && (#[trigger] t.blocks[k]).piece_index == piece_index
                        ==> is_persisted(t.blocks[k].data_status),
                can == forall|k: int|
                    0 <= k < i && (#[trigger] t.blocks[k]).piece_index == piece_index
                        ==> can_be_read(t, t.blocks[k]),
            decreases self.blocks@.len() - i,
        {
            let block = &self.blocks[i];
            assert(t.blocks[i as int] == block@);
            assert(t.files[block.file_index as int] == self.files@[block.file_index as int]@);
            if block.piece_index == piece_index {
                there = there && block.data_status.persisted();
                let in_file = matches!(block.data_status, BlockStatus::PersistedInFile);
                can = can && (!in_file || self.files[block.file_index].path.is_some());
            }
            i = i + 1;
        }
        !there || can
    }

    /// Where the data of a piece is read, block by block. `None` where some of it is not on
    /// disk.
    pub fn piece_sources(&self, piece_index: usize) -> (sources: Option<Vec<BlockSource>>)
        requires
            self.wf(),
            piece_can_be_read(self@, piece_index as int),
        ensures
            sources is Some <==> piece_is_there(self@, piece_index as int),
            sources is Some ==> source_views(sources->0@) == sources_of(
                self@,
                piece_blocks(self@, piece_index as int),
            ),
    {
        let ghost t = self@;
        let ghost wanted = |i: int| t.blocks[i].piece_index == piece_index;
        let mut positions: Vec<usize> = Vec::new();
        let mut i: usize = 0;
        while i < self.blocks.len()
            invariant
                i <= self.blocks@.len(),
                t == self@,
                wanted == (|i: int| t.blocks[i].piece_index == piece_index),
                forall|k: int|
                    0 <= k < i && (#[trigger] t.blocks[k]).piece_index == piece_index
                        ==> is_persisted(t.blocks[k].data_status),
                positions@ == chosen(i as int, wanted),
            decreases self.blocks@.len() - i,
        {
            assert(t.blocks[i as int] == self.blocks@[i as int]@);
            assert(wanted(i as int) == (self.blocks@[i as int].piece_index == piece_index));
            if self.blocks[i].piece_index == piece_index {
                if !self.blocks[i].data_status.persisted() {
                    return None;
                }
                positions.push(i);
            }
            i = i + 1;
        }
        proof {
            assert(piece_is_there(t, piece_index as int));
            lemma_chosen(t.blocks.len() as int, wanted);
        }
        Some(self.block_sources(&positions))
    }

    /// Whether this is the data of the piece: it has the hash that the torrent says.
    pub fn is_piece_valid(&self, piece_index: usize, data: &[u8]) -> (valid: bool)
        requires
            piece_index < self.pieces@.len(),
        ensures
            valid == (sha1_digest(data@) == self@.pieces[piece_index as int].hash),
    {
        assert(self@.pieces[piece_index as int] == self.pieces@[piece_index as int]@);
        let digest = sha1_hash(data);
        bytes_equal(&digest, &self.pieces[piece_index].hash)
    }

    fn find_done_blocks(&self, file_index: usize) -> (positions: Vec<usize>)
        ensures
            positions@ == done_blocks(self@, file_index as int),
    {
        let ghost t = self@;
        let ghost wanted = |i: int| is_done(t.blocks[i], file_index as int);
        let mut positions: Vec<usize> = Vec::new();
        let mut i: usize = 0;
        while i < self.blocks.len()
            invariant
                i <= self.blocks@.len(),
                t == self@,
                wanted == (|i: int| is_done(t.blocks[i], file_index as int)),
                positions@ == chosen(i as int, wanted),
            decreases self.blocks@.len() - i,
        {
            let block = &self.blocks[i];
            assert(t.blocks[i as int] == block@);
            let done = block.file_index == file_index && block.verified
                && block.data_status.persisted();
            assert(done == wanted(i as int));
            if done {
                positions.push(i);
            }
            i = i + 1;
        }
        positions
    }

    /// The files that are not finished but have all their blocks, no more than `max_count`
    /// of them.
    pub fn find_files_to_write(&self, max_count: usize) -> (files: Vec<usize>)
        ensures
            files@ == files_to_write(self@, max_count as int),
            forall|k: int| 0 <= k < files@.len() ==> (#[trigger] files@[k]) < self.files@.len(),
    {
        let ghost t = self@;
        let ghost wanted = |f: int| is_unfinished(t.files[f]) && file_is_done(t, f);
        let mut files: Vec<usize> = Vec::new();
        let mut f: usize = 0;
        while f < self.files.len() && files.len() < max_count
            invariant
                f <= self.files@.len(),
                t == self@,
                wanted == (|f: int| is_unfinished(t.files[f]) && file_is_done(t, f)),
                files@ == chosen(f as int, wanted),
                files@.len() <= max_count,
                forall|k: int|
                    0 <= k < files@.len() ==> (#[trigger] files@[k]) < self.files@.len(),
            decreases self.files@.len() - f,
        {
            let file = &self.files[f];
            assert(t.files[f as int] == file@);
            let mut writes = false;
            if file.path.is_none() || !file.verified {
                writes = self.find_done_blocks(file.index).len() == file.block_ids.len();
            }
            assert(writes == wanted(f as int));
            if writes {
                files.push(f);
            }
            f = f + 1;
        }
        proof {
            lemma_chosen_grows(f as int, t.files.len() as int, wanted);
            assert(files@ =~= files_to_write(t, max_count as int));
        }
        files
    }

    /// The files that are not finished.
    pub fn find_unfinished_files(&self) -> (files: Vec<usize>)
        ensures
            files@ == unfinished_files(self@),
            forall|k: int| 0 <= k < files@.len() ==> (#[trigger] files@[k]) < self.files@.len(),
    {
        let ghost t = self@;
        let ghost wanted = |f: int| is_unfinished(t.files[f]);
        let mut files: Vec<usize> = Vec::new();
        let mut f: usize = 0;
        while f < self.files.len()
            invariant
                f <= self.files@.len(),
                t == self@,
                wanted == (|f: int| is_unfinished(t.files[f])),
                files@ == chosen(f as int, wanted),
                forall|k: int|
                    0 <= k < files@.len() ==> (#[trigger] files@[k]) < self.files@.len(),
            decreases self.files@.len() - f,
        {
            assert(t.files[f as int] == self.files@[f as int]@);
            let unfinished = self.files[f].path.is_none() || !self.files[f].verified;
            assert(unfinished == wanted(f as int));
            if unfinished {
                files.push(f);
            }
            f = f + 1;
        }
        files
    }

    /// Whether a file that is done but not written has no block that is said to be in it.
    pub fn can_write_file(&self, file_index: usize) -> (can: bool)
        requires
            self.wf(),
            file_index < self.files@.len(),
        ensures
            can == file_can_be_written(self@, file_index as int),
    {
        let ghost t = self@;
        let ghost done = |i: int| is_done(t.blocks[i], file_index as int);
        let positions = self.find_done_blocks(file_index);
        let block_count: usize = self.blocks.len();
        proof {
            assert(t.files[file_index as int] == self.files@[file_index as int]@);
            assert(t.files[file_index as int].index == file_index);
            lemma_chosen(t.blocks.len() as int, done);
        }
        if self.files[file_index].path.is_some() || positions.len()
            != self.files[file_index].block_ids.len() {
            return true;
        }
        let mut k: usize = 0;
        while k < positions.len()
            invariant
                k <= positions@.len(),
                t == self@,
                forall|j: int|
                    0 <= j < positions@.len() ==> (#[trigger] positions@[j]) < self.blocks@.len()
                        && is_done(t.blocks[positions@[j] as int], file_index as int),
                forall|j: int|
                    0 <= j < k ==> !(t.blocks[#[trigger] positions@[j] as int].data_status
                        is PersistedInFile),
                file_is_done(t, file_index as int),
                t.files[file_index as int].path is None,
            decreases positions@.len() - k,
        {
            let i: usize = positions[k];
            assert(t.blocks[i as int] == self.blocks@[i as int]@);
            if matches!(self.blocks[i].data_status, BlockStatus::PersistedInFile) {
                assert(is_done(t.blocks[i as int], file_index as int));
                return false;
            }
            k = k + 1;
        }
        proof {
            assert forall|i: int|
                0 <= i < t.blocks.len() && is_done(
                    #[trigger] t.blocks[i],
                    file_index as int,
                ) implies !(t.blocks[i].data_status is PersistedInFile) by {
                assert(done(i as usize as int));
                assert(positions@.contains(i as usize));
            }
        }
        true
    }

    /// What is to be done about a file. One that has all its blocks is verified.
    pub fn verify_and_write_file(&mut self, file_index: usize) -> (step: FileStep)
        requires
            old(self).wf(),
            file_index < old(self).files@.len(),
            file_can_be_written(old(self)@, file_index as int),
        ensures
            step@ == file_step(old(self)@, file_index as int),
            final(self)@ == after_file_step(old(self)@, file_index as int),
            final(self).wf(),
    {
        let ghost t = self@;
        let f: usize = file_index;
        let block_count: usize = self.blocks.len();
        assert(t.files[f as int] == self.files@[f as int]@);
        assert(t.files[f as int].index == f);
        let positions = self.find_done_blocks(f);
        if positions.len() != self.files[f].block_ids.len() {
            return FileStep::Wait;
        }
        let step = if self.files[f].path.is_some() {
            FileStep::Keep
        } else {
            let path = join_path(self.dest_path.as_str(), self.files[f].relative_path.as_str());
            proof {
                lemma_chosen(t.blocks.len() as int, |i: int| is_done(t.blocks[i], f as int));
            }
            let sources = self.block_sources(&positions);
            FileStep::Write(path, sources)
        };
        self.files[f].verified = true;
        proof {
            let after = after_file_step(t, f as int);
            assert(self@.files =~= after.files);
            a_frame_stays_whole(t, after);
        }
        step
    }

    /// Takes in that a file was written to this path.
    pub fn finish_file(&mut self, file_index: usize, path: String)
        requires
            old(self).wf(),
            file_index < old(self).files@.len(),
        ensures
            final(self)@ == (TorrentView {
                files: old(self)@.files.update(
                    file_index as int,
                    FileView { path: Some(path@), ..old(self)@.files[file_index as int] },
                ),
                ..old(self)@
            }),
            final(self).wf(),
    {
        let ghost before = self@;
        self.files[file_index].path = Some(path);
        proof {
            let after = TorrentView {
                files: before.files.update(
                    file_index as int,
                    FileView { path: Some(path@), ..before.files[file_index as int] },
                ),
                ..before
            };
            assert(self@.files =~= after.files);
            assert(self@ =~= after);
            a_frame_stays_whole(before, after);
        }
    }
}

/// A file that is done has every one of its blocks, and they are written one after another,
/// from the first byte of the file to its last.
pub proof fn a_done_file_is_written_whole(
    client_id: Seq<u8>,
    dest_path: Seq<char>,
    meta: MetaInfoView,
    t: TorrentView,
    f: int,
)
    requires
        can_be_laid_out(meta),
        meta.pieces[0].length > 0,
        same_frame(new_torrent(client_id, dest_path, meta), t),
        t.blocks.len() <= usize::MAX,
        0 <= f < t.files.len(),
        file_is_done(t, f),
    ensures
        ({
            let cuts = cuts_of_file(meta.pieces[0].length, file_lengths(meta.files), f);
            &&& done_blocks(t, f).len() == cuts.len()
            &&& covers(
                meta.pieces[0].length,
                cuts,
                total_length(file_lengths(meta.files), f),
                total_length(file_lengths(meta.files), f + 1),
            )
            &&& forall|k: int|
                0 <= k < cuts.len() ==> {
                    let block = t.blocks[#[trigger] done_blocks(t, f)[k] as int];
                    &&& block.file_index == f
                    &&& block.piece_index == cuts[k].piece
                    &&& block.begin == cuts[k].begin
                    &&& block.length == cuts[k].length
                }
        }),
{
    let fresh = new_torrent(client_id, dest_path, meta);
    let p = meta.pieces[0].length;
    let lengths = file_lengths(meta.files);
    let cuts = cuts_of_file(p, lengths, f);
    let blocks = torrent_blocks(p, lengths);
    let done = done_blocks(t, f);
    assert(t.files[f].index == fresh.files[f].index);
    assert(t.files[f].block_ids == fresh.files[f].block_ids);
    files_list_their_blocks_by_name(meta, f);
    lemma_chosen(t.blocks.len() as int, |i: int| is_done(t.blocks[i], f));
    let selected = done.map_values(|i: usize| i as int);
    assert forall|k: int| 0 <= k < selected.len() implies 0 <= (#[trigger] selected[k])
        < blocks.len() && blocks[selected[k]].file == f by {
        assert(done[k] < t.blocks.len() && is_done(t.blocks[done[k] as int], f));
        assert(t.blocks[done[k] as int].file_index == fresh.blocks[done[k] as int].file_index);
    }
    assert forall|j: int, k: int| 0 <= j < k < selected.len() implies #[trigger] selected[j]
        < #[trigger] selected[k] by {
        assert(done[j] < done[k]);
    }
    all_blocks_of_a_file_make_it_up(p, lengths, f, selected);
    file_blocks_cover_the_file(p, lengths, f);
    assert forall|k: int| 0 <= k < cuts.len() implies {
        let block = t.blocks[#[trigger] done[k] as int];
        &&& block.file_index == f
        &&& block.piece_index == cuts[k].piece
        &&& block.begin == cuts[k].begin
        &&& block.length == cuts[k].length
    } by {
        assert(blocks[selected[k]] == cuts[k]);
        let i = done[k] as int;
        assert(t.blocks[i].file_index == fresh.blocks[i].file_index);
    }
}

/// Different blocks go to different files.
pub proof fn block_paths_are_distinct(t: TorrentView, a: BlockId, b: BlockId)
    requires
        block_path(t, a) == block_path(t, b),
    ensures
        a == b,
{
    let left = block_id(a.piece_index, a.begin);
    let right = block_id(b.piece_index, b.begin);
    lemma_block_id_is_relative(a);
    lemma_block_id_is_relative(b);
    lemma_joined_is_injective(temp_dir(t), left, right);
    block_id_is_injective(a.piece_index, a.begin, b.piece_index, b.begin);
}

proof fn lemma_block_id_is_relative(id: BlockId)
    ensures
        !is_absolute(block_id(id.piece_index, id.begin)),
{
    let name = block_id(id.piece_index, id.begin);
    lemma_padded_decimal(id.piece_index as nat, 5);
    let digits = padded_decimal(id.piece_index as nat, 5);
    assert(name[0] == digits[0]);
    assert(is_digit(digits[0]));
}

/// A block whose data was written is found where it was written when the torrent starts
/// again, and is not verified.
pub proof fn a_stored_block_is_found_again(t: TorrentView, id: BlockId)
    requires
        is_whole(t),
        forall|i: int|
            0 <= i < t.blocks.len() ==> {
                let block = #[trigger] t.blocks[i];
                &&& !block.verified
                &&& block.piece_index <= usize::MAX
                &&& 0 <= block.begin <= usize::MAX
            },
        t.pieces.len() <= usize::MAX,
    ensures
        with_stored_block(
            t.blocks,
            block_id(id.piece_index, id.begin),
            block_path(t, id),
        ) == with_arrived_block(t, id).blocks,
{
    let name = block_id(id.piece_index, id.begin);
    let found = with_stored_block(t.blocks, name, block_path(t, id));
    let written = with_arrived_block(t, id).blocks;
    assert forall|i: int| 0 <= i < t.blocks.len() implies found[i] == #[trigger] written[i] by {
        let block = t.blocks[i];
        if is_named(block, name) {
            block_id_is_injective(
                block.piece_index as usize,
                block.begin as usize,
                id.piece_index,
                id.begin,
            );
        }
    }
    assert(found =~= written);
}

/// Data that is on disk is not requested.
pub proof fn stored_blocks_are_not_awaited(t: TorrentView, id: BlockId)
    requires
        blocks_in_order(t.blocks),
        is_awaited(t, id),
    ensures
        !is_awaited(with_arrived_block(t, id), id),
{
    let after = with_arrived_block(t, id);
    assert forall|i: int|
        0 <= i < after.blocks.len() && is_block(
            #[trigger] after.blocks[i],
            id,
        ) implies is_persisted(after.blocks[i].data_status) by {
        assert(is_block(t.blocks[i], id));
    }
}

} // verus!
