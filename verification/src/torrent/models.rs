//! A torrent, its files, pieces and blocks.

use vstd::prelude::*;

use crate::bencode::text_view;
use crate::swarm::{all_bits_fit, distinct, peer_views, Peer, PeerView};

verus! {

pub const CLIENT_PORT: usize = 12457;

pub const INFO_HASH_BYTE_LEN: usize = 20;

pub const PEER_ID_BYTE_LEN: usize = 20;

pub const PIECE_HASH_BYTE_LEN: usize = 20;

/// The place of a block: its piece, and where it starts in the piece.
#[derive(Debug, Clone, Copy, PartialEq, Eq, Structural)]
pub struct BlockId {
    pub piece_index: usize,
    pub begin: usize,
}

/// A file of a torrent.
#[derive(Debug)]
pub struct File {
    pub index: usize,
    pub relative_path: String,
    pub length: usize,
    pub block_ids: Vec<BlockId>,
    /// Where each of the blocks starts in the file, and its length.
    pub block_ids_pos: Vec<(usize, usize)>,
    /// Where the file was written.
    pub path: Option<String>,
    pub verified: bool,
}

#[verifier::ext_equal]
pub struct FileView {
    pub index: int,
    pub relative_path: Seq<char>,
    pub length: int,
    pub block_ids: Seq<BlockId>,
    pub block_ids_pos: Seq<(usize, usize)>,
    pub path: Option<Seq<char>>,
    pub verified: bool,
}

impl View for File {
    type V = FileView;

    open spec fn view(&self) -> FileView {
        FileView {
            index: self.index as int,
            relative_path: self.relative_path@,
            length: self.length as int,
            block_ids: self.block_ids@,
            block_ids_pos: self.block_ids_pos@,
            path: text_view(self.path),
            verified: self.verified,
        }
    }
}

/// A piece of a torrent.
#[derive(Debug)]
pub struct Piece {
    pub index: usize,
    pub length: usize,
    /// How often the piece was had.
    pub have: usize,
    pub hash: [u8; PIECE_HASH_BYTE_LEN],
}

#[verifier::ext_equal]
pub struct PieceView {
    pub index: int,
    pub length: int,
    pub have: int,
    pub hash: Seq<u8>,
}

impl View for Piece {
    type V = PieceView;

    open spec fn view(&self) -> PieceView {
        PieceView {
            index: self.index as int,
            length: self.length as int,
            have: self.have as int,
            hash: self.hash@,
        }
    }
}

/// Where the data of a block is.
#[derive(Debug)]
pub enum BlockStatus {
    Pending,
    /// Requested at this time, in nanoseconds.
    Requested(u128),
    /// In a file of its own.
    PersistedSeparately(String),
    /// In the file that it is a part of.
    PersistedInFile,
}

pub enum BlockStatusView {
    Pending,
    Requested(u128),
    PersistedSeparately(Seq<char>),
    PersistedInFile,
}

impl View for BlockStatus {
    type V = BlockStatusView;

    open spec fn view(&self) -> BlockStatusView {
        match self {
            BlockStatus::Pending => BlockStatusView::Pending,
            BlockStatus::Requested(at) => BlockStatusView::Requested(*at),
            BlockStatus::PersistedSeparately(path) => BlockStatusView::PersistedSeparately(path@),
            BlockStatus::PersistedInFile => BlockStatusView::PersistedInFile,
        }
    }
}

/// The data of the block is on disk.
pub open spec fn is_persisted(status: BlockStatusView) -> bool {
    status is PersistedSeparately || status is PersistedInFile
}

impl BlockStatus {
    /// Whether the data of the block is on disk.
    pub fn persisted(&self) -> (persisted: bool)
        ensures
            persisted == is_persisted(self@),
    {
        matches!(self, BlockStatus::PersistedSeparately(_) | BlockStatus::PersistedInFile)
    }
}

/// A block of a torrent.
#[derive(Debug)]
pub struct Block {
    pub file_index: usize,
    pub piece_index: usize,
    pub begin: usize,
    pub length: usize,
    pub data_status: BlockStatus,
    pub verified: bool,
}

#[verifier::ext_equal]
pub struct BlockView {
    pub file_index: int,
    pub piece_index: int,
    pub begin: int,
    pub length: int,
    pub data_status: BlockStatusView,
    pub verified: bool,
}

impl View for Block {
    type V = BlockView;

    open spec fn view(&self) -> BlockView {
        BlockView {
            file_index: self.file_index as int,
            piece_index: self.piece_index as int,
            begin: self.begin as int,
            length: self.length as int,
            data_status: self.data_status@,
            verified: self.verified,
        }
    }
}

/// A torrent.
#[derive(Debug)]
pub struct Torrent {
    pub client_id: [u8; PEER_ID_BYTE_LEN],
    pub dest_path: String,
    pub hash: [u8; INFO_HASH_BYTE_LEN],
    pub tracker: String,
    pub directory: Option<String>,
    pub files: Vec<File>,
    pub pieces: Vec<Piece>,
    /// The blocks, in the order of their places.
    pub blocks: Vec<Block>,
    pub peers: Vec<Peer>,
    /// A second, and the number of bytes that came within it.
    pub downloaded_window_second: (u64, usize),
}

#[verifier::ext_equal]
pub struct TorrentView {
    pub client_id: Seq<u8>,
    pub dest_path: Seq<char>,
    pub hash: Seq<u8>,
    pub tracker: Seq<char>,
    pub directory: Option<Seq<char>>,
    pub files: Seq<FileView>,
    pub pieces: Seq<PieceView>,
    pub blocks: Seq<BlockView>,
    pub peers: Seq<PeerView>,
    pub downloaded_window_second: (u64, usize),
}

pub open spec fn file_views(files: Seq<File>) -> Seq<FileView> {
    Seq::new(files.len(), |i: int| files[i]@)
}

pub open spec fn piece_views(pieces: Seq<Piece>) -> Seq<PieceView> {
    Seq::new(pieces.len(), |i: int| pieces[i]@)
}

pub open spec fn block_views(blocks: Seq<Block>) -> Seq<BlockView> {
    Seq::new(blocks.len(), |i: int| blocks[i]@)
}

impl View for Torrent {
    type V = TorrentView;

    open spec fn view(&self) -> TorrentView {
        TorrentView {
            client_id: self.client_id@,
            dest_path: self.dest_path@,
            hash: self.hash@,
            tracker: self.tracker@,
            directory: text_view(self.directory),
            files: file_views(self.files@),
            pieces: piece_views(self.pieces@),
            blocks: block_views(self.blocks@),
            peers: peer_views(self.peers@),
            downloaded_window_second: self.downloaded_window_second,
        }
    }
}

/// The block is at this place.
pub open spec fn is_block(block: BlockView, id: BlockId) -> bool {
    block.piece_index == id.piece_index && block.begin == id.begin
}

/// There is a block at this place.
pub open spec fn has_block(blocks: Seq<BlockView>, id: BlockId) -> bool {
    exists|i: int| 0 <= i < blocks.len() && is_block(#[trigger] blocks[i], id)
}

/// One block is at an earlier place than the other.
pub open spec fn comes_before(a: BlockView, b: BlockView) -> bool {
    a.piece_index < b.piece_index || (a.piece_index == b.piece_index && a.begin < b.begin)
}

/// The blocks are in the order of their places, so no two share one.
pub open spec fn blocks_in_order(blocks: Seq<BlockView>) -> bool {
    forall|i: int, j: int|
        0 <= i < j < blocks.len() ==> comes_before(#[trigger] blocks[i], #[trigger] blocks[j])
}

/// The file lists a block at this place.
pub open spec fn lists(file: FileView, id: BlockId) -> bool {
    exists|k: int| 0 <= k < file.block_ids.len() && #[trigger] file.block_ids[k] == id
}

pub open spec fn id_of(block: BlockView) -> BlockId {
    BlockId { piece_index: block.piece_index as usize, begin: block.begin as usize }
}

/// The parts of a torrent fit together: files and pieces stand at their index, every block
/// is in a piece and is listed by its file, and every block that a file lists is there.
pub open spec fn is_whole(t: TorrentView) -> bool {
    &&& forall|i: int| 0 <= i < t.pieces.len() ==> (#[trigger] t.pieces[i]).index == i
    &&& forall|i: int| 0 <= i < t.files.len() ==> (#[trigger] t.files[i]).index == i
    &&& forall|i: int|
        0 <= i < t.files.len() ==> (#[trigger] t.files[i]).block_ids.len()
            == t.files[i].block_ids_pos.len()
    &&& blocks_in_order(t.blocks)
    &&& forall|i: int|
        0 <= i < t.blocks.len() ==> {
            let block = #[trigger] t.blocks[i];
            &&& 0 <= block.piece_index < t.pieces.len()
            &&& 0 <= block.file_index < t.files.len()
            &&& lists(t.files[block.file_index], id_of(block))
        }
    &&& forall|f: int, k: int|
        0 <= f < t.files.len() && 0 <= k < t.files[f].block_ids.len() ==> has_block(
            t.blocks,
            #[trigger] t.files[f].block_ids[k],
        )
    &&& distinct(t.peers)
    &&& all_bits_fit(t.peers, t.pieces.len() as int)
}

/// The same places and parts, whatever is known of their data.
pub open spec fn same_frame(a: TorrentView, b: TorrentView) -> bool {
    &&& a.pieces.len() == b.pieces.len()
    &&& a.files.len() == b.files.len()
    &&& a.blocks.len() == b.blocks.len()
    &&& forall|i: int|
        0 <= i < a.pieces.len() ==> {
            let piece = #[trigger] b.pieces[i];
            &&& piece.index == a.pieces[i].index
            &&& piece.length == a.pieces[i].length
            &&& piece.hash == a.pieces[i].hash
        }
    &&& forall|i: int|
        0 <= i < a.files.len() ==> {
            let file = #[trigger] b.files[i];
            &&& file.index == a.files[i].index
            &&& file.relative_path == a.files[i].relative_path
            &&& file.length == a.files[i].length
            &&& file.block_ids == a.files[i].block_ids
            &&& file.block_ids_pos == a.files[i].block_ids_pos
        }
    &&& forall|i: int|
        0 <= i < a.blocks.len() ==> {
            let block = #[trigger] b.blocks[i];
            &&& block.piece_index == a.blocks[i].piece_index
            &&& block.begin == a.blocks[i].begin
            &&& block.length == a.blocks[i].length
            &&& block.file_index == a.blocks[i].file_index
        }
}

/// What is known of the data of a torrent does not matter to how its parts fit together.
pub proof fn a_frame_stays_whole(a: TorrentView, b: TorrentView)
    requires
        is_whole(a),
        same_frame(a, b),
        distinct(b.peers),
        all_bits_fit(b.peers, b.pieces.len() as int),
    ensures
        is_whole(b),
{
    assert forall|i: int, j: int| 0 <= i < j < b.blocks.len() implies comes_before(
        #[trigger] b.blocks[i],
        #[trigger] b.blocks[j],
    ) by {
        assert(comes_before(a.blocks[i], a.blocks[j]));
    }
    assert forall|i: int| 0 <= i < b.blocks.len() implies {
        let block = #[trigger] b.blocks[i];
        &&& 0 <= block.piece_index < b.pieces.len()
        &&& 0 <= block.file_index < b.files.len()
        &&& lists(b.files[block.file_index], id_of(block))
    } by {
        let block = a.blocks[i];
        assert(lists(a.files[block.file_index], id_of(block)));
        let k = choose|k: int|
            0 <= k < a.files[block.file_index].block_ids.len()
                && #[trigger] a.files[block.file_index].block_ids[k] == id_of(block);
        assert(b.files[block.file_index].block_ids[k] == id_of(b.blocks[i]));
    }
    assert forall|f: int, k: int|
        0 <= f < b.files.len() && 0 <= k < b.files[f].block_ids.len() implies has_block(
        b.blocks,
        #[trigger] b.files[f].block_ids[k],
    ) by {
        let id = a.files[f].block_ids[k];
        assert(has_block(a.blocks, id));
        let i = choose|i: int| 0 <= i < a.blocks.len() && is_block(#[trigger] a.blocks[i], id);
        assert(is_block(b.blocks[i], id));
    }
}

/// Blocks at the same place are one block.
pub proof fn lemma_one_block(blocks: Seq<BlockView>, i: int, j: int, id: BlockId)
    requires
        blocks_in_order(blocks),
        0 <= i < blocks.len(),
        0 <= j < blocks.len(),
        is_block(blocks[i], id),
        is_block(blocks[j], id),
    ensures
        i == j,
{
    if i < j {
        assert(comes_before(blocks[i], blocks[j]));
    } else if j < i {
        assert(comes_before(blocks[j], blocks[i]));
    }
}

impl Torrent {
    /// The parts of the torrent fit together.
    pub open spec fn wf(&self) -> bool {
        is_whole(self@)
    }

    /// Where the block at this place is in the list of blocks.
    pub fn find_block(&self, id: BlockId) -> (found: Option<usize>)
        requires
            blocks_in_order(self@.blocks),
        ensures
            match found {
                Some(i) => i < self.blocks@.len() && is_block(self@.blocks[i as int], id),
                None => !has_block(self@.blocks, id),
            },
    {
        let ghost blocks = self@.blocks;
        let mut low: usize = 0;
        let mut high: usize = self.blocks.len();
        while low < high
            invariant
                blocks == self@.blocks,
                blocks_in_order(blocks),
                low <= high <= self.blocks@.len(),
                forall|i: int| 0 <= i < low ==> !is_block(#[trigger] blocks[i], id),
                forall|i: int| high <= i < blocks.len() ==> !is_block(#[trigger] blocks[i], id),
            decreases high - low,
        {
            let middle: usize = low + (high - low) / 2;
            let block = &self.blocks[middle];
            assert(blocks[middle as int] == block@);
            if block.piece_index == id.piece_index && block.begin == id.begin {
                return Some(middle);
            }
            if block.piece_index < id.piece_index || (block.piece_index == id.piece_index
                && block.begin < id.begin) {
                assert forall|i: int| 0 <= i <= middle implies !is_block(
                    #[trigger] blocks[i],
                    id,
                ) by {
                    if i < middle {
                        assert(comes_before(blocks[i], blocks[middle as int]));
                    }
                }
                low = middle + 1;
            } else {
                assert forall|i: int| middle <= i < blocks.len() implies !is_block(
                    #[trigger] blocks[i],
                    id,
                ) by {
                    if i > middle {
                        assert(comes_before(blocks[middle as int], blocks[i]));
                    }
                }
                high = middle;
            }
        }
        None
    }
}

} // verus!
