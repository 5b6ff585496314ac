//! What of a torrent is on disk, found one thing at a time.

use vstd::prelude::*;
use vstd::string::*;

use crate::torrent::formatter::{block_id_is_injective, parse_block_id};
use crate::torrent::models::{
    blocks_in_order, is_block, is_persisted, is_whole, lemma_one_block, BlockId, BlockView,
    FileView, Torrent, TorrentView,
};
use crate::torrent::state::{
    entry_views, file_at, is_named, lemma_file_at, DiskEntry, DiskEntryView,
};

verus! {

/// What was on disk when it was looked at.
#[derive(Debug)]
pub struct DiskChecker {
    pub temp_path: String,
    pub dest_path: String,
    pub temp_path_entries: Vec<DiskEntry>,
    pub dest_path_entries: Vec<DiskEntry>,
}

/// What was found.
#[derive(Debug)]
pub enum Event {
    /// The block with this name, in a file of its own.
    BlockPersistedSeparately(String, String),
    /// The file with this index.
    FilePersistedPermanently(usize, String),
}

pub enum EventView {
    BlockPersistedSeparately(Seq<char>, Seq<char>),
    FilePersistedPermanently(int, Seq<char>),
}

impl View for Event {
    type V = EventView;

    open spec fn view(&self) -> EventView {
        match self {
            Event::BlockPersistedSeparately(name, path) => EventView::BlockPersistedSeparately(
                name@,
                path@,
            ),
            Event::FilePersistedPermanently(index, path) => EventView::FilePersistedPermanently(
                *index as int,
                path@,
            ),
        }
    }
}

pub open spec fn event_view(event: Option<Event>) -> Option<EventView> {
    match event {
        Some(event) => Some(event@),
        None => None,
    }
}

/// The entry is a block of the torrent that was not known to be on disk.
pub open spec fn is_new_block(blocks: Seq<BlockView>, name: Seq<char>) -> bool {
    exists|i: int|
        0 <= i < blocks.len() && is_named(#[trigger] blocks[i], name) && !is_persisted(
            blocks[i].data_status,
        )
}

/// The first block among the entries from `i` on that was not known to be on disk.
pub open spec fn block_among(
    entries: Seq<DiskEntryView>,
    i: int,
    blocks: Seq<BlockView>,
) -> Option<EventView>
    decreases entries.len() - i,
{
    if i >= entries.len() {
        None
    } else if is_new_block(blocks, entries[i].name) {
        Some(EventView::BlockPersistedSeparately(entries[i].name, entries[i].path))
    } else {
        block_among(entries, i + 1, blocks)
    }
}

/// The entry is a file of the torrent that was not known to be written, as long as the
/// torrent says.
pub open spec fn is_new_file(base: Seq<char>, files: Seq<FileView>, entry: DiskEntryView) -> bool {
    match file_at(base, files, entry.path) {
        Some(f) => files[f].path is None && files[f].length == entry.length,
        None => false,
    }
}

/// The first file among the entries from `i` on that was not known to be written.
pub open spec fn file_among(
    base: Seq<char>,
    entries: Seq<DiskEntryView>,
    i: int,
    files: Seq<FileView>,
) -> Option<EventView>
    decreases entries.len() - i,
{
    if i >= entries.len() {
        None
    } else if is_new_file(base, files, entries[i]) {
        Some(
            EventView::FilePersistedPermanently(
                files[file_at(base, files, entries[i].path)->0].index,
                entries[i].path,
            ),
        )
    } else {
        file_among(base, entries, i + 1, files)
    }
}

/// What is found next: a block, or else a file.
pub open spec fn found_next(checker: DiskChecker, t: TorrentView) -> Option<EventView> {
    match block_among(entry_views(checker.temp_path_entries@), 0, t.blocks) {
        Some(event) => Some(event),
        None => file_among(
            checker.dest_path@,
            entry_views(checker.dest_path_entries@),
            0,
            t.files,
        ),
    }
}

proof fn lemma_file_among(
    base: Seq<char>,
    entries: Seq<DiskEntryView>,
    i: int,
    files: Seq<FileView>,
)
    requires
        files.len() <= usize::MAX,
        forall|f: int| 0 <= f < files.len() ==> (#[trigger] files[f]).index == f,
    ensures
        match file_among(base, entries, i, files) {
            Some(EventView::FilePersistedPermanently(f, _)) => 0 <= f < files.len()
                && files[f].path is None,
            Some(_) => false,
            None => true,
        },
    decreases entries.len() - i,
{
    if i < entries.len() {
        if is_new_file(base, files, entries[i]) {
            lemma_file_at(base, files, entries[i].path);
        } else {
            lemma_file_among(base, entries, i + 1, files);
        }
    }
}

proof fn lemma_block_among(entries: Seq<DiskEntryView>, i: int, blocks: Seq<BlockView>)
    ensures
        match block_among(entries, i, blocks) {
            Some(EventView::BlockPersistedSeparately(name, _)) => is_new_block(blocks, name),
            Some(_) => false,
            None => true,
        },
    decreases entries.len() - i,
{
    if i < entries.len() && !is_new_block(blocks, entries[i].name) {
        lemma_block_among(entries, i + 1, blocks);
    }
}

/// What is found is of the torrent, and was not known.
pub proof fn lemma_found_next(checker: DiskChecker, t: TorrentView)
    requires
        is_whole(t),
        t.files.len() <= usize::MAX,
    ensures
        match found_next(checker, t) {
            Some(EventView::BlockPersistedSeparately(name, _)) => is_new_block(t.blocks, name),
            Some(EventView::FilePersistedPermanently(f, _)) => 0 <= f < t.files.len()
                && t.files[f].path is None,
            None => true,
        },
{
    lemma_block_among(entry_views(checker.temp_path_entries@), 0, t.blocks);
    lemma_file_among(
        checker.dest_path@,
        entry_views(checker.dest_path_entries@),
        0,
        t.files,
    );
}

fn names_new_block(torrent: &Torrent, name: &str) -> (names: bool)
    requires
        blocks_in_order(torrent@.blocks),
    ensures
        names == is_new_block(torrent@.blocks, name@),
{
    let ghost blocks = torrent@.blocks;
    if let Some((piece_index, begin)) = parse_block_id(name) {
        let id = BlockId { piece_index, begin };
        let found = torrent.find_block(id);
        proof {
            assert forall|i: int|
                0 <= i < blocks.len() && is_named(#[trigger] blocks[i], name@) implies is_block(
                blocks[i],
                id,
            ) by {
                block_id_is_injective(
                    torrent.blocks@[i].piece_index,
                    torrent.blocks@[i].begin,
                    piece_index,
                    begin,
                );
            }
        }
        if let Some(k) = found {
            assert(blocks[k as int] == torrent.blocks@[k as int]@);
            assert(is_named(blocks[k as int], name@));
            let new = !torrent.blocks[k].data_status.persisted();
            proof {
                assert forall|i: int|
                    0 <= i < blocks.len() && is_named(#[trigger] blocks[i], name@) implies i
                    == k by {
                    lemma_one_block(blocks, i, k as int, id);
                }
            }
            return new;
        }
    }
    false
}

impl DiskChecker {
    /// What is in the directory for the blocks of a torrent, and at its destination.
    pub fn new(
        temp_path: String,
        dest_path: String,
        temp_path_entries: Vec<DiskEntry>,
        dest_path_entries: Vec<DiskEntry>,
    ) -> (checker: Self)
        ensures
            checker == (DiskChecker {
                temp_path,
                dest_path,
                temp_path_entries,
                dest_path_entries,
            }),
    {
        DiskChecker { temp_path, dest_path, temp_path_entries, dest_path_entries }
    }

    fn sync_temp_blocks(&self, torrent: &Torrent) -> (event: Option<Event>)
        requires
            blocks_in_order(torrent@.blocks),
        ensures
            event_view(event) == block_among(
                entry_views(self.temp_path_entries@),
                0,
                torrent@.blocks,
            ),
    {
        let ghost entries = entry_views(self.temp_path_entries@);
        let mut i: usize = 0;
        while i < self.temp_path_entries.len()
            invariant
                i <= self.temp_path_entries@.len(),
                entries == entry_views(self.temp_path_entries@),
                blocks_in_order(torrent@.blocks),
                block_among(entries, 0, torrent@.blocks) == block_among(
                    entries,
                    i as int,
                    torrent@.blocks,
                ),
            decreases self.temp_path_entries@.len() - i,
        {
            let entry = &self.temp_path_entries[i];
            assert(entries[i as int] == entry@);
            if names_new_block(torrent, entry.name.as_str()) {
                return Some(
                    Event::BlockPersistedSeparately(
                        entry.name.as_str().to_owned(),
                        entry.path.as_str().to_owned(),
                    ),
                );
            }
            i = i + 1;
        }
        None
    }

    fn sync_complete_files(&self, torrent: &Torrent) -> (event: Option<Event>)
        ensures
            event_view(event) == file_among(
                self.dest_path@,
                entry_views(self.dest_path_entries@),
                0,
                torrent@.files,
            ),
    {
        let ghost entries = entry_views(self.dest_path_entries@);
        let ghost files = torrent@.files;
        let mut i: usize = 0;
        while i < self.dest_path_entries.len()
            invariant
                i <= self.dest_path_entries@.len(),
                entries == entry_views(self.dest_path_entries@),
                files == torrent@.files,
                file_among(self.dest_path@, entries, 0, files) == file_among(
                    self.dest_path@,
                    entries,
                    i as int,
                    files,
                ),
            decreases self.dest_path_entries@.len() - i,
        {
            let entry = &self.dest_path_entries[i];
            assert(entries[i as int] == entry@);
            if let Some(f) = torrent.find_file(self.dest_path.as_str(), entry.path.as_str()) {
                let file = &torrent.files[f];
                assert(files[f as int] == file@);
                if file.path.is_none() && file.length as u64 == entry.length {
                    return Some(
                        Event::FilePersistedPermanently(
                            file.index,
                            entry.path.as_str().to_owned(),
                        ),
                    );
                }
            }
            i = i + 1;
        }
        None
    }

    /// What of the torrent is found on disk that was not known.
    pub fn sync_with_disk(&self, torrent: &Torrent) -> (event: Option<Event>)
        requires
            blocks_in_order(torrent@.blocks),
        ensures
            event_view(event) == found_next(*self, torrent@),
    {
        match self.sync_temp_blocks(torrent) {
            Some(event) => Some(event),
            None => self.sync_complete_files(torrent),
        }
    }
}

} // verus!
