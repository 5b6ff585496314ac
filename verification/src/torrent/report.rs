//! What is shown of a torrent.

use vstd::prelude::*;
use vstd::string::*;

use super::formatter::{block_id, block_id_is_injective, get_block_id};
use super::models::{blocks_in_order, comes_before, is_persisted, BlockView, FileView, Torrent};
use crate::order::{char_views, lemma_by_texts, sort_by_texts, text_at_most};
use crate::text::chars_of;

verus! {

/// A name, and two things that are true of what it names or not.
pub open spec fn flagged_views(list: Seq<(String, bool, bool)>) -> Seq<(Seq<char>, bool, bool)> {
    Seq::new(list.len(), |i: int| (list[i].0@, list[i].1, list[i].2))
}

/// What is shown of a file: its path in the torrent, whether it is written and whether it is
/// verified.
pub open spec fn file_shown(file: FileView) -> (Seq<char>, bool, bool) {
    (file.relative_path, file.path is Some, file.verified)
}

pub open spec fn files_shown(files: Seq<FileView>) -> Seq<(Seq<char>, bool, bool)> {
    Seq::new(files.len(), |f: int| file_shown(files[f]))
}

/// What is shown of a block: its name, whether its data is on disk and whether it is
/// verified.
pub open spec fn block_shown(block: BlockView) -> (Seq<char>, bool, bool) {
    (
        block_id(block.piece_index as usize, block.begin as usize),
        is_persisted(block.data_status),
        block.verified,
    )
}

/// One name comes before the other.
pub open spec fn name_before(a: (Seq<char>, bool, bool), b: (Seq<char>, bool, bool)) -> bool {
    text_at_most(a.0, b.0) && a.0 != b.0
}

/// One of the blocks is shown like this.
pub open spec fn shows_a_block(entry: (Seq<char>, bool, bool), blocks: Seq<BlockView>) -> bool {
    exists|i: int| 0 <= i < blocks.len() && entry == block_shown(#[trigger] blocks[i])
}

/// What is shown of the blocks: every one of them once, in the order of their names.
pub open spec fn shows_blocks(
    shown: Seq<(Seq<char>, bool, bool)>,
    blocks: Seq<BlockView>,
) -> bool {
    &&& shown.len() == blocks.len()
    &&& forall|i: int|
        0 <= i < blocks.len() ==> shown.contains(block_shown(#[trigger] blocks[i]))
    &&& forall|k: int| 0 <= k < shown.len() ==> shows_a_block(#[trigger] shown[k], blocks)
    &&& forall|j: int, k: int|
        0 <= j < k < shown.len() ==> name_before(#[trigger] shown[j], #[trigger] shown[k])
}

/// What is shown of the files of a torrent.
pub fn show_files(torrent: &Torrent) -> (shown: Vec<(String, bool, bool)>)
    ensures
        flagged_views(shown@) == files_shown(torrent@.files),
{
    let ghost all = files_shown(torrent@.files);
    let mut shown: Vec<(String, bool, bool)> = Vec::new();
    let mut f: usize = 0;
    assert(flagged_views(shown@) =~= all.take(0));
    while f < torrent.files.len()
        invariant
            f <= torrent.files@.len(),
            all == files_shown(torrent@.files),
            flagged_views(shown@) == all.take(f as int),
        decreases torrent.files@.len() - f,
    {
        let ghost before = flagged_views(shown@);
        let file = &torrent.files[f];
        assert(torrent@.files[f as int] == file@);
        shown.push((file.relative_path.as_str().to_owned(), file.path.is_some(), file.verified));
        proof {
            assert(flagged_views(shown@) =~= before.push(all[f as int]));
            assert(all.take(f + 1) =~= all.take(f as int).push(all[f as int]));
        }
        f = f + 1;
    }
    assert(all.take(f as int) =~= all);
    shown
}

fn block_names(torrent: &Torrent) -> (names: Vec<Vec<char>>)
    ensures
        names@.len() == torrent.blocks@.len(),
        forall|i: int|
            0 <= i < names@.len() ==> (#[trigger] names@[i])@ == block_shown(
                torrent@.blocks[i],
            ).0,
{
    let mut names: Vec<Vec<char>> = Vec::new();
    let mut i: usize = 0;
    while i < torrent.blocks.len()
        invariant
            i <= torrent.blocks@.len(),
            names@.len() == i,
            forall|k: int|
                0 <= k < names@.len() ==> (#[trigger] names@[k])@ == block_shown(
                    torrent@.blocks[k],
                ).0,
        decreases torrent.blocks@.len() - i,
    {
        assert(torrent@.blocks[i as int] == torrent.blocks@[i as int]@);
        let name = get_block_id(torrent.blocks[i].piece_index, torrent.blocks[i].begin);
        names.push(chars_of(name.as_str()));
        i = i + 1;
    }
    names
}

/// What is shown of the blocks of a torrent.
pub fn show_blocks(torrent: &Torrent) -> (shown: Vec<(String, bool, bool)>)
    requires
        blocks_in_order(torrent@.blocks),
    ensures
        shows_blocks(flagged_views(shown@), torrent@.blocks),
{
    let ghost blocks = torrent@.blocks;
    let count: usize = torrent.blocks.len();
    let names = block_names(torrent);
    let ghost texts = char_views(names@);
    let sorted = sort_by_texts(&names);
    proof {
        lemma_by_texts(texts);
    }
    let mut shown: Vec<(String, bool, bool)> = Vec::new();
    let mut k: usize = 0;
    while k < sorted.len()
        invariant
            blocks == torrent@.blocks,
            count == torrent.blocks@.len(),
            k <= sorted@.len(),
            forall|j: int| 0 <= j < sorted@.len() ==> (#[trigger] sorted@[j]) < count,
            flagged_views(shown@).len() == k,
            forall|j: int|
                0 <= j < k ==> #[trigger] flagged_views(shown@)[j] == block_shown(
                    blocks[sorted@[j] as int],
                ),
        decreases sorted@.len() - k,
    {
        let ghost before = flagged_views(shown@);
        let i: usize = sorted[k];
        let block = &torrent.blocks[i];
        assert(blocks[i as int] == block@);
        let name = get_block_id(block.piece_index, block.begin);
        shown.push((name, block.data_status.persisted(), block.verified));
        proof {
            assert(flagged_views(shown@) =~= before.push(block_shown(blocks[i as int])));
        }
        k = k + 1;
    }
    proof {
        let view = flagged_views(shown@);
        assert forall|i: int| 0 <= i < blocks.len() implies view.contains(
            block_shown(#[trigger] blocks[i]),
        ) by {
            let p = i as usize;
            assert(sorted@.contains(p));
            let j = choose|j: int| 0 <= j < sorted@.len() && sorted@[j] == p;
            assert(view[j] == block_shown(blocks[i]));
        }
        assert forall|j: int| 0 <= j < view.len() implies shows_a_block(
            #[trigger] view[j],
            blocks,
        ) by {
            assert(view[j] == block_shown(blocks[sorted@[j] as int]));
        }
        assert forall|j: int, k: int| 0 <= j < k < view.len() implies name_before(
            #[trigger] view[j],
            #[trigger] view[k],
        ) by {
            let a = sorted@[j] as int;
            let b = sorted@[k] as int;
            assert(text_at_most(texts[sorted@[j] as int], texts[sorted@[k] as int]));
            assert(texts[a] == names@[a]@ && texts[b] == names@[b]@);
            assert(a != b);
            if view[j].0 == view[k].0 {
                block_id_is_injective(
                    torrent.blocks@[a].piece_index,
                    torrent.blocks@[a].begin,
                    torrent.blocks@[b].piece_index,
                    torrent.blocks@[b].begin,
                );
                if a < b {
                    assert(comes_before(blocks[a], blocks[b]));
                } else {
                    assert(comes_before(blocks[b], blocks[a]));
                }
            }
        }
    }
    shown
}

} // verus!
