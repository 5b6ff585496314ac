//! What becomes of the data of a torrent: which of it is right, and what is written.

use vstd::prelude::*;

use crate::laws::disk::{same_block, same_but_data};
use crate::path::joined;
use crate::select::{chosen, lemma_chosen, lemma_chosen_same};
use crate::torrent::with_check;
use crate::torrent::formatter::block_id;
use crate::torrent::models::{
    id_of, is_block, is_persisted, BlockId, BlockStatusView, BlockView, FileView, TorrentView,
};
use crate::torrent::state::{temp_dir, unverified_pieces, with_piece_results, with_verification};
use crate::torrent::writer::{
    after_file_step, done_blocks, file_is_done, file_step, files_to_write, is_awaited, is_done,
    is_unfinished, listed_at, piece_blocks, piece_is_there, sources_of, unfinished_files,
    with_arrived_block, FileStepView,
};

verus! {

// ---------------------------------------------------------------------------------------
// What is right

/// One of the results says this of the piece.
pub open spec fn says(results: Seq<(usize, bool)>, piece_index: int, right: bool) -> bool {
    exists|k: int|
        0 <= k < results.len() && (#[trigger] results[k]).0 == piece_index && results[k].1 == right
}

proof fn lemma_says(results: Seq<(usize, bool)>, piece_index: int, right: bool)
    requires
        results.len() > 0,
    ensures
        says(results, piece_index, right) == (says(results.drop_last(), piece_index, right) || (
        results.last().0 == piece_index && results.last().1 == right)),
{
    let fewer = results.drop_last();
    if says(fewer, piece_index, right) {
        let k = choose|k: int|
            0 <= k < fewer.len() && (#[trigger] fewer[k]).0 == piece_index && fewer[k].1 == right;
        assert(results[k] == fewer[k]);
    }
    if says(results, piece_index, right) {
        let k = choose|k: int|
            0 <= k < results.len() && (#[trigger] results[k]).0 == piece_index && results[k].1
                == right;
        if k < fewer.len() {
            assert(fewer[k] == results[k]);
        }
    }
    assert(results[results.len() - 1] == results.last());
}

proof fn lemma_results(blocks: Seq<BlockView>, results: Seq<(usize, bool)>, i: int)
    requires
        0 <= i < blocks.len(),
    ensures
        ({
            let after = with_piece_results(blocks, results);
            let piece_index = blocks[i].piece_index;
            &&& after.len() == blocks.len()
            &&& same_block(after[i], blocks[i])
            &&& after[i].verified == (blocks[i].verified || says(results, piece_index, true))
            &&& after[i].data_status == if says(results, piece_index, false) {
                BlockStatusView::Pending
            } else {
                blocks[i].data_status
            }
        }),
    decreases results.len(),
{
    if results.len() > 0 {
        lemma_results(blocks, results.drop_last(), i);
        lemma_says(results, blocks[i].piece_index, true);
        lemma_says(results, blocks[i].piece_index, false);
    }
}

/// The blocks of a piece that turned out right are verified. Those of one that turned out
/// wrong are to be downloaded again. Nothing else is changed of a block, and none of another
/// piece.
pub proof fn results_are_of_the_blocks_of_their_piece(
    t: TorrentView,
    results: Seq<(usize, bool)>,
    i: int,
)
    requires
        0 <= i < t.blocks.len(),
    ensures
        ({
            let after = with_verification(t, results);
            let before = t.blocks[i];
            &&& same_but_data(after, t)
            &&& after.blocks.len() == t.blocks.len()
            &&& same_block(after.blocks[i], before)
            &&& after.blocks[i].verified <==> (before.verified || says(
                results,
                before.piece_index,
                true,
            ))
            &&& says(results, before.piece_index, false) ==> after.blocks[i].data_status is Pending
            &&& !says(results, before.piece_index, false) ==> after.blocks[i].data_status
                == before.data_status
        }),
{
    lemma_results(t.blocks, results, i);
}

/// A file is verified from when it is written and each of its blocks is verified. Nothing
/// else is changed of it.
pub proof fn files_are_verified_with_their_blocks(
    t: TorrentView,
    results: Seq<(usize, bool)>,
    f: int,
)
    requires
        0 <= f < t.files.len(),
        t.files[f].index == f,
    ensures
        ({
            let after = with_verification(t, results);
            &&& after.files.len() == t.files.len()
            &&& after.files[f] == (FileView { verified: after.files[f].verified, ..t.files[f] })
            &&& after.files[f].verified <==> (t.files[f].verified || (t.files[f].path is Some
                && forall|i: int|
                0 <= i < t.blocks.len() && (#[trigger] t.blocks[i]).file_index == f ==> (
                t.blocks[i].verified || says(results, t.blocks[i].piece_index, true))))
        }),
{
    let blocks = with_piece_results(t.blocks, results);
    assert(blocks.len() == t.blocks.len()) by {
        lemma_results_length(t.blocks, results);
    }
    assert forall|i: int| 0 <= i < t.blocks.len() implies {
        &&& (#[trigger] blocks[i]).file_index == t.blocks[i].file_index
        &&& blocks[i].verified == (t.blocks[i].verified || says(
            results,
            t.blocks[i].piece_index,
            true,
        ))
    } by {
        lemma_results(t.blocks, results, i);
    }
    if forall|i: int|
        0 <= i < t.blocks.len() && (#[trigger] t.blocks[i]).file_index == f ==> (
        t.blocks[i].verified || says(results, t.blocks[i].piece_index, true)) {
        assert forall|i: int|
            0 <= i < blocks.len() && (#[trigger] blocks[i]).file_index == f implies
            blocks[i].verified by {
            assert(t.blocks[i].file_index == f);
        }
    } else {
        let i = choose|i: int|
            0 <= i < t.blocks.len() && (#[trigger] t.blocks[i]).file_index == f && !(
            t.blocks[i].verified || says(results, t.blocks[i].piece_index, true));
        assert(blocks[i].file_index == f && !blocks[i].verified);
    }
}

proof fn lemma_results_length(blocks: Seq<BlockView>, results: Seq<(usize, bool)>)
    ensures
        with_piece_results(blocks, results).len() == blocks.len(),
    decreases results.len(),
{
    if results.len() > 0 {
        lemma_results_length(blocks, results.drop_last());
    }
}

/// A piece that was looked at is noted as right or wrong; one that was not all there changes
/// nothing.
pub proof fn checks_are_of_one_piece(
    t: TorrentView,
    piece_index: usize,
    right: Option<bool>,
    i: int,
)
    requires
        0 <= i < t.blocks.len(),
    ensures
        ({
            let after = with_check(t, piece_index, right);
            let before = t.blocks[i];
            &&& same_but_data(after, t)
            &&& right is None ==> after == t
            &&& before.piece_index != piece_index ==> after.blocks[i] == before
            &&& before.piece_index == piece_index && right == Some(true) ==> after.blocks[i] == (
            BlockView { verified: true, ..before })
            &&& before.piece_index == piece_index && right == Some(false) ==> after.blocks[i] == (
            BlockView { data_status: BlockStatusView::Pending, ..before })
        }),
{
    if let Some(right) = right {
        let results = seq![(piece_index, right)];
        assert(results[0] == (piece_index, right));
        lemma_results(t.blocks, results, i);
    }
}

// ---------------------------------------------------------------------------------------
// What is listed

/// The list has every position below `n` that is wanted, each once, from the first on.
pub open spec fn lists_all(list: Seq<usize>, n: int, wanted: spec_fn(int) -> bool) -> bool {
    &&& forall|k: int| 0 <= k < list.len() ==> (#[trigger] list[k]) < n && wanted(list[k] as int)
    &&& forall|p: usize| p < n && #[trigger] wanted(p as int) ==> list.contains(p)
    &&& forall|j: int, k: int| 0 <= j < k < list.len() ==> #[trigger] list[j] < #[trigger] list[k]
}

proof fn lemma_lists_all(n: int, stated: spec_fn(int) -> bool, wanted: spec_fn(int) -> bool)
    requires
        0 <= n <= usize::MAX,
        forall|i: int| 0 <= i < n ==> #[trigger] stated(i) == wanted(i),
    ensures
        lists_all(chosen(n, wanted), n, stated),
        chosen(n, wanted) == chosen(n, stated),
{
    assert forall|i: int| 0 <= i < n implies #[trigger] wanted(i) == stated(i) by {
        assert(stated(i) == wanted(i));
    }
    lemma_chosen_same(n, wanted, stated);
    lemma_chosen(n, stated);
}

proof fn lemma_one_list(list: Seq<usize>, n: int, wanted: spec_fn(int) -> bool)
    requires
        0 <= n <= usize::MAX,
        lists_all(list, n, wanted),
    ensures
        list == chosen(n, wanted),
    decreases n,
{
    if n > 0 {
        let last = (n - 1) as usize;
        if wanted(n - 1) {
            assert(wanted(last as int));
            assert(list.contains(last));
            let k = choose|k: int| 0 <= k < list.len() && list[k] == last;
            if k < list.len() - 1 {
                assert(list[k] < list[list.len() - 1]);
            }
            let fewer = list.drop_last();
            assert forall|j: int| 0 <= j < fewer.len() implies (#[trigger] fewer[j]) < n - 1
                && wanted(fewer[j] as int) by {
                assert(list[j] < list[list.len() - 1]);
            }
            assert forall|p: usize| p < n - 1 && #[trigger] wanted(
                p as int,
            ) implies fewer.contains(p) by {
                assert(list.contains(p));
                let j = choose|j: int| 0 <= j < list.len() && list[j] == p;
                assert(fewer[j] == p);
            }
            assert(lists_all(fewer, n - 1, wanted));
            lemma_one_list(fewer, n - 1, wanted);
            assert(list =~= fewer.push(last));
        } else {
            assert forall|j: int| 0 <= j < list.len() implies (#[trigger] list[j]) < n - 1
                && wanted(list[j] as int) by {
                if list[j] == n - 1 {
                    assert(wanted(list[j] as int));
                }
            }
            assert(lists_all(list, n - 1, wanted));
            lemma_one_list(list, n - 1, wanted);
        }
    } else {
        if list.len() > 0 {
            assert(list[0] < n);
        }
        assert(list =~= chosen(n, wanted));
    }
}

/// The pieces to look at are those of the blocks that are not verified, from the first block
/// on, for no more blocks than asked for.
pub proof fn unverified_blocks_have_their_piece_looked_at(
    t: TorrentView,
    list: Seq<usize>,
    max: int,
)
    requires
        0 <= max,
        t.blocks.len() <= usize::MAX,
        lists_all(list, t.blocks.len() as int, |i: int| !t.blocks[i].verified),
    ensures
        unverified_pieces(t, max).len() == if list.len() <= max {
            list.len() as int
        } else {
            max
        },
        forall|k: int|
            0 <= k < unverified_pieces(t, max).len() ==> #[trigger] unverified_pieces(t, max)[k]
                == t.blocks[list[k] as int].piece_index,
{
    lemma_one_list(list, t.blocks.len() as int, |i: int| !t.blocks[i].verified);
}

/// The data of a block that is on disk, of one kind or the other.
pub open spec fn is_on_disk(block: BlockView) -> bool {
    match block.data_status {
        BlockStatusView::Pending => false,
        BlockStatusView::Requested(_) => false,
        BlockStatusView::PersistedSeparately(_) => true,
        BlockStatusView::PersistedInFile => true,
    }
}

/// A piece is there once the data of each of its blocks is on disk, and its data is that of
/// its blocks, one after the other.
pub proof fn pieces_are_their_blocks(t: TorrentView, piece_index: int)
    requires
        t.blocks.len() <= usize::MAX,
    ensures
        piece_is_there(t, piece_index) <==> forall|i: int|
            0 <= i < t.blocks.len() && (#[trigger] t.blocks[i]).piece_index == piece_index
                ==> is_on_disk(t.blocks[i]),
        lists_all(
            piece_blocks(t, piece_index),
            t.blocks.len() as int,
            |i: int| t.blocks[i].piece_index == piece_index,
        ),
{
    let wanted = |i: int| t.blocks[i].piece_index == piece_index;
    lemma_lists_all(t.blocks.len() as int, wanted, wanted);
    if piece_is_there(t, piece_index) {
        assert forall|i: int|
            0 <= i < t.blocks.len() && (#[trigger] t.blocks[i]).piece_index
                == piece_index implies is_on_disk(t.blocks[i]) by {
            assert(is_persisted(t.blocks[i].data_status));
        }
    }
}

/// The blocks of a file that are done are those whose data is on disk and verified.
pub proof fn files_are_made_of_verified_blocks(t: TorrentView, f: int)
    requires
        t.blocks.len() <= usize::MAX,
    ensures
        lists_all(
            done_blocks(t, f),
            t.blocks.len() as int,
            |i: int| t.blocks[i].file_index == f && is_on_disk(t.blocks[i]) && t.blocks[i].verified,
        ),
{
    let stated = |i: int|
        t.blocks[i].file_index == f && is_on_disk(t.blocks[i]) && t.blocks[i].verified;
    lemma_lists_all(t.blocks.len() as int, stated, |i: int| is_done(t.blocks[i], f));
    assert(lists_all(
        done_blocks(t, f),
        t.blocks.len() as int,
        |i: int| t.blocks[i].file_index == f && is_on_disk(t.blocks[i]) && t.blocks[i].verified,
    ));
}

// ---------------------------------------------------------------------------------------
// What is written

/// A block that arrives goes to a file of its own, which has its name, in the directory for
/// blocks. It is of use where its data is not on disk yet.
pub proof fn blocks_go_to_files_of_their_own(t: TorrentView, id: BlockId, i: int)
    requires
        0 <= i < t.blocks.len(),
    ensures
        ({
            let after = with_arrived_block(t, id);
            let before = t.blocks[i];
            let own = before.piece_index == id.piece_index && before.begin == id.begin;
            &&& same_but_data(after, t)
            &&& after.files == t.files
            &&& after.blocks.len() == t.blocks.len()
            &&& !own ==> after.blocks[i] == before
            &&& own ==> after.blocks[i] == (BlockView {
                data_status: BlockStatusView::PersistedSeparately(
                    joined(temp_dir(t), block_id(id.piece_index, id.begin)),
                ),
                ..before
            })
            &&& is_awaited(t, id) <==> exists|k: int|
                0 <= k < t.blocks.len() && (#[trigger] t.blocks[k]).piece_index == id.piece_index
                    && t.blocks[k].begin == id.begin && !is_on_disk(t.blocks[k])
        }),
{
    if exists|k: int|
        0 <= k < t.blocks.len() && (#[trigger] t.blocks[k]).piece_index == id.piece_index
            && t.blocks[k].begin == id.begin && !is_on_disk(t.blocks[k]) {
        let k = choose|k: int|
            0 <= k < t.blocks.len() && (#[trigger] t.blocks[k]).piece_index == id.piece_index
                && t.blocks[k].begin == id.begin && !is_on_disk(t.blocks[k]);
        assert(is_block(t.blocks[k], id));
        assert(!is_persisted(t.blocks[k].data_status));
    }
}

proof fn lemma_first_listed(ids: Seq<BlockId>, id: BlockId, j: int)
    requires
        0 <= j < ids.len(),
        ids[j] == id,
        forall|k: int| 0 <= k < j ==> #[trigger] ids[k] != id,
    ensures
        listed_at(ids, id) == j,
    decreases ids.len(),
{
    if j > 0 {
        assert(ids[0] != id);
        let rest = ids.skip(1);
        assert forall|k: int| 0 <= k < j - 1 implies #[trigger] rest[k] != id by {
            assert(rest[k] == ids[k + 1]);
        }
        lemma_first_listed(rest, id, j - 1);
    }
}

/// The data of a block is read where it is: all of a file of its own, or as much of its file,
/// from where the file lists it on.
pub proof fn blocks_are_read_where_they_are(t: TorrentView, positions: Seq<usize>, k: int, j: int)
    requires
        0 <= k < positions.len(),
    ensures
        ({
            let sources = sources_of(t, positions);
            let block = t.blocks[positions[k] as int];
            let file = t.files[block.file_index];
            let id = BlockId {
                piece_index: block.piece_index as usize,
                begin: block.begin as usize,
            };
            &&& sources.len() == positions.len()
            &&& sources[k].length == block.length
            &&& match block.data_status {
                BlockStatusView::PersistedSeparately(path) => {
                    &&& sources[k].path == path
                    &&& sources[k].offset == 0
                    &&& !sources[k].in_file
                },
                BlockStatusView::PersistedInFile => {
                    &&& file.path is Some ==> sources[k].path == file.path->0
                    &&& sources[k].in_file
                    &&& 0 <= j < file.block_ids.len() && file.block_ids[j] == id && (forall|
                        i: int,
                    |
                        0 <= i < j ==> #[trigger] file.block_ids[i] != id) ==> sources[k].offset
                        == file.block_ids_pos[j].0
                },
                _ => true,
            }
        }),
{
    let block = t.blocks[positions[k] as int];
    let ids = t.files[block.file_index].block_ids;
    let id = id_of(block);
    if 0 <= j < ids.len() && ids[j] == id && (forall|i: int| 0 <= i < j ==> #[trigger] ids[i] != id)
    {
        lemma_first_listed(ids, id, j);
    }
}

/// A file is written once as many of its blocks are done as it lists, from these blocks in
/// the order of their places, to its path at the destination. One that is written is kept.
/// Either way it is verified from then on; while blocks are missing, nothing is done.
pub proof fn files_are_written_from_all_their_blocks(t: TorrentView, f: int)
    requires
        0 <= f < t.files.len(),
        t.files[f].index == f,
    ensures
        ({
            let done = done_blocks(t, f);
            let file = t.files[f];
            let after = after_file_step(t, f);
            &&& done.len() != file.block_ids.len() ==> file_step(t, f) is Wait && after == t
            &&& done.len() == file.block_ids.len() && file.path is Some ==> file_step(t, f) is Keep
            &&& done.len() == file.block_ids.len() && file.path is None ==> file_step(t, f)
                == FileStepView::Write(
                joined(t.dest_path, file.relative_path),
                sources_of(t, done),
            )
            &&& done.len() == file.block_ids.len() ==> {
                &&& after.files == t.files.update(f, FileView { verified: true, ..file })
                &&& after.blocks == t.blocks
                &&& same_but_data(after, t)
            }
        }),
{
}

/// The files to look after are those that are not written or not verified; to write are those
/// of them that have all their blocks, no more than asked for, from the first on.
pub proof fn files_are_written_where_they_are_not(t: TorrentView, list: Seq<usize>, max: int)
    requires
        0 <= max,
        t.files.len() <= usize::MAX,
        forall|f: int| 0 <= f < t.files.len() ==> (#[trigger] t.files[f]).index == f,
        lists_all(
            list,
            t.files.len() as int,
            |f: int|
                (t.files[f].path is None || !t.files[f].verified) && done_blocks(t, f).len()
                    == t.files[f].block_ids.len(),
        ),
    ensures
        lists_all(
            unfinished_files(t),
            t.files.len() as int,
            |f: int| t.files[f].path is None || !t.files[f].verified,
        ),
        files_to_write(t, max) == if list.len() <= max {
            list
        } else {
            list.take(max)
        },
{
    let n = t.files.len() as int;
    let unfinished = |f: int| t.files[f].path is None || !t.files[f].verified;
    lemma_lists_all(n, unfinished, |f: int| is_unfinished(t.files[f]));
    assert(lists_all(
        unfinished_files(t),
        n,
        |f: int| t.files[f].path is None || !t.files[f].verified,
    ));
    let ready = |f: int|
        (t.files[f].path is None || !t.files[f].verified) && done_blocks(t, f).len()
            == t.files[f].block_ids.len();
    lemma_lists_all(n, ready, |f: int| is_unfinished(t.files[f]) && file_is_done(t, f));
    lemma_one_list(list, n, ready);
}

} // verus!
