//! What it means that a torrent is verified.

use vstd::prelude::*;
use vstd::seq_lib::*;
use vstd::set_lib::*;

use super::event_processor::after_event;
use super::models::{comes_before, id_of, is_whole, lists, BlockId, BlockView, Torrent, TorrentView};
use super::scheduler::{is_round_of, with_request};
use super::state::{
    blocks_verified, lemma_file_at, new_torrent, with_dest_entries, with_piece_results,
    with_temp_entries, with_verification, DiskEntryView,
};
use super::writer::{
    after_file_step, file_is_done, is_done, is_unfinished, unfinished_files, with_arrived_block,
};
use crate::bencode::MetaInfoView;
use crate::peer::EventView;
use crate::round::RoundView;
use crate::select::{chosen, lemma_chosen, lemma_chosen_fewer};

verus! {

/// A file that is verified has no block that is not.
pub open spec fn files_are_sound(t: TorrentView) -> bool {
    forall|f: int|
        0 <= f < t.files.len() && (#[trigger] t.files[f]).verified ==> blocks_verified(t.blocks, f)
}

proof fn lemma_own_blocks(torrent: Torrent, f: int)
    requires
        torrent.wf(),
        0 <= f < torrent@.files.len(),
    ensures
        chosen(torrent@.blocks.len() as int, |i: int| torrent@.blocks[i].file_index == f).len()
            <= torrent@.files[f].block_ids.len(),
{
    let t = torrent@;
    let n = t.blocks.len() as int;
    let owned = |i: int| t.blocks[i].file_index == f;
    let positions = chosen(n, owned);
    let length: usize = torrent.blocks.len();
    lemma_chosen(n, owned);
    let ids = positions.map_values(|i: usize| id_of(t.blocks[i as int]));
    let listed = t.files[f].block_ids;
    assert forall|j: int, k: int| 0 <= j < ids.len() && 0 <= k < ids.len() && j != k implies ids[j]
        != ids[k] by {
        let a = positions[j] as int;
        let b = positions[k] as int;
        assert(t.blocks[a] == torrent.blocks@[a]@);
        assert(t.blocks[b] == torrent.blocks@[b]@);
        if a < b {
            assert(comes_before(t.blocks[a], t.blocks[b]));
        } else {
            assert(comes_before(t.blocks[b], t.blocks[a]));
        }
    }
    assert forall|id: BlockId| ids.to_set().contains(id) implies listed.to_set().contains(id) by {
        let j = choose|j: int| 0 <= j < ids.len() && ids[j] == id;
        let i = positions[j] as int;
        assert(lists(t.files[f], id_of(t.blocks[i])));
    }
    ids.unique_seq_to_set();
    listed.lemma_cardinality_of_set();
    seq_to_set_is_finite(listed);
    lemma_len_subset(ids.to_set(), listed.to_set());
}

/// A file that is done has all its blocks verified.
pub proof fn a_done_file_is_verified(torrent: Torrent, f: int)
    requires
        torrent.wf(),
        0 <= f < torrent@.files.len(),
        file_is_done(torrent@, f),
    ensures
        blocks_verified(torrent@.blocks, f),
{
    let t = torrent@;
    let n = t.blocks.len() as int;
    let owned = |i: int| t.blocks[i].file_index == f;
    let done = |i: int| is_done(t.blocks[i], f);
    assert(t.files[f].index == f);
    lemma_own_blocks(torrent, f);
    lemma_chosen_fewer(n, done, owned);
    assert forall|i: int|
        0 <= i < n && (#[trigger] t.blocks[i]).file_index == f implies t.blocks[i].verified by {
        assert(owned(i));
        assert(done(i));
    }
}

/// Nothing of the torrent is verified.
pub open spec fn is_unverified(t: TorrentView) -> bool {
    &&& forall|f: int| 0 <= f < t.files.len() ==> !(#[trigger] t.files[f]).verified
    &&& forall|i: int| 0 <= i < t.blocks.len() ==> !(#[trigger] t.blocks[i]).verified
}

proof fn lemma_temp_entries_are_unverified(t: TorrentView, entries: Seq<DiskEntryView>)
    requires
        is_unverified(t),
    ensures
        is_unverified(with_temp_entries(t, entries)),
        with_temp_entries(t, entries).files == t.files,
    decreases entries.len(),
{
    if entries.len() > 0 {
        lemma_temp_entries_are_unverified(t, entries.drop_last());
    }
}

proof fn lemma_dest_entries_are_unverified(t: TorrentView, entries: Seq<DiskEntryView>)
    requires
        is_unverified(t),
        t.files.len() <= usize::MAX,
    ensures
        is_unverified(with_dest_entries(t, entries)),
        with_dest_entries(t, entries).files.len() == t.files.len(),
    decreases entries.len(),
{
    if entries.len() > 0 {
        lemma_dest_entries_are_unverified(t, entries.drop_last());
        let before = with_dest_entries(t, entries.drop_last());
        lemma_file_at(before.dest_path, before.files, entries.last().path);
    }
}

/// A torrent starts with nothing verified, whatever of it is found on disk.
pub proof fn what_is_found_is_verified_anew(
    client_id: Seq<u8>,
    dest_path: Seq<char>,
    meta: MetaInfoView,
    temp_entries: Seq<DiskEntryView>,
    dest_entries: Seq<DiskEntryView>,
)
    requires
        meta.files.len() <= usize::MAX,
    ensures
        ({
            let t = with_dest_entries(
                with_temp_entries(new_torrent(client_id, dest_path, meta), temp_entries),
                dest_entries,
            );
            is_unverified(t) && files_are_sound(t)
        }),
{
    let t = new_torrent(client_id, dest_path, meta);
    lemma_temp_entries_are_unverified(t, temp_entries);
    lemma_dest_entries_are_unverified(with_temp_entries(t, temp_entries), dest_entries);
}

proof fn lemma_verified_stays(blocks: Seq<BlockView>, results: Seq<(usize, bool)>)
    ensures
        with_piece_results(blocks, results).len() == blocks.len(),
        forall|i: int|
            0 <= i < blocks.len() ==> (#[trigger] with_piece_results(
                blocks,
                results,
            )[i]).file_index == blocks[i].file_index,
        forall|i: int|
            0 <= i < blocks.len() && blocks[i].verified ==> (#[trigger] with_piece_results(
                blocks,
                results,
            )[i]).verified,
    decreases results.len(),
{
    if results.len() > 0 {
        lemma_verified_stays(blocks, results.drop_last());
    }
}

/// Files stay sound when pieces are checked.
pub proof fn checks_keep_files_sound(t: TorrentView, results: Seq<(usize, bool)>)
    requires
        is_whole(t),
        files_are_sound(t),
    ensures
        files_are_sound(with_verification(t, results)),
{
    let after = with_verification(t, results);
    lemma_verified_stays(t.blocks, results);
    assert forall|f: int|
        0 <= f < after.files.len() && (#[trigger] after.files[f]).verified implies blocks_verified(
        after.blocks,
        f,
    ) by {
        assert(t.files[f].index == f);
        if t.files[f].verified {
            lemma_sound_file(t, after, f);
        }
    }
}

proof fn lemma_sound_file(before: TorrentView, after: TorrentView, f: int)
    requires
        blocks_verified(before.blocks, f),
        before.blocks.len() == after.blocks.len(),
        forall|i: int|
            0 <= i < after.blocks.len() ==> (#[trigger] after.blocks[i]).file_index
                == before.blocks[i].file_index,
        forall|i: int|
            0 <= i < after.blocks.len() && before.blocks[i].verified ==> (
            #[trigger] after.blocks[i]).verified,
    ensures
        blocks_verified(after.blocks, f),
{
    assert forall|i: int|
        0 <= i < after.blocks.len() && (
        #[trigger] after.blocks[i]).file_index == f implies after.blocks[i].verified by {
        assert(before.blocks[i].file_index == f);
    }
}

/// Files stay sound when a file is written.
pub proof fn writing_keeps_files_sound(torrent: Torrent, f: int)
    requires
        torrent.wf(),
        files_are_sound(torrent@),
        0 <= f < torrent@.files.len(),
    ensures
        files_are_sound(after_file_step(torrent@, f)),
{
    let t = torrent@;
    let after = after_file_step(t, f);
    if file_is_done(t, f) {
        a_done_file_is_verified(torrent, f);
    }
    assert forall|g: int|
        0 <= g < after.files.len() && (#[trigger] after.files[g]).verified implies blocks_verified(
        after.blocks,
        g,
    ) by {
        if g != f || !file_is_done(t, f) {
            assert(t.files[g].verified);
        }
    }
}

/// Files stay sound when blocks arrive.
pub proof fn arrivals_keep_files_sound(t: TorrentView, id: BlockId)
    requires
        files_are_sound(t),
    ensures
        files_are_sound(with_arrived_block(t, id)),
{
    let after = with_arrived_block(t, id);
    assert forall|f: int|
        0 <= f < after.files.len() && (#[trigger] after.files[f]).verified implies blocks_verified(
        after.blocks,
        f,
    ) by {
        assert(t.files[f].verified);
        lemma_sound_file(t, after, f);
    }
}

/// Files stay sound when peers report.
pub proof fn reports_keep_files_sound(t: TorrentView, k: int, event: EventView)
    requires
        files_are_sound(t),
    ensures
        files_are_sound(after_event(t, k, event)),
{
    let after = after_event(t, k, event);
    assert forall|f: int|
        0 <= f < after.files.len() && (#[trigger] after.files[f]).verified implies blocks_verified(
        after.blocks,
        f,
    ) by {
        assert(t.files[f].verified);
    }
}

/// Files stay sound when blocks are requested.
pub proof fn requests_keep_files_sound(t: TorrentView, round: RoundView, sent: bool, now: u128)
    requires
        files_are_sound(t),
        is_round_of(round, t),
        0 < round.next_block <= round.blocks.len(),
    ensures
        files_are_sound(with_request(t, round, sent, now)),
{
    let after = with_request(t, round, sent, now);
    assert forall|f: int|
        0 <= f < after.files.len() && (#[trigger] after.files[f]).verified implies blocks_verified(
        after.blocks,
        f,
    ) by {
        assert(t.files[f].verified);
        lemma_sound_file(t, after, f);
    }
}

/// A block is verified only by its piece turning out right.
pub proof fn blocks_are_verified_by_their_pieces(
    blocks: Seq<BlockView>,
    results: Seq<(usize, bool)>,
    i: int,
)
    requires
        0 <= i < blocks.len(),
        !blocks[i].verified,
        with_piece_results(blocks, results)[i].verified,
    ensures
        exists|k: int|
            0 <= k < results.len() && (#[trigger] results[k]).0 == blocks[i].piece_index
                && results[k].1,
    decreases results.len(),
{
    if results.len() > 0 {
        let fewer = results.drop_last();
        let before = with_piece_results(blocks, fewer);
        lemma_pieces_stay(blocks, fewer);
        if before[i].verified {
            blocks_are_verified_by_their_pieces(blocks, fewer, i);
            let k = choose|k: int|
                0 <= k < fewer.len() && (#[trigger] fewer[k]).0 == blocks[i].piece_index
                    && fewer[k].1;
            assert(results[k] == fewer[k]);
        } else {
            assert(results[results.len() - 1] == results.last());
        }
    }
}

proof fn lemma_pieces_stay(blocks: Seq<BlockView>, results: Seq<(usize, bool)>)
    ensures
        with_piece_results(blocks, results).len() == blocks.len(),
        forall|i: int|
            0 <= i < blocks.len() ==> (#[trigger] with_piece_results(
                blocks,
                results,
            )[i]).piece_index == blocks[i].piece_index,
    decreases results.len(),
{
    if results.len() > 0 {
        lemma_pieces_stay(blocks, results.drop_last());
    }
}

/// When no file is left unfinished, every file is written and every block is verified.
pub proof fn a_finished_torrent_is_verified(torrent: Torrent)
    requires
        torrent.wf(),
        files_are_sound(torrent@),
        unfinished_files(torrent@).len() == 0,
    ensures
        forall|f: int|
            0 <= f < torrent@.files.len() ==> (#[trigger] torrent@.files[f]).path is Some
                && torrent@.files[f].verified,
        forall|i: int| 0 <= i < torrent@.blocks.len() ==> (#[trigger] torrent@.blocks[i]).verified,
{
    let t = torrent@;
    let length: usize = torrent.files.len();
    let wanted = |f: int| is_unfinished(t.files[f]);
    lemma_chosen(t.files.len() as int, wanted);
    assert forall|f: int| 0 <= f < t.files.len() implies (#[trigger] t.files[f]).path is Some
        && t.files[f].verified by {
        if is_unfinished(t.files[f]) {
            assert(wanted(f as usize as int));
            assert(unfinished_files(t).contains(f as usize));
        }
    }
    assert forall|i: int| 0 <= i < t.blocks.len() implies (#[trigger] t.blocks[i]).verified by {
        assert(blocks_verified(t.blocks, t.blocks[i].file_index));
    }
}

} // verus!
