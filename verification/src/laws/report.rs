//! What is shown of torrents, said of their files, blocks and peers.

use vstd::prelude::*;
use vstd::string::*;

use crate::bencode::MetaInfoView;
use crate::client;
use crate::client_async;
use crate::laws::data::is_on_disk;
use crate::order::text_at_most;
use crate::peer_async;
use crate::progress::{lines, progress_of, stats_text, status_text, torrent_text, Progress};
use crate::select::{chosen, lemma_chosen_same};
use crate::simple_torrent;
use crate::swarm::PeerView;
use crate::text::decimal;
use crate::torrent;
use crate::torrent::formatter::{block_id, peer_id};
use crate::torrent::models::{is_persisted, BlockView, FileView, PieceView, TorrentView};
use crate::torrent::report::{
    block_shown, files_shown, flagged_views, name_before, shows_a_block, shows_blocks,
};
use crate::torrent::state::{new_torrent, temp_dir, DiskEntry};
use crate::torrent_async;
use crate::utils::percent_encoding;

verus! {

// ---------------------------------------------------------------------------------------
// What is counted

/// How many positions below `n` are wanted.
pub open spec fn how_many(n: int, wanted: spec_fn(int) -> bool) -> int
    decreases n,
{
    if n <= 0 {
        0
    } else {
        how_many(n - 1, wanted) + if wanted(n - 1) {
            1int
        } else {
            0
        }
    }
}

proof fn lemma_how_many(n: int, wanted: spec_fn(int) -> bool)
    requires
        0 <= n,
    ensures
        chosen(n, wanted).len() == how_many(n, wanted),
        how_many(n, wanted) <= n,
    decreases n,
{
    if n > 0 {
        lemma_how_many(n - 1, wanted);
    }
}

proof fn lemma_counted(n: int, stated: spec_fn(int) -> bool, wanted: spec_fn(int) -> bool)
    requires
        0 <= n,
        forall|i: int| 0 <= i < n ==> #[trigger] stated(i) == wanted(i),
    ensures
        chosen(n, wanted).len() == how_many(n, stated) <= n,
{
    lemma_chosen_same(n, stated, wanted);
    lemma_how_many(n, stated);
}

/// The progress of a torrent is the number of its files, blocks and peers, and of those that
/// are downloaded, verified and connected.
pub proof fn progress_is_counted(
    files: Seq<(String, bool, bool)>,
    blocks: Seq<(String, bool, bool)>,
    peers: Seq<(String, bool)>,
)
    requires
        files.len() <= usize::MAX,
        blocks.len() <= usize::MAX,
        peers.len() <= usize::MAX,
    ensures
        ({
            let p = progress_of(files, blocks, peers);
            let f = files.len() as int;
            let b = blocks.len() as int;
            &&& p.blocks_total == blocks.len()
            &&& p.blocks_downloaded == how_many(b, |i: int| blocks[i].1)
            &&& p.blocks_verified == how_many(b, |i: int| blocks[i].2)
            &&& p.files_total == files.len()
            &&& p.files_downloaded == how_many(f, |i: int| files[i].1)
            &&& p.files_verified == how_many(f, |i: int| files[i].2)
            &&& p.files_unverified == how_many(f, |i: int| files[i].1 && !files[i].2)
            &&& p.files_done == how_many(f, |i: int| files[i].1 && files[i].2)
            &&& p.peers_total == peers.len()
            &&& p.peers_connected == how_many(peers.len() as int, |i: int| peers[i].1)
        }),
{
    let f = files.len() as int;
    let b = blocks.len() as int;
    let downloaded = |downloaded: bool, verified: bool| downloaded;
    let verified = |downloaded: bool, verified: bool| verified;
    let unverified = |downloaded: bool, verified: bool| downloaded && !verified;
    let done = |downloaded: bool, verified: bool| downloaded && verified;
    lemma_counted(b, |i: int| blocks[i].1, |i: int| downloaded(blocks[i].1, blocks[i].2));
    lemma_counted(b, |i: int| blocks[i].2, |i: int| verified(blocks[i].1, blocks[i].2));
    lemma_counted(f, |i: int| files[i].1, |i: int| downloaded(files[i].1, files[i].2));
    lemma_counted(f, |i: int| files[i].2, |i: int| verified(files[i].1, files[i].2));
    lemma_counted(
        f,
        |i: int| files[i].1 && !files[i].2,
        |i: int| unverified(files[i].1, files[i].2),
    );
    lemma_counted(f, |i: int| files[i].1 && files[i].2, |i: int| done(files[i].1, files[i].2));
    lemma_counted(peers.len() as int, |i: int| peers[i].1, |i: int| peers[i].1);
}

/// What a torrent that runs on its own shows are numbers: of its files, blocks and peers, and
/// of those that are written, on disk and connected.
pub proof fn torrents_on_their_own_are_counted(t: TorrentView)
    requires
        t.files.len() <= usize::MAX,
        t.blocks.len() <= usize::MAX,
        t.peers.len() <= usize::MAX,
    ensures
        ({
            let state = simple_torrent::counts_of(t);
            &&& state.files_total == t.files.len()
            &&& state.files_completed == how_many(
                t.files.len() as int,
                |f: int| t.files[f].path is Some,
            )
            &&& state.blocks_total == t.blocks.len()
            &&& state.blocks_completed == how_many(
                t.blocks.len() as int,
                |i: int| is_on_disk(t.blocks[i]),
            )
            &&& state.peers_total == t.peers.len()
            &&& state.peers_connected == how_many(
                t.peers.len() as int,
                |k: int| t.peers[k].connected,
            )
            &&& state.downloaded_window_second == t.downloaded_window_second
        }),
{
    lemma_counted(
        t.files.len() as int,
        |f: int| t.files[f].path is Some,
        |f: int| t.files[f].path is Some,
    );
    lemma_counted(
        t.blocks.len() as int,
        |i: int| is_on_disk(t.blocks[i]),
        |i: int| is_persisted(t.blocks[i].data_status),
    );
    lemma_counted(
        t.peers.len() as int,
        |k: int| t.peers[k].connected,
        |k: int| t.peers[k].connected,
    );
}

/// A file of such a torrent is there once as many of its blocks are on disk as it lists, and
/// the torrent is done once each of its files is written.
pub proof fn files_on_their_own_are_counted(t: TorrentView, f: int)
    ensures
        simple_torrent::file_is_there(t, f) <==> how_many(
            t.blocks.len() as int,
            |i: int| t.blocks[i].file_index == f && is_on_disk(t.blocks[i]),
        ) == t.files[f].block_ids.len(),
        simple_torrent::all_written(t.files) <==> !(exists|g: int|
            0 <= g < t.files.len() && (#[trigger] t.files[g]).path is None),
{
    lemma_counted(
        t.blocks.len() as int,
        |i: int| t.blocks[i].file_index == f && is_on_disk(t.blocks[i]),
        |i: int|
            t.blocks[i].file_index == f && is_persisted(
                t.blocks[i].data_status,
            ),
    );
}

/// What is left to download is as much as all the pieces have.
pub proof fn what_is_left_is_all_of_the_pieces(pieces: Seq<PieceView>, k: int)
    requires
        0 <= k < pieces.len(),
    ensures
        simple_torrent::pieces_length(pieces, 0) == 0,
        simple_torrent::pieces_length(pieces, k + 1) - simple_torrent::pieces_length(pieces, k)
            == pieces[k].length,
{
}

/// A peer whose connection came to its end may be started again; no other is touched.
pub proof fn ended_connections_are_released(peers: Seq<PeerView>, finished: Seq<bool>, k: int)
    requires
        0 <= k < peers.len(),
    ensures
        ({
            let after = simple_torrent::with_released_peers(peers, finished);
            &&& after.len() == peers.len()
            &&& finished[k] ==> after[k] == (PeerView { started: false, ..peers[k] })
            &&& !finished[k] ==> after[k] == peers[k]
        }),
{
}

// ---------------------------------------------------------------------------------------
// What is shown

/// The files of a torrent as they are shown: with their path in it, whether they are written
/// and whether they are verified.
pub open spec fn files_are_there(shown: Seq<(String, bool, bool)>, files: Seq<FileView>) -> bool {
    &&& shown.len() == files.len()
    &&& forall|f: int|
        0 <= f < files.len() ==> {
            let entry = #[trigger] shown[f];
            &&& entry.0@ == files[f].relative_path
            &&& entry.1 <==> files[f].path is Some
            &&& entry.2 == files[f].verified
        }
}

/// The entry is that of this block: its name, whether its data is on disk and whether it is
/// verified.
pub open spec fn is_of_block(entry: (String, bool, bool), block: BlockView) -> bool {
    &&& entry.0@ == block_id(block.piece_index as usize, block.begin as usize)
    &&& entry.1 == is_on_disk(block)
    &&& entry.2 == block.verified
}

/// The block is among those that are shown.
pub open spec fn is_shown(shown: Seq<(String, bool, bool)>, block: BlockView) -> bool {
    exists|k: int| 0 <= k < shown.len() && is_of_block(#[trigger] shown[k], block)
}

/// The entry is that of one of the blocks.
pub open spec fn is_of_one(entry: (String, bool, bool), blocks: Seq<BlockView>) -> bool {
    exists|i: int| 0 <= i < blocks.len() && is_of_block(entry, #[trigger] blocks[i])
}

/// The blocks of a torrent as they are shown: each of them, and no others, by their names.
pub open spec fn blocks_are_there(
    shown: Seq<(String, bool, bool)>,
    blocks: Seq<BlockView>,
) -> bool {
    &&& shown.len() == blocks.len()
    &&& forall|i: int| 0 <= i < blocks.len() ==> is_shown(shown, #[trigger] blocks[i])
    &&& forall|k: int| 0 <= k < shown.len() ==> is_of_one(#[trigger] shown[k], blocks)
    &&& forall|j: int, k: int|
        0 <= j < k < shown.len() ==> {
            &&& text_at_most((#[trigger] shown[j]).0@, (#[trigger] shown[k]).0@)
            &&& shown[j].0@ != shown[k].0@
        }
}

proof fn lemma_is_shown(shown: Seq<(String, bool, bool)>, block: BlockView)
    requires
        flagged_views(shown).contains(block_shown(block)),
    ensures
        is_shown(shown, block),
{
    let views = flagged_views(shown);
    let k = choose|k: int| 0 <= k < views.len() && views[k] == block_shown(block);
    assert(is_of_block(shown[k], block));
}

proof fn lemma_is_of_one(entry: (String, bool, bool), blocks: Seq<BlockView>)
    requires
        shows_a_block((entry.0@, entry.1, entry.2), blocks),
    ensures
        is_of_one(entry, blocks),
{
    let i = choose|i: int|
        0 <= i < blocks.len() && (entry.0@, entry.1, entry.2) == block_shown(#[trigger] blocks[i]);
    assert(is_of_block(entry, blocks[i]));
}

proof fn lemma_is_in_order(
    shown: Seq<(String, bool, bool)>,
    blocks: Seq<BlockView>,
    j: int,
    k: int,
)
    requires
        shows_blocks(flagged_views(shown), blocks),
        0 <= j < k < shown.len(),
    ensures
        text_at_most(shown[j].0@, shown[k].0@),
        shown[j].0@ != shown[k].0@,
{
    let views = flagged_views(shown);
    assert(name_before(views[j], views[k]));
}

proof fn lemma_blocks_are_there(shown: Seq<(String, bool, bool)>, blocks: Seq<BlockView>)
    requires
        shows_blocks(flagged_views(shown), blocks),
    ensures
        blocks_are_there(shown, blocks),
{
    let views = flagged_views(shown);
    assert(views.len() == shown.len());
    assert forall|i: int| 0 <= i < blocks.len() implies is_shown(shown, #[trigger] blocks[i]) by {
        lemma_is_shown(shown, blocks[i]);
    }
    assert forall|k: int| 0 <= k < shown.len() implies is_of_one(#[trigger] shown[k], blocks) by {
        assert(shows_a_block(views[k], blocks));
        lemma_is_of_one(shown[k], blocks);
    }
    assert forall|j: int, k: int| 0 <= j < k < shown.len() implies {
        &&& text_at_most((#[trigger] shown[j]).0@, (#[trigger] shown[k]).0@)
        &&& shown[j].0@ != shown[k].0@
    } by {
        lemma_is_in_order(shown, blocks, j, k);
    }
}

proof fn lemma_files_are_there(shown: Seq<(String, bool, bool)>, files: Seq<FileView>)
    requires
        flagged_views(shown) == files_shown(files),
    ensures
        files_are_there(shown, files),
{
    let views = flagged_views(shown);
    assert(views.len() == shown.len());
    assert forall|f: int| 0 <= f < files.len() implies {
        let entry = #[trigger] shown[f];
        &&& entry.0@ == files[f].relative_path
        &&& entry.1 <==> files[f].path is Some
        &&& entry.2 == files[f].verified
    } by {
        assert(views[f] == files_shown(files)[f]);
    }
}

/// A torrent is shown as it is: its files and blocks, its peers with their names and whether
/// they are connected, and what came within the last second.
pub proof fn torrents_are_shown_as_they_are(state: torrent::State, t: TorrentView)
    requires
        torrent::shows(state, t),
    ensures
        files_are_there(state.files@, t.files),
        blocks_are_there(state.blocks@, t.blocks),
        state.peers@.len() == t.peers.len(),
        forall|k: int|
            0 <= k < t.peers.len() ==> {
                let entry = #[trigger] state.peers@[k];
                &&& entry.0@ == peer_id(t.peers[k].ip, t.peers[k].port)
                &&& entry.1 == t.peers[k].connected
            },
        state.downloaded_window_second == t.downloaded_window_second,
{
    lemma_files_are_there(state.files@, t.files);
    lemma_blocks_are_there(state.blocks@, t.blocks);
    let views = torrent::connection_views(state.peers@);
    assert(views.len() == state.peers@.len());
    assert forall|k: int| 0 <= k < t.peers.len() implies {
        let entry = #[trigger] state.peers@[k];
        &&& entry.0@ == peer_id(t.peers[k].ip, t.peers[k].port)
        &&& entry.1 == t.peers[k].connected
    } by {
        assert(views[k] == torrent::peers_shown(t.peers)[k]);
    }
}

/// So is a torrent that does one thing at a time. A peer of it is connected where there is a
/// connection to its address and port.
pub proof fn torrents_are_shown_with_their_connections(
    state: torrent_async::State,
    t: TorrentView,
    controllers: Seq<peer_async::Controller>,
)
    requires
        torrent_async::shows(state, t, controllers),
    ensures
        files_are_there(state.files@, t.files),
        blocks_are_there(state.blocks@, t.blocks),
        state.peers@.len() == t.peers.len(),
        forall|k: int|
            0 <= k < t.peers.len() ==> {
                let entry = #[trigger] state.peers@[k];
                &&& entry.0@ == peer_id(t.peers[k].ip, t.peers[k].port)
                &&& entry.1 <==> exists|i: int|
                    0 <= i < controllers.len() && (#[trigger] controllers[i]).ip@ == t.peers[k].ip
                        && controllers[i].port == t.peers[k].port
            },
{
    lemma_files_are_there(state.files@, t.files);
    lemma_blocks_are_there(state.blocks@, t.blocks);
    let views = torrent::connection_views(state.peers@);
    assert(views.len() == state.peers@.len());
    assert forall|k: int| 0 <= k < t.peers.len() implies {
        let entry = #[trigger] state.peers@[k];
        &&& entry.0@ == peer_id(t.peers[k].ip, t.peers[k].port)
        &&& entry.1 <==> exists|i: int|
            0 <= i < controllers.len() && (#[trigger] controllers[i]).ip@ == t.peers[k].ip
                && controllers[i].port == t.peers[k].port
    } by {
        assert(views[k] == torrent_async::peers_shown(t.peers, controllers)[k]);
    }
}

// ---------------------------------------------------------------------------------------
// What is written of them

/// A torrent that has reported nothing is being fetched. It is complete once all of its files
/// are downloaded and verified, and being verified while all are downloaded and none is
/// verified.
pub proof fn the_status_says_how_far_a_torrent_is(p: Progress)
    ensures
        status_text(None) == "Fetching"@,
        p.files_done == p.files_total ==> status_text(Some(p)) == "Completed"@,
        p.files_done != p.files_total && p.files_unverified == p.files_total ==> status_text(
            Some(p),
        ) == "Downloaded, verifying files"@,
        p.files_done != p.files_total && p.files_unverified != p.files_total ==> status_text(
            Some(p),
        ) == "Downloading"@,
{
}

/// The numbers of a torrent, each behind what it is the number of.
pub proof fn the_numbers_of_a_torrent_are_told(p: Progress)
    ensures
        stats_text(None) == "---"@,
        stats_text(Some(p)) == " - Blocks - total "@ + decimal(p.blocks_total as nat)
            + ", downloaded - "@ + decimal(p.blocks_downloaded as nat) + ", verified "@ + decimal(
            p.blocks_verified as nat,
        ) + "\n - Files - total "@ + decimal(p.files_total as nat) + ", downloaded - "@ + decimal(
            p.files_downloaded as nat,
        ) + ", verified "@ + decimal(p.files_verified as nat) + "\n - Peers - total - "@ + decimal(
            p.peers_total as nat,
        ) + ", connected - "@ + decimal(p.peers_connected as nat) + seq!['\n'],
{
}

/// A torrent is told of by its status, its name and its numbers.
pub proof fn torrents_are_told_by_status_name_and_numbers(
    name: Seq<char>,
    progress: Option<Progress>,
)
    ensures
        torrent_text(name, progress) == "["@ + status_text(progress) + "] ["@ + name + "]\n"@
            + stats_text(progress) + "\n"@,
{
    reveal_strlit("[");
    reveal_strlit("] [");
    reveal_strlit("]\n");
    reveal_strlit("\n");
    assert(seq!['['] =~= "["@);
    assert(seq![']', ' ', '['] =~= "] ["@);
    assert(seq![']', '\n'] =~= "]\n"@);
    assert(seq!['\n'] =~= "\n"@);
}

/// Texts stand one below the other, in their order.
pub proof fn texts_stand_in_their_order(first: Seq<char>, rest: Seq<Seq<char>>)
    ensures
        lines(seq![]) == Seq::<char>::empty(),
        rest.len() == 0 ==> lines(seq![first] + rest) == first,
        rest.len() > 0 ==> lines(seq![first] + rest) == first + seq!['\n'] + lines(rest),
    decreases rest.len(),
{
    let all = seq![first] + rest;
    if rest.len() > 0 {
        let fewer = rest.drop_last();
        texts_stand_in_their_order(first, fewer);
        assert(all.drop_last() =~= seq![first] + fewer);
        assert(all.last() == rest.last());
        if rest.len() == 1 {
            assert(lines(all) =~= first + seq!['\n'] + lines(rest));
        } else {
            assert(lines(rest) == lines(fewer).push('\n') + rest.last());
            assert(lines(all) =~= first + seq!['\n'] + lines(rest));
        }
    }
}

/// What a client shows of each of its torrents is told by the name of that torrent and what
/// it last reported.
pub proof fn clients_tell_of_each_torrent(
    torrents: Seq<(Seq<char>, client::TorrentView)>,
    others: Seq<(Seq<char>, client_async::models::TorrentView)>,
    i: int,
)
    ensures
        client::texts_of(torrents).len() == torrents.len(),
        0 <= i < torrents.len() ==> client::texts_of(torrents)[i] == torrent_text(
            torrents[i].1.name,
            match torrents[i].1.state {
                Some(state) => Some(progress_of(state.files@, state.blocks@, state.peers@)),
                None => None,
            },
        ),
        client_async::render::texts_of(others).len() == others.len(),
        0 <= i < others.len() ==> client_async::render::texts_of(others)[i] == torrent_text(
            others[i].1.name,
            match others[i].1.state {
                Some(state) => Some(progress_of(state.files@, state.blocks@, state.peers@)),
                None => None,
            },
        ),
{
}

// ---------------------------------------------------------------------------------------
// What a client keeps

/// A torrent is called like its directory, or like its first file.
pub proof fn torrents_are_called_like_what_they_hold(meta: MetaInfoView)
    ensures
        meta.directory is Some ==> client::torrent_name(meta) == meta.directory,
        meta.directory is None && meta.files.len() > 0 ==> client::torrent_name(meta) == Some(
            meta.files[0].relative_path,
        ),
        meta.directory is None && meta.files.len() == 0 ==> client::torrent_name(meta) is None,
{
}

/// A torrent whose hash no other has is added behind the others, as it was given, and not
/// started; one whose hash is there is not.
pub proof fn torrents_are_added_where_they_are_not(
    torrents: Seq<(Seq<char>, client::TorrentView)>,
    file_path: Seq<char>,
    dest_path: Seq<char>,
    meta: MetaInfoView,
)
    ensures
        ({
            let after = client::with_torrent(torrents, file_path, dest_path, meta);
            let key = percent_encoding(meta.info_hash);
            let known = exists|i: int|
                0 <= i < torrents.len() && (#[trigger] torrents[i]).0 == key;
            &&& known ==> after == torrents
            &&& !known ==> {
                let entry = after[torrents.len() as int];
                &&& after.len() == torrents.len() + 1
                &&& after.take(torrents.len() as int) == torrents
                &&& entry.0 == key
                &&& entry.1.file_path == file_path
                &&& entry.1.dest_path == dest_path
                &&& client::torrent_name(meta) is Some ==> Some(entry.1.name)
                    == client::torrent_name(meta)
                &&& entry.1.metainfo == meta
                &&& !entry.1.controlled
                &&& !entry.1.running
                &&& entry.1.state is None
            }
        }),
{
    let after = client::with_torrent(torrents, file_path, dest_path, meta);
    if !client::has_torrent(torrents, percent_encoding(meta.info_hash)) {
        assert(after.take(torrents.len() as int) =~= torrents);
    }
}

/// So it is by a client that does one thing at a time.
pub proof fn torrents_are_added_once_to_a_client(
    torrents: Seq<(Seq<char>, client_async::models::TorrentView)>,
    file_path: Seq<char>,
    dest_path: Seq<char>,
    meta: MetaInfoView,
)
    ensures
        ({
            let after = client_async::with_torrent(torrents, file_path, dest_path, meta);
            let key = percent_encoding(meta.info_hash);
            let known = exists|i: int|
                0 <= i < torrents.len() && (#[trigger] torrents[i]).0 == key;
            &&& known ==> after == torrents
            &&& !known ==> {
                let entry = after[torrents.len() as int];
                &&& after.len() == torrents.len() + 1
                &&& after.take(torrents.len() as int) == torrents
                &&& entry.0 == key
                &&& entry.1.file_path == file_path
                &&& entry.1.dest_path == dest_path
                &&& client::torrent_name(meta) is Some ==> Some(entry.1.name)
                    == client::torrent_name(meta)
                &&& entry.1.metainfo == meta
                &&& entry.1.state is None
            }
        }),
{
    let after = client_async::with_torrent(torrents, file_path, dest_path, meta);
    if !client_async::has_torrent(torrents, percent_encoding(meta.info_hash)) {
        assert(after.take(torrents.len() as int) =~= torrents);
    }
}

/// What a torrent reports of itself takes the place of what it reported before; what came
/// within a second is kept with what it last reported, if it has reported anything.
pub proof fn reports_are_kept(
    before: Option<client::TorrentState>,
    reported: torrent::State,
    second: u64,
    count: usize,
)
    ensures
        ({
            let after = client::state_after(before, torrent::Event::State(reported));
            &&& after is Some
            &&& after->0.files == reported.files
            &&& after->0.blocks == reported.blocks
            &&& after->0.peers == reported.peers
            &&& after->0.downloaded_window_second == (0u64, 0usize)
        }),
        ({
            let after = client::state_after(
                before,
                torrent::Event::Metric(torrent::Metric::DownloadWindowSecond(second, count)),
            );
            &&& before is None ==> after is None
            &&& before is Some ==> {
                &&& after is Some
                &&& after->0.files == before->0.files
                &&& after->0.blocks == before->0.blocks
                &&& after->0.peers == before->0.peers
                &&& after->0.downloaded_window_second == (second, count)
            }
        }),
{
}

/// A client that does one thing at a time keeps what a torrent reports of itself.
pub proof fn states_are_kept(reported: torrent_async::State, metric: torrent_async::Metric)
    ensures
        ({
            let kept = client_async::state_of(torrent_async::Event::State(reported));
            &&& kept is Some
            &&& kept->0.status is Downloading
            &&& kept->0.files == reported.files
            &&& kept->0.blocks == reported.blocks
            &&& kept->0.peers == reported.peers
            &&& kept->0.downloaded_window_second == (0u64, 0usize)
        }),
        client_async::state_of(torrent_async::Event::Metric(metric)) is None,
{
}

/// A torrent that ran and came to its end does not run any more; nothing else is changed.
pub proof fn ended_torrents_do_not_run(
    torrents: Seq<(Seq<char>, client::TorrentView)>,
    finished: Seq<bool>,
    i: int,
)
    requires
        0 <= i < torrents.len(),
    ensures
        ({
            let after = client::with_finished(torrents, finished);
            &&& after.len() == torrents.len()
            &&& after[i].0 == torrents[i].0
            &&& after[i].1.running <==> torrents[i].1.running && !finished[i]
            &&& after[i].1 == (client::TorrentView {
                running: after[i].1.running,
                ..torrents[i].1
            })
        }),
{
}

/// A torrent is to be started where it is there and not known to be complete.
pub proof fn torrents_are_pending_until_complete(
    torrents: Seq<(Seq<char>, client_async::models::TorrentView)>,
    key: Seq<char>,
)
    ensures
        client_async::is_pending(torrents, key) <==> exists|i: int|
            0 <= i < torrents.len() && (#[trigger] torrents[i]).0 == key && match
                torrents[i].1.state {
                None => true,
                Some(state) => match state.status {
                    client_async::models::TorrentStatus::Fetching => true,
                    client_async::models::TorrentStatus::Downloading => true,
                    client_async::models::TorrentStatus::Completed => false,
                },
            },
{
    if exists|i: int|
        0 <= i < torrents.len() && (#[trigger] torrents[i]).0 == key && match
            torrents[i].1.state {
            None => true,
            Some(state) => match state.status {
                client_async::models::TorrentStatus::Fetching => true,
                client_async::models::TorrentStatus::Downloading => true,
                client_async::models::TorrentStatus::Completed => false,
            },
        } {
        let i = choose|i: int|
            0 <= i < torrents.len() && (#[trigger] torrents[i]).0 == key && match
                torrents[i].1.state {
                None => true,
                Some(state) => match state.status {
                    client_async::models::TorrentStatus::Fetching => true,
                    client_async::models::TorrentStatus::Downloading => true,
                    client_async::models::TorrentStatus::Completed => false,
                },
            };
        assert(torrents[i].0 == key);
    }
}

/// A torrent that is started does not have anything of its own yet, and looks for what is on
/// disk among the entries that it was given.
pub proof fn started_torrents_look_at_what_is_on_disk(
    controller: torrent_async::Controller,
    client_id: Seq<u8>,
    dest_path: Seq<char>,
    meta: MetaInfoView,
    temp_path_entries: Vec<DiskEntry>,
    dest_path_entries: Vec<DiskEntry>,
)
    requires
        torrent_async::is_new_controller(
            controller,
            client_id,
            dest_path,
            meta,
            temp_path_entries,
            dest_path_entries,
        ),
    ensures
        controller.torrent@ == new_torrent(client_id, dest_path, meta),
        controller.peer_controllers@.len() == 0,
        controller.disk_checker.temp_path@ == temp_dir(controller.torrent@),
        controller.disk_checker.dest_path@ == dest_path,
        controller.disk_checker.temp_path_entries == temp_path_entries,
        controller.disk_checker.dest_path_entries == dest_path_entries,
{
}

/// A torrent was started where it has a controller under its key.
pub proof fn started_torrents_have_a_controller(
    controllers: Seq<(String, torrent_async::Controller)>,
    key: Seq<char>,
)
    ensures
        client_async::has_controller(controllers, key) <==> exists|i: int|
            0 <= i < controllers.len() && (#[trigger] controllers[i]).0@ == key,
{
}

} // verus!
