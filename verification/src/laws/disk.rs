//! What is found on disk and what is written there, said of entries, blocks and files.

use vstd::prelude::*;
use vstd::string::*;

use crate::path::{component_end, components_from, joined, same_path_text};
use crate::select::{chosen, lemma_chosen, lemma_chosen_one};
use crate::torrent::formatter::block_id;
use crate::torrent::models::{
    id_of, is_persisted, lists, BlockId, BlockStatusView, BlockView, FileView, TorrentView,
};
use crate::torrent::state::{
    destination, entry_views, file_at, is_file_path, is_named, temp_dir, with_dest_entries,
    with_temp_entries, DiskEntryView,
};
use crate::torrent::writer::block_path;
use crate::torrent_async::after_finding;
use crate::torrent_async::disk_checker::{
    block_among, file_among, found_next, is_new_block, is_new_file, DiskChecker, EventView,
};
use crate::utils::percent_encoding;

verus! {

// ---------------------------------------------------------------------------------------
// Paths

/// A part of a path: not empty, without a separator, and not a single dot.
pub open spec fn is_step(part: Seq<char>) -> bool {
    part.len() > 0 && part != seq!['.'] && forall|i: int|
        0 <= i < part.len() ==> #[trigger] part[i] != '/'
}

/// The path from the root through these parts.
pub open spec fn rooted(parts: Seq<Seq<char>>) -> Seq<char>
    decreases parts.len(),
{
    if parts.len() == 0 {
        seq![]
    } else {
        seq!['/'] + parts[0] + rooted(parts.skip(1))
    }
}

proof fn lemma_component_found(path: Seq<char>, start: int, end: int)
    requires
        0 <= start <= end <= path.len(),
        end == path.len() || path[end] == '/',
        forall|i: int| start <= i < end ==> #[trigger] path[i] != '/',
    ensures
        component_end(path, start) == end,
    decreases end - start,
{
    if start < end {
        assert(path[start] != '/');
        lemma_component_found(path, start + 1, end);
    }
}

proof fn lemma_rooted_components(path: Seq<char>, at: int, parts: Seq<Seq<char>>)
    requires
        0 <= at <= path.len(),
        path.skip(at) == rooted(parts),
        forall|i: int| 0 <= i < parts.len() ==> is_step(#[trigger] parts[i]),
    ensures
        parts.len() > 0 ==> components_from(path, at + 1) == parts,
        parts.len() == 0 ==> at == path.len(),
    decreases parts.len(),
{
    if parts.len() > 0 {
        let part = parts[0];
        let rest = parts.skip(1);
        let start = at + 1;
        let end = start + part.len();
        let tail = path.skip(at);
        assert(is_step(part));
        assert(tail == seq!['/'] + part + rooted(rest));
        assert(tail.len() == 1 + part.len() + rooted(rest).len());
        assert forall|i: int| start <= i < end implies #[trigger] path[i] == part[i - start] by {
            assert(tail[i - at] == path[i]);
        }
        assert(path.subrange(start, end) =~= part);
        assert(path.skip(end) =~= rooted(rest)) by {
            assert forall|i: int| 0 <= i < rooted(rest).len() implies path.skip(end)[i]
                == #[trigger] rooted(rest)[i] by {
                assert(tail[1 + part.len() + i] == path[end + i]);
            }
        }
        if rest.len() > 0 {
            assert(path.skip(end)[0] == rooted(rest)[0]);
            assert(path[end] == '/');
        } else {
            assert(end == path.len());
        }
        lemma_component_found(path, start, end);
        assert forall|i: int| 0 <= i < rest.len() implies is_step(#[trigger] rest[i]) by {
            assert(rest[i] == parts[i + 1]);
        }
        lemma_rooted_components(path, end, rest);
        if rest.len() == 0 {
            assert(components_from(path, end + 1) =~= rest);
        }
        assert(components_from(path, start) =~= seq![part] + rest);
        assert(parts =~= seq![part] + rest);
    } else {
        assert(path.skip(at).len() == 0);
    }
}

/// Two paths from the root are the same just where they go through the same parts.
pub proof fn paths_are_told_apart_by_their_parts(a: Seq<Seq<char>>, b: Seq<Seq<char>>)
    requires
        a.len() > 0,
        b.len() > 0,
        forall|i: int| 0 <= i < a.len() ==> is_step(#[trigger] a[i]),
        forall|i: int| 0 <= i < b.len() ==> is_step(#[trigger] b[i]),
    ensures
        same_path_text(rooted(a), rooted(b)) <==> a == b,
{
    assert(rooted(a).skip(0) =~= rooted(a));
    assert(rooted(b).skip(0) =~= rooted(b));
    lemma_rooted_components(rooted(a), 0, a);
    lemma_rooted_components(rooted(b), 0, b);
    lemma_empty_component(rooted(a));
    lemma_empty_component(rooted(b));
}

proof fn lemma_empty_component(path: Seq<char>)
    requires
        path.len() > 0,
        path[0] == '/',
    ensures
        components_from(path, 0) == components_from(path, 1),
{
    assert(path.subrange(0, 0).len() == 0);
}

/// A path that starts at the root is never one that does not.
pub proof fn paths_from_the_root_are_no_others(a: Seq<char>, b: Seq<char>)
    requires
        a.len() > 0,
        a[0] == '/',
        b.len() == 0 || b[0] != '/',
    ensures
        !same_path_text(a, b),
        !same_path_text(b, a),
{
}

proof fn lemma_rooted_then(path: Seq<char>, at: int, parts: Seq<Seq<char>>, tail: Seq<char>)
    requires
        0 <= at <= path.len(),
        path.skip(at) == rooted(parts) + tail,
        tail.len() == 0 || tail[0] == '/',
        forall|i: int| 0 <= i < parts.len() ==> is_step(#[trigger] parts[i]),
    ensures
        components_from(path, at + 1) == parts + components_from(
            path,
            at + rooted(parts).len() + 1,
        ),
    decreases parts.len(),
{
    let whole = path.skip(at);
    if parts.len() > 0 {
        let part = parts[0];
        let rest = parts.skip(1);
        let start = at + 1;
        let end = start + part.len();
        let after = rooted(rest) + tail;
        assert(is_step(part));
        assert(whole =~= seq!['/'] + part + after);
        assert forall|i: int| start <= i < end implies #[trigger] path[i] == part[i - start] by {
            assert(whole[i - at] == path[i]);
        }
        assert(path.subrange(start, end) =~= part);
        assert(path.skip(end) =~= after) by {
            assert forall|i: int| 0 <= i < after.len() implies path.skip(end)[i]
                == #[trigger] after[i] by {
                assert(whole[1 + part.len() + i] == path[end + i]);
            }
        }
        if after.len() > 0 {
            assert(path.skip(end)[0] == after[0]);
            assert(path[end] == '/');
        }
        lemma_component_found(path, start, end);
        assert forall|i: int| 0 <= i < rest.len() implies is_step(#[trigger] rest[i]) by {
            assert(rest[i] == parts[i + 1]);
        }
        lemma_rooted_then(path, end, rest, tail);
        assert(components_from(path, start) =~= seq![part] + components_from(path, end + 1));
        assert(parts =~= seq![part] + rest);
        assert(end + rooted(rest).len() == at + rooted(parts).len());
    } else {
        assert(parts + components_from(path, at + 1) =~= components_from(path, at + 1));
    }
}

/// A dot on the way makes no difference.
pub proof fn dots_on_the_way_do_not_count(before: Seq<Seq<char>>, after: Seq<Seq<char>>)
    requires
        before.len() > 0,
        after.len() > 0,
        forall|i: int| 0 <= i < before.len() ==> is_step(#[trigger] before[i]),
        forall|i: int| 0 <= i < after.len() ==> is_step(#[trigger] after[i]),
    ensures
        same_path_text(
            rooted(before) + seq!['/', '.'] + rooted(after),
            rooted(before) + rooted(after),
        ),
{
    let plain = rooted(before) + rooted(after);
    let dotted = rooted(before) + seq!['/', '.'] + rooted(after);
    let n = rooted(before).len() as int;
    assert(plain.skip(0) =~= rooted(before) + rooted(after));
    lemma_rooted_then(plain, 0, before, rooted(after));
    assert(plain.skip(n) =~= rooted(after));
    lemma_rooted_components(plain, n, after);
    let tail = seq!['/', '.'] + rooted(after);
    assert(dotted.skip(0) =~= rooted(before) + tail);
    lemma_rooted_then(dotted, 0, before, tail);
    assert(dotted.skip(n + 2) =~= rooted(after));
    assert(dotted[n + 1] == '.');
    assert(dotted[n + 2] == '/') by {
        assert(dotted.skip(n + 2)[0] == rooted(after)[0]);
    }
    lemma_component_found(dotted, n + 1, n + 2);
    assert(dotted.subrange(n + 1, n + 2) =~= seq!['.']);
    assert(components_from(dotted, n + 1) == components_from(dotted, n + 3));
    lemma_rooted_components(dotted, n + 2, after);
    lemma_empty_component(plain);
    lemma_empty_component(dotted);
}

/// Two paths from no root are the same just where they go through the same parts.
pub proof fn paths_from_no_root_are_told_apart_by_their_parts(
    a: Seq<char>,
    a_rest: Seq<Seq<char>>,
    b: Seq<char>,
    b_rest: Seq<Seq<char>>,
)
    requires
        is_step(a),
        is_step(b),
        forall|i: int| 0 <= i < a_rest.len() ==> is_step(#[trigger] a_rest[i]),
        forall|i: int| 0 <= i < b_rest.len() ==> is_step(#[trigger] b_rest[i]),
    ensures
        same_path_text(a + rooted(a_rest), b + rooted(b_rest)) <==> a == b && a_rest == b_rest,
{
    lemma_unrooted_components(a, a_rest);
    lemma_unrooted_components(b, b_rest);
    let x = seq![a] + a_rest;
    let y = seq![b] + b_rest;
    if x == y {
        assert(x[0] == a && y[0] == b);
        assert(x.skip(1) =~= a_rest);
        assert(y.skip(1) =~= b_rest);
    }
}

proof fn lemma_unrooted_components(first: Seq<char>, rest: Seq<Seq<char>>)
    requires
        is_step(first),
        forall|i: int| 0 <= i < rest.len() ==> is_step(#[trigger] rest[i]),
    ensures
        components_from(first + rooted(rest), 0) == seq![first] + rest,
        (first + rooted(rest)).len() > 0,
        (first + rooted(rest))[0] != '/',
{
    let path = first + rooted(rest);
    let n = first.len() as int;
    assert(first[0] != '/');
    assert(path.skip(n) =~= rooted(rest));
    assert(path.subrange(0, n) =~= first);
    assert forall|i: int| 0 <= i < n implies #[trigger] path[i] != '/' by {
        assert(first[i] != '/');
    }
    if rest.len() > 0 {
        assert(path.skip(n)[0] == rooted(rest)[0]);
    }
    lemma_component_found(path, 0, n);
    lemma_rooted_components(path, n, rest);
    if rest.len() == 0 {
        assert(components_from(path, n + 1) =~= rest);
    }
}

/// Every path is the same as itself, and one that is the same as two others makes them the
/// same.
pub proof fn sameness_of_paths_is_an_equivalence(a: Seq<char>, b: Seq<char>, c: Seq<char>)
    ensures
        same_path_text(a, a),
        same_path_text(a, b) ==> same_path_text(b, a),
        same_path_text(a, b) && same_path_text(b, c) ==> same_path_text(a, c),
{
}

/// A separator too many, at the end of a path, makes no difference.
pub proof fn separators_at_the_end_do_not_count(parts: Seq<Seq<char>>)
    requires
        parts.len() > 0,
        forall|i: int| 0 <= i < parts.len() ==> is_step(#[trigger] parts[i]),
    ensures
        same_path_text(rooted(parts), rooted(parts) + seq!['/']),
{
    let path = rooted(parts);
    let longer = path + seq!['/'];
    assert(path.skip(0) =~= path);
    lemma_rooted_components(path, 0, parts);
    assert(longer.skip(0) =~= longer);
    lemma_rooted_components_before(longer, 0, parts);
    lemma_empty_component(path);
    lemma_empty_component(longer);
}

proof fn lemma_rooted_components_before(path: Seq<char>, at: int, parts: Seq<Seq<char>>)
    requires
        0 <= at <= path.len(),
        path.skip(at) == rooted(parts) + seq!['/'],
        forall|i: int| 0 <= i < parts.len() ==> is_step(#[trigger] parts[i]),
    ensures
        components_from(path, at + 1) == parts,
    decreases parts.len(),
{
    let tail = path.skip(at);
    if parts.len() > 0 {
        let part = parts[0];
        let rest = parts.skip(1);
        let start = at + 1;
        let end = start + part.len();
        assert(is_step(part));
        assert(tail == seq!['/'] + part + rooted(rest) + seq!['/']);
        assert(tail.len() == 2 + part.len() + rooted(rest).len());
        assert forall|i: int| start <= i < end implies #[trigger] path[i] == part[i - start] by {
            assert(tail[i - at] == path[i]);
        }
        assert(path.subrange(start, end) =~= part);
        let after = rooted(rest) + seq!['/'];
        assert(path.skip(end) =~= after) by {
            assert forall|i: int| 0 <= i < after.len() implies path.skip(end)[i]
                == #[trigger] after[i] by {
                assert(tail[1 + part.len() + i] == path[end + i]);
            }
        }
        assert(path.skip(end)[0] == after[0]);
        assert(path[end] == '/');
        lemma_component_found(path, start, end);
        assert forall|i: int| 0 <= i < rest.len() implies is_step(#[trigger] rest[i]) by {
            assert(rest[i] == parts[i + 1]);
        }
        lemma_rooted_components_before(path, end, rest);
        assert(components_from(path, start) =~= seq![part] + rest);
        assert(parts =~= seq![part] + rest);
    } else {
        assert(tail.len() == 1);
        assert(components_from(path, at + 1) =~= parts);
    }
}

// ---------------------------------------------------------------------------------------
// Where things go

/// The files of a torrent go to the destination, or to its directory in it, and its blocks to
/// a directory there that is named after the torrent, each under its own name.
pub proof fn torrents_have_their_places(
    t: TorrentView,
    dest_path: Seq<char>,
    directory: Option<Seq<char>>,
    id: BlockId,
)
    ensures
        directory is None ==> destination(dest_path, directory) == dest_path,
        directory is Some ==> destination(dest_path, directory) == joined(
            dest_path,
            directory->0,
        ),
        temp_dir(t) == joined(t.dest_path, ".tmp_"@ + percent_encoding(t.hash)),
        block_path(t, id) == joined(temp_dir(t), block_id(id.piece_index, id.begin)),
{
}

// ---------------------------------------------------------------------------------------
// What is found

/// The name of a block.
pub open spec fn name_of_block(block: BlockView) -> Seq<char> {
    block_id(block.piece_index as usize, block.begin as usize)
}

/// The same block, whatever is known of its data.
pub open spec fn same_block(a: BlockView, b: BlockView) -> bool {
    &&& a.file_index == b.file_index
    &&& a.piece_index == b.piece_index
    &&& a.begin == b.begin
    &&& a.length == b.length
}

/// Only what is known of files and blocks differs.
pub open spec fn same_but_data(a: TorrentView, b: TorrentView) -> bool {
    &&& a.client_id == b.client_id
    &&& a.dest_path == b.dest_path
    &&& a.hash == b.hash
    &&& a.tracker == b.tracker
    &&& a.directory == b.directory
    &&& a.pieces == b.pieces
    &&& a.peers == b.peers
    &&& a.downloaded_window_second == b.downloaded_window_second
}

/// Every entry that has the name of a block counts: the block is then in a file of its own, at
/// the path of the last such entry, and not verified. A block that no entry has the name of
/// stays as it is, and so does everything else.
pub proof fn every_stored_block_is_found(t: TorrentView, entries: Seq<DiskEntryView>, i: int)
    requires
        0 <= i < t.blocks.len(),
    ensures
        ({
            let after = with_temp_entries(t, entries);
            let name = name_of_block(t.blocks[i]);
            &&& after.blocks.len() == t.blocks.len()
            &&& same_block(after.blocks[i], t.blocks[i])
            &&& (forall|k: int| 0 <= k < entries.len() ==> (#[trigger] entries[k]).name != name)
                ==> after.blocks[i] == t.blocks[i]
            &&& forall|k: int|
                0 <= k < entries.len() && (#[trigger] entries[k]).name == name && (forall|j: int|
                    k < j < entries.len() ==> (#[trigger] entries[j]).name != name) ==> {
                    &&& after.blocks[i].data_status == BlockStatusView::PersistedSeparately(
                        entries[k].path,
                    )
                    &&& !after.blocks[i].verified
                }
            &&& after.files == t.files
            &&& same_but_data(after, t)
        }),
    decreases entries.len(),
{
    if entries.len() > 0 {
        let fewer = entries.drop_last();
        let n = entries.len() - 1;
        every_stored_block_is_found(t, fewer, i);
        let name = name_of_block(t.blocks[i]);
        let before = with_temp_entries(t, fewer);
        let after = with_temp_entries(t, entries);
        assert(entries[n] == entries.last());
        assert(is_named(before.blocks[i], entries.last().name) == (name == entries.last().name));
        if forall|k: int| 0 <= k < entries.len() ==> (#[trigger] entries[k]).name != name {
            assert forall|k: int| 0 <= k < fewer.len() implies (#[trigger] fewer[k]).name
                != name by {
                assert(fewer[k] == entries[k]);
            }
            assert(entries[n].name != name);
        }
        assert forall|k: int|
            0 <= k < entries.len() && (#[trigger] entries[k]).name == name && (forall|j: int|
                k < j < entries.len() ==> (#[trigger] entries[j]).name != name) implies {
            &&& after.blocks[i].data_status == BlockStatusView::PersistedSeparately(
                entries[k].path,
            )
            &&& !after.blocks[i].verified
        } by {
            if k < n {
                assert(entries[n].name != name);
                assert(fewer[k] == entries[k]);
                assert forall|j: int| k < j < fewer.len() implies (#[trigger] fewer[j]).name
                    != name by {
                    assert(fewer[j] == entries[j]);
                }
            }
        }
    }
}

/// The path is that of this file of the torrent, and of no other.
pub open spec fn is_path_of(
    base: Seq<char>,
    files: Seq<FileView>,
    f: int,
    path: Seq<char>,
) -> bool {
    &&& 0 <= f < files.len()
    &&& same_path_text(joined(base, files[f].relative_path), path)
    &&& forall|g: int|
        0 <= g < files.len() && g != f ==> !same_path_text(
            joined(base, (#[trigger] files[g]).relative_path),
            path,
        )
}

proof fn lemma_path_of(base: Seq<char>, files: Seq<FileView>, path: Seq<char>, f: int)
    requires
        files.len() <= usize::MAX,
    ensures
        file_at(base, files, path) == Some(f) <==> is_path_of(base, files, f, path),
{
    let wanted = |g: int| is_file_path(base, files, g, path);
    let found = chosen(files.len() as int, wanted);
    lemma_chosen(files.len() as int, wanted);
    if file_at(base, files, path) == Some(f) {
        assert(wanted(found[0] as int));
        assert forall|g: int| 0 <= g < files.len() && g != f implies !same_path_text(
            joined(base, (#[trigger] files[g]).relative_path),
            path,
        ) by {
            if wanted((g as usize) as int) {
                assert(found.contains(g as usize));
            }
        }
    }
    if is_path_of(base, files, f, path) {
        assert(wanted(f));
        assert forall|g: int| 0 <= g < files.len() && g != f implies !#[trigger] wanted(g) by {
            assert(!same_path_text(joined(base, files[g].relative_path), path));
        }
        lemma_chosen_one(files.len() as int, wanted, f);
    }
}

/// The entry is this file of the torrent: it has its path, and it is as long.
pub open spec fn is_whole_file(t: TorrentView, f: int, entry: DiskEntryView) -> bool {
    is_path_of(t.dest_path, t.files, f, entry.path) && t.files[f].length == entry.length
}

/// A file of the torrent lists the block.
pub open spec fn names_block(file: FileView, block: BlockView) -> bool {
    file.block_ids.contains(
        BlockId { piece_index: block.piece_index as usize, begin: block.begin as usize },
    )
}

/// A file of the torrent that is found counts where it is as long as the torrent says: it is
/// then written at that path. Nothing else is changed of it.
pub proof fn every_written_file_is_found(t: TorrentView, entries: Seq<DiskEntryView>, f: int)
    requires
        0 <= f < t.files.len() <= usize::MAX,
    ensures
        ({
            let after = with_dest_entries(t, entries);
            &&& after.files.len() == t.files.len()
            &&& after.blocks.len() == t.blocks.len()
            &&& after.files[f] == (FileView { path: after.files[f].path, ..t.files[f] })
            &&& (forall|k: int|
                0 <= k < entries.len() ==> !is_whole_file(t, f, #[trigger] entries[k]))
                ==> after.files[f].path == t.files[f].path
            &&& forall|k: int|
                0 <= k < entries.len() && is_whole_file(t, f, #[trigger] entries[k]) && (forall|
                    j: int,
                |
                    k < j < entries.len() ==> !is_whole_file(t, f, #[trigger] entries[j]))
                    ==> after.files[f].path == Some(entries[k].path)
            &&& same_but_data(after, t)
        }),
    decreases entries.len(),
{
    lemma_dest_frame(t, entries);
    if entries.len() > 0 {
        let fewer = entries.drop_last();
        let n = entries.len() - 1;
        every_written_file_is_found(t, fewer, f);
        lemma_dest_frame(t, fewer);
        let before = with_dest_entries(t, fewer);
        let after = with_dest_entries(t, entries);
        let entry = entries.last();
        assert(entries[n] == entry);
        lemma_path_of(before.dest_path, before.files, entry.path, f);
        lemma_same_paths(t, before, entry, f);
        if is_whole_file(t, f, entry) {
            assert(after.files[f].path == Some(entry.path));
        } else {
            assert(after.files[f].path == before.files[f].path) by {
                if let Some(g) = file_at(before.dest_path, before.files, entry.path) {
                    lemma_path_of(before.dest_path, before.files, entry.path, g);
                }
            }
        }
        if forall|k: int| 0 <= k < entries.len() ==> !is_whole_file(t, f, #[trigger] entries[k]) {
            assert forall|k: int| 0 <= k < fewer.len() implies !is_whole_file(
                t,
                f,
                #[trigger] fewer[k],
            ) by {
                assert(fewer[k] == entries[k]);
            }
            assert(!is_whole_file(t, f, entries[n]));
        }
        assert forall|k: int|
            0 <= k < entries.len() && is_whole_file(t, f, #[trigger] entries[k]) && (forall|
                j: int,
            |
                k < j < entries.len() ==> !is_whole_file(t, f, #[trigger] entries[j])) implies
            after.files[f].path == Some(entries[k].path) by {
            if k < n {
                assert(!is_whole_file(t, f, entries[n]));
                assert(fewer[k] == entries[k]);
                assert forall|j: int| k < j < fewer.len() implies !is_whole_file(
                    t,
                    f,
                    #[trigger] fewer[j],
                ) by {
                    assert(fewer[j] == entries[j]);
                }
            }
        }
    }
}

proof fn lemma_dest_frame(t: TorrentView, entries: Seq<DiskEntryView>)
    requires
        t.files.len() <= usize::MAX,
    ensures
        ({
            let after = with_dest_entries(t, entries);
            &&& after.files.len() == t.files.len()
            &&& after.blocks.len() == t.blocks.len()
            &&& same_but_data(after, t)
            &&& forall|g: int|
                0 <= g < t.files.len() ==> (#[trigger] after.files[g]) == (FileView {
                    path: after.files[g].path,
                    ..t.files[g]
                })
            &&& forall|i: int|
                0 <= i < t.blocks.len() ==> same_block(#[trigger] after.blocks[i], t.blocks[i])
                    && after.blocks[i].verified == t.blocks[i].verified
        }),
    decreases entries.len(),
{
    if entries.len() > 0 {
        lemma_dest_frame(t, entries.drop_last());
        let before = with_dest_entries(t, entries.drop_last());
        if let Some(f) = file_at(before.dest_path, before.files, entries.last().path) {
            lemma_path_of(before.dest_path, before.files, entries.last().path, f);
        }
    }
}

proof fn lemma_same_paths(t: TorrentView, before: TorrentView, entry: DiskEntryView, f: int)
    requires
        0 <= f < t.files.len(),
        before.dest_path == t.dest_path,
        before.files.len() == t.files.len(),
        forall|g: int|
            0 <= g < t.files.len() ==> (#[trigger] before.files[g]) == (FileView {
                path: before.files[g].path,
                ..t.files[g]
            }),
    ensures
        is_path_of(before.dest_path, before.files, f, entry.path) == is_path_of(
            t.dest_path,
            t.files,
            f,
            entry.path,
        ),
{
    assert forall|g: int| 0 <= g < t.files.len() implies (#[trigger] before.files[g]).relative_path
        == t.files[g].relative_path by {}
    if is_path_of(t.dest_path, t.files, f, entry.path) {
        assert forall|g: int| 0 <= g < before.files.len() && g != f implies !same_path_text(
            joined(before.dest_path, (#[trigger] before.files[g]).relative_path),
            entry.path,
        ) by {
            assert(!same_path_text(joined(t.dest_path, t.files[g].relative_path), entry.path));
        }
    }
    if is_path_of(before.dest_path, before.files, f, entry.path) {
        assert forall|g: int| 0 <= g < t.files.len() && g != f implies !same_path_text(
            joined(t.dest_path, (#[trigger] t.files[g]).relative_path),
            entry.path,
        ) by {
            assert(!same_path_text(
                joined(before.dest_path, before.files[g].relative_path),
                entry.path,
            ));
        }
    }
}

/// The blocks that a file lists are in it once it is found, and no other block is touched.
/// Whether they are verified stays as it is.
pub proof fn blocks_of_written_files_are_found(t: TorrentView, entries: Seq<DiskEntryView>, i: int)
    requires
        0 <= i < t.blocks.len(),
        t.files.len() <= usize::MAX,
    ensures
        ({
            let after = with_dest_entries(t, entries).blocks[i];
            &&& same_block(after, t.blocks[i])
            &&& after.verified == t.blocks[i].verified
            &&& (exists|f: int, k: int|
                0 <= k < entries.len() && is_whole_file(t, f, #[trigger] entries[k])
                    && names_block(#[trigger] t.files[f], t.blocks[i]))
                ==> after.data_status is PersistedInFile
            &&& !(exists|f: int, k: int|
                0 <= k < entries.len() && is_whole_file(t, f, #[trigger] entries[k])
                    && names_block(#[trigger] t.files[f], t.blocks[i])) ==> after == t.blocks[i]
        }),
    decreases entries.len(),
{
    lemma_dest_frame(t, entries);
    if entries.len() > 0 {
        let fewer = entries.drop_last();
        let n = entries.len() - 1;
        blocks_of_written_files_are_found(t, fewer, i);
        lemma_dest_frame(t, fewer);
        let before = with_dest_entries(t, fewer);
        let after = with_dest_entries(t, entries);
        let entry = entries.last();
        assert(entries[n] == entry);
        let found = file_at(before.dest_path, before.files, entry.path);
        if let Some(f) = found {
            lemma_path_of(before.dest_path, before.files, entry.path, f);
            lemma_same_paths(t, before, entry, f);
            assert(before.files[f].block_ids == t.files[f].block_ids);
            assert(before.files[f].length == t.files[f].length);
            let id = id_of(before.blocks[i]);
            assert(lists(before.files[f], id) == names_block(t.files[f], t.blocks[i])) by {
                if lists(before.files[f], id) {
                    let k = choose|k: int|
                        0 <= k < before.files[f].block_ids.len()
                            && #[trigger] before.files[f].block_ids[k] == id;
                    assert(t.files[f].block_ids[k] == id);
                }
                if names_block(t.files[f], t.blocks[i]) {
                    let k = choose|k: int|
                        0 <= k < t.files[f].block_ids.len() && t.files[f].block_ids[k] == id;
                    assert(before.files[f].block_ids[k] == id);
                }
            }
        }
        if exists|f: int, k: int|
            0 <= k < entries.len() && is_whole_file(t, f, #[trigger] entries[k]) && names_block(
                #[trigger] t.files[f],
                t.blocks[i],
            ) {
            let (f, k) = choose|f: int, k: int|
                0 <= k < entries.len() && is_whole_file(t, f, #[trigger] entries[k])
                    && names_block(#[trigger] t.files[f], t.blocks[i]);
            if k < n {
                assert(is_whole_file(t, f, fewer[k]));
                assert(before.blocks[i].data_status is PersistedInFile);
            } else {
                lemma_path_of(before.dest_path, before.files, entry.path, f);
                lemma_same_paths(t, before, entry, f);
                assert(found == Some(f));
            }
        } else {
            assert(!(exists|f: int, k: int|
                0 <= k < fewer.len() && is_whole_file(t, f, #[trigger] fewer[k]) && names_block(
                    #[trigger] t.files[f],
                    t.blocks[i],
                ))) by {
                if exists|f: int, k: int|
                    0 <= k < fewer.len() && is_whole_file(t, f, #[trigger] fewer[k])
                        && names_block(#[trigger] t.files[f], t.blocks[i]) {
                    let (f, k) = choose|f: int, k: int|
                        0 <= k < fewer.len() && is_whole_file(t, f, #[trigger] fewer[k])
                            && names_block(#[trigger] t.files[f], t.blocks[i]);
                    assert(is_whole_file(t, f, entries[k]));
                }
            }
            if let Some(f) = found {
                if before.files[f].length == entry.length {
                    assert(is_whole_file(t, f, entries[n]));
                    assert(!names_block(t.files[f], t.blocks[i]));
                }
            }
        }
    }
}

// ---------------------------------------------------------------------------------------
// What is found one thing at a time

/// The entry has the name of a block of the torrent whose data is not known to be on disk.
pub open spec fn is_unknown_block(t: TorrentView, entry: DiskEntryView) -> bool {
    exists|i: int|
        0 <= i < t.blocks.len() && name_of_block(#[trigger] t.blocks[i]) == entry.name && (
        t.blocks[i].data_status is Pending || t.blocks[i].data_status is Requested)
}

/// The entry is a file of the torrent, as long as it says, that is not known to be written.
pub open spec fn is_unknown_file(
    base: Seq<char>,
    files: Seq<FileView>,
    f: int,
    entry: DiskEntryView,
) -> bool {
    &&& is_path_of(base, files, f, entry.path)
    &&& files[f].length == entry.length
    &&& files[f].path is None
}

proof fn lemma_block_found(entries: Seq<DiskEntryView>, start: int, t: TorrentView)
    requires
        0 <= start,
    ensures
        match block_among(entries, start, t.blocks) {
            Some(EventView::BlockPersistedSeparately(name, path)) => exists|k: int|
                start <= k < entries.len() && is_unknown_block(t, #[trigger] entries[k]) && name
                    == entries[k].name && path == entries[k].path && forall|j: int|
                    start <= j < k ==> !is_unknown_block(t, #[trigger] entries[j]),
            Some(_) => false,
            None => forall|j: int|
                start <= j < entries.len() ==> !is_unknown_block(t, #[trigger] entries[j]),
        },
    decreases entries.len() - start,
{
    if start < entries.len() {
        let entry = entries[start];
        assert(is_new_block(t.blocks, entry.name) == is_unknown_block(t, entry)) by {
            if is_new_block(t.blocks, entry.name) {
                let i = choose|i: int|
                    0 <= i < t.blocks.len() && is_named(#[trigger] t.blocks[i], entry.name)
                        && !is_persisted(t.blocks[i].data_status);
                assert(name_of_block(t.blocks[i]) == entry.name);
            }
            if is_unknown_block(t, entry) {
                let i = choose|i: int|
                    0 <= i < t.blocks.len() && name_of_block(#[trigger] t.blocks[i]) == entry.name
                        && (t.blocks[i].data_status is Pending || t.blocks[i].data_status
                        is Requested);
                assert(is_named(t.blocks[i], entry.name));
            }
        }
        if is_unknown_block(t, entry) {
            assert(is_unknown_block(t, entries[start]));
        } else {
            lemma_block_found(entries, start + 1, t);
            if block_among(entries, start, t.blocks) is Some {
                let found = block_among(entries, start, t.blocks)->0;
                let name = found->BlockPersistedSeparately_0;
                let path = found->BlockPersistedSeparately_1;
                let k = choose|k: int|
                    start + 1 <= k < entries.len() && is_unknown_block(t, #[trigger] entries[k])
                        && name == entries[k].name && path == entries[k].path && forall|j: int|
                        start + 1 <= j < k ==> !is_unknown_block(t, #[trigger] entries[j]);
                assert forall|j: int| start <= j < k implies !is_unknown_block(
                    t,
                    #[trigger] entries[j],
                ) by {}
                assert(is_unknown_block(t, entries[k]));
            }
        }
    }
}

proof fn lemma_file_found(
    base: Seq<char>,
    entries: Seq<DiskEntryView>,
    start: int,
    files: Seq<FileView>,
)
    requires
        0 <= start,
        files.len() <= usize::MAX,
        forall|f: int| 0 <= f < files.len() ==> (#[trigger] files[f]).index == f,
    ensures
        match file_among(base, entries, start, files) {
            Some(EventView::FilePersistedPermanently(f, path)) => exists|k: int|
                start <= k < entries.len() && is_unknown_file(
                    base,
                    files,
                    f,
                    #[trigger] entries[k],
                ) && path == entries[k].path && forall|j: int, g: int|
                    start <= j < k ==> !#[trigger] is_unknown_file(base, files, g, entries[j]),
            Some(_) => false,
            None => forall|j: int, g: int|
                start <= j < entries.len() ==> !#[trigger] is_unknown_file(
                    base,
                    files,
                    g,
                    entries[j],
                ),
        },
    decreases entries.len() - start,
{
    if start < entries.len() {
        let entry = entries[start];
        assert forall|g: int| #[trigger]
            is_unknown_file(base, files, g, entry) implies is_new_file(base, files, entry) by {
            lemma_path_of(base, files, entry.path, g);
        }
        if is_new_file(base, files, entry) {
            let f = file_at(base, files, entry.path)->0;
            lemma_path_of(base, files, entry.path, f);
            assert(is_unknown_file(base, files, f, entries[start]));
            assert(files[f].index == f);
        } else {
            lemma_file_found(base, entries, start + 1, files);
            if file_among(base, entries, start, files) is Some {
                let found = file_among(base, entries, start, files)->0;
                let f = found->FilePersistedPermanently_0;
                let path = found->FilePersistedPermanently_1;
                let k = choose|k: int|
                    start + 1 <= k < entries.len() && is_unknown_file(
                        base,
                        files,
                        f,
                        #[trigger] entries[k],
                    ) && path == entries[k].path && forall|j: int, g: int|
                        start + 1 <= j < k ==> !#[trigger] is_unknown_file(
                            base,
                            files,
                            g,
                            entries[j],
                        );
                assert forall|j: int, g: int| start <= j < k implies !#[trigger] is_unknown_file(
                    base,
                    files,
                    g,
                    entries[j],
                ) by {
                    if j == start {
                        assert(entries[j] == entry);
                    }
                }
                assert(is_unknown_file(base, files, f, entries[k]));
            } else {
                assert forall|j: int, g: int| start <= j < entries.len() implies
                    !#[trigger] is_unknown_file(base, files, g, entries[j]) by {
                    if j == start {
                        assert(entries[j] == entry);
                    }
                }
            }
        }
    }
}

/// What is found next is the first entry that has the name of a block whose data is not known
/// to be on disk; where there is none, it is the first that is a file which is not known to be
/// written. Nothing is found only where there is neither.
pub proof fn the_first_thing_that_is_unknown_is_found(checker: DiskChecker, t: TorrentView)
    requires
        t.files.len() <= usize::MAX,
        forall|f: int| 0 <= f < t.files.len() ==> (#[trigger] t.files[f]).index == f,
    ensures
        ({
            let temp = entry_views(checker.temp_path_entries@);
            let dest = entry_views(checker.dest_path_entries@);
            let base = checker.dest_path@;
            match found_next(checker, t) {
                Some(EventView::BlockPersistedSeparately(name, path)) => exists|k: int|
                    0 <= k < temp.len() && is_unknown_block(t, #[trigger] temp[k]) && name
                        == temp[k].name && path == temp[k].path && forall|j: int|
                        0 <= j < k ==> !is_unknown_block(t, #[trigger] temp[j]),
                Some(EventView::FilePersistedPermanently(f, path)) => {
                    &&& forall|j: int|
                        0 <= j < temp.len() ==> !is_unknown_block(t, #[trigger] temp[j])
                    &&& exists|k: int|
                        0 <= k < dest.len() && is_unknown_file(
                            base,
                            t.files,
                            f,
                            #[trigger] dest[k],
                        ) && path == dest[k].path && forall|j: int, g: int|
                            0 <= j < k ==> !#[trigger] is_unknown_file(base, t.files, g, dest[j])
                },
                None => {
                    &&& forall|j: int|
                        0 <= j < temp.len() ==> !is_unknown_block(t, #[trigger] temp[j])
                    &&& forall|j: int, g: int|
                        0 <= j < dest.len() ==> !#[trigger] is_unknown_file(
                            base,
                            t.files,
                            g,
                            dest[j],
                        )
                },
            }
        }),
{
    let temp = entry_views(checker.temp_path_entries@);
    let dest = entry_views(checker.dest_path_entries@);
    lemma_block_found(temp, 0, t);
    lemma_file_found(checker.dest_path@, dest, 0, t.files);
}

/// A block that is found is noted as one that an entry has the name of; a file that is found
/// is noted with the blocks that it lists.
pub proof fn findings_are_noted(t: TorrentView, event: EventView, i: int, f: int)
    requires
        0 <= i < t.blocks.len(),
        0 <= f < t.files.len(),
        event matches EventView::FilePersistedPermanently(g, _) ==> 0 <= g < t.files.len(),
    ensures
        ({
            let after = after_finding(t, event);
            let block = after.blocks[i];
            &&& same_block(block, t.blocks[i])
            &&& same_but_data(after, t)
            &&& after.blocks.len() == t.blocks.len()
            &&& after.files.len() == t.files.len()
            &&& match event {
                EventView::BlockPersistedSeparately(name, path) => {
                    &&& after.files == t.files
                    &&& name_of_block(t.blocks[i]) != name ==> block == t.blocks[i]
                    &&& name_of_block(t.blocks[i]) == name ==> !block.verified
                        && block.data_status == BlockStatusView::PersistedSeparately(path)
                },
                EventView::FilePersistedPermanently(g, path) => {
                    &&& block.verified == t.blocks[i].verified
                    &&& names_block(t.files[g], t.blocks[i]) ==> block.data_status
                        is PersistedInFile
                    &&& !names_block(t.files[g], t.blocks[i]) ==> block == t.blocks[i]
                    &&& after.files[f] == if f == g {
                        FileView { path: Some(path), ..t.files[f] }
                    } else {
                        t.files[f]
                    }
                },
            }
        }),
{
    if let EventView::FilePersistedPermanently(g, _) = event {
        let id = id_of(t.blocks[i]);
        if lists(t.files[g], id) {
            assert(t.files[g].block_ids.contains(id));
        }
        if names_block(t.files[g], t.blocks[i]) {
            let k = choose|k: int|
                0 <= k < t.files[g].block_ids.len() && t.files[g].block_ids[k] == id;
            assert(t.files[g].block_ids[k] == id);
        }
    }
}

} // verus!
