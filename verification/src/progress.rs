//! How far torrents have come, in words.

use vstd::prelude::*;
use vstd::string::*;

use crate::select::{chosen, lemma_chosen_all};
use crate::text::{append_decimal, decimal};

verus! {

pub const FETCHING: &'static str = "Fetching";

pub const DOWNLOADING: &'static str = "Downloading";

pub const VERIFYING: &'static str = "Downloaded, verifying files";

pub const COMPLETED: &'static str = "Completed";

pub const NO_STATS: &'static str = "---";

pub const BLOCKS_LABEL: &'static str = " - Blocks - total ";

pub const FILES_LABEL: &'static str = "\n - Files - total ";

pub const PEERS_LABEL: &'static str = "\n - Peers - total - ";

pub const DOWNLOADED_LABEL: &'static str = ", downloaded - ";

pub const VERIFIED_LABEL: &'static str = ", verified ";

pub const CONNECTED_LABEL: &'static str = ", connected - ";

/// How many files, blocks and peers of a torrent there are, and how far they have come.
#[derive(Debug, Clone, Copy, PartialEq, Eq, Structural)]
pub struct Progress {
    pub blocks_total: usize,
    pub blocks_downloaded: usize,
    pub blocks_verified: usize,
    pub files_total: usize,
    pub files_downloaded: usize,
    pub files_verified: usize,
    /// Downloaded, but not verified.
    pub files_unverified: usize,
    /// Downloaded and verified.
    pub files_done: usize,
    pub peers_total: usize,
    pub peers_connected: usize,
}

/// The number of entries that are downloaded or not, and verified or not, as they should be.
pub open spec fn number_of(
    list: Seq<(String, bool, bool)>,
    wanted: spec_fn(bool, bool) -> bool,
) -> usize {
    chosen(list.len() as int, |i: int| wanted(list[i].1, list[i].2)).len() as usize
}

pub open spec fn number_connected(list: Seq<(String, bool)>) -> usize {
    chosen(list.len() as int, |i: int| list[i].1).len() as usize
}

/// The progress of a torrent with these files, blocks and peers.
pub open spec fn progress_of(
    files: Seq<(String, bool, bool)>,
    blocks: Seq<(String, bool, bool)>,
    peers: Seq<(String, bool)>,
) -> Progress {
    Progress {
        blocks_total: blocks.len() as usize,
        blocks_downloaded: number_of(blocks, |downloaded: bool, verified: bool| downloaded),
        blocks_verified: number_of(blocks, |downloaded: bool, verified: bool| verified),
        files_total: files.len() as usize,
        files_downloaded: number_of(files, |downloaded: bool, verified: bool| downloaded),
        files_verified: number_of(files, |downloaded: bool, verified: bool| verified),
        files_unverified: number_of(
            files,
            |downloaded: bool, verified: bool| downloaded && !verified,
        ),
        files_done: number_of(files, |downloaded: bool, verified: bool| downloaded && verified),
        peers_total: peers.len() as usize,
        peers_connected: number_connected(peers),
    }
}

/// How the status of a torrent is called.
pub open spec fn status_text(progress: Option<Progress>) -> Seq<char> {
    match progress {
        None => FETCHING@,
        Some(p) => if p.files_total == p.files_done {
            COMPLETED@
        } else if p.files_total == p.files_unverified {
            VERIFYING@
        } else {
            DOWNLOADING@
        },
    }
}

/// The numbers of a torrent.
pub open spec fn stats_text(progress: Option<Progress>) -> Seq<char> {
    match progress {
        None => NO_STATS@,
        Some(p) => BLOCKS_LABEL@ + decimal(p.blocks_total as nat) + DOWNLOADED_LABEL@ + decimal(
            p.blocks_downloaded as nat,
        ) + VERIFIED_LABEL@ + decimal(p.blocks_verified as nat) + FILES_LABEL@ + decimal(
            p.files_total as nat,
        ) + DOWNLOADED_LABEL@ + decimal(p.files_downloaded as nat) + VERIFIED_LABEL@ + decimal(
            p.files_verified as nat,
        ) + PEERS_LABEL@ + decimal(p.peers_total as nat) + CONNECTED_LABEL@ + decimal(
            p.peers_connected as nat,
        ) + seq!['\n'],
    }
}

/// What is shown of a torrent: its status and name in one line, its numbers below.
pub open spec fn torrent_text(name: Seq<char>, progress: Option<Progress>) -> Seq<char> {
    seq!['['] + status_text(progress) + seq![']', ' ', '['] + name + seq![']', '\n'] + stats_text(
        progress,
    ) + seq!['\n']
}

/// Texts one below the other, with an empty line between them.
pub open spec fn lines(texts: Seq<Seq<char>>) -> Seq<char>
    decreases texts.len(),
{
    if texts.len() == 0 {
        seq![]
    } else if texts.len() == 1 {
        texts[0]
    } else {
        lines(texts.drop_last()).push('\n') + texts.last()
    }
}

fn count_entries(
    list: &Vec<(String, bool, bool)>,
    downloaded: Option<bool>,
    verified: Option<bool>,
    Ghost(wanted): Ghost<spec_fn(bool, bool) -> bool>,
) -> (count: usize)
    requires
        forall|d: bool, v: bool|
            #[trigger] wanted(d, v) == ((downloaded is None || downloaded->0 == d) && (
            verified is None || verified->0 == v)),
    ensures
        count == number_of(list@, wanted),
{
    let ghost chosen_one = |i: int| wanted(list@[i].1, list@[i].2);
    let length: usize = list.len();
    let mut count: usize = 0;
    let mut i: usize = 0;
    while i < length
        invariant
            i <= length,
            length == list@.len(),
            chosen_one == (|i: int| wanted(list@[i].1, list@[i].2)),
            forall|d: bool, v: bool|
                #[trigger] wanted(d, v) == ((downloaded is None || downloaded->0 == d) && (
                verified is None || verified->0 == v)),
            count == chosen(i as int, chosen_one).len(),
            count <= i,
        decreases length - i,
    {
        let d = match downloaded {
            Some(d) => d == list[i].1,
            None => true,
        };
        let v = match verified {
            Some(v) => v == list[i].2,
            None => true,
        };
        assert(chosen_one(i as int) == wanted(list@[i as int].1, list@[i as int].2));
        if d && v {
            count = count + 1;
        }
        i = i + 1;
    }
    count
}

fn count_connected(list: &Vec<(String, bool)>) -> (count: usize)
    ensures
        count == number_connected(list@),
{
    let ghost connected = |i: int| list@[i].1;
    let length: usize = list.len();
    let mut count: usize = 0;
    let mut i: usize = 0;
    while i < length
        invariant
            i <= length,
            length == list@.len(),
            connected == (|i: int| list@[i].1),
            count == chosen(i as int, connected).len(),
            count <= i,
        decreases length - i,
    {
        assert(connected(i as int) == list@[i as int].1);
        if list[i].1 {
            count = count + 1;
        }
        i = i + 1;
    }
    count
}

/// The progress of a torrent with these files, blocks and peers.
pub fn measure(
    files: &Vec<(String, bool, bool)>,
    blocks: &Vec<(String, bool, bool)>,
    peers: &Vec<(String, bool)>,
) -> (progress: Progress)
    ensures
        progress == progress_of(files@, blocks@, peers@),
{
    let ghost downloaded = |downloaded: bool, verified: bool| downloaded;
    let ghost verified = |downloaded: bool, verified: bool| verified;
    let ghost unverified = |downloaded: bool, verified: bool| downloaded && !verified;
    let ghost done = |downloaded: bool, verified: bool| downloaded && verified;
    Progress {
        blocks_total: blocks.len(),
        blocks_downloaded: count_entries(blocks, Some(true), None, Ghost(downloaded)),
        blocks_verified: count_entries(blocks, None, Some(true), Ghost(verified)),
        files_total: files.len(),
        files_downloaded: count_entries(files, Some(true), None, Ghost(downloaded)),
        files_verified: count_entries(files, None, Some(true), Ghost(verified)),
        files_unverified: count_entries(files, Some(true), Some(false), Ghost(unverified)),
        files_done: count_entries(files, Some(true), Some(true), Ghost(done)),
        peers_total: peers.len(),
        peers_connected: count_connected(peers),
    }
}

/// Appends the numbers of a torrent.
fn append_stats(out: &mut String, progress: &Option<Progress>)
    ensures
        final(out)@ == old(out)@ + stats_text(*progress),
{
    match progress {
        None => {
            out.append(NO_STATS);
        },
        Some(p) => {
            out.append(BLOCKS_LABEL);
            append_decimal(out, p.blocks_total as u64);
            out.append(DOWNLOADED_LABEL);
            append_decimal(out, p.blocks_downloaded as u64);
            out.append(VERIFIED_LABEL);
            append_decimal(out, p.blocks_verified as u64);
            out.append(FILES_LABEL);
            append_decimal(out, p.files_total as u64);
            out.append(DOWNLOADED_LABEL);
            append_decimal(out, p.files_downloaded as u64);
            out.append(VERIFIED_LABEL);
            append_decimal(out, p.files_verified as u64);
            out.append(PEERS_LABEL);
            append_decimal(out, p.peers_total as u64);
            out.append(CONNECTED_LABEL);
            append_decimal(out, p.peers_connected as u64);
            out.push('\n');
        },
    }
    assert(out@ =~= old(out)@ + stats_text(*progress));
}

/// What is shown of a torrent.
pub fn describe(name: &str, progress: &Option<Progress>) -> (text: String)
    ensures
        text@ == torrent_text(name@, *progress),
{
    let mut text = String::new();
    text.push('[');
    match progress {
        None => {
            text.append(FETCHING);
        },
        Some(p) => {
            if p.files_total == p.files_done {
                text.append(COMPLETED);
            } else if p.files_total == p.files_unverified {
                text.append(VERIFYING);
            } else {
                text.append(DOWNLOADING);
            }
        },
    }
    text.push(']');
    text.push(' ');
    text.push('[');
    text.append(name);
    text.push(']');
    text.push('\n');
    append_stats(&mut text, progress);
    text.push('\n');
    assert(text@ =~= torrent_text(name@, *progress));
    text
}

/// Appends a text below the others.
pub(crate) fn append_line(
    out: &mut String,
    text: &str,
    first: bool,
    Ghost(texts): Ghost<Seq<Seq<char>>>,
)
    requires
        old(out)@ == lines(texts),
        first == (texts.len() == 0),
    ensures
        final(out)@ == lines(texts.push(text@)),
{
    if !first {
        out.push('\n');
    }
    out.append(text);
    assert(texts.push(text@).drop_last() =~= texts);
    assert(out@ =~= lines(texts.push(text@)));
}

/// A torrent is called completed where every one of its files is downloaded and verified, and
/// only there.
pub proof fn completed_torrents_have_all_files(
    files: Seq<(String, bool, bool)>,
    blocks: Seq<(String, bool, bool)>,
    peers: Seq<(String, bool)>,
)
    requires
        files.len() <= usize::MAX,
    ensures
        status_text(Some(progress_of(files, blocks, peers))) == COMPLETED@ <==> forall|i: int|
            0 <= i < files.len() ==> (#[trigger] files[i]).1 && files[i].2,
{
    reveal_strlit("Completed");
    reveal_strlit("Downloading");
    reveal_strlit("Downloaded, verifying files");
    assert(COMPLETED@.len() != DOWNLOADING@.len());
    assert(COMPLETED@.len() != VERIFYING@.len());
    let done = |downloaded: bool, verified: bool| downloaded && verified;
    let wanted = |i: int| done(files[i].1, files[i].2);
    lemma_chosen_all(files.len() as int, wanted);
    assert(progress_of(files, blocks, peers).files_done == chosen(
        files.len() as int,
        wanted,
    ).len());
    if forall|i: int| 0 <= i < files.len() ==> (#[trigger] files[i]).1 && files[i].2 {
        assert forall|i: int| 0 <= i < files.len() implies #[trigger] wanted(i) by {
            assert(files[i].1 && files[i].2);
        }
    }
    if forall|i: int| 0 <= i < files.len() ==> #[trigger] wanted(i) {
        assert forall|i: int| 0 <= i < files.len() implies (#[trigger] files[i]).1
            && files[i].2 by {
            assert(wanted(i));
        }
    }
}

} // verus!
