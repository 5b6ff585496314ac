//! A client that runs each of its torrents on its own.

use rand::RngCore;
use vstd::prelude::*;
use vstd::string::*;

use crate::bencode::token::{ascii, bencode_tokens};
use crate::bencode::{decode_metainfo, metainfo_in, text_view, MetaInfo, MetaInfoView};
use crate::path::{join_path, joined};
use crate::progress::{append_line, describe, lines, measure, progress_of, torrent_text, Progress};
use crate::text::same_text;
use crate::torrent;
use crate::torrent::state::{is_complete, meta_is_complete, new_torrent};
use crate::utils::{bytes_to_hex_encoding, percent_encoding};

verus! {

pub const PEER_ID_BYTE_LEN: usize = 20;

/// The number of events after which a cycle goes on to its other work.
pub const MAX_EVENTS_PER_CYCLE: usize = 500;

/// The file that the state of the client is kept in.
pub const DB_FILE: &'static str = "client.json";

/// What the id of a client begins with.
pub const CLIENT_PREFIX: &'static str = "-rS0001-";

/// What a torrent last reported.
#[derive(Debug)]
pub struct TorrentState {
    pub files: Vec<(String, bool, bool)>,
    pub blocks: Vec<(String, bool, bool)>,
    pub peers: Vec<(String, bool)>,
    pub downloaded_window_second: (u64, usize),
}

/// What a client can be told to do.
#[derive(Debug)]
pub enum ClientControlCommand {
    /// Add the torrent of this torrent file, to be written to this directory.
    AddTorrent(String, String),
}

/// Why a torrent cannot be added.
#[derive(Debug, Clone, Copy, PartialEq, Eq, Structural)]
pub enum ClientError {
    /// It is no torrent file.
    InvalidMetaInfo,
    /// It names neither a directory nor a file.
    NoName,
}

/// A torrent of the client.
#[derive(Debug)]
pub struct Torrent {
    pub file_path: String,
    pub dest_path: String,
    pub name: String,
    pub metainfo: MetaInfo,
    /// The torrent was started.
    pub controlled: bool,
    /// The torrent is running.
    pub running: bool,
    pub state: Option<TorrentState>,
}

#[verifier::ext_equal]
pub struct TorrentView {
    pub file_path: Seq<char>,
    pub dest_path: Seq<char>,
    pub name: Seq<char>,
    pub metainfo: MetaInfoView,
    pub controlled: bool,
    pub running: bool,
    pub state: Option<TorrentState>,
}

impl View for Torrent {
    type V = TorrentView;

    open spec fn view(&self) -> TorrentView {
        TorrentView {
            file_path: self.file_path@,
            dest_path: self.dest_path@,
            name: self.name@,
            metainfo: self.metainfo@,
            controlled: self.controlled,
            running: self.running,
            state: self.state,
        }
    }
}

/// What a client keeps: its torrents by the percent encoding of their hash.
#[derive(Debug)]
pub struct ClientState {
    pub data_dir: String,
    pub peer_id: [u8; PEER_ID_BYTE_LEN],
    pub torrents: Vec<(String, Torrent)>,
}

pub open spec fn torrent_views(torrents: Seq<(String, Torrent)>) -> Seq<(Seq<char>, TorrentView)> {
    Seq::new(torrents.len(), |i: int| (torrents[i].0@, torrents[i].1@))
}

/// A client.
#[derive(Debug)]
pub struct Client {
    pub state: ClientState,
}

/// There is a torrent with this key.
pub open spec fn has_torrent(torrents: Seq<(Seq<char>, TorrentView)>, key: Seq<char>) -> bool {
    exists|i: int| 0 <= i < torrents.len() && (#[trigger] torrents[i]).0 == key
}

/// No two torrents share a key.
pub open spec fn distinct_keys(torrents: Seq<(Seq<char>, TorrentView)>) -> bool {
    forall|i: int, j: int|
        0 <= i < j < torrents.len() ==> (#[trigger] torrents[i]).0 != (#[trigger] torrents[j]).0
}

/// How a torrent is called: like its directory, or like its first file. `None` where it has
/// neither.
pub open spec fn torrent_name(meta: MetaInfoView) -> Option<Seq<char>> {
    match meta.directory {
        Some(directory) => Some(directory),
        None => if meta.files.len() > 0 {
            Some(meta.files[0].relative_path)
        } else {
            None
        },
    }
}

/// A torrent that was not started.
pub open spec fn new_entry(
    file_path: Seq<char>,
    dest_path: Seq<char>,
    meta: MetaInfoView,
) -> (Seq<char>, TorrentView) {
    (
        percent_encoding(meta.info_hash),
        TorrentView {
            file_path,
            dest_path,
            name: torrent_name(meta)->0,
            metainfo: meta,
            controlled: false,
            running: false,
            state: None,
        },
    )
}

/// The torrents after one was added: one that is there stays as it is.
pub open spec fn with_torrent(
    torrents: Seq<(Seq<char>, TorrentView)>,
    file_path: Seq<char>,
    dest_path: Seq<char>,
    meta: MetaInfoView,
) -> Seq<(Seq<char>, TorrentView)> {
    if has_torrent(torrents, percent_encoding(meta.info_hash)) {
        torrents
    } else {
        torrents.push(new_entry(file_path, dest_path, meta))
    }
}

/// A torrent is added once: adding it again changes nothing.
pub proof fn a_torrent_is_added_once(
    torrents: Seq<(Seq<char>, TorrentView)>,
    file_path: Seq<char>,
    dest_path: Seq<char>,
    meta: MetaInfoView,
    again_file: Seq<char>,
    again_dest: Seq<char>,
)
    requires
        distinct_keys(torrents),
    ensures
        ({
            let once = with_torrent(torrents, file_path, dest_path, meta);
            &&& distinct_keys(once)
            &&& has_torrent(once, percent_encoding(meta.info_hash))
            &&& with_torrent(once, again_file, again_dest, meta) == once
        }),
{
    let once = with_torrent(torrents, file_path, dest_path, meta);
    let key = percent_encoding(meta.info_hash);
    if !has_torrent(torrents, key) {
        assert(once[once.len() - 1].0 == key);
        assert forall|i: int, j: int| 0 <= i < j < once.len() implies (#[trigger] once[i]).0 != (
        #[trigger] once[j]).0 by {
            if j < torrents.len() {
                assert(torrents[i].0 != torrents[j].0);
            } else {
                assert(torrents[i].0 != key);
            }
        }
    }
}

proof fn lemma_keys_stay_distinct(
    before: Seq<(Seq<char>, TorrentView)>,
    after: Seq<(Seq<char>, TorrentView)>,
)
    requires
        before.len() == after.len(),
        forall|i: int| 0 <= i < before.len() ==> (#[trigger] after[i]).0 == before[i].0,
    ensures
        distinct_keys(before) ==> distinct_keys(after),
{
    if distinct_keys(before) {
        assert forall|i: int, j: int| 0 <= i < j < after.len() implies (#[trigger] after[i]).0 != (
        #[trigger] after[j]).0 by {
            assert(before[i].0 != before[j].0);
        }
    }
}

/// What a torrent last reported, after this report.
pub open spec fn state_after(
    state: Option<TorrentState>,
    event: torrent::Event,
) -> Option<TorrentState> {
    match (event, state) {
        (torrent::Event::State(reported), _) => Some(
            TorrentState {
                files: reported.files,
                blocks: reported.blocks,
                peers: reported.peers,
                downloaded_window_second: (0, 0),
            },
        ),
        (
            torrent::Event::Metric(torrent::Metric::DownloadWindowSecond(second, count)),
            Some(state),
        ) => Some(TorrentState { downloaded_window_second: (second, count), ..state }),
        _ => state,
    }
}

/// How far a torrent has come by what it last reported.
pub open spec fn progress_in(state: Option<TorrentState>) -> Option<Progress> {
    match state {
        Some(state) => Some(progress_of(state.files@, state.blocks@, state.peers@)),
        None => None,
    }
}

pub open spec fn texts_of(torrents: Seq<(Seq<char>, TorrentView)>) -> Seq<Seq<char>> {
    Seq::new(
        torrents.len(),
        |i: int| torrent_text(torrents[i].1.name, progress_in(torrents[i].1.state)),
    )
}

/// The torrents after it was seen which of them came to their end.
pub open spec fn with_finished(
    torrents: Seq<(Seq<char>, TorrentView)>,
    finished: Seq<bool>,
) -> Seq<(Seq<char>, TorrentView)> {
    Seq::new(
        torrents.len(),
        |i: int|
            if torrents[i].1.running && finished[i] {
                (torrents[i].0, TorrentView { running: false, ..torrents[i].1 })
            } else {
                torrents[i]
            },
    )
}

/// Twelve random bytes.
///
/// `rand::RngCore::fill_bytes` of `rand::thread_rng`: nothing is claimed of the bytes.
#[verifier::external_body]
fn random_bytes() -> (bytes: [u8; 12]) {
    let mut bytes = [0_u8; 12];
    rand::thread_rng().fill_bytes(&mut bytes);
    bytes
}

/// The id of a client with these bytes of its own.
pub fn peer_id_with(own: &[u8; 12]) -> (id: [u8; PEER_ID_BYTE_LEN])
    ensures
        id@ == ascii(CLIENT_PREFIX@) + own@,
{
    proof {
        reveal_strlit("-rS0001-");
        is_ascii_spec_bytes(CLIENT_PREFIX);
        assert(CLIENT_PREFIX.spec_bytes() =~= ascii(CLIENT_PREFIX@));
    }
    let prefix = CLIENT_PREFIX.as_bytes();
    let mut id: [u8; PEER_ID_BYTE_LEN] = [0u8; 20];
    let mut i: usize = 0;
    while i < 20
        invariant
            i <= 20,
            prefix@ == ascii(CLIENT_PREFIX@),
            prefix@.len() == 8,
            forall|k: int| 0 <= k < i ==> id@[k] == (ascii(CLIENT_PREFIX@) + own@)[k],
        decreases 20 - i,
    {
        if i < 8 {
            id[i] = prefix[i];
        } else {
            id[i] = own[i - 8];
        }
        i = i + 1;
    }
    assert(id@ =~= ascii(CLIENT_PREFIX@) + own@);
    id
}

/// A new id for a client.
pub fn create_peer_id() -> (id: [u8; PEER_ID_BYTE_LEN])
    ensures
        id@.take(8) == ascii(CLIENT_PREFIX@),
{
    let own = random_bytes();
    let id = peer_id_with(&own);
    proof {
        reveal_strlit("-rS0001-");
        assert(id@.take(8) =~= ascii(CLIENT_PREFIX@));
    }
    id
}

/// Where the state of a client is kept.
pub fn db_path(data_dir: &str) -> (path: String)
    ensures
        path@ == joined(data_dir@, DB_FILE@),
{
    join_path(data_dir, DB_FILE)
}

/// The name of a torrent.
pub fn name_torrent(meta: &MetaInfo) -> (name: Option<String>)
    ensures
        text_view(name) == torrent_name(meta@),
{
    match &meta.directory {
        Some(directory) => Some(directory.as_str().to_owned()),
        None => {
            if meta.files.len() > 0 {
                assert(meta@.files[0] == meta.files@[0]@);
                Some(meta.files[0].relative_path.as_str().to_owned())
            } else {
                None
            }
        },
    }
}

/// Whether a cycle that has processed so many events takes another.
pub fn takes_another(processed_events: usize) -> (takes: bool)
    ensures
        takes == (processed_events <= MAX_EVENTS_PER_CYCLE),
{
    processed_events <= MAX_EVENTS_PER_CYCLE
}

/// Where the torrent with this key is in the list.
fn find_torrent(torrents: &Vec<(String, Torrent)>, key: &str) -> (found: Option<usize>)
    ensures
        match found {
            Some(i) => i < torrents@.len() && torrent_views(torrents@)[i as int].0 == key@,
            None => !has_torrent(torrent_views(torrents@), key@),
        },
{
    let mut i: usize = 0;
    while i < torrents.len()
        invariant
            i <= torrents@.len(),
            forall|k: int| 0 <= k < i ==> (#[trigger] torrent_views(torrents@)[k]).0 != key@,
        decreases torrents@.len() - i,
    {
        assert(torrent_views(torrents@)[i as int].0 == torrents@[i as int].0@);
        if same_text(torrents[i].0.as_str(), key) {
            return Some(i);
        }
        i = i + 1;
    }
    None
}

impl ClientState {
    /// A client without torrents.
    pub fn init_state(data_dir: &str) -> (state: Self)
        ensures
            state.data_dir@ == data_dir@,
            state.peer_id@.take(8) == ascii(CLIENT_PREFIX@),
            state.torrents@ == Seq::<(String, Torrent)>::empty(),
    {
        ClientState {
            data_dir: data_dir.to_owned(),
            peer_id: create_peer_id(),
            torrents: Vec::new(),
        }
    }
}

impl Client {
    pub open spec fn torrents(&self) -> Seq<(Seq<char>, TorrentView)> {
        torrent_views(self.state.torrents@)
    }

    /// No two torrents share a key.
    pub open spec fn wf(&self) -> bool {
        distinct_keys(self.torrents())
    }

    /// A client with this state.
    pub fn new(state: ClientState) -> (client: Self)
        ensures
            client.state == state,
            client.wf() == distinct_keys(torrent_views(state.torrents@)),
    {
        Client { state }
    }

    /// Adds a torrent that was read, unless it is there. The result is its key, and whether
    /// it was added.
    pub fn add_metainfo(
        &mut self,
        file_path: &str,
        dest_path: &str,
        metainfo: MetaInfo,
    ) -> (added: Result<(String, bool), ClientError>)
        ensures
            final(self).state.data_dir == old(self).state.data_dir,
            final(self).state.peer_id == old(self).state.peer_id,
            old(self).wf() ==> final(self).wf(),
            ({
                let key = percent_encoding(metainfo@.info_hash);
                let there = has_torrent(old(self).torrents(), key);
                &&& added is Ok <==> there || torrent_name(metainfo@) is Some
                &&& added is Ok ==> {
                    &&& (added->Ok_0).0@ == key
                    &&& (added->Ok_0).1 == !there
                    &&& has_torrent(final(self).torrents(), key)
                    &&& final(self).torrents() == with_torrent(
                        old(self).torrents(),
                        file_path@,
                        dest_path@,
                        metainfo@,
                    )
                }
                &&& added is Err ==> added->Err_0 == ClientError::NoName && *final(self) == *old(
                    self,
                )
            }),
    {
        let ghost before = self.torrents();
        let key = bytes_to_hex_encoding(&metainfo.info_hash);
        match find_torrent(&self.state.torrents, key.as_str()) {
            Some(_) => Ok((key, false)),
            None => match name_torrent(&metainfo) {
                Some(name) => {
                    let entry = Torrent {
                        file_path: file_path.to_owned(),
                        dest_path: dest_path.to_owned(),
                        name,
                        metainfo,
                        controlled: false,
                        running: false,
                        state: None,
                    };
                    let ghost view = entry@;
                    self.state.torrents.push((key.as_str().to_owned(), entry));
                    proof {
                        assert(self.torrents() =~= before.push((key@, view)));
                        assert(self.torrents()[before.len() as int].0 == key@);
                        if distinct_keys(before) {
                            a_torrent_is_added_once(
                                before,
                                file_path@,
                                dest_path@,
                                view.metainfo,
                                file_path@,
                                dest_path@,
                            );
                        }
                    }
                    Ok((key, true))
                },
                None => Err(ClientError::NoName),
            },
        }
    }

    /// Adds the torrent of a torrent file with these contents, unless it is there. The
    /// result is its key, and whether it was added.
    pub fn add_torrent(
        &mut self,
        file_path: &str,
        dest_path: &str,
        contents: &[u8],
    ) -> (added: Result<(String, bool), ClientError>)
        ensures
            final(self).state.data_dir == old(self).state.data_dir,
            final(self).state.peer_id == old(self).state.peer_id,
            old(self).wf() ==> final(self).wf(),
            match metainfo_in(bencode_tokens(contents@)) {
                Some(meta) => {
                    let key = percent_encoding(meta.info_hash);
                    let there = has_torrent(old(self).torrents(), key);
                    &&& added is Ok <==> there || torrent_name(meta) is Some
                    &&& added is Ok ==> {
                        &&& (added->Ok_0).0@ == key
                        &&& (added->Ok_0).1 == !there
                        &&& has_torrent(final(self).torrents(), key)
                        &&& final(self).torrents() == with_torrent(
                            old(self).torrents(),
                            file_path@,
                            dest_path@,
                            meta,
                        )
                    }
                    &&& added is Err ==> added->Err_0 == ClientError::NoName && *final(self)
                        == *old(self)
                },
                None => added == Err::<(String, bool), _>(ClientError::InvalidMetaInfo)
                    && *final(self) == *old(self),
            },
    {
        match decode_metainfo(contents) {
            Ok(metainfo) => self.add_metainfo(file_path, dest_path, metainfo),
            Err(_) => Err(ClientError::InvalidMetaInfo),
        }
    }

    /// Starts the torrent with this key. `None` where its pieces and files do not fit
    /// together, so that it cannot be started.
    pub fn resume_torrent(&mut self, torrent_hash: &str) -> (controller: Option<
        torrent::Controller,
    >)
        requires
            has_torrent(old(self).torrents(), torrent_hash@),
        ensures
            final(self).state.data_dir == old(self).state.data_dir,
            final(self).state.peer_id == old(self).state.peer_id,
            old(self).wf() ==> final(self).wf(),
            exists|i: int|
                0 <= i < old(self).torrents().len() && (#[trigger] old(self).torrents()[i]).0
                    == torrent_hash@ && {
                    let entry = old(self).torrents()[i].1;
                    &&& controller is Some <==> is_complete(entry.metainfo)
                    &&& controller is Some ==> {
                        &&& controller->0.torrent@ == new_torrent(
                            old(self).state.peer_id@,
                            entry.dest_path,
                            entry.metainfo,
                        )
                        &&& controller->0.torrent.wf()
                        &&& final(self).torrents() == old(self).torrents().update(
                            i,
                            (
                                torrent_hash@,
                                TorrentView { controlled: true, running: true, ..entry },
                            ),
                        )
                    }
                    &&& controller is None ==> *final(self) == *old(self)
                },
    {
        let ghost before = self.torrents();
        match find_torrent(&self.state.torrents, torrent_hash) {
            Some(i) => {
                assert(before[i as int].1 == self.state.torrents@[i as int].1@);
                assert(before[i as int].0 == torrent_hash@);
                if !meta_is_complete(&self.state.torrents[i].1.metainfo) {
                    return None;
                }
                let controller = torrent::Controller::new(
                    self.state.peer_id,
                    &self.state.torrents[i].1.metainfo,
                    self.state.torrents[i].1.dest_path.as_str(),
                );
                self.state.torrents[i].1.controlled = true;
                self.state.torrents[i].1.running = true;
                assert(self.torrents() =~= before.update(
                    i as int,
                    (
                        torrent_hash@,
                        TorrentView { controlled: true, running: true, ..before[i as int].1 },
                    ),
                ));
                proof {
                    lemma_keys_stay_distinct(before, self.torrents());
                }
                Some(controller)
            },
            None => None,
        }
    }

    /// Takes in what a torrent reports.
    pub fn process_event(&mut self, event: torrent::ControllerEvent)
        requires
            has_torrent(old(self).torrents(), percent_encoding(event.hash@)),
        ensures
            final(self).state.data_dir == old(self).state.data_dir,
            final(self).state.peer_id == old(self).state.peer_id,
            old(self).wf() ==> final(self).wf(),
            exists|i: int|
                0 <= i < old(self).torrents().len() && (#[trigger] old(self).torrents()[i]).0
                    == percent_encoding(event.hash@) && final(self).torrents() == old(
                    self,
                ).torrents().update(
                    i,
                    (
                        old(self).torrents()[i].0,
                        TorrentView {
                            state: state_after(old(self).torrents()[i].1.state, event.event),
                            ..old(self).torrents()[i].1
                        },
                    ),
                ),
    {
        let ghost before = self.torrents();
        let key = bytes_to_hex_encoding(&event.hash);
        if let Some(i) = find_torrent(&self.state.torrents, key.as_str()) {
            assert(before[i as int].1 == self.state.torrents@[i as int].1@);
            assert(before[i as int].0 == key@);
            let ghost reported = event.event;
            match event.event {
                torrent::Event::State(state) => {
                    self.state.torrents[i].1.state = Some(
                        TorrentState {
                            files: state.files,
                            blocks: state.blocks,
                            peers: state.peers,
                            downloaded_window_second: (0, 0),
                        },
                    );
                },
                torrent::Event::Metric(torrent::Metric::DownloadWindowSecond(second, count)) => {
                    let taken = self.state.torrents[i].1.state.take();
                    if let Some(mut state) = taken {
                        state.downloaded_window_second = (second, count);
                        self.state.torrents[i].1.state = Some(state);
                    }
                },
            }
            assert(self.torrents() =~= before.update(
                i as int,
                (
                    before[i as int].0,
                    TorrentView {
                        state: state_after(before[i as int].1.state, reported),
                        ..before[i as int].1
                    },
                ),
            ));
            proof {
                lemma_keys_stay_distinct(before, self.torrents());
            }
        }
    }

    /// Takes in which torrents came to their end.
    pub fn release_finished(&mut self, finished: &Vec<bool>)
        requires
            finished@.len() == old(self).state.torrents@.len(),
        ensures
            final(self).state.data_dir == old(self).state.data_dir,
            final(self).state.peer_id == old(self).state.peer_id,
            old(self).wf() ==> final(self).wf(),
            final(self).torrents() == with_finished(old(self).torrents(), finished@),
    {
        let ghost before = self.torrents();
        let ghost all = with_finished(before, finished@);
        let mut i: usize = 0;
        while i < self.state.torrents.len()
            invariant
                all == with_finished(before, finished@),
                i <= self.state.torrents@.len(),
                finished@.len() == self.state.torrents@.len(),
                self.state.data_dir == old(self).state.data_dir,
                self.state.peer_id == old(self).state.peer_id,
                self.torrents().len() == before.len(),
                forall|k: int| 0 <= k < i ==> self.torrents()[k] == #[trigger] all[k],
                forall|k: int|
                    i <= k < before.len() ==> self.torrents()[k] == #[trigger] before[k],
            decreases self.state.torrents@.len() - i,
        {
            let ghost so_far = self.torrents();
            assert(so_far[i as int].1 == self.state.torrents@[i as int].1@);
            assert(so_far[i as int] == before[i as int]);
            if self.state.torrents[i].1.running && finished[i] {
                self.state.torrents[i].1.running = false;
            }
            proof {
                let after = self.torrents();
                assert(after[i as int] == all[i as int]);
                assert forall|k: int| 0 <= k < i implies after[k] == #[trigger] all[k] by {
                    assert(after[k] == so_far[k]);
                }
                assert forall|k: int| i < k < before.len() implies after[k]
                    == #[trigger] before[k] by {
                    assert(after[k] == so_far[k]);
                }
            }
            i = i + 1;
        }
        proof {
            assert(self.torrents() =~= all);
            lemma_keys_stay_distinct(before, all);
        }
    }

    /// What is shown of the torrents.
    pub fn render_view(&self) -> (view: String)
        ensures
            view@ == lines(texts_of(self.torrents())),
    {
        let ghost texts = texts_of(self.torrents());
        let mut view = String::new();
        let mut i: usize = 0;
        assert(texts.take(0) =~= seq![]);
        assert(view@ =~= lines(texts.take(0)));
        while i < self.state.torrents.len()
            invariant
                i <= self.state.torrents@.len(),
                texts == texts_of(self.torrents()),
                view@ == lines(texts.take(i as int)),
            decreases self.state.torrents@.len() - i,
        {
            let entry = &self.state.torrents[i].1;
            assert(self.torrents()[i as int].1 == entry@);
            let progress = match &entry.state {
                Some(state) => Some(measure(&state.files, &state.blocks, &state.peers)),
                None => None,
            };
            let text = describe(entry.name.as_str(), &progress);
            append_line(&mut view, text.as_str(), i == 0, Ghost(texts.take(i as int)));
            assert(texts.take(i + 1) =~= texts.take(i as int).push(text@));
            i = i + 1;
        }
        assert(texts.take(i as int) =~= texts);
        view
    }
}

} // verus!
