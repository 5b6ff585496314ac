//! A client that does one thing each time it is asked.

pub mod models;
pub mod render;

use vstd::prelude::*;
use vstd::string::*;

use crate::bencode::token::{ascii, bencode_tokens};
use crate::bencode::{decode_metainfo, metainfo_in, MetaInfo, MetaInfoView};
use crate::client::{create_peer_id, name_torrent, torrent_name, ClientError, CLIENT_PREFIX};
use crate::select::chosen;
use crate::text::same_text;
use crate::torrent::state::{is_complete, meta_is_complete, DiskEntry};
use crate::torrent_async;
use crate::torrent_async::is_new_controller;
use crate::utils::{bytes_to_hex_encoding, percent_encoding};
use models::{
    torrent_views, ClientControlCommand, ClientState, Torrent, TorrentState, TorrentStatus,
    TorrentView,
};

verus! {

/// A client.
#[derive(Debug)]
pub struct Client {
    pub state: ClientState,
    /// The torrents that were started, by their keys.
    pub controllers: Vec<(String, torrent_async::Controller)>,
    /// The commands that are left. The last one is taken first.
    pub pending_commands: Vec<ClientControlCommand>,
}

/// There is a torrent with this key.
pub open spec fn has_torrent(torrents: Seq<(Seq<char>, TorrentView)>, key: Seq<char>) -> bool {
    exists|i: int| 0 <= i < torrents.len() && (#[trigger] torrents[i]).0 == key
}

/// The torrent with this key was started.
pub open spec fn has_controller(
    controllers: Seq<(String, torrent_async::Controller)>,
    key: Seq<char>,
) -> bool {
    exists|i: int| 0 <= i < controllers.len() && (#[trigger] controllers[i]).0@ == key
}

/// A torrent that has reported nothing.
pub open spec fn new_entry(
    file_path: Seq<char>,
    dest_path: Seq<char>,
    meta: MetaInfoView,
) -> (Seq<char>, TorrentView) {
    (
        percent_encoding(meta.info_hash),
        TorrentView {
            file_path,
            dest_path,
            name: torrent_name(meta)->0,
            metainfo: meta,
            state: None,
        },
    )
}

/// The torrents after one was added: one that is there stays as it is.
pub open spec fn with_torrent(
    torrents: Seq<(Seq<char>, TorrentView)>,
    file_path: Seq<char>,
    dest_path: Seq<char>,
    meta: MetaInfoView,
) -> Seq<(Seq<char>, TorrentView)> {
    if has_torrent(torrents, percent_encoding(meta.info_hash)) {
        torrents
    } else {
        torrents.push(new_entry(file_path, dest_path, meta))
    }
}

/// A torrent that was started and is not known to be complete.
pub open spec fn is_pending(torrents: Seq<(Seq<char>, TorrentView)>, key: Seq<char>) -> bool {
    exists|i: int|
        0 <= i < torrents.len() && (#[trigger] torrents[i]).0 == key && (
        torrents[i].1.state is None || !(torrents[i].1.state->0.status is Completed))
}

/// No two torrents share a key.
pub open spec fn distinct_keys(torrents: Seq<(Seq<char>, TorrentView)>) -> bool {
    forall|i: int, j: int|
        0 <= i < j < torrents.len() ==> (#[trigger] torrents[i]).0 != (#[trigger] torrents[j]).0
}

/// No two controllers share a key.
pub open spec fn distinct_controllers(
    controllers: Seq<(String, torrent_async::Controller)>,
) -> bool {
    forall|i: int, j: int|
        0 <= i < j < controllers.len() ==> (#[trigger] controllers[i]).0@ != (
        #[trigger] controllers[j]).0@
}

/// Every torrent that was started is there.
pub open spec fn all_known(
    torrents: Seq<(Seq<char>, TorrentView)>,
    controllers: Seq<(String, torrent_async::Controller)>,
) -> bool {
    forall|i: int|
        0 <= i < controllers.len() ==> has_torrent(torrents, (#[trigger] controllers[i]).0@)
}

/// What a torrent reports, as the client keeps it.
pub open spec fn state_of(event: torrent_async::Event) -> Option<TorrentState> {
    match event {
        torrent_async::Event::State(state) => Some(
            TorrentState {
                status: TorrentStatus::Downloading,
                files: state.files,
                blocks: state.blocks,
                peers: state.peers,
                downloaded_window_second: (0, 0),
            },
        ),
        torrent_async::Event::Metric(_) => None,
    }
}

fn find_torrent(torrents: &Vec<(String, Torrent)>, key: &str) -> (found: Option<usize>)
    ensures
        match found {
            Some(i) => i < torrents@.len() && torrent_views(torrents@)[i as int].0 == key@,
            None => !has_torrent(torrent_views(torrents@), key@),
        },
{
    let mut i: usize = 0;
    while i < torrents.len()
        invariant
            i <= torrents@.len(),
            forall|k: int| 0 <= k < i ==> (#[trigger] torrent_views(torrents@)[k]).0 != key@,
        decreases torrents@.len() - i,
    {
        assert(torrent_views(torrents@)[i as int].0 == torrents@[i as int].0@);
        if same_text(torrents[i].0.as_str(), key) {
            return Some(i);
        }
        i = i + 1;
    }
    None
}

fn find_controller(
    controllers: &Vec<(String, torrent_async::Controller)>,
    key: &str,
) -> (found: Option<usize>)
    ensures
        match found {
            Some(i) => i < controllers@.len() && controllers@[i as int].0@ == key@,
            None => !has_controller(controllers@, key@),
        },
{
    let mut i: usize = 0;
    while i < controllers.len()
        invariant
            i <= controllers@.len(),
            forall|k: int| 0 <= k < i ==> (#[trigger] controllers@[k]).0@ != key@,
        decreases controllers@.len() - i,
    {
        if same_text(controllers[i].0.as_str(), key) {
            return Some(i);
        }
        i = i + 1;
    }
    None
}

/// What a torrent reports, as the client keeps it. Other reports are not kept.
pub fn torrent_state(event: torrent_async::Event) -> (state: Option<TorrentState>)
    ensures
        state == state_of(event),
{
    match event {
        torrent_async::Event::State(state) => Some(
            TorrentState {
                status: TorrentStatus::Downloading,
                files: state.files,
                blocks: state.blocks,
                peers: state.peers,
                downloaded_window_second: (0, 0),
            },
        ),
        torrent_async::Event::Metric(_) => None,
    }
}

impl ClientState {
    /// A client without torrents.
    pub fn init_state(data_dir: &str) -> (state: Self)
        ensures
            state.data_dir@ == data_dir@,
            state.peer_id@.take(8) == ascii(CLIENT_PREFIX@),
            state.torrents@ == Seq::<(String, Torrent)>::empty(),
    {
        ClientState {
            data_dir: data_dir.to_owned(),
            peer_id: create_peer_id(),
            torrents: Vec::new(),
        }
    }
}

proof fn lemma_known_keys(
    before: Seq<(Seq<char>, TorrentView)>,
    after: Seq<(Seq<char>, TorrentView)>,
    controllers: Seq<(String, torrent_async::Controller)>,
)
    requires
        before.len() == after.len(),
        forall|i: int| 0 <= i < before.len() ==> (#[trigger] after[i]).0 == before[i].0,
    ensures
        distinct_keys(before) ==> distinct_keys(after),
        all_known(before, controllers) ==> all_known(after, controllers),
{
    if distinct_keys(before) {
        assert forall|i: int, j: int| 0 <= i < j < after.len() implies (#[trigger] after[i]).0 != (
        #[trigger] after[j]).0 by {
            assert(before[i].0 != before[j].0);
        }
    }
    if all_known(before, controllers) {
        assert forall|c: int| 0 <= c < controllers.len() implies has_torrent(
            after,
            (#[trigger] controllers[c]).0@,
        ) by {
            let i = choose|i: int|
                0 <= i < before.len() && (#[trigger] before[i]).0 == controllers[c].0@;
            assert(after[i].0 == controllers[c].0@);
        }
    }
}

/// A torrent is added once, and those that were started stay.
pub proof fn torrents_are_added_once(
    torrents: Seq<(Seq<char>, TorrentView)>,
    controllers: Seq<(String, torrent_async::Controller)>,
    file_path: Seq<char>,
    dest_path: Seq<char>,
    meta: MetaInfoView,
    again_file: Seq<char>,
    again_dest: Seq<char>,
)
    requires
        distinct_keys(torrents),
        all_known(torrents, controllers),
    ensures
        ({
            let once = with_torrent(torrents, file_path, dest_path, meta);
            &&& distinct_keys(once)
            &&& all_known(once, controllers)
            &&& has_torrent(once, percent_encoding(meta.info_hash))
            &&& with_torrent(once, again_file, again_dest, meta) == once
        }),
{
    let once = with_torrent(torrents, file_path, dest_path, meta);
    let key = percent_encoding(meta.info_hash);
    if !has_torrent(torrents, key) {
        assert(once[once.len() - 1].0 == key);
        assert forall|i: int, j: int| 0 <= i < j < once.len() implies (#[trigger] once[i]).0 != (
        #[trigger] once[j]).0 by {
            if j < torrents.len() {
                assert(torrents[i].0 != torrents[j].0);
            } else {
                assert(torrents[i].0 != key);
            }
        }
        assert forall|c: int| 0 <= c < controllers.len() implies has_torrent(
            once,
            (#[trigger] controllers[c]).0@,
        ) by {
            let i = choose|i: int|
                0 <= i < torrents.len() && (#[trigger] torrents[i]).0 == controllers[c].0@;
            assert(once[i].0 == controllers[c].0@);
        }
    }
}

impl Client {
    /// No two torrents share a key, and those that were started are among them.
    pub open spec fn wf(&self) -> bool {
        &&& distinct_keys(self.state.entries())
        &&& distinct_controllers(self.controllers@)
        &&& all_known(self.state.entries(), self.controllers@)
    }

    /// A client with this state, that has nothing to do.
    pub fn new(state: ClientState) -> (client: Self)
        ensures
            client.state == state,
            client.wf() == distinct_keys(state.entries()),
            client.controllers@ == Seq::<(String, torrent_async::Controller)>::empty(),
            client.pending_commands@ == Seq::<ClientControlCommand>::empty(),
    {
        Client { state, controllers: Vec::new(), pending_commands: Vec::new() }
    }

    /// Leaves a command to be obeyed.
    pub fn add_command(&mut self, cmd: ClientControlCommand)
        ensures
            final(self).pending_commands@ == old(self).pending_commands@.push(cmd),
            final(self).state == old(self).state,
            final(self).controllers == old(self).controllers,
            old(self).wf() ==> final(self).wf(),
    {
        self.pending_commands.push(cmd);
    }

    /// The command that is obeyed next: the one that was left last.
    pub fn next_command(&mut self) -> (command: Option<ClientControlCommand>)
        ensures
            old(self).wf() ==> final(self).wf(),
            final(self).state == old(self).state,
            final(self).controllers == old(self).controllers,
            old(self).pending_commands@.len() == 0 ==> command is None
                && final(self).pending_commands@ == old(self).pending_commands@,
            old(self).pending_commands@.len() > 0 ==> command == Some(
                old(self).pending_commands@.last(),
            ) && final(self).pending_commands@ == old(self).pending_commands@.drop_last(),
    {
        self.pending_commands.pop()
    }

    /// Adds a torrent that was read, unless it is there.
    pub fn add_metainfo(
        &mut self,
        file_path: &str,
        dest_path: &str,
        metainfo: MetaInfo,
    ) -> (added: Result<(), ClientError>)
        ensures
            old(self).wf() ==> final(self).wf(),
            final(self).state.data_dir == old(self).state.data_dir,
            final(self).state.peer_id == old(self).state.peer_id,
            final(self).controllers == old(self).controllers,
            final(self).pending_commands == old(self).pending_commands,
            added is Ok <==> has_torrent(
                old(self).state.entries(),
                percent_encoding(metainfo@.info_hash),
            ) || torrent_name(metainfo@) is Some,
            added is Ok ==> final(self).state.entries() == with_torrent(
                old(self).state.entries(),
                file_path@,
                dest_path@,
                metainfo@,
            ) && has_torrent(final(self).state.entries(), percent_encoding(metainfo@.info_hash)),
            added is Err ==> added->Err_0 == ClientError::NoName && *final(self) == *old(self),
    {
        let ghost before = self.state.entries();
        let key = bytes_to_hex_encoding(&metainfo.info_hash);
        match find_torrent(&self.state.torrents, key.as_str()) {
            Some(_) => Ok(()),
            None => match name_torrent(&metainfo) {
                Some(name) => {
                    let entry = Torrent {
                        file_path: file_path.to_owned(),
                        dest_path: dest_path.to_owned(),
                        name,
                        metainfo,
                        state: None,
                    };
                    let ghost view = entry@;
                    self.state.torrents.push((key, entry));
                    proof {
                        assert(self.state.entries() =~= before.push((key@, view)));
                        assert(self.state.entries()[before.len() as int].0 == key@);
                        if old(self).wf() {
                            torrents_are_added_once(
                                before,
                                self.controllers@,
                                file_path@,
                                dest_path@,
                                view.metainfo,
                                file_path@,
                                dest_path@,
                            );
                        }
                    }
                    Ok(())
                },
                None => Err(ClientError::NoName),
            },
        }
    }

    /// Adds the torrent of a torrent file with these contents, unless it is there.
    pub fn add_torrent(
        &mut self,
        file_path: &str,
        dest_path: &str,
        contents: &[u8],
    ) -> (added: Result<(), ClientError>)
        ensures
            old(self).wf() ==> final(self).wf(),
            final(self).state.data_dir == old(self).state.data_dir,
            final(self).state.peer_id == old(self).state.peer_id,
            final(self).controllers == old(self).controllers,
            final(self).pending_commands == old(self).pending_commands,
            match metainfo_in(bencode_tokens(contents@)) {
                Some(meta) => {
                    &&& added is Ok <==> has_torrent(
                        old(self).state.entries(),
                        percent_encoding(meta.info_hash),
                    ) || torrent_name(meta) is Some
                    &&& added is Ok ==> final(self).state.entries() == with_torrent(
                        old(self).state.entries(),
                        file_path@,
                        dest_path@,
                        meta,
                    ) && has_torrent(final(self).state.entries(), percent_encoding(meta.info_hash))
                    &&& added is Err ==> added->Err_0 == ClientError::NoName && *final(self)
                        == *old(self)
                },
                None => added == Err::<(), _>(ClientError::InvalidMetaInfo) && *final(self)
                    == *old(self),
            },
    {
        match decode_metainfo(contents) {
            Ok(metainfo) => self.add_metainfo(file_path, dest_path, metainfo),
            Err(_) => Err(ClientError::InvalidMetaInfo),
        }
    }

    /// The keys of the torrents that were started and are not known to be complete.
    pub fn process_pending_torrents(&self) -> (keys: Vec<String>)
        requires
            self.wf(),
        ensures
            ({
                let pending = chosen(
                    self.controllers@.len() as int,
                    |i: int| is_pending(self.state.entries(), self.controllers@[i].0@),
                );
                &&& keys@.len() == pending.len()
                &&& forall|k: int|
                    0 <= k < keys@.len() ==> (#[trigger] keys@[k])@
                        == self.controllers@[pending[k] as int].0@
            }),
    {
        let ghost entries = self.state.entries();
        let ghost wanted = |i: int| is_pending(entries, self.controllers@[i].0@);
        let mut keys: Vec<String> = Vec::new();
        let mut i: usize = 0;
        while i < self.controllers.len()
            invariant
                i <= self.controllers@.len(),
                entries == self.state.entries(),
                distinct_keys(entries),
                wanted == (|i: int| is_pending(entries, self.controllers@[i].0@)),
                all_known(entries, self.controllers@),
                keys@.len() == chosen(i as int, wanted).len(),
                forall|k: int|
                    0 <= k < keys@.len() ==> (#[trigger] keys@[k])@ == self.controllers@[
                    chosen(i as int, wanted)[k] as int].0@,
            decreases self.controllers@.len() - i,
        {
            let key = self.controllers[i].0.as_str();
            assert(has_torrent(entries, self.controllers@[i as int].0@));
            let mut pending = false;
            if let Some(t) = find_torrent(&self.state.torrents, key) {
                assert(entries[t as int].1 == self.state.torrents@[t as int].1@);
                pending = match &self.state.torrents[t].1.state {
                    Some(state) => !matches!(state.status, TorrentStatus::Completed),
                    None => true,
                };
                proof {
                    assert forall|j: int|
                        0 <= j < entries.len() && (#[trigger] entries[j]).0 == key@ implies j
                        == t by {
                        if j < t {
                            assert(entries[j].0 != entries[t as int].0);
                        } else if t < j {
                            assert(entries[t as int].0 != entries[j].0);
                        }
                    }
                }
            }
            assert(pending == wanted(i as int));
            if pending {
                keys.push(key.to_owned());
            }
            i = i + 1;
        }
        keys
    }

    /// Whether the torrent with this key was started.
    pub fn is_started(&self, torrent_hash: &str) -> (started: bool)
        ensures
            started == has_controller(self.controllers@, torrent_hash@),
    {
        find_controller(&self.controllers, torrent_hash).is_some()
    }

    /// Starts the torrent with this key unless it was started, with what is in the directory
    /// for its blocks and at its destination. `false` where its pieces and files do not fit
    /// together, so that it cannot be started.
    pub fn start_torrent(
        &mut self,
        torrent_hash: &str,
        temp_path_entries: Vec<DiskEntry>,
        dest_path_entries: Vec<DiskEntry>,
    ) -> (started: bool)
        requires
            has_torrent(old(self).state.entries(), torrent_hash@),
        ensures
            old(self).wf() ==> final(self).wf(),
            final(self).state == old(self).state,
            final(self).pending_commands == old(self).pending_commands,
            started <==> has_controller(final(self).controllers@, torrent_hash@),
            has_controller(old(self).controllers@, torrent_hash@) || !started
                ==> final(self).controllers@ == old(self).controllers@,
            !has_controller(old(self).controllers@, torrent_hash@) ==> exists|i: int|
                0 <= i < old(self).state.entries().len() && (
                #[trigger] old(self).state.entries()[i]).0 == torrent_hash@ && {
                    let entry = old(self).state.entries()[i].1;
                    &&& started == is_complete(entry.metainfo)
                    &&& started ==> {
                        let last = final(self).controllers@.last();
                        &&& final(self).controllers@.drop_last() == old(self).controllers@
                        &&& last.0@ == torrent_hash@
                        &&& is_new_controller(
                            last.1,
                            old(self).state.peer_id@,
                            entry.dest_path,
                            entry.metainfo,
                            temp_path_entries,
                            dest_path_entries,
                        )
                    }
                },
    {
        let ghost before = self.controllers@;
        if self.is_started(torrent_hash) {
            return true;
        }
        match find_torrent(&self.state.torrents, torrent_hash) {
            Some(i) => {
                assert(self.state.entries()[i as int].1 == self.state.torrents@[i as int].1@);
                assert(self.state.entries()[i as int].0 == torrent_hash@);
                if !meta_is_complete(&self.state.torrents[i].1.metainfo) {
                    return false;
                }
                let controller = torrent_async::Controller::new(
                    self.state.peer_id,
                    &self.state.torrents[i].1.metainfo,
                    self.state.torrents[i].1.dest_path.as_str(),
                    temp_path_entries,
                    dest_path_entries,
                );
                self.controllers.push((torrent_hash.to_owned(), controller));
                proof {
                    assert(self.controllers@.drop_last() =~= before);
                    assert(self.controllers@[before.len() as int].0@ == torrent_hash@);
                }
                true
            },
            None => false,
        }
    }

    /// Hands out the torrent with this key, which is to listen.
    pub fn take_controller(&mut self, torrent_hash: &str) -> (controller: Option<
        torrent_async::Controller,
    >)
        ensures
            old(self).wf() ==> final(self).wf(),
            final(self).state == old(self).state,
            final(self).pending_commands == old(self).pending_commands,
            !has_controller(old(self).controllers@, torrent_hash@) ==> controller is None
                && final(self).controllers@ == old(self).controllers@,
            has_controller(old(self).controllers@, torrent_hash@) ==> exists|i: int|
                0 <= i < old(self).controllers@.len() && (
                #[trigger] old(self).controllers@[i]).0@ == torrent_hash@ && controller == Some(
                    old(self).controllers@[i].1,
                ) && final(self).controllers@ == old(self).controllers@.remove(i),
    {
        match find_controller(&self.controllers, torrent_hash) {
            Some(i) => {
                let (_, controller) = self.controllers.remove(i);
                Some(controller)
            },
            None => None,
        }
    }

    /// Takes a torrent back after it has listened.
    pub fn put_controller(&mut self, torrent_hash: String, controller: torrent_async::Controller)
        ensures
            old(self).wf() && has_torrent(old(self).state.entries(), torrent_hash@)
                ==> final(self).wf(),
            final(self).state == old(self).state,
            final(self).pending_commands == old(self).pending_commands,
            !has_controller(old(self).controllers@, torrent_hash@) ==> final(self).controllers@
                == old(self).controllers@.push((torrent_hash, controller)),
            has_controller(old(self).controllers@, torrent_hash@) ==> exists|i: int|
                0 <= i < old(self).controllers@.len() && (
                #[trigger] old(self).controllers@[i]).0@ == torrent_hash@
                    && final(self).controllers@ == old(self).controllers@.update(
                    i,
                    (torrent_hash, controller),
                ),
    {
        match find_controller(&self.controllers, torrent_hash.as_str()) {
            Some(i) => {
                assert(self.controllers@[i as int].0@ == torrent_hash@);
                self.controllers.set(i, (torrent_hash, controller));
            },
            None => {
                self.controllers.push((torrent_hash, controller));
            },
        }
    }

    /// Takes in the state that the torrent with this key reports.
    pub fn update_torrent(&mut self, torrent_hash: &str, state: TorrentState)
        requires
            has_torrent(old(self).state.entries(), torrent_hash@),
        ensures
            old(self).wf() ==> final(self).wf(),
            final(self).state.data_dir == old(self).state.data_dir,
            final(self).state.peer_id == old(self).state.peer_id,
            final(self).controllers == old(self).controllers,
            final(self).pending_commands == old(self).pending_commands,
            exists|i: int|
                0 <= i < old(self).state.entries().len() && (
                #[trigger] old(self).state.entries()[i]).0 == torrent_hash@
                    && final(self).state.entries() == old(self).state.entries().update(
                    i,
                    (
                        torrent_hash@,
                        TorrentView { state: Some(state), ..old(self).state.entries()[i].1 },
                    ),
                ),
    {
        let ghost before = self.state.entries();
        if let Some(i) = find_torrent(&self.state.torrents, torrent_hash) {
            assert(before[i as int].1 == self.state.torrents@[i as int].1@);
            assert(before[i as int].0 == torrent_hash@);
            self.state.torrents[i].1.state = Some(state);
            assert(self.state.entries() =~= before.update(
                i as int,
                (torrent_hash@, TorrentView { state: Some(state), ..before[i as int].1 }),
            ));
            proof {
                lemma_known_keys(before, self.state.entries(), self.controllers@);
            }
        }
    }
}

} // verus!
