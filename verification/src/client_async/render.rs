//! What is shown of the torrents.

use vstd::prelude::*;
use vstd::string::*;

use super::models::{progress_in, ClientState, TorrentView};
use crate::progress::{append_line, describe, lines, measure, torrent_text};

verus! {

pub open spec fn texts_of(torrents: Seq<(Seq<char>, TorrentView)>) -> Seq<Seq<char>> {
    Seq::new(
        torrents.len(),
        |i: int| torrent_text(torrents[i].1.name, progress_in(torrents[i].1.state)),
    )
}

/// What is shown of the torrents.
pub fn view_state(state: &ClientState) -> (view: String)
    ensures
        view@ == lines(texts_of(state.entries())),
{
    let ghost texts = texts_of(state.entries());
    let mut view = String::new();
    let mut i: usize = 0;
    assert(texts.take(0) =~= seq![]);
    assert(view@ =~= lines(texts.take(0)));
    while i < state.torrents.len()
        invariant
            i <= state.torrents@.len(),
            texts == texts_of(state.entries()),
            view@ == lines(texts.take(i as int)),
        decreases state.torrents@.len() - i,
    {
        let entry = &state.torrents[i].1;
        assert(state.entries()[i as int].1 == entry@);
        let progress = match &entry.state {
            Some(state) => Some(measure(&state.files, &state.blocks, &state.peers)),
            None => None,
        };
        let text = describe(entry.name.as_str(), &progress);
        append_line(&mut view, text.as_str(), i == 0, Ghost(texts.take(i as int)));
        assert(texts.take(i + 1) =~= texts.take(i as int).push(text@));
        i = i + 1;
    }
    assert(texts.take(i as int) =~= texts);
    view
}

} // verus!
