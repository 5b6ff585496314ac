# bittorrent_client

A BitTorrent client whose logic is verified with Verus.

- `src/` is the library: it decodes torrent files and tracker responses, lays a torrent out
  in blocks, follows what peers report, decides which blocks are requested from whom, checks
  pieces, says where data is read and written, and shows how far torrents have come. It does
  no I/O: where something is to be sent, read or written it says what, and takes the outcome
  in.
- `app/` is the program around it: sockets, threads, files and the clock.
- `tests/` runs the library on concrete values.

The library calls `bendy`, `rand`, `sha1` and `url`. What it takes for granted of them stands
in the contracts of the few functions that make those calls.

| Module | What it holds |
|---|---|
| `bencode` | torrent files and tracker responses |
| `layout` | how a torrent is cut into pieces and blocks |
| `wire`, `peer`, `peer_async`, `connection` | messages of peers, and connections that follow them |
| `swarm`, `round` | the peers of a torrent, and a round of requests to them |
| `torrent` | a torrent with its files, pieces and blocks, its trackers and its scheduler |
| `torrent_async`, `simple_torrent` | torrents that are asked, and torrents without verification |
| `writer` | files that are written piece by piece |
| `client`, `client_async`, `progress` | clients, and what they show of their torrents |
| `text`, `path`, `utils`, `order`, `select` | texts, paths, encodings, sorting and choosing |
