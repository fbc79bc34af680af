# tempest

A BitTorrent client whose decisions are verified with Verus: bencode parsing, SHA-1 verified
piece reassembly, rarest-first selection, tit-for-tat choking, and a sliding window of requests
(8 peers, 12 blocks each).

- `src/` is the library. It holds no I/O: it reads bytes, keeps the state of a download, and
  says what is to be done next. Contracts state what functions return; where a result rests on
  chance, they state what holds of every outcome.
  - `bencoding`, with its grammar in `grammar` and its round trips in `roundtrip`
  - `metainfo`, over the model in `torrent`; laws in `torrent_laws`
  - `tracker`: which trackers to ask, requests, and answers; laws in `tracker::laws`
  - `peer`: handshake, messages, and what passes between a peer and the coordinator
  - `piece`, over the model in `pieces`; laws in `piece_laws` and `assembly_laws`
  - `storage`, over the model in `disk`
  - `coordinator`, over the model in `swarm`; `swarm_valid` shows that everything keeps
    fitting together, `coverage` when requests can be sent out, and `swarm_laws`, `round_laws`,
    `availability_laws` and `download_laws` what follows
  - `error`, and `octets` and `sequences` with what several modules need
  - `buffer`, `bytestring`, `digest`, `random` and `text` hold the calls into other crates and
    into std whose contracts are taken on trust
- `app/` is the command line client around it: sockets, timers, files.

```bash
tempest <path-to.torrent> [--output DIR] [--port 6881] [--max-peers 40]
```
