# codecrafters_bittorrent

A BitTorrent client library, verified with Verus, and the command-line
client around it.

- `src/` is the verified library: bencode values and their JSON form,
  torrent files and info hashes, the peer wire protocol (handshake,
  length-prefixed frames, piece requests and pieces, the extension protocol
  and metadata messages), the frame codec, the decisions a connection makes
  on each answer from a peer, magnet links, tracker requests and answers,
  and the download plan (block requests, round-robin sharing of pieces,
  piece hash checks, putting the file together).
  - `messages.rs` holds the messages as a connection reads them;
    `peer_messages.rs` holds the codec's variant, where an unknown tag
    reads as `UNKNOWN` and extension handshakes keep every other field.
  - Calls into `serde_bencode`, `hex`, `sha1`, `serde_urlencoded` and
    `reqwest`'s URL parser go through small trusted wrappers; their
    `ensures` clauses are what is trusted, and their doc comments say so in
    words.
- `app/` is the command-line client: arguments, files, HTTP and TCP, and the
  tokio codec adapter over the library's codec.
- `tests/` runs the library on concrete values.
