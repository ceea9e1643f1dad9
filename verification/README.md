# transg

A verified core for a remote-control client of the Transmission BitTorrent
daemon, checked with Verus.

`src/` is the library. Every function in it carries a contract that Verus
proves:

- `format`: sizes, transfer rates, durations and UTC times as the client
  shows them. Sizes and rates are proved against a spec model of `f64`
  division and of the round-half-to-even of `{:.2}`; that this model matches
  Rust's float formatting is checked by tests on many sample values, not
  proved.
- `tree`: the file tree of a torrent, with proofs that the tree does not
  depend on the order of the entries (`lemma_forest_unique`,
  `lemma_do_build_tree_order`, `lemma_build_tree_order`), that entries ending
  above a level change nothing there (`lemma_do_build_tree_shallow`), that
  `build_tree` is `do_build_tree` on the split file names
  (`lemma_build_tree_is_do_build_tree`), that each level accounts for every
  byte below it (`lemma_forest_totals`), and that every folder is found
  again by its path (`lemma_forest_paths`, `lemma_tree_paths`).
- `listing`: merging a partial torrent list from the server into the shown
  one, with a proof that the result stays sorted and shows each update.
- `stats`: the per-status and per-folder counts of the sidebar, with proofs
  that the counts add up and that each folder is shown exactly once.
- `requests`, `json`, `commands`: the RPC request bodies, the decisions of
  the command loop and the session-id handshake.
- `magnet`: titles of magnet links, the files listed in torrent metadata and
  the command that adds a torrent.
- `ui`: icons, labels, filters, sort order and selections of the list.

Calls into outside crates (chrono, base64, urlencoding, magnet-url,
lava_torrent) sit behind a few trusted wrappers whose doc comments say what
their contracts assume.

`app/` is a small terminal front end that does the I/O: it reads the
configuration, talks HTTP to the server and prints what the library computes.
`tests/` runs the library on concrete values.
