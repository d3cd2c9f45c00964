# jda

The engine of a multi-connection download manager, verified with Verus.

A download is split into byte-range parts that several workers fetch in
parallel; when no part is left unassigned, the busiest worker's range is cut
in half and the second half handed to the next worker. The library holds the
decisions around that: which range a worker gets, how received chunks are cut
at a range's end, when a setback is retried or a part given back, how the
download's counters and state follow the workers, what the user's commands do
to the list of downloads, and how a file name is chosen from HTTP headers and
the names already taken in a folder.

## Layout

- `src/` — the verified library
  - `models.rs` — downloads, parts, active ranges, probe results
  - `scheduler.rs` — handing out ranges (`get_next_part`) and the law that,
    while the active entries follow their parts, it never double-assigns a
    part and keeps the covered bytes unchanged (a download of unknown size
    gets its single part `0..=0` created when it has none)
  - `transfer.rs` — a worker's decisions: request headers, what a reply's
    status means, chunk clamping, retries, progress and speed counters,
    giving a part back, final state
  - `downloads.rs` — the user's commands on the list (add, pause, resume,
    cancel, re-link, select, delete), what resuming comes to (`ResumePlan`),
    and restoring the list after a restart
  - `probe.rs` — what probing a link tells (file name, size, range support),
    header forwarding, `jda://` links
  - `utils.rs` — MIME extensions, `Content-Disposition` file names, free
    numbered names in a folder
  - `text.rs` — the string operations the rest is written with
  - `outside.rs` — the trusted boundary: the calls into `url`, `urlencoding`,
    `reqwest`'s header types and `std::path`, each with its contract
- `tests/` — tests of the library on concrete values
- `app/` — the desktop app around the library: window commands, the HTTP
  workers, the local server for the browser extension, state on disk
