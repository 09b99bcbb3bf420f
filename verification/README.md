# pcyp-rust

A browser for PeerCast YP channel directories. The library (`src/`, verified with
Verus) holds the logic; `app/` is the Windows program around it (egui window, HTTP,
files, tray and toasts).

Library modules:

- `text` — characters and strings: trimming, splitting, decimal numbers.
- `chandir` — reading a YP's `index.txt` into channels; URLs and texts of a channel.
- `config` — settings: YP entries, the PeerCast address, players, checks of a
  settings dialog, notices after reading a broken settings file.
- `peercast` — URLs, credentials and answers of the local PeerCast.
- `player` — play URLs and a player's command line.
- `fetch` — the URL asked of a YP and the decoding of its answer.
- `pattern` — compiled regular expressions, kept with the pattern they were built from.
- `filter` — favorite / ignore / color filters, and edits of the filter list.
- `worker` — the state shared with the window and the decisions of each round of
  fetching (which YPs, what is new, what to tell the user).
- `listing` — the rows, columns, tabs and order of the channel list.
- `win` — window placement rules and clock texts (the clock itself is read by `app/`).

Tests are under `tests/`.
