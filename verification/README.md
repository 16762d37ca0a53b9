# paste_it

A clipboard history for X11 (a daemon that records what is copied, and a
popup that lists it), with its rules written and proved in Verus.

- `src/` is the verified library:
  - `model.rs`: the history table as a sequence of rows, newest first, and
    every store operation as a function on it;
  - `database.rs`: the store (`Database`, `ClipboardEntry`) that implements
    those operations;
  - `like.rs`: the search filter, with the semantics of SQLite's `LIKE`;
  - `hashing.rs`: content hashes (hex SHA-256 of content and type);
  - `imaging.rs`: decoding, scaling and encoding images for thumbnails;
  - `clock.rs`: the current time as RFC 3339 text;
  - `daemon.rs`: what the clipboard watcher records and injects;
  - `ui.rs`: the popup's cards, text previews and row activation;
  - `protocol.rs`, `paste_handler.rs`: the socket messages and start-up
    decisions, and the window id read from `xdotool`;
  - `text.rs`: UTF-8 decoding and trimming;
  - `laws.rs`: what holds across the store's operations.
- `app/` is the program around it: GTK, sockets, `xdotool`, and the SQLite
  file that keeps the history between runs.
- `tests/` runs the library on concrete values.
