# corro_sync

The synchronisation protocol of a gossiping cluster, verified with Verus.

- `src/` is the library. It decides: whom to synchronise with, what to ask for, whether
  and how to serve a peer, how to frame and pace what is sent, how to bundle what is
  received, and how connections are secured. What a function does stands in its contract,
  and the laws that span several functions stand beside them as `law_*` proof functions.
- `app/` is the node around it: QUIC streams, files, the database and the tasks. It does
  what the library says and reports what happened.
- `tests/` runs the library.

Functions marked `external_body` call other crates (`bytes`, `tokio-util`, `rangemap`,
`rand`, `rustls`, `rustls-pemfile`). Their contracts are not proved; each says in its
comment which function it calls and what it claims of it.
