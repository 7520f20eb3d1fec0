# blue2th_server

The decision logic of the blue2th PC backend, verified with Verus, and a thin
program around it.

- `src/` is the verified library. `auth` pairs a phone (one-shot, expiring,
  attempt-capped codes; bearer-token checks), `config` and `identity` hold the
  backend's name, settings and stable id, `reconnect` is the auto-reconnect
  backoff ladder, `server` is the route table, the guard, the bind and
  advertised addresses and the HTTP status of each failure, `audio` plans and
  reconciles the combined sink that feeds every selected speaker and drives the
  playback state machine, `graph_pactl` reads what `pactl` prints, and
  `graph_pw` mirrors the PipeWire registry and decides what the native graph
  creates, wires and destroys. `text`, `split` and `entropy` are shared helpers.
- `tests/` exercises the library from outside.
- `app/` is the program: it reads and writes the on-disk stores, asks the host
  for its addresses, runs `pactl`, and holds the volume levels, which are
  fractions.

Times are milliseconds passed in by the caller; the library never reads a
clock.

The router, the playback engine and the native graph's loop each keep a ghost
record of the calls they make on what drives them (the audio graph, the audio
output, the daemon), with the answers they got; their contracts say, over that
record, which calls an operation makes, with what, and what it does with each
answer: the router's passes are laid out call by call, and a daemon operation
states what it hands over, when it reaches the daemon at all, and what holds
whatever the daemon answered.
