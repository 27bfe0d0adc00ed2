# moonlight_web

The verified core of a bridge that streams one Moonlight host session to any
number of browsers over WebRTC.

- `src/` is the library, checked by Verus: the H.264 Annex B reader
  (`annexb`, `h264`, `reader`), the tables of peers, sessions and held inputs
  (`keyed_table`, `hold_table`), the input aggregation rules
  (`input_aggregator`), the media fan-out (`broadcaster`), and the decisions
  of the stream and streamer endpoints and the stored pairing data
  (`session`, `signaling`, `streamers`, `pairing`). Calls into tokio, pem,
  uuid and webrtc go through a few trusted wrappers whose contracts are
  documented where they stand.
- `tests/` runs the library on concrete inputs.
- `app/` is the program around it: the streamer process, the HTTP and
  WebSocket handlers, process spawning and disk I/O. It performs what the
  library decides.
