# goose_roaming

Peer-to-peer roaming for agents: a host shares its agent, and a remote peer
connects to it through a relay, finds out what it may do, and drives sessions
there. The library decides; the program around it moves the bytes.

## Layout

- `src/` is the library. Every function is verified with Verus; what it takes
  from other crates stands behind small wrappers whose comments say what is
  believed of them.
  - `identity`, `invite`, `card`, `frame`: keys, signed invites, connection
    cards, and the frames of the handshake.
  - `trust`, `acceptance`, `access`, `node`: who is admitted, by invite or by
    key, and the steps of serving and dialling.
  - `broker`, `shared_session`: one live session shared by several peers.
  - `federation`, `supervisor`: the sessions of remote peers in one list, and
    keeping the connections to them up.
  - `browse`: listing directories within allowed roots.
  - `web`: the browser's side. `client`, `roam`: the terminal's side.
  - `text`, `digits`, `lists`, `text_set`, `ranking`, `instant`, `relay_url`,
    `base64url`, `sha256`: what the others are made of.
- `tests/` runs the library with the other crates linked.
- `app/` is ordinary Rust around the library: the transport, files, terminal and
  agent protocol.
