# mcmu

A relay that lets Minecraft Bedrock players join a game hosted on another
machine, as if it were on their LAN. A rendezvous server hands out rooms;
host and player each open two UDP pipes through the server's relay, one for
the server status (the unconnected pong, which the player's side rewrites so
that its local game dials the game pipe) and one for the game itself.

Layout:

- `src/` — the verified library (Verus):
  - `protocol.rs`: rendezvous messages, datagram kinds, dialling and
    acknowledgement datagrams, payload framing on a pipe;
  - `server.rs`: rooms, bridges, and the relay table with its idle clocks;
  - `pipes.rs`: the forwarding decisions of the host's and the player's pipes;
  - `mcpe.rs`: cutting and rewriting the server status text;
  - `decimal.rs`: decimal text of port and room numbers;
  - `ring_buffer.rs`: a bounded byte ring with a writer and a reader half.
- `app/` — the program: command line, sockets, tasks and timers, the wire
  encoding of the rendezvous messages.
- `tests/` — tests of the library.
