# smb

Streams as files on an SMB share: one file is one Stream. SMB2 over TCP, dialect
2.0.2, one tree, against a server or against the one-client server this crate
carries.

`src/` is the library, verified with Verus. It reads and writes no socket: each
operation is a state that takes the message that was read and says which to send
next.

- `wire`, `message`, `directory`, `utf16`: the bytes of messages, bodies and
  listings, and that what was written reads back.
- `ntlmssp`: the NTLM messages that a session setup carries, with their names in
  security buffers. `ntlm` holds the identity, and tokens in counted fields.
- `session`, `accepting`, `handles`, `share`: the server's side, over files in
  memory.
- `client`, `transfer`: the client's side, and a send and a receive.
- `far_end`, `sending`, `receiving`: what the two sides come to together. A
  Stream that is sent arrives whole, a receive takes every file, and a client
  that asks for another share is refused. The server's reading of the client's
  two NTLM messages is not the library's: this holds of any that takes them, and
  one that takes what is laid out as they are takes them of every client.
- `error`, `text`, `arrived`: what the others are put together from.

`tests/` runs both sides against each other in memory. `app/` holds the sockets,
the clock, and the transport the library is registered as.
