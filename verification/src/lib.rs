//! Streams that arrive as files on an SMB share. One file is one Stream, its
//! name kept beside it.
//!
//! SMB is the file share every Windows network already has, and a folder on one
//! is a drop box a partner writes into and an integrator reads out of. What is
//! spoken here is SMB2, dialect 2.0.2, over TCP on port 445 ([`wire`]):
//! `NEGOTIATE`, `SESSION_SETUP` with the NTLM messages ([`ntlmssp`]),
//! `TREE_CONNECT` to one share, then `CREATE`, `WRITE`, `READ`, `CLOSE` and
//! `QUERY_DIRECTORY` over one file ([`message`], [`directory`]). A Receive
//! Location lists the share and reads each file, removing it once it is safely
//! a Stream; a Send Location creates and writes ([`transfer`], [`client`]).
//! Either may instead accept clients directly through [`Session`], one client's
//! worth of server over one share in memory ([`session`], [`share`]).
//!
//! Nothing here reads or writes a socket. Each operation is a state that takes
//! the message that was read and says which to send, so that what it does is
//! proved for every answer; [`sending`] and [`receiving`] state what a client
//! and a session come to together.
//!
//! The `NTLMv2` response a real `SESSION_SETUP` carries is not computed here: it
//! belongs to the identity capability. The logon is taken as a guest, and
//! message signing is left off, so a server that requires it refuses.
//!
//! The origin URI carries what the server knew: `smb://server/share/name`. A
//! send target is `smb://host:445/share/name`, or a name alone on the
//! configured server and share.

pub mod accepting;
pub mod arrived;
pub mod client;
pub mod directory;
pub mod error;
pub mod far_end;
pub mod handles;
pub mod message;
pub mod ntlm;
pub mod ntlmssp;
pub mod receiving;
pub mod sending;
pub mod served;
pub mod session;
pub mod share;
pub mod text;
pub mod transfer;
pub mod utf16;
pub mod wire;

pub use client::Client;
pub use ntlm::Identity;
pub use session::{Event, Session};
pub use transfer::SmbTransport;
