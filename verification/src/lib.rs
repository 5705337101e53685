//! A two-player matchmaking and turn-coordination service: clients open or
//! join a game by code, then submit one blind wager per turn and learn only
//! how the partner's wager compared to their own.
//!
//! The crate holds everything that can be stated and proved: the wire
//! codec and its framing (`msg`, `codec`, `wire`, `framing`), the game
//! bookkeeping (`game`), the server's registry and session state machine
//! (`server`), and the client's mirror of it (`client`).  Sockets and the
//! event loop live outside; they feed bytes and events in, and carry the
//! state machine's directives out.

pub mod msg;
pub mod codec;
pub mod wire;
pub mod framing;
pub mod game;
pub mod server;
pub mod client;
