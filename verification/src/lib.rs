//! Authoritative state of a small multiplayer space shooter: the entity
//! tables with their reusable identifiers, the session table, the handlers of
//! client messages, the fixed-tick bookkeeping and the wire format.
//!
//! Scalars (coordinates, speeds, angles) are carried as the bit patterns of
//! IEEE-754 singles. The library stores, compares and encodes them; the
//! arithmetic on them is the caller's.

pub mod obj;
pub mod mirror;
pub mod net;
pub mod serv;
pub mod server;
pub mod table;
pub mod tick;
pub mod wire;
