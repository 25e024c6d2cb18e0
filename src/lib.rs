//! A single-threaded TCP relay: every byte chunk read from one connection is
//! written to every other connection, with a hard cap on concurrent
//! connections. The library holds the connection slot table and the decisions
//! of the event loop; the caller performs the socket work and reports back.
//! It also holds the logic of the load-generating client: reassembly of
//! newline-terminated lines and the random chunking of outgoing messages.

pub mod lines;
pub mod relay;
pub mod slots;
pub mod traffic;

pub use lines::{line_matches, LineAssembler, NEWLINE};
pub use relay::{dispatch, handle_accept, handle_client, AcceptAction, AcceptOutcome, EventTarget, IoFailure, ReadOutcome, RelayAction, REJECTION_MESSAGE};
pub use slots::{Admission, ClientSlot, SlotError, SlotTable, BUFFER_SIZE, LISTENER, MAX_CLIENTS};
pub use traffic::{ascii_bytes, TrafficConfig};
