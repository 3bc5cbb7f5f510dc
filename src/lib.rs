//! Executable-code arena and per-thread trap bookkeeping for a WebAssembly
//! engine.
//!
//! `code_memory` hands out byte ranges for finished machine code and tracks
//! when each mapping becomes read-execute; `unwind_record` lays out the
//! table-based fault-routing record placed at the head of a mapping;
//! `trap_state` holds the trap address, the active recovery point and the
//! guard-page repair flag, and decides what a failed guest call reports.
mod page;

pub mod code_memory;
pub mod trap_state;
pub mod unwind_record;

pub use code_memory::{CodeMemory, CodeRange, FaultRouting, Protection, MIN_CHUNK};
pub use trap_state::{trap_message, CallOutcome, TrapState};
pub use unwind_record::{handler_record, HANDLER_RECORD_LEN};
