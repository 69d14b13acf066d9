//! Node runtime and workload state machines for a Maelstrom-style test harness.

pub mod bcast;
pub mod bcast_runs;
pub mod echo;
pub mod g_counter;
pub mod g_counter_runs;
pub mod k_log;
pub mod k_log_runs;
pub mod log;
pub mod message;
pub mod node;
pub mod pattern;
pub mod runtime;
pub mod sets;
pub mod ta_map;
pub mod ta_map_runs;
pub mod table;
pub mod tally;
pub mod uniq_ids;

pub use message::{handshake, Body, Event, Init, InitPayload, Message, NotInit};
pub use node::{Node, StepError, Timer};
pub use runtime::{run, OpenError, Session, Transcript};
