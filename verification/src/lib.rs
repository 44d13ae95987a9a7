//! Post-mortem capture for every app on the mesh: crash capsules, their grouping, and what is
//! said of them.
//!
//! A crash capsule is one document: what died, how (exit, signal or exception), and the evidence
//! (the tail of stderr or the stack, the command line, the names of the environment variables and
//! never their values). Capsules are stored by their content; their index is an error event of
//! ce-debug that carries the id of the capsule, so that crashes show in the normal stream of
//! errors and their full evidence is one fetch away. The wrapper-runner and the hooks of the
//! language clients make capsules of the same shape.
//!
//! - `capsule`: the capsule, and that of a child process which was seen to end
//! - `event`: the index event of a capsule, and the crash that such an event tells of
//! - `group`: crashes of one cause, the latest first
//! - `render`, `report`: what people read; `reading`: what they learn from it
//! - `args`, `run`, `tail`, `protocol`: the decisions of the command line program
//! - `calendar`, `seconds`, `clock`: time
//! - `text`, `order`, `json`, `paths`: texts, documents and paths

pub mod args;
pub mod calendar;
pub mod capsule;
pub mod clock;
pub mod event;
pub mod group;
pub mod json;
pub mod order;
pub mod paths;
pub mod protocol;
pub mod reading;
pub mod render;
pub mod report;
pub mod run;
pub mod seconds;
pub mod tail;
pub mod text;

pub use crate::args::{flag, positional};
pub use crate::calendar::{fmt_datetime, fmt_time};
pub use crate::capsule::{build_run_capsule, Capsule, Host, STDERR_TAIL_LINES};
pub use crate::clock::now_ms;
pub use crate::event::index_event;
pub use crate::group::{fingerprint, group_crashes, CrashGroup};
pub use crate::paths::basename;
pub use crate::protocol::{CTL_TOPIC, SERVICE};
pub use crate::render::render_capsule;
