//! Watches a configured list of executables against the live process table.
//!
//! The crate is organised around the poll-cycle reconciler: each cycle a
//! configuration snapshot ([`config::Config`]) is compared against a process
//! table snapshot, and the active-monitor table ([`monitor::MonitorTable`])
//! is updated, emitting the start/stop actions that a supervising shell
//! carries out.  Everything that decides — scanning, reconciliation, the
//! command batch bookkeeping — is verified here; process spawning, file
//! reading and thread plumbing live with the caller.

pub mod config;
pub mod logger;
pub mod monitor;
pub mod runner;
pub mod scan;
pub mod text;
pub mod util;
