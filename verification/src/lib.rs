//! Watches a directory tree for file-content changes and reports each changed
//! file once per quiescence window.
//!
//! The crate is the core of a file-update monitor: a classifier that keeps
//! only content-modification events (`event`), a per-key debouncer that
//! coalesces bursts of arrivals into a single firing after a configured
//! quiet interval (`debounce`), and a monitor whose session walks
//! `Idle -> Watching -> Terminated` while driving the pipeline (`monitor`).
//! The `laws` module states and proves the debouncing guarantees: one firing
//! per burst, independence of distinct keys, timer reset on repeated
//! arrivals, and immediate firing under a zero interval.
//!
//! Timing, OS watch registration and callback invocation are left to the
//! embedding program, which feeds raw events and clock readings in and
//! performs the firings handed back.

pub mod debounce;
pub mod event;
pub mod laws;
pub mod monitor;

pub use debounce::Debouncer;
pub use event::EventKind;
pub use event::RawEvent;
pub use monitor::Monitor;
pub use monitor::Phase;
pub use monitor::Session;
