#![verifier::loop_isolation(false)]

//! A verified engine that drives a build tool, collects its structured
//! diagnostics, and applies the machine-safe suggested edits until the
//! diagnostics converge or a retry budget runs out.
//!
//! The engine itself is pure: it turns decoded build events and file
//! contents into decisions (which unit to fix, which patches to accept,
//! what to report), and a thin unverified shell performs the build
//! invocations and the file reads and writes it asks for.

pub mod apply;
pub mod check;
pub mod engine;
pub mod extract;
pub mod patch;
pub mod suggest;
pub mod util;
