//! Live process migration: capture a process tree on the origin host, ship
//! it over a framed binary stream, and rebuild the address spaces on the
//! destination.
//!
//! This crate holds the verified core: the snapshot data model, the wire
//! codec, the capture builders and their invariants, the restore planning
//! (safe hole search and trampoline layout), and the state machines of the
//! origin supervisor and of the destination session.

use vstd::prelude::*;

pub mod error;
pub mod paths;
pub mod proto;
pub mod restore;
pub mod session;
pub mod supervisor;
pub mod capture;
pub mod codec;
pub mod wire;

verus! {

} // verus!
