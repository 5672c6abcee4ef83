//! Paced emission of packets, and a reference model of the path secret map whose entries
//! the packets speak of.
//!
//! * [`clock`] reads the time, as nanoseconds since an origin.
//! * [`schedule`] is the mathematical model of pacing, with the laws that it obeys.
//! * [`pacer`] decides when the next packet may leave.
//! * [`emission`] paces a batch of entries up to a deadline and counts what became of them.
//! * [`operation`] names what can happen to a path secret map.
//! * [`model`] tracks what must hold of the map after each operation.
//! * [`run`] holds a whole run of operations against that model.

pub mod clock;
pub mod emission;
pub mod model;
pub mod operation;
pub mod pacer;
pub mod run;
pub mod schedule;
