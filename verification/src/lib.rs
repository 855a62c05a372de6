//! Two classical distributed coordination protocols over point-to-point
//! messaging, verified: a single-round Byzantine-resilient command agreement
//! (oral messages, one faulty participant) and Lamport's logical-clock
//! mutual exclusion. The transport and the scenario driver are ordinary
//! unverified glue; everything a node decides — message decoding and
//! dispatch, clock discipline, queue ordering, admission and majority
//! decisions — lives here with contracts.

pub mod byzantine;
pub mod codec;
pub mod lamport;
pub mod msg;
