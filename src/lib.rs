//! Leader election for a Raft-style node: the per-node voting record, the
//! rule by which a node answers a vote request, and the tally by which a
//! candidate turns its peers' answers into a role.
pub mod election;
pub mod voting;
