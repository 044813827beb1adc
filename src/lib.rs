//! The peer-wire half of a swarm file-transfer client: the message codec,
//! the block scheduler and the decisions of the coordinating event loop.

pub mod convert;
pub mod support;
pub mod network;
pub mod messages;
pub mod piece_selection;
pub mod peer;
pub mod download;
