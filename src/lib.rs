//! Frame routing core of a face-detection streaming server.
//!
//! Publishers stream JPEG frames into named channels; the router fans every frame out
//! to the channel's raw subscribers and offers it, best effort, to a single inference
//! worker whose annotated result is fanned out to the channel's annotated subscribers.
//! Everything here is plain data and decisions: sockets, HTTP, JPEG coding and the
//! neural network live with the caller.

pub mod channel_id;
pub mod detect;
pub mod meter;
pub mod multipart;
pub mod protocol;
pub mod router;
pub mod session;
