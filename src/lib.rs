//! A voice-over-IP server core in the Mumble family: the varint and
//! voice-frame codecs, control-message framing, the nonce and replay-window
//! bookkeeping of the voice cipher, the channel graph with whisper targets and
//! listener resolution, the client/channel registry, and the decisions of the
//! control-plane session loop.

pub mod varint;
pub mod target;
pub mod client;
pub mod state;
pub mod voice;
pub mod crypt;
pub mod proto;
pub mod session;
