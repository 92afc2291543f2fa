//! Whisper/shout slots: what a non-zero target id in a voice header refers to.

use vstd::prelude::*;

verus! {

/// One whisper slot of a client.
pub enum VoiceTarget {
    /// Nothing installed: frames sent to this slot reach nobody.
    Empty,
    /// An explicit list of session ids.
    Users(Vec<u32>),
    /// A channel, optionally widened by its links and by its descendants, and
    /// optionally narrowed to clients that hold the `group` token.
    Channel { channel_id: u32, links: bool, children: bool, group: Option<String> },
}

impl VoiceTarget {
    /// An empty slot.
    pub fn new() -> (r: VoiceTarget)
        ensures
            r is Empty,
    {
        VoiceTarget::Empty
    }

    /// A slot that whispers to the given sessions.
    pub fn users(sessions: Vec<u32>) -> (r: VoiceTarget)
        ensures
            r == VoiceTarget::Users(sessions),
    {
        VoiceTarget::Users(sessions)
    }

    /// A slot that whispers to a channel.
    pub fn channel(channel_id: u32, links: bool, children: bool, group: Option<String>) -> (r: VoiceTarget)
        ensures
            r == (VoiceTarget::Channel { channel_id, links, children, group }),
    {
        VoiceTarget::Channel { channel_id, links, children, group }
    }
}

} // verus!
