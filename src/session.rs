//! Decisions of the control-plane session loop. The loop itself (reads,
//! writes, timers) runs in the network layer: it hands each event to these
//! functions and performs the action they return.

use vstd::prelude::*;
use crate::proto::MessageKind;

verus! {

/// Lowest client protocol version accepted: 1.2.0, as `major << 16 | minor << 8 | patch`.
pub const MIN_PROTOCOL_VERSION: u32 = 0x01_02_00;
/// Protocol version this server announces: 1.2.4.
pub const SERVER_PROTOCOL_VERSION: u32 = 0x01_02_04;
/// A session with no ping for this long, in milliseconds, is closed.
pub const PING_TIMEOUT_MS: u64 = 30_000;

/// Why a session ends.
#[derive(PartialEq, Eq, Structural, Clone, Copy, Debug)]
pub enum SessionError {
    /// The client's protocol version is below the minimum.
    VersionTooOld,
    /// A message that is not allowed at this point, such as a second
    /// `Authenticate`.
    UnexpectedMessage,
    /// No ping within the liveness window.
    NoPing,
}

/// What the session loop does with a control message received after the
/// handshake.
#[derive(PartialEq, Eq, Structural, Clone, Copy, Debug)]
pub enum ControlAction {
    /// Record the ping time and answer with the cipher counters.
    ReplyPing,
    /// Apply mute, deaf and channel changes to the sender.
    ApplyUserState,
    /// Install a whisper slot of the sender.
    InstallVoiceTarget,
    /// Decode the payload as a voice frame and fan it out, tunnelled.
    FanOutTunnel,
    /// Take the client's nonce, or send ours when it sent none.
    CryptResync,
    /// End the session.
    Close(SessionError),
    /// Nothing to do.
    Ignore,
}

/// Whether a client announcing `version` may go on with the handshake.
pub fn version_accepted(version: u32) -> (r: bool)
    ensures
        r == (version >= MIN_PROTOCOL_VERSION),
{
    version >= MIN_PROTOCOL_VERSION
}

/// Whether a session whose last ping came at `last_ping` has timed out at
/// `now` (both in milliseconds of the same clock).
pub fn ping_expired(last_ping: u64, now: u64) -> (r: bool)
    ensures
        r == (now > last_ping && now - last_ping > PING_TIMEOUT_MS),
{
    now > last_ping && now - last_ping > PING_TIMEOUT_MS
}

/// What to do with a control message of kind `kind` in the steady state.
pub fn control_action(kind: MessageKind) -> (r: ControlAction)
    ensures
        r == match kind {
            MessageKind::Ping => ControlAction::ReplyPing,
            MessageKind::UserState => ControlAction::ApplyUserState,
            MessageKind::VoiceTarget => ControlAction::InstallVoiceTarget,
            MessageKind::UDPTunnel => ControlAction::FanOutTunnel,
            MessageKind::CryptSetup => ControlAction::CryptResync,
            MessageKind::Authenticate => ControlAction::Close(SessionError::UnexpectedMessage),
            MessageKind::Version => ControlAction::Close(SessionError::UnexpectedMessage),
            _ => ControlAction::Ignore,
        },
{
    match kind {
        MessageKind::Ping => ControlAction::ReplyPing,
        MessageKind::UserState => ControlAction::ApplyUserState,
        MessageKind::VoiceTarget => ControlAction::InstallVoiceTarget,
        MessageKind::UDPTunnel => ControlAction::FanOutTunnel,
        MessageKind::CryptSetup => ControlAction::CryptResync,
        MessageKind::Authenticate => ControlAction::Close(SessionError::UnexpectedMessage),
        MessageKind::Version => ControlAction::Close(SessionError::UnexpectedMessage),
        _ => ControlAction::Ignore,
    }
}

} // verus!
