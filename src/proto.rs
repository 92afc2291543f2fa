//! Framing of control messages on the TLS stream: a 2-byte big-endian type
//! id, a 4-byte big-endian payload length, then the payload.

use vstd::prelude::*;
use crate::varint::{be_bytes, be_value, put_be, read_be, lemma_be_round_trip, lemma_be_value_bound, lemma_pow256_values};

verus! {

/// Length of a frame header.
pub const HEADER_LEN: usize = 6;

/// The control messages this server sends or handles.
#[derive(PartialEq, Eq, Structural, Clone, Copy, Debug)]
pub enum MessageKind {
    Version,
    UDPTunnel,
    Authenticate,
    Ping,
    Reject,
    ServerSync,
    ChannelState,
    UserRemove,
    UserState,
    TextMessage,
    PermissionDenied,
    CryptSetup,
    CodecVersion,
    VoiceTarget,
    ServerConfig,
}

/// The type id of a message kind on the wire.
pub open spec fn kind_id(k: MessageKind) -> u16 {
    match k {
        MessageKind::Version => 0,
        MessageKind::UDPTunnel => 1,
        MessageKind::Authenticate => 2,
        MessageKind::Ping => 3,
        MessageKind::Reject => 4,
        MessageKind::ServerSync => 5,
        MessageKind::ChannelState => 7,
        MessageKind::UserRemove => 8,
        MessageKind::UserState => 9,
        MessageKind::TextMessage => 11,
        MessageKind::PermissionDenied => 12,
        MessageKind::CryptSetup => 15,
        MessageKind::CodecVersion => 21,
        MessageKind::VoiceTarget => 22,
        MessageKind::ServerConfig => 24,
    }
}

/// The bytes of a frame.
pub open spec fn frame_bytes(id: u16, payload: Seq<u8>) -> Seq<u8> {
    be_bytes(id as nat, 2) + be_bytes(payload.len(), 4) + payload
}

impl MessageKind {
    pub fn id(&self) -> (r: u16)
        ensures
            r == kind_id(*self),
    {
        match self {
            MessageKind::Version => 0,
            MessageKind::UDPTunnel => 1,
            MessageKind::Authenticate => 2,
            MessageKind::Ping => 3,
            MessageKind::Reject => 4,
            MessageKind::ServerSync => 5,
            MessageKind::ChannelState => 7,
            MessageKind::UserRemove => 8,
            MessageKind::UserState => 9,
            MessageKind::TextMessage => 11,
            MessageKind::PermissionDenied => 12,
            MessageKind::CryptSetup => 15,
            MessageKind::CodecVersion => 21,
            MessageKind::VoiceTarget => 22,
            MessageKind::ServerConfig => 24,
        }
    }

    /// The kind with type id `id`, or `None` for an id this server does not
    /// know.
    pub fn from_id(id: u16) -> (r: Option<MessageKind>)
        ensures
            r matches Some(k) ==> kind_id(k) == id,
            r is None ==> forall|k: MessageKind| kind_id(k) != id,
    {
        match id {
            0 => Some(MessageKind::Version),
            1 => Some(MessageKind::UDPTunnel),
            2 => Some(MessageKind::Authenticate),
            3 => Some(MessageKind::Ping),
            4 => Some(MessageKind::Reject),
            5 => Some(MessageKind::ServerSync),
            7 => Some(MessageKind::ChannelState),
            8 => Some(MessageKind::UserRemove),
            9 => Some(MessageKind::UserState),
            11 => Some(MessageKind::TextMessage),
            12 => Some(MessageKind::PermissionDenied),
            15 => Some(MessageKind::CryptSetup),
            21 => Some(MessageKind::CodecVersion),
            22 => Some(MessageKind::VoiceTarget),
            24 => Some(MessageKind::ServerConfig),
            _ => None,
        }
    }
}

/// The frame that carries `payload` as a message of kind `kind`.
pub fn frame_message(kind: MessageKind, payload: &[u8]) -> (r: Vec<u8>)
    requires
        payload@.len() <= u32::MAX,
    ensures
        r@ == frame_bytes(kind_id(kind), payload@),
{
    let mut out: Vec<u8> = Vec::new();
    put_be(&mut out, kind.id() as u64, 2);
    put_be(&mut out, payload.len() as u64, 4);
    let mut i: usize = 0;
    while i < payload.len()
        invariant
            i <= payload@.len(),
            out@ == Seq::<u8>::empty() + be_bytes(kind_id(kind) as nat, 2) + be_bytes(payload@.len(), 4)
                + payload@.subrange(0, i as int),
        decreases payload@.len() - i,
    {
        out.push(payload[i]);
        i = i + 1;
        assert(out@ == Seq::<u8>::empty() + be_bytes(kind_id(kind) as nat, 2) + be_bytes(payload@.len(), 4)
            + payload@.subrange(0, i as int));
    }
    assert(payload@.subrange(0, payload@.len() as int) == payload@);
    assert(Seq::<u8>::empty() + be_bytes(kind_id(kind) as nat, 2) == be_bytes(kind_id(kind) as nat, 2));
    out
}

/// The type id and payload length at the start of `buf`, or `None` where
/// fewer than six bytes are there.
pub fn parse_frame_header(buf: &[u8]) -> (r: Option<(u16, u32)>)
    ensures
        buf@.len() < HEADER_LEN ==> r is None,
        buf@.len() >= HEADER_LEN ==> r == Some((be_value(buf@.subrange(0, 2)) as u16, be_value(buf@.subrange(2, 6)) as u32))
            && be_value(buf@.subrange(0, 2)) <= u16::MAX && be_value(buf@.subrange(2, 6)) <= u32::MAX,
{
    if buf.len() < HEADER_LEN {
        return None;
    }
    proof {
        lemma_pow256_values();
        lemma_be_value_bound(buf@.subrange(0, 2));
        lemma_be_value_bound(buf@.subrange(2, 6));
    }
    let id = read_be(buf, 0, 2);
    let len = read_be(buf, 2, 4);
    Some((id as u16, len as u32))
}

/// A frame's header reads back as the kind's type id and the payload length.
pub proof fn lemma_frame_round_trip(id: u16, payload: Seq<u8>)
    requires
        payload.len() <= u32::MAX,
    ensures
        ({
            let f = frame_bytes(id, payload);
            &&& be_value(f.subrange(0, 2)) == id as nat
            &&& be_value(f.subrange(2, 6)) == payload.len()
            &&& f.subrange(6, f.len() as int) == payload
        }),
{
    lemma_pow256_values();
    lemma_be_round_trip(id as nat, 2);
    lemma_be_round_trip(payload.len(), 4);
    let f = frame_bytes(id, payload);
    assert(f.subrange(0, 2) == be_bytes(id as nat, 2));
    assert(f.subrange(2, 6) == be_bytes(payload.len(), 4));
    assert(f.subrange(6, f.len() as int) == payload);
}

} // verus!
