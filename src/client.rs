//! The per-session record of a connected client, as plain values, with its
//! cipher state. The TLS writer and the UDP socket live beside it in the
//! network layer; this record holds what the routing and state logic reads.

use vstd::prelude::*;
use crate::target::VoiceTarget;
use crate::crypt::CryptState;

verus! {

/// A UDP peer address: the IP address as a 128-bit number (IPv4 addresses
/// mapped into IPv6) and the port.
#[derive(PartialEq, Eq, Structural, Clone, Copy, Debug)]
pub struct PeerAddr {
    pub ip: u128,
    pub port: u16,
}

/// What a client sent in its `Authenticate` message.
pub struct Authenticate {
    pub username: String,
    pub tokens: Vec<String>,
    pub opus: Option<bool>,
    pub celt_versions: Vec<i32>,
}

/// A `UserState` message: every field is optional on the wire.
pub struct UserState {
    pub session: Option<u32>,
    pub user_id: Option<u32>,
    pub channel_id: Option<u32>,
    pub name: Option<String>,
    pub mute: Option<bool>,
    pub deaf: Option<bool>,
}

/// A `ServerSync` message.
pub struct ServerSync {
    pub session: u32,
    pub max_bandwidth: u32,
    pub welcome_text: String,
}

/// A `ServerConfig` message.
pub struct ServerConfig {
    pub max_bandwidth: u32,
    pub max_users: u32,
    pub allow_html: bool,
    pub message_length: u32,
    pub image_message_length: u32,
}

/// How a voice frame reaches a recipient.
#[derive(PartialEq, Eq, Structural, Clone, Copy, Debug)]
pub enum VoiceDelivery {
    /// Encrypted with the recipient's cipher state and sent to this address.
    Udp(PeerAddr),
    /// Wrapped in a `UDPTunnel` control message over TLS.
    Tunnel,
}

/// Bandwidth limit announced to clients, in bits per second.
pub const MAX_BANDWIDTH: u32 = 72000;
/// Number of whisper slots per client when nothing else is configured.
pub const DEFAULT_TARGET_CAPACITY: usize = 2048;

/// A connected client.
pub struct Client {
    pub version: u32,
    pub authenticate: Authenticate,
    pub session_id: u32,
    pub channel_id: u32,
    pub mute: bool,
    pub deaf: bool,
    pub tokens: Vec<String>,
    pub crypt_state: CryptState,
    pub udp_socket_addr: Option<PeerAddr>,
    pub use_opus: bool,
    pub codecs: Vec<i32>,
    pub targets: Vec<VoiceTarget>,
    /// Time of the last ping, in milliseconds of the server's clock.
    pub last_ping: u64,
}

fn copy_strings(v: &Vec<String>) -> (r: Vec<String>)
    ensures
        r@ == v@,
{
    let mut out: Vec<String> = Vec::new();
    let mut i: usize = 0;
    while i < v.len()
        invariant
            i <= v@.len(),
            out@ == v@.subrange(0, i as int),
        decreases v@.len() - i,
    {
        out.push(v[i].clone());
        i = i + 1;
        assert(out@ == v@.subrange(0, i as int));
    }
    assert(v@.subrange(0, v@.len() as int) == v@);
    out
}

fn copy_ints(v: &Vec<i32>) -> (r: Vec<i32>)
    ensures
        r@ == v@,
{
    let mut out: Vec<i32> = Vec::new();
    let mut i: usize = 0;
    while i < v.len()
        invariant
            i <= v@.len(),
            out@ == v@.subrange(0, i as int),
        decreases v@.len() - i,
    {
        out.push(v[i]);
        i = i + 1;
        assert(out@ == v@.subrange(0, i as int));
    }
    assert(v@.subrange(0, v@.len() as int) == v@);
    out
}

/// `s` is a non-empty run of ASCII digits.
pub open spec fn is_digits(s: Seq<char>) -> bool {
    s.len() > 0 && forall|i: int| 0 <= i < s.len() ==> '0' <= #[trigger] s[i] <= '9'
}

/// The number that a run of ASCII digits denotes.
pub open spec fn decimal(s: Seq<char>) -> nat
    decreases s.len(),
{
    if s.len() == 0 {
        0
    } else {
        decimal(s.drop_last()) * 10 + ((s.last() as nat) - ('0' as nat)) as nat
    }
}

/// Relies on `konst::primitive::parse_usize`: it accepts exactly a non-empty
/// run of ASCII digits whose value fits in `usize`, and returns that value.
#[verifier::external_body]
fn parse_usize(s: &str) -> (r: Option<usize>)
    ensures
        r == (if is_digits(s@) && decimal(s@) <= usize::MAX { Some(decimal(s@) as usize) } else { None }),
{
    konst::primitive::parse_usize(s).ok()
}

/// The number of whisper slots per client from its configured setting: the
/// default where nothing is set, the decimal number where one is, and `None`
/// where the setting is not a number that fits.
pub fn target_capacity(setting: Option<&str>) -> (r: Option<usize>)
    ensures
        setting is None ==> r == Some(DEFAULT_TARGET_CAPACITY),
        setting matches Some(s) ==> r == (if is_digits(s@) && decimal(s@) <= usize::MAX {
            Some(decimal(s@) as usize)
        } else {
            None
        }),
{
    match setting {
        None => Some(DEFAULT_TARGET_CAPACITY),
        Some(s) => parse_usize(s),
    }
}

/// The `UserState` that describes client `c` to others.
pub open spec fn user_state_of(c: Client) -> UserState {
    UserState {
        session: Some(c.session_id),
        user_id: Some(c.session_id),
        channel_id: Some(c.channel_id),
        name: Some(c.authenticate.username),
        mute: None,
        deaf: None,
    }
}

impl Client {
    /// A client that has just authenticated: not muted, not deaf, no UDP peer
    /// yet, `capacity` empty whisper slots, tokens and codecs taken from its
    /// `Authenticate` message, and Opus used only where the client said so.
    pub fn new(
        version: u32,
        authenticate: Authenticate,
        session_id: u32,
        channel_id: u32,
        crypt_state: CryptState,
        capacity: usize,
        now: u64,
    ) -> (r: Client)
        ensures
            r.crypt_state == crypt_state,
            r.version == version,
            r.session_id == session_id,
            r.channel_id == channel_id,
            !r.mute,
            !r.deaf,
            r.tokens@ == authenticate.tokens@,
            r.udp_socket_addr is None,
            r.use_opus == (authenticate.opus == Some(true)),
            r.codecs@ == authenticate.celt_versions@,
            r.targets@.len() == capacity,
            forall|i: int| 0 <= i < capacity ==> (#[trigger] r.targets@[i]) is Empty,
            r.last_ping == now,
            r.authenticate == authenticate,
    {
        let tokens = copy_strings(&authenticate.tokens);
        let codecs = copy_ints(&authenticate.celt_versions);
        let use_opus = match authenticate.opus {
            Some(b) => b,
            None => false,
        };
        let mut targets: Vec<VoiceTarget> = Vec::new();
        let mut i: usize = 0;
        while i < capacity
            invariant
                i <= capacity,
                targets@.len() == i,
                forall|j: int| 0 <= j < i ==> (#[trigger] targets@[j]) is Empty,
            decreases capacity - i,
        {
            targets.push(VoiceTarget::new());
            i = i + 1;
        }
        Client {
            version,
            authenticate,
            session_id,
            channel_id,
            mute: false,
            deaf: false,
            tokens,
            crypt_state,
            udp_socket_addr: None,
            use_opus,
            codecs,
            targets,
            last_ping: now,
        }
    }

    /// The whisper slot `id`, if the client has that many.
    pub fn get_target(&self, id: usize) -> (r: Option<&VoiceTarget>)
        ensures
            id < self.targets@.len() ==> r == Some(&self.targets@[id as int]),
            id >= self.targets@.len() ==> r is None,
    {
        if id < self.targets.len() {
            Some(&self.targets[id])
        } else {
            None
        }
    }

    /// Installs `target` in slot `id`; `false`, and nothing changed, where the
    /// client has no such slot.
    pub fn set_target(&mut self, id: usize, target: VoiceTarget) -> (r: bool)
        ensures
            r == (id < old(self).targets@.len()),
            r ==> final(self).targets@ == old(self).targets@.update(id as int, target),
            r ==> *final(self) == (Client { targets: final(self).targets, ..*old(self) }),
            !r ==> *final(self) == *old(self),
    {
        if id < self.targets.len() {
            self.targets.set(id, target);
            true
        } else {
            false
        }
    }

    pub fn mute(&mut self, mute: bool)
        ensures
            *final(self) == (Client { mute, ..*old(self) }),
    {
        self.mute = mute;
    }

    pub fn deaf(&mut self, deaf: bool)
        ensures
            *final(self) == (Client { deaf, ..*old(self) }),
    {
        self.deaf = deaf;
    }

    /// Applies the mute and deaf flags that `state` carries; other fields of
    /// `state` are left to the registry.
    pub fn update(&mut self, state: &UserState)
        ensures
            *final(self) == (Client {
                mute: match state.mute { Some(m) => m, None => old(self).mute },
                deaf: match state.deaf { Some(d) => d, None => old(self).deaf },
                ..*old(self)
            }),
    {
        match state.mute {
            Some(m) => { self.mute = m; },
            None => {},
        }
        match state.deaf {
            Some(d) => { self.deaf = d; },
            None => {},
        }
    }

    /// Moves the client to `channel_id`: the channel it left, or `None` where
    /// it was already there.
    pub fn join_channel(&mut self, channel_id: u32) -> (r: Option<u32>)
        ensures
            *final(self) == (Client { channel_id, ..*old(self) }),
            r == (if channel_id == old(self).channel_id { None } else { Some(old(self).channel_id) }),
    {
        let current = self.channel_id;
        if channel_id == current {
            return None;
        }
        self.channel_id = channel_id;
        Some(current)
    }

    /// Records a ping received at time `now`.
    pub fn touch_ping(&mut self, now: u64)
        ensures
            *final(self) == (Client { last_ping: now, ..*old(self) }),
    {
        self.last_ping = now;
    }

    /// Records the address of the client's UDP peer.
    pub fn set_udp_socket_addr(&mut self, addr: PeerAddr)
        ensures
            *final(self) == (Client { udp_socket_addr: Some(addr), ..*old(self) }),
    {
        self.udp_socket_addr = Some(addr);
    }

    /// The `UserState` that describes this client to others.
    pub fn get_user_state(&self) -> (r: UserState)
        ensures
            r == user_state_of(*self),
    {
        UserState {
            session: Some(self.session_id),
            user_id: Some(self.session_id),
            channel_id: Some(self.channel_id),
            name: Some(self.authenticate.username.clone()),
            mute: None,
            deaf: None,
        }
    }

    /// The `ServerSync` that ends this client's join: its session id, the
    /// bandwidth limit and the welcome text.
    pub fn get_server_sync(&self, welcome_text: String) -> (r: ServerSync)
        ensures
            r.session == self.session_id,
            r.max_bandwidth == MAX_BANDWIDTH,
            r.welcome_text == welcome_text,
    {
        ServerSync { session: self.session_id, max_bandwidth: MAX_BANDWIDTH, welcome_text }
    }

    /// The `ServerConfig` sent after `ServerSync`.
    pub fn get_server_config() -> (r: ServerConfig)
        ensures
            r == (ServerConfig {
                max_bandwidth: MAX_BANDWIDTH,
                max_users: 2048,
                allow_html: true,
                message_length: 512,
                image_message_length: 0,
            }),
    {
        ServerConfig {
            max_bandwidth: MAX_BANDWIDTH,
            max_users: 2048,
            allow_html: true,
            message_length: 512,
            image_message_length: 0,
        }
    }

    /// How a voice frame reaches this client: over UDP where its peer address
    /// is known, else tunnelled over TLS.
    pub fn voice_delivery(&self) -> (r: VoiceDelivery)
        ensures
            r == (match self.udp_socket_addr {
                Some(a) => VoiceDelivery::Udp(a),
                None => VoiceDelivery::Tunnel,
            }),
    {
        match self.udp_socket_addr {
            Some(a) => VoiceDelivery::Udp(a),
            None => VoiceDelivery::Tunnel,
        }
    }
}

} // verus!
