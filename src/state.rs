//! The server's registry of channels and clients, the symmetric link relation
//! between channels, session-id allocation, and the listener set of a voice
//! frame.

use vstd::prelude::*;
use crate::client::{Client, PeerAddr, ServerConfig, ServerSync, UserState, VoiceDelivery, user_state_of, MAX_BANDWIDTH};
use crate::target::VoiceTarget;
use crate::crypt::{CryptState, NonceCandidate, decrypt_settled, inc32};

verus! {

/// Id of the root channel, which is its own parent.
pub const ROOT_CHANNEL: u32 = 0;
/// Voice target id of a frame to the sender's channel and its links.
pub const TARGET_NORMAL: u8 = 0;
/// Voice target id of a frame that the server sends back to its sender.
pub const TARGET_LOOPBACK: u8 = 31;

/// A node of the channel tree.
pub struct Channel {
    pub id: u32,
    pub name: String,
    pub parent_id: u32,
    pub temporary: bool,
    pub position: i32,
}

/// A `ChannelState` message.
pub struct ChannelState {
    pub channel_id: u32,
    pub parent: u32,
    pub name: String,
    pub temporary: bool,
    pub position: i32,
}

/// A control message sent to a client while it joins.
pub enum JoinMessage {
    ChannelState(ChannelState),
    UserState(UserState),
    ServerSync(ServerSync),
    ServerConfig(ServerConfig),
}

pub open spec fn channel_state_of(ch: Channel) -> ChannelState {
    ChannelState { channel_id: ch.id, parent: ch.parent_id, name: ch.name, temporary: ch.temporary, position: ch.position }
}

impl Channel {
    /// The `ChannelState` that describes this channel.
    pub fn get_channel_state(&self) -> (r: ChannelState)
        ensures
            r == channel_state_of(*self),
    {
        ChannelState {
            channel_id: self.id,
            parent: self.parent_id,
            name: self.name.clone(),
            temporary: self.temporary,
            position: self.position,
        }
    }
}

/// Client `c` after channel `gone` was removed: moved to the root if it was
/// there.
pub open spec fn relocated(c: Client, gone: u32) -> Client {
    if c.channel_id == gone { Client { channel_id: ROOT_CHANNEL, ..c } } else { c }
}

/// Channel `ch` after channel `gone` was removed: a child of the root if it
/// was a child of `gone`.
pub open spec fn reparented(ch: Channel, gone: u32) -> Channel {
    if ch.parent_id == gone { Channel { parent_id: ROOT_CHANNEL, ..ch } } else { ch }
}

/// The session a join message describes, where it describes a client.
pub open spec fn msg_session(m: JoinMessage) -> Option<u32> {
    match m {
        JoinMessage::UserState(u) => u.session,
        _ => None,
    }
}

/// A `ChannelState` of channel `ch`.
pub open spec fn describes_channel(m: JoinMessage, ch: u32) -> bool {
    m matches JoinMessage::ChannelState(c) && c.channel_id == ch
}

/// Where message `k` of `js` describes a client, it names the client's
/// channel, and a `ChannelState` of that channel comes before it.
pub open spec fn channel_described_before(js: Seq<JoinMessage>, k: int) -> bool {
    match js[k] {
        JoinMessage::UserState(u) => match u.channel_id {
            Some(ch) => exists|k0: int| 0 <= k0 < k && describes_channel(#[trigger] js[k0], ch),
            None => false,
        },
        _ => true,
    }
}

/// Why a registry operation was refused.
#[derive(PartialEq, Eq, Structural, Clone, Copy, Debug)]
pub enum StateError {
    UnknownChannel,
    UnknownClient,
    /// The id counter reached its largest value.
    IdsExhausted,
    /// The root channel cannot be removed.
    PermissionDenied,
    /// Another live client already uses the same cipher key.
    KeyCollision,
}

/// The registry. `links` holds each link in both directions.
pub struct ServerState {
    pub channels: Vec<Channel>,
    pub links: Vec<(u32, u32)>,
    pub clients: Vec<Client>,
    pub next_channel_id: u32,
    pub next_session_id: u32,
}

/// Some token of `tokens` is `g`.
pub open spec fn has_token(tokens: Seq<String>, g: Seq<char>) -> bool {
    exists|i: int| 0 <= i < tokens.len() && (#[trigger] tokens[i])@ == g
}

fn same_bytes(a: &Vec<u8>, b: &Vec<u8>) -> (r: bool)
    ensures
        r == (a@ == b@),
{
    if a.len() != b.len() {
        return false;
    }
    let mut i: usize = 0;
    while i < a.len()
        invariant
            i <= a@.len(),
            a@.len() == b@.len(),
            forall|j: int| 0 <= j < i ==> a@[j] == b@[j],
        decreases a@.len() - i,
    {
        if a[i] != b[i] {
            return false;
        }
        i = i + 1;
    }
    assert(a@ =~= b@);
    true
}

fn contains_session(v: &Vec<u32>, x: u32) -> (r: bool)
    ensures
        r == v@.contains(x),
{
    let mut i: usize = 0;
    while i < v.len()
        invariant
            i <= v@.len(),
            forall|j: int| 0 <= j < i ==> (#[trigger] v@[j]) != x,
        decreases v@.len() - i,
    {
        if v[i] == x {
            assert(v@[i as int] == x);
            return true;
        }
        i = i + 1;
    }
    false
}

proof fn lemma_same_channels(a: ServerState, b: ServerState)
    requires
        a.channels@ == b.channels@,
    ensures
        forall|id: u32| #[trigger] a.has_channel(id) == b.has_channel(id),
{
    assert forall|id: u32| #[trigger] a.has_channel(id) == b.has_channel(id) by {
        if a.has_channel(id) {
            let i = choose|i: int| 0 <= i < a.channels@.len() && (#[trigger] a.channels@[i]).id == id;
            assert(b.channels@[i].id == id);
        }
        if b.has_channel(id) {
            let i = choose|i: int| 0 <= i < b.channels@.len() && (#[trigger] b.channels@[i]).id == id;
            assert(a.channels@[i].id == id);
        }
    }
}

/// What the invariant says of channels and links carries over to a state with
/// the same channels and links.
proof fn lemma_channel_side(pre: ServerState, post: ServerState)
    requires
        pre.wf(),
        post.channels@ == pre.channels@,
        post.links@ == pre.links@,
        post.next_channel_id == pre.next_channel_id,
    ensures
        post.has_channel(ROOT_CHANNEL),
        post.channel_ids_unique(),
        forall|i: int| 0 <= i < post.channels@.len() ==> (#[trigger] post.channels@[i]).id < post.next_channel_id,
        post.links_known(),
        post.links_symmetric(),
        forall|id: u32| #[trigger] pre.has_channel(id) == post.has_channel(id),
{
    lemma_same_channels(pre, post);
    assert forall|k: int| 0 <= k < post.links@.len() implies post.has_channel((#[trigger] post.links@[k]).0)
        && post.has_channel(post.links@[k].1) by {
        assert(pre.links@[k] == post.links@[k]);
        assert(pre.has_channel(pre.links@[k].0));
    }
    assert forall|a: u32, b: u32| #[trigger] post.linked(a, b) implies post.linked(b, a) by {
        assert(pre.linked(a, b));
    }
}

/// The state after `remove_channel` keeps the invariant, and its channels are
/// the old ones but `id`.
proof fn lemma_removed_channel(pre: ServerState, post: ServerState, i: int, id: u32)
    requires
        pre.wf(),
        id != ROOT_CHANNEL,
        0 <= i < pre.channels@.len(),
        pre.channels@[i].id == id,
        post.channels@ == pre.channels@.map_values(|ch: Channel| reparented(ch, id)).remove(i),
        post.clients@.len() == pre.clients@.len(),
        forall|j: int| 0 <= j < pre.clients@.len() ==> #[trigger] post.clients@[j] == relocated(pre.clients@[j], id),
        forall|a: u32, b: u32| #[trigger] post.links@.contains((a, b)) == (pre.links@.contains((a, b)) && a != id && b != id),
        post.next_session_id == pre.next_session_id,
        post.next_channel_id == pre.next_channel_id,
    ensures
        post.wf(),
        !post.has_channel(id),
        forall|x: u32| x != id ==> (#[trigger] post.has_channel(x) == pre.has_channel(x)),
        forall|a: u32, b: u32| #[trigger] post.linked(a, b) == (pre.linked(a, b) && a != id && b != id),
{
    let o = pre.channels@;
    let nw = post.channels@;
    assert forall|k: int| 0 <= k < nw.len() implies (#[trigger] nw[k]).id == o[if k < i { k } else { k + 1 }].id by {}
    assert forall|x: u32| x != id implies (#[trigger] post.has_channel(x) == pre.has_channel(x)) by {
        if pre.has_channel(x) {
            let j = choose|j: int| 0 <= j < o.len() && (#[trigger] o[j]).id == x;
            assert(j != i);
            let k = if j < i { j } else { j - 1 };
            assert(nw[k].id == x);
        }
        if post.has_channel(x) {
            let k = choose|k: int| 0 <= k < nw.len() && (#[trigger] nw[k]).id == x;
            let j = if k < i { k } else { k + 1 };
            assert(o[j].id == x);
        }
    }
    if post.has_channel(id) {
        let k = choose|k: int| 0 <= k < nw.len() && (#[trigger] nw[k]).id == id;
        let j = if k < i { k } else { k + 1 };
        assert(o[j].id == o[i].id);
    }
    assert(post.has_channel(ROOT_CHANNEL));
    assert forall|a: int, b: int| 0 <= a < nw.len() && 0 <= b < nw.len() && (#[trigger] nw[a]).id == (#[trigger] nw[b]).id
        implies a == b by {
        let ja = if a < i { a } else { a + 1 };
        let jb = if b < i { b } else { b + 1 };
        assert(o[ja].id == o[jb].id);
    }
    assert forall|k: int| 0 <= k < nw.len() implies (#[trigger] nw[k]).id < post.next_channel_id by {
        let j = if k < i { k } else { k + 1 };
        assert(o[j].id < pre.next_channel_id);
    }
    assert forall|k: int| 0 <= k < post.links@.len() implies post.has_channel((#[trigger] post.links@[k]).0)
        && post.has_channel(post.links@[k].1) by {
        let p = post.links@[k];
        assert(post.links@.contains(p));
        assert(pre.links@.contains((p.0, p.1)));
        let j = choose|j: int| 0 <= j < pre.links@.len() && pre.links@[j] == (p.0, p.1);
        assert(pre.has_channel(pre.links@[j].0));
        assert(pre.has_channel(pre.links@[j].1));
    }
    assert forall|a: u32, b: u32| #[trigger] post.linked(a, b) implies post.linked(b, a) by {
        assert(pre.linked(a, b));
    }
    assert forall|k: int| 0 <= k < post.clients@.len() implies post.has_channel((#[trigger] post.clients@[k]).channel_id) by {
        assert(post.clients@[k] == relocated(pre.clients@[k], id));
        assert(pre.has_channel(pre.clients@[k].channel_id));
    }
    assert forall|k: int| 0 <= k < post.clients@.len() implies 0 < (#[trigger] post.clients@[k]).session_id < post.next_session_id
        && post.clients@[k].crypt_state.wf() by {
        assert(post.clients@[k] == relocated(pre.clients@[k], id));
    }
    assert forall|x: int, y: int| 0 <= x < post.clients@.len() && 0 <= y < post.clients@.len() && x != y
        implies (#[trigger] post.clients@[x]).session_id != (#[trigger] post.clients@[y]).session_id
        && post.clients@[x].crypt_state.key@ != post.clients@[y].crypt_state.key@ by {
        assert(post.clients@[x] == relocated(pre.clients@[x], id));
        assert(post.clients@[y] == relocated(pre.clients@[y], id));
    }
}

/// Replacing one client by a record with the same session id, in an existing
/// channel, keeps the invariant.
proof fn lemma_client_replaced(pre: ServerState, post: ServerState, i: int)
    requires
        pre.wf(),
        0 <= i < pre.clients@.len(),
        post.channels@ == pre.channels@,
        post.links@ == pre.links@,
        post.next_channel_id == pre.next_channel_id,
        post.next_session_id == pre.next_session_id,
        post.clients@ == pre.clients@.update(i, post.clients@[i]),
        post.clients@[i].session_id == pre.clients@[i].session_id,
        pre.has_channel(post.clients@[i].channel_id),
        post.clients@[i].crypt_state.wf(),
        post.clients@[i].crypt_state.key@ == pre.clients@[i].crypt_state.key@
            || !pre.key_in_use(post.clients@[i].crypt_state.key@),
    ensures
        post.wf(),
{
    lemma_channel_side(pre, post);
    let o = pre.clients@;
    let nw = post.clients@;
    assert forall|k: int| 0 <= k < nw.len() implies post.has_channel((#[trigger] nw[k]).channel_id) by {
        if k != i {
            assert(nw[k] == o[k]);
            assert(pre.has_channel(o[k].channel_id));
        }
    }
    assert forall|k: int| 0 <= k < nw.len() implies 0 < (#[trigger] nw[k]).session_id < post.next_session_id
        && nw[k].crypt_state.wf() by {
        if k != i {
            assert(nw[k] == o[k]);
        } else {
            assert(0 < o[i].session_id < pre.next_session_id);
        }
    }
    assert forall|x: int, y: int| 0 <= x < nw.len() && 0 <= y < nw.len() && x != y
        implies (#[trigger] nw[x]).session_id != (#[trigger] nw[y]).session_id
        && nw[x].crypt_state.key@ != nw[y].crypt_state.key@ by {
        assert(nw[x].session_id == o[x].session_id);
        assert(nw[y].session_id == o[y].session_id);
        if x != i {
            assert(nw[x] == o[x]);
        }
        if y != i {
            assert(nw[y] == o[y]);
        }
        if x == i && nw[x].crypt_state.key@ != o[x].crypt_state.key@ {
            assert(o[y].crypt_state.key@ != nw[x].crypt_state.key@);
        }
        if y == i && nw[y].crypt_state.key@ != o[y].crypt_state.key@ {
            assert(o[x].crypt_state.key@ != nw[y].crypt_state.key@);
        }
    }
}

/// Under the invariant, the client at index `i` is the only one with its
/// session id.
proof fn lemma_unique_index(st: ServerState, i: int)
    requires
        st.wf(),
        0 <= i < st.clients@.len(),
    ensures
        forall|j: int| 0 <= j < st.clients@.len() && (#[trigger] st.clients@[j]).session_id == st.clients@[i].session_id
            ==> j == i,
{
}

/// The channels of `post` extend those of `pre` by one fresh channel: the
/// invariant carries over.
proof fn lemma_channels_extended(pre: ServerState, post: ServerState)
    requires
        pre.wf(),
        post.channels@.len() == pre.channels@.len() + 1,
        forall|i: int| 0 <= i < pre.channels@.len() ==> post.channels@[i] == pre.channels@[i],
        post.channels@[pre.channels@.len() as int].id == pre.next_channel_id,
        post.next_channel_id == pre.next_channel_id + 1,
        post.links == pre.links,
        post.clients == pre.clients,
        post.next_session_id == pre.next_session_id,
    ensures
        post.wf(),
        forall|id: u32| pre.has_channel(id) ==> #[trigger] post.has_channel(id),
{
    assert forall|id: u32| pre.has_channel(id) implies #[trigger] post.has_channel(id) by {
        let i = choose|i: int| 0 <= i < pre.channels@.len() && (#[trigger] pre.channels@[i]).id == id;
        assert(post.channels@[i].id == id);
    }
    let n = pre.channels@.len() as int;
    assert forall|i: int, j: int|
        0 <= i < post.channels@.len() && 0 <= j < post.channels@.len()
            && (#[trigger] post.channels@[i]).id == (#[trigger] post.channels@[j]).id implies i == j by {
        if i < n && j < n {
        } else if i < n {
            assert(pre.channels@[i].id < pre.next_channel_id);
        } else if j < n {
            assert(pre.channels@[j].id < pre.next_channel_id);
        }
    }
    assert forall|k: int| 0 <= k < post.links@.len() implies post.has_channel((#[trigger] post.links@[k]).0)
        && post.has_channel(post.links@[k].1) by {
        assert(pre.has_channel(pre.links@[k].0));
        assert(pre.has_channel(pre.links@[k].1));
    }
    assert forall|i: int| 0 <= i < post.clients@.len() implies post.has_channel((#[trigger] post.clients@[i]).channel_id) by {
        assert(pre.has_channel(pre.clients@[i].channel_id));
    }
    assert forall|a: u32, b: u32| #[trigger] post.linked(a, b) implies post.linked(b, a) by {
        assert(pre.linked(a, b));
    }
    assert(post.has_channel(ROOT_CHANNEL));
    assert(post.sessions_unique());
}

impl ServerState {
    pub open spec fn has_channel(&self, id: u32) -> bool {
        exists|i: int| 0 <= i < self.channels@.len() && (#[trigger] self.channels@[i]).id == id
    }

    pub open spec fn has_client(&self, session: u32) -> bool {
        exists|i: int| 0 <= i < self.clients@.len() && (#[trigger] self.clients@[i]).session_id == session
    }

    /// Channels `a` and `b` are linked.
    pub open spec fn linked(&self, a: u32, b: u32) -> bool {
        self.links@.contains((a, b))
    }

    /// The parent of channel `x`, where `x` exists.
    pub open spec fn parent_of(&self, x: u32) -> Option<u32> {
        if self.has_channel(x) {
            let i = choose|i: int| 0 <= i < self.channels@.len() && (#[trigger] self.channels@[i]).id == x;
            Some(self.channels@[i].parent_id)
        } else {
            None
        }
    }

    pub open spec fn channel_ids_unique(&self) -> bool {
        forall|i: int, j: int|
            0 <= i < self.channels@.len() && 0 <= j < self.channels@.len()
                && (#[trigger] self.channels@[i]).id == (#[trigger] self.channels@[j]).id ==> i == j
    }

    pub open spec fn links_symmetric(&self) -> bool {
        forall|a: u32, b: u32| #[trigger] self.linked(a, b) ==> self.linked(b, a)
    }

    pub open spec fn links_known(&self) -> bool {
        forall|k: int| 0 <= k < self.links@.len() ==> self.has_channel((#[trigger] self.links@[k]).0)
            && self.has_channel(self.links@[k].1)
    }

    pub open spec fn clients_placed(&self) -> bool {
        forall|i: int| 0 <= i < self.clients@.len() ==> self.has_channel((#[trigger] self.clients@[i]).channel_id)
    }

    pub open spec fn sessions_unique(&self) -> bool {
        forall|i: int, j: int|
            0 <= i < self.clients@.len() && 0 <= j < self.clients@.len() && i != j
                ==> (#[trigger] self.clients@[i]).session_id != (#[trigger] self.clients@[j]).session_id
    }

    /// The registry's invariant.
    pub open spec fn wf(&self) -> bool {
        &&& self.has_channel(ROOT_CHANNEL)
        &&& self.next_session_id >= 1
        &&& self.channel_ids_unique()
        &&& forall|i: int| 0 <= i < self.channels@.len() ==> (#[trigger] self.channels@[i]).id < self.next_channel_id
        &&& self.links_known()
        &&& self.links_symmetric()
        &&& self.clients_placed()
        &&& self.sessions_unique()
        &&& forall|i: int| 0 <= i < self.clients@.len()
            ==> 0 < (#[trigger] self.clients@[i]).session_id < self.next_session_id
        &&& forall|i: int| 0 <= i < self.clients@.len() ==> (#[trigger] self.clients@[i]).crypt_state.wf()
        &&& self.keys_unique()
    }

    pub open spec fn keys_unique(&self) -> bool {
        forall|i: int, j: int|
            0 <= i < self.clients@.len() && 0 <= j < self.clients@.len() && i != j
                ==> (#[trigger] self.clients@[i]).crypt_state.key@ != (#[trigger] self.clients@[j]).crypt_state.key@
    }

    /// Some live client uses cipher key `key`.
    pub open spec fn key_in_use(&self, key: Seq<u8>) -> bool {
        exists|i: int| 0 <= i < self.clients@.len() && (#[trigger] self.clients@[i]).crypt_state.key@ == key
    }

    /// `x` is the whisper channel itself, or one of its links where links
    /// are included.
    pub open spec fn in_base(&self, ch: u32, links: bool, x: u32) -> bool {
        x == ch || (links && self.linked(ch, x))
    }

    /// Walking up from `x` by at most `fuel` parent steps meets the base.
    pub open spec fn reaches_base(&self, ch: u32, links: bool, x: u32, fuel: nat) -> bool
        decreases fuel,
    {
        fuel > 0 && match self.parent_of(x) {
            Some(p) => p != x && (self.in_base(ch, links, p) || self.reaches_base(ch, links, p, (fuel - 1) as nat)),
            None => false,
        }
    }

    /// Channel `x` is addressed by a channel whisper slot.
    pub open spec fn in_scope(&self, ch: u32, links: bool, children: bool, x: u32) -> bool {
        self.in_base(ch, links, x) || (children && self.reaches_base(ch, links, x, self.channels@.len()))
    }

    /// Client `c` hears a frame that `s` sends to target id `target`.
    pub open spec fn hears(&self, s: Client, target: u8, c: Client) -> bool {
        !s.mute && !c.deaf && if target == TARGET_NORMAL {
            c.session_id != s.session_id && (c.channel_id == s.channel_id || self.linked(c.channel_id, s.channel_id))
        } else if target == TARGET_LOOPBACK {
            c.session_id == s.session_id
        } else if (target as int) < s.targets@.len() {
            match s.targets@[target as int] {
                VoiceTarget::Empty => false,
                VoiceTarget::Users(us) => c.session_id != s.session_id && us@.contains(c.session_id),
                VoiceTarget::Channel { channel_id, links, children, group } => c.session_id != s.session_id
                    && self.in_scope(channel_id, links, children, c.channel_id) && match group {
                    None => true,
                    Some(g) => has_token(c.tokens@, g@),
                },
            }
        } else {
            false
        }
    }

    /// The recipients, with their delivery, among the first `n` clients, in
    /// registry order.
    pub open spec fn routes_upto(&self, s: Client, target: u8, n: int) -> Seq<(u32, VoiceDelivery)>
        decreases n,
    {
        if n <= 0 {
            Seq::empty()
        } else {
            let c = self.clients@[n - 1];
            let prev = self.routes_upto(s, target, n - 1);
            if self.hears(s, target, c) {
                prev.push((c.session_id, match c.udp_socket_addr {
                    Some(a) => VoiceDelivery::Udp(a),
                    None => VoiceDelivery::Tunnel,
                }))
            } else {
                prev
            }
        }
    }

    /// `ChannelState` of the first `n` channels, in registry order.
    pub open spec fn channel_states_upto(&self, n: int) -> Seq<JoinMessage>
        decreases n,
    {
        if n <= 0 {
            Seq::empty()
        } else {
            self.channel_states_upto(n - 1).push(JoinMessage::ChannelState(channel_state_of(self.channels@[n - 1])))
        }
    }

    /// `UserState` of the first `n` clients other than `session`, in
    /// registry order.
    pub open spec fn other_user_states_upto(&self, session: u32, n: int) -> Seq<JoinMessage>
        decreases n,
    {
        if n <= 0 {
            Seq::empty()
        } else {
            let prev = self.other_user_states_upto(session, n - 1);
            let c = self.clients@[n - 1];
            if c.session_id == session {
                prev
            } else {
                prev.push(JoinMessage::UserState(user_state_of(c)))
            }
        }
    }

    /// What a joining client `c` receives, in order: every channel, every
    /// other client, itself, the `ServerSync` that gives its session id, and
    /// the `ServerConfig`.
    pub open spec fn join_sequence(&self, c: Client, welcome_text: String) -> Seq<JoinMessage> {
        self.channel_states_upto(self.channels@.len() as int)
            + self.other_user_states_upto(c.session_id, self.clients@.len() as int)
            + seq![
                JoinMessage::UserState(user_state_of(c)),
                JoinMessage::ServerSync(ServerSync { session: c.session_id, max_bandwidth: MAX_BANDWIDTH, welcome_text }),
                JoinMessage::ServerConfig(ServerConfig {
                    max_bandwidth: MAX_BANDWIDTH,
                    max_users: 2048,
                    allow_html: true,
                    message_length: 512,
                    image_message_length: 0,
                }),
            ]
    }

    /// Session ids of the first `n` clients that have no UDP peer yet.
    pub open spec fn unbound_upto(&self, n: int) -> Seq<u32>
        decreases n,
    {
        if n <= 0 {
            Seq::empty()
        } else {
            let prev = self.unbound_upto(n - 1);
            if self.clients@[n - 1].udp_socket_addr is None {
                prev.push(self.clients@[n - 1].session_id)
            } else {
                prev
            }
        }
    }

    /// Channel `ch` exists and is temporary.
    pub open spec fn is_temporary(&self, ch: u32) -> bool {
        exists|i: int| 0 <= i < self.channels@.len() && (#[trigger] self.channels@[i]).id == ch && self.channels@[i].temporary
    }

    /// Some client is in channel `ch`.
    pub open spec fn occupied(&self, ch: u32) -> bool {
        exists|j: int| 0 <= j < self.clients@.len() && (#[trigger] self.clients@[j]).channel_id == ch
    }

    proof fn lemma_channel_states(&self, n: int)
        requires
            0 <= n <= self.channels@.len(),
        ensures
            self.channel_states_upto(n).len() == n,
            forall|i: int| 0 <= i < n ==> #[trigger] self.channel_states_upto(n)[i]
                == JoinMessage::ChannelState(channel_state_of(self.channels@[i])),
        decreases n,
    {
        if n > 0 {
            self.lemma_channel_states(n - 1);
        }
    }

    proof fn lemma_other_users(&self, session: u32, n: int)
        requires
            self.wf(),
            0 <= n <= self.clients@.len(),
        ensures
            self.other_user_states_upto(session, n).len() <= n,
            forall|k: int| 0 <= k < self.other_user_states_upto(session, n).len() ==> exists|j: int|
                0 <= j < n && self.clients@[j].session_id != session
                    && #[trigger] self.other_user_states_upto(session, n)[k] == JoinMessage::UserState(user_state_of(self.clients@[j])),
            forall|k1: int, k2: int| 0 <= k1 < self.other_user_states_upto(session, n).len()
                && 0 <= k2 < self.other_user_states_upto(session, n).len() && k1 != k2
                ==> msg_session(#[trigger] self.other_user_states_upto(session, n)[k1])
                    != msg_session(#[trigger] self.other_user_states_upto(session, n)[k2]),
        decreases n,
    {
        if n > 0 {
            self.lemma_other_users(session, n - 1);
            let prev = self.other_user_states_upto(session, n - 1);
            let cur = self.other_user_states_upto(session, n);
            let c = self.clients@[n - 1];
            if c.session_id != session {
                assert(cur == prev.push(JoinMessage::UserState(user_state_of(c))));
                assert forall|k: int| 0 <= k < cur.len() implies exists|j: int|
                    0 <= j < n && self.clients@[j].session_id != session
                        && #[trigger] cur[k] == JoinMessage::UserState(user_state_of(self.clients@[j])) by {
                    if k < prev.len() {
                        assert(cur[k] == prev[k]);
                    } else {
                        assert(cur[k] == JoinMessage::UserState(user_state_of(self.clients@[n - 1])));
                    }
                }
                assert forall|k1: int, k2: int| 0 <= k1 < cur.len() && 0 <= k2 < cur.len() && k1 != k2
                    implies msg_session(#[trigger] cur[k1]) != msg_session(#[trigger] cur[k2]) by {
                    if k1 < prev.len() && k2 < prev.len() {
                        assert(cur[k1] == prev[k1] && cur[k2] == prev[k2]);
                    } else {
                        let k = if k1 < prev.len() { k1 } else { k2 };
                        assert(cur[k] == prev[k]);
                        let j = choose|j: int| 0 <= j < n - 1 && self.clients@[j].session_id != session
                            && #[trigger] prev[k] == JoinMessage::UserState(user_state_of(self.clients@[j]));
                        assert(self.clients@[j].session_id != self.clients@[n - 1].session_id);
                    }
                }
            }
        }
    }

    /// What a joining client receives describes each client once, and
    /// describes a client only after the channel it is in.
    pub proof fn lemma_join_sequence_laws(&self, i: int, welcome_text: String)
        requires
            self.wf(),
            0 <= i < self.clients@.len(),
        ensures
            ({
                let js = self.join_sequence(self.clients@[i], welcome_text);
                &&& forall|k1: int, k2: int| 0 <= k1 < js.len() && 0 <= k2 < js.len() && k1 != k2
                    && (#[trigger] msg_session(js[k1])) is Some ==> msg_session(js[k1]) != #[trigger] msg_session(js[k2])
                &&& forall|k: int| 0 <= k < js.len() ==> #[trigger] channel_described_before(js, k)
            }),
    {
        let me = self.clients@[i];
        let nch = self.channels@.len() as int;
        let chans = self.channel_states_upto(nch);
        let others = self.other_user_states_upto(me.session_id, self.clients@.len() as int);
        let js = self.join_sequence(me, welcome_text);
        self.lemma_channel_states(nch);
        self.lemma_other_users(me.session_id, self.clients@.len() as int);
        let no = others.len() as int;
        assert(js.len() == nch + no + 3);
        assert forall|k: int| 0 <= k < nch implies #[trigger] js[k] == chans[k] by {}
        assert forall|k: int| nch <= k < nch + no implies #[trigger] js[k] == others[k - nch] by {}
        assert(js[nch + no] == JoinMessage::UserState(user_state_of(me)));
        assert(msg_session(js[nch + no + 1]) is None);
        assert(msg_session(js[nch + no + 2]) is None);
        assert forall|k: int| 0 <= k < nch implies msg_session(#[trigger] js[k]) is None by {}
        // A client's channel has its ChannelState among the first ones.
        assert forall|j: int| 0 <= j < self.clients@.len() implies exists|k0: int| 0 <= k0 < nch
            && describes_channel(#[trigger] js[k0], #[trigger] self.clients@[j].channel_id) by {
            let ch = self.clients@[j].channel_id;
            assert(self.has_channel(ch));
            let c = choose|c: int| 0 <= c < nch && (#[trigger] self.channels@[c]).id == ch;
            assert(js[c] == JoinMessage::ChannelState(channel_state_of(self.channels@[c])));
        }
        assert forall|k1: int, k2: int| 0 <= k1 < js.len() && 0 <= k2 < js.len() && k1 != k2
            && (#[trigger] msg_session(js[k1])) is Some implies msg_session(js[k1]) != #[trigger] msg_session(js[k2]) by {
            if nch <= k1 < nch + no && nch <= k2 < nch + no {
                assert(js[k1] == others[k1 - nch] && js[k2] == others[k2 - nch]);
            } else if nch <= k1 < nch + no && k2 == nch + no {
                let j = choose|j: int| 0 <= j < self.clients@.len() && self.clients@[j].session_id != me.session_id
                    && #[trigger] others[k1 - nch] == JoinMessage::UserState(user_state_of(self.clients@[j]));
            } else if nch <= k2 < nch + no && k1 == nch + no {
                let j = choose|j: int| 0 <= j < self.clients@.len() && self.clients@[j].session_id != me.session_id
                    && #[trigger] others[k2 - nch] == JoinMessage::UserState(user_state_of(self.clients@[j]));
            }
        }
        assert forall|k: int| 0 <= k < js.len() implies #[trigger] channel_described_before(js, k) by {
            if nch <= k < nch + no {
                let j = choose|j: int| 0 <= j < self.clients@.len() && self.clients@[j].session_id != me.session_id
                    && #[trigger] others[k - nch] == JoinMessage::UserState(user_state_of(self.clients@[j]));
                assert(js[k] == JoinMessage::UserState(user_state_of(self.clients@[j])));
                let k0 = choose|k0: int| 0 <= k0 < nch && describes_channel(#[trigger] js[k0], self.clients@[j].channel_id);
            } else if k == nch + no {
                let k0 = choose|k0: int| 0 <= k0 < nch && describes_channel(#[trigger] js[k0], self.clients@[i].channel_id);
            }
        }
    }

    /// Under the invariant, every live client is in an existing channel.
    pub proof fn lemma_clients_in_known_channels(&self)
        requires
            self.wf(),
        ensures
            forall|i: int| 0 <= i < self.clients@.len() ==> self.has_channel((#[trigger] self.clients@[i]).channel_id),
    {
    }

    /// Under the invariant, every link is matched by its reverse.
    pub proof fn lemma_links_symmetric(&self)
        requires
            self.wf(),
        ensures
            forall|a: u32, b: u32| #[trigger] self.linked(a, b) ==> self.linked(b, a),
    {
    }

    /// Under the invariant, no two live clients share a cipher key.
    pub proof fn lemma_keys_distinct(&self)
        requires
            self.wf(),
        ensures
            self.keys_unique(),
    {
    }

    /// Under the invariant, no two live clients share a session id.
    pub proof fn lemma_sessions_distinct(&self)
        requires
            self.wf(),
        ensures
            forall|i: int, j: int| 0 <= i < self.clients@.len() && 0 <= j < self.clients@.len() && i != j
                ==> (#[trigger] self.clients@[i]).session_id != (#[trigger] self.clients@[j]).session_id,
    {
    }

    /// The registry with only the root channel and no client.
    pub fn new(root_name: String) -> (r: ServerState)
        ensures
            r.wf(),
            r.channels@.len() == 1,
            r.channels@[0] == (Channel { id: ROOT_CHANNEL, name: root_name, parent_id: ROOT_CHANNEL, temporary: false, position: 0 }),
            r.links@.len() == 0,
            r.clients@.len() == 0,
            r.next_session_id == 1,
    {
        let mut channels: Vec<Channel> = Vec::new();
        channels.push(Channel { id: ROOT_CHANNEL, name: root_name, parent_id: ROOT_CHANNEL, temporary: false, position: 0 });
        let r = ServerState { channels, links: Vec::new(), clients: Vec::new(), next_channel_id: 1, next_session_id: 1 };
        assert(r.channels@[0].id == ROOT_CHANNEL);
        r
    }

    /// The index of channel `id`.
    pub fn find_channel(&self, id: u32) -> (r: Option<usize>)
        ensures
            r matches Some(i) ==> i < self.channels@.len() && self.channels@[i as int].id == id,
            r is None ==> !self.has_channel(id),
    {
        let mut i: usize = 0;
        while i < self.channels.len()
            invariant
                i <= self.channels@.len(),
                forall|j: int| 0 <= j < i ==> (#[trigger] self.channels@[j]).id != id,
            decreases self.channels@.len() - i,
        {
            if self.channels[i].id == id {
                return Some(i);
            }
            i = i + 1;
        }
        None
    }

    /// The index of the client with session id `session`.
    pub fn find_client(&self, session: u32) -> (r: Option<usize>)
        ensures
            r matches Some(i) ==> i < self.clients@.len() && self.clients@[i as int].session_id == session,
            r is None ==> !self.has_client(session),
    {
        let mut i: usize = 0;
        while i < self.clients.len()
            invariant
                i <= self.clients@.len(),
                forall|j: int| 0 <= j < i ==> (#[trigger] self.clients@[j]).session_id != session,
            decreases self.clients@.len() - i,
        {
            if self.clients[i].session_id == session {
                return Some(i);
            }
            i = i + 1;
        }
        None
    }

    /// Whether channels `a` and `b` are linked.
    pub fn is_linked(&self, a: u32, b: u32) -> (r: bool)
        ensures
            r == self.linked(a, b),
    {
        let mut k: usize = 0;
        while k < self.links.len()
            invariant
                k <= self.links@.len(),
                forall|j: int| 0 <= j < k ==> (#[trigger] self.links@[j]) != (a, b),
            decreases self.links@.len() - k,
        {
            let (x, y) = self.links[k];
            if x == a && y == b {
                assert(self.links@[k as int] == (a, b));
                return true;
            }
            k = k + 1;
        }
        false
    }

    /// The parent of channel `x`, where `x` exists.
    pub fn get_parent(&self, x: u32) -> (r: Option<u32>)
        requires
            self.channel_ids_unique(),
        ensures
            r == self.parent_of(x),
    {
        match self.find_channel(x) {
            Some(i) => {
                proof {
                    let j = choose|j: int| 0 <= j < self.channels@.len() && (#[trigger] self.channels@[j]).id == x;
                    assert(self.channels@[i as int].id == self.channels@[j].id);
                }
                Some(self.channels[i].parent_id)
            },
            None => None,
        }
    }

    fn in_base_exec(&self, ch: u32, links: bool, x: u32) -> (r: bool)
        ensures
            r == self.in_base(ch, links, x),
    {
        x == ch || (links && self.is_linked(ch, x))
    }

    fn in_scope_exec(&self, ch: u32, links: bool, children: bool, x: u32) -> (r: bool)
        requires
            self.channel_ids_unique(),
        ensures
            r == self.in_scope(ch, links, children, x),
    {
        if self.in_base_exec(ch, links, x) {
            return true;
        }
        if !children {
            return false;
        }
        let mut cur = x;
        let mut fuel: usize = self.channels.len();
        while fuel > 0
            invariant
                self.channel_ids_unique(),
                children,
                !self.in_base(ch, links, x),
                self.reaches_base(ch, links, x, self.channels@.len()) == self.reaches_base(ch, links, cur, fuel as nat),
            decreases fuel,
        {
            match self.get_parent(cur) {
                None => {
                    return false;
                },
                Some(p) => {
                    if p == cur {
                        return false;
                    }
                    if self.in_base_exec(ch, links, p) {
                        return true;
                    }
                    cur = p;
                    fuel = fuel - 1;
                },
            }
        }
        false
    }

    fn holds_token(tokens: &Vec<String>, g: &String) -> (r: bool)
        ensures
            r == has_token(tokens@, g@),
    {
        let mut i: usize = 0;
        while i < tokens.len()
            invariant
                i <= tokens@.len(),
                forall|j: int| 0 <= j < i ==> (#[trigger] tokens@[j])@ != g@,
            decreases tokens@.len() - i,
        {
            if tokens[i] == *g {
                return true;
            }
            i = i + 1;
        }
        false
    }

    fn hears_exec(&self, s: &Client, target: u8, c: &Client) -> (r: bool)
        requires
            self.channel_ids_unique(),
        ensures
            r == self.hears(*s, target, *c),
    {
        if s.mute || c.deaf {
            return false;
        }
        if target == TARGET_NORMAL {
            c.session_id != s.session_id && (c.channel_id == s.channel_id || self.is_linked(c.channel_id, s.channel_id))
        } else if target == TARGET_LOOPBACK {
            c.session_id == s.session_id
        } else if (target as usize) < s.targets.len() {
            match &s.targets[target as usize] {
                VoiceTarget::Empty => false,
                VoiceTarget::Users(us) => c.session_id != s.session_id && contains_session(us, c.session_id),
                VoiceTarget::Channel { channel_id, links, children, group } => {
                    if c.session_id == s.session_id {
                        return false;
                    }
                    if !self.in_scope_exec(*channel_id, *links, *children, c.channel_id) {
                        return false;
                    }
                    match group {
                        None => true,
                        Some(g) => Self::holds_token(&c.tokens, g),
                    }
                },
            }
        } else {
            false
        }
    }

    /// The recipients of a voice frame that client `session` sends to target
    /// id `target`, in registry order, each with how it is reached.
    pub fn route_voice(&self, session: u32, target: u8) -> (r: Result<Vec<(u32, VoiceDelivery)>, StateError>)
        requires
            self.wf(),
        ensures
            !self.has_client(session) ==> r == Err::<Vec<(u32, VoiceDelivery)>, StateError>(StateError::UnknownClient),
            self.has_client(session) ==> (r matches Ok(v) && forall|i: int|
                0 <= i < self.clients@.len() && (#[trigger] self.clients@[i]).session_id == session
                    ==> v@ == self.routes_upto(self.clients@[i], target, self.clients@.len() as int)),
    {
        let si = match self.find_client(session) {
            Some(si) => si,
            None => return Err(StateError::UnknownClient),
        };
        let s = &self.clients[si];
        let mut out: Vec<(u32, VoiceDelivery)> = Vec::new();
        let mut i: usize = 0;
        while i < self.clients.len()
            invariant
                self.wf(),
                si < self.clients@.len(),
                *s == self.clients@[si as int],
                i <= self.clients@.len(),
                out@ == self.routes_upto(*s, target, i as int),
            decreases self.clients@.len() - i,
        {
            let c = &self.clients[i];
            if self.hears_exec(s, target, c) {
                out.push((c.session_id, c.voice_delivery()));
            }
            i = i + 1;
        }
        assert forall|j: int| 0 <= j < self.clients@.len() && (#[trigger] self.clients@[j]).session_id == session
            implies j == si by {
            if j != si as int {
                assert(self.clients@[j].session_id != self.clients@[si as int].session_id);
            }
        }
        Ok(out)
    }

    /// Adds a channel under `parent_id` with the next free channel id.
    pub fn add_channel(&mut self, name: String, parent_id: u32, temporary: bool, position: i32) -> (r: Result<u32, StateError>)
        requires
            old(self).wf(),
        ensures
            final(self).wf(),
            !old(self).has_channel(parent_id) ==> r == Err::<u32, StateError>(StateError::UnknownChannel),
            old(self).has_channel(parent_id) && old(self).next_channel_id == u32::MAX ==> r == Err::<u32, StateError>(StateError::IdsExhausted),
            r is Err ==> *final(self) == *old(self),
            old(self).has_channel(parent_id) && old(self).next_channel_id < u32::MAX ==> (r == Ok::<u32, StateError>(old(self).next_channel_id)
                && final(self).channels@ == old(self).channels@.push(Channel { id: old(self).next_channel_id, name, parent_id, temporary, position })
                && final(self).links@ == old(self).links@
                && final(self).clients@ == old(self).clients@
                && final(self).next_session_id == old(self).next_session_id
                && final(self).next_channel_id == old(self).next_channel_id + 1),
    {
        if self.find_channel(parent_id).is_none() {
            return Err(StateError::UnknownChannel);
        }
        if self.next_channel_id == u32::MAX {
            return Err(StateError::IdsExhausted);
        }
        let id = self.next_channel_id;
        let ghost pre = *self;
        self.channels.push(Channel { id, name, parent_id, temporary, position });
        self.next_channel_id = id + 1;
        proof {
            lemma_channels_extended(pre, *self);
        }
        Ok(id)
    }

    /// Links channels `a` and `b`, in both directions.
    pub fn link_channels(&mut self, a: u32, b: u32) -> (r: Result<(), StateError>)
        requires
            old(self).wf(),
        ensures
            final(self).wf(),
            !(old(self).has_channel(a) && old(self).has_channel(b)) ==> r == Err::<(), StateError>(StateError::UnknownChannel)
                && *final(self) == *old(self),
            old(self).has_channel(a) && old(self).has_channel(b) ==> r is Ok,
            r is Ok ==> forall|x: u32, y: u32| #[trigger] final(self).linked(x, y)
                == (old(self).linked(x, y) || (x == a && y == b) || (x == b && y == a)),
            final(self).channels == old(self).channels,
            final(self).clients == old(self).clients,
            final(self).next_session_id == old(self).next_session_id,
            final(self).next_channel_id == old(self).next_channel_id,
    {
        let ia = self.find_channel(a);
        let ib = self.find_channel(b);
        if ia.is_none() || ib.is_none() {
            return Err(StateError::UnknownChannel);
        }
        if self.is_linked(a, b) {
            assert(self.linked(b, a));
            return Ok(());
        }
        let ghost pre = *self;
        self.links.push((a, b));
        self.links.push((b, a));
        proof {
            let l0 = pre.links@;
            let l2 = self.links@;
            assert(l2 == l0.push((a, b)).push((b, a)));
            assert(l2[l0.len() as int] == (a, b));
            assert(l2[l0.len() as int + 1] == (b, a));
            assert forall|x: u32, y: u32| #[trigger] self.linked(x, y)
                == (pre.linked(x, y) || (x == a && y == b) || (x == b && y == a)) by {
                if pre.linked(x, y) {
                    let k = choose|k: int| 0 <= k < l0.len() && l0[k] == (x, y);
                    assert(l2[k] == (x, y));
                }
                if self.linked(x, y) {
                    let k = choose|k: int| 0 <= k < l2.len() && l2[k] == (x, y);
                    if k < l0.len() {
                        assert(l0[k] == (x, y));
                    }
                }
                if x == a && y == b {
                    assert(l2[l0.len() as int] == (x, y));
                }
                if x == b && y == a {
                    assert(l2[l0.len() as int + 1] == (x, y));
                }
            }
            lemma_same_channels(pre, *self);
            assert forall|k: int| 0 <= k < l2.len() implies self.has_channel((#[trigger] l2[k]).0) && self.has_channel(l2[k].1) by {
                if k < l0.len() {
                    assert(l0[k] == l2[k]);
                    assert(pre.has_channel(l0[k].0));
                    assert(pre.has_channel(l0[k].1));
                } else {
                    assert(self.channels@[ia.unwrap() as int].id == a);
                    assert(self.channels@[ib.unwrap() as int].id == b);
                }
            }
        }
        Ok(())
    }

    /// Registers `client` under the next free session id, which it returns.
    pub fn add_client(&mut self, client: Client) -> (r: Result<u32, StateError>)
        requires
            old(self).wf(),
            client.crypt_state.wf(),
        ensures
            final(self).wf(),
            !old(self).has_channel(client.channel_id) ==> r == Err::<u32, StateError>(StateError::UnknownChannel),
            old(self).has_channel(client.channel_id) && old(self).next_session_id == u32::MAX
                ==> r == Err::<u32, StateError>(StateError::IdsExhausted),
            old(self).has_channel(client.channel_id) && old(self).next_session_id < u32::MAX
                && old(self).key_in_use(client.crypt_state.key@) ==> r == Err::<u32, StateError>(StateError::KeyCollision),
            r is Err ==> *final(self) == *old(self),
            old(self).has_channel(client.channel_id) && old(self).next_session_id < u32::MAX
                && !old(self).key_in_use(client.crypt_state.key@) ==> (
                r == Ok::<u32, StateError>(old(self).next_session_id)
                && final(self).clients@ == old(self).clients@.push(Client { session_id: old(self).next_session_id, ..client })
                && final(self).next_session_id == old(self).next_session_id + 1
                && !old(self).has_client(old(self).next_session_id)),
            final(self).channels == old(self).channels,
            final(self).links == old(self).links,
            final(self).next_channel_id == old(self).next_channel_id,
    {
        if self.find_channel(client.channel_id).is_none() {
            return Err(StateError::UnknownChannel);
        }
        if self.next_session_id == u32::MAX {
            return Err(StateError::IdsExhausted);
        }
        let mut k: usize = 0;
        while k < self.clients.len()
            invariant
                self.wf(),
                self.has_channel(client.channel_id),
                self.next_session_id < u32::MAX,
                k <= self.clients@.len(),
                forall|j: int| 0 <= j < k ==> (#[trigger] self.clients@[j]).crypt_state.key@ != client.crypt_state.key@,
            decreases self.clients@.len() - k,
        {
            if same_bytes(&self.clients[k].crypt_state.key, &client.crypt_state.key) {
                assert(self.key_in_use(client.crypt_state.key@)) by {
                    assert(self.clients@[k as int].crypt_state.key@ == client.crypt_state.key@);
                }
                return Err(StateError::KeyCollision);
            }
            k = k + 1;
        }
        let id = self.next_session_id;
        let ghost pre = *self;
        let mut c = client;
        c.session_id = id;
        self.clients.push(c);
        self.next_session_id = id + 1;
        proof {
            lemma_channel_side(pre, *self);
            let n = pre.clients@.len();
            assert forall|i: int| 0 <= i < self.clients@.len() implies self.has_channel((#[trigger] self.clients@[i]).channel_id) by {
                if i < n {
                    assert(self.clients@[i] == pre.clients@[i]);
                }
            }
            assert forall|i: int| 0 <= i < self.clients@.len() implies 0 < (#[trigger] self.clients@[i]).session_id < self.next_session_id
                && self.clients@[i].crypt_state.wf() by {
                if i < n {
                    assert(self.clients@[i] == pre.clients@[i]);
                }
            }
            assert forall|i: int, j: int| 0 <= i < self.clients@.len() && 0 <= j < self.clients@.len() && i != j
                implies (#[trigger] self.clients@[i]).session_id != (#[trigger] self.clients@[j]).session_id
                && self.clients@[i].crypt_state.key@ != self.clients@[j].crypt_state.key@ by {
                if i < n {
                    assert(self.clients@[i] == pre.clients@[i]);
                }
                if j < n {
                    assert(self.clients@[j] == pre.clients@[j]);
                }
            }
            assert(!pre.has_client(id));
        }
        Ok(id)
    }

    /// Unregisters client `session` and hands back its record.
    pub fn remove_client(&mut self, session: u32) -> (r: Result<Client, StateError>)
        requires
            old(self).wf(),
        ensures
            final(self).wf(),
            !old(self).has_client(session) ==> r == Err::<Client, StateError>(StateError::UnknownClient) && *final(self) == *old(self),
            old(self).has_client(session) ==> (r matches Ok(c) && c.session_id == session && exists|i: int|
                0 <= i < old(self).clients@.len() && old(self).clients@[i] == c
                    && final(self).clients@ == old(self).clients@.remove(i)),
            !final(self).has_client(session),
            final(self).channels == old(self).channels,
            final(self).links == old(self).links,
            final(self).next_session_id == old(self).next_session_id,
            final(self).next_channel_id == old(self).next_channel_id,
    {
        let i = match self.find_client(session) {
            Some(i) => i,
            None => return Err(StateError::UnknownClient),
        };
        let ghost pre = *self;
        let c = self.clients.remove(i);
        proof {
            lemma_channel_side(pre, *self);
            let o = pre.clients@;
            let nw = self.clients@;
            assert(nw == o.remove(i as int));
            assert forall|k: int| 0 <= k < nw.len() implies (#[trigger] nw[k]) == if k < i { o[k] } else { o[k + 1] } by {}
            assert forall|k: int| 0 <= k < nw.len() implies self.has_channel((#[trigger] nw[k]).channel_id) by {
                if k < i { assert(nw[k] == o[k]); } else { assert(nw[k] == o[k + 1]); }
            }
            assert forall|k: int| 0 <= k < nw.len() implies 0 < (#[trigger] nw[k]).session_id < self.next_session_id
                && nw[k].crypt_state.wf() by {
                if k < i { assert(nw[k] == o[k]); } else { assert(nw[k] == o[k + 1]); }
            }
            assert forall|x: int, y: int| 0 <= x < nw.len() && 0 <= y < nw.len() && x != y
                implies (#[trigger] nw[x]).session_id != (#[trigger] nw[y]).session_id
                && nw[x].crypt_state.key@ != nw[y].crypt_state.key@ by {
                let ox = if x < i { x } else { x + 1 };
                let oy = if y < i { y } else { y + 1 };
                assert(nw[x] == o[ox]);
                assert(nw[y] == o[oy]);
            }
            if self.has_client(session) {
                let k = choose|k: int| 0 <= k < nw.len() && (#[trigger] nw[k]).session_id == session;
                let ok = if k < i { k } else { k + 1 };
                assert(nw[k] == o[ok]);
                assert(o[ok].session_id == o[i as int].session_id);
            }
        }
        Ok(c)
    }


    /// Moves client `session` to channel `channel_id`: the channel it left,
    /// or `None` where it was already there.
    pub fn move_client(&mut self, session: u32, channel_id: u32) -> (r: Result<Option<u32>, StateError>)
        requires
            old(self).wf(),
        ensures
            final(self).wf(),
            !old(self).has_client(session) ==> r == Err::<Option<u32>, StateError>(StateError::UnknownClient),
            old(self).has_client(session) && !old(self).has_channel(channel_id)
                ==> r == Err::<Option<u32>, StateError>(StateError::UnknownChannel),
            r is Err ==> *final(self) == *old(self),
            r is Ok ==> old(self).has_client(session) && old(self).has_channel(channel_id),
            forall|i: int| 0 <= i < old(self).clients@.len() && (#[trigger] old(self).clients@[i]).session_id == session
                && old(self).has_channel(channel_id) ==> {
                    let c = old(self).clients@[i];
                    &&& final(self).clients@ == old(self).clients@.update(i, Client { channel_id, ..c })
                    &&& r == Ok::<Option<u32>, StateError>(if c.channel_id == channel_id { None } else { Some(c.channel_id) })
                },
            final(self).channels == old(self).channels,
            final(self).links == old(self).links,
    {
        let i = match self.find_client(session) {
            Some(i) => i,
            None => return Err(StateError::UnknownClient),
        };
        if self.find_channel(channel_id).is_none() {
            return Err(StateError::UnknownChannel);
        }
        let ghost pre = *self;
        let mut c = self.clients.remove(i);
        let prev = c.join_channel(channel_id);
        self.clients.insert(i, c);
        proof {
            assert(self.clients@ == pre.clients@.update(i as int, c));
            lemma_client_replaced(pre, *self, i as int);
            lemma_unique_index(pre, i as int);
        }
        Ok(prev)
    }

    /// Applies a `UserState` that client `session` sent about itself: its
    /// mute and deaf flags where set, then a move where `channel_id` is set.
    /// Returns the channel it left, if it moved.
    pub fn apply_user_state(&mut self, session: u32, state: &UserState) -> (r: Result<Option<u32>, StateError>)
        requires
            old(self).wf(),
        ensures
            final(self).wf(),
            !old(self).has_client(session) ==> r == Err::<Option<u32>, StateError>(StateError::UnknownClient),
            old(self).has_client(session) && (state.channel_id matches Some(ch) && !old(self).has_channel(ch))
                ==> r == Err::<Option<u32>, StateError>(StateError::UnknownChannel),
            r is Err ==> *final(self) == *old(self),
            forall|i: int| 0 <= i < old(self).clients@.len() && (#[trigger] old(self).clients@[i]).session_id == session
                && !(state.channel_id matches Some(ch) && !old(self).has_channel(ch)) ==> {
                    let c = old(self).clients@[i];
                    let ch = match state.channel_id { Some(ch) => ch, None => c.channel_id };
                    &&& final(self).clients@ == old(self).clients@.update(i, Client {
                        channel_id: ch,
                        mute: match state.mute { Some(m) => m, None => c.mute },
                        deaf: match state.deaf { Some(d) => d, None => c.deaf },
                        ..c
                    })
                    &&& r == Ok::<Option<u32>, StateError>(if ch == c.channel_id { None } else { Some(c.channel_id) })
                },
            final(self).channels == old(self).channels,
            final(self).links == old(self).links,
    {
        let i = match self.find_client(session) {
            Some(i) => i,
            None => return Err(StateError::UnknownClient),
        };
        let target = match state.channel_id {
            Some(ch) => {
                if self.find_channel(ch).is_none() {
                    return Err(StateError::UnknownChannel);
                }
                ch
            },
            None => self.clients[i].channel_id,
        };
        let ghost pre = *self;
        let mut c = self.clients.remove(i);
        c.update(state);
        let prev = c.join_channel(target);
        self.clients.insert(i, c);
        proof {
            assert(self.clients@ == pre.clients@.update(i as int, c));
            lemma_client_replaced(pre, *self, i as int);
            lemma_unique_index(pre, i as int);
        }
        Ok(prev)
    }

    /// Installs `target` in whisper slot `slot` of client `session`; `false`
    /// where the client has no such slot.
    pub fn set_client_target(&mut self, session: u32, slot: usize, target: VoiceTarget) -> (r: Result<bool, StateError>)
        requires
            old(self).wf(),
        ensures
            final(self).wf(),
            !old(self).has_client(session) ==> r == Err::<bool, StateError>(StateError::UnknownClient) && *final(self) == *old(self),
            forall|i: int| 0 <= i < old(self).clients@.len() && (#[trigger] old(self).clients@[i]).session_id == session ==> {
                let c = old(self).clients@[i];
                &&& r == Ok::<bool, StateError>(slot < c.targets@.len())
                &&& slot < c.targets@.len() ==> final(self).clients@ == old(self).clients@.update(i, Client {
                    targets: final(self).clients@[i].targets,
                    ..c
                }) && final(self).clients@[i].targets@ == c.targets@.update(slot as int, target)
                &&& slot >= c.targets@.len() ==> final(self).clients@ == old(self).clients@
            },
            final(self).channels == old(self).channels,
            final(self).links == old(self).links,
    {
        let i = match self.find_client(session) {
            Some(i) => i,
            None => return Err(StateError::UnknownClient),
        };
        let ghost pre = *self;
        let mut c = self.clients.remove(i);
        let ok = c.set_target(slot, target);
        self.clients.insert(i, c);
        proof {
            assert(self.clients@ == pre.clients@.update(i as int, c));
            lemma_client_replaced(pre, *self, i as int);
            lemma_unique_index(pre, i as int);
            if !ok {
                assert(self.clients@ == pre.clients@);
            }
        }
        Ok(ok)
    }

    /// Records `addr` as the UDP peer of client `session`, after a datagram
    /// from `addr` decrypted under that client's cipher state.
    pub fn bind_udp_peer(&mut self, session: u32, addr: PeerAddr) -> (r: Result<(), StateError>)
        requires
            old(self).wf(),
        ensures
            final(self).wf(),
            !old(self).has_client(session) ==> r == Err::<(), StateError>(StateError::UnknownClient) && *final(self) == *old(self),
            old(self).has_client(session) ==> r is Ok,
            forall|i: int| 0 <= i < old(self).clients@.len() && (#[trigger] old(self).clients@[i]).session_id == session
                ==> final(self).clients@ == old(self).clients@.update(i, Client { udp_socket_addr: Some(addr), ..old(self).clients@[i] }),
            final(self).channels == old(self).channels,
            final(self).links == old(self).links,
    {
        let i = match self.find_client(session) {
            Some(i) => i,
            None => return Err(StateError::UnknownClient),
        };
        let ghost pre = *self;
        let mut c = self.clients.remove(i);
        c.set_udp_socket_addr(addr);
        self.clients.insert(i, c);
        proof {
            assert(self.clients@ == pre.clients@.update(i as int, c));
            lemma_client_replaced(pre, *self, i as int);
            lemma_unique_index(pre, i as int);
        }
        Ok(())
    }

    /// Records a ping from client `session` at time `now`.
    pub fn record_ping(&mut self, session: u32, now: u64) -> (r: Result<(), StateError>)
        requires
            old(self).wf(),
        ensures
            final(self).wf(),
            !old(self).has_client(session) ==> r == Err::<(), StateError>(StateError::UnknownClient) && *final(self) == *old(self),
            old(self).has_client(session) ==> r is Ok,
            forall|i: int| 0 <= i < old(self).clients@.len() && (#[trigger] old(self).clients@[i]).session_id == session
                ==> final(self).clients@ == old(self).clients@.update(i, Client { last_ping: now, ..old(self).clients@[i] }),
            final(self).channels == old(self).channels,
            final(self).links == old(self).links,
    {
        let i = match self.find_client(session) {
            Some(i) => i,
            None => return Err(StateError::UnknownClient),
        };
        let ghost pre = *self;
        let mut c = self.clients.remove(i);
        c.touch_ping(now);
        self.clients.insert(i, c);
        proof {
            assert(self.clients@ == pre.clients@.update(i as int, c));
            lemma_client_replaced(pre, *self, i as int);
            lemma_unique_index(pre, i as int);
        }
        Ok(())
    }


    /// The messages that bring client `session`, which has just been
    /// registered, up to date with the server.
    pub fn join_messages(&self, session: u32, welcome_text: String) -> (r: Result<Vec<JoinMessage>, StateError>)
        requires
            self.wf(),
        ensures
            !self.has_client(session) ==> r == Err::<Vec<JoinMessage>, StateError>(StateError::UnknownClient),
            self.has_client(session) ==> (r matches Ok(v) && forall|i: int|
                0 <= i < self.clients@.len() && (#[trigger] self.clients@[i]).session_id == session
                    ==> v@ == self.join_sequence(self.clients@[i], welcome_text)),
    {
        let si = match self.find_client(session) {
            Some(si) => si,
            None => return Err(StateError::UnknownClient),
        };
        let mut out: Vec<JoinMessage> = Vec::new();
        let mut i: usize = 0;
        while i < self.channels.len()
            invariant
                i <= self.channels@.len(),
                out@ == self.channel_states_upto(i as int),
            decreases self.channels@.len() - i,
        {
            out.push(JoinMessage::ChannelState(self.channels[i].get_channel_state()));
            i = i + 1;
        }
        let ghost chans = out@;
        let mut j: usize = 0;
        while j < self.clients.len()
            invariant
                j <= self.clients@.len(),
                chans == self.channel_states_upto(self.channels@.len() as int),
                out@ == chans + self.other_user_states_upto(session, j as int),
            decreases self.clients@.len() - j,
        {
            let c = &self.clients[j];
            if c.session_id != session {
                out.push(JoinMessage::UserState(c.get_user_state()));
            }
            proof {
                let prev = self.other_user_states_upto(session, j as int);
                if c.session_id != session {
                    assert(chans + prev.push(JoinMessage::UserState(user_state_of(*c)))
                        == (chans + prev).push(JoinMessage::UserState(user_state_of(*c))));
                }
            }
            j = j + 1;
        }
        let me = &self.clients[si];
        out.push(JoinMessage::UserState(me.get_user_state()));
        out.push(JoinMessage::ServerSync(me.get_server_sync(welcome_text)));
        out.push(JoinMessage::ServerConfig(Client::get_server_config()));
        proof {
            lemma_unique_index(*self, si as int);
            assert(out@ == self.join_sequence(*me, welcome_text));
        }
        Ok(out)
    }

    /// The clients whose cipher state may have sealed a datagram from `addr`:
    /// the client bound to `addr` where there is one, else every client with
    /// no UDP peer yet, in registry order.
    pub fn udp_candidates(&self, addr: PeerAddr) -> (r: Vec<u32>)
        requires
            self.wf(),
        ensures
            (exists|i: int| 0 <= i < self.clients@.len() && (#[trigger] self.clients@[i]).udp_socket_addr == Some(addr))
                ==> r@.len() == 1 && exists|i: int| 0 <= i < self.clients@.len()
                    && (#[trigger] self.clients@[i]).udp_socket_addr == Some(addr) && r@[0] == self.clients@[i].session_id,
            !(exists|i: int| 0 <= i < self.clients@.len() && (#[trigger] self.clients@[i]).udp_socket_addr == Some(addr))
                ==> r@ == self.unbound_upto(self.clients@.len() as int),
    {
        let mut i: usize = 0;
        while i < self.clients.len()
            invariant
                i <= self.clients@.len(),
                forall|j: int| 0 <= j < i ==> (#[trigger] self.clients@[j]).udp_socket_addr != Some(addr),
            decreases self.clients@.len() - i,
        {
            if self.clients[i].udp_socket_addr == Some(addr) {
                let mut one: Vec<u32> = Vec::new();
                one.push(self.clients[i].session_id);
                return one;
            }
            i = i + 1;
        }
        let mut out: Vec<u32> = Vec::new();
        let mut k: usize = 0;
        while k < self.clients.len()
            invariant
                k <= self.clients@.len(),
                out@ == self.unbound_upto(k as int),
            decreases self.clients@.len() - k,
        {
            if self.clients[k].udp_socket_addr.is_none() {
                out.push(self.clients[k].session_id);
            }
            k = k + 1;
        }
        out
    }


    /// Removes channel `id`: its children become children of the root, its
    /// occupants move to the root, and its links go.
    pub fn remove_channel(&mut self, id: u32) -> (r: Result<(), StateError>)
        requires
            old(self).wf(),
        ensures
            final(self).wf(),
            id == ROOT_CHANNEL ==> r == Err::<(), StateError>(StateError::PermissionDenied),
            id != ROOT_CHANNEL && !old(self).has_channel(id) ==> r == Err::<(), StateError>(StateError::UnknownChannel),
            r is Err ==> *final(self) == *old(self),
            id != ROOT_CHANNEL && old(self).has_channel(id) ==> r is Ok,
            r is Ok ==> {
                &&& !final(self).has_channel(id)
                &&& forall|x: u32| x != id ==> (#[trigger] final(self).has_channel(x) == old(self).has_channel(x))
                &&& final(self).clients@.len() == old(self).clients@.len()
                &&& forall|j: int| 0 <= j < old(self).clients@.len()
                    ==> #[trigger] final(self).clients@[j] == relocated(old(self).clients@[j], id)
                &&& forall|a: u32, b: u32| #[trigger] final(self).linked(a, b) == (old(self).linked(a, b) && a != id && b != id)
                &&& exists|i: int| 0 <= i < old(self).channels@.len() && old(self).channels@[i].id == id
                    && final(self).channels@ == old(self).channels@.map_values(|ch: Channel| reparented(ch, id)).remove(i)
            },
            final(self).next_session_id == old(self).next_session_id,
            final(self).next_channel_id == old(self).next_channel_id,
    {
        if id == ROOT_CHANNEL {
            return Err(StateError::PermissionDenied);
        }
        let i = match self.find_channel(id) {
            Some(i) => i,
            None => return Err(StateError::UnknownChannel),
        };
        let ghost pre = *self;
        let mut k: usize = 0;
        while k < self.clients.len()
            invariant
                k <= self.clients@.len(),
                self.clients@.len() == pre.clients@.len(),
                forall|j: int| 0 <= j < k ==> #[trigger] self.clients@[j] == relocated(pre.clients@[j], id),
                forall|j: int| k <= j < self.clients@.len() ==> #[trigger] self.clients@[j] == pre.clients@[j],
                self.channels == pre.channels,
                self.links == pre.links,
                self.next_session_id == pre.next_session_id,
                self.next_channel_id == pre.next_channel_id,
            decreases self.clients@.len() - k,
        {
            if self.clients[k].channel_id == id {
                let mut c = self.clients.remove(k);
                c.channel_id = ROOT_CHANNEL;
                self.clients.insert(k, c);
            }
            k = k + 1;
        }
        let ghost mid = self.channels@;
        let mut k: usize = 0;
        while k < self.channels.len()
            invariant
                k <= self.channels@.len(),
                self.channels@.len() == pre.channels@.len(),
                forall|j: int| 0 <= j < k ==> #[trigger] self.channels@[j] == reparented(pre.channels@[j], id),
                forall|j: int| k <= j < self.channels@.len() ==> #[trigger] self.channels@[j] == pre.channels@[j],
                self.clients@.len() == pre.clients@.len(),
                forall|j: int| 0 <= j < pre.clients@.len() ==> #[trigger] self.clients@[j] == relocated(pre.clients@[j], id),
                self.links == pre.links,
                self.next_session_id == pre.next_session_id,
                self.next_channel_id == pre.next_channel_id,
            decreases self.channels@.len() - k,
        {
            if self.channels[k].parent_id == id {
                let mut ch = self.channels.remove(k);
                ch.parent_id = ROOT_CHANNEL;
                self.channels.insert(k, ch);
            }
            k = k + 1;
        }
        let ghost rep = self.channels@;
        assert(rep == pre.channels@.map_values(|ch: Channel| reparented(ch, id)));
        self.channels.remove(i);
        let mut kept: Vec<(u32, u32)> = Vec::new();
        let mut k: usize = 0;
        while k < self.links.len()
            invariant
                k <= self.links@.len(),
                self.links == pre.links,
                forall|a: u32, b: u32| #[trigger] kept@.contains((a, b))
                    == ((exists|j: int| 0 <= j < k && self.links@[j] == (a, b)) && a != id && b != id),
            decreases self.links@.len() - k,
        {
            let (a, b) = self.links[k];
            let ghost before = kept@;
            if a != id && b != id {
                kept.push((a, b));
            }
            proof {
                assert forall|x: u32, y: u32| #[trigger] kept@.contains((x, y))
                    == ((exists|j: int| 0 <= j < k + 1 && self.links@[j] == (x, y)) && x != id && y != id) by {
                    let pushed = a != id && b != id;
                    if kept@.contains((x, y)) {
                        let w = choose|w: int| 0 <= w < kept@.len() && kept@[w] == (x, y);
                        if w < before.len() {
                            assert(before[w] == (x, y));
                            assert(before.contains((x, y)));
                            let j = choose|j: int| 0 <= j < k && self.links@[j] == (x, y);
                            assert(0 <= j < k + 1 && self.links@[j] == (x, y));
                        } else {
                            assert(self.links@[k as int] == (x, y));
                        }
                    }
                    if (exists|j: int| 0 <= j < k + 1 && self.links@[j] == (x, y)) && x != id && y != id {
                        let j = choose|j: int| 0 <= j < k + 1 && self.links@[j] == (x, y);
                        if j < k {
                            assert(before.contains((x, y)));
                            let w = choose|w: int| 0 <= w < before.len() && before[w] == (x, y);
                            assert(kept@[w] == (x, y));
                        } else {
                            assert(kept@[before.len() as int] == (x, y));
                        }
                    }
                }
            }
            k = k + 1;
        }
        self.links = kept;
        proof {
            lemma_removed_channel(pre, *self, i as int, id);
        }
        Ok(())
    }


    /// Removes channel `ch` where it is a temporary channel that nobody is
    /// in; says whether it did.
    pub fn release_channel(&mut self, ch: u32) -> (r: bool)
        requires
            old(self).wf(),
        ensures
            final(self).wf(),
            r == (ch != ROOT_CHANNEL && old(self).is_temporary(ch) && !old(self).occupied(ch)),
            !r ==> *final(self) == *old(self),
            r ==> {
                &&& !final(self).has_channel(ch)
                &&& forall|x: u32| x != ch ==> (#[trigger] final(self).has_channel(x) == old(self).has_channel(x))
                &&& final(self).clients@ == old(self).clients@
                &&& forall|a: u32, b: u32| #[trigger] final(self).linked(a, b) == (old(self).linked(a, b) && a != ch && b != ch)
                &&& exists|i: int| 0 <= i < old(self).channels@.len() && old(self).channels@[i].id == ch
                    && final(self).channels@ == old(self).channels@.map_values(|c: Channel| reparented(c, ch)).remove(i)
            },
            final(self).next_session_id == old(self).next_session_id,
    {
        if ch == ROOT_CHANNEL {
            return false;
        }
        let i = match self.find_channel(ch) {
            Some(i) => i,
            None => return false,
        };
        if !self.channels[i].temporary {
            proof {
                if self.is_temporary(ch) {
                    let j = choose|j: int| 0 <= j < self.channels@.len() && (#[trigger] self.channels@[j]).id == ch
                        && self.channels@[j].temporary;
                    assert(self.channels@[i as int].id == self.channels@[j].id);
                }
            }
            return false;
        }
        let mut k: usize = 0;
        while k < self.clients.len()
            invariant
                self.wf(),
                k <= self.clients@.len(),
                forall|j: int| 0 <= j < k ==> (#[trigger] self.clients@[j]).channel_id != ch,
            decreases self.clients@.len() - k,
        {
            if self.clients[k].channel_id == ch {
                assert(self.occupied(ch));
                return false;
            }
            k = k + 1;
        }
        assert(self.is_temporary(ch)) by {
            assert(self.channels@[i as int].id == ch && self.channels@[i as int].temporary);
        }
        let ghost pre = *self;
        let _ = self.remove_channel(ch);
        proof {
            assert forall|j: int| 0 <= j < pre.clients@.len() implies relocated(pre.clients@[j], ch) == pre.clients@[j] by {
                assert(pre.clients@[j].channel_id != ch);
            }
            assert(self.clients@ =~= pre.clients@);
        }
        true
    }

    /// Ends the session of client `session`: unregisters it and removes the
    /// channel it was in where that was a temporary channel now empty. Hands
    /// back the record and whether a channel went.
    pub fn disconnect_client(&mut self, session: u32) -> (r: Result<(Client, bool), StateError>)
        requires
            old(self).wf(),
        ensures
            final(self).wf(),
            !old(self).has_client(session) ==> r == Err::<(Client, bool), StateError>(StateError::UnknownClient)
                && *final(self) == *old(self),
            old(self).has_client(session) ==> r is Ok,
            !final(self).has_client(session),
            r matches Ok((c, released)) ==> {
                &&& c.session_id == session
                &&& released == (c.channel_id != ROOT_CHANNEL && old(self).is_temporary(c.channel_id)
                    && !(exists|j: int| 0 <= j < final(self).clients@.len() && (#[trigger] final(self).clients@[j]).channel_id == c.channel_id))
                &&& released ==> !final(self).has_channel(c.channel_id)
                &&& released ==> exists|i: int| 0 <= i < old(self).channels@.len() && old(self).channels@[i].id == c.channel_id
                    && final(self).channels@ == old(self).channels@.map_values(|x: Channel| reparented(x, c.channel_id)).remove(i)
                &&& released ==> forall|a: u32, b: u32| #[trigger] final(self).linked(a, b)
                    == (old(self).linked(a, b) && a != c.channel_id && b != c.channel_id)
                &&& !released ==> final(self).channels == old(self).channels && final(self).links == old(self).links
                &&& exists|i: int| 0 <= i < old(self).clients@.len() && old(self).clients@[i] == c
                    && final(self).clients@ == old(self).clients@.remove(i)
            },
    {
        let c = match self.remove_client(session) {
            Ok(c) => c,
            Err(e) => return Err(e),
        };
        let ghost mid = *self;
        let released = self.release_channel(c.channel_id);
        proof {
            lemma_same_channels(mid, *old(self));
            if mid.is_temporary(c.channel_id) {
                let j = choose|j: int| 0 <= j < mid.channels@.len() && (#[trigger] mid.channels@[j]).id == c.channel_id
                    && mid.channels@[j].temporary;
                assert(old(self).channels@[j].id == c.channel_id);
            }
            if old(self).is_temporary(c.channel_id) {
                let j = choose|j: int| 0 <= j < old(self).channels@.len() && (#[trigger] old(self).channels@[j]).id == c.channel_id
                    && old(self).channels@[j].temporary;
                assert(mid.channels@[j].id == c.channel_id);
            }
            if !released {
                assert(*self == mid);
            } else {
                assert(self.clients@ == mid.clients@);
                assert(!self.has_client(session)) by {
                    if self.has_client(session) {
                        let k = choose|k: int| 0 <= k < self.clients@.len() && (#[trigger] self.clients@[k]).session_id == session;
                        assert(mid.clients@[k].session_id == session);
                    }
                }
            }
        }
        Ok((c, released))
    }


    /// The channels linked to channel `id`, once each or more.
    pub fn channel_links(&self, id: u32) -> (r: Vec<u32>)
        ensures
            forall|b: u32| #[trigger] r@.contains(b) == self.linked(id, b),
    {
        let mut out: Vec<u32> = Vec::new();
        let mut k: usize = 0;
        while k < self.links.len()
            invariant
                k <= self.links@.len(),
                forall|b: u32| #[trigger] out@.contains(b) == (exists|j: int| 0 <= j < k && self.links@[j] == (id, b)),
            decreases self.links@.len() - k,
        {
            let (a, b) = self.links[k];
            let ghost before = out@;
            if a == id {
                out.push(b);
            }
            proof {
                assert forall|x: u32| #[trigger] out@.contains(x) == (exists|j: int| 0 <= j < k + 1 && self.links@[j] == (id, x)) by {
                    if out@.contains(x) {
                        let w = choose|w: int| 0 <= w < out@.len() && out@[w] == x;
                        if w < before.len() {
                            assert(before[w] == x);
                            assert(before.contains(x));
                            let j = choose|j: int| 0 <= j < k && self.links@[j] == (id, x);
                            assert(0 <= j < k + 1 && self.links@[j] == (id, x));
                        } else {
                            assert(self.links@[k as int] == (id, x));
                        }
                    }
                    if exists|j: int| 0 <= j < k + 1 && self.links@[j] == (id, x) {
                        let j = choose|j: int| 0 <= j < k + 1 && self.links@[j] == (id, x);
                        if j < k {
                            assert(before.contains(x));
                            let w = choose|w: int| 0 <= w < before.len() && before[w] == x;
                            assert(out@[w] == x);
                        } else {
                            assert(out@[before.len() as int] == x);
                        }
                    }
                }
            }
            k = k + 1;
        }
        out
    }


    /// Settles a datagram from `addr` that was opened with the cipher state
    /// of client `session` under nonce `c.nonce`: where the tag matched, the
    /// client's window and counters take it in and `addr` becomes its UDP
    /// peer; where it did not, nothing changes.
    pub fn udp_accept(&mut self, session: u32, addr: PeerAddr, c: NonceCandidate, tag_ok: bool) -> (r: Result<bool, StateError>)
        requires
            old(self).wf(),
        ensures
            final(self).wf(),
            !old(self).has_client(session) ==> r == Err::<bool, StateError>(StateError::UnknownClient),
            old(self).has_client(session) ==> r == Ok::<bool, StateError>(tag_ok),
            !(r == Ok::<bool, StateError>(true)) ==> *final(self) == *old(self),
            r == Ok::<bool, StateError>(true) ==> forall|i: int| 0 <= i < old(self).clients@.len()
                && (#[trigger] old(self).clients@[i]).session_id == session ==> {
                    let post = final(self).clients@[i];
                    &&& final(self).clients@ == old(self).clients@.update(i, Client {
                        crypt_state: post.crypt_state,
                        udp_socket_addr: Some(addr),
                        ..old(self).clients@[i]
                    })
                    &&& decrypt_settled(old(self).clients@[i].crypt_state, post.crypt_state, c)
                },
            final(self).channels == old(self).channels,
            final(self).links == old(self).links,
    {
        let i = match self.find_client(session) {
            Some(i) => i,
            None => return Err(StateError::UnknownClient),
        };
        if !tag_ok {
            return Ok(false);
        }
        let ghost pre = *self;
        let mut cl = self.clients.remove(i);
        cl.crypt_state.finish_decrypt(c, true);
        cl.set_udp_socket_addr(addr);
        self.clients.insert(i, cl);
        proof {
            assert(self.clients@ == pre.clients@.update(i as int, cl));
            lemma_client_replaced(pre, *self, i as int);
            lemma_unique_index(pre, i as int);
        }
        Ok(true)
    }


    /// Takes the nonce that client `session` sent when it asked to
    /// resynchronise its voice cipher.
    pub fn resync_client(&mut self, session: u32, nonce: u128) -> (r: Result<(), StateError>)
        requires
            old(self).wf(),
        ensures
            final(self).wf(),
            !old(self).has_client(session) ==> r == Err::<(), StateError>(StateError::UnknownClient) && *final(self) == *old(self),
            old(self).has_client(session) ==> r is Ok,
            forall|i: int| 0 <= i < old(self).clients@.len() && (#[trigger] old(self).clients@[i]).session_id == session ==> {
                let post = final(self).clients@[i].crypt_state;
                let pre = old(self).clients@[i].crypt_state;
                &&& final(self).clients@ == old(self).clients@.update(i, Client { crypt_state: post, ..old(self).clients@[i] })
                &&& post == (CryptState { decrypt_iv: nonce, resync: inc32(pre.resync), ..pre })
            },
            final(self).channels == old(self).channels,
            final(self).links == old(self).links,
    {
        let i = match self.find_client(session) {
            Some(i) => i,
            None => return Err(StateError::UnknownClient),
        };
        let ghost pre = *self;
        let mut c = self.clients.remove(i);
        c.crypt_state.set_decrypt_nonce(nonce);
        self.clients.insert(i, c);
        proof {
            assert(self.clients@ == pre.clients@.update(i as int, c));
            lemma_client_replaced(pre, *self, i as int);
            lemma_unique_index(pre, i as int);
        }
        Ok(())
    }


    /// Gives client `session` a new key and nonces, with an empty window and
    /// zero counters; refused where a live client already uses that key.
    pub fn reset_client_crypt(&mut self, session: u32, key: Vec<u8>, encrypt_iv: u128, decrypt_iv: u128) -> (r: Result<(), StateError>)
        requires
            old(self).wf(),
            key@.len() == 16,
        ensures
            final(self).wf(),
            !old(self).has_client(session) ==> r == Err::<(), StateError>(StateError::UnknownClient),
            old(self).has_client(session) && old(self).key_in_use(key@) ==> r == Err::<(), StateError>(StateError::KeyCollision),
            r is Err ==> *final(self) == *old(self),
            old(self).has_client(session) && !old(self).key_in_use(key@) ==> r is Ok,
            r is Ok ==> forall|i: int| 0 <= i < old(self).clients@.len() && (#[trigger] old(self).clients@[i]).session_id == session ==> {
                let post = final(self).clients@[i].crypt_state;
                &&& final(self).clients@ == old(self).clients@.update(i, Client { crypt_state: post, ..old(self).clients@[i] })
                &&& post.key@ == key@ && post.encrypt_iv == encrypt_iv && post.decrypt_iv == decrypt_iv
                &&& post.decrypt_history@ == Seq::new(256, |j: int| 0u8)
                &&& post.good == 0 && post.late == 0 && post.lost == 0 && post.resync == 0
            },
            final(self).channels == old(self).channels,
            final(self).links == old(self).links,
    {
        let i = match self.find_client(session) {
            Some(i) => i,
            None => return Err(StateError::UnknownClient),
        };
        let mut k: usize = 0;
        while k < self.clients.len()
            invariant
                self.wf(),
                i < self.clients@.len(),
                self.clients@[i as int].session_id == session,
                k <= self.clients@.len(),
                forall|j: int| 0 <= j < k ==> (#[trigger] self.clients@[j]).crypt_state.key@ != key@,
            decreases self.clients@.len() - k,
        {
            if same_bytes(&self.clients[k].crypt_state.key, &key) {
                assert(self.key_in_use(key@)) by {
                    assert(self.clients@[k as int].crypt_state.key@ == key@);
                }
                return Err(StateError::KeyCollision);
            }
            k = k + 1;
        }
        let ghost pre = *self;
        let mut c = self.clients.remove(i);
        c.crypt_state.reset(key, encrypt_iv, decrypt_iv);
        self.clients.insert(i, c);
        proof {
            assert(self.clients@ == pre.clients@.update(i as int, c));
            lemma_client_replaced(pre, *self, i as int);
            lemma_unique_index(pre, i as int);
        }
        Ok(())
    }

}

} // verus!
