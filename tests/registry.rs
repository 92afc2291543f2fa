use zumble::client::{target_capacity, Authenticate, Client, PeerAddr, UserState, VoiceDelivery};
use zumble::state::{JoinMessage, ServerState, StateError};
use zumble::crypt::CryptState;
use zumble::target::VoiceTarget;

fn auth(name: &str, tokens: &[&str]) -> Authenticate {
    Authenticate {
        username: name.to_string(),
        tokens: tokens.iter().map(|t| t.to_string()).collect(),
        opus: Some(true),
        celt_versions: vec![],
    }
}

fn crypt(name: &str) -> CryptState {
    CryptState::new(vec![name.as_bytes()[0]; 16], 100, 200)
}

fn join(st: &mut ServerState, name: &str, channel: u32) -> u32 {
    let c = Client::new(0x10204, auth(name, &[]), 0, channel, crypt(name), 32, 0);
    st.add_client(c).unwrap()
}

fn addr(port: u16) -> PeerAddr {
    PeerAddr { ip: 0x7F00_0001, port }
}

/// A, B, C in the root channel, D in channel 1; B has a UDP peer.
fn four_clients() -> (ServerState, [u32; 4]) {
    let mut st = ServerState::new("Root".to_string());
    assert_eq!(st.add_channel("One".to_string(), 0, false, 0), Ok(1));
    let a = join(&mut st, "A", 0);
    let b = join(&mut st, "B", 0);
    let c = join(&mut st, "C", 0);
    let d = join(&mut st, "D", 1);
    st.bind_udp_peer(b, addr(1000)).unwrap();
    (st, [a, b, c, d])
}

fn recipients(st: &ServerState, from: u32, target: u8) -> Vec<u32> {
    st.route_voice(from, target).unwrap().into_iter().map(|(s, _)| s).collect()
}

#[test]
fn join_sends_state_in_order() {
    let mut st = ServerState::new("Root".to_string());
    let b = join(&mut st, "B", 0);
    let a = join(&mut st, "A", 0);
    let msgs = st.join_messages(a, "welcome".to_string()).unwrap();
    assert_eq!(msgs.len(), 5);
    assert!(matches!(&msgs[0], JoinMessage::ChannelState(c) if c.channel_id == 0 && c.name == "Root"));
    assert!(matches!(&msgs[1], JoinMessage::UserState(u) if u.session == Some(b) && u.name.as_deref() == Some("B")));
    assert!(matches!(&msgs[2], JoinMessage::UserState(u) if u.session == Some(a) && u.channel_id == Some(0)));
    assert!(matches!(&msgs[3], JoinMessage::ServerSync(s) if s.session == a && s.max_bandwidth == 72000));
    assert!(matches!(&msgs[4], JoinMessage::ServerConfig(c) if c.max_users == 2048 && c.allow_html
        && c.message_length == 512 && c.image_message_length == 0));
}

#[test]
fn normal_fan_out_reaches_own_channel() {
    let (st, [a, b, c, _d]) = four_clients();
    assert_eq!(recipients(&st, a, 0), vec![b, c]);
}

#[test]
fn linked_channel_receives_normal_frames() {
    let (mut st, [a, b, c, d]) = four_clients();
    st.link_channels(1, 0).unwrap();
    assert_eq!(recipients(&st, a, 0), vec![b, c, d]);
}

#[test]
fn whisper_to_user_list() {
    let (mut st, [a, _b, _c, d]) = four_clients();
    assert_eq!(st.set_client_target(a, 5, VoiceTarget::users(vec![d])), Ok(true));
    assert_eq!(recipients(&st, a, 5), vec![d]);
}

#[test]
fn deaf_client_is_skipped() {
    let (mut st, [a, b, c, _d]) = four_clients();
    let deaf = UserState { session: None, user_id: None, channel_id: None, name: None, mute: None, deaf: Some(true) };
    assert_eq!(st.apply_user_state(c, &deaf), Ok(None));
    assert_eq!(recipients(&st, a, 0), vec![b]);
}

#[test]
fn muted_sender_reaches_nobody() {
    let (mut st, [a, _b, _c, _d]) = four_clients();
    let mute = UserState { session: None, user_id: None, channel_id: None, name: None, mute: Some(true), deaf: None };
    st.apply_user_state(a, &mute).unwrap();
    assert!(recipients(&st, a, 0).is_empty());
}

#[test]
fn udp_or_tunnel_per_recipient() {
    let (st, [a, b, c, _d]) = four_clients();
    let routes = st.route_voice(a, 0).unwrap();
    assert_eq!(routes, vec![(b, VoiceDelivery::Udp(addr(1000))), (c, VoiceDelivery::Tunnel)]);
}

#[test]
fn loopback_reaches_sender_only() {
    let (st, [a, _b, _c, _d]) = four_clients();
    assert_eq!(recipients(&st, a, 31), vec![a]);
}

#[test]
fn whisper_to_channel_with_children_and_group() {
    let mut st = ServerState::new("Root".to_string());
    let one = st.add_channel("One".to_string(), 0, false, 0).unwrap();
    let two = st.add_channel("Two".to_string(), one, true, 0).unwrap();
    let a = join(&mut st, "A", 0);
    let b = st.add_client(Client::new(1, auth("B", &["radio"]), 0, two, crypt("B"), 32, 0)).unwrap();
    let c = join(&mut st, "C", two);
    st.set_client_target(a, 1, VoiceTarget::channel(one, false, true, None)).unwrap();
    assert_eq!(recipients(&st, a, 1), vec![b, c]);
    st.set_client_target(a, 2, VoiceTarget::channel(one, false, false, None)).unwrap();
    assert!(recipients(&st, a, 2).is_empty());
    st.set_client_target(a, 3, VoiceTarget::channel(one, false, true, Some("radio".to_string()))).unwrap();
    assert_eq!(recipients(&st, a, 3), vec![b]);
    assert!(recipients(&st, a, 4).is_empty());
}

#[test]
fn session_ids_are_distinct_and_nonzero() {
    let (st, ids) = four_clients();
    assert_eq!(ids, [1, 2, 3, 4]);
    for (i, c) in st.clients.iter().enumerate() {
        assert!(c.session_id != 0);
        for d in &st.clients[i + 1..] {
            assert_ne!(c.session_id, d.session_id);
        }
    }
}

#[test]
fn removed_session_id_is_not_reused() {
    let (mut st, [a, ..]) = four_clients();
    let gone = st.remove_client(a).unwrap();
    assert_eq!(gone.session_id, a);
    assert_eq!(st.remove_client(a).err(), Some(StateError::UnknownClient));
    let e = join(&mut st, "E", 0);
    assert_eq!(e, 5);
}

#[test]
fn links_are_symmetric() {
    let (mut st, _) = four_clients();
    st.link_channels(0, 1).unwrap();
    assert!(st.is_linked(0, 1) && st.is_linked(1, 0));
    assert_eq!(st.link_channels(0, 9), Err(StateError::UnknownChannel));
}

#[test]
fn clients_stay_in_existing_channels() {
    let (mut st, [a, ..]) = four_clients();
    assert_eq!(st.move_client(a, 7), Err(StateError::UnknownChannel));
    assert_eq!(st.move_client(a, 1), Ok(Some(0)));
    assert_eq!(st.move_client(a, 1), Ok(None));
    assert_eq!(st.move_client(99, 0), Err(StateError::UnknownClient));
    for c in &st.clients {
        assert!(st.find_channel(c.channel_id).is_some());
    }
    let orphan = Client::new(1, auth("X", &[]), 0, 5, crypt("X"), 1, 0);
    assert_eq!(st.add_client(orphan).err(), Some(StateError::UnknownChannel));
}

#[test]
fn udp_peer_binding_and_candidates() {
    let (mut st, [a, b, c, d]) = four_clients();
    assert_eq!(st.udp_candidates(addr(1000)), vec![b]);
    assert_eq!(st.udp_candidates(addr(2000)), vec![a, c, d]);
    st.bind_udp_peer(c, addr(2000)).unwrap();
    assert_eq!(st.udp_candidates(addr(2000)), vec![c]);
    let ci = st.find_client(c).unwrap();
    assert_eq!(st.clients[ci].udp_socket_addr, Some(addr(2000)));
    assert_eq!(st.bind_udp_peer(77, addr(1)), Err(StateError::UnknownClient));
}

#[test]
fn capacity_setting_is_parsed() {
    assert_eq!(target_capacity(None), Some(2048));
    assert_eq!(target_capacity(Some("17")), Some(17));
    assert_eq!(target_capacity(Some("0")), Some(0));
    assert_eq!(target_capacity(Some("+5")), None);
    assert_eq!(target_capacity(Some("abc")), None);
    assert_eq!(target_capacity(Some("")), None);
    assert_eq!(target_capacity(Some("99999999999999999999999")), None);
}

#[test]
fn new_client_starts_clean() {
    let mut c = Client::new(5, auth("N", &["t1", "t2"]), 3, 0, crypt("N"), 4, 11);
    assert_eq!(c.tokens, vec!["t1".to_string(), "t2".to_string()]);
    assert!(c.use_opus && !c.mute && !c.deaf && c.udp_socket_addr.is_none());
    assert_eq!(c.targets.len(), 4);
    assert!(c.get_target(3).is_some() && c.get_target(4).is_none());
    assert_eq!(c.voice_delivery(), VoiceDelivery::Tunnel);
    c.mute(true);
    c.deaf(true);
    assert!(c.mute && c.deaf);
    assert_eq!(c.join_channel(2), Some(0));
    assert_eq!(c.join_channel(2), None);
    let u = c.get_user_state();
    assert_eq!(u.session, Some(3));
    assert_eq!(u.channel_id, Some(2));
}

#[test]
fn removing_a_channel_moves_children_and_occupants_to_root() {
    let mut st = ServerState::new("Root".to_string());
    let one = st.add_channel("One".to_string(), 0, false, 0).unwrap();
    let two = st.add_channel("Two".to_string(), one, false, 0).unwrap();
    st.link_channels(one, 0).unwrap();
    let a = join(&mut st, "A", one);
    assert_eq!(st.remove_channel(0), Err(StateError::PermissionDenied));
    assert_eq!(st.remove_channel(9), Err(StateError::UnknownChannel));
    assert_eq!(st.remove_channel(one), Ok(()));
    assert!(st.find_channel(one).is_none());
    let ti = st.find_channel(two).unwrap();
    assert_eq!(st.channels[ti].parent_id, 0);
    let ai = st.find_client(a).unwrap();
    assert_eq!(st.clients[ai].channel_id, 0);
    assert!(!st.is_linked(0, one));
}

#[test]
fn last_leaver_releases_temporary_channel() {
    let mut st = ServerState::new("Root".to_string());
    let tmp = st.add_channel("Tmp".to_string(), 0, true, 0).unwrap();
    let a = join(&mut st, "A", tmp);
    let b = join(&mut st, "B", tmp);
    let (gone, released) = st.disconnect_client(a).unwrap();
    assert_eq!(gone.session_id, a);
    assert!(!released);
    assert!(st.find_channel(tmp).is_some());
    let (_, released) = st.disconnect_client(b).unwrap();
    assert!(released);
    assert!(st.find_channel(tmp).is_none());
    assert!(st.disconnect_client(b).is_err());
}

#[test]
fn channel_links_list_both_ends() {
    let (mut st, _) = four_clients();
    let two = st.add_channel("Two".to_string(), 0, false, 1).unwrap();
    st.link_channels(1, 0).unwrap();
    st.link_channels(1, two).unwrap();
    let mut l = st.channel_links(1);
    l.sort();
    assert_eq!(l, vec![0, two]);
    assert_eq!(st.channel_links(0), vec![1]);
    assert_eq!(st.channel_links(two), vec![1]);
}

#[test]
fn accepted_datagram_binds_sender_address() {
    let (mut st, [a, _b, c, _d]) = four_clients();
    let ci = st.find_client(c).unwrap();
    let cand = st.clients[ci].crypt_state.decrypt_nonce(201).unwrap();
    assert_eq!(st.udp_accept(c, addr(3000), cand, false), Ok(false));
    assert_eq!(st.clients[ci].udp_socket_addr, None);
    assert_eq!(st.udp_accept(c, addr(3000), cand, true), Ok(true));
    assert_eq!(st.clients[ci].udp_socket_addr, Some(addr(3000)));
    assert_eq!(st.clients[ci].crypt_state.decrypt_iv, 201);
    assert_eq!(st.clients[ci].crypt_state.good, 1);
    assert_eq!(st.udp_candidates(addr(3000)), vec![c]);
    assert_eq!(st.udp_accept(99, addr(1), cand, true), Err(StateError::UnknownClient));
    let ai = st.find_client(a).unwrap();
    assert_eq!(st.clients[ai].udp_socket_addr, None);
}

#[test]
fn colliding_cipher_key_is_refused() {
    let (mut st, _) = four_clients();
    let twin = Client::new(1, auth("A2", &[]), 0, 0, crypt("A"), 1, 0);
    assert_eq!(st.add_client(twin).err(), Some(StateError::KeyCollision));
    assert_eq!(st.clients.len(), 4);
}

#[test]
fn client_resync_and_reset() {
    let (mut st, [a, b, ..]) = four_clients();
    let ai = st.find_client(a).unwrap();
    assert_eq!(st.resync_client(a, 777), Ok(()));
    assert_eq!(st.clients[ai].crypt_state.decrypt_iv, 777);
    assert_eq!(st.clients[ai].crypt_state.resync, 1);
    assert_eq!(st.reset_client_crypt(a, vec![b'B'; 16], 1, 2), Err(StateError::KeyCollision));
    assert_eq!(st.reset_client_crypt(a, vec![0x55; 16], 1, 2), Ok(()));
    let cs = &st.clients[ai].crypt_state;
    assert_eq!((cs.key.clone(), cs.encrypt_iv, cs.decrypt_iv, cs.resync), (vec![0x55; 16], 1, 2, 0));
    assert_eq!(st.resync_client(99, 1), Err(StateError::UnknownClient));
    let _ = b;
}
