use zumble::crypt::{CryptState, NonceCandidate};

fn pair() -> (CryptState, CryptState) {
    let key = vec![7u8; 16];
    let server = CryptState::new(key.clone(), 1000, 5000);
    let client = CryptState::new(key, 5000, 1000);
    (server, client)
}

#[test]
fn in_order_nonce_matches_sender() {
    let (mut server, mut client) = pair();
    for _ in 0..300 {
        let b = client.next_encrypt_nonce();
        let c = server.decrypt_nonce(b).unwrap();
        assert_eq!(c.nonce, client.encrypt_iv);
        assert!(!c.late && c.lost == 0);
        assert!(server.finish_decrypt(c, true));
        assert_eq!(server.decrypt_iv, client.encrypt_iv);
    }
    assert_eq!(server.good, 300);
}

#[test]
fn encrypt_nonce_wraps_with_carry() {
    let mut s = CryptState::new(vec![0; 16], 0x1FF, 0);
    assert_eq!(s.next_encrypt_nonce(), 0);
    assert_eq!(s.encrypt_iv, 0x200);
    let mut t = CryptState::new(vec![0; 16], u128::MAX, 0);
    assert_eq!(t.next_encrypt_nonce(), 0);
    assert_eq!(t.encrypt_iv, 0);
}

#[test]
fn replayed_late_packet_is_rejected() {
    let mut s = CryptState::new(vec![0; 16], 0, 0x0210);
    let c = s.decrypt_nonce(0x0C).unwrap();
    assert_eq!(c, NonceCandidate { nonce: 0x020C, late: true, lost: 0, restore: true });
    assert!(s.finish_decrypt(c, true));
    assert_eq!(s.late, 1);
    assert_eq!(s.decrypt_iv, 0x0210);
    assert_eq!(s.decrypt_nonce(0x0C), None);
    assert_eq!(s.late, 1);
}

#[test]
fn far_ahead_packet_resyncs_and_failed_tag_changes_nothing() {
    let mut s = CryptState::new(vec![0; 16], 0, 0x02F0);
    let c = s.decrypt_nonce(0x10).unwrap();
    assert_eq!(c.nonce, 0x0310);
    assert_eq!(c.lost, 31);
    let before = (s.decrypt_iv, s.decrypt_history.clone(), s.good, s.late, s.lost);
    assert!(!s.finish_decrypt(c, false));
    assert_eq!(before, (s.decrypt_iv, s.decrypt_history.clone(), s.good, s.late, s.lost));
    assert!(s.finish_decrypt(c, true));
    assert_eq!(s.decrypt_iv, 0x0310);
    assert_eq!(s.lost, 31);
}

#[test]
fn same_byte_or_far_behind_is_rejected() {
    let s = CryptState::new(vec![0; 16], 0, 0x0250);
    assert_eq!(s.decrypt_nonce(0x50), None);
    assert_eq!(s.decrypt_nonce(0x10), None);
}

#[test]
fn late_packet_across_byte_boundary() {
    let s = CryptState::new(vec![0; 16], 0, 0x0305);
    let c = s.decrypt_nonce(0xF0).unwrap();
    assert_eq!(c.nonce, 0x02F0);
    assert!(c.late && c.restore);
}

#[test]
fn crypt_setup_carries_key_and_nonces() {
    let s = CryptState::new((0..16).collect(), 11, 22);
    let (key, enc, dec) = s.get_crypt_setup();
    assert_eq!(key, (0..16).collect::<Vec<u8>>());
    assert_eq!((enc, dec), (11, 22));
}

#[test]
fn reset_clears_window_and_counters() {
    let mut s = CryptState::new(vec![0; 16], 0, 0x0210);
    let c = s.decrypt_nonce(0x0C).unwrap();
    s.finish_decrypt(c, true);
    s.reset(vec![1; 16], 5, 6);
    assert_eq!((s.encrypt_iv, s.decrypt_iv, s.good, s.late, s.lost), (5, 6, 0, 0, 0));
    assert!(s.decrypt_history.iter().all(|b| *b == 0));
    assert_eq!(s.key, vec![1; 16]);
}
