use zumble::voice::{decode_voice_packet, encode_voice_packet, with_session, VoicePacket};

fn audio(session_id: Option<u32>, position: Option<Vec<u8>>) -> VoicePacket {
    VoicePacket::Audio {
        target: 0,
        session_id,
        seq_num: 100,
        opus: vec![1, 2, 3, 4, 5],
        terminator: true,
        position_info: position,
    }
}

fn same(a: &VoicePacket, b: &VoicePacket) -> bool {
    match (a, b) {
        (VoicePacket::Ping { timestamp: x }, VoicePacket::Ping { timestamp: y }) => x == y,
        (
            VoicePacket::Audio { target: ta, session_id: sa, seq_num: qa, opus: oa, terminator: ea, position_info: pa },
            VoicePacket::Audio { target: tb, session_id: sb, seq_num: qb, opus: ob, terminator: eb, position_info: pb },
        ) => ta == tb && sa == sb && qa == qb && oa == ob && ea == eb && pa == pb,
        _ => false,
    }
}

#[test]
fn voice_round_trip_serverbound() {
    let p = audio(None, None);
    let mut out = Vec::new();
    encode_voice_packet(&p, &mut out);
    assert_eq!(out, vec![0x80, 100, 0xA0, 0x05, 1, 2, 3, 4, 5]);
    let back = decode_voice_packet(&out, false).unwrap();
    assert!(same(&p, &back));
}

#[test]
fn voice_round_trip_clientbound_with_position() {
    let p = audio(Some(7), Some(vec![0; 12]));
    let mut out = Vec::new();
    encode_voice_packet(&p, &mut out);
    assert_eq!(out.len(), 1 + 1 + 1 + 2 + 5 + 12);
    let back = decode_voice_packet(&out, true).unwrap();
    assert!(same(&p, &back));
}

#[test]
fn voice_ping_round_trip() {
    let p = VoicePacket::Ping { timestamp: 123456 };
    let mut out = Vec::new();
    encode_voice_packet(&p, &mut out);
    assert_eq!(out[0], 0x20);
    assert!(same(&p, &decode_voice_packet(&out, false).unwrap()));
}

#[test]
fn voice_rejects_bad_trailer_and_other_codecs() {
    let mut out = Vec::new();
    encode_voice_packet(&audio(None, None), &mut out);
    out.push(0);
    assert!(decode_voice_packet(&out, false).is_none());
    assert!(decode_voice_packet(&[0x00, 1, 2], false).is_none());
    assert!(decode_voice_packet(&[], false).is_none());
}

#[test]
fn voice_session_rewrite_keeps_sequence() {
    let p = with_session(audio(None, None), 42);
    match p {
        VoicePacket::Audio { session_id, seq_num, .. } => {
            assert_eq!(session_id, Some(42));
            assert_eq!(seq_num, 100);
        }
        _ => panic!("audio expected"),
    }
}

fn celt(kind: u8, session_id: Option<u32>, position: Option<Vec<u8>>) -> VoicePacket {
    VoicePacket::Frames {
        kind,
        target: 3,
        session_id,
        seq_num: 7,
        frames: vec![vec![1, 2, 3], vec![], vec![9; 127]],
        position_info: position,
    }
}

fn same_frames(a: &VoicePacket, b: &VoicePacket) -> bool {
    match (a, b) {
        (
            VoicePacket::Frames { kind: ka, target: ta, session_id: sa, seq_num: qa, frames: fa, position_info: pa },
            VoicePacket::Frames { kind: kb, target: tb, session_id: sb, seq_num: qb, frames: fb, position_info: pb },
        ) => ka == kb && ta == tb && sa == sb && qa == qb && fa == fb && pa == pb,
        _ => false,
    }
}

#[test]
fn celt_frames_exact_bytes() {
    let p = VoicePacket::Frames {
        kind: 0,
        target: 0,
        session_id: None,
        seq_num: 5,
        frames: vec![vec![0xAA], vec![0xBB, 0xCC]],
        position_info: None,
    };
    let mut out = Vec::new();
    encode_voice_packet(&p, &mut out);
    assert_eq!(out, vec![0x00, 5, 0x81, 0xAA, 0x02, 0xBB, 0xCC]);
    assert!(same_frames(&p, &decode_voice_packet(&out, false).unwrap()));
}

#[test]
fn celt_and_speex_round_trip() {
    for kind in [0u8, 2, 3] {
        for (sid, pos) in [(None, None), (Some(9), Some(vec![4; 12]))] {
            let p = celt(kind, sid, pos.clone());
            let mut out = Vec::new();
            encode_voice_packet(&p, &mut out);
            let back = decode_voice_packet(&out, sid.is_some()).unwrap();
            assert!(same_frames(&p, &back));
        }
    }
}

#[test]
fn celt_truncated_or_unterminated_is_rejected() {
    assert!(decode_voice_packet(&[0x00, 5, 0x81, 0xAA], false).is_none());
    assert!(decode_voice_packet(&[0x00, 5, 0x05, 0xAA], false).is_none());
    assert!(decode_voice_packet(&[0x00, 5, 0x01, 0xAA, 0], false).is_none());
    assert!(decode_voice_packet(&[0xA0, 5, 0x01, 0xAA], false).is_none());
}

#[test]
fn celt_session_rewrite() {
    match with_session(celt(3, None, None), 11) {
        VoicePacket::Frames { session_id, kind, seq_num, .. } => {
            assert_eq!((session_id, kind, seq_num), (Some(11), 3, 7));
        }
        _ => panic!("frames expected"),
    }
}
