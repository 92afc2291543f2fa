use zumble::proto::{frame_message, parse_frame_header, MessageKind};
use zumble::session::{control_action, ping_expired, version_accepted, ControlAction, SessionError};

#[test]
fn frame_header_layout() {
    let f = frame_message(MessageKind::UserState, &[1, 2, 3]);
    assert_eq!(f, vec![0, 9, 0, 0, 0, 3, 1, 2, 3]);
    assert_eq!(parse_frame_header(&f), Some((9, 3)));
    assert_eq!(parse_frame_header(&f[..5]), None);
    let big = frame_message(MessageKind::ServerConfig, &vec![0u8; 300]);
    assert_eq!(&big[..6], &[0, 24, 0, 0, 1, 44]);
}

#[test]
fn message_kind_ids() {
    assert_eq!(MessageKind::UDPTunnel.id(), 1);
    assert_eq!(MessageKind::CryptSetup.id(), 15);
    assert_eq!(MessageKind::from_id(22), Some(MessageKind::VoiceTarget));
    assert_eq!(MessageKind::from_id(6), None);
}

#[test]
fn session_decisions() {
    assert!(version_accepted(0x010204));
    assert!(version_accepted(0x010200));
    assert!(!version_accepted(0x010105));
    assert!(!ping_expired(1000, 31_000));
    assert!(ping_expired(1000, 31_001));
    assert!(!ping_expired(5000, 1000));
    assert_eq!(control_action(MessageKind::Authenticate), ControlAction::Close(SessionError::UnexpectedMessage));
    assert_eq!(control_action(MessageKind::Ping), ControlAction::ReplyPing);
    assert_eq!(control_action(MessageKind::UDPTunnel), ControlAction::FanOutTunnel);
    assert_eq!(control_action(MessageKind::TextMessage), ControlAction::Ignore);
}
