use guess_room::message::FromPlayerMessage;
use guess_room::player::{
    disconnect_notice, handshake_step, inbound_step, keeps_running, HandshakeStep, Inbound, InboundAction, Turn,
};

#[test]
fn handshake_admits_on_initialize() {
    let frame = Inbound::Text { decoded: Some(FromPlayerMessage::Initialize { name: "Ann".to_string() }) };
    assert_eq!(handshake_step(frame), HandshakeStep::Admit { name: "Ann".to_string() });
}

#[test]
fn handshake_discards_other_messages() {
    let frame = Inbound::Text { decoded: Some(FromPlayerMessage::Answer { yes: true }) };
    assert_eq!(handshake_step(frame), HandshakeStep::KeepReading);
    assert_eq!(handshake_step(Inbound::Other), HandshakeStep::KeepReading);
}

#[test]
fn handshake_abandons_on_failure() {
    assert_eq!(handshake_step(Inbound::Text { decoded: None }), HandshakeStep::Abandon);
    assert_eq!(handshake_step(Inbound::Closed), HandshakeStep::Abandon);
}

#[test]
fn inbound_frames_after_handshake() {
    let frame = Inbound::Text { decoded: Some(FromPlayerMessage::Guess { number: "4".to_string() }) };
    assert_eq!(
        inbound_step(frame),
        InboundAction::Forward { message: FromPlayerMessage::Guess { number: "4".to_string() } }
    );
    assert_eq!(inbound_step(Inbound::Text { decoded: None }), InboundAction::Ignore);
    assert_eq!(inbound_step(Inbound::Other), InboundAction::Ignore);
    assert_eq!(inbound_step(Inbound::Closed), InboundAction::Stop);
}

#[test]
fn stop_notifies_the_room() {
    assert_eq!(disconnect_notice("Ann".to_string()), ("Ann".to_string(), FromPlayerMessage::Disconnect));
}

#[test]
fn run_loop_stops_on_failures_only() {
    let forward = |forwarded| Turn::Inbound {
        action: InboundAction::Forward { message: FromPlayerMessage::Answer { yes: false } },
        forwarded,
    };
    assert!(keeps_running(&forward(true)));
    assert!(!keeps_running(&forward(false)));
    assert!(keeps_running(&Turn::Inbound { action: InboundAction::Ignore, forwarded: false }));
    assert!(!keeps_running(&Turn::Inbound { action: InboundAction::Stop, forwarded: false }));
    assert!(keeps_running(&Turn::Outbound { written: Some(true) }));
    assert!(!keeps_running(&Turn::Outbound { written: Some(false) }));
    assert!(!keeps_running(&Turn::Outbound { written: None }));
}
