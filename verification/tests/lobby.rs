use blackjack_backend::lobby::{
    admit_connection, format_game_id, propose_game_id, Admission, ConnectParams,
};
use blackjack_backend::messages::{BroadcastMessage, ClientMessage, Delivery, ServerMessage};

#[test]
fn game_ids_have_six_digits() {
    assert_eq!(format_game_id(42), "000042");
    assert_eq!(format_game_id(0), "000000");
    assert_eq!(format_game_id(849201), "849201");
    assert_eq!(format_game_id(999999), "999999");
}

#[test]
fn proposed_ids_are_six_digits_below_999999() {
    for _ in 0..50 {
        let id = propose_game_id();
        assert_eq!(id.len(), 6);
        assert!(id.chars().all(|c| c.is_ascii_digit()));
        assert!(id.parse::<u32>().unwrap() < 999999);
    }
}

#[test]
fn unknown_room_is_not_found() {
    assert_eq!(admit_connection(false, false, 0, 5), Admission::NotFound);
    assert_eq!(admit_connection(false, true, 0, 5), Admission::NotFound);
}

#[test]
fn full_room_only_takes_returning_players() {
    assert_eq!(admit_connection(true, false, 5, 5), Admission::Full);
    assert_eq!(admit_connection(true, false, 6, 5), Admission::Full);
    assert_eq!(admit_connection(true, true, 5, 5), Admission::Accept);
    assert_eq!(admit_connection(true, false, 4, 5), Admission::Accept);
}

#[test]
fn reconnect_needs_both_credentials() {
    let both = ConnectParams { player_id: Some(7), secret: Some("s".to_string()) };
    match both.reconnect_message() {
        Some(ClientMessage::Reconnect { player_id, secret }) => {
            assert_eq!(player_id, 7);
            assert_eq!(secret, "s");
        }
        other => panic!("unexpected {:?}", other),
    }
    let only_id = ConnectParams { player_id: Some(7), secret: None };
    assert!(only_id.reconnect_message().is_none());
    let only_secret = ConnectParams { player_id: None, secret: Some("s".to_string()) };
    assert!(only_secret.reconnect_message().is_none());
}

#[test]
fn connections_skip_messages_for_others_and_close_after_kick() {
    let to_other = BroadcastMessage { target: Some(2), message: ServerMessage::Pong };
    assert_eq!(to_other.delivery_for(1), Delivery::Skip);
    let to_me = BroadcastMessage { target: Some(1), message: ServerMessage::Pong };
    assert_eq!(to_me.delivery_for(1), Delivery::Forward);
    let to_all = BroadcastMessage { target: None, message: ServerMessage::Pong };
    assert_eq!(to_all.delivery_for(1), Delivery::Forward);
    let kicked = BroadcastMessage { target: Some(1), message: ServerMessage::Kicked };
    assert_eq!(kicked.delivery_for(1), Delivery::ForwardAndClose);
    assert_eq!(kicked.delivery_for(3), Delivery::Skip);
}
