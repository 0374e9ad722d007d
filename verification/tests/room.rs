use blackjack_backend::actor::GameActor;
use blackjack_backend::cards::{calculate_hand_value, Card, Rank, Suit};
use blackjack_backend::messages::{ActionType, BroadcastMessage, ClientMessage, ServerMessage};
use blackjack_backend::types::{GamePhase, GameSettings, HandStatus, Player, PlayerStatus};

fn settings(deck_count: usize) -> GameSettings {
    GameSettings {
        initial_chips: 1000,
        max_players: 5,
        deck_count,
        approval_required: false,
        chat_enabled: true,
    }
}

fn join(actor: &mut GameActor, conn: u128, name: &str) -> (u128, String, Vec<BroadcastMessage>) {
    let out = actor.handle_message(conn, ClientMessage::JoinGame { username: name.to_string() });
    for m in &out {
        if let ServerMessage::JoinedLobby { your_id, secret, .. } = &m.message {
            assert_eq!(m.target, Some(conn));
            return (*your_id, secret.clone(), out);
        }
    }
    panic!("no JoinedLobby in {:?}", out);
}

struct Snapshot {
    phase: GamePhase,
    dealer: usize,
    players: Vec<Player>,
    deck_remaining: usize,
    current: Option<u128>,
}

fn last_snapshot(out: &[BroadcastMessage]) -> Snapshot {
    for m in out.iter().rev() {
        if let ServerMessage::GameStateSnapshot {
            phase,
            dealer_hand,
            players,
            deck_remaining,
            current_turn_player_id,
            ..
        } = &m.message
        {
            assert_eq!(m.target, None);
            return Snapshot {
                phase: *phase,
                dealer: dealer_hand.len(),
                players: players.iter().map(|p| p.duplicate()).collect(),
                deck_remaining: *deck_remaining,
                current: *current_turn_player_id,
            };
        }
    }
    panic!("no snapshot in {:?}", out);
}

fn errors(out: &[BroadcastMessage]) -> Vec<(Option<u128>, String)> {
    out.iter()
        .filter_map(|m| match &m.message {
            ServerMessage::Error { msg } => Some((m.target, msg.clone())),
            _ => None,
        })
        .collect()
}

#[test]
fn new_room_has_a_full_shoe() {
    let mut actor = GameActor::new("123456".to_string(), settings(2));
    let (_, _, out) = join(&mut actor, 1, "Alice");
    let snap = last_snapshot(&out);
    assert_eq!(snap.deck_remaining, 104);
    assert_eq!(snap.phase, GamePhase::Lobby);
    // Nobody has the turn outside of play.
    assert_eq!(snap.current, None);
}

#[test]
fn first_player_is_admin_and_gets_credentials() {
    let mut actor = GameActor::new("849201".to_string(), settings(1));
    let out = actor.handle_message(1, ClientMessage::JoinGame { username: "Alice".to_string() });
    match &out[0].message {
        ServerMessage::JoinedLobby { game_id, your_id, secret, is_admin } => {
            assert_eq!(game_id, "849201");
            assert!(*is_admin);
            assert_ne!(*your_id, 0);
            assert_eq!(secret.len(), 36);
            for (i, c) in secret.chars().enumerate() {
                if i == 8 || i == 13 || i == 18 || i == 23 {
                    assert_eq!(c, '-');
                } else {
                    assert!(c.is_ascii_hexdigit() && !c.is_ascii_uppercase());
                }
            }
        }
        other => panic!("unexpected {:?}", other),
    }
    let snap = last_snapshot(&out);
    assert_eq!(snap.players.len(), 1);
    assert_eq!(snap.players[0].name, "Alice");
    assert_eq!(snap.players[0].chips, 1000);
    assert_eq!(snap.players[0].status, PlayerStatus::Spectating);
    assert!(snap.players[0].is_admin);
    let (_, _, out2) = join(&mut actor, 2, "Bob");
    let snap2 = last_snapshot(&out2);
    assert!(!snap2.players[1].is_admin);
    assert_eq!(actor.connected_count(), 2);
}

#[test]
fn full_room_refuses_joins() {
    let mut s = settings(1);
    s.max_players = 1;
    let mut actor = GameActor::new("1".to_string(), s);
    join(&mut actor, 1, "Alice");
    let out = actor.handle_message(2, ClientMessage::JoinGame { username: "Bob".to_string() });
    assert_eq!(errors(&out), vec![(Some(2), "Game is full".to_string())]);
    assert_eq!(out.len(), 1);
}

#[test]
fn joining_twice_on_one_connection_is_ignored() {
    let mut actor = GameActor::new("1".to_string(), settings(1));
    join(&mut actor, 1, "Alice");
    let out = actor.handle_message(1, ClientMessage::JoinGame { username: "Again".to_string() });
    assert!(out.is_empty());
}

#[test]
fn approval_required_rooms_hold_newcomers() {
    let mut s = settings(1);
    s.approval_required = true;
    let mut actor = GameActor::new("1".to_string(), s);
    let (admin, _, _) = join(&mut actor, 1, "Alice");
    let (bob, _, out) = join(&mut actor, 2, "Bob");
    // The request goes to the admin's connection only.
    let requests: Vec<&BroadcastMessage> = out
        .iter()
        .filter(|m| matches!(&m.message, ServerMessage::PlayerRequest { .. }))
        .collect();
    assert_eq!(requests.len(), 1);
    assert_eq!(requests[0].target, Some(1));
    assert!(matches!(&requests[0].message,
        ServerMessage::PlayerRequest { id, name } if *id == bob && name == "Bob"));
    assert_eq!(last_snapshot(&out).players[1].status, PlayerStatus::PendingApproval);
    // Bob cannot approve himself.
    let out = actor.handle_message(2, ClientMessage::ApprovePlayer { player_id: bob });
    assert_eq!(errors(&out), vec![(Some(2), "Only admins can approve players.".to_string())]);
    let out = actor.handle_message(1, ClientMessage::ApprovePlayer { player_id: bob });
    assert_eq!(last_snapshot(&out).players[1].status, PlayerStatus::Spectating);
    let _ = admin;
}

#[test]
fn reconnect_with_credentials_restores_the_seat() {
    let mut actor = GameActor::new("42".to_string(), settings(1));
    let (id, secret, _) = join(&mut actor, 1, "Alice");
    let out = actor.handle_message(1, ClientMessage::Disconnect);
    assert!(!last_snapshot(&out).players[0].is_connected);
    assert_eq!(actor.connected_count(), 0);
    assert!(!actor.has_connections());
    let out = actor.handle_message(
        2,
        ClientMessage::Reconnect { player_id: id, secret: "wrong".to_string() },
    );
    assert_eq!(errors(&out), vec![(Some(2), "Invalid secret".to_string())]);
    let out = actor.handle_message(
        3,
        ClientMessage::Reconnect { player_id: id.wrapping_add(1), secret: secret.clone() },
    );
    assert_eq!(errors(&out), vec![(Some(3), "Player not found".to_string())]);
    let out = actor.handle_message(4, ClientMessage::Reconnect { player_id: id, secret: secret.clone() });
    match &out[0].message {
        ServerMessage::JoinedLobby { game_id, your_id, secret: s, is_admin } => {
            assert_eq!(out[0].target, Some(4));
            assert_eq!(game_id, "42");
            assert_eq!(*your_id, id);
            assert_eq!(*s, secret);
            assert!(*is_admin);
        }
        other => panic!("unexpected {:?}", other),
    }
    assert!(last_snapshot(&out).players[0].is_connected);
    assert_eq!(actor.connected_count(), 1);
    assert!(actor.has_connections());
}

#[test]
fn messages_from_unknown_connections_are_ignored() {
    let mut actor = GameActor::new("1".to_string(), settings(1));
    join(&mut actor, 1, "Alice");
    assert!(actor.handle_message(99, ClientMessage::StartGame).is_empty());
    assert!(actor.handle_message(99, ClientMessage::Ping).is_empty());
}

#[test]
fn ping_is_answered_to_the_sender() {
    let mut actor = GameActor::new("1".to_string(), settings(1));
    join(&mut actor, 1, "Alice");
    let out = actor.handle_message(1, ClientMessage::Ping);
    assert_eq!(out.len(), 1);
    assert_eq!(out[0].target, Some(1));
    assert!(matches!(out[0].message, ServerMessage::Pong));
}

#[test]
fn chat_is_broadcast_or_refused() {
    let mut actor = GameActor::new("1".to_string(), settings(1));
    join(&mut actor, 1, "Alice");
    let out = actor.handle_message(1, ClientMessage::Chat { message: "gg".to_string() });
    assert_eq!(out.len(), 1);
    assert_eq!(out[0].target, None);
    match &out[0].message {
        ServerMessage::ChatBroadcast { from, msg } => {
            assert_eq!(from, "Alice");
            assert_eq!(msg, "gg");
        }
        other => panic!("unexpected {:?}", other),
    }
    let mut off = settings(1);
    off.chat_enabled = false;
    actor.handle_message(1, ClientMessage::UpdateSettings { settings: off });
    let out = actor.handle_message(1, ClientMessage::Chat { message: "gg".to_string() });
    assert_eq!(errors(&out), vec![(Some(1), "Chat is currently disabled.".to_string())]);
}

#[test]
fn non_admins_cannot_administer() {
    let mut actor = GameActor::new("1".to_string(), settings(1));
    let (alice, _, _) = join(&mut actor, 1, "Alice");
    join(&mut actor, 2, "Bob");
    let cases = vec![
        (ClientMessage::StartGame, "Only admins can start the game."),
        (ClientMessage::NextRound, "Only admins can start the next round."),
        (ClientMessage::KickPlayer { player_id: alice }, "Only admins can kick players."),
        (ClientMessage::UpdateSettings { settings: settings(3) }, "Only admins can update settings."),
        (
            ClientMessage::AdminUpdateBalance { target_id: alice, change_chips: 5 },
            "Only admins can update player balances.",
        ),
    ];
    for (msg, text) in cases {
        let out = actor.handle_message(2, msg);
        assert_eq!(errors(&out), vec![(Some(2), text.to_string())]);
        assert_eq!(out.len(), 1);
    }
}

#[test]
fn admin_balance_changes_stop_at_zero() {
    let mut actor = GameActor::new("1".to_string(), settings(1));
    let (alice, _, _) = join(&mut actor, 1, "Alice");
    let (bob, _, _) = join(&mut actor, 2, "Bob");
    let out = actor.handle_message(1, ClientMessage::AdminUpdateBalance { target_id: bob, change_chips: 500 });
    assert_eq!(last_snapshot(&out).players[1].chips, 1500);
    let out = actor.handle_message(1, ClientMessage::AdminUpdateBalance { target_id: bob, change_chips: -200 });
    assert_eq!(last_snapshot(&out).players[1].chips, 1300);
    let out = actor.handle_message(1, ClientMessage::AdminUpdateBalance { target_id: bob, change_chips: -5000 });
    assert_eq!(last_snapshot(&out).players[1].chips, 0);
    let out = actor.handle_message(
        1,
        ClientMessage::AdminUpdateBalance { target_id: alice, change_chips: i32::MIN },
    );
    assert_eq!(last_snapshot(&out).players[0].chips, 0);
}

#[test]
fn kicked_players_lose_seat_and_connections() {
    let mut actor = GameActor::new("1".to_string(), settings(1));
    let (alice, _, _) = join(&mut actor, 1, "Alice");
    let (bob, _, _) = join(&mut actor, 2, "Bob");
    let out = actor.handle_message(1, ClientMessage::KickPlayer { player_id: alice });
    assert_eq!(errors(&out), vec![(Some(1), "You cannot kick yourself.".to_string())]);
    let out = actor.handle_message(1, ClientMessage::KickPlayer { player_id: bob });
    assert_eq!(out[0].target, Some(2));
    assert!(matches!(out[0].message, ServerMessage::Kicked));
    let snap = last_snapshot(&out);
    assert_eq!(snap.players.len(), 1);
    assert_eq!(snap.players[0].id, alice);
    // the kicked connection no longer speaks for anyone
    assert!(actor.handle_message(2, ClientMessage::Ping).is_empty());
    assert_eq!(actor.connected_count(), 1);
}

#[test]
fn bets_only_while_betting() {
    let mut actor = GameActor::new("1".to_string(), settings(1));
    join(&mut actor, 1, "Alice");
    let out = actor.handle_message(1, ClientMessage::PlaceBet { amount: 10 });
    assert_eq!(
        errors(&out),
        vec![(Some(1), "Bets can only be placed during the Betting phase.".to_string())]
    );
    let out = actor.handle_message(1, ClientMessage::GameAction { action_type: ActionType::Hit });
    assert_eq!(
        errors(&out),
        vec![(Some(1), "Actions can only be performed during the Playing phase.".to_string())]
    );
    let out = actor.handle_message(1, ClientMessage::NextRound);
    assert_eq!(
        errors(&out),
        vec![(Some(1), "Next round can only be started from Payout or GameOver phase.".to_string())]
    );
}

#[test]
fn betting_needs_chips_and_approval() {
    let mut s = settings(1);
    s.approval_required = true;
    let mut actor = GameActor::new("1".to_string(), s);
    join(&mut actor, 1, "Alice");
    join(&mut actor, 2, "Bob");
    let out = actor.handle_message(1, ClientMessage::StartGame);
    assert_eq!(last_snapshot(&out).phase, GamePhase::Betting);
    let out = actor.handle_message(2, ClientMessage::PlaceBet { amount: 10 });
    assert_eq!(errors(&out), vec![(Some(2), "You must be approved before playing.".to_string())]);
    let out = actor.handle_message(1, ClientMessage::PlaceBet { amount: 5000 });
    assert_eq!(errors(&out), vec![(Some(1), "Not enough chips to place bet.".to_string())]);
}

#[test]
fn empty_round_cannot_start() {
    let mut actor = GameActor::new("1".to_string(), settings(1));
    join(&mut actor, 1, "Alice");
    actor.handle_message(1, ClientMessage::StartGame);
    let out = actor.handle_message(1, ClientMessage::StartGame);
    assert_eq!(out.len(), 1);
    assert_eq!(out[0].target, None);
    match &out[0].message {
        ServerMessage::Error { msg } => assert_eq!(msg, "Cannot start round with no active bets."),
        other => panic!("unexpected {:?}", other),
    }
    let out = actor.handle_message(1, ClientMessage::Chat { message: "still".to_string() });
    assert_eq!(out.len(), 1);
    // betting is still open
    let out = actor.handle_message(1, ClientMessage::PlaceBet { amount: 10 });
    assert!(errors(&out).is_empty());
}

#[test]
fn a_bet_waits_for_the_others() {
    let mut actor = GameActor::new("1".to_string(), settings(1));
    join(&mut actor, 1, "Alice");
    join(&mut actor, 2, "Bob");
    actor.handle_message(1, ClientMessage::StartGame);
    let out = actor.handle_message(1, ClientMessage::PlaceBet { amount: 100 });
    let snap = last_snapshot(&out);
    assert_eq!(snap.phase, GamePhase::Betting);
    assert_eq!(snap.players[0].chips, 900);
    assert_eq!(snap.players[0].status, PlayerStatus::Playing);
    assert_eq!(snap.players[0].hands.len(), 1);
    assert_eq!(snap.players[0].hands[0].bet, 100);
    let out = actor.handle_message(1, ClientMessage::PlaceBet { amount: 100 });
    assert_eq!(errors(&out), vec![(Some(1), "You cannot place a bet right now.".to_string())]);
}

#[test]
fn round_starts_once_everyone_has_bet_and_dealer_card_is_hidden() {
    let mut actor = GameActor::new("1".to_string(), settings(1));
    join(&mut actor, 1, "Alice");
    join(&mut actor, 2, "Bob");
    actor.handle_message(1, ClientMessage::StartGame);
    actor.handle_message(1, ClientMessage::PlaceBet { amount: 100 });
    let out = actor.handle_message(2, ClientMessage::PlaceBet { amount: 50 });
    let snap = last_snapshot(&out);
    assert!(snap.phase == GamePhase::Playing || snap.phase == GamePhase::Payout);
    for p in &snap.players {
        assert!(p.hands[0].cards.len() >= 2);
    }
    if snap.phase == GamePhase::Playing {
        assert_eq!(snap.dealer, 1);
        assert!(snap.current.is_some());
        assert_eq!(snap.deck_remaining, 52 - 6);
    } else {
        assert!(snap.dealer >= 2);
    }
}

#[test]
fn offline_players_do_not_hold_up_the_round() {
    let mut actor = GameActor::new("1".to_string(), settings(1));
    join(&mut actor, 1, "Alice");
    join(&mut actor, 2, "Bob");
    actor.handle_message(1, ClientMessage::StartGame);
    actor.handle_message(2, ClientMessage::Disconnect);
    let out = actor.handle_message(1, ClientMessage::PlaceBet { amount: 100 });
    let snap = last_snapshot(&out);
    assert!(snap.phase == GamePhase::Playing || snap.phase == GamePhase::Payout);
    assert_eq!(snap.players[1].status, PlayerStatus::Sitting);
}

/// A room without decks deals no cards: every hand (and the dealer) is worth
/// nothing, so a standing player pushes and gets the bet back.
#[test]
fn a_room_without_decks_pushes_every_hand() {
    let mut actor = GameActor::new("1".to_string(), settings(0));
    let (alice, _, _) = join(&mut actor, 1, "Alice");
    actor.handle_message(1, ClientMessage::StartGame);
    let out = actor.handle_message(1, ClientMessage::PlaceBet { amount: 100 });
    let snap = last_snapshot(&out);
    assert_eq!(snap.phase, GamePhase::Playing);
    assert_eq!(snap.current, Some(alice));
    assert_eq!(snap.dealer, 0);
    assert_eq!(snap.players[0].hands[0].cards.len(), 0);
    // Hitting draws nothing.
    let out = actor.handle_message(1, ClientMessage::GameAction { action_type: ActionType::Hit });
    assert_eq!(last_snapshot(&out).phase, GamePhase::Playing);
    let out = actor.handle_message(1, ClientMessage::GameAction { action_type: ActionType::Stand });
    let snap = last_snapshot(&out);
    assert_eq!(snap.phase, GamePhase::Payout);
    assert_eq!(snap.current, None);
    assert_eq!(snap.players[0].hands[0].status, HandStatus::Push);
    assert_eq!(snap.players[0].chips, 1000);
    assert_eq!(snap.players[0].status, PlayerStatus::Sitting);
    let out = actor.handle_message(1, ClientMessage::NextRound);
    let snap = last_snapshot(&out);
    assert_eq!(snap.phase, GamePhase::Betting);
    assert_eq!(snap.players[0].hands.len(), 0);
}

#[test]
fn only_the_player_on_turn_may_act() {
    let mut actor = GameActor::new("1".to_string(), settings(0));
    join(&mut actor, 1, "Alice");
    join(&mut actor, 2, "Bob");
    actor.handle_message(1, ClientMessage::StartGame);
    actor.handle_message(1, ClientMessage::PlaceBet { amount: 100 });
    actor.handle_message(2, ClientMessage::PlaceBet { amount: 100 });
    let out = actor.handle_message(2, ClientMessage::GameAction { action_type: ActionType::Stand });
    assert_eq!(errors(&out), vec![(Some(2), "It is not your turn.".to_string())]);
    let out = actor.handle_message(1, ClientMessage::GameAction { action_type: ActionType::Split });
    assert_eq!(
        errors(&out),
        vec![(Some(1), "Cannot split: need pair and enough chips.".to_string())]
    );
    let out = actor.handle_message(1, ClientMessage::GameAction { action_type: ActionType::Stand });
    let snap = last_snapshot(&out);
    assert_eq!(snap.phase, GamePhase::Playing);
    assert_eq!(snap.current, Some(snap.players[1].id));
}

#[test]
fn doubling_needs_chips() {
    let mut actor = GameActor::new("1".to_string(), settings(0));
    join(&mut actor, 1, "Alice");
    actor.handle_message(1, ClientMessage::StartGame);
    actor.handle_message(1, ClientMessage::PlaceBet { amount: 600 });
    let out = actor.handle_message(1, ClientMessage::GameAction { action_type: ActionType::Double });
    assert_eq!(errors(&out), vec![(Some(1), "Not enough chips to double down.".to_string())]);
    assert_eq!(last_snapshot(&out).players[0].chips, 400);
}

/// Doubling in a room without decks takes the chips but draws no card, so
/// the hand keeps its bet and stays in play.
#[test]
fn doubling_without_a_card_keeps_the_hand_in_play() {
    let mut actor = GameActor::new("1".to_string(), settings(0));
    join(&mut actor, 1, "Alice");
    actor.handle_message(1, ClientMessage::StartGame);
    actor.handle_message(1, ClientMessage::PlaceBet { amount: 100 });
    let out = actor.handle_message(1, ClientMessage::GameAction { action_type: ActionType::Double });
    let snap = last_snapshot(&out);
    assert_eq!(snap.players[0].chips, 800);
    assert_eq!(snap.players[0].hands[0].bet, 100);
    assert_eq!(snap.players[0].hands[0].status, HandStatus::Playing);
}

#[test]
fn admin_can_force_the_turn_on() {
    let mut actor = GameActor::new("1".to_string(), settings(0));
    join(&mut actor, 1, "Alice");
    let (bob, _, _) = join(&mut actor, 2, "Bob");
    actor.handle_message(1, ClientMessage::StartGame);
    actor.handle_message(2, ClientMessage::PlaceBet { amount: 100 });
    let out = actor.handle_message(1, ClientMessage::PlaceBet { amount: 100 });
    assert_eq!(last_snapshot(&out).phase, GamePhase::Playing);
    let out = actor.handle_message(1, ClientMessage::StartGame);
    let snap = last_snapshot(&out);
    assert_eq!(snap.players[0].hands[0].status, HandStatus::Stood);
    assert_eq!(snap.current, Some(bob));
    let out = actor.handle_message(1, ClientMessage::StartGame);
    let snap = last_snapshot(&out);
    assert_eq!(snap.phase, GamePhase::Payout);
    assert_eq!(snap.players[1].chips, 1000);
    let out = actor.handle_message(1, ClientMessage::StartGame);
    assert_eq!(errors(&out), vec![(Some(1), "Invalid phase for StartGame command.".to_string())]);
}

/// A full round with real cards: the dealer ends on 17 or more (or busts),
/// and every hand is settled according to the totals.
#[test]
fn dealer_plays_to_seventeen_and_hands_are_settled() {
    for _ in 0..20 {
        let mut actor = GameActor::new("1".to_string(), settings(1));
        join(&mut actor, 1, "Alice");
        actor.handle_message(1, ClientMessage::StartGame);
        let mut out = actor.handle_message(1, ClientMessage::PlaceBet { amount: 100 });
        let mut snap = last_snapshot(&out);
        while snap.phase == GamePhase::Playing {
            out = actor.handle_message(1, ClientMessage::GameAction { action_type: ActionType::Stand });
            snap = last_snapshot(&out);
        }
        assert_eq!(snap.phase, GamePhase::Payout);
        let dealer_cards = out
            .iter()
            .rev()
            .find_map(|m| match &m.message {
                ServerMessage::GameStateSnapshot { dealer_hand, .. } => Some(dealer_hand.clone()),
                _ => None,
            })
            .unwrap();
        let dealer_value = calculate_hand_value(&dealer_cards);
        assert!(dealer_value >= 17);
        let hand = &snap.players[0].hands[0];
        let hand_value = calculate_hand_value(&hand.cards);
        let dealer_bj = dealer_value == 21 && dealer_cards.len() == 2;
        let chips = snap.players[0].chips;
        if hand_value == 21 && hand.cards.len() == 2 {
            if dealer_bj {
                assert_eq!((hand.status, chips), (HandStatus::Push, 1000));
            } else {
                assert_eq!((hand.status, chips), (HandStatus::Won, 900 + 250));
            }
        } else if dealer_bj {
            assert_eq!((hand.status, chips), (HandStatus::Lost, 900));
        } else if dealer_value > 21 || hand_value > dealer_value {
            assert_eq!((hand.status, chips), (HandStatus::Won, 1100));
        } else if hand_value == dealer_value {
            assert_eq!((hand.status, chips), (HandStatus::Push, 1000));
        } else {
            assert_eq!((hand.status, chips), (HandStatus::Lost, 900));
        }
    }
}

/// An unshuffled single deck would deal the ace and then the queen of spades
/// to a lone player; three rooms in a row dealing exactly that would mean the
/// shoe was never shuffled.
#[test]
fn new_rooms_shuffle_the_shoe() {
    let unshuffled = vec![
        Card { suit: Suit::Spades, rank: Rank::Ace },
        Card { suit: Suit::Spades, rank: Rank::Queen },
    ];
    let mut all_unshuffled = true;
    for _ in 0..3 {
        let mut actor = GameActor::new("1".to_string(), settings(1));
        join(&mut actor, 1, "Alice");
        actor.handle_message(1, ClientMessage::StartGame);
        let out = actor.handle_message(1, ClientMessage::PlaceBet { amount: 100 });
        let snap = last_snapshot(&out);
        let cards = &snap.players[0].hands[0].cards;
        assert_eq!(cards.len(), 2);
        if *cards != unshuffled {
            all_unshuffled = false;
        }
    }
    assert!(!all_unshuffled);
}

#[test]
fn admin_start_leaves_non_bettors_out() {
    let mut actor = GameActor::new("1".to_string(), settings(1));
    join(&mut actor, 1, "Alice");
    join(&mut actor, 2, "Bob");
    actor.handle_message(1, ClientMessage::StartGame);
    let out = actor.handle_message(1, ClientMessage::PlaceBet { amount: 100 });
    assert_eq!(last_snapshot(&out).phase, GamePhase::Betting);
    let out = actor.handle_message(1, ClientMessage::StartGame);
    let snap = last_snapshot(&out);
    assert!(snap.phase == GamePhase::Playing || snap.phase == GamePhase::Payout);
    assert_eq!(snap.players[0].hands[0].cards.len(), 2);
    assert_eq!(snap.players[1].status, PlayerStatus::Sitting);
    assert_eq!(snap.players[1].hands.len(), 0);
    assert_eq!(snap.players[1].chips, 1000);
}

fn ends_with_snapshot(out: &[BroadcastMessage]) -> bool {
    match out.last() {
        Some(m) => m.target.is_none() && matches!(m.message, ServerMessage::GameStateSnapshot { .. }),
        None => false,
    }
}

/// Whatever changes what clients see ends with a snapshot to everyone.
#[test]
fn every_change_ends_with_a_snapshot() {
    let mut actor = GameActor::new("1".to_string(), settings(1));
    let (_, _, out) = join(&mut actor, 1, "Alice");
    assert!(ends_with_snapshot(&out));
    let (bob, _, out) = join(&mut actor, 2, "Bob");
    assert!(ends_with_snapshot(&out));
    let out = actor.handle_message(1, ClientMessage::AdminUpdateBalance { target_id: bob, change_chips: 5 });
    assert!(ends_with_snapshot(&out));
    let out = actor.handle_message(1, ClientMessage::StartGame);
    assert!(ends_with_snapshot(&out));
    let out = actor.handle_message(2, ClientMessage::PlaceBet { amount: 10 });
    assert!(ends_with_snapshot(&out));
    let out = actor.handle_message(2, ClientMessage::Disconnect);
    assert!(ends_with_snapshot(&out));
    // A refused message changes nothing and sends no snapshot.
    let out = actor.handle_message(1, ClientMessage::NextRound);
    assert!(!ends_with_snapshot(&out));
}

/// Snapshots leave every secret out; ids are version-4 UUIDs.
#[test]
fn snapshots_leave_secrets_out() {
    let mut actor = GameActor::new("1".to_string(), settings(1));
    let (alice, secret, out) = join(&mut actor, 1, "Alice");
    assert!(!secret.is_empty());
    assert_eq!((alice >> 76) & 0xf, 4);
    assert_eq!((alice >> 62) & 0x3, 2);
    for p in &last_snapshot(&out).players {
        assert!(p.secret.is_empty());
    }
    let (_, _, out) = join(&mut actor, 2, "Bob");
    for p in &last_snapshot(&out).players {
        assert!(p.secret.is_empty());
    }
}

/// After a split, the admin's timeout still moves the turn on to the next
/// player: the later hand of the split is skipped too.
#[test]
fn force_stand_after_a_split_passes_the_turn() {
    let mut found = false;
    for _ in 0..5000 {
        let mut actor = GameActor::new("1".to_string(), settings(1));
        let (alice, _, _) = join(&mut actor, 1, "Alice");
        let (bob, _, _) = join(&mut actor, 2, "Bob");
        actor.handle_message(1, ClientMessage::StartGame);
        actor.handle_message(1, ClientMessage::PlaceBet { amount: 10 });
        let out = actor.handle_message(2, ClientMessage::PlaceBet { amount: 10 });
        let snap = last_snapshot(&out);
        if snap.phase != GamePhase::Playing || snap.current != Some(alice) {
            continue;
        }
        let cards = &snap.players[0].hands[0].cards;
        if cards[0].rank != cards[1].rank {
            continue;
        }
        let out = actor.handle_message(1, ClientMessage::GameAction { action_type: ActionType::Split });
        let snap = last_snapshot(&out);
        assert_eq!(snap.players[0].hands.len(), 2);
        assert_eq!(snap.current, Some(alice));
        let out = actor.handle_message(1, ClientMessage::StartGame);
        let snap = last_snapshot(&out);
        if snap.phase == GamePhase::Playing {
            assert_eq!(snap.current, Some(bob));
            assert!(snap.players[0].hands.iter().all(|h| h.status == HandStatus::Stood));
        } else {
            assert_eq!(snap.phase, GamePhase::Payout);
        }
        found = true;
        break;
    }
    assert!(found);
}

/// A double moves chips into the bet: chips plus bet stay the same.
#[test]
fn doubling_keeps_chips_plus_bets() {
    let mut found = false;
    for _ in 0..500 {
        let mut actor = GameActor::new("1".to_string(), settings(1));
        let (alice, _, _) = join(&mut actor, 1, "Alice");
        let (bob, _, _) = join(&mut actor, 2, "Bob");
        actor.handle_message(1, ClientMessage::StartGame);
        actor.handle_message(1, ClientMessage::PlaceBet { amount: 100 });
        let out = actor.handle_message(2, ClientMessage::PlaceBet { amount: 10 });
        let snap = last_snapshot(&out);
        if snap.phase != GamePhase::Playing || snap.current != Some(alice) {
            continue;
        }
        let out = actor.handle_message(1, ClientMessage::GameAction { action_type: ActionType::Double });
        let snap = last_snapshot(&out);
        if snap.phase != GamePhase::Playing {
            continue;
        }
        assert_eq!(snap.current, Some(bob));
        let a = &snap.players[0];
        assert_eq!(a.hands[0].bet, 200);
        assert_eq!(a.chips + a.hands[0].bet, 1000);
        assert_eq!(a.hands[0].cards.len(), 3);
        assert_eq!(snap.players[1].chips + snap.players[1].hands[0].bet, 1000);
        found = true;
        break;
    }
    assert!(found);
}

/// The admin's seat cannot be kicked away, and later joiners never become
/// admins.
#[test]
fn the_room_keeps_its_one_admin() {
    let mut actor = GameActor::new("1".to_string(), settings(1));
    let (alice, _, _) = join(&mut actor, 1, "Alice");
    let (bob, _, _) = join(&mut actor, 2, "Bob");
    let (_, _, out) = join(&mut actor, 3, "Carol");
    let snap = last_snapshot(&out);
    assert!(snap.players[0].is_admin);
    assert!(snap.players[1..].iter().all(|p| !p.is_admin));
    let out = actor.handle_message(2, ClientMessage::KickPlayer { player_id: alice });
    assert_eq!(errors(&out), vec![(Some(2), "Only admins can kick players.".to_string())]);
    let out = actor.handle_message(1, ClientMessage::KickPlayer { player_id: bob });
    let snap = last_snapshot(&out);
    assert_eq!(snap.players.len(), 2);
    assert_eq!(snap.players[0].id, alice);
    assert!(snap.players[0].is_admin);
    assert!(!snap.players[1].is_admin);
}

/// A blackjack pays what the bet as a 32-bit float times 2.5 comes to, cut
/// to whole chips: exact for small bets, rounded like the float for large
/// ones.
#[test]
fn blackjack_pays_two_and_a_half_times_as_a_float() {
    let initial: u32 = 4_000_000_000;
    for bet in [10u32, 3_355_447, 7_000_001, 3_999_999_999] {
        let expected = (bet as f32 * 2.5) as u32;
        let mut found = false;
        for _ in 0..5000 {
            let mut s = settings(1);
            s.initial_chips = initial;
            let mut actor = GameActor::new("1".to_string(), s);
            join(&mut actor, 1, "Alice");
            actor.handle_message(1, ClientMessage::StartGame);
            let out = actor.handle_message(1, ClientMessage::PlaceBet { amount: bet });
            let snap = last_snapshot(&out);
            let p = &snap.players[0];
            if snap.phase == GamePhase::Payout
                && p.hands[0].cards.len() == 2
                && calculate_hand_value(&p.hands[0].cards) == 21
                && p.hands[0].status == HandStatus::Won
            {
                assert_eq!(p.chips, (initial - bet).wrapping_add(expected));
                found = true;
                break;
            }
        }
        assert!(found);
    }
    assert_eq!((3_355_447u32 as f32 * 2.5) as u32, 8_388_618);
}
