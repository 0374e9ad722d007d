//! The protocol between clients and a game room.
use vstd::prelude::*;
use crate::cards::Card;
use crate::types::{GamePhase, GameSettings, Player, PlayerView, players_view};

verus! {

/// A move of the player whose turn it is.
#[derive(Clone, Copy, Debug, PartialEq, Eq, Structural)]
pub enum ActionType {
    Hit,
    Stand,
    Double,
    Split,
}

/// What a connection asks of its room. Ids are UUIDs as 128-bit integers.
#[derive(Debug)]
pub enum ClientMessage {
    // Lobby actions
    JoinGame { username: String },
    Reconnect { player_id: u128, secret: String },
    // Admin actions
    /// Lobby -> Betting; Betting -> Playing; in Playing, force-stands the current player.
    StartGame,
    ApprovePlayer { player_id: u128 },
    KickPlayer { player_id: u128 },
    UpdateSettings { settings: GameSettings },
    AdminUpdateBalance { target_id: u128, change_chips: i32 },
    /// Payout (or GameOver) -> Betting.
    NextRound,
    // Player actions
    PlaceBet { amount: u32 },
    GameAction { action_type: ActionType },
    Chat { message: String },
    Ping,
    // Sent by the connection layer when a socket closes.
    Disconnect,
}

/// What a room tells its connections.
#[derive(Debug)]
pub enum ServerMessage {
    Error { msg: String },
    JoinedLobby { game_id: String, your_id: u128, secret: String, is_admin: bool },
    GameStateSnapshot {
        phase: GamePhase,
        dealer_hand: Vec<Card>,
        players: Vec<Player>,
        deck_remaining: usize,
        current_turn_player_id: Option<u128>,
        settings: GameSettings,
    },
    ChatBroadcast { from: String, msg: String },
    Pong,
    /// Sent to the admins' connections when someone asks to join a room that
    /// needs approval.
    PlayerRequest { id: u128, name: String },
    /// Sent to a connection of a player removed by an admin; the connection
    /// closes after it.
    Kicked,
}

/// A message with its audience: every connection of the room when `target` is
/// `None`, else only the connection with that id.
#[derive(Debug)]
pub struct BroadcastMessage {
    pub target: Option<u128>,
    pub message: ServerMessage,
}

/// Mathematical value of a server message.
pub enum MessageView {
    Error { msg: Seq<char> },
    JoinedLobby { game_id: Seq<char>, your_id: u128, secret: Seq<char>, is_admin: bool },
    GameStateSnapshot {
        phase: GamePhase,
        dealer_hand: Seq<Card>,
        players: Seq<PlayerView>,
        deck_remaining: usize,
        current_turn_player_id: Option<u128>,
        settings: GameSettings,
    },
    ChatBroadcast { from: Seq<char>, msg: Seq<char> },
    Pong,
    PlayerRequest { id: u128, name: Seq<char> },
    Kicked,
}

/// Mathematical value of an addressed message.
pub struct Outgoing {
    pub target: Option<u128>,
    pub message: MessageView,
}

impl View for ServerMessage {
    type V = MessageView;

    open spec fn view(&self) -> MessageView {
        match self {
            ServerMessage::Error { msg } => MessageView::Error { msg: msg@ },
            ServerMessage::JoinedLobby { game_id, your_id, secret, is_admin } =>
                MessageView::JoinedLobby {
                    game_id: game_id@,
                    your_id: *your_id,
                    secret: secret@,
                    is_admin: *is_admin,
                },
            ServerMessage::GameStateSnapshot {
                phase,
                dealer_hand,
                players,
                deck_remaining,
                current_turn_player_id,
                settings,
            } => MessageView::GameStateSnapshot {
                phase: *phase,
                dealer_hand: dealer_hand@,
                players: players_view(players@),
                deck_remaining: *deck_remaining,
                current_turn_player_id: *current_turn_player_id,
                settings: *settings,
            },
            ServerMessage::ChatBroadcast { from, msg } => MessageView::ChatBroadcast {
                from: from@,
                msg: msg@,
            },
            ServerMessage::Pong => MessageView::Pong,
            ServerMessage::PlayerRequest { id, name } => MessageView::PlayerRequest {
                id: *id,
                name: name@,
            },
            ServerMessage::Kicked => MessageView::Kicked,
        }
    }
}

impl View for BroadcastMessage {
    type V = Outgoing;

    open spec fn view(&self) -> Outgoing {
        Outgoing { target: self.target, message: self.message@ }
    }
}

pub open spec fn outgoing_view(msgs: Seq<BroadcastMessage>) -> Seq<Outgoing> {
    msgs.map_values(|m: BroadcastMessage| m@)
}

/// What the connection layer does with a room message on one connection.
#[derive(Clone, Copy, Debug, PartialEq, Eq, Structural)]
pub enum Delivery {
    /// Addressed to another connection.
    Skip,
    /// Forward it to the client.
    Forward,
    /// Forward it, then close the connection.
    ForwardAndClose,
}

impl BroadcastMessage {
    /// How the connection `connection_id` handles this message: messages for
    /// another connection are skipped; a `Kicked` notice is the last one a
    /// connection forwards.
    pub fn delivery_for(&self, connection_id: u128) -> (d: Delivery)
        ensures
            d == (match self.target {
                Some(t) if t != connection_id => Delivery::Skip,
                _ => if self.message is Kicked {
                    Delivery::ForwardAndClose
                } else {
                    Delivery::Forward
                },
            }),
    {
        if let Some(t) = self.target {
            if t != connection_id {
                return Delivery::Skip;
            }
        }
        match self.message {
            ServerMessage::Kicked => Delivery::ForwardAndClose,
            _ => Delivery::Forward,
        }
    }
}

} // verus!
