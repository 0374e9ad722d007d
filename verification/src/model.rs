//! The rules of a room, as functions on its mathematical state.
//!
//! Every step of the room is one of the functions below applied to the state
//! before it. The cards drawn during a step are a parameter (`rs`): they come
//! from the shoe (see `deck::draws_rel`), and a function returns `None` when
//! `rs` is not exactly the list of draws that the step makes. The shoe itself
//! is not changed by these functions: the step relation puts the shoe that is
//! left after the step into the state beforehand, which is also the shoe that
//! a state snapshot (always the last thing a step sends) reports on.
use vstd::prelude::*;
use crate::cards::{Card, hand_value};
use crate::deck::draws_rel;
use crate::messages::{ActionType, ClientMessage, MessageView, Outgoing};
use crate::types::{GamePhase, GameSettings, HandStatus, HandView, PlayerStatus, PlayerView, without_secret};
use crate::ids::{is_v4_uuid, uuid_text};

verus! {

/// Mathematical state of a room.
#[verifier::ext_equal]
pub struct GameState {
    pub game_id: Seq<char>,
    pub settings: GameSettings,
    pub phase: GamePhase,
    /// The shoe; the next card dealt is the last one.
    pub deck: Seq<Card>,
    pub players: Seq<PlayerView>,
    pub dealer_hand: Seq<Card>,
    /// Index of the player whose turn it is.
    pub turn_index: usize,
    /// (connection id, player id) pairs, in the order the connections came.
    pub connections: Seq<(u128, u128)>,
    /// Messages produced and not yet handed to the connection layer.
    pub outbox: Seq<Outgoing>,
}

// ---------------------------------------------------------------------------
// Lookups

/// `i` is the first player with id `id`.
pub open spec fn is_first_player(ps: Seq<PlayerView>, id: u128, i: int) -> bool {
    &&& 0 <= i < ps.len()
    &&& ps[i].id == id
    &&& forall|j: int| 0 <= j < i ==> ps[j].id != id
}

/// Position of the first player with id `id`.
pub open spec fn player_pos(ps: Seq<PlayerView>, id: u128) -> Option<int> {
    if exists|i: int| is_first_player(ps, id, i) {
        Some(choose|i: int| is_first_player(ps, id, i))
    } else {
        None
    }
}

/// `k` is the first entry for connection `conn`.
pub open spec fn is_first_conn(cs: Seq<(u128, u128)>, conn: u128, k: int) -> bool {
    &&& 0 <= k < cs.len()
    &&& cs[k].0 == conn
    &&& forall|j: int| 0 <= j < k ==> cs[j].0 != conn
}

/// Position of the entry of connection `conn`.
pub open spec fn conn_pos(cs: Seq<(u128, u128)>, conn: u128) -> Option<int> {
    if exists|k: int| is_first_conn(cs, conn, k) {
        Some(choose|k: int| is_first_conn(cs, conn, k))
    } else {
        None
    }
}

/// `k` is the first connection of player `pid`.
pub open spec fn is_first_conn_of(cs: Seq<(u128, u128)>, pid: u128, k: int) -> bool {
    &&& 0 <= k < cs.len()
    &&& cs[k].1 == pid
    &&& forall|j: int| 0 <= j < k ==> cs[j].1 != pid
}

/// Position of the first connection of player `pid`.
pub open spec fn conn_of_player(cs: Seq<(u128, u128)>, pid: u128) -> Option<int> {
    if exists|k: int| is_first_conn_of(cs, pid, k) {
        Some(choose|k: int| is_first_conn_of(cs, pid, k))
    } else {
        None
    }
}

/// A player the turn can move to: in the round, connected, and with a hand
/// still to play at their active index.
pub open spec fn can_take_turn(p: PlayerView) -> bool {
    &&& p.status == PlayerStatus::Playing
    &&& p.is_connected
    &&& p.active_hand_index < p.hands.len()
    &&& p.hands[p.active_hand_index as int].status == HandStatus::Playing
}

/// `n` is the first player after `t` who can take the turn.
pub open spec fn is_next_turn(ps: Seq<PlayerView>, t: int, n: int) -> bool {
    &&& t < n < ps.len()
    &&& can_take_turn(ps[n])
    &&& forall|m: int| t < m < n ==> !can_take_turn(#[trigger] ps[m])
}

pub open spec fn next_turn(ps: Seq<PlayerView>, t: int) -> Option<int> {
    if exists|n: int| is_next_turn(ps, t, n) {
        Some(choose|n: int| is_next_turn(ps, t, n))
    } else {
        None
    }
}

/// A player who has to act first in a freshly dealt round.
pub open spec fn opens_round(p: PlayerView) -> bool {
    &&& p.status == PlayerStatus::Playing
    &&& p.is_connected
    &&& p.hands.len() > 0
    &&& p.hands[0].status == HandStatus::Playing
}

pub open spec fn is_first_opener(ps: Seq<PlayerView>, i: int) -> bool {
    &&& 0 <= i < ps.len()
    &&& opens_round(ps[i])
    &&& forall|j: int| 0 <= j < i ==> !opens_round(#[trigger] ps[j])
}

pub open spec fn first_opener(ps: Seq<PlayerView>) -> Option<int> {
    if exists|i: int| is_first_opener(ps, i) {
        Some(choose|i: int| is_first_opener(ps, i))
    } else {
        None
    }
}

/// Number of players with a bet in the round.
pub open spec fn count_playing(ps: Seq<PlayerView>) -> nat
    decreases ps.len(),
{
    if ps.len() == 0 {
        0
    } else {
        count_playing(ps.drop_last()) + (if ps.last().status == PlayerStatus::Playing {
            1nat
        } else {
            0nat
        })
    }
}

/// Number of connected players.
pub open spec fn count_connected(ps: Seq<PlayerView>) -> nat
    decreases ps.len(),
{
    if ps.len() == 0 {
        0
    } else {
        count_connected(ps.drop_last()) + (if ps.last().is_connected {
            1nat
        } else {
            0nat
        })
    }
}

/// Everyone who is connected and approved has placed a bet.
pub open spec fn all_ready(ps: Seq<PlayerView>) -> bool {
    forall|i: int|
        0 <= i < ps.len() ==> {
            let p = #[trigger] ps[i];
            !p.is_connected || p.status == PlayerStatus::Playing || p.status
                == PlayerStatus::PendingApproval
        }
}

// ---------------------------------------------------------------------------
// Arithmetic on chips (32-bit, wrapping on overflow)

pub open spec fn wrap32(x: int) -> u32 {
    (x % 0x1_0000_0000) as u32
}

/// Chips after an admin changes them by `change`: a deduction stops at zero.
pub open spec fn adjusted_balance(chips: u32, change: i32) -> u32 {
    if change < 0 {
        if chips >= -change {
            (chips + change) as u32
        } else {
            0
        }
    } else {
        wrap32(chips + change)
    }
}

/// The number of low bits a 32-bit float (24 significant bits) drops to
/// hold `n`: how often `n` is halved before it falls below 2^24.
pub open spec fn dropped_bits(n: nat) -> nat
    decreases n,
{
    if n < 0x100_0000 {
        0
    } else {
        1 + dropped_bits(n / 2)
    }
}

/// Two to the power `e`.
pub open spec fn two_to(e: nat) -> nat
    decreases e,
{
    if e == 0 {
        1
    } else {
        2 * two_to((e - 1) as nat)
    }
}

/// `n` rounded to 24 significant bits, to the nearest and ties to even: the
/// value a 32-bit float holds for the whole number `n`.
pub open spec fn round_to_f32(n: nat) -> nat {
    let s = dropped_bits(n);
    if s == 0 {
        n
    } else {
        let p = two_to(s);
        let q = n / p;
        let r = n % p;
        let q1 = if r > p / 2 || (r == p / 2 && q % 2 == 1) {
            q + 1
        } else {
            q
        };
        q1 * p
    }
}

/// What a blackjack pays back: the bet as a 32-bit float, times 2.5 in float
/// arithmetic, cut down to whole chips (at most `u32::MAX`). Halving is exact
/// for floats, so the product is half of five times the bet rounded to 24
/// significant bits.
pub open spec fn blackjack_return(bet: u32) -> u32 {
    let twice = round_to_f32(5 * round_to_f32(bet as nat));
    if twice / 2 > u32::MAX {
        u32::MAX
    } else {
        (twice / 2) as u32
    }
}

/// Chips a hand returns at payout against a dealer total `dv`.
pub open spec fn hand_return(h: HandView, dv: nat, dealer_blackjack: bool) -> u32 {
    let hv = hand_value(h.cards);
    if h.status == HandStatus::Busted {
        0
    } else if h.status == HandStatus::Blackjack {
        if dealer_blackjack {
            h.bet
        } else {
            blackjack_return(h.bet)
        }
    } else if dealer_blackjack {
        0
    } else if dv > 21 || hv > dv {
        wrap32(2 * h.bet)
    } else if hv == dv {
        h.bet
    } else {
        0
    }
}

/// How a hand ends at payout.
pub open spec fn hand_outcome(h: HandView, dv: nat, dealer_blackjack: bool) -> HandStatus {
    let hv = hand_value(h.cards);
    if h.status == HandStatus::Busted {
        HandStatus::Lost
    } else if h.status == HandStatus::Blackjack {
        if dealer_blackjack {
            HandStatus::Push
        } else {
            HandStatus::Won
        }
    } else if dealer_blackjack {
        HandStatus::Lost
    } else if dv > 21 || hv > dv {
        HandStatus::Won
    } else if hv == dv {
        HandStatus::Push
    } else {
        HandStatus::Lost
    }
}

/// Chips after every hand has been paid, hand by hand.
pub open spec fn paid_chips(chips: u32, hands: Seq<HandView>, dv: nat, dealer_blackjack: bool) -> u32
    decreases hands.len(),
{
    if hands.len() == 0 {
        chips
    } else {
        wrap32(
            paid_chips(chips, hands.drop_last(), dv, dealer_blackjack) + hand_return(
                hands.last(),
                dv,
                dealer_blackjack,
            ),
        )
    }
}

/// A player after payout.
pub open spec fn settle_player(p: PlayerView, dv: nat, dealer_blackjack: bool) -> PlayerView {
    if p.status != PlayerStatus::Playing {
        p
    } else {
        PlayerView {
            chips: paid_chips(p.chips, p.hands, dv, dealer_blackjack),
            hands: p.hands.map_values(
                |h: HandView| HandView { status: hand_outcome(h, dv, dealer_blackjack), ..h },
            ),
            status: PlayerStatus::Sitting,
            ..p
        }
    }
}

/// The dealer's draws: draw while the hand is under 17; stop when the shoe
/// yields nothing. `None` when `rs` are not exactly these draws.
pub open spec fn dealer_draws(h: Seq<Card>, rs: Seq<Option<Card>>) -> Option<Seq<Card>>
    decreases rs.len(),
{
    if hand_value(h) >= 17 {
        if rs.len() == 0 {
            Some(h)
        } else {
            None
        }
    } else if rs.len() == 0 {
        None
    } else {
        match rs[0] {
            None => if rs.len() == 1 {
                Some(h)
            } else {
                None
            },
            Some(c) => dealer_draws(h.push(c), rs.drop_first()),
        }
    }
}

/// A state if no draws are left over.
pub open spec fn done(s: GameState, rs: Seq<Option<Card>>) -> Option<GameState> {
    if rs.len() == 0 {
        Some(s)
    } else {
        None
    }
}

/// A player's hand at `i` gets the card `c`.
pub open spec fn give_card(p: PlayerView, i: int, c: Card) -> PlayerView {
    PlayerView {
        hands: p.hands.update(i, HandView { cards: p.hands[i].cards.push(c), ..p.hands[i] }),
        ..p
    }
}

/// A player's first hand gets the card drawn, if any.
pub open spec fn deal_to(p: PlayerView, r: Option<Card>) -> PlayerView {
    match r {
        Some(c) => if p.hands.len() > 0 {
            give_card(p, 0, c)
        } else {
            p
        },
        None => p,
    }
}

/// A player whose first hand is a natural 21 gets it marked Blackjack.
pub open spec fn mark_blackjack(p: PlayerView) -> PlayerView {
    if p.status == PlayerStatus::Playing && p.hands.len() > 0 && p.hands[0].cards.len() == 2
        && hand_value(p.hands[0].cards) == 21 {
        PlayerView {
            hands: p.hands.update(0, HandView { status: HandStatus::Blackjack, ..p.hands[0] }),
            ..p
        }
    } else {
        p
    }
}

/// A hand still in play stands.
pub open spec fn stood(h: HandView) -> HandView {
    if h.status == HandStatus::Playing {
        HandView { status: HandStatus::Stood, ..h }
    } else {
        h
    }
}

pub open spec fn err(s: &str) -> MessageView {
    MessageView::Error { msg: s@ }
}

/// Connections of player `target`.
pub open spec fn belongs_to(target: u128) -> spec_fn((u128, u128)) -> bool {
    |c: (u128, u128)| c.1 == target
}

/// Connections of anyone but player `target`.
pub open spec fn belongs_to_other_than(target: u128) -> spec_fn((u128, u128)) -> bool {
    |c: (u128, u128)| c.1 != target
}

/// The notice a kicked connection gets.
pub open spec fn kicked_notice() -> spec_fn((u128, u128)) -> Outgoing {
    |c: (u128, u128)| Outgoing { target: Some(c.0), message: MessageView::Kicked }
}

/// Connections of the room's admins.
pub open spec fn admin_connection(s: GameState) -> spec_fn((u128, u128)) -> bool {
    |c: (u128, u128)| s.is_admin(c.1)
}

/// The request of a newcomer `id` called `name`, addressed to one connection.
pub open spec fn request_notice(id: u128, name: Seq<char>) -> spec_fn((u128, u128)) -> Outgoing {
    |c: (u128, u128)| Outgoing { target: Some(c.0), message: MessageView::PlayerRequest { id, name } }
}

/// A player as a new round of betting opens: no cards, and seated unless
/// still waiting for approval.
pub open spec fn reset_for_betting(p: PlayerView) -> PlayerView {
    PlayerView {
        hands: Seq::empty(),
        status: if p.status != PlayerStatus::PendingApproval {
            PlayerStatus::Sitting
        } else {
            p.status
        },
        ..p
    }
}

impl GameState {
    pub open spec fn with_deck(self, d: Seq<Card>) -> GameState {
        GameState { deck: d, ..self }
    }

    pub open spec fn with_outbox(self, o: Seq<Outgoing>) -> GameState {
        GameState { outbox: o, ..self }
    }

    pub open spec fn with_players(self, ps: Seq<PlayerView>) -> GameState {
        GameState { players: ps, ..self }
    }

    pub open spec fn with_player(self, i: int, p: PlayerView) -> GameState {
        GameState { players: self.players.update(i, p), ..self }
    }

    pub open spec fn with_dealer(self, d: Seq<Card>) -> GameState {
        GameState { dealer_hand: d, ..self }
    }

    pub open spec fn with_phase(self, ph: GamePhase) -> GameState {
        GameState { phase: ph, ..self }
    }

    pub open spec fn with_turn(self, t: usize) -> GameState {
        GameState { turn_index: t, ..self }
    }

    pub open spec fn emit(self, target: Option<u128>, m: MessageView) -> GameState {
        GameState { outbox: self.outbox.push(Outgoing { target, message: m }), ..self }
    }

    pub open spec fn send_to(self, conn: u128, m: MessageView) -> GameState {
        self.emit(Some(conn), m)
    }

    pub open spec fn broadcast(self, m: MessageView) -> GameState {
        self.emit(None, m)
    }

    /// Unicast to the first connection of a player, if they have one.
    pub open spec fn send_error(self, pid: u128, m: MessageView) -> GameState {
        match conn_of_player(self.connections, pid) {
            Some(k) => self.send_to(self.connections[k].0, m),
            None => self,
        }
    }

    /// What clients see of the room: during play only the dealer's first card;
    /// whose turn it is only during play; nobody's secret.
    pub open spec fn snapshot(self) -> MessageView {
        MessageView::GameStateSnapshot {
            phase: self.phase,
            dealer_hand: if self.phase == GamePhase::Playing && self.dealer_hand.len() >= 2 {
                self.dealer_hand.take(1)
            } else {
                self.dealer_hand
            },
            players: self.players.map_values(|p: PlayerView| without_secret(p)),
            deck_remaining: self.deck.len() as usize,
            current_turn_player_id: if self.phase == GamePhase::Playing && self.turn_index
                < self.players.len() {
                Some(self.players[self.turn_index as int].id)
            } else {
                None
            },
            settings: self.settings,
        }
    }

    pub open spec fn broadcast_state(self) -> GameState {
        self.broadcast(self.snapshot())
    }

    pub open spec fn is_admin(self, pid: u128) -> bool {
        match player_pos(self.players, pid) {
            Some(i) => self.players[i].is_admin,
            None => false,
        }
    }

    /// A new connection asks to join under `name`; `id` and `secret` are the
    /// fresh credentials the room makes up for it. When the newcomer has to
    /// wait for approval, every connection of an admin is told of the request.
    pub open spec fn join(self, conn: u128, name: Seq<char>, id: u128, secret: Seq<char>) -> GameState {
        if conn_pos(self.connections, conn) is Some {
            self
        } else if self.players.len() >= self.settings.max_players {
            self.send_to(conn, err("Game is full"))
        } else {
            let first = self.players.len() == 0;
            let status = if self.settings.approval_required && !first {
                PlayerStatus::PendingApproval
            } else {
                PlayerStatus::Spectating
            };
            let s1 = GameState { connections: self.connections.push((conn, id)), ..self };
            let s2 = if status == PlayerStatus::PendingApproval {
                GameState {
                    outbox: s1.outbox + self.connections.filter(admin_connection(self)).map_values(
                        request_notice(id, name),
                    ),
                    ..s1
                }
            } else {
                s1
            };
            let p = PlayerView {
                id,
                name,
                chips: self.settings.initial_chips,
                hands: Seq::empty(),
                active_hand_index: 0,
                status,
                is_admin: first,
                secret,
                is_connected: true,
            };
            s2.with_players(s2.players.push(p)).send_to(
                conn,
                MessageView::JoinedLobby {
                    game_id: self.game_id,
                    your_id: id,
                    secret,
                    is_admin: first,
                },
            ).broadcast_state()
        }
    }

    /// A new connection resumes the seat of player `pid`.
    pub open spec fn reconnect(self, conn: u128, pid: u128, secret: Seq<char>) -> GameState {
        if conn_pos(self.connections, conn) is Some {
            self
        } else {
            match player_pos(self.players, pid) {
                None => self.send_to(conn, err("Player not found")),
                Some(i) => {
                    let p = self.players[i];
                    if p.secret == secret {
                        GameState {
                            connections: self.connections.push((conn, pid)),
                            players: self.players.update(i, PlayerView { is_connected: true, ..p }),
                            ..self
                        }.send_to(
                            conn,
                            MessageView::JoinedLobby {
                                game_id: self.game_id,
                                your_id: pid,
                                secret: p.secret,
                                is_admin: p.is_admin,
                            },
                        ).broadcast_state()
                    } else {
                        self.send_to(conn, err("Invalid secret"))
                    }
                },
            }
        }
    }

    /// A connection closed. The player keeps their seat; they show as
    /// disconnected once they have no connection left.
    pub open spec fn disconnect(self, conn: u128) -> GameState {
        match conn_pos(self.connections, conn) {
            None => self,
            Some(k) => {
                let pid = self.connections[k].1;
                let cs = self.connections.remove(k);
                let still = conn_of_player(cs, pid) is Some;
                let ps = match player_pos(self.players, pid) {
                    Some(i) => if !still {
                        self.players.update(
                            i,
                            PlayerView { is_connected: false, ..self.players[i] },
                        )
                    } else {
                        self.players
                    },
                    None => self.players,
                };
                GameState { connections: cs, players: ps, ..self }.broadcast_state()
            },
        }
    }

    pub open spec fn approve(self, admin: u128, target: u128) -> GameState {
        if !self.is_admin(admin) {
            self.send_error(admin, err("Only admins can approve players."))
        } else {
            match player_pos(self.players, target) {
                Some(i) => if self.players[i].status == PlayerStatus::PendingApproval {
                    self.with_player(
                        i,
                        PlayerView { status: PlayerStatus::Spectating, ..self.players[i] },
                    ).broadcast_state()
                } else {
                    self
                },
                None => self,
            }
        }
    }

    /// Every connection of `target` is told it was kicked and dropped; the
    /// player loses their seat.
    pub open spec fn kick(self, admin: u128, target: u128) -> GameState {
        if !self.is_admin(admin) {
            self.send_error(admin, err("Only admins can kick players."))
        } else if admin == target {
            self.send_error(admin, err("You cannot kick yourself."))
        } else {
            let notices = self.connections.filter(belongs_to(target)).map_values(kicked_notice());
            let s1 = GameState {
                connections: self.connections.filter(belongs_to_other_than(target)),
                outbox: self.outbox + notices,
                ..self
            };
            match player_pos(self.players, target) {
                Some(i) => s1.with_players(s1.players.remove(i)).broadcast_state(),
                None => s1,
            }
        }
    }

    pub open spec fn update_settings(self, admin: u128, settings: GameSettings) -> GameState {
        if !self.is_admin(admin) {
            self.send_error(admin, err("Only admins can update settings."))
        } else {
            GameState { settings, ..self }.broadcast_state()
        }
    }

    pub open spec fn update_balance(self, admin: u128, target: u128, change: i32) -> GameState {
        if !self.is_admin(admin) {
            self.send_error(admin, err("Only admins can update player balances."))
        } else {
            match player_pos(self.players, target) {
                Some(i) => self.with_player(
                    i,
                    PlayerView {
                        chips: adjusted_balance(self.players[i].chips, change),
                        ..self.players[i]
                    },
                ).broadcast_state(),
                None => self,
            }
        }
    }

    pub open spec fn chat(self, pid: u128, msg: Seq<char>) -> GameState {
        if !self.settings.chat_enabled {
            self.send_error(pid, err("Chat is currently disabled."))
        } else {
            let from = match player_pos(self.players, pid) {
                Some(i) => self.players[i].name,
                None => "Unknown"@,
            };
            self.broadcast(MessageView::ChatBroadcast { from, msg })
        }
    }

    pub open spec fn ping(self, pid: u128) -> GameState {
        match conn_of_player(self.connections, pid) {
            Some(k) => self.send_to(self.connections[k].0, MessageView::Pong),
            None => self,
        }
    }

    /// Opens betting: the dealer's and everyone's cards are cleared and every
    /// approved player may bet.
    pub open spec fn start_betting(self) -> GameState {
        GameState {
            phase: GamePhase::Betting,
            dealer_hand: Seq::empty(),
            players: self.players.map_values(|p: PlayerView| reset_for_betting(p)),
            ..self
        }.broadcast_state()
    }

    pub open spec fn next_round(self, pid: u128) -> GameState {
        if !self.is_admin(pid) {
            self.send_error(pid, err("Only admins can start the next round."))
        } else if self.phase == GamePhase::Payout || self.phase == GamePhase::GameOver {
            self.start_betting()
        } else {
            self.send_error(pid, err("Next round can only be started from Payout or GameOver phase."))
        }
    }

    /// Pays every hand in the round against the dealer and ends the round.
    pub open spec fn resolve_bets(self) -> GameState {
        let dv = hand_value(self.dealer_hand);
        let dbj = dv == 21 && self.dealer_hand.len() == 2;
        GameState {
            players: self.players.map_values(|p: PlayerView| settle_player(p, dv, dbj)),
            phase: GamePhase::Payout,
            ..self
        }.broadcast_state()
    }

    pub open spec fn play_dealer(self, rs: Seq<Option<Card>>) -> Option<GameState> {
        match dealer_draws(self.dealer_hand, rs) {
            Some(d) => Some(
                GameState { phase: GamePhase::DealerTurn, dealer_hand: d, ..self }.resolve_bets(),
            ),
            None => None,
        }
    }

    /// The turn passes on: the turn index moves on by one (wrapping like any
    /// `usize`) and then on to the first player who can act; when nobody can,
    /// the dealer plays.
    pub open spec fn pass_turn(self, rs: Seq<Option<Card>>) -> Option<GameState> {
        let t = self.turn_index as int;
        let start: int = if t == usize::MAX {
            0
        } else {
            t + 1
        };
        match next_turn(self.players, start - 1) {
            Some(n) => done(self.with_turn(n as usize).broadcast_state(), rs),
            None => self.with_turn(
                if start >= self.players.len() {
                    start as usize
                } else {
                    self.players.len() as usize
                },
            ).play_dealer(rs),
        }
    }

    /// Moves play on: to the current player's next hand, else the turn
    /// passes on.
    pub open spec fn advance(self, rs: Seq<Option<Card>>) -> Option<GameState> {
        let t = self.turn_index as int;
        if t < self.players.len() && self.players[t].status == PlayerStatus::Playing
            && self.players[t].active_hand_index + 1 < self.players[t].hands.len() {
            done(
                self.with_player(
                    t,
                    PlayerView {
                        active_hand_index: (self.players[t].active_hand_index + 1) as usize,
                        ..self.players[t]
                    },
                ).broadcast_state(),
                rs,
            )
        } else {
            self.pass_turn(rs)
        }
    }

    /// Admin timeout: every hand the current player still plays stands, and
    /// the turn passes to the next player (the player's later hands are
    /// skipped too).
    pub open spec fn force_stand(self, rs: Seq<Option<Card>>) -> Option<GameState> {
        let t = self.turn_index as int;
        let s1 = if t < self.players.len() {
            self.with_player(
                t,
                PlayerView {
                    hands: self.players[t].hands.map_values(|h: HandView| stood(h)),
                    ..self.players[t]
                },
            )
        } else {
            self
        };
        s1.pass_turn(rs)
    }

    /// One round of dealing: a card to the first hand of each player in the
    /// round, in seat order, then one to the dealer. `r` holds one draw per
    /// player in the round and a last one for the dealer.
    pub open spec fn deal_round(self, r: Seq<Option<Card>>) -> GameState {
        let ps = self.players;
        GameState {
            players: Seq::new(
                ps.len(),
                |i: int|
                    if ps[i].status == PlayerStatus::Playing {
                        deal_to(ps[i], r[count_playing(ps.take(i)) as int])
                    } else {
                        ps[i]
                    },
            ),
            dealer_hand: match r[count_playing(ps) as int] {
                Some(c) => self.dealer_hand.push(c),
                None => self.dealer_hand,
            },
            ..self
        }
    }

    /// Starts the play: two rounds of dealing, naturals marked, and the turn
    /// to the first player who has to act (the dealer plays at once if
    /// nobody has to).
    pub open spec fn start_action(self, rs: Seq<Option<Card>>) -> Option<GameState> {
        let n = count_playing(self.players) as int;
        if n == 0 {
            done(
                self.with_turn(0).broadcast(err("Cannot start round with no active bets.")).with_phase(
                    GamePhase::Betting,
                ),
                rs,
            )
        } else if rs.len() < 2 * (n + 1) {
            None
        } else {
            let s0 = self.with_turn(0).with_phase(GamePhase::Playing);
            let s1 = s0.deal_round(rs.take(n + 1)).deal_round(
                rs.subrange(n + 1, 2 * (n + 1)),
            );
            let s2 = s1.with_players(s1.players.map_values(|p: PlayerView| mark_blackjack(p)));
            let rest = rs.skip(2 * (n + 1));
            match first_opener(s2.players) {
                Some(pos) => done(s2.with_turn(pos as usize).broadcast_state(), rest),
                None => s2.play_dealer(rest),
            }
        }
    }

    pub open spec fn start_game(self, pid: u128, rs: Seq<Option<Card>>) -> Option<GameState> {
        if !self.is_admin(pid) {
            done(self.send_error(pid, err("Only admins can start the game.")), rs)
        } else if self.phase == GamePhase::Lobby {
            done(self.start_betting(), rs)
        } else if self.phase == GamePhase::Betting {
            self.start_action(rs)
        } else if self.phase == GamePhase::Playing {
            self.force_stand(rs)
        } else {
            done(self.send_error(pid, err("Invalid phase for StartGame command.")), rs)
        }
    }

    /// A bet of `amount` by player `pid`; the round starts by itself once
    /// everyone connected and approved has bet.
    pub open spec fn bet(self, pid: u128, amount: u32, rs: Seq<Option<Card>>) -> Option<GameState> {
        if self.phase != GamePhase::Betting {
            done(self.send_error(pid, err("Bets can only be placed during the Betting phase.")), rs)
        } else {
            match player_pos(self.players, pid) {
                None => done(self, rs),
                Some(i) => {
                    let p = self.players[i];
                    if p.status == PlayerStatus::PendingApproval {
                        done(self.send_error(pid, err("You must be approved before playing.")), rs)
                    } else if p.status != PlayerStatus::Sitting && p.status
                        != PlayerStatus::Spectating {
                        done(self.send_error(pid, err("You cannot place a bet right now.")), rs)
                    } else if p.chips < amount {
                        done(self.send_error(pid, err("Not enough chips to place bet.")), rs)
                    } else {
                        let s1 = self.with_player(
                            i,
                            PlayerView {
                                chips: (p.chips - amount) as u32,
                                status: PlayerStatus::Playing,
                                hands: seq![
                                    HandView {
                                        cards: Seq::empty(),
                                        bet: amount,
                                        status: HandStatus::Playing,
                                    },
                                ],
                                active_hand_index: 0,
                                ..p
                            },
                        );
                        if all_ready(s1.players) {
                            s1.start_action(rs)
                        } else {
                            done(s1.broadcast_state(), rs)
                        }
                    }
                },
            }
        }
    }

    pub open spec fn hit(self, rs: Seq<Option<Card>>) -> Option<GameState> {
        let t = self.turn_index as int;
        let p = self.players[t];
        let a = p.active_hand_index as int;
        if rs.len() == 0 {
            None
        } else {
            match rs[0] {
                None => done(self.broadcast_state(), rs.drop_first()),
                Some(c) => {
                    let p1 = give_card(p, a, c);
                    if hand_value(p1.hands[a].cards) > 21 {
                        self.with_player(
                            t,
                            PlayerView {
                                hands: p1.hands.update(
                                    a,
                                    HandView { status: HandStatus::Busted, ..p1.hands[a] },
                                ),
                                ..p1
                            },
                        ).advance(rs.drop_first())
                    } else {
                        done(self.with_player(t, p1).broadcast_state(), rs.drop_first())
                    }
                },
            }
        }
    }

    pub open spec fn double_down(self, rs: Seq<Option<Card>>) -> Option<GameState> {
        let t = self.turn_index as int;
        let p = self.players[t];
        let a = p.active_hand_index as int;
        let h = p.hands[a];
        let s1 = self.with_player(t, PlayerView { chips: (p.chips - h.bet) as u32, ..p });
        if rs.len() == 0 {
            None
        } else {
            match rs[0] {
                None => done(s1.broadcast_state(), rs.drop_first()),
                Some(c) => {
                    let cards = h.cards.push(c);
                    let h1 = HandView {
                        cards,
                        bet: wrap32(h.bet + h.bet),
                        status: if hand_value(cards) > 21 {
                            HandStatus::Busted
                        } else {
                            HandStatus::Doubled
                        },
                    };
                    s1.with_player(
                        t,
                        PlayerView { hands: p.hands.update(a, h1), ..s1.players[t] },
                    ).advance(rs.drop_first())
                },
            }
        }
    }

    pub open spec fn split(self, rs: Seq<Option<Card>>) -> Option<GameState> {
        let t = self.turn_index as int;
        let p = self.players[t];
        let a = p.active_hand_index as int;
        let h = p.hands[a];
        if rs.len() != 2 {
            None
        } else {
            let kept = match rs[0] {
                Some(c) => h.cards.drop_last().push(c),
                None => h.cards.drop_last(),
            };
            let moved = match rs[1] {
                Some(c) => seq![h.cards.last(), c],
                None => seq![h.cards.last()],
            };
            let hands = p.hands.update(a, HandView { cards: kept, ..h }).insert(
                a + 1,
                HandView { cards: moved, bet: h.bet, status: HandStatus::Playing },
            );
            Some(
                self.with_player(
                    t,
                    PlayerView { chips: (p.chips - h.bet) as u32, hands, ..p },
                ).broadcast_state(),
            )
        }
    }

    /// A move by player `pid`, who must hold the turn.
    pub open spec fn action(self, pid: u128, action: ActionType, rs: Seq<Option<Card>>) -> Option<
        GameState,
    > {
        let t = self.turn_index as int;
        if self.phase != GamePhase::Playing {
            done(
                self.send_error(pid, err("Actions can only be performed during the Playing phase.")),
                rs,
            )
        } else if !(t < self.players.len() && self.players[t].id == pid) {
            done(self.send_error(pid, err("It is not your turn.")), rs)
        } else {
            let p = self.players[t];
            let a = p.active_hand_index as int;
            if a >= p.hands.len() {
                done(self.broadcast_state(), rs)
            } else {
                let h = p.hands[a];
                match action {
                    ActionType::Hit => self.hit(rs),
                    ActionType::Stand => self.with_player(
                        t,
                        PlayerView {
                            hands: p.hands.update(a, HandView { status: HandStatus::Stood, ..h }),
                            ..p
                        },
                    ).advance(rs),
                    ActionType::Double => if p.chips >= h.bet {
                        self.double_down(rs)
                    } else {
                        done(
                            self.send_error(pid, err("Not enough chips to double down.")).broadcast_state(),
                            rs,
                        )
                    },
                    ActionType::Split => if h.cards.len() == 2 && p.chips >= h.bet && h.cards[0].rank
                        == h.cards[1].rank {
                        self.split(rs)
                    } else {
                        done(
                            self.send_error(
                                pid,
                                err("Cannot split: need pair and enough chips."),
                            ).broadcast_state(),
                            rs,
                        )
                    },
                }
            }
        }
    }

    /// A message from a connection that has a seat, on behalf of player `pid`.
    pub open spec fn game_message(self, pid: u128, msg: ClientMessage, rs: Seq<Option<Card>>) -> Option<
        GameState,
    > {
        match msg {
            ClientMessage::PlaceBet { amount } => self.bet(pid, amount, rs),
            ClientMessage::GameAction { action_type } => self.action(pid, action_type, rs),
            ClientMessage::ApprovePlayer { player_id } => done(self.approve(pid, player_id), rs),
            ClientMessage::KickPlayer { player_id } => done(self.kick(pid, player_id), rs),
            ClientMessage::UpdateSettings { settings } => done(
                self.update_settings(pid, settings),
                rs,
            ),
            ClientMessage::AdminUpdateBalance { target_id, change_chips } => done(
                self.update_balance(pid, target_id, change_chips),
                rs,
            ),
            ClientMessage::Chat { message } => done(self.chat(pid, message@), rs),
            ClientMessage::StartGame => self.start_game(pid, rs),
            ClientMessage::NextRound => done(self.next_round(pid), rs),
            ClientMessage::Ping => done(self.ping(pid), rs),
            _ => done(self, rs),
        }
    }

    /// One message from connection `conn`. `id` and `secret_id` are the
    /// fresh UUIDs a join makes up; `rs` the cards drawn.
    pub open spec fn step(
        self,
        conn: u128,
        msg: ClientMessage,
        rs: Seq<Option<Card>>,
        id: u128,
        secret_id: u128,
    ) -> Option<GameState> {
        match msg {
            ClientMessage::JoinGame { username } => done(
                self.join(conn, username@, id, uuid_text(secret_id)),
                rs,
            ),
            ClientMessage::Reconnect { player_id, secret } => done(
                self.reconnect(conn, player_id, secret@),
                rs,
            ),
            ClientMessage::Disconnect => done(self.disconnect(conn), rs),
            _ => match conn_pos(self.connections, conn) {
                Some(k) => self.game_message(self.connections[k].1, msg, rs),
                None => done(self, rs),
            },
        }
    }
}

/// `post` is a state a room can be in after handling `msg` from connection
/// `conn` in state `pre`: for some fresh version-4 UUIDs and some cards drawn
/// from the shoe, the rules lead from `pre` to `post`.
pub open spec fn step_rel(pre: GameState, conn: u128, msg: ClientMessage, post: GameState) -> bool {
    exists|rs: Seq<Option<Card>>, id: u128, secret_id: u128|
        #[trigger] pre.with_deck(post.deck).step(conn, msg, rs, id, secret_id) == Some(post)
            && draws_rel(pre.settings.deck_count as nat, pre.deck, rs, post.deck)
            && is_v4_uuid(id) && is_v4_uuid(secret_id)
}

} // verus!

verus! {

// ---------------------------------------------------------------------------
// Facts about the rules used by the proofs of the room

/// Draws that are still being made by the dealer: every card so far was taken
/// while the hand was under 17. Gives the hand after them.
pub open spec fn dealer_prefix(h: Seq<Card>, rs: Seq<Option<Card>>) -> Option<Seq<Card>>
    decreases rs.len(),
{
    if rs.len() == 0 {
        Some(h)
    } else if hand_value(h) >= 17 {
        None
    } else {
        match rs[0] {
            Some(c) => dealer_prefix(h.push(c), rs.drop_first()),
            None => None,
        }
    }
}

pub(crate) proof fn lemma_dealer_extend(
    h: Seq<Card>,
    rs: Seq<Option<Card>>,
    h2: Seq<Card>,
    rest: Seq<Option<Card>>,
)
    requires
        dealer_prefix(h, rs) == Some(h2),
    ensures
        dealer_draws(h, rs + rest) == dealer_draws(h2, rest),
    decreases rs.len(),
{
    if rs.len() > 0 {
        let c = rs[0]->Some_0;
        assert((rs + rest).drop_first() =~= rs.drop_first() + rest);
        assert((rs + rest)[0] == rs[0]);
        lemma_dealer_extend(h.push(c), rs.drop_first(), h2, rest);
    } else {
        assert(rs + rest =~= rest);
    }
}

pub(crate) proof fn lemma_dealer_prefix_push(h: Seq<Card>, rs: Seq<Option<Card>>, h2: Seq<Card>, c: Card)
    requires
        dealer_prefix(h, rs) == Some(h2),
        hand_value(h2) < 17,
    ensures
        dealer_prefix(h, rs.push(Some(c))) == Some(h2.push(c)),
    decreases rs.len(),
{
    if rs.len() > 0 {
        let c0 = rs[0]->Some_0;
        assert(rs.push(Some(c)).drop_first() =~= rs.drop_first().push(Some(c)));
        assert(rs.push(Some(c))[0] == rs[0]);
        lemma_dealer_prefix_push(h.push(c0), rs.drop_first(), h2, c);
    } else {
        let s = rs.push(Some(c));
        assert(s.drop_first() =~= Seq::<Option<Card>>::empty());
        assert(s[0] == Some(c));
        assert(h == h2);
        assert(dealer_prefix(h.push(c), s.drop_first()) == Some(h.push(c)));
    }
}

/// Counting players in the round only looks at their statuses.
pub(crate) proof fn lemma_count_playing_same_status(a: Seq<PlayerView>, b: Seq<PlayerView>)
    requires
        a.len() == b.len(),
        forall|j: int| 0 <= j < a.len() ==> a[j].status == b[j].status,
    ensures
        count_playing(a) == count_playing(b),
    decreases a.len(),
{
    if a.len() > 0 {
        lemma_count_playing_same_status(a.drop_last(), b.drop_last());
    }
}

pub(crate) proof fn lemma_count_playing_take(ps: Seq<PlayerView>, i: int)
    requires
        0 <= i < ps.len(),
    ensures
        count_playing(ps.take(i + 1)) == count_playing(ps.take(i)) + (if ps[i].status
            == PlayerStatus::Playing {
            1nat
        } else {
            0nat
        }),
{
    assert(ps.take(i + 1).drop_last() =~= ps.take(i));
}

pub(crate) proof fn lemma_count_connected_take(ps: Seq<PlayerView>, i: int)
    requires
        0 <= i < ps.len(),
    ensures
        count_connected(ps.take(i + 1)) == count_connected(ps.take(i)) + (if ps[i].is_connected {
            1nat
        } else {
            0nat
        }),
{
    assert(ps.take(i + 1).drop_last() =~= ps.take(i));
}

pub(crate) proof fn lemma_count_playing_prefix_mono(ps: Seq<PlayerView>, j: int, i: int)
    requires
        0 <= j < i <= ps.len(),
    ensures
        count_playing(ps.take(j)) < count_playing(ps.take(i)) || (count_playing(ps.take(j))
            == count_playing(ps.take(i)) && ps[j].status != PlayerStatus::Playing),
        ps[j].status == PlayerStatus::Playing ==> count_playing(ps.take(j)) < count_playing(
            ps.take(i),
        ),
    decreases i - j,
{
    lemma_count_playing_take(ps, j);
    if j + 1 < i {
        lemma_count_playing_prefix_mono(ps, j + 1, i);
        lemma_count_playing_le(ps, j + 1, i);
    }
}

pub(crate) proof fn lemma_count_playing_le(ps: Seq<PlayerView>, j: int, i: int)
    requires
        0 <= j <= i <= ps.len(),
    ensures
        count_playing(ps.take(j)) <= count_playing(ps.take(i)),
    decreases i - j,
{
    if j < i {
        lemma_count_playing_take(ps, i - 1);
        lemma_count_playing_le(ps, j, i - 1);
    }
}

/// How `start_action` reads its draws once some player is in the round.
pub(crate) proof fn lemma_start_action_split(
    pre: GameState,
    r1: Seq<Option<Card>>,
    r2: Seq<Option<Card>>,
    r3: Seq<Option<Card>>,
)
    requires
        count_playing(pre.players) > 0,
        r1.len() == count_playing(pre.players) + 1,
        r2.len() == count_playing(pre.players) + 1,
    ensures
        ({
            let s2 = pre.with_turn(0).with_phase(GamePhase::Playing).deal_round(r1).deal_round(r2);
            let s3 = s2.with_players(s2.players.map_values(|p: PlayerView| mark_blackjack(p)));
            pre.start_action(r1 + r2 + r3) == match first_opener(s3.players) {
                Some(pos) => done(s3.with_turn(pos as usize).broadcast_state(), r3),
                None => s3.play_dealer(r3),
            }
        }),
{
    let n = count_playing(pre.players) as int;
    let all = r1 + r2 + r3;
    assert(all.take(n + 1) =~= r1);
    assert(all.subrange(n + 1, 2 * (n + 1)) =~= r2);
    assert(all.skip(2 * (n + 1)) =~= r3);
}

/// The players after the first `i` seats have been dealt to, with `rs` the
/// draws made so far.
pub closed spec fn dealt_prefix(ps: Seq<PlayerView>, rs: Seq<Option<Card>>, i: int) -> Seq<PlayerView> {
    Seq::new(
        ps.len(),
        |j: int|
            if j < i && ps[j].status == PlayerStatus::Playing {
                deal_to(ps[j], rs[count_playing(ps.take(j)) as int])
            } else {
                ps[j]
            },
    )
}

pub(crate) proof fn lemma_dealt_prefix_start(ps: Seq<PlayerView>)
    ensures
        dealt_prefix(ps, Seq::empty(), 0) == ps,
{
    assert(dealt_prefix(ps, Seq::empty(), 0) =~= ps);
}

/// Dealing to seat `i`: a player in the round gets the next draw `r`.
pub(crate) proof fn lemma_dealt_prefix_step(
    ps: Seq<PlayerView>,
    rs: Seq<Option<Card>>,
    i: int,
    r: Option<Card>,
)
    requires
        0 <= i < ps.len(),
        rs.len() == count_playing(ps.take(i)),
    ensures
        ps[i].status == PlayerStatus::Playing ==> dealt_prefix(ps, rs.push(r), i + 1) == dealt_prefix(
            ps,
            rs,
            i,
        ).update(i, deal_to(ps[i], r)),
        ps[i].status != PlayerStatus::Playing ==> dealt_prefix(ps, rs, i + 1) == dealt_prefix(
            ps,
            rs,
            i,
        ),
        dealt_prefix(ps, rs, i).len() == ps.len(),
        dealt_prefix(ps, rs, i)[i] == ps[i],
{
    if ps[i].status == PlayerStatus::Playing {
        let rs1 = rs.push(r);
        assert forall|j: int|
            0 <= j < i && ps[j].status == PlayerStatus::Playing implies rs1[count_playing(
                ps.take(j),
            ) as int] == rs[count_playing(ps.take(j)) as int] by {
            lemma_count_playing_prefix_mono(ps, j, i);
        }
        assert(dealt_prefix(ps, rs1, i + 1) =~= dealt_prefix(ps, rs, i).update(i, deal_to(ps[i], r)));
    } else {
        assert(dealt_prefix(ps, rs, i + 1) =~= dealt_prefix(ps, rs, i));
    }
}

/// Once every seat is dealt to, the dealer's draw completes the round.
pub(crate) proof fn lemma_dealt_prefix_round(
    s: GameState,
    rs: Seq<Option<Card>>,
    r: Option<Card>,
)
    requires
        rs.len() == count_playing(s.players),
    ensures
        s.deal_round(rs.push(r)) == s.with_players(dealt_prefix(s.players, rs, s.players.len() as int)).with_dealer(
            match r {
                Some(c) => s.dealer_hand.push(c),
                None => s.dealer_hand,
            },
        ),
{
    let ps = s.players;
    let rs1 = rs.push(r);
    assert(ps.take(ps.len() as int) =~= ps);
    assert forall|j: int|
        0 <= j < ps.len() && ps[j].status == PlayerStatus::Playing implies rs1[count_playing(
            ps.take(j),
        ) as int] == rs[count_playing(ps.take(j)) as int] by {
        lemma_count_playing_prefix_mono(ps, j, ps.len() as int);
    }
    assert(s.deal_round(rs1) =~= s.with_players(dealt_prefix(ps, rs, ps.len() as int)).with_dealer(
        match r {
            Some(c) => s.dealer_hand.push(c),
            None => s.dealer_hand,
        },
    ));
}

pub(crate) proof fn lemma_count_playing_bound(ps: Seq<PlayerView>)
    ensures
        count_playing(ps) <= ps.len(),
    decreases ps.len(),
{
    if ps.len() > 0 {
        lemma_count_playing_bound(ps.drop_last());
    }
}

} // verus!
