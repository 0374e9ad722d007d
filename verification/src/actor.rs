//! A game room: its state and how it handles each client message.
//!
//! The room decides; the connection layer around it delivers what the room
//! sends, feeds it one message at a time and closes idle rooms.
use vstd::prelude::*;
use vstd::arithmetic::div_mod::{lemma_div_denominator, lemma_fundamental_div_mod};
use crate::cards::{Card, hand_value, hand_value_of, lemma_hand_value_at_least_len};
use crate::chance::{shuffle_cards, thread_rng};
use crate::deck::{draws_rel, full_deck, lemma_draws_compose, lemma_draws_none, lemma_full_deck_len};
use crate::ids::{is_v4_uuid, new_uuid, uuid_text, uuid_to_string};
use crate::messages::{ActionType, BroadcastMessage, ClientMessage, ServerMessage, outgoing_view};
use crate::model::{
    GameState, round_to_f32, two_to, dropped_bits, adjusted_balance, admin_connection, request_notice, belongs_to, belongs_to_other_than, kicked_notice, reset_for_betting, all_ready, blackjack_return, can_take_turn, conn_of_player, conn_pos,
    count_connected, count_playing, deal_to, dealer_draws, done, err, first_opener, give_card,
    hand_outcome, hand_return, is_first_conn, is_first_conn_of, is_first_opener, is_first_player,
    is_next_turn, mark_blackjack, next_turn, opens_round, paid_chips, player_pos, settle_player,
    step_rel, stood, wrap32, dealer_prefix, lemma_dealer_extend, lemma_dealer_prefix_push,
    lemma_count_playing_same_status, lemma_count_playing_take, lemma_count_connected_take,
    lemma_count_playing_bound, lemma_count_playing_prefix_mono, lemma_start_action_split,
    dealt_prefix, lemma_dealt_prefix_start, lemma_dealt_prefix_step, lemma_dealt_prefix_round,
};
use crate::types::{
    GamePhase, GameSettings, Hand, HandStatus, HandView, Player, PlayerStatus, PlayerView,
    copy_cards, public_players, hands_view, players_view,
};

verus! {

/// The state of one game room.
pub struct GameActor {
    game_id: String,
    settings: GameSettings,
    phase: GamePhase,
    deck: Vec<Card>,
    players: Vec<Player>,
    dealer_hand: Vec<Card>,
    turn_index: usize,
    /// (connection id, player id), in the order the connections came.
    connections: Vec<(u128, u128)>,
    outbox: Vec<BroadcastMessage>,
}

impl View for GameActor {
    type V = GameState;

    closed spec fn view(&self) -> GameState {
        GameState {
            game_id: self.game_id@,
            settings: self.settings,
            phase: self.phase,
            deck: self.deck@,
            players: players_view(self.players@),
            dealer_hand: self.dealer_hand@,
            turn_index: self.turn_index,
            connections: self.connections@,
            outbox: outgoing_view(self.outbox@),
        }
    }
}

/// The uniqueness of "first" positions: the position found is the one chosen.
proof fn lemma_player_pos(ps: Seq<PlayerView>, id: u128, i: int)
    requires
        is_first_player(ps, id, i),
    ensures
        player_pos(ps, id) == Some(i),
{
    let j = choose|j: int| is_first_player(ps, id, j);
    assert(is_first_player(ps, id, j));
    if j < i {
        assert(ps[j].id != id);
    } else if j > i {
        assert(ps[i].id != id);
    }
}

proof fn lemma_conn_pos(cs: Seq<(u128, u128)>, conn: u128, k: int)
    requires
        is_first_conn(cs, conn, k),
    ensures
        conn_pos(cs, conn) == Some(k),
{
    let j = choose|j: int| is_first_conn(cs, conn, j);
    assert(is_first_conn(cs, conn, j));
    if j < k {
        assert(cs[j].0 != conn);
    } else if j > k {
        assert(cs[k].0 != conn);
    }
}

proof fn lemma_conn_of_player(cs: Seq<(u128, u128)>, pid: u128, k: int)
    requires
        is_first_conn_of(cs, pid, k),
    ensures
        conn_of_player(cs, pid) == Some(k),
{
    let j = choose|j: int| is_first_conn_of(cs, pid, j);
    assert(is_first_conn_of(cs, pid, j));
    if j < k {
        assert(cs[j].1 != pid);
    } else if j > k {
        assert(cs[k].1 != pid);
    }
}

proof fn lemma_next_turn(ps: Seq<PlayerView>, t: int, n: int)
    requires
        is_next_turn(ps, t, n),
    ensures
        next_turn(ps, t) == Some(n),
{
    let j = choose|j: int| is_next_turn(ps, t, j);
    assert(is_next_turn(ps, t, j));
    if j < n {
        assert(!can_take_turn(ps[j]));
    } else if j > n {
        assert(!can_take_turn(ps[n]));
    }
}

proof fn lemma_first_opener(ps: Seq<PlayerView>, i: int)
    requires
        is_first_opener(ps, i),
    ensures
        first_opener(ps) == Some(i),
{
    let j = choose|j: int| is_first_opener(ps, j);
    assert(is_first_opener(ps, j));
    if j < i {
        assert(!opens_round(ps[j]));
    } else if j > i {
        assert(!opens_round(ps[i]));
    }
}

/// Filtering a longer prefix adds the next element when it passes.
proof fn lemma_filter_take<A>(s: Seq<A>, i: int, p: spec_fn(A) -> bool)
    requires
        0 <= i < s.len(),
    ensures
        s.take(i + 1).filter(p) == (if p(s[i]) {
            s.take(i).filter(p).push(s[i])
        } else {
            s.take(i).filter(p)
        }),
{
    reveal(Seq::filter);
    let t = s.take(i + 1);
    assert(t.drop_last() =~= s.take(i));
    assert(t.last() == s[i]);
}

/// Changing one hand changes only its view.
proof fn lemma_hands_view_update(before: Seq<Hand>, after: Seq<Hand>, i: int)
    requires
        before.len() == after.len(),
        0 <= i < before.len(),
        forall|m: int| 0 <= m < before.len() && m != i ==> after[m] == before[m],
    ensures
        hands_view(after) == hands_view(before).update(i, after[i]@),
{
    assert(hands_view(after) =~= hands_view(before).update(i, after[i]@));
}

/// Changing one player changes only their view.
proof fn lemma_players_view_update(before: Seq<Player>, after: Seq<Player>, i: int)
    requires
        before.len() == after.len(),
        0 <= i < before.len(),
        forall|m: int| 0 <= m < before.len() && m != i ==> after[m] == before[m],
    ensures
        players_view(after) == players_view(before).update(i, after[i]@),
{
    assert(players_view(after) =~= players_view(before).update(i, after[i]@));
}

fn player_can_take_turn(p: &Player) -> (b: bool)
    ensures
        b == can_take_turn(p@),
{
    p.status == PlayerStatus::Playing && p.is_connected && p.active_hand_index < p.hands.len()
        && p.hands[p.active_hand_index].status == HandStatus::Playing
}

/// `n` rounded as a 32-bit float holds it: to 24 significant bits, to the
/// nearest, ties to even.
fn round_to_f32_bits(n: u64) -> (r: u64)
    requires
        n < 0x10_0000_0000,
    ensures
        r == round_to_f32(n as nat),
        r <= 2 * n,
{
    let mut m = n;
    let mut p: u64 = 1;
    let ghost mut s: nat = 0;
    while m >= 0x100_0000
        invariant
            n < 0x10_0000_0000,
            p >= 1,
            p == two_to(s),
            s == 0 <==> p == 1,
            p > 1 ==> m >= 0x80_0000,
            m == n / p,
            dropped_bits(n as nat) == s + dropped_bits(m as nat),
        decreases m,
    {
        proof {
            lemma_fundamental_div_mod(n as int, p as int);
            assert(p * m <= n) by (nonlinear_arith)
                requires
                    n == p * (n / p) + n % p,
                    n % p >= 0,
                    m == n / p,
            ;
            assert(p * 0x100_0000 <= p * m) by (nonlinear_arith)
                requires
                    m >= 0x100_0000,
                    p >= 1,
            ;
            lemma_div_denominator(n as int, p as int, 2);
        }
        m = m / 2;
        p = p * 2;
        proof {
            s = s + 1;
        }
    }
    if p == 1 {
        assert(s == 0);
        return n;
    }
    let q = m;
    let r = n % p;
    let half = p / 2;
    let q1 = if r > half || (r == half && q % 2 == 1) {
        q + 1
    } else {
        q
    };
    proof {
        lemma_fundamental_div_mod(n as int, p as int);
        assert(q1 * p <= n + p) by (nonlinear_arith)
            requires
                n == p * q + r,
                r >= 0,
                q1 <= q + 1,
        ;
        assert(p <= n) by (nonlinear_arith)
            requires
                n == p * q + r,
                r >= 0,
                q >= 1,
                p >= 1,
        ;
    }
    q1 * p
}

/// What a hand returns at payout against a dealer total `dv`, and how it ends.
fn hand_payout(hand: &Hand, dv: u128, dbj: bool) -> (r: (u32, HandStatus))
    ensures
        r.0 == hand_return(hand@, dv as nat, dbj),
        r.1 == hand_outcome(hand@, dv as nat, dbj),
{
    let hv = hand_value_of(&hand.cards);
    if hand.status == HandStatus::Busted {
        (0, HandStatus::Lost)
    } else if hand.status == HandStatus::Blackjack {
        if dbj {
            (hand.bet, HandStatus::Push)
        } else {
            let f = round_to_f32_bits(hand.bet as u64);
            let twice = round_to_f32_bits(5 * f);
            let paid: u32 = if twice / 2 > 0xFFFF_FFFF {
                0xFFFF_FFFF
            } else {
                (twice / 2) as u32
            };
            (paid, HandStatus::Won)
        }
    } else if dbj {
        (0, HandStatus::Lost)
    } else if dv > 21 || hv > dv {
        (((hand.bet as u64 * 2) % 0x1_0000_0000) as u32, HandStatus::Won)
    } else if hv == dv {
        (hand.bet, HandStatus::Push)
    } else {
        (0, HandStatus::Lost)
    }
}

/// A version-4 UUID, standing for the fresh ids of a step that makes none.
spec fn some_v4_uuid() -> u128 {
    0x4000_8000_0000_0000_0000u128
}

proof fn lemma_some_v4_uuid()
    ensures
        is_v4_uuid(some_v4_uuid()),
{
    assert(0x4000_8000_0000_0000_0000u128 & 0xF000_C000_0000_0000_0000u128
        == 0x4000_8000_0000_0000_0000u128) by (bit_vector);
}

/// An error message with the given text.
fn error_message(text: &str) -> (m: ServerMessage)
    ensures
        m@ == err(text),
{
    ServerMessage::Error { msg: text.to_owned() }
}

impl GameActor {
    /// A new room in the Lobby phase with a freshly shuffled shoe.
    pub fn new(game_id: String, settings: GameSettings) -> (actor: GameActor)
        ensures
            actor@.game_id == game_id@,
            actor@.settings == settings,
            actor@.phase == GamePhase::Lobby,
            actor@.deck.to_multiset() == full_deck(settings.deck_count as nat).to_multiset(),
            actor@.players.len() == 0,
            actor@.dealer_hand.len() == 0,
            actor@.turn_index == 0,
            actor@.connections.len() == 0,
            actor@.outbox.len() == 0,
    {
        let mut actor = GameActor {
            game_id,
            settings,
            phase: GamePhase::Lobby,
            deck: Vec::new(),
            players: Vec::new(),
            dealer_hand: Vec::new(),
            turn_index: 0,
            connections: Vec::new(),
            outbox: Vec::new(),
        };
        actor.init_deck();
        proof {
            assert(actor@.players =~= Seq::<PlayerView>::empty());
            assert(actor@.outbox =~= Seq::<crate::messages::Outgoing>::empty());
        }
        actor
    }

    /// Rebuilds the shoe from `deck_count` decks and shuffles it.
    fn init_deck(&mut self)
        ensures
            final(self)@ == old(self)@.with_deck(final(self)@.deck),
            final(self)@.deck.to_multiset() == full_deck(old(self)@.settings.deck_count as nat).to_multiset(),
    {
        let mut deck: Vec<Card> = Vec::new();
        let count = self.settings.deck_count;
        let mut i: usize = 0;
        while i < count
            invariant
                i <= count,
                deck@ == full_deck(i as nat),
            decreases count - i,
        {
            let mut fresh = Card::new_deck();
            deck.append(&mut fresh);
            i = i + 1;
        }
        let mut rng = thread_rng();
        shuffle_cards(&mut deck, &mut rng);
        self.deck = deck;
    }

    /// Takes the next card from the shoe, rebuilding it first when it is
    /// empty. Nothing comes out only when the room uses no decks at all.
    fn draw_card(&mut self) -> (r: Option<Card>)
        ensures
            final(self)@ == old(self)@.with_deck(final(self)@.deck),
            draws_rel(old(self)@.settings.deck_count as nat, old(self)@.deck, seq![r], final(self)@.deck),
    {
        let ghost before = self.deck@;
        if self.deck.len() == 0 {
            self.init_deck();
        }
        let ghost mid = self.deck@;
        let r = self.deck.pop();
        proof {
            broadcast use vstd::seq_lib::group_to_multiset_ensures;

            let k = self.settings.deck_count as nat;
            lemma_full_deck_len(k);
            let rs = seq![r];
            assert(rs.drop_last() =~= Seq::<Option<Card>>::empty());
            assert(rs.last() == r);
            if before.len() == 0 {
                assert(mid.to_multiset().len() == full_deck(k).to_multiset().len());
                assert(mid.len() == 52 * k);
            }
            match r {
                Some(c) => {
                    assert(mid =~= self.deck@.push(c));
                    if before.len() > 0 {
                        assert(draws_rel(k, before, rs.drop_last(), self.deck@.push(c)));
                    } else {
                        assert(before =~= Seq::<Card>::empty());
                        assert(draws_rel(k, before, rs.drop_last(), Seq::empty()));
                    }
                    assert(draws_rel(k, before, rs, self.deck@));
                },
                None => {
                    assert(self.deck@ =~= before);
                    assert(draws_rel(k, before, rs.drop_last(), self.deck@));
                    assert(draws_rel(k, before, rs, self.deck@));
                },
            }
        }
        r
    }

    /// Position of the first player with this id.
    fn find_player(&self, id: u128) -> (r: Option<usize>)
        ensures
            match r {
                Some(i) => player_pos(self@.players, id) == Some(i as int),
                None => player_pos(self@.players, id) is None,
            },
    {
        let mut i: usize = 0;
        while i < self.players.len()
            invariant
                i <= self.players@.len(),
                forall|j: int| 0 <= j < i ==> self@.players[j].id != id,
            decreases self.players@.len() - i,
        {
            if self.players[i].id == id {
                proof {
                    lemma_player_pos(self@.players, id, i as int);
                }
                return Some(i);
            }
            i = i + 1;
        }
        None
    }

    /// Position of the entry of this connection.
    fn find_connection(&self, conn: u128) -> (r: Option<usize>)
        ensures
            match r {
                Some(k) => conn_pos(self@.connections, conn) == Some(k as int),
                None => conn_pos(self@.connections, conn) is None,
            },
    {
        let mut k: usize = 0;
        while k < self.connections.len()
            invariant
                k <= self.connections@.len(),
                forall|j: int| 0 <= j < k ==> self@.connections[j].0 != conn,
            decreases self.connections@.len() - k,
        {
            if self.connections[k].0 == conn {
                proof {
                    lemma_conn_pos(self@.connections, conn, k as int);
                }
                return Some(k);
            }
            k = k + 1;
        }
        None
    }

    /// Position of the first connection of this player.
    fn find_connection_of(&self, pid: u128) -> (r: Option<usize>)
        ensures
            match r {
                Some(k) => conn_of_player(self@.connections, pid) == Some(k as int),
                None => conn_of_player(self@.connections, pid) is None,
            },
    {
        let mut k: usize = 0;
        while k < self.connections.len()
            invariant
                k <= self.connections@.len(),
                forall|j: int| 0 <= j < k ==> self@.connections[j].1 != pid,
            decreases self.connections@.len() - k,
        {
            if self.connections[k].1 == pid {
                proof {
                    lemma_conn_of_player(self@.connections, pid, k as int);
                }
                return Some(k);
            }
            k = k + 1;
        }
        None
    }

    fn emit(&mut self, target: Option<u128>, m: ServerMessage)
        ensures
            final(self)@ == old(self)@.emit(target, m@),
    {
        let ghost before = self.outbox@;
        let b = BroadcastMessage { target, message: m };
        self.outbox.push(b);
        proof {
            assert(outgoing_view(self.outbox@) =~= outgoing_view(before).push(b@));
        }
    }

    fn send_error(&mut self, pid: u128, text: &str)
        ensures
            final(self)@ == old(self)@.send_error(pid, err(text)),
    {
        if let Some(k) = self.find_connection_of(pid) {
            let conn = self.connections[k].0;
            self.emit(Some(conn), error_message(text));
        }
    }

    fn is_admin(&self, pid: u128) -> (b: bool)
        ensures
            b == self@.is_admin(pid),
    {
        match self.find_player(pid) {
            Some(i) => self.players[i].is_admin,
            None => false,
        }
    }

    /// What clients see of the room.
    fn snapshot_message(&self) -> (m: ServerMessage)
        ensures
            m@ == self@.snapshot(),
    {
        let mut dealer = copy_cards(&self.dealer_hand);
        if self.phase == GamePhase::Playing && dealer.len() >= 2 {
            dealer.truncate(1);
        }
        let current = if self.phase == GamePhase::Playing && self.turn_index < self.players.len() {
            Some(self.players[self.turn_index].id)
        } else {
            None
        };
        ServerMessage::GameStateSnapshot {
            phase: self.phase,
            dealer_hand: dealer,
            players: public_players(&self.players),
            deck_remaining: self.deck.len(),
            current_turn_player_id: current,
            settings: self.settings,
        }
    }

    fn broadcast_state(&mut self)
        ensures
            final(self)@ == old(self)@.broadcast_state(),
    {
        let m = self.snapshot_message();
        self.emit(None, m);
    }

    /// Tells every connection of an admin that `id`, called `name`, waits for
    /// approval.
    fn notify_admins(&mut self, id: u128, name: &String)
        ensures
            final(self)@ == old(self)@.with_outbox(
                old(self)@.outbox + old(self)@.connections.filter(admin_connection(old(self)@)).map_values(
                    request_notice(id, name@),
                ),
            ),
    {
        let ghost s0 = self@;
        let ghost cs = s0.connections;
        let ghost admins = admin_connection(s0);
        let ghost notice = request_notice(id, name@);
        let mut i: usize = 0;
        while i < self.connections.len()
            invariant
                i <= self.connections@.len(),
                self.connections@ == cs,
                cs == s0.connections,
                admins == admin_connection(s0),
                notice == request_notice(id, name@),
                self@ == s0.with_outbox(s0.outbox + cs.take(i as int).filter(admins).map_values(notice)),
            decreases self.connections@.len() - i,
        {
            let c = self.connections[i];
            proof {
                assert(cs.take(i + 1).drop_last() =~= cs.take(i as int));
                assert(cs.take(i + 1).last() == c);
                lemma_filter_take(cs, i as int, admins);
                assert(self@.players == s0.players);
            }
            if self.is_admin(c.1) {
                self.emit(Some(c.0), ServerMessage::PlayerRequest { id, name: name.clone() });
                proof {
                    assert(admins(c));
                    assert(cs.take(i + 1).filter(admins) == cs.take(i as int).filter(admins).push(c));
                    assert(cs.take(i + 1).filter(admins).map_values(notice) =~= cs.take(i as int).filter(
                        admins,
                    ).map_values(notice).push(notice(c)));
                    assert(self@ =~= s0.with_outbox(s0.outbox + cs.take(i + 1).filter(admins).map_values(notice)));
                }
            } else {
                proof {
                    assert(!admins(c));
                }
            }
            i = i + 1;
        }
        proof {
            assert(cs.take(cs.len() as int) =~= cs);
        }
    }

    /// A new connection asks for a seat.
    fn handle_join(&mut self, conn: u128, username: String) -> (fresh: (Ghost<u128>, Ghost<u128>))
        ensures
            final(self)@ == old(self)@.join(conn, username@, fresh.0@, uuid_text(fresh.1@)),
            is_v4_uuid(fresh.0@),
            is_v4_uuid(fresh.1@),
    {
        proof {
            lemma_some_v4_uuid();
        }
        if self.find_connection(conn).is_some() {
            return (Ghost(some_v4_uuid()), Ghost(some_v4_uuid()));
        }
        if self.players.len() >= self.settings.max_players {
            self.emit(Some(conn), error_message("Game is full"));
            return (Ghost(some_v4_uuid()), Ghost(some_v4_uuid()));
        }
        let ghost s0 = self@;
        let player_id = new_uuid();
        let secret_id = new_uuid();
        let secret = uuid_to_string(secret_id);
        let is_first = self.players.len() == 0;
        let status = if self.settings.approval_required && !is_first {
            PlayerStatus::PendingApproval
        } else {
            PlayerStatus::Spectating
        };
        if status == PlayerStatus::PendingApproval {
            self.notify_admins(player_id, &username);
        }
        let ghost s1 = self@;
        self.connections.push((conn, player_id));
        proof {
            assert(self@ == (GameState { connections: s0.connections.push((conn, player_id)), ..s1 }));
        }
        let player = Player {
            id: player_id,
            name: username.clone(),
            chips: self.settings.initial_chips,
            hands: Vec::new(),
            active_hand_index: 0,
            status,
            is_admin: is_first,
            secret: secret.clone(),
            is_connected: true,
        };
        let ghost ps = self.players@;
        self.players.push(player);
        proof {
            assert(hands_view(player.hands@) =~= Seq::<HandView>::empty());
            assert(players_view(self.players@) =~= players_view(ps).push(player@));
        }
        let gid = self.game_id.clone();
        self.emit(
            Some(conn),
            ServerMessage::JoinedLobby { game_id: gid, your_id: player_id, secret, is_admin: is_first },
        );
        self.broadcast_state();
        proof {
            let expect = s0.join(conn, username@, player_id, uuid_text(secret_id));
            assert(self@ =~= expect);
        }
        (Ghost(player_id), Ghost(secret_id))
    }

    /// A new connection resumes a seat with its credentials.
    fn handle_reconnect(&mut self, conn: u128, player_id: u128, secret: String)
        ensures
            final(self)@ == old(self)@.reconnect(conn, player_id, secret@),
    {
        if self.find_connection(conn).is_some() {
            return;
        }
        match self.find_player(player_id) {
            None => {
                self.emit(Some(conn), error_message("Player not found"));
            },
            Some(i) => {
                if self.players[i].secret == secret {
                    let ghost s0 = self@;
                    self.connections.push((conn, player_id));
                    self.players[i].is_connected = true;
                    proof {
                        assert(players_view(self.players@) =~= s0.players.update(
                            i as int,
                            PlayerView { is_connected: true, ..s0.players[i as int] },
                        ));
                    }
                    let is_admin = self.players[i].is_admin;
                    let secret_val = self.players[i].secret.clone();
                    let gid = self.game_id.clone();
                    self.emit(
                        Some(conn),
                        ServerMessage::JoinedLobby {
                            game_id: gid,
                            your_id: player_id,
                            secret: secret_val,
                            is_admin,
                        },
                    );
                    self.broadcast_state();
                } else {
                    self.emit(Some(conn), error_message("Invalid secret"));
                }
            },
        }
    }

    /// A connection closed.
    fn handle_disconnect(&mut self, conn: u128)
        ensures
            final(self)@ == old(self)@.disconnect(conn),
    {
        if let Some(k) = self.find_connection(conn) {
            let ghost s0 = self@;
            let player_id = self.connections[k].1;
            self.connections.remove(k);
            let still_connected = self.find_connection_of(player_id).is_some();
            if let Some(i) = self.find_player(player_id) {
                if !still_connected {
                    self.players[i].is_connected = false;
                    proof {
                        assert(players_view(self.players@) =~= s0.players.update(
                            i as int,
                            PlayerView { is_connected: false, ..s0.players[i as int] },
                        ));
                    }
                }
            }
            self.broadcast_state();
        }
    }

    fn handle_approve(&mut self, admin_id: u128, target_id: u128)
        ensures
            final(self)@ == old(self)@.approve(admin_id, target_id),
    {
        if !self.is_admin(admin_id) {
            self.send_error(admin_id, "Only admins can approve players.");
            return;
        }
        if let Some(i) = self.find_player(target_id) {
            if self.players[i].status == PlayerStatus::PendingApproval {
                let ghost s0 = self@;
                self.players[i].status = PlayerStatus::Spectating;
                proof {
                    assert(players_view(self.players@) =~= s0.players.update(
                        i as int,
                        PlayerView { status: PlayerStatus::Spectating, ..s0.players[i as int] },
                    ));
                }
                self.broadcast_state();
            }
        }
    }

    fn handle_update_settings(&mut self, admin_id: u128, settings: GameSettings)
        ensures
            final(self)@ == old(self)@.update_settings(admin_id, settings),
    {
        if !self.is_admin(admin_id) {
            self.send_error(admin_id, "Only admins can update settings.");
            return;
        }
        self.settings = settings;
        self.broadcast_state();
    }

    fn handle_admin_update_balance(&mut self, admin_id: u128, target_id: u128, change_chips: i32)
        ensures
            final(self)@ == old(self)@.update_balance(admin_id, target_id, change_chips),
    {
        if !self.is_admin(admin_id) {
            self.send_error(admin_id, "Only admins can update player balances.");
            return;
        }
        if let Some(i) = self.find_player(target_id) {
            let ghost s0 = self@;
            let chips = self.players[i].chips;
            let new_chips: u32 = if change_chips < 0 {
                let deduction: u32 = (-(change_chips as i64)) as u32;
                if chips >= deduction {
                    chips - deduction
                } else {
                    0
                }
            } else {
                ((chips as u64 + change_chips as u64) % 0x1_0000_0000) as u32
            };
            self.players[i].chips = new_chips;
            proof {
                assert(new_chips == adjusted_balance(chips, change_chips));
                assert(players_view(self.players@) =~= s0.players.update(
                    i as int,
                    PlayerView { chips: new_chips, ..s0.players[i as int] },
                ));
            }
            self.broadcast_state();
        }
    }

    fn handle_chat(&mut self, player_id: u128, msg: String)
        ensures
            final(self)@ == old(self)@.chat(player_id, msg@),
    {
        if !self.settings.chat_enabled {
            self.send_error(player_id, "Chat is currently disabled.");
            return;
        }
        let from = match self.find_player(player_id) {
            Some(i) => self.players[i].name.clone(),
            None => "Unknown".to_owned(),
        };
        self.emit(None, ServerMessage::ChatBroadcast { from, msg });
    }

    fn handle_kick(&mut self, admin_id: u128, target_id: u128)
        ensures
            final(self)@ == old(self)@.kick(admin_id, target_id),
    {
        if !self.is_admin(admin_id) {
            self.send_error(admin_id, "Only admins can kick players.");
            return;
        }
        if admin_id == target_id {
            self.send_error(admin_id, "You cannot kick yourself.");
            return;
        }
        let ghost s0 = self@;
        let ghost cs = s0.connections;
        let mut kept: Vec<(u128, u128)> = Vec::new();
        let mut i: usize = 0;
        while i < self.connections.len()
            invariant
                i <= self.connections@.len(),
                self.connections@ == cs,
                kept@ == cs.take(i as int).filter(belongs_to_other_than(target_id)),
                self@ == s0.with_outbox(s0.outbox + cs.take(i as int).filter(belongs_to(target_id)).map_values(kicked_notice())),
            decreases self.connections@.len() - i,
        {
            let c = self.connections[i];
            proof {
                assert(cs.take(i + 1).drop_last() =~= cs.take(i as int));
                assert(cs.take(i + 1).last() == c);
            }
            proof {
                lemma_filter_take(cs, i as int, belongs_to(target_id));
                lemma_filter_take(cs, i as int, belongs_to_other_than(target_id));
            }
            if c.1 == target_id {
                self.emit(Some(c.0), ServerMessage::Kicked);
                proof {
                    assert(belongs_to(target_id)(c));
                    assert(cs.take(i + 1).filter(belongs_to(target_id)) == cs.take(i as int).filter(belongs_to(target_id)).push(c));
                    assert(cs.take(i + 1).filter(belongs_to(target_id)).map_values(kicked_notice()) =~= cs.take(i as int).filter(
                        belongs_to(target_id),
                    ).map_values(kicked_notice()).push(kicked_notice()(c)));
                    assert(self@ =~= s0.with_outbox(s0.outbox + cs.take(i + 1).filter(belongs_to(target_id)).map_values(kicked_notice())));
                }
            } else {
                kept.push(c);
                proof {
                    assert(!belongs_to(target_id)(c));
                    assert(belongs_to_other_than(target_id)(c));
                }
            }
            i = i + 1;
        }
        proof {
            assert(cs.take(cs.len() as int) =~= cs);
        }
        self.connections = kept;
        match self.find_player(target_id) {
            Some(j) => {
                let ghost ps = self.players@;
                self.players.remove(j);
                proof {
                    assert(players_view(self.players@) =~= players_view(ps).remove(j as int));
                }
                self.broadcast_state();
                proof {
                    assert(self@ =~= s0.kick(admin_id, target_id));
                }
            },
            None => {
                proof {
                    assert(self@ =~= s0.kick(admin_id, target_id));
                }
            },
        }
    }

    /// Opens betting for a new round.
    fn start_betting_phase(&mut self)
        ensures
            final(self)@ == old(self)@.start_betting(),
    {
        let ghost s0 = self@;
        self.phase = GamePhase::Betting;
        self.dealer_hand = Vec::new();
        let mut i: usize = 0;
        while i < self.players.len()
            invariant
                i <= self.players@.len(),
                self.players@.len() == s0.players.len(),
                self@ == (GameState {
                    phase: GamePhase::Betting,
                    dealer_hand: Seq::empty(),
                    players: Seq::new(
                        s0.players.len(),
                        |j: int| if j < i { reset_for_betting(s0.players[j]) } else { s0.players[j] },
                    ),
                    ..s0
                }),
            decreases self.players@.len() - i,
        {
            let ghost before = self@;
            self.players[i].hands = Vec::new();
            if self.players[i].status != PlayerStatus::PendingApproval {
                self.players[i].status = PlayerStatus::Sitting;
            }
            proof {
                assert(hands_view(self.players@[i as int].hands@) =~= Seq::<HandView>::empty());
                assert(before.players[i as int] == s0.players[i as int]);
                assert(self.players@[i as int]@ == reset_for_betting(s0.players[i as int]));
                assert(players_view(self.players@) =~= before.players.update(
                    i as int,
                    reset_for_betting(s0.players[i as int]),
                ));
                assert(self@ =~= GameState {
                    phase: GamePhase::Betting,
                    dealer_hand: Seq::empty(),
                    players: Seq::new(
                        s0.players.len(),
                        |j: int| if j < i + 1 { reset_for_betting(s0.players[j]) } else { s0.players[j] },
                    ),
                    ..s0
                });
            }
            i = i + 1;
        }
        proof {
            assert(self@.players =~= s0.players.map_values(|p: PlayerView| reset_for_betting(p)));
        }
        self.broadcast_state();
    }

    fn handle_next_round(&mut self, player_id: u128)
        ensures
            final(self)@ == old(self)@.next_round(player_id),
    {
        if !self.is_admin(player_id) {
            self.send_error(player_id, "Only admins can start the next round.");
            return;
        }
        if self.phase == GamePhase::Payout || self.phase == GamePhase::GameOver {
            self.start_betting_phase();
        } else {
            self.send_error(
                player_id,
                "Next round can only be started from Payout or GameOver phase.",
            );
        }
    }

    /// Pays the hands of the player at `i` and seats them for the next round.
    fn settle_player_at(&mut self, i: usize, dv: u128, dbj: bool)
        requires
            i < old(self)@.players.len(),
            old(self)@.players[i as int].status == PlayerStatus::Playing,
        ensures
            final(self)@ == old(self)@.with_player(
                i as int,
                settle_player(old(self)@.players[i as int], dv as nat, dbj),
            ),
    {
        let ghost s0 = self@;
        let ghost p0 = s0.players[i as int];
        let n = self.players[i].hands.len();
        let mut j: usize = 0;
        proof {
            assert(p0.hands.take(0) =~= Seq::<HandView>::empty());
            assert(s0.with_player(
                i as int,
                PlayerView {
                    chips: paid_chips(p0.chips, p0.hands.take(0), dv as nat, dbj),
                    hands: Seq::new(
                        n as nat,
                        |k: int|
                            if k < 0 {
                                HandView {
                                    status: hand_outcome(p0.hands[k], dv as nat, dbj),
                                    ..p0.hands[k]
                                }
                            } else {
                                p0.hands[k]
                            },
                    ),
                    ..p0
                },
            ) =~~= s0);
        }
        while j < n
            invariant
                i < s0.players.len(),
                p0 == s0.players[i as int],
                j <= n,
                n == p0.hands.len(),
                self.players@.len() == s0.players.len(),
                self@ == s0.with_player(
                    i as int,
                    PlayerView {
                        chips: paid_chips(p0.chips, p0.hands.take(j as int), dv as nat, dbj),
                        hands: Seq::new(
                            n as nat,
                            |k: int|
                                if k < j {
                                    HandView {
                                        status: hand_outcome(p0.hands[k], dv as nat, dbj),
                                        ..p0.hands[k]
                                    }
                                } else {
                                    p0.hands[k]
                                },
                        ),
                        ..p0
                    },
                ),
            decreases n - j,
        {
            let ghost before = self@;
            let ghost hands_before = self.players@[i as int].hands@;
            let ghost old_players = self.players@;
            proof {
                assert(self@.players[i as int] == self.players@[i as int]@);
                assert(self@.players[i as int].hands.len() == self.players@[i as int].hands@.len());
                assert(self@.players[i as int].hands[j as int] == p0.hands[j as int]);
                assert(self@.players[i as int].hands[j as int] == self.players@[i as int].hands@[j as int]@);
            }
            let (ret, outcome) = hand_payout(&self.players[i].hands[j], dv, dbj);
            let chips = self.players[i].chips;
            self.players[i].chips = ((chips as u64 + ret as u64) % 0x1_0000_0000) as u32;
            self.players[i].hands[j].status = outcome;
            proof {
                assert(p0.hands.take(j + 1).drop_last() =~= p0.hands.take(j as int));
                assert(p0.hands.take(j + 1).last() == p0.hands[j as int]);
                let expect = s0.with_player(
                    i as int,
                    PlayerView {
                        chips: paid_chips(p0.chips, p0.hands.take(j + 1), dv as nat, dbj),
                        hands: Seq::new(
                            n as nat,
                            |k: int|
                                if k < j + 1 {
                                    HandView {
                                        status: hand_outcome(p0.hands[k], dv as nat, dbj),
                                        ..p0.hands[k]
                                    }
                                } else {
                                    p0.hands[k]
                                },
                        ),
                        ..p0
                    },
                );
                assert forall|k: int| 0 <= k < n implies #[trigger] hands_view(
                    self.players@[i as int].hands@,
                )[k] == expect.players[i as int].hands[k] by {
                    if k != j {
                        assert(self.players@[i as int].hands@[k] == hands_before[k]);
                        assert(before.players[i as int].hands[k] == hands_before[k]@);
                    }
                }
                assert(hands_view(self.players@[i as int].hands@) =~= expect.players[i as int].hands);
                assert(before.players[i as int].chips == chips);
                assert(ret == hand_return(p0.hands[j as int], dv as nat, dbj));
                assert(self.players@[i as int].chips == expect.players[i as int].chips);
                assert(self@.players[i as int] == self.players@[i as int]@);
                assert(self.players@[i as int].name@ == p0.name);
                assert(self.players@[i as int].status == p0.status);
                assert(self.players@[i as int].secret@ == p0.secret);
                assert(self.players@[i as int].id == p0.id);
                assert(self.players@[i as int].active_hand_index == p0.active_hand_index);
                assert(self.players@[i as int].is_admin == p0.is_admin);
                assert(self.players@[i as int].is_connected == p0.is_connected);
                assert(expect.players[i as int].hands == hands_view(self.players@[i as int].hands@));
                assert(self@.players[i as int] =~= expect.players[i as int]);
                assert forall|m: int| 0 <= m < s0.players.len() && m != i implies self@.players[m]
                    == expect.players[m] by {
                    assert(self.players@[m] == old_players[m]);
                    assert(before.players[m] == s0.players[m]);
                }
                assert(self@.players =~= expect.players);
                assert(self@ =~= expect);
            }
            j = j + 1;
        }
        let ghost old_players = self.players@;
        let ghost mid = self@;
        self.players[i].status = PlayerStatus::Sitting;
        proof {
            lemma_players_view_update(old_players, self.players@, i as int);
            assert(mid.players[i as int] == old_players[i as int]@);
            assert(p0.hands.take(n as int) =~= p0.hands);
            let expect = s0.with_player(i as int, settle_player(p0, dv as nat, dbj));
            assert(hands_view(self.players@[i as int].hands@) =~= expect.players[i as int].hands);
            assert(self@.players =~= expect.players);
            assert(self@ =~= expect);
        }
    }

    /// Pays every hand in the round against the dealer and ends the round.
    fn resolve_bets(&mut self)
        ensures
            final(self)@ == old(self)@.resolve_bets(),
    {
        let ghost s0 = self@;
        let dv = hand_value_of(&self.dealer_hand);
        let dbj = dv == 21 && self.dealer_hand.len() == 2;
        let mut i: usize = 0;
        while i < self.players.len()
            invariant
                i <= self.players@.len(),
                self.players@.len() == s0.players.len(),
                dv == hand_value(s0.dealer_hand),
                dbj == (dv == 21 && s0.dealer_hand.len() == 2),
                self@ == s0.with_players(
                    Seq::new(
                        s0.players.len(),
                        |j: int|
                            if j < i {
                                settle_player(s0.players[j], dv as nat, dbj)
                            } else {
                                s0.players[j]
                            },
                    ),
                ),
            decreases self.players@.len() - i,
        {
            if self.players[i].status == PlayerStatus::Playing {
                self.settle_player_at(i, dv, dbj);
            }
            proof {
                assert(self@.players =~= Seq::new(
                    s0.players.len(),
                    |j: int|
                        if j < i + 1 {
                            settle_player(s0.players[j], dv as nat, dbj)
                        } else {
                            s0.players[j]
                        },
                ));
            }
            i = i + 1;
        }
        self.phase = GamePhase::Payout;
        proof {
            assert(self@.players =~= s0.players.map_values(
                |p: PlayerView| settle_player(p, dv as nat, dbj),
            ));
        }
        self.broadcast_state();
    }

    /// The dealer draws to 17 or more (or until the shoe gives nothing), then
    /// the round is paid.
    fn play_dealer_turn(&mut self) -> (rs: Ghost<Seq<Option<Card>>>)
        ensures
            draws_rel(old(self)@.settings.deck_count as nat, old(self)@.deck, rs@, final(self)@.deck),
            old(self)@.with_deck(final(self)@.deck).play_dealer(rs@) == Some(final(self)@),
    {
        let ghost s0 = self@;
        let ghost k = s0.settings.deck_count as nat;
        self.phase = GamePhase::DealerTurn;
        let ghost mut rs: Seq<Option<Card>> = Seq::empty();
        let mut exhausted = false;
        proof {
            lemma_draws_none(k, s0.deck);
        }
        while !exhausted && hand_value_of(&self.dealer_hand) < 17
            invariant
                self@ == s0.with_phase(GamePhase::DealerTurn).with_deck(self@.deck).with_dealer(
                    self@.dealer_hand,
                ),
                k == self@.settings.deck_count,
                !exhausted ==> dealer_prefix(s0.dealer_hand, rs) == Some(self@.dealer_hand),
                exhausted ==> dealer_draws(s0.dealer_hand, rs) == Some(self@.dealer_hand),
                exhausted ==> hand_value(self@.dealer_hand) < 17,
                draws_rel(k, s0.deck, rs, self@.deck),
            decreases 18 - self@.dealer_hand.len() - (if exhausted { 1int } else { 0int }),
        {
            proof {
                lemma_hand_value_at_least_len(self@.dealer_hand);
            }
            let ghost d1 = self@.deck;
            let ghost h1 = self@.dealer_hand;
            let r = self.draw_card();
            proof {
                lemma_draws_compose(k, s0.deck, rs, d1, seq![r], self@.deck);
                assert(rs + seq![r] =~= rs.push(r));
            }
            match r {
                Some(c) => {
                    self.dealer_hand.push(c);
                    proof {
                        lemma_dealer_prefix_push(s0.dealer_hand, rs, h1, c);
                        rs = rs.push(r);
                    }
                },
                None => {
                    proof {
                        lemma_dealer_extend(s0.dealer_hand, rs, h1, seq![r]);
                        assert(seq![r].drop_first() =~= Seq::<Option<Card>>::empty());
                        assert(dealer_draws(h1, seq![r]) == Some(h1));
                        rs = rs.push(r);
                    }
                    exhausted = true;
                },
            }
        }
        proof {
            if !exhausted {
                lemma_dealer_extend(s0.dealer_hand, rs, self@.dealer_hand, Seq::empty());
                assert(rs + Seq::<Option<Card>>::empty() =~= rs);
            }
        }
        self.resolve_bets();
        Ghost(rs)
    }

    /// Moves play on: to the current player's next hand, else the turn
    /// passes on.
    fn advance_turn(&mut self) -> (rs: Ghost<Seq<Option<Card>>>)
        ensures
            draws_rel(old(self)@.settings.deck_count as nat, old(self)@.deck, rs@, final(self)@.deck),
            old(self)@.with_deck(final(self)@.deck).advance(rs@) == Some(final(self)@),
    {
        let ghost s0 = self@;
        let t = self.turn_index;
        if t < self.players.len() && self.players[t].status == PlayerStatus::Playing
            && self.players[t].hands.len() > 0 && self.players[t].active_hand_index
            < self.players[t].hands.len() - 1 {
            let a = self.players[t].active_hand_index;
            self.players[t].active_hand_index = a + 1;
            proof {
                assert(players_view(self.players@) =~= s0.players.update(
                    t as int,
                    PlayerView { active_hand_index: (a + 1) as usize, ..s0.players[t as int] },
                ));
            }
            self.broadcast_state();
            proof {
                lemma_draws_none(s0.settings.deck_count as nat, s0.deck);
            }
            return Ghost(Seq::empty());
        }
        self.pass_turn()
    }

    /// The turn passes to the next player who can act, else to the dealer.
    fn pass_turn(&mut self) -> (rs: Ghost<Seq<Option<Card>>>)
        ensures
            draws_rel(old(self)@.settings.deck_count as nat, old(self)@.deck, rs@, final(self)@.deck),
            old(self)@.with_deck(final(self)@.deck).pass_turn(rs@) == Some(final(self)@),
    {
        let ghost s0 = self@;
        let t = self.turn_index;
        let start: usize = if t == usize::MAX {
            0
        } else {
            t + 1
        };
        let mut cur = start;
        while cur < self.players.len() && !player_can_take_turn(&self.players[cur])
            invariant
                self@ == s0,
                start <= cur,
                cur <= start || cur <= self.players@.len(),
                forall|m: int| start <= m < cur ==> !can_take_turn(#[trigger] s0.players[m]),
            decreases self.players@.len() - cur,
        {
            cur = cur + 1;
        }
        if cur >= self.players.len() {
            proof {
                assert forall|n: int| !#[trigger] is_next_turn(s0.players, start - 1, n) by {
                    if is_next_turn(s0.players, start - 1, n) {
                        assert(!can_take_turn(s0.players[n]));
                    }
                }
                assert(cur == (if start >= s0.players.len() {
                    start as int
                } else {
                    s0.players.len() as int
                }));
            }
            self.turn_index = cur;
            self.play_dealer_turn()
        } else {
            proof {
                lemma_next_turn(s0.players, start - 1, cur as int);
            }
            self.turn_index = cur;
            self.broadcast_state();
            proof {
                lemma_draws_none(s0.settings.deck_count as nat, s0.deck);
            }
            Ghost(Seq::empty())
        }
    }

    /// Admin timeout: every hand the current player still plays stands, and
    /// the turn passes to the next player.
    fn force_stand_current_player(&mut self) -> (rs: Ghost<Seq<Option<Card>>>)
        ensures
            draws_rel(old(self)@.settings.deck_count as nat, old(self)@.deck, rs@, final(self)@.deck),
            old(self)@.with_deck(final(self)@.deck).force_stand(rs@) == Some(final(self)@),
    {
        let ghost s0 = self@;
        let t = self.turn_index;
        if t < self.players.len() {
            let ghost p0 = s0.players[t as int];
            let n = self.players[t].hands.len();
            let mut j: usize = 0;
            proof {
                assert(s0.with_player(
                    t as int,
                    PlayerView {
                        hands: Seq::new(
                            n as nat,
                            |k: int|
                                if k < 0 {
                                    stood(p0.hands[k])
                                } else {
                                    p0.hands[k]
                                },
                        ),
                        ..p0
                    },
                ) =~~= s0);
            }
            while j < n
                invariant
                    t < s0.players.len(),
                    t == self.turn_index,
                    self.players@.len() == s0.players.len(),
                    j <= n,
                    n == p0.hands.len(),
                    p0 == s0.players[t as int],
                    self@ == s0.with_player(
                        t as int,
                        PlayerView {
                            hands: Seq::new(
                                n as nat,
                                |k: int|
                                    if k < j {
                                        stood(p0.hands[k])
                                    } else {
                                        p0.hands[k]
                                    },
                            ),
                            ..p0
                        },
                    ),
                decreases n - j,
            {
                let ghost before = self@;
                let ghost hands_before = self.players@[t as int].hands@;
                let ghost old_players = self.players@;
                proof {
                    assert(self@.players[t as int] == self.players@[t as int]@);
                    assert(self@.players[t as int].hands.len() == self.players@[t as int].hands@.len());
                    assert(self@.players[t as int].hands[j as int] == p0.hands[j as int]);
                    assert(self@.players[t as int].hands[j as int] == self.players@[t as int].hands@[j as int]@);
                }
                if self.players[t].hands[j].status == HandStatus::Playing {
                    self.players[t].hands[j].status = HandStatus::Stood;
                }
                proof {
                    let expect = s0.with_player(
                        t as int,
                        PlayerView {
                            hands: Seq::new(
                                n as nat,
                                |k: int|
                                    if k < j + 1 {
                                        stood(p0.hands[k])
                                    } else {
                                        p0.hands[k]
                                    },
                            ),
                            ..p0
                        },
                    );
                    lemma_players_view_update(old_players, self.players@, t as int);
                    assert forall|k: int| 0 <= k < n implies #[trigger] hands_view(
                        self.players@[t as int].hands@,
                    )[k] == expect.players[t as int].hands[k] by {
                        if k != j {
                            assert(self.players@[t as int].hands@[k] == hands_before[k]);
                            assert(before.players[t as int].hands[k] == hands_before[k]@);
                        }
                    }
                    assert(hands_view(self.players@[t as int].hands@) =~= expect.players[t as int].hands);
                    assert(self@.players[t as int] =~= expect.players[t as int]);
                    assert(self@.players =~= expect.players);
                    assert(self@ =~= expect);
                }
                j = j + 1;
            }
            proof {
                assert(self@.players[t as int].hands =~= p0.hands.map_values(|h: HandView| stood(h)));
                assert(self@ =~= s0.with_player(
                    t as int,
                    PlayerView { hands: p0.hands.map_values(|h: HandView| stood(h)), ..p0 },
                ));
            }
        }
        self.pass_turn()
    }

    /// Draws a card for the first hand of the player at `i`.
    fn deal_card_to(&mut self, i: usize) -> (r: Ghost<Option<Card>>)
        requires
            i < old(self)@.players.len(),
        ensures
            draws_rel(old(self)@.settings.deck_count as nat, old(self)@.deck, seq![r@], final(self)@.deck),
            final(self)@ == old(self)@.with_deck(final(self)@.deck).with_player(
                i as int,
                deal_to(old(self)@.players[i as int], r@),
            ),
    {
        let ghost s0 = self@;
        let r = self.draw_card();
        let ghost old_players = self.players@;
        proof {
            assert(self@.players[i as int] == self.players@[i as int]@);
        }
        if let Some(c) = r {
            if self.players[i].hands.len() > 0 {
                let ghost old_hands = self.players@[i as int].hands@;
                self.players[i].hands[0].cards.push(c);
                proof {
                    lemma_hands_view_update(old_hands, self.players@[i as int].hands@, 0);
                    lemma_players_view_update(old_players, self.players@, i as int);
                }
            }
        }
        proof {
            assert(self@ =~= s0.with_deck(self@.deck).with_player(i as int, deal_to(s0.players[i as int], r)));
        }
        Ghost(r)
    }

    /// One round of dealing: a card to the first hand of every player in the
    /// round, in seat order, then one to the dealer.
    fn deal_round(&mut self) -> (rs: Ghost<Seq<Option<Card>>>)
        ensures
            draws_rel(old(self)@.settings.deck_count as nat, old(self)@.deck, rs@, final(self)@.deck),
            rs@.len() == count_playing(old(self)@.players) + 1,
            final(self)@ == old(self)@.with_deck(final(self)@.deck).deal_round(rs@),
    {
        let ghost s0 = self@;
        let ghost ps = s0.players;
        let ghost k = s0.settings.deck_count as nat;
        let ghost mut rs: Seq<Option<Card>> = Seq::empty();
        let mut i: usize = 0;
        proof {
            lemma_draws_none(k, s0.deck);
            assert(ps.take(0) =~= Seq::<PlayerView>::empty());
            lemma_dealt_prefix_start(ps);
        }
        while i < self.players.len()
            invariant
                self.players@.len() == ps.len(),
                ps == s0.players,
                i <= ps.len(),
                k == s0.settings.deck_count,
                rs.len() == count_playing(ps.take(i as int)),
                draws_rel(k, s0.deck, rs, self@.deck),
                self@ == s0.with_deck(self@.deck).with_players(dealt_prefix(ps, rs, i as int)),
            decreases ps.len() - i,
        {
            proof {
                lemma_count_playing_take(ps, i as int);
                lemma_dealt_prefix_step(ps, rs, i as int, None);
                assert(self@.players[i as int] == self.players@[i as int]@);
            }
            if self.players[i].status == PlayerStatus::Playing {
                let ghost d1 = self@.deck;
                let r = self.deal_card_to(i);
                proof {
                    lemma_draws_compose(k, s0.deck, rs, d1, seq![r@], self@.deck);
                    assert(rs + seq![r@] =~= rs.push(r@));
                    lemma_dealt_prefix_step(ps, rs, i as int, r@);
                    rs = rs.push(r@);
                    assert(self@ =~= s0.with_deck(self@.deck).with_players(dealt_prefix(ps, rs, i + 1)));
                    assert(players_view(self.players@).len() == self.players@.len());
                }
            }
            i = i + 1;
        }
        let ghost d1 = self@.deck;
        let r = self.draw_card();
        proof {
            lemma_draws_compose(k, s0.deck, rs, d1, seq![r], self@.deck);
            assert(rs + seq![r] =~= rs.push(r));
            assert(ps.take(ps.len() as int) =~= ps);
        }
        if let Some(c) = r {
            self.dealer_hand.push(c);
        }
        proof {
            lemma_dealt_prefix_round(s0.with_deck(self@.deck), rs, r);
            rs = rs.push(r);
            assert(self@ =~= s0.with_deck(self@.deck).deal_round(rs));
        }
        Ghost(rs)
    }

    /// Marks every natural 21 among the first hands of the round.
    fn mark_blackjacks(&mut self)
        ensures
            final(self)@ == old(self)@.with_players(
                old(self)@.players.map_values(|p: PlayerView| mark_blackjack(p)),
            ),
    {
        let ghost s0 = self@;
        let ghost ps = s0.players;
        let mut i: usize = 0;
        proof {
            assert(s0.with_players(Seq::new(ps.len(), |j: int| if j < 0 { mark_blackjack(ps[j]) } else { ps[j] })) =~~= s0);
        }
        while i < self.players.len()
            invariant
                self.players@.len() == ps.len(),
                ps == s0.players,
                i <= ps.len(),
                self@ == s0.with_players(
                    Seq::new(
                        ps.len(),
                        |j: int| if j < i { mark_blackjack(ps[j]) } else { ps[j] },
                    ),
                ),
            decreases ps.len() - i,
        {
            proof {
                assert(self@.players[i as int] == self.players@[i as int]@);
            }
            let ghost old_players = self.players@;
            if self.players[i].status == PlayerStatus::Playing && self.players[i].hands.len() > 0
                && self.players[i].hands[0].cards.len() == 2 && hand_value_of(
                &self.players[i].hands[0].cards,
            ) == 21 {
                let ghost old_hands = self.players@[i as int].hands@;
                self.players[i].hands[0].status = HandStatus::Blackjack;
                proof {
                    lemma_hands_view_update(old_hands, self.players@[i as int].hands@, 0);
                    lemma_players_view_update(old_players, self.players@, i as int);
                }
            }
            proof {
                assert(self@ =~= s0.with_players(
                    Seq::new(
                        ps.len(),
                        |j: int| if j < i + 1 { mark_blackjack(ps[j]) } else { ps[j] },
                    ),
                ));
            }
            i = i + 1;
        }
        proof {
            assert(self@.players =~= ps.map_values(|p: PlayerView| mark_blackjack(p)));
        }
    }

    /// The first player who has to act in a freshly dealt round.
    fn find_first_opener(&self) -> (r: Option<usize>)
        ensures
            match r {
                Some(i) => first_opener(self@.players) == Some(i as int),
                None => first_opener(self@.players) is None,
            },
    {
        let mut i: usize = 0;
        while i < self.players.len()
            invariant
                i <= self.players@.len(),
                forall|j: int| 0 <= j < i ==> !opens_round(#[trigger] self@.players[j]),
            decreases self.players@.len() - i,
        {
            proof {
                assert(self@.players[i as int] == self.players@[i as int]@);
            }
            let p = &self.players[i];
            if p.status == PlayerStatus::Playing && p.is_connected && p.hands.len() > 0
                && p.hands[0].status == HandStatus::Playing {
                proof {
                    lemma_first_opener(self@.players, i as int);
                }
                return Some(i);
            }
            i = i + 1;
        }
        proof {
            assert forall|j: int| !#[trigger] is_first_opener(self@.players, j) by {}
        }
        None
    }

    /// Starts the play of a round.
    fn start_action_phase(&mut self) -> (rs: Ghost<Seq<Option<Card>>>)
        ensures
            draws_rel(old(self)@.settings.deck_count as nat, old(self)@.deck, rs@, final(self)@.deck),
            old(self)@.with_deck(final(self)@.deck).start_action(rs@) == Some(final(self)@),
    {
        let ghost s0 = self@;
        let ghost k = s0.settings.deck_count as nat;
        self.turn_index = 0;
        self.phase = GamePhase::Playing;
        let players_playing = self.count_playing_players();
        if players_playing == 0 {
            self.emit(None, error_message("Cannot start round with no active bets."));
            self.phase = GamePhase::Betting;
            proof {
                lemma_draws_none(k, s0.deck);
                assert(self@ =~= s0.with_turn(0).broadcast(err("Cannot start round with no active bets.")).with_phase(GamePhase::Betting));
            }
            return Ghost(Seq::empty());
        }
        let ghost s1 = self@;
        let r1 = self.deal_round();
        let ghost s2 = self@;
        proof {
            assert forall|j: int| 0 <= j < s2.players.len() implies s2.players[j].status
                == s1.players[j].status by {
                let ps = s1.players;
                if ps[j].status == PlayerStatus::Playing {
                    assert(s2.players[j] == deal_to(ps[j], r1@[count_playing(ps.take(j)) as int]));
                }
            }
            lemma_count_playing_same_status(s2.players, s1.players);
        }
        let r2 = self.deal_round();
        let ghost s3 = self@;
        proof {
            lemma_draws_compose(k, s0.deck, r1@, s2.deck, r2@, s3.deck);
        }
        self.mark_blackjacks();
        let ghost s4 = self@;
        match self.find_first_opener() {
            Some(pos) => {
                self.turn_index = pos;
                self.broadcast_state();
                proof {
                    let fd = self@.deck;
                    lemma_start_action_split(s0.with_deck(fd), r1@, r2@, Seq::empty());
                    assert(r1@ + r2@ + Seq::<Option<Card>>::empty() =~= r1@ + r2@);
                    assert(s0.with_deck(fd).with_turn(0).with_phase(GamePhase::Playing) == s1.with_deck(fd));
                    assert(s1.with_deck(fd).deal_round(r1@) =~= s2.with_deck(fd));
                    assert(s2.with_deck(fd).deal_round(r2@) =~= s3.with_deck(fd));
                }
                Ghost(r1@ + r2@)
            },
            None => {
                let ghost d4 = self@.deck;
                let r3 = self.play_dealer_turn();
                proof {
                    lemma_draws_compose(k, s0.deck, r1@ + r2@, d4, r3@, self@.deck);
                    let fd = self@.deck;
                    lemma_start_action_split(s0.with_deck(fd), r1@, r2@, r3@);
                    assert(s0.with_deck(fd).with_turn(0).with_phase(GamePhase::Playing) == s1.with_deck(fd));
                    assert(s1.with_deck(fd).deal_round(r1@) =~= s2.with_deck(fd));
                    assert(s2.with_deck(fd).deal_round(r2@) =~= s3.with_deck(fd));
                    assert(s4.with_deck(fd) =~= s3.with_deck(fd).with_players(
                        s3.players.map_values(|p: PlayerView| mark_blackjack(p)),
                    ));
                }
                Ghost(r1@ + r2@ + r3@)
            },
        }
    }

    /// Everyone connected and approved has placed a bet.
    fn everyone_ready(&self) -> (b: bool)
        ensures
            b == all_ready(self@.players),
    {
        let mut i: usize = 0;
        while i < self.players.len()
            invariant
                i <= self.players@.len(),
                forall|j: int|
                    0 <= j < i ==> {
                        let p = #[trigger] self@.players[j];
                        !p.is_connected || p.status == PlayerStatus::Playing || p.status
                            == PlayerStatus::PendingApproval
                    },
            decreases self.players@.len() - i,
        {
            proof {
                assert(self@.players[i as int] == self.players@[i as int]@);
            }
            let p = &self.players[i];
            if !(!p.is_connected || p.status == PlayerStatus::Playing || p.status
                == PlayerStatus::PendingApproval) {
                return false;
            }
            i = i + 1;
        }
        true
    }

    /// A bet by a player.
    fn handle_bet(&mut self, player_id: u128, amount: u32) -> (rs: Ghost<Seq<Option<Card>>>)
        ensures
            draws_rel(old(self)@.settings.deck_count as nat, old(self)@.deck, rs@, final(self)@.deck),
            old(self)@.with_deck(final(self)@.deck).bet(player_id, amount, rs@) == Some(final(self)@),
    {
        let ghost s0 = self@;
        let ghost k = s0.settings.deck_count as nat;
        proof {
            lemma_draws_none(k, s0.deck);
        }
        if self.phase != GamePhase::Betting {
            self.send_error(player_id, "Bets can only be placed during the Betting phase.");
            return Ghost(Seq::empty());
        }
        let i = match self.find_player(player_id) {
            Some(i) => i,
            None => {
                return Ghost(Seq::empty());
            },
        };
        proof {
            assert(self@.players[i as int] == self.players@[i as int]@);
        }
        if self.players[i].status == PlayerStatus::PendingApproval {
            self.send_error(player_id, "You must be approved before playing.");
            return Ghost(Seq::empty());
        }
        if self.players[i].status != PlayerStatus::Sitting && self.players[i].status
            != PlayerStatus::Spectating {
            self.send_error(player_id, "You cannot place a bet right now.");
            return Ghost(Seq::empty());
        }
        if self.players[i].chips < amount {
            self.send_error(player_id, "Not enough chips to place bet.");
            return Ghost(Seq::empty());
        }
        let ghost old_players = self.players@;
        let chips = self.players[i].chips;
        self.players[i].chips = chips - amount;
        self.players[i].status = PlayerStatus::Playing;
        let mut hands: Vec<Hand> = Vec::new();
        hands.push(Hand { cards: Vec::new(), bet: amount, status: HandStatus::Playing });
        self.players[i].hands = hands;
        self.players[i].active_hand_index = 0;
        proof {
            lemma_players_view_update(old_players, self.players@, i as int);
            assert(hands_view(self.players@[i as int].hands@) =~= seq![
                HandView { cards: Seq::empty(), bet: amount, status: HandStatus::Playing },
            ]);
        }
        let ghost s1 = self@;
        proof {
            let p = s0.players[i as int];
            assert(s1 =~= s0.with_player(
                i as int,
                PlayerView {
                    chips: (p.chips - amount) as u32,
                    status: PlayerStatus::Playing,
                    hands: seq![
                        HandView { cards: Seq::empty(), bet: amount, status: HandStatus::Playing },
                    ],
                    active_hand_index: 0,
                    ..p
                },
            ));
        }
        if self.everyone_ready() {
            self.start_action_phase()
        } else {
            self.broadcast_state();
            Ghost(Seq::empty())
        }
    }

    /// The current player takes a card on their active hand.
    fn hit(&mut self) -> (rs: Ghost<Seq<Option<Card>>>)
        requires
            old(self)@.turn_index < old(self)@.players.len(),
            old(self)@.players[old(self)@.turn_index as int].active_hand_index < old(
                self,
            )@.players[old(self)@.turn_index as int].hands.len(),
        ensures
            draws_rel(old(self)@.settings.deck_count as nat, old(self)@.deck, rs@, final(self)@.deck),
            old(self)@.with_deck(final(self)@.deck).hit(rs@) == Some(final(self)@),
    {
        let ghost s0 = self@;
        let ghost k = s0.settings.deck_count as nat;
        let t = self.turn_index;
        proof {
            assert(self@.players[t as int] == self.players@[t as int]@);
        }
        let a = self.players[t].active_hand_index;
        let r = self.draw_card();
        let ghost s1 = self@;
        match r {
            None => {
                self.broadcast_state();
                proof {
                    assert(seq![r].drop_first() =~= Seq::<Option<Card>>::empty());
                }
                let ghost out = seq![r];
                Ghost(out)
            },
            Some(c) => {
                let ghost old_players = self.players@;
                let ghost old_hands = self.players@[t as int].hands@;
                self.players[t].hands[a].cards.push(c);
                proof {
                    lemma_hands_view_update(old_hands, self.players@[t as int].hands@, a as int);
                    lemma_players_view_update(old_players, self.players@, t as int);
                    assert(self@ =~= s1.with_player(t as int, give_card(s0.players[t as int], a as int, c)));
                    assert(self.players@[t as int].hands@[a as int].cards@ == give_card(
                        s0.players[t as int],
                        a as int,
                        c,
                    ).hands[a as int].cards);
                }
                if hand_value_of(&self.players[t].hands[a].cards) > 21 {
                    let ghost old_players2 = self.players@;
                    let ghost old_hands2 = self.players@[t as int].hands@;
                    self.players[t].hands[a].status = HandStatus::Busted;
                    proof {
                        lemma_hands_view_update(old_hands2, self.players@[t as int].hands@, a as int);
                        lemma_players_view_update(old_players2, self.players@, t as int);
                    }
                    let ghost d2 = self@.deck;
                    let r2 = self.advance_turn();
                    proof {
                        lemma_draws_compose(k, s0.deck, seq![r], d2, r2@, self@.deck);
                        assert((seq![r] + r2@).drop_first() =~= r2@);
                        assert((seq![r] + r2@)[0] == r);
                        let p1 = give_card(s0.players[t as int], a as int, c);
                        let fd = self@.deck;
                        assert(s0.with_deck(fd).with_player(
                            t as int,
                            PlayerView {
                                hands: p1.hands.update(
                                    a as int,
                                    HandView { status: HandStatus::Busted, ..p1.hands[a as int] },
                                ),
                                ..p1
                            },
                        ) =~~= s1.with_deck(d2).with_player(t as int, p1).with_player(
                            t as int,
                            PlayerView {
                                hands: p1.hands.update(
                                    a as int,
                                    HandView { status: HandStatus::Busted, ..p1.hands[a as int] },
                                ),
                                ..p1
                            },
                        ).with_deck(fd));
                    }
                    let ghost out = seq![r] + r2@;
                    Ghost(out)
                } else {
                    self.broadcast_state();
                    proof {
                        assert(seq![r].drop_first() =~= Seq::<Option<Card>>::empty());
                    }
                    let ghost out = seq![r];
                Ghost(out)
                }
            },
        }
    }

    /// The current player doubles their bet and takes exactly one card.
    fn double_down(&mut self) -> (rs: Ghost<Seq<Option<Card>>>)
        requires
            old(self)@.turn_index < old(self)@.players.len(),
            old(self)@.players[old(self)@.turn_index as int].active_hand_index < old(
                self,
            )@.players[old(self)@.turn_index as int].hands.len(),
            old(self)@.players[old(self)@.turn_index as int].chips >= old(self)@.players[old(
                self,
            )@.turn_index as int].hands[old(self)@.players[old(
                self,
            )@.turn_index as int].active_hand_index as int].bet,
        ensures
            draws_rel(old(self)@.settings.deck_count as nat, old(self)@.deck, rs@, final(self)@.deck),
            old(self)@.with_deck(final(self)@.deck).double_down(rs@) == Some(final(self)@),
    {
        let ghost s0 = self@;
        let ghost k = s0.settings.deck_count as nat;
        let t = self.turn_index;
        proof {
            assert(self@.players[t as int] == self.players@[t as int]@);
        }
        let a = self.players[t].active_hand_index;
        let bet = self.players[t].hands[a].bet;
        let ghost old_players = self.players@;
        let chips = self.players[t].chips;
        self.players[t].chips = chips - bet;
        proof {
            lemma_players_view_update(old_players, self.players@, t as int);
        }
        let ghost s1 = self@;
        let r = self.draw_card();
        match r {
            None => {
                self.broadcast_state();
                proof {
                    assert(seq![r].drop_first() =~= Seq::<Option<Card>>::empty());
                    assert(s1.with_deck(self@.deck) =~= s0.with_deck(self@.deck).with_player(
                        t as int,
                        PlayerView {
                            chips: (s0.players[t as int].chips - bet) as u32,
                            ..s0.players[t as int]
                        },
                    ));
                }
                let ghost out = seq![r];
                Ghost(out)
            },
            Some(c) => {
                let ghost old_players2 = self.players@;
                let ghost old_hands = self.players@[t as int].hands@;
                self.players[t].hands[a].bet = ((bet as u64 + bet as u64) % 0x1_0000_0000) as u32;
                self.players[t].hands[a].cards.push(c);
                let busted = hand_value_of(&self.players[t].hands[a].cards) > 21;
                if busted {
                    self.players[t].hands[a].status = HandStatus::Busted;
                } else {
                    self.players[t].hands[a].status = HandStatus::Doubled;
                }
                proof {
                    lemma_hands_view_update(old_hands, self.players@[t as int].hands@, a as int);
                    lemma_players_view_update(old_players2, self.players@, t as int);
                }
                let ghost s2 = self@;
                let ghost d2 = self@.deck;
                let r2 = self.advance_turn();
                proof {
                    lemma_draws_compose(k, s0.deck, seq![r], d2, r2@, self@.deck);
                    assert((seq![r] + r2@).drop_first() =~= r2@);
                    assert((seq![r] + r2@)[0] == r);
                    let fd = self@.deck;
                    let p = s0.players[t as int];
                    let h = p.hands[a as int];
                    let cards = h.cards.push(c);
                    let h1 = HandView {
                        cards,
                        bet: wrap32(h.bet + h.bet),
                        status: if hand_value(cards) > 21 {
                            HandStatus::Busted
                        } else {
                            HandStatus::Doubled
                        },
                    };
                    let m1 = s0.with_deck(fd).with_player(
                        t as int,
                        PlayerView { chips: (p.chips - h.bet) as u32, ..p },
                    );
                    assert(m1.with_player(
                        t as int,
                        PlayerView { hands: p.hands.update(a as int, h1), ..m1.players[t as int] },
                    ) =~~= s2.with_deck(fd));
                }
                let ghost out = seq![r] + r2@;
                Ghost(out)
            },
        }
    }

    /// The current player splits a pair into two hands, each topped up with
    /// a fresh card.
    fn split(&mut self) -> (rs: Ghost<Seq<Option<Card>>>)
        requires
            old(self)@.turn_index < old(self)@.players.len(),
            old(self)@.players[old(self)@.turn_index as int].active_hand_index < old(
                self,
            )@.players[old(self)@.turn_index as int].hands.len(),
            old(self)@.players[old(self)@.turn_index as int].hands[old(self)@.players[old(
                self,
            )@.turn_index as int].active_hand_index as int].cards.len() == 2,
            old(self)@.players[old(self)@.turn_index as int].chips >= old(self)@.players[old(
                self,
            )@.turn_index as int].hands[old(self)@.players[old(
                self,
            )@.turn_index as int].active_hand_index as int].bet,
        ensures
            draws_rel(old(self)@.settings.deck_count as nat, old(self)@.deck, rs@, final(self)@.deck),
            old(self)@.with_deck(final(self)@.deck).split(rs@) == Some(final(self)@),
    {
        let ghost s0 = self@;
        let ghost k = s0.settings.deck_count as nat;
        let ghost d0 = self@.deck;
        let card_for_first = self.draw_card();
        let ghost d1 = self@.deck;
        let card_for_second = self.draw_card();
        proof {
            lemma_draws_compose(k, d0, seq![card_for_first], d1, seq![card_for_second], self@.deck);
            assert(seq![card_for_first] + seq![card_for_second] =~= seq![card_for_first, card_for_second]);
        }
        let t = self.turn_index;
        proof {
            assert(self@.players[t as int] == self.players@[t as int]@);
        }
        let a = self.players[t].active_hand_index;
        let bet = self.players[t].hands[a].bet;
        let ghost old_players = self.players@;
        let ghost old_hands = self.players@[t as int].hands@;
        let ghost old_cards = self.players@[t as int].hands@[a as int].cards@;
        proof {
            assert(self@.players[t as int].hands[a as int] == self.players@[t as int].hands@[a as int]@);
            assert(old_cards == s0.players[t as int].hands[a as int].cards);
        }
        let chips = self.players[t].chips;
        self.players[t].chips = chips - bet;
        proof {
            assert(self.players@[t as int].hands@[a as int].cards@ == old_cards);
        }
        let popped = self.players[t].hands[a].cards.pop();
        proof {
            assert(popped == Some(old_cards.last()));
            assert(self.players@[t as int].hands@[a as int].cards@ =~= old_cards.drop_last());
        }
        let split_card = match popped {
            Some(c) => c,
            None => {
                proof {
                    assert(false);
                }
                return Ghost(Seq::empty());
            },
        };
        if let Some(c) = card_for_first {
            self.players[t].hands[a].cards.push(c);
            proof {
                assert(self.players@[t as int].hands@[a as int].cards@ =~= old_cards.drop_last().push(c));
            }
        }
        let mut moved: Vec<Card> = Vec::new();
        moved.push(split_card);
        if let Some(c) = card_for_second {
            moved.push(c);
        }
        let ghost hands_mid = self.players@[t as int].hands@;
        let ghost kept_cards = self.players@[t as int].hands@[a as int].cards@;
        proof {
            assert(hands_mid.len() == old_hands.len());
            assert(a < hands_mid.len());
            lemma_hands_view_update(old_hands, hands_mid, a as int);
        }
        let n = self.players[t].hands.len();
        proof {
            assert(n == hands_mid.len());
        }
        self.players[t].hands.insert(a + 1, Hand { cards: moved, bet, status: HandStatus::Playing });
        proof {
            assert(self.players@[t as int].hands@[a as int] == hands_mid[a as int]);
        }
        proof {
            lemma_players_view_update(old_players, self.players@, t as int);
            assert(hands_view(self.players@[t as int].hands@) =~= hands_view(hands_mid).insert(
                a + 1,
                HandView { cards: moved@, bet, status: HandStatus::Playing },
            ));
            assert(old_cards.last() == split_card);
        }
        proof {
            let rs = seq![card_for_first, card_for_second];
            let p = s0.players[t as int];
            let h = p.hands[a as int];
            let kept = match rs[0] {
                Some(c) => h.cards.drop_last().push(c),
                None => h.cards.drop_last(),
            };
            let mv = match rs[1] {
                Some(c) => seq![h.cards.last(), c],
                None => seq![h.cards.last()],
            };
            assert(mv =~= moved@);
            assert(kept =~= kept_cards);
            let hands = p.hands.update(a as int, HandView { cards: kept, ..h }).insert(
                a + 1,
                HandView { cards: mv, bet: h.bet, status: HandStatus::Playing },
            );
            assert(self@.players[t as int].hands =~= hands);
            assert(self@ =~= s0.with_deck(self@.deck).with_player(
                t as int,
                PlayerView { chips: (p.chips - h.bet) as u32, hands, ..p },
            ));
        }
        self.broadcast_state();
        let ghost out = seq![card_for_first, card_for_second];
        Ghost(out)
    }

    /// A move by a player, who must hold the turn.
    fn handle_action(&mut self, player_id: u128, action: ActionType) -> (rs: Ghost<Seq<Option<Card>>>)
        ensures
            draws_rel(old(self)@.settings.deck_count as nat, old(self)@.deck, rs@, final(self)@.deck),
            old(self)@.with_deck(final(self)@.deck).action(player_id, action, rs@) == Some(final(self)@),
    {
        let ghost s0 = self@;
        proof {
            lemma_draws_none(s0.settings.deck_count as nat, s0.deck);
        }
        if self.phase != GamePhase::Playing {
            self.send_error(player_id, "Actions can only be performed during the Playing phase.");
            return Ghost(Seq::empty());
        }
        let t = self.turn_index;
        let is_turn = t < self.players.len() && self.players[t].id == player_id;
        proof {
            if t < self.players@.len() {
                assert(self@.players[t as int] == self.players@[t as int]@);
            }
        }
        if !is_turn {
            self.send_error(player_id, "It is not your turn.");
            return Ghost(Seq::empty());
        }
        let a = self.players[t].active_hand_index;
        if a >= self.players[t].hands.len() {
            self.broadcast_state();
            return Ghost(Seq::empty());
        }
        proof {
            assert(self@.players[t as int].hands[a as int] == self.players@[t as int].hands@[a as int]@);
        }
        match action {
            ActionType::Hit => self.hit(),
            ActionType::Stand => {
                let ghost old_players = self.players@;
                let ghost old_hands = self.players@[t as int].hands@;
                self.players[t].hands[a].status = HandStatus::Stood;
                proof {
                    lemma_hands_view_update(old_hands, self.players@[t as int].hands@, a as int);
                    lemma_players_view_update(old_players, self.players@, t as int);
                }
                let ghost s1 = self@;
                let r = self.advance_turn();
                proof {
                    let p = s0.players[t as int];
                    let fd = self@.deck;
                    assert(s0.with_deck(fd).with_player(
                        t as int,
                        PlayerView {
                            hands: p.hands.update(
                                a as int,
                                HandView { status: HandStatus::Stood, ..p.hands[a as int] },
                            ),
                            ..p
                        },
                    ) =~~= s1.with_deck(fd));
                }
                r
            },
            ActionType::Double => {
                if self.players[t].chips >= self.players[t].hands[a].bet {
                    self.double_down()
                } else {
                    self.send_error(player_id, "Not enough chips to double down.");
                    self.broadcast_state();
                    Ghost(Seq::empty())
                }
            },
            ActionType::Split => {
                let hand = &self.players[t].hands[a];
                if hand.cards.len() == 2 && self.players[t].chips >= hand.bet && hand.cards[0].rank
                    == hand.cards[1].rank {
                    self.split()
                } else {
                    self.send_error(player_id, "Cannot split: need pair and enough chips.");
                    self.broadcast_state();
                    Ghost(Seq::empty())
                }
            },
        }
    }

    fn handle_start_game(&mut self, player_id: u128) -> (rs: Ghost<Seq<Option<Card>>>)
        ensures
            draws_rel(old(self)@.settings.deck_count as nat, old(self)@.deck, rs@, final(self)@.deck),
            old(self)@.with_deck(final(self)@.deck).start_game(player_id, rs@) == Some(final(self)@),
    {
        let ghost s0 = self@;
        proof {
            lemma_draws_none(s0.settings.deck_count as nat, s0.deck);
        }
        if !self.is_admin(player_id) {
            self.send_error(player_id, "Only admins can start the game.");
            return Ghost(Seq::empty());
        }
        match self.phase {
            GamePhase::Lobby => {
                self.start_betting_phase();
                Ghost(Seq::empty())
            },
            GamePhase::Betting => self.start_action_phase(),
            GamePhase::Playing => self.force_stand_current_player(),
            _ => {
                self.send_error(player_id, "Invalid phase for StartGame command.");
                Ghost(Seq::empty())
            },
        }
    }

    /// A message from a seated connection, on behalf of its player.
    fn handle_game_message(&mut self, player_id: u128, msg: ClientMessage) -> (rs: Ghost<
        Seq<Option<Card>>,
    >)
        ensures
            draws_rel(old(self)@.settings.deck_count as nat, old(self)@.deck, rs@, final(self)@.deck),
            old(self)@.with_deck(final(self)@.deck).game_message(player_id, msg, rs@) == Some(
                final(self)@,
            ),
    {
        let ghost s0 = self@;
        proof {
            lemma_draws_none(s0.settings.deck_count as nat, s0.deck);
        }
        match msg {
            ClientMessage::PlaceBet { amount } => self.handle_bet(player_id, amount),
            ClientMessage::GameAction { action_type } => self.handle_action(player_id, action_type),
            ClientMessage::ApprovePlayer { player_id: target_id } => {
                self.handle_approve(player_id, target_id);
                Ghost(Seq::empty())
            },
            ClientMessage::KickPlayer { player_id: target_id } => {
                self.handle_kick(player_id, target_id);
                Ghost(Seq::empty())
            },
            ClientMessage::UpdateSettings { settings } => {
                self.handle_update_settings(player_id, settings);
                Ghost(Seq::empty())
            },
            ClientMessage::AdminUpdateBalance { target_id, change_chips } => {
                self.handle_admin_update_balance(player_id, target_id, change_chips);
                Ghost(Seq::empty())
            },
            ClientMessage::Chat { message } => {
                self.handle_chat(player_id, message);
                Ghost(Seq::empty())
            },
            ClientMessage::StartGame => self.handle_start_game(player_id),
            ClientMessage::NextRound => {
                self.handle_next_round(player_id);
                Ghost(Seq::empty())
            },
            ClientMessage::Ping => {
                self.handle_ping(player_id);
                Ghost(Seq::empty())
            },
            _ => Ghost(Seq::empty()),
        }
    }

    /// Handles one message from connection `connection_id` and hands back
    /// exactly what the room sends in answer to it, in order. A join or
    /// reconnect comes from a connection without a seat; any other message
    /// counts only from a connection with one; a disconnect notice ends the
    /// connection.
    pub fn handle_message(&mut self, connection_id: u128, msg: ClientMessage) -> (out: Vec<
        BroadcastMessage,
    >)
        ensures
            step_rel(
                old(self)@.with_outbox(Seq::empty()),
                connection_id,
                msg,
                final(self)@.with_outbox(outgoing_view(out@)),
            ),
            final(self)@.outbox.len() == 0,
    {
        self.outbox = Vec::new();
        proof {
            assert(outgoing_view(self.outbox@) =~= Seq::<crate::messages::Outgoing>::empty());
            assert(self@ =~= old(self)@.with_outbox(Seq::empty()));
        }
        let ghost s0 = self@;
        let ghost k = s0.settings.deck_count as nat;
        proof {
            lemma_draws_none(k, s0.deck);
        }
        let ghost mut id: u128 = some_v4_uuid();
        let ghost mut secret_id: u128 = some_v4_uuid();
        proof {
            lemma_some_v4_uuid();
        }
        let rs: Ghost<Seq<Option<Card>>> = match msg {
            ClientMessage::JoinGame { username } => {
                let fresh = self.handle_join(connection_id, username);
                proof {
                    id = fresh.0@;
                    secret_id = fresh.1@;
                }
                Ghost(Seq::empty())
            },
            ClientMessage::Reconnect { player_id, secret } => {
                self.handle_reconnect(connection_id, player_id, secret);
                Ghost(Seq::empty())
            },
            ClientMessage::Disconnect => {
                self.handle_disconnect(connection_id);
                Ghost(Seq::empty())
            },
            other => match self.find_connection(connection_id) {
                Some(k) => {
                    let player_id = self.connections[k].1;
                    self.handle_game_message(player_id, other)
                },
                None => Ghost(Seq::empty()),
            },
        };
        let mut out: Vec<BroadcastMessage> = Vec::new();
        std::mem::swap(&mut out, &mut self.outbox);
        proof {
            let post = self@.with_outbox(outgoing_view(out@));
            assert(outgoing_view(self.outbox@) =~= Seq::<crate::messages::Outgoing>::empty());
            assert(s0.with_deck(post.deck).step(connection_id, msg, rs@, id, secret_id) == Some(post));
        }
        out
    }

    fn count_playing_players(&self) -> (n: usize)
        ensures
            n == count_playing(self@.players),
    {
        let mut n: usize = 0;
        let mut i: usize = 0;
        while i < self.players.len()
            invariant
                i <= self.players@.len(),
                n == count_playing(self@.players.take(i as int)),
                n <= i,
            decreases self.players@.len() - i,
        {
            proof {
                lemma_count_playing_take(self@.players, i as int);
                assert(self@.players[i as int] == self.players@[i as int]@);
            }
            if self.players[i].status == PlayerStatus::Playing {
                n = n + 1;
            }
            i = i + 1;
        }
        proof {
            assert(self@.players.take(self@.players.len() as int) =~= self@.players);
        }
        n
    }

    /// Number of connected players.
    pub fn connected_count(&self) -> (n: usize)
        ensures
            n == count_connected(self@.players),
    {
        let mut n: usize = 0;
        let mut i: usize = 0;
        while i < self.players.len()
            invariant
                i <= self.players@.len(),
                n == count_connected(self@.players.take(i as int)),
                n <= i,
            decreases self.players@.len() - i,
        {
            proof {
                lemma_count_connected_take(self@.players, i as int);
                assert(self@.players[i as int] == self.players@[i as int]@);
            }
            if self.players[i].is_connected {
                n = n + 1;
            }
            i = i + 1;
        }
        proof {
            assert(self@.players.take(self@.players.len() as int) =~= self@.players);
        }
        n
    }

    /// Whether any connection is attached to the room.
    pub fn has_connections(&self) -> (b: bool)
        ensures
            b == (self@.connections.len() > 0),
    {
        self.connections.len() > 0
    }

    fn handle_ping(&mut self, player_id: u128)
        ensures
            final(self)@ == old(self)@.ping(player_id),
    {
        if let Some(k) = self.find_connection_of(player_id) {
            let conn = self.connections[k].0;
            self.emit(Some(conn), ServerMessage::Pong);
        }
    }
}

} // verus!
