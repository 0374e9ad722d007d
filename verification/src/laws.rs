//! Properties of the room that hold across every message it handles.
use vstd::prelude::*;
use crate::cards::{Card, hand_value};
use crate::deck::draws_rel;
use crate::messages::{ClientMessage, MessageView, Outgoing};
use crate::model::{
    GameState, conn_of_player, conn_pos, count_playing, dealer_draws, done, is_first_conn,
    is_first_conn_of, is_first_player, player_pos, step_rel,
};
use crate::types::{GamePhase, PlayerStatus};

verus! {

/// The phase changes a single message can bring about: the admin opens
/// betting from the lobby or after a payout; betting turns into play (or
/// straight into payout when nobody has to act); play ends in payout.
pub open spec fn phase_step_allowed(from: GamePhase, to: GamePhase) -> bool {
    ||| from == to
    ||| from == GamePhase::Lobby && to == GamePhase::Betting
    ||| from == GamePhase::Betting && (to == GamePhase::Playing || to == GamePhase::Payout)
    ||| from == GamePhase::Playing && to == GamePhase::Payout
    ||| (from == GamePhase::Payout || from == GamePhase::GameOver) && to == GamePhase::Betting
}

/// The round is over and the dealer stopped as the rules say: at 17 or
/// more, or because the shoe gave nothing.
pub open spec fn round_closed(t: GameState, rs: Seq<Option<Card>>) -> bool {
    t.phase == GamePhase::Payout && (hand_value(t.dealer_hand) >= 17 || rs.contains(None))
}

proof fn lemma_dealer_draws_stop(h: Seq<Card>, rs: Seq<Option<Card>>)
    requires
        dealer_draws(h, rs) is Some,
    ensures
        hand_value(dealer_draws(h, rs)->Some_0) >= 17 || rs.contains(None),
    decreases rs.len(),
{
    if hand_value(h) < 17 && rs.len() > 0 {
        match rs[0] {
            None => {
                assert(rs[0] == None::<Card>);
            },
            Some(c) => {
                lemma_dealer_draws_stop(h.push(c), rs.drop_first());
                if rs.drop_first().contains(None) {
                    let i = choose|i: int| 0 <= i < rs.drop_first().len() && rs.drop_first()[i] == None::<Card>;
                    assert(rs[i + 1] == None::<Card>);
                }
            },
        }
    }
}

proof fn lemma_play_dealer(s: GameState, rs: Seq<Option<Card>>)
    requires
        s.play_dealer(rs) is Some,
    ensures
        round_closed(s.play_dealer(rs)->Some_0, rs),
        s.play_dealer(rs)->Some_0.settings == s.settings,
{
    lemma_dealer_draws_stop(s.dealer_hand, rs);
}

/// A later part of the draws has no empty draw the whole lacks.
proof fn lemma_contains_suffix(rs: Seq<Option<Card>>, m: int)
    requires
        0 <= m <= rs.len(),
        rs.skip(m).contains(None),
    ensures
        rs.contains(None),
{
    let i = choose|i: int| 0 <= i < rs.skip(m).len() && rs.skip(m)[i] == None::<Card>;
    assert(rs[m + i] == None::<Card>);
}

proof fn lemma_pass_turn(s: GameState, rs: Seq<Option<Card>>)
    requires
        s.pass_turn(rs) is Some,
    ensures
        s.pass_turn(rs)->Some_0.phase == s.phase || round_closed(s.pass_turn(rs)->Some_0, rs),
        s.pass_turn(rs)->Some_0.settings == s.settings,
{
    let t = s.turn_index as int;
    let start: int = if t == usize::MAX {
        0
    } else {
        t + 1
    };
    match crate::model::next_turn(s.players, start - 1) {
        Some(n) => {},
        None => {
            let s1 = s.with_turn(
                if start >= s.players.len() {
                    start as usize
                } else {
                    s.players.len() as usize
                },
            );
            lemma_play_dealer(s1, rs);
        },
    }
}

proof fn lemma_advance(s: GameState, rs: Seq<Option<Card>>)
    requires
        s.advance(rs) is Some,
    ensures
        s.advance(rs)->Some_0.phase == s.phase || round_closed(s.advance(rs)->Some_0, rs),
        s.advance(rs)->Some_0.settings == s.settings,
{
    let t = s.turn_index as int;
    if t < s.players.len() && s.players[t].status == crate::types::PlayerStatus::Playing
        && s.players[t].active_hand_index + 1 < s.players[t].hands.len() {
    } else {
        let start: int = if t == usize::MAX {
            0
        } else {
            t + 1
        };
        match crate::model::next_turn(s.players, start - 1) {
            Some(n) => {},
            None => {
                let s1 = s.with_turn(
                    if start >= s.players.len() {
                        start as usize
                    } else {
                        s.players.len() as usize
                    },
                );
                lemma_play_dealer(s1, rs);
            },
        }
    }
}

proof fn lemma_drop_first_contains(rs: Seq<Option<Card>>)
    requires
        rs.len() > 0,
        rs.drop_first().contains(None),
    ensures
        rs.contains(None),
{
    assert(rs.drop_first() =~= rs.skip(1));
    lemma_contains_suffix(rs, 1);
}

proof fn lemma_action(s: GameState, pid: u128, a: crate::messages::ActionType, rs: Seq<Option<Card>>)
    requires
        s.action(pid, a, rs) is Some,
    ensures
        s.action(pid, a, rs)->Some_0.phase == s.phase || round_closed(s.action(pid, a, rs)->Some_0, rs),
        s.action(pid, a, rs)->Some_0.settings == s.settings,
{
    let t = s.turn_index as int;
    if s.phase == GamePhase::Playing && t < s.players.len() && s.players[t].id == pid {
        let p = s.players[t];
        let ai = p.active_hand_index as int;
        if ai < p.hands.len() {
            let h = p.hands[ai];
            match a {
                crate::messages::ActionType::Hit => {
                    match rs[0] {
                        Some(c) => {
                            let p1 = crate::model::give_card(p, ai, c);
                            if hand_value(p1.hands[ai].cards) > 21 {
                                let s1 = s.with_player(
                                    t,
                                    crate::types::PlayerView {
                                        hands: p1.hands.update(
                                            ai,
                                            crate::types::HandView {
                                                status: crate::types::HandStatus::Busted,
                                                ..p1.hands[ai]
                                            },
                                        ),
                                        ..p1
                                    },
                                );
                                lemma_advance(s1, rs.drop_first());
                                if s1.advance(rs.drop_first())->Some_0.phase != s.phase {
                                    if rs.drop_first().contains(None) {
                                        lemma_drop_first_contains(rs);
                                    }
                                }
                            }
                        },
                        None => {},
                    }
                },
                crate::messages::ActionType::Stand => {
                    let s1 = s.with_player(
                        t,
                        crate::types::PlayerView {
                            hands: p.hands.update(
                                ai,
                                crate::types::HandView {
                                    status: crate::types::HandStatus::Stood,
                                    ..h
                                },
                            ),
                            ..p
                        },
                    );
                    lemma_advance(s1, rs);
                },
                crate::messages::ActionType::Double => {
                    if p.chips >= h.bet {
                        match rs[0] {
                            Some(c) => {
                                let s1 = s.with_player(
                                    t,
                                    crate::types::PlayerView { chips: (p.chips - h.bet) as u32, ..p },
                                );
                                let cards = h.cards.push(c);
                                let h1 = crate::types::HandView {
                                    cards,
                                    bet: crate::model::wrap32(h.bet + h.bet),
                                    status: if hand_value(cards) > 21 {
                                        crate::types::HandStatus::Busted
                                    } else {
                                        crate::types::HandStatus::Doubled
                                    },
                                };
                                let s2 = s1.with_player(
                                    t,
                                    crate::types::PlayerView {
                                        hands: p.hands.update(ai, h1),
                                        ..s1.players[t]
                                    },
                                );
                                lemma_advance(s2, rs.drop_first());
                                if s2.advance(rs.drop_first())->Some_0.phase != s.phase {
                                    if rs.drop_first().contains(None) {
                                        lemma_drop_first_contains(rs);
                                    }
                                }
                            },
                            None => {},
                        }
                    }
                },
                crate::messages::ActionType::Split => {},
            }
        }
    }
}

proof fn lemma_start_action(s: GameState, rs: Seq<Option<Card>>)
    requires
        s.start_action(rs) is Some,
    ensures
        ({
            let t = s.start_action(rs)->Some_0;
            &&& t.phase == GamePhase::Betting || t.phase == GamePhase::Playing || round_closed(t, rs)
            &&& t.settings == s.settings
        }),
{
    let n = count_playing(s.players) as int;
    if n != 0 {
        let s0 = s.with_turn(0).with_phase(GamePhase::Playing);
        let s1 = s0.deal_round(rs.take(n + 1)).deal_round(rs.subrange(n + 1, 2 * (n + 1)));
        let s2 = s1.with_players(s1.players.map_values(|p: crate::types::PlayerView| crate::model::mark_blackjack(p)));
        let rest = rs.skip(2 * (n + 1));
        match crate::model::first_opener(s2.players) {
            Some(pos) => {},
            None => {
                lemma_play_dealer(s2, rest);
                if rest.contains(None) {
                    lemma_contains_suffix(rs, 2 * (n + 1));
                }
            },
        }
    }
}

proof fn lemma_bet(s: GameState, pid: u128, amount: u32, rs: Seq<Option<Card>>)
    requires
        s.bet(pid, amount, rs) is Some,
    ensures
        ({
            let t = s.bet(pid, amount, rs)->Some_0;
            &&& t.phase == s.phase || (s.phase == GamePhase::Betting && (t.phase == GamePhase::Playing
                || round_closed(t, rs)))
        }),
{
    if s.phase == GamePhase::Betting {
        match player_pos(s.players, pid) {
            Some(i) => {
                let p = s.players[i];
                if p.status != PlayerStatus::PendingApproval && (p.status == PlayerStatus::Sitting
                    || p.status == PlayerStatus::Spectating) && p.chips >= amount {
                    let s1 = s.with_player(
                        i,
                        crate::types::PlayerView {
                            chips: (p.chips - amount) as u32,
                            status: PlayerStatus::Playing,
                            hands: seq![
                                crate::types::HandView {
                                    cards: Seq::empty(),
                                    bet: amount,
                                    status: crate::types::HandStatus::Playing,
                                },
                            ],
                            active_hand_index: 0,
                            ..p
                        },
                    );
                    if crate::model::all_ready(s1.players) {
                        lemma_start_action(s1, rs);
                    }
                }
            },
            None => {},
        }
    }
}

proof fn lemma_start_game(s: GameState, pid: u128, rs: Seq<Option<Card>>)
    requires
        s.start_game(pid, rs) is Some,
    ensures
        ({
            let t = s.start_game(pid, rs)->Some_0;
            &&& phase_step_allowed(s.phase, t.phase)
            &&& (t.phase == GamePhase::Payout && s.phase != GamePhase::Payout ==> round_closed(t, rs))
        }),
{
    if s.is_admin(pid) {
        if s.phase == GamePhase::Betting {
            lemma_start_action(s, rs);
        } else if s.phase == GamePhase::Playing {
            let t = s.turn_index as int;
            let s1 = if t < s.players.len() {
                s.with_player(
                    t,
                    crate::types::PlayerView {
                        hands: s.players[t].hands.map_values(
                            |h: crate::types::HandView| crate::model::stood(h),
                        ),
                        ..s.players[t]
                    },
                )
            } else {
                s
            };
            lemma_pass_turn(s1, rs);
        }
    }
}

#[verifier::spinoff_prover]
proof fn lemma_game_message(s: GameState, pid: u128, msg: ClientMessage, rs: Seq<Option<Card>>)
    requires
        s.game_message(pid, msg, rs) is Some,
    ensures
        ({
            let t = s.game_message(pid, msg, rs)->Some_0;
            &&& phase_step_allowed(s.phase, t.phase)
            &&& (t.phase == GamePhase::Payout && s.phase != GamePhase::Payout ==> round_closed(t, rs))
        }),
{
    match msg {
        ClientMessage::PlaceBet { amount } => {
            lemma_bet(s, pid, amount, rs);
        },
        ClientMessage::GameAction { action_type } => {
            lemma_action(s, pid, action_type, rs);
        },
        ClientMessage::StartGame => {
            lemma_start_game(s, pid, rs);
        },
        _ => {},
    }
}

/// Every message moves the room along the phases in the documented order:
/// Lobby -> Betting -> Playing -> Payout -> Betting, where betting may go
/// straight to payout when no player has to act. No message skips ahead or
/// goes back in any other way.
pub proof fn law_phases_follow_the_round(
    pre: GameState,
    conn: u128,
    msg: ClientMessage,
    post: GameState,
)
    requires
        crate::model::step_rel(pre, conn, msg, post),
    ensures
        phase_step_allowed(pre.phase, post.phase),
{
    let (rs, id, sid) = choose|rs: Seq<Option<Card>>, id: u128, sid: u128|
        #[trigger] pre.with_deck(post.deck).step(conn, msg, rs, id, sid) == Some(post)
            && draws_rel(pre.settings.deck_count as nat, pre.deck, rs, post.deck)
            && crate::ids::is_v4_uuid(id) && crate::ids::is_v4_uuid(sid);
    let s = pre.with_deck(post.deck);
    match msg {
        ClientMessage::JoinGame { username } => {},
        ClientMessage::Reconnect { player_id, secret } => {},
        ClientMessage::Disconnect => {},
        _ => match crate::model::conn_pos(s.connections, conn) {
            Some(k) => {
                lemma_game_message(s, s.connections[k].1, msg, rs);
            },
            None => {},
        },
    }
}

/// An empty draw comes only from a room that deals from no decks at all.
proof fn lemma_empty_draw_needs_no_decks(k: nat, a: Seq<Card>, rs: Seq<Option<Card>>, b: Seq<Card>)
    requires
        draws_rel(k, a, rs, b),
        rs.contains(None),
    ensures
        k == 0,
    decreases rs.len(),
{
    let i = choose|i: int| 0 <= i < rs.len() && rs[i] == None::<Card>;
    if i == rs.len() - 1 {
    } else {
        assert(rs.drop_last()[i] == None::<Card>);
        match rs.last() {
            None => {},
            Some(c) => {
                if draws_rel(k, a, rs.drop_last(), b.push(c)) {
                    lemma_empty_draw_needs_no_decks(k, a, rs.drop_last(), b.push(c));
                } else {
                    lemma_empty_draw_needs_no_decks(k, a, rs.drop_last(), Seq::empty());
                }
            },
        }
    }
}

/// The dealer stands only on 17 or more: whenever a message ends a round,
/// the dealer's final hand is worth at least 17, unless the room deals from
/// no decks at all (then the dealer stops when no card comes).
pub proof fn law_dealer_stands_on_seventeen(
    pre: GameState,
    conn: u128,
    msg: ClientMessage,
    post: GameState,
)
    requires
        crate::model::step_rel(pre, conn, msg, post),
        pre.phase != GamePhase::Payout,
        post.phase == GamePhase::Payout,
    ensures
        hand_value(post.dealer_hand) >= 17 || pre.settings.deck_count == 0,
{
    let (rs, id, sid) = choose|rs: Seq<Option<Card>>, id: u128, sid: u128|
        #[trigger] pre.with_deck(post.deck).step(conn, msg, rs, id, sid) == Some(post)
            && draws_rel(pre.settings.deck_count as nat, pre.deck, rs, post.deck)
            && crate::ids::is_v4_uuid(id) && crate::ids::is_v4_uuid(sid);
    let s = pre.with_deck(post.deck);
    match msg {
        ClientMessage::JoinGame { username } => {},
        ClientMessage::Reconnect { player_id, secret } => {},
        ClientMessage::Disconnect => {},
        _ => match crate::model::conn_pos(s.connections, conn) {
            Some(k) => {
                lemma_game_message(s, s.connections[k].1, msg, rs);
                if rs.contains(None) {
                    lemma_empty_draw_needs_no_decks(pre.settings.deck_count as nat, pre.deck, rs, post.deck);
                }
            },
            None => {},
        },
    }
}

// ---------------------------------------------------------------------------
// Refusals

/// Commands only an admin may give.
pub open spec fn is_admin_command(m: ClientMessage) -> bool {
    ||| m is StartGame
    ||| m is ApprovePlayer
    ||| m is KickPlayer
    ||| m is UpdateSettings
    ||| m is AdminUpdateBalance
    ||| m is NextRound
}

/// `post` is `pre` with one error sent to the first connection of `pid`,
/// and nothing else changed.
pub open spec fn refused_with_error(pre: GameState, pid: u128, post: GameState) -> bool {
    &&& post.with_outbox(pre.outbox) == pre
    &&& conn_of_player(pre.connections, pid) is Some
    &&& post.outbox.len() == pre.outbox.len() + 1
    &&& post.outbox.drop_last() == pre.outbox
    &&& post.outbox.last().message is Error
    &&& post.outbox.last().target == Some(
        pre.connections[conn_of_player(pre.connections, pid)->Some_0].0,
    )
}

proof fn lemma_conn_of_player_some(cs: Seq<(u128, u128)>, pid: u128, k: int)
    requires
        0 <= k < cs.len(),
        cs[k].1 == pid,
    ensures
        conn_of_player(cs, pid) is Some,
        is_first_conn_of(cs, pid, conn_of_player(cs, pid)->Some_0),
    decreases k,
{
    if exists|j: int| 0 <= j < k && cs[j].1 == pid {
        let j = choose|j: int| 0 <= j < k && cs[j].1 == pid;
        lemma_conn_of_player_some(cs, pid, j);
    } else {
        assert(is_first_conn_of(cs, pid, k));
    }
}

proof fn lemma_player_pos_some(ps: Seq<crate::types::PlayerView>, id: u128, k: int)
    requires
        0 <= k < ps.len(),
        ps[k].id == id,
    ensures
        player_pos(ps, id) is Some,
        is_first_player(ps, id, player_pos(ps, id)->Some_0),
    decreases k,
{
    if exists|j: int| 0 <= j < k && ps[j].id == id {
        let j = choose|j: int| 0 <= j < k && ps[j].id == id;
        lemma_player_pos_some(ps, id, j);
    } else {
        assert(is_first_player(ps, id, k));
    }
}

proof fn lemma_conn_pos_some(cs: Seq<(u128, u128)>, conn: u128, k: int)
    requires
        0 <= k < cs.len(),
        cs[k].0 == conn,
    ensures
        conn_pos(cs, conn) is Some,
        is_first_conn(cs, conn, conn_pos(cs, conn)->Some_0),
    decreases k,
{
    if exists|j: int| 0 <= j < k && cs[j].0 == conn {
        let j = choose|j: int| 0 <= j < k && cs[j].0 == conn;
        lemma_conn_pos_some(cs, conn, j);
    } else {
        assert(is_first_conn(cs, conn, k));
    }
}

/// Admin commands from a player who is not an admin change nothing: the
/// sender gets an error, and the room stays as it was.
pub proof fn law_only_admins_administer(pre: GameState, conn: u128, msg: ClientMessage, post: GameState)
    requires
        step_rel(pre, conn, msg, post),
        is_admin_command(msg),
        conn_pos(pre.connections, conn) is Some,
        !pre.is_admin(pre.connections[conn_pos(pre.connections, conn)->Some_0].1),
    ensures
        refused_with_error(pre, pre.connections[conn_pos(pre.connections, conn)->Some_0].1, post),
{
    let (rs, id, sid) = choose|rs: Seq<Option<Card>>, id: u128, sid: u128|
        #[trigger] pre.with_deck(post.deck).step(conn, msg, rs, id, sid) == Some(post)
            && draws_rel(pre.settings.deck_count as nat, pre.deck, rs, post.deck)
            && crate::ids::is_v4_uuid(id) && crate::ids::is_v4_uuid(sid);
    let k = conn_pos(pre.connections, conn)->Some_0;
    let pid = pre.connections[k].1;
    let c = choose|c: int| is_first_conn(pre.connections, conn, c);
    assert(is_first_conn(pre.connections, conn, k));
    lemma_conn_of_player_some(pre.connections, pid, k);
    assert(rs.len() == 0);
    assert(post.deck == pre.deck);
    assert(post.with_outbox(pre.outbox) =~= pre);
    assert(post.outbox.drop_last() =~= pre.outbox);
}

/// Bets count only while betting is open, and moves only from the player
/// whose turn it is during play: anything else is answered with an error to
/// the sender and changes nothing.
pub proof fn law_moves_out_of_turn_are_refused(
    pre: GameState,
    conn: u128,
    msg: ClientMessage,
    post: GameState,
)
    requires
        step_rel(pre, conn, msg, post),
        conn_pos(pre.connections, conn) is Some,
        ({
            let pid = pre.connections[conn_pos(pre.connections, conn)->Some_0].1;
            ||| msg is PlaceBet && pre.phase != GamePhase::Betting
            ||| msg is GameAction && (pre.phase != GamePhase::Playing || !(pre.turn_index
                < pre.players.len() && pre.players[pre.turn_index as int].id == pid))
        }),
    ensures
        refused_with_error(pre, pre.connections[conn_pos(pre.connections, conn)->Some_0].1, post),
{
    let (rs, id, sid) = choose|rs: Seq<Option<Card>>, id: u128, sid: u128|
        #[trigger] pre.with_deck(post.deck).step(conn, msg, rs, id, sid) == Some(post)
            && draws_rel(pre.settings.deck_count as nat, pre.deck, rs, post.deck)
            && crate::ids::is_v4_uuid(id) && crate::ids::is_v4_uuid(sid);
    let k = conn_pos(pre.connections, conn)->Some_0;
    let pid = pre.connections[k].1;
    let c = choose|c: int| is_first_conn(pre.connections, conn, c);
    assert(is_first_conn(pre.connections, conn, k));
    lemma_conn_of_player_some(pre.connections, pid, k);
    assert(rs.len() == 0);
    assert(post.deck == pre.deck);
    assert(post.with_outbox(pre.outbox) =~= pre);
    assert(post.outbox.drop_last() =~= pre.outbox);
}

// ---------------------------------------------------------------------------
// Seats and sessions

/// Session persistence: a client that joined and lost its connection gets
/// its seat back on a new connection with the id and secret it was handed
/// on joining, as the admin it was or not, and shows as connected again.
pub proof fn law_secret_restores_the_seat(
    pre: GameState,
    c1: u128,
    name: Seq<char>,
    id: u128,
    secret: Seq<char>,
    c2: u128,
)
    requires
        conn_pos(pre.connections, c1) is None,
        conn_pos(pre.connections, c2) is None,
        c1 != c2,
        pre.players.len() < pre.settings.max_players,
        player_pos(pre.players, id) is None,
        conn_of_player(pre.connections, id) is None,
    ensures
        ({
            let joined = pre.join(c1, name, id, secret);
            let left = joined.disconnect(c1);
            let back = left.reconnect(c2, id, secret);
            let n = pre.players.len() as int;
            &&& joined.outbox.contains(
                Outgoing {
                    target: Some(c1),
                    message: MessageView::JoinedLobby {
                        game_id: pre.game_id,
                        your_id: id,
                        secret,
                        is_admin: n == 0,
                    },
                },
            )
            &&& !left.players[n].is_connected
            &&& back.players[n].is_connected
            &&& back.players[n].id == id
            &&& back.connections == pre.connections.push((c2, id))
            &&& back.outbox[back.outbox.len() - 2] == Outgoing {
                target: Some(c2),
                message: MessageView::JoinedLobby {
                    game_id: pre.game_id,
                    your_id: id,
                    secret,
                    is_admin: n == 0,
                },
            }
        }),
{
    let joined = pre.join(c1, name, id, secret);
    let n = pre.players.len() as int;
    let cs1 = joined.connections;
    assert(cs1 == pre.connections.push((c1, id)));
    assert forall|j: int| 0 <= j < pre.connections.len() implies pre.connections[j].0 != c1 by {
        if pre.connections[j].0 == c1 {
            lemma_conn_pos_some(pre.connections, c1, j);
        }
    }
    assert forall|j: int| 0 <= j < pre.connections.len() implies pre.connections[j].0 != c2 by {
        if pre.connections[j].0 == c2 {
            lemma_conn_pos_some(pre.connections, c2, j);
        }
    }
    assert forall|j: int| 0 <= j < pre.connections.len() implies pre.connections[j].1 != id by {
        if pre.connections[j].1 == id {
            lemma_conn_of_player_some(pre.connections, id, j);
        }
    }
    assert forall|j: int| 0 <= j < pre.players.len() implies pre.players[j].id != id by {
        if pre.players[j].id == id {
            lemma_player_pos_some(pre.players, id, j);
        }
    }
    let jm = Outgoing {
        target: Some(c1),
        message: MessageView::JoinedLobby {
            game_id: pre.game_id,
            your_id: id,
            secret,
            is_admin: n == 0,
        },
    };
    assert(joined.outbox[joined.outbox.len() - 2] == jm);
    assert(is_first_conn(cs1, c1, pre.connections.len() as int));
    assert(conn_pos(cs1, c1) == Some(pre.connections.len() as int)) by {
        let j = choose|j: int| is_first_conn(cs1, c1, j);
        assert(is_first_conn(cs1, c1, j));
    }
    assert(cs1.remove(pre.connections.len() as int) =~= pre.connections);
    assert(is_first_player(joined.players, id, n));
    assert(player_pos(joined.players, id) == Some(n)) by {
        let j = choose|j: int| is_first_player(joined.players, id, j);
        assert(is_first_player(joined.players, id, j));
    }
    let left = joined.disconnect(c1);
    assert(conn_of_player(pre.connections, id) is None);
    assert(left.connections == pre.connections);
    assert(left.players.len() == n + 1);
    assert(left.players[n].id == id);
    assert(is_first_player(left.players, id, n));
    assert(player_pos(left.players, id) == Some(n)) by {
        let j = choose|j: int| is_first_player(left.players, id, j);
        assert(is_first_player(left.players, id, j));
    }
    assert(conn_pos(left.connections, c2) is None);
    let back = left.reconnect(c2, id, secret);
    assert(back.connections =~= pre.connections.push((c2, id)));
}

/// Joining: a full room (as many seats as `max_players`) refuses the
/// newcomer with an error and stays as it was; otherwise the newcomer gets a
/// seat with the room's starting chips, is the admin exactly when the room
/// was empty, waits for approval exactly when the room asks for it and they
/// are not the first, and is told their credentials.
pub proof fn law_join_seats_or_refuses(pre: GameState, conn: u128, name: Seq<char>, id: u128, secret: Seq<char>)
    requires
        conn_pos(pre.connections, conn) is None,
    ensures
        ({
            let post = pre.join(conn, name, id, secret);
            let n = pre.players.len() as int;
            if n >= pre.settings.max_players {
                &&& post.with_outbox(pre.outbox) == pre
                &&& post.outbox == pre.outbox.push(
                    Outgoing {
                        target: Some(conn),
                        message: MessageView::Error { msg: "Game is full"@ },
                    },
                )
            } else {
                &&& post.players.len() == n + 1
                &&& post.players.take(n) == pre.players
                &&& post.players[n].id == id
                &&& post.players[n].chips == pre.settings.initial_chips
                &&& post.players[n].is_admin == (n == 0)
                &&& (post.players[n].status == PlayerStatus::PendingApproval) == (
                pre.settings.approval_required && n > 0)
                &&& post.players[n].is_connected
                &&& post.connections == pre.connections.push((conn, id))
                &&& post.outbox.contains(
                    Outgoing {
                        target: Some(conn),
                        message: MessageView::JoinedLobby {
                            game_id: pre.game_id,
                            your_id: id,
                            secret,
                            is_admin: n == 0,
                        },
                    },
                )
            }
        }),
{
    let post = pre.join(conn, name, id, secret);
    let n = pre.players.len() as int;
    if n >= pre.settings.max_players {
        assert(post.with_outbox(pre.outbox) =~= pre);
    } else {
        assert(post.players.take(n) =~= pre.players);
        assert(post.outbox[post.outbox.len() - 2] == Outgoing {
            target: Some(conn),
            message: MessageView::JoinedLobby {
                game_id: pre.game_id,
                your_id: id,
                secret,
                is_admin: n == 0,
            },
        });
    }
}

/// Requests to approve a newcomer go to admins only: a join that leaves the
/// newcomer waiting for approval tells every connection of an admin of the
/// request, and no other connection; any other join sends no request.
pub proof fn law_join_requests_reach_admins_only(
    pre: GameState,
    conn: u128,
    name: Seq<char>,
    id: u128,
    secret: Seq<char>,
)
    requires
        conn_pos(pre.connections, conn) is None,
    ensures
        ({
            let post = pre.join(conn, name, id, secret);
            let n = pre.players.len() as int;
            let pending = n < pre.settings.max_players && pre.settings.approval_required && n > 0;
            &&& forall|j: int|
                pre.outbox.len() <= j < post.outbox.len() && (#[trigger] post.outbox[j]).message is PlayerRequest
                    ==> {
                    &&& pending
                    &&& post.outbox[j].message == (MessageView::PlayerRequest { id, name })
                    &&& exists|k: int|
                        0 <= k < pre.connections.len() && pre.is_admin(pre.connections[k].1)
                            && post.outbox[j].target == Some(#[trigger] pre.connections[k].0)
                }
            &&& pending ==> forall|k: int|
                0 <= k < pre.connections.len() && pre.is_admin(#[trigger] pre.connections[k].1)
                    ==> post.outbox.contains(
                    Outgoing {
                        target: Some(pre.connections[k].0),
                        message: MessageView::PlayerRequest { id, name },
                    },
                )
        }),
{
    let post = pre.join(conn, name, id, secret);
    let n = pre.players.len() as int;
    let pending = n < pre.settings.max_players && pre.settings.approval_required && n > 0;
    let o = pre.outbox.len() as int;
    let cs = pre.connections;
    let adm = crate::model::admin_connection(pre);
    let rn = crate::model::request_notice(id, name);
    let gone = cs.filter(adm);
    let notices = gone.map_values(rn);
    if pending {
        assert(post.outbox.len() == o + notices.len() + 2);
        assert forall|j: int|
            o <= j < post.outbox.len() && (#[trigger] post.outbox[j]).message is PlayerRequest implies {
            &&& post.outbox[j].message == (MessageView::PlayerRequest { id, name })
            &&& exists|k: int|
                0 <= k < cs.len() && pre.is_admin(cs[k].1) && post.outbox[j].target == Some(
                    #[trigger] cs[k].0,
                )
        } by {
            if j < o + notices.len() {
                let m = j - o;
                assert(post.outbox[j] == notices[m]);
                cs.lemma_filter_pred(adm, m);
                assert(gone.contains(gone[m]));
                cs.lemma_filter_contains_rev(adm, gone[m]);
                let k = choose|k: int| 0 <= k < cs.len() && cs[k] == gone[m];
                assert(pre.is_admin(cs[k].1) && post.outbox[j].target == Some(cs[k].0));
            }
        }
        assert forall|k: int|
            0 <= k < cs.len() && pre.is_admin(#[trigger] cs[k].1) implies post.outbox.contains(
            Outgoing { target: Some(cs[k].0), message: MessageView::PlayerRequest { id, name } },
        ) by {
            assert(adm(cs[k]));
            cs.lemma_filter_contains(adm, k);
            let m = choose|m: int| 0 <= m < gone.len() && gone[m] == cs[k];
            assert(post.outbox[o + m] == notices[m]);
        }
    }
}

/// Kicking: once an admin kicks another player, every connection of that
/// player has been told it was kicked and is gone from the room, and the
/// player's seat is gone.
pub proof fn law_kick_removes_the_player(pre: GameState, admin: u128, target: u128)
    requires
        pre.is_admin(admin),
        admin != target,
    ensures
        ({
            let post = pre.kick(admin, target);
            &&& forall|j: int| 0 <= j < post.connections.len() ==> post.connections[j].1 != target
            &&& forall|j: int|
                0 <= j < pre.connections.len() && pre.connections[j].1 == target
                    ==> post.outbox.contains(
                    Outgoing { target: Some(pre.connections[j].0), message: MessageView::Kicked },
                )
            &&& post.players == match player_pos(pre.players, target) {
                Some(i) => pre.players.remove(i),
                None => pre.players,
            }
        }),
{
    let post = pre.kick(admin, target);
    let cs = pre.connections;
    let kept = cs.filter(crate::model::belongs_to_other_than(target));
    let gone = cs.filter(crate::model::belongs_to(target));
    let notices = gone.map_values(crate::model::kicked_notice());
    assert forall|j: int| 0 <= j < kept.len() implies kept[j].1 != target by {
        cs.lemma_filter_pred(crate::model::belongs_to_other_than(target), j);
    }
    assert forall|j: int| 0 <= j < cs.len() && cs[j].1 == target implies post.outbox.contains(
        Outgoing { target: Some(cs[j].0), message: MessageView::Kicked },
    ) by {
        cs.lemma_filter_contains(crate::model::belongs_to(target), j);
        let m = choose|m: int| 0 <= m < gone.len() && gone[m] == cs[j];
        let o = pre.outbox.len() as int;
        assert((pre.outbox + notices)[o + m] == notices[m]);
        assert(post.outbox[o + m] == notices[m]);
    }
}

/// During play clients see only the dealer's first card; in every other
/// phase they see the dealer's whole hand.
pub proof fn law_dealer_hole_card_hidden(s: GameState)
    ensures
        s.snapshot() matches MessageView::GameStateSnapshot { dealer_hand, .. } && (if s.phase
            == GamePhase::Playing {
            dealer_hand.len() <= 1 && (s.dealer_hand.len() > 0 ==> dealer_hand[0]
                == s.dealer_hand[0])
        } else {
            dealer_hand == s.dealer_hand
        }),
{
}

/// Admin force-start: when an admin starts the play while some players have
/// bet, play begins (or the round is paid out at once when nobody has to
/// act), and every player who has not bet sits the round out untouched.
pub proof fn law_admin_start_skips_non_bettors(pre: GameState, conn: u128, post: GameState)
    requires
        step_rel(pre, conn, ClientMessage::StartGame, post),
        conn_pos(pre.connections, conn) is Some,
        pre.is_admin(pre.connections[conn_pos(pre.connections, conn)->Some_0].1),
        pre.phase == GamePhase::Betting,
        count_playing(pre.players) > 0,
    ensures
        post.phase == GamePhase::Playing || post.phase == GamePhase::Payout,
        post.players.len() == pre.players.len(),
        forall|i: int|
            0 <= i < pre.players.len() && (#[trigger] pre.players[i]).status != PlayerStatus::Playing
                ==> post.players[i] == pre.players[i],
{
    let msg = ClientMessage::StartGame;
    let (rs, id, sid) = choose|rs: Seq<Option<Card>>, id: u128, sid: u128|
        #[trigger] pre.with_deck(post.deck).step(conn, msg, rs, id, sid) == Some(post)
            && draws_rel(pre.settings.deck_count as nat, pre.deck, rs, post.deck)
            && crate::ids::is_v4_uuid(id) && crate::ids::is_v4_uuid(sid);
    let s = pre.with_deck(post.deck);
    let pid = pre.connections[conn_pos(pre.connections, conn)->Some_0].1;
    assert(s.step(conn, msg, rs, id, sid) == s.start_action(rs));
    let n = count_playing(s.players) as int;
    let s0 = s.with_turn(0).with_phase(GamePhase::Playing);
    let d1 = s0.deal_round(rs.take(n + 1));
    let d2 = d1.deal_round(rs.subrange(n + 1, 2 * (n + 1)));
    let s2 = d2.with_players(d2.players.map_values(|p: crate::types::PlayerView| crate::model::mark_blackjack(p)));
    let rest = rs.skip(2 * (n + 1));
    assert forall|i: int|
        0 <= i < pre.players.len() && (#[trigger] pre.players[i]).status != PlayerStatus::Playing
            implies s2.players[i] == pre.players[i] by {
        assert(d1.players[i] == pre.players[i]);
        assert(d2.players[i] == pre.players[i]);
    }
    assert(s2.players.len() == pre.players.len());
    match crate::model::first_opener(s2.players) {
        Some(pos) => {},
        None => {
            let d = dealer_draws(s2.dealer_hand, rest)->Some_0;
            let s3 = GameState { phase: GamePhase::DealerTurn, dealer_hand: d, ..s2 };
            assert(post == s3.resolve_bets());
            assert forall|i: int|
                0 <= i < pre.players.len() && (#[trigger] pre.players[i]).status != PlayerStatus::Playing
                    implies post.players[i] == pre.players[i] by {
                assert(s3.players[i] == pre.players[i]);
            }
        },
    }
}

/// Admin timeout: when an admin sends StartGame during play, every hand the
/// current player still plays stands, and the turn passes on, past any later
/// hand of that player, to the next player who can act; when nobody can, the
/// dealer plays and the round is paid out.
pub proof fn law_admin_force_stand_passes_the_turn(pre: GameState, conn: u128, post: GameState)
    requires
        step_rel(pre, conn, ClientMessage::StartGame, post),
        conn_pos(pre.connections, conn) is Some,
        pre.is_admin(pre.connections[conn_pos(pre.connections, conn)->Some_0].1),
        pre.phase == GamePhase::Playing,
        pre.turn_index < pre.players.len(),
        pre.players.len() <= usize::MAX,
    ensures
        post.phase == GamePhase::Playing || post.phase == GamePhase::Payout,
        post.phase == GamePhase::Playing ==> {
            let t = pre.turn_index as int;
            &&& post.players == pre.players.update(
                t,
                crate::types::PlayerView {
                    hands: pre.players[t].hands.map_values(|h: crate::types::HandView| crate::model::stood(h)),
                    ..pre.players[t]
                },
            )
            &&& crate::model::is_next_turn(post.players, t, post.turn_index as int)
        },
{
    let msg = ClientMessage::StartGame;
    let (rs, id, sid) = choose|rs: Seq<Option<Card>>, id: u128, sid: u128|
        #[trigger] pre.with_deck(post.deck).step(conn, msg, rs, id, sid) == Some(post)
            && draws_rel(pre.settings.deck_count as nat, pre.deck, rs, post.deck)
            && crate::ids::is_v4_uuid(id) && crate::ids::is_v4_uuid(sid);
    let s = pre.with_deck(post.deck);
    let t = pre.turn_index as int;
    assert(s.step(conn, msg, rs, id, sid) == s.force_stand(rs));
    let s1 = s.with_player(
        t,
        crate::types::PlayerView {
            hands: s.players[t].hands.map_values(|h: crate::types::HandView| crate::model::stood(h)),
            ..s.players[t]
        },
    );
    assert(s.force_stand(rs) == s1.pass_turn(rs));
    assert(t != usize::MAX);
    match crate::model::next_turn(s1.players, t) {
        Some(n) => {
            assert(crate::model::is_next_turn(s1.players, t, n));
            assert(post == s1.with_turn(n as usize).broadcast_state());
        },
        None => {},
    }
}

/// A snapshot names whose turn it is only during play; in every other phase
/// it names nobody.
pub proof fn law_turn_shown_only_during_play(s: GameState)
    ensures
        s.snapshot() matches MessageView::GameStateSnapshot { current_turn_player_id, .. } && (
        current_turn_player_id is Some ==> s.phase == GamePhase::Playing),
{
}

proof fn lemma_count_playing_positive(ps: Seq<crate::types::PlayerView>, i: int)
    requires
        0 <= i < ps.len(),
        ps[i].status == PlayerStatus::Playing,
    ensures
        count_playing(ps) > 0,
    decreases ps.len(),
{
    if i < ps.len() - 1 {
        lemma_count_playing_positive(ps.drop_last(), i);
    }
}

/// Automatic start: a bet that leaves every connected, approved player with
/// a bet starts the round at once (play begins, or the round is paid out
/// straight away when nobody has to act); while someone connected and
/// approved has not bet, betting stays open.
pub proof fn law_round_starts_once_everyone_has_bet(
    pre: GameState,
    conn: u128,
    amount: u32,
    post: GameState,
)
    requires
        step_rel(pre, conn, ClientMessage::PlaceBet { amount }, post),
        conn_pos(pre.connections, conn) is Some,
        pre.phase == GamePhase::Betting,
        ({
            let pid = pre.connections[conn_pos(pre.connections, conn)->Some_0].1;
            &&& player_pos(pre.players, pid) is Some
            &&& {
                let p = pre.players[player_pos(pre.players, pid)->Some_0];
                &&& (p.status == PlayerStatus::Sitting || p.status == PlayerStatus::Spectating)
                &&& p.chips >= amount
            }
        }),
    ensures
        ({
            let pid = pre.connections[conn_pos(pre.connections, conn)->Some_0].1;
            let i = player_pos(pre.players, pid)->Some_0;
            let others_ready = forall|j: int|
                0 <= j < pre.players.len() && j != i ==> {
                    let q = #[trigger] pre.players[j];
                    !q.is_connected || q.status == PlayerStatus::Playing || q.status
                        == PlayerStatus::PendingApproval
                };
            &&& others_ready ==> post.phase == GamePhase::Playing || post.phase == GamePhase::Payout
            &&& !others_ready ==> post.phase == GamePhase::Betting
            &&& post.players[i].status == PlayerStatus::Playing || post.phase == GamePhase::Payout
        }),
{
    let msg = ClientMessage::PlaceBet { amount };
    let (rs, id, sid) = choose|rs: Seq<Option<Card>>, id: u128, sid: u128|
        #[trigger] pre.with_deck(post.deck).step(conn, msg, rs, id, sid) == Some(post)
            && draws_rel(pre.settings.deck_count as nat, pre.deck, rs, post.deck)
            && crate::ids::is_v4_uuid(id) && crate::ids::is_v4_uuid(sid);
    let s = pre.with_deck(post.deck);
    let pid = pre.connections[conn_pos(pre.connections, conn)->Some_0].1;
    let i = player_pos(pre.players, pid)->Some_0;
    let p = pre.players[i];
    let s1 = s.with_player(
        i,
        crate::types::PlayerView {
            chips: (p.chips - amount) as u32,
            status: PlayerStatus::Playing,
            hands: seq![
                crate::types::HandView {
                    cards: Seq::empty(),
                    bet: amount,
                    status: crate::types::HandStatus::Playing,
                },
            ],
            active_hand_index: 0,
            ..p
        },
    );
    assert(s.game_message(pid, msg, rs) == s1.start_action(rs) || s.game_message(pid, msg, rs) == done(
        s1.broadcast_state(),
        rs,
    ));
    let c = choose|c: int| is_first_player(pre.players, pid, c);
    assert(is_first_player(pre.players, pid, c));
    let others_ready = forall|j: int|
        0 <= j < pre.players.len() && j != i ==> {
            let q = #[trigger] pre.players[j];
            !q.is_connected || q.status == PlayerStatus::Playing || q.status
                == PlayerStatus::PendingApproval
        };
    if others_ready {
        assert forall|j: int| 0 <= j < s1.players.len() implies {
            let q = #[trigger] s1.players[j];
            !q.is_connected || q.status == PlayerStatus::Playing || q.status
                == PlayerStatus::PendingApproval
        } by {
            if j != i {
                assert(s1.players[j] == pre.players[j]);
            }
        }
        assert(crate::model::all_ready(s1.players));
        lemma_count_playing_positive(s1.players, i);
        lemma_start_action(s1, rs);
    } else {
        let j = choose|j: int|
            0 <= j < pre.players.len() && j != i && !({
                let q = #[trigger] pre.players[j];
                !q.is_connected || q.status == PlayerStatus::Playing || q.status
                    == PlayerStatus::PendingApproval
            });
        assert(s1.players[j] == pre.players[j]);
        assert(!crate::model::all_ready(s1.players));
    }
}

// ---------------------------------------------------------------------------
// Announcing changes

/// The last message of the state is a snapshot of it, sent to every
/// connection.
pub open spec fn ends_with_snapshot(t: GameState) -> bool {
    &&& t.outbox.len() > 0
    &&& t.outbox.last() == (Outgoing { target: None, message: t.snapshot() })
}

/// After a step from `s` to `t` with draws `rs`: the step ended with a
/// snapshot, or clients would see nothing new and no card was drawn.
pub open spec fn announced_or_unseen(s: GameState, t: GameState, rs: Seq<Option<Card>>) -> bool {
    ends_with_snapshot(t) || (t.snapshot() == s.snapshot() && rs.len() == 0)
}

proof fn lemma_play_dealer_announced(s: GameState, rs: Seq<Option<Card>>)
    requires
        s.play_dealer(rs) is Some,
    ensures
        ends_with_snapshot(s.play_dealer(rs)->Some_0),
{
}

proof fn lemma_pass_turn_announced(s: GameState, rs: Seq<Option<Card>>)
    requires
        s.pass_turn(rs) is Some,
    ensures
        ends_with_snapshot(s.pass_turn(rs)->Some_0),
{
    let t = s.turn_index as int;
    let start: int = if t == usize::MAX {
        0
    } else {
        t + 1
    };
    match crate::model::next_turn(s.players, start - 1) {
        Some(n) => {},
        None => {
            let s1 = s.with_turn(
                if start >= s.players.len() {
                    start as usize
                } else {
                    s.players.len() as usize
                },
            );
            lemma_play_dealer_announced(s1, rs);
        },
    }
}

proof fn lemma_advance_announced(s: GameState, rs: Seq<Option<Card>>)
    requires
        s.advance(rs) is Some,
    ensures
        ends_with_snapshot(s.advance(rs)->Some_0),
{
    let t = s.turn_index as int;
    if t < s.players.len() && s.players[t].status == PlayerStatus::Playing
        && s.players[t].active_hand_index + 1 < s.players[t].hands.len() {
    } else {
        let start: int = if t == usize::MAX {
            0
        } else {
            t + 1
        };
        match crate::model::next_turn(s.players, start - 1) {
            Some(n) => {},
            None => {
                let s1 = s.with_turn(
                    if start >= s.players.len() {
                        start as usize
                    } else {
                        s.players.len() as usize
                    },
                );
                lemma_play_dealer_announced(s1, rs);
            },
        }
    }
}

proof fn lemma_start_action_announced(s: GameState, rs: Seq<Option<Card>>)
    requires
        s.start_action(rs) is Some,
        s.phase == GamePhase::Betting,
    ensures
        announced_or_unseen(s, s.start_action(rs)->Some_0, rs),
        count_playing(s.players) > 0 ==> ends_with_snapshot(s.start_action(rs)->Some_0),
{
    let n = count_playing(s.players) as int;
    if n != 0 {
        let s0 = s.with_turn(0).with_phase(GamePhase::Playing);
        let s1 = s0.deal_round(rs.take(n + 1)).deal_round(rs.subrange(n + 1, 2 * (n + 1)));
        let s2 = s1.with_players(s1.players.map_values(|p: crate::types::PlayerView| crate::model::mark_blackjack(p)));
        let rest = rs.skip(2 * (n + 1));
        match crate::model::first_opener(s2.players) {
            Some(pos) => {},
            None => {
                lemma_play_dealer_announced(s2, rest);
            },
        }
    }
}

proof fn lemma_action_announced(s: GameState, pid: u128, a: crate::messages::ActionType, rs: Seq<Option<Card>>)
    requires
        s.action(pid, a, rs) is Some,
    ensures
        announced_or_unseen(s, s.action(pid, a, rs)->Some_0, rs),
{
    let t = s.turn_index as int;
    if s.phase == GamePhase::Playing && t < s.players.len() && s.players[t].id == pid {
        let p = s.players[t];
        let ai = p.active_hand_index as int;
        if ai < p.hands.len() {
            let h = p.hands[ai];
            match a {
                crate::messages::ActionType::Hit => {
                    match rs[0] {
                        Some(c) => {
                            let p1 = crate::model::give_card(p, ai, c);
                            if hand_value(p1.hands[ai].cards) > 21 {
                                let s1 = s.with_player(
                                    t,
                                    crate::types::PlayerView {
                                        hands: p1.hands.update(
                                            ai,
                                            crate::types::HandView {
                                                status: crate::types::HandStatus::Busted,
                                                ..p1.hands[ai]
                                            },
                                        ),
                                        ..p1
                                    },
                                );
                                lemma_advance_announced(s1, rs.drop_first());
                            }
                        },
                        None => {},
                    }
                },
                crate::messages::ActionType::Stand => {
                    let s1 = s.with_player(
                        t,
                        crate::types::PlayerView {
                            hands: p.hands.update(
                                ai,
                                crate::types::HandView {
                                    status: crate::types::HandStatus::Stood,
                                    ..h
                                },
                            ),
                            ..p
                        },
                    );
                    lemma_advance_announced(s1, rs);
                },
                crate::messages::ActionType::Double => {
                    if p.chips >= h.bet {
                        match rs[0] {
                            Some(c) => {
                                let s1 = s.with_player(
                                    t,
                                    crate::types::PlayerView { chips: (p.chips - h.bet) as u32, ..p },
                                );
                                let cards = h.cards.push(c);
                                let h1 = crate::types::HandView {
                                    cards,
                                    bet: crate::model::wrap32(h.bet + h.bet),
                                    status: if hand_value(cards) > 21 {
                                        crate::types::HandStatus::Busted
                                    } else {
                                        crate::types::HandStatus::Doubled
                                    },
                                };
                                let s2 = s1.with_player(
                                    t,
                                    crate::types::PlayerView {
                                        hands: p.hands.update(ai, h1),
                                        ..s1.players[t]
                                    },
                                );
                                lemma_advance_announced(s2, rs.drop_first());
                            },
                            None => {},
                        }
                    }
                },
                crate::messages::ActionType::Split => {},
            }
        }
    }
}

proof fn lemma_bet_announced(s: GameState, pid: u128, amount: u32, rs: Seq<Option<Card>>)
    requires
        s.bet(pid, amount, rs) is Some,
    ensures
        announced_or_unseen(s, s.bet(pid, amount, rs)->Some_0, rs),
{
    if s.phase == GamePhase::Betting {
        match player_pos(s.players, pid) {
            Some(i) => {
                let p = s.players[i];
                if p.status != PlayerStatus::PendingApproval && (p.status == PlayerStatus::Sitting
                    || p.status == PlayerStatus::Spectating) && p.chips >= amount {
                    let s1 = s.with_player(
                        i,
                        crate::types::PlayerView {
                            chips: (p.chips - amount) as u32,
                            status: PlayerStatus::Playing,
                            hands: seq![
                                crate::types::HandView {
                                    cards: Seq::empty(),
                                    bet: amount,
                                    status: crate::types::HandStatus::Playing,
                                },
                            ],
                            active_hand_index: 0,
                            ..p
                        },
                    );
                    if crate::model::all_ready(s1.players) {
                        lemma_count_playing_positive(s1.players, i);
                        lemma_start_action_announced(s1, rs);
                    }
                }
            },
            None => {},
        }
    }
}

proof fn lemma_start_game_announced(s: GameState, pid: u128, rs: Seq<Option<Card>>)
    requires
        s.start_game(pid, rs) is Some,
    ensures
        announced_or_unseen(s, s.start_game(pid, rs)->Some_0, rs),
{
    if s.is_admin(pid) {
        if s.phase == GamePhase::Betting {
            lemma_start_action_announced(s, rs);
        } else if s.phase == GamePhase::Playing {
            let t = s.turn_index as int;
            let s1 = if t < s.players.len() {
                s.with_player(
                    t,
                    crate::types::PlayerView {
                        hands: s.players[t].hands.map_values(
                            |h: crate::types::HandView| crate::model::stood(h),
                        ),
                        ..s.players[t]
                    },
                )
            } else {
                s
            };
            lemma_pass_turn_announced(s1, rs);
        }
    }
}

#[verifier::spinoff_prover]
proof fn lemma_game_message_announced(s: GameState, pid: u128, msg: ClientMessage, rs: Seq<Option<Card>>)
    requires
        s.game_message(pid, msg, rs) is Some,
    ensures
        announced_or_unseen(s, s.game_message(pid, msg, rs)->Some_0, rs),
{
    match msg {
        ClientMessage::PlaceBet { amount } => {
            lemma_bet_announced(s, pid, amount, rs);
        },
        ClientMessage::GameAction { action_type } => {
            lemma_action_announced(s, pid, action_type, rs);
        },
        ClientMessage::StartGame => {
            lemma_start_game_announced(s, pid, rs);
        },
        _ => {},
    }
}

/// Every change clients can see is announced: when a message changes what a
/// snapshot of the room shows, the last thing the room sends is the new
/// snapshot, to every connection.
pub proof fn law_every_change_is_announced(pre: GameState, conn: u128, msg: ClientMessage, post: GameState)
    requires
        step_rel(pre, conn, msg, post),
        post.snapshot() != pre.snapshot(),
    ensures
        ends_with_snapshot(post),
{
    let (rs, id, sid) = choose|rs: Seq<Option<Card>>, id: u128, sid: u128|
        #[trigger] pre.with_deck(post.deck).step(conn, msg, rs, id, sid) == Some(post)
            && draws_rel(pre.settings.deck_count as nat, pre.deck, rs, post.deck)
            && crate::ids::is_v4_uuid(id) && crate::ids::is_v4_uuid(sid);
    let s = pre.with_deck(post.deck);
    match msg {
        ClientMessage::JoinGame { username } => {},
        ClientMessage::Reconnect { player_id, secret } => {},
        ClientMessage::Disconnect => {},
        _ => match conn_pos(s.connections, conn) {
            Some(k) => {
                lemma_game_message_announced(s, s.connections[k].1, msg, rs);
            },
            None => {},
        },
    }
    if !ends_with_snapshot(post) {
        assert(rs.len() == 0);
        assert(post.deck == pre.deck);
        assert(s =~= pre);
    }
}

// ---------------------------------------------------------------------------
// Who hears about errors

/// A message in answer to player `pid`, whose connections are listed in
/// `cs`: if it is an error, it goes to one of that player's connections,
/// unless it is the notice that a round cannot start without bets, which
/// goes to everyone.
pub open spec fn error_scoped(cs: Seq<(u128, u128)>, pid: u128, m: Outgoing) -> bool {
    m.message is Error ==> {
        ||| m.target is None && m.message == crate::model::err("Cannot start round with no active bets.")
        ||| exists|k: int| 0 <= k < cs.len() && cs[k].1 == pid && m.target == Some(#[trigger] cs[k].0)
    }
}

/// `b` keeps the messages of `a` and adds only ones that are scoped as above.
pub open spec fn adds_scoped(cs: Seq<(u128, u128)>, pid: u128, a: Seq<Outgoing>, b: Seq<Outgoing>) -> bool {
    &&& a.len() <= b.len()
    &&& forall|j: int| 0 <= j < a.len() ==> #[trigger] b[j] == a[j]
    &&& forall|j: int| a.len() <= j < b.len() ==> error_scoped(cs, pid, #[trigger] b[j])
}

proof fn lemma_adds_scoped_trans(
    cs: Seq<(u128, u128)>,
    pid: u128,
    a: Seq<Outgoing>,
    b: Seq<Outgoing>,
    c: Seq<Outgoing>,
)
    requires
        adds_scoped(cs, pid, a, b),
        adds_scoped(cs, pid, b, c),
    ensures
        adds_scoped(cs, pid, a, c),
{
    assert forall|j: int| a.len() <= j < c.len() implies error_scoped(cs, pid, #[trigger] c[j]) by {
        if j < b.len() {
            assert(c[j] == b[j]);
        }
    }
}

proof fn lemma_send_error_scoped(s: GameState, pid: u128, m: MessageView)
    ensures
        adds_scoped(s.connections, pid, s.outbox, s.send_error(pid, m).outbox),
{
    match conn_of_player(s.connections, pid) {
        Some(k) => {
            assert(is_first_conn_of(s.connections, pid, k));
            let t = s.send_error(pid, m);
            assert(t.outbox[s.outbox.len() as int].target == Some(s.connections[k].0));
        },
        None => {},
    }
}

/// An error, then a snapshot.
proof fn lemma_send_error_then_state_scoped(s: GameState, pid: u128, m: MessageView)
    ensures
        adds_scoped(s.connections, pid, s.outbox, s.send_error(pid, m).broadcast_state().outbox),
{
    let t = s.send_error(pid, m);
    lemma_send_error_scoped(s, pid, m);
    assert(adds_scoped(s.connections, pid, t.outbox, t.broadcast_state().outbox));
    lemma_adds_scoped_trans(s.connections, pid, s.outbox, t.outbox, t.broadcast_state().outbox);
}

proof fn lemma_pass_turn_scoped(s: GameState, pid: u128, rs: Seq<Option<Card>>)
    requires
        s.pass_turn(rs) is Some,
    ensures
        adds_scoped(s.connections, pid, s.outbox, s.pass_turn(rs)->Some_0.outbox),
{
    let t = s.turn_index as int;
    let start: int = if t == usize::MAX {
        0
    } else {
        t + 1
    };
    match crate::model::next_turn(s.players, start - 1) {
        Some(n) => {},
        None => {
            let s1 = s.with_turn(
                if start >= s.players.len() {
                    start as usize
                } else {
                    s.players.len() as usize
                },
            );
            assert(s1.outbox == s.outbox);
        },
    }
}

proof fn lemma_advance_scoped(s: GameState, pid: u128, rs: Seq<Option<Card>>)
    requires
        s.advance(rs) is Some,
    ensures
        adds_scoped(s.connections, pid, s.outbox, s.advance(rs)->Some_0.outbox),
{
    let t = s.turn_index as int;
    if t < s.players.len() && s.players[t].status == PlayerStatus::Playing
        && s.players[t].active_hand_index + 1 < s.players[t].hands.len() {
    } else {
        let start: int = if t == usize::MAX {
            0
        } else {
            t + 1
        };
        match crate::model::next_turn(s.players, start - 1) {
            Some(n) => {},
            None => {},
        }
    }
}

proof fn lemma_start_action_scoped(s: GameState, pid: u128, rs: Seq<Option<Card>>)
    requires
        s.start_action(rs) is Some,
    ensures
        adds_scoped(s.connections, pid, s.outbox, s.start_action(rs)->Some_0.outbox),
{
    let n = count_playing(s.players) as int;
    if n != 0 {
        let s0 = s.with_turn(0).with_phase(GamePhase::Playing);
        let s1 = s0.deal_round(rs.take(n + 1)).deal_round(rs.subrange(n + 1, 2 * (n + 1)));
        let s2 = s1.with_players(s1.players.map_values(|p: crate::types::PlayerView| crate::model::mark_blackjack(p)));
        assert(s2.outbox == s.outbox && s2.connections == s.connections);
    }
}

proof fn lemma_action_scoped(s: GameState, pid: u128, a: crate::messages::ActionType, rs: Seq<Option<Card>>)
    requires
        s.action(pid, a, rs) is Some,
    ensures
        adds_scoped(s.connections, pid, s.outbox, s.action(pid, a, rs)->Some_0.outbox),
{
    let t = s.turn_index as int;
    if s.phase != GamePhase::Playing {
        lemma_send_error_scoped(s, pid, crate::model::err("Actions can only be performed during the Playing phase."));
    } else if !(t < s.players.len() && s.players[t].id == pid) {
        lemma_send_error_scoped(s, pid, crate::model::err("It is not your turn."));
    } else {
        let p = s.players[t];
        let ai = p.active_hand_index as int;
        if ai < p.hands.len() {
            let h = p.hands[ai];
            match a {
                crate::messages::ActionType::Hit => {
                    match rs[0] {
                        Some(c) => {
                            let p1 = crate::model::give_card(p, ai, c);
                            if hand_value(p1.hands[ai].cards) > 21 {
                                let s1 = s.with_player(
                                    t,
                                    crate::types::PlayerView {
                                        hands: p1.hands.update(
                                            ai,
                                            crate::types::HandView {
                                                status: crate::types::HandStatus::Busted,
                                                ..p1.hands[ai]
                                            },
                                        ),
                                        ..p1
                                    },
                                );
                                lemma_advance_scoped(s1, pid, rs.drop_first());
                            }
                        },
                        None => {},
                    }
                },
                crate::messages::ActionType::Stand => {
                    let s1 = s.with_player(
                        t,
                        crate::types::PlayerView {
                            hands: p.hands.update(
                                ai,
                                crate::types::HandView {
                                    status: crate::types::HandStatus::Stood,
                                    ..h
                                },
                            ),
                            ..p
                        },
                    );
                    lemma_advance_scoped(s1, pid, rs);
                },
                crate::messages::ActionType::Double => {
                    if p.chips >= h.bet {
                        match rs[0] {
                            Some(c) => {
                                let s1 = s.with_player(
                                    t,
                                    crate::types::PlayerView { chips: (p.chips - h.bet) as u32, ..p },
                                );
                                let cards = h.cards.push(c);
                                let h1 = crate::types::HandView {
                                    cards,
                                    bet: crate::model::wrap32(h.bet + h.bet),
                                    status: if hand_value(cards) > 21 {
                                        crate::types::HandStatus::Busted
                                    } else {
                                        crate::types::HandStatus::Doubled
                                    },
                                };
                                let s2 = s1.with_player(
                                    t,
                                    crate::types::PlayerView {
                                        hands: p.hands.update(ai, h1),
                                        ..s1.players[t]
                                    },
                                );
                                lemma_advance_scoped(s2, pid, rs.drop_first());
                            },
                            None => {},
                        }
                    } else {
                        lemma_send_error_then_state_scoped(s, pid, crate::model::err("Not enough chips to double down."));
                    }
                },
                crate::messages::ActionType::Split => {
                    if !(h.cards.len() == 2 && p.chips >= h.bet && h.cards[0].rank == h.cards[1].rank) {
                        lemma_send_error_then_state_scoped(
                            s,
                            pid,
                            crate::model::err("Cannot split: need pair and enough chips."),
                        );
                    }
                },
            }
        }
    }
}

proof fn lemma_bet_scoped(s: GameState, pid: u128, amount: u32, rs: Seq<Option<Card>>)
    requires
        s.bet(pid, amount, rs) is Some,
    ensures
        adds_scoped(s.connections, pid, s.outbox, s.bet(pid, amount, rs)->Some_0.outbox),
{
    if s.phase != GamePhase::Betting {
        lemma_send_error_scoped(s, pid, crate::model::err("Bets can only be placed during the Betting phase."));
    } else {
        match player_pos(s.players, pid) {
            Some(i) => {
                let p = s.players[i];
                if p.status == PlayerStatus::PendingApproval {
                    lemma_send_error_scoped(s, pid, crate::model::err("You must be approved before playing."));
                } else if p.status != PlayerStatus::Sitting && p.status != PlayerStatus::Spectating {
                    lemma_send_error_scoped(s, pid, crate::model::err("You cannot place a bet right now."));
                } else if p.chips < amount {
                    lemma_send_error_scoped(s, pid, crate::model::err("Not enough chips to place bet."));
                } else {
                    let s1 = s.with_player(
                        i,
                        crate::types::PlayerView {
                            chips: (p.chips - amount) as u32,
                            status: PlayerStatus::Playing,
                            hands: seq![
                                crate::types::HandView {
                                    cards: Seq::empty(),
                                    bet: amount,
                                    status: crate::types::HandStatus::Playing,
                                },
                            ],
                            active_hand_index: 0,
                            ..p
                        },
                    );
                    if crate::model::all_ready(s1.players) {
                        lemma_start_action_scoped(s1, pid, rs);
                    }
                }
            },
            None => {},
        }
    }
}

proof fn lemma_start_game_scoped(s: GameState, pid: u128, rs: Seq<Option<Card>>)
    requires
        s.start_game(pid, rs) is Some,
    ensures
        adds_scoped(s.connections, pid, s.outbox, s.start_game(pid, rs)->Some_0.outbox),
{
    if !s.is_admin(pid) {
        lemma_send_error_scoped(s, pid, crate::model::err("Only admins can start the game."));
    } else if s.phase == GamePhase::Lobby {
    } else if s.phase == GamePhase::Betting {
        lemma_start_action_scoped(s, pid, rs);
    } else if s.phase == GamePhase::Playing {
        let t = s.turn_index as int;
        let s1 = if t < s.players.len() {
            s.with_player(
                t,
                crate::types::PlayerView {
                    hands: s.players[t].hands.map_values(
                        |h: crate::types::HandView| crate::model::stood(h),
                    ),
                    ..s.players[t]
                },
            )
        } else {
            s
        };
        lemma_pass_turn_scoped(s1, pid, rs);
    } else {
        lemma_send_error_scoped(s, pid, crate::model::err("Invalid phase for StartGame command."));
    }
}

proof fn lemma_kick_scoped(s: GameState, pid: u128, target: u128)
    ensures
        adds_scoped(s.connections, pid, s.outbox, s.kick(pid, target).outbox),
{
    if !s.is_admin(pid) {
        lemma_send_error_scoped(s, pid, crate::model::err("Only admins can kick players."));
    } else if pid == target {
        lemma_send_error_scoped(s, pid, crate::model::err("You cannot kick yourself."));
    } else {
        let notices = s.connections.filter(crate::model::belongs_to(target)).map_values(
            crate::model::kicked_notice(),
        );
        let o = s.outbox + notices;
        assert forall|j: int| s.outbox.len() <= j < o.len() implies error_scoped(
            s.connections,
            pid,
            #[trigger] o[j],
        ) by {
            assert(o[j] == notices[j - s.outbox.len()]);
        }
    }
}

#[verifier::spinoff_prover]
proof fn lemma_game_message_scoped(s: GameState, pid: u128, msg: ClientMessage, rs: Seq<Option<Card>>)
    requires
        s.game_message(pid, msg, rs) is Some,
    ensures
        adds_scoped(s.connections, pid, s.outbox, s.game_message(pid, msg, rs)->Some_0.outbox),
{
    match msg {
        ClientMessage::PlaceBet { amount } => {
            lemma_bet_scoped(s, pid, amount, rs);
        },
        ClientMessage::GameAction { action_type } => {
            lemma_action_scoped(s, pid, action_type, rs);
        },
        ClientMessage::StartGame => {
            lemma_start_game_scoped(s, pid, rs);
        },
        ClientMessage::ApprovePlayer { player_id } => {
            lemma_send_error_scoped(s, pid, crate::model::err("Only admins can approve players."));
        },
        ClientMessage::KickPlayer { player_id } => {
            lemma_kick_scoped(s, pid, player_id);
        },
        ClientMessage::UpdateSettings { settings } => {
            lemma_send_error_scoped(s, pid, crate::model::err("Only admins can update settings."));
        },
        ClientMessage::AdminUpdateBalance { target_id, change_chips } => {
            lemma_send_error_scoped(s, pid, crate::model::err("Only admins can update player balances."));
        },
        ClientMessage::Chat { message } => {
            lemma_send_error_scoped(s, pid, crate::model::err("Chat is currently disabled."));
        },
        ClientMessage::NextRound => {
            lemma_send_error_scoped(s, pid, crate::model::err("Only admins can start the next round."));
            lemma_send_error_scoped(
                s,
                pid,
                crate::model::err("Next round can only be started from Payout or GameOver phase."),
            );
        },
        _ => {},
    }
}

/// Errors are answered to the sender only: every error a message brings goes
/// to the connection that sent it or to another connection of the same
/// player, except the notice that a round cannot start without bets, which
/// goes to everyone.
pub proof fn law_errors_reach_the_sender_only(pre: GameState, conn: u128, msg: ClientMessage, post: GameState)
    requires
        step_rel(pre, conn, msg, post),
    ensures
        forall|j: int|
            pre.outbox.len() <= j < post.outbox.len() && (#[trigger] post.outbox[j]).message is Error ==> {
                ||| post.outbox[j].target == Some(conn)
                ||| post.outbox[j].target is None && post.outbox[j].message == crate::model::err(
                    "Cannot start round with no active bets.",
                )
                ||| conn_pos(pre.connections, conn) matches Some(c) && exists|k: int|
                    0 <= k < pre.connections.len() && pre.connections[k].1 == pre.connections[c].1
                        && post.outbox[j].target == Some(#[trigger] pre.connections[k].0)
            },
{
    let (rs, id, sid) = choose|rs: Seq<Option<Card>>, id: u128, sid: u128|
        #[trigger] pre.with_deck(post.deck).step(conn, msg, rs, id, sid) == Some(post)
            && draws_rel(pre.settings.deck_count as nat, pre.deck, rs, post.deck)
            && crate::ids::is_v4_uuid(id) && crate::ids::is_v4_uuid(sid);
    let s = pre.with_deck(post.deck);
    match msg {
        ClientMessage::JoinGame { username } => {
            let name = username@;
            let n = s.players.len() as int;
            if conn_pos(s.connections, conn) is None && n < s.settings.max_players
                && s.settings.approval_required && n > 0 {
                let notices = s.connections.filter(crate::model::admin_connection(s)).map_values(
                    crate::model::request_notice(id, name),
                );
                assert forall|j: int|
                    pre.outbox.len() <= j < post.outbox.len() implies !((#[trigger] post.outbox[j]).message is Error) by {
                    if j < pre.outbox.len() + notices.len() {
                        assert(post.outbox[j] == notices[j - pre.outbox.len()]);
                    }
                }
            }
        },
        ClientMessage::Reconnect { player_id, secret } => {},
        ClientMessage::Disconnect => {},
        _ => match conn_pos(s.connections, conn) {
            Some(k) => {
                let pid = s.connections[k].1;
                lemma_game_message_scoped(s, pid, msg, rs);
                assert forall|j: int|
                    pre.outbox.len() <= j < post.outbox.len() && (#[trigger] post.outbox[j]).message is Error
                        implies {
                        ||| post.outbox[j].target is None && post.outbox[j].message == crate::model::err(
                            "Cannot start round with no active bets.",
                        )
                        ||| exists|k2: int|
                            0 <= k2 < pre.connections.len() && pre.connections[k2].1 == pre.connections[k].1
                                && post.outbox[j].target == Some(#[trigger] pre.connections[k2].0)
                    } by {
                    assert(error_scoped(s.connections, pid, post.outbox[j]));
                }
            },
            None => {},
        },
    }
}

// ---------------------------------------------------------------------------
// Connections and seats

/// Player `pid` has a seat.
pub open spec fn seated(ps: Seq<crate::types::PlayerView>, pid: u128) -> bool {
    exists|i: int| 0 <= i < ps.len() && #[trigger] ps[i].id == pid
}

/// Every connection of the room belongs to a player who has a seat.
pub open spec fn connections_seated(s: GameState) -> bool {
    forall|k: int| 0 <= k < s.connections.len() ==> seated(s.players, (#[trigger] s.connections[k]).1)
}

/// The same seats, held by the same players with the same admin rights and
/// the same presence, and the same connections.
pub open spec fn same_seats(s: GameState, t: GameState) -> bool {
    &&& t.connections == s.connections
    &&& t.players.len() == s.players.len()
    &&& forall|i: int|
        0 <= i < s.players.len() ==> (#[trigger] t.players[i]).id == s.players[i].id
            && t.players[i].is_admin == s.players[i].is_admin
            && t.players[i].is_connected == s.players[i].is_connected
}

proof fn lemma_same_seats_trans(a: GameState, b: GameState, c: GameState)
    requires
        same_seats(a, b),
        same_seats(b, c),
    ensures
        same_seats(a, c),
{
    assert forall|i: int| 0 <= i < a.players.len() implies (#[trigger] c.players[i]).id == a.players[i].id
        && c.players[i].is_admin == a.players[i].is_admin
        && c.players[i].is_connected == a.players[i].is_connected by {
        assert(c.players[i].id == b.players[i].id);
        assert(c.players[i].is_admin == b.players[i].is_admin);
        assert(c.players[i].is_connected == b.players[i].is_connected);
    }
}

proof fn lemma_same_seats_keep_connections_seated(s: GameState, t: GameState)
    requires
        same_seats(s, t),
        connections_seated(s),
    ensures
        connections_seated(t),
{
    assert forall|k: int| 0 <= k < t.connections.len() implies seated(t.players, (#[trigger] t.connections[k]).1) by {
        assert(s.connections[k] == t.connections[k]);
        assert(seated(s.players, s.connections[k].1));
        let i = choose|i: int| 0 <= i < s.players.len() && #[trigger] s.players[i].id == s.connections[k].1;
        assert(t.players[i].id == s.players[i].id);
    }
}

proof fn lemma_play_dealer_seats(s: GameState, rs: Seq<Option<Card>>)
    requires
        s.play_dealer(rs) is Some,
    ensures
        same_seats(s, s.play_dealer(rs)->Some_0),
{
    let t = s.play_dealer(rs)->Some_0;
    assert forall|i: int| 0 <= i < s.players.len() implies (#[trigger] t.players[i]).id == s.players[i].id
        && t.players[i].is_admin == s.players[i].is_admin
        && t.players[i].is_connected == s.players[i].is_connected by {
    }
}

proof fn lemma_pass_turn_seats(s: GameState, rs: Seq<Option<Card>>)
    requires
        s.pass_turn(rs) is Some,
    ensures
        same_seats(s, s.pass_turn(rs)->Some_0),
{
    let t = s.turn_index as int;
    let start: int = if t == usize::MAX {
        0
    } else {
        t + 1
    };
    match crate::model::next_turn(s.players, start - 1) {
        Some(n) => {},
        None => {
            let s1 = s.with_turn(
                if start >= s.players.len() {
                    start as usize
                } else {
                    s.players.len() as usize
                },
            );
            lemma_play_dealer_seats(s1, rs);
        },
    }
}

proof fn lemma_advance_seats(s: GameState, rs: Seq<Option<Card>>)
    requires
        s.advance(rs) is Some,
    ensures
        same_seats(s, s.advance(rs)->Some_0),
{
    let t = s.turn_index as int;
    if t < s.players.len() && s.players[t].status == PlayerStatus::Playing
        && s.players[t].active_hand_index + 1 < s.players[t].hands.len() {
    } else {
        let start: int = if t == usize::MAX {
            0
        } else {
            t + 1
        };
        match crate::model::next_turn(s.players, start - 1) {
            Some(n) => {},
            None => {
                let s1 = s.with_turn(
                    if start >= s.players.len() {
                        start as usize
                    } else {
                        s.players.len() as usize
                    },
                );
                lemma_play_dealer_seats(s1, rs);
            },
        }
    }
}

proof fn lemma_start_action_seats(s: GameState, rs: Seq<Option<Card>>)
    requires
        s.start_action(rs) is Some,
    ensures
        same_seats(s, s.start_action(rs)->Some_0),
{
    let n = count_playing(s.players) as int;
    if n != 0 {
        let s0 = s.with_turn(0).with_phase(GamePhase::Playing);
        let d1 = s0.deal_round(rs.take(n + 1));
        let d2 = d1.deal_round(rs.subrange(n + 1, 2 * (n + 1)));
        let s2 = d2.with_players(d2.players.map_values(|p: crate::types::PlayerView| crate::model::mark_blackjack(p)));
        assert(same_seats(s, d1));
        assert(same_seats(d1, d2));
        assert(same_seats(d2, s2));
        lemma_same_seats_trans(s, d1, d2);
        lemma_same_seats_trans(s, d2, s2);
        let rest = rs.skip(2 * (n + 1));
        match crate::model::first_opener(s2.players) {
            Some(pos) => {},
            None => {
                lemma_play_dealer_seats(s2, rest);
                lemma_same_seats_trans(s, s2, s2.play_dealer(rest)->Some_0);
            },
        }
    }
}

proof fn lemma_action_seats(s: GameState, pid: u128, a: crate::messages::ActionType, rs: Seq<Option<Card>>)
    requires
        s.action(pid, a, rs) is Some,
    ensures
        same_seats(s, s.action(pid, a, rs)->Some_0),
{
    let t = s.turn_index as int;
    if s.phase == GamePhase::Playing && t < s.players.len() && s.players[t].id == pid {
        let p = s.players[t];
        let ai = p.active_hand_index as int;
        if ai < p.hands.len() {
            let h = p.hands[ai];
            match a {
                crate::messages::ActionType::Hit => {
                    match rs[0] {
                        Some(c) => {
                            let p1 = crate::model::give_card(p, ai, c);
                            if hand_value(p1.hands[ai].cards) > 21 {
                                let s1 = s.with_player(
                                    t,
                                    crate::types::PlayerView {
                                        hands: p1.hands.update(
                                            ai,
                                            crate::types::HandView {
                                                status: crate::types::HandStatus::Busted,
                                                ..p1.hands[ai]
                                            },
                                        ),
                                        ..p1
                                    },
                                );
                                assert(same_seats(s, s1));
                                lemma_advance_seats(s1, rs.drop_first());
                                lemma_same_seats_trans(s, s1, s1.advance(rs.drop_first())->Some_0);
                            } else {
                                assert(same_seats(s, s.with_player(t, p1)));
                            }
                        },
                        None => {},
                    }
                },
                crate::messages::ActionType::Stand => {
                    let s1 = s.with_player(
                        t,
                        crate::types::PlayerView {
                            hands: p.hands.update(
                                ai,
                                crate::types::HandView {
                                    status: crate::types::HandStatus::Stood,
                                    ..h
                                },
                            ),
                            ..p
                        },
                    );
                    assert(same_seats(s, s1));
                    lemma_advance_seats(s1, rs);
                    lemma_same_seats_trans(s, s1, s1.advance(rs)->Some_0);
                },
                crate::messages::ActionType::Double => {
                    if p.chips >= h.bet {
                        let s1 = s.with_player(
                            t,
                            crate::types::PlayerView { chips: (p.chips - h.bet) as u32, ..p },
                        );
                        assert(same_seats(s, s1));
                        match rs[0] {
                            Some(c) => {
                                let cards = h.cards.push(c);
                                let h1 = crate::types::HandView {
                                    cards,
                                    bet: crate::model::wrap32(h.bet + h.bet),
                                    status: if hand_value(cards) > 21 {
                                        crate::types::HandStatus::Busted
                                    } else {
                                        crate::types::HandStatus::Doubled
                                    },
                                };
                                let s2 = s1.with_player(
                                    t,
                                    crate::types::PlayerView {
                                        hands: p.hands.update(ai, h1),
                                        ..s1.players[t]
                                    },
                                );
                                assert(same_seats(s1, s2));
                                lemma_same_seats_trans(s, s1, s2);
                                lemma_advance_seats(s2, rs.drop_first());
                                lemma_same_seats_trans(s, s2, s2.advance(rs.drop_first())->Some_0);
                            },
                            None => {},
                        }
                    }
                },
                crate::messages::ActionType::Split => {},
            }
        }
    }
}

proof fn lemma_bet_seats(s: GameState, pid: u128, amount: u32, rs: Seq<Option<Card>>)
    requires
        s.bet(pid, amount, rs) is Some,
    ensures
        same_seats(s, s.bet(pid, amount, rs)->Some_0),
{
    if s.phase == GamePhase::Betting {
        match player_pos(s.players, pid) {
            Some(i) => {
                let p = s.players[i];
                if p.status != PlayerStatus::PendingApproval && (p.status == PlayerStatus::Sitting
                    || p.status == PlayerStatus::Spectating) && p.chips >= amount {
                    let s1 = s.with_player(
                        i,
                        crate::types::PlayerView {
                            chips: (p.chips - amount) as u32,
                            status: PlayerStatus::Playing,
                            hands: seq![
                                crate::types::HandView {
                                    cards: Seq::empty(),
                                    bet: amount,
                                    status: crate::types::HandStatus::Playing,
                                },
                            ],
                            active_hand_index: 0,
                            ..p
                        },
                    );
                    assert(same_seats(s, s1));
                    if crate::model::all_ready(s1.players) {
                        lemma_start_action_seats(s1, rs);
                        lemma_same_seats_trans(s, s1, s1.start_action(rs)->Some_0);
                    }
                }
            },
            None => {},
        }
    }
}

proof fn lemma_start_game_seats(s: GameState, pid: u128, rs: Seq<Option<Card>>)
    requires
        s.start_game(pid, rs) is Some,
    ensures
        same_seats(s, s.start_game(pid, rs)->Some_0),
{
    if s.is_admin(pid) {
        if s.phase == GamePhase::Betting {
            lemma_start_action_seats(s, rs);
        } else if s.phase == GamePhase::Playing {
            let t = s.turn_index as int;
            let s1 = if t < s.players.len() {
                s.with_player(
                    t,
                    crate::types::PlayerView {
                        hands: s.players[t].hands.map_values(
                            |h: crate::types::HandView| crate::model::stood(h),
                        ),
                        ..s.players[t]
                    },
                )
            } else {
                s
            };
            assert(same_seats(s, s1));
            lemma_pass_turn_seats(s1, rs);
            lemma_same_seats_trans(s, s1, s1.pass_turn(rs)->Some_0);
        }
    }
}

/// A kick drops the kicked player's connections along with their seat.
proof fn lemma_kick_seats(s: GameState, pid: u128, target: u128)
    requires
        connections_seated(s),
    ensures
        connections_seated(s.kick(pid, target)),
{
    let t = s.kick(pid, target);
    if s.is_admin(pid) && pid != target {
        let cs = s.connections;
        let kept = cs.filter(crate::model::belongs_to_other_than(target));
        assert forall|k: int| 0 <= k < t.connections.len() implies seated(t.players, (#[trigger] t.connections[k]).1) by {
            cs.lemma_filter_pred(crate::model::belongs_to_other_than(target), k);
            assert(kept.contains(kept[k]));
            cs.lemma_filter_contains_rev(crate::model::belongs_to_other_than(target), kept[k]);
            let c = choose|c: int| 0 <= c < cs.len() && cs[c] == kept[k];
            assert(seated(s.players, cs[c].1));
            let i = choose|i: int| 0 <= i < s.players.len() && #[trigger] s.players[i].id == cs[c].1;
            match player_pos(s.players, target) {
                Some(r) => {
                    assert(s.players[r].id == target);
                    if i < r {
                        assert(t.players[i] == s.players[i]);
                    } else {
                        assert(i != r);
                        assert(t.players[i - 1] == s.players[i]);
                    }
                },
                None => {
                    assert(t.players[i] == s.players[i]);
                },
            }
        }
    }
}

/// Every game message but a kick keeps the seats, their holders and their
/// admin rights, and the connections.
#[verifier::spinoff_prover]
proof fn lemma_game_message_same_seats(s: GameState, pid: u128, msg: ClientMessage, rs: Seq<Option<Card>>)
    requires
        s.game_message(pid, msg, rs) is Some,
        !(msg is KickPlayer),
    ensures
        same_seats(s, s.game_message(pid, msg, rs)->Some_0),
{
    let t = s.game_message(pid, msg, rs)->Some_0;
    match msg {
        ClientMessage::PlaceBet { amount } => {
            lemma_bet_seats(s, pid, amount, rs);
        },
        ClientMessage::GameAction { action_type } => {
            lemma_action_seats(s, pid, action_type, rs);
        },
        ClientMessage::StartGame => {
            lemma_start_game_seats(s, pid, rs);
        },
        _ => {
            assert(same_seats(s, t));
        },
    }
}

proof fn lemma_game_message_seats(s: GameState, pid: u128, msg: ClientMessage, rs: Seq<Option<Card>>)
    requires
        s.game_message(pid, msg, rs) is Some,
        connections_seated(s),
    ensures
        connections_seated(s.game_message(pid, msg, rs)->Some_0),
{
    let t = s.game_message(pid, msg, rs)->Some_0;
    match msg {
        ClientMessage::KickPlayer { player_id } => {
            lemma_kick_seats(s, pid, player_id);
        },
        _ => {
            lemma_game_message_same_seats(s, pid, msg, rs);
            lemma_same_seats_keep_connections_seated(s, t);
        },
    }
}

/// Every connection belongs to a seated player, and every message keeps it
/// so: a seat is only ever taken away (by a kick) together with the
/// connections of its player, and a connection is only added for a player
/// who has a seat.
pub proof fn law_connections_stay_seated(pre: GameState, conn: u128, msg: ClientMessage, post: GameState)
    requires
        step_rel(pre, conn, msg, post),
        connections_seated(pre),
    ensures
        connections_seated(post),
{
    let (rs, id, sid) = choose|rs: Seq<Option<Card>>, id: u128, sid: u128|
        #[trigger] pre.with_deck(post.deck).step(conn, msg, rs, id, sid) == Some(post)
            && draws_rel(pre.settings.deck_count as nat, pre.deck, rs, post.deck)
            && crate::ids::is_v4_uuid(id) && crate::ids::is_v4_uuid(sid);
    let s = pre.with_deck(post.deck);
    assert(connections_seated(s));
    match msg {
        ClientMessage::JoinGame { username } => {
            let n = s.players.len() as int;
            if conn_pos(s.connections, conn) is None && n < s.settings.max_players {
                assert forall|k: int| 0 <= k < post.connections.len() implies seated(
                    post.players,
                    (#[trigger] post.connections[k]).1,
                ) by {
                    if k < s.connections.len() {
                        assert(seated(s.players, s.connections[k].1));
                        let i = choose|i: int| 0 <= i < s.players.len() && #[trigger] s.players[i].id == s.connections[k].1;
                        assert(post.players[i] == s.players[i]);
                    } else {
                        assert(post.players[n].id == id);
                    }
                }
            }
        },
        ClientMessage::Reconnect { player_id, secret } => {
            if conn_pos(s.connections, conn) is None {
                match player_pos(s.players, player_id) {
                    Some(i) => {
                        if s.players[i].secret == secret@ {
                            assert(is_first_player(s.players, player_id, i));
                            assert forall|k: int| 0 <= k < post.connections.len() implies seated(
                                post.players,
                                (#[trigger] post.connections[k]).1,
                            ) by {
                                if k < s.connections.len() {
                                    assert(seated(s.players, s.connections[k].1));
                                    let j = choose|j: int| 0 <= j < s.players.len() && #[trigger] s.players[j].id == s.connections[k].1;
                                    assert(post.players[j].id == s.players[j].id);
                                } else {
                                    assert(post.players[i].id == player_id);
                                }
                            }
                        }
                    },
                    None => {},
                }
            }
        },
        ClientMessage::Disconnect => {
            match conn_pos(s.connections, conn) {
                Some(k0) => {
                    assert forall|k: int| 0 <= k < post.connections.len() implies seated(
                        post.players,
                        (#[trigger] post.connections[k]).1,
                    ) by {
                        let k1 = if k < k0 { k } else { k + 1 };
                        assert(post.connections[k] == s.connections[k1]);
                        assert(seated(s.players, s.connections[k1].1));
                        let i = choose|i: int| 0 <= i < s.players.len() && #[trigger] s.players[i].id == s.connections[k1].1;
                        assert(post.players[i].id == s.players[i].id);
                    }
                },
                None => {},
            }
        },
        _ => match conn_pos(s.connections, conn) {
            Some(k) => {
                lemma_game_message_seats(s, s.connections[k].1, msg, rs);
            },
            None => {},
        },
    }
}

// ---------------------------------------------------------------------------
// The admin

/// The room has one admin, in the first seat: the first player holds admin
/// rights and nobody else does (an empty room has nobody).
pub open spec fn one_admin_first(s: GameState) -> bool {
    s.players.len() > 0 ==> {
        &&& s.players[0].is_admin
        &&& forall|i: int| 0 < i < s.players.len() ==> !(#[trigger] s.players[i]).is_admin
    }
}

proof fn lemma_same_seats_keep_one_admin(s: GameState, t: GameState)
    requires
        same_seats(s, t),
        one_admin_first(s),
    ensures
        one_admin_first(t),
{
    if t.players.len() > 0 {
        assert(t.players[0].is_admin == s.players[0].is_admin);
        assert forall|i: int| 0 < i < t.players.len() implies !(#[trigger] t.players[i]).is_admin by {
            assert(t.players[i].is_admin == s.players[i].is_admin);
        }
    }
}

proof fn lemma_admins_kept_keep_one_admin(s: GameState, t: GameState)
    requires
        t.players.len() == s.players.len(),
        forall|j: int| 0 <= j < s.players.len() ==> (#[trigger] t.players[j]).is_admin == s.players[j].is_admin,
        one_admin_first(s),
    ensures
        one_admin_first(t),
{
    if t.players.len() > 0 {
        assert(t.players[0].is_admin == s.players[0].is_admin);
        assert forall|i: int| 0 < i < t.players.len() implies !(#[trigger] t.players[i]).is_admin by {
            assert(t.players[i].is_admin == s.players[i].is_admin);
        }
    }
}

/// The admin cannot be kicked: a kick by the admin removes a later seat.
proof fn lemma_kick_one_admin(s: GameState, pid: u128, target: u128)
    requires
        one_admin_first(s),
    ensures
        one_admin_first(s.kick(pid, target)),
{
    if s.is_admin(pid) && pid != target {
        let j = player_pos(s.players, pid)->Some_0;
        assert(is_first_player(s.players, pid, j));
        assert(j == 0);
        match player_pos(s.players, target) {
            Some(r) => {
                assert(is_first_player(s.players, target, r));
                assert(r != 0);
                let t = s.kick(pid, target);
                assert(t.players[0] == s.players[0]);
                assert forall|i: int| 0 < i < t.players.len() implies !(#[trigger] t.players[i]).is_admin by {
                    if i < r {
                        assert(t.players[i] == s.players[i]);
                    } else {
                        assert(t.players[i] == s.players[i + 1]);
                    }
                }
            },
            None => {},
        }
    }
}

/// The room keeps exactly one admin, in the first seat, through every
/// message: the first player to join becomes the admin, nobody else ever
/// does, and the admin's seat cannot be taken away.
pub proof fn law_one_admin_in_first_seat(pre: GameState, conn: u128, msg: ClientMessage, post: GameState)
    requires
        step_rel(pre, conn, msg, post),
        one_admin_first(pre),
    ensures
        one_admin_first(post),
{
    let (rs, id, sid) = choose|rs: Seq<Option<Card>>, id: u128, sid: u128|
        #[trigger] pre.with_deck(post.deck).step(conn, msg, rs, id, sid) == Some(post)
            && draws_rel(pre.settings.deck_count as nat, pre.deck, rs, post.deck)
            && crate::ids::is_v4_uuid(id) && crate::ids::is_v4_uuid(sid);
    let s = pre.with_deck(post.deck);
    assert(one_admin_first(s));
    match msg {
        ClientMessage::JoinGame { username } => {
            let n = s.players.len() as int;
            if conn_pos(s.connections, conn) is None && n < s.settings.max_players {
                assert(post.players.len() == n + 1);
                assert(post.players[n].is_admin == (n == 0));
                assert forall|i: int| 0 < i < post.players.len() implies !(#[trigger] post.players[i]).is_admin by {
                    if i < n {
                        assert(post.players[i] == s.players[i]);
                    }
                }
                if n > 0 {
                    assert(post.players[0] == s.players[0]);
                }
            }
        },
        ClientMessage::Reconnect { player_id, secret } => {
            if conn_pos(s.connections, conn) is None {
                match player_pos(s.players, player_id) {
                    Some(i) => {
                        if s.players[i].secret == secret@ {
                            assert forall|j: int| 0 <= j < s.players.len() implies (#[trigger] post.players[j]).is_admin
                                == s.players[j].is_admin by {}
                            lemma_admins_kept_keep_one_admin(s, post);
                        }
                    },
                    None => {},
                }
            }
        },
        ClientMessage::Disconnect => {
            match conn_pos(s.connections, conn) {
                Some(k0) => {
                    assert forall|j: int| 0 <= j < s.players.len() implies (#[trigger] post.players[j]).is_admin
                        == s.players[j].is_admin by {}
                    lemma_admins_kept_keep_one_admin(s, post);
                },
                None => {},
            }
        },
        _ => match conn_pos(s.connections, conn) {
            Some(k) => {
                let pid = s.connections[k].1;
                match msg {
                    ClientMessage::KickPlayer { player_id } => {
                        lemma_kick_one_admin(s, pid, player_id);
                    },
                    _ => {
                        lemma_game_message_same_seats(s, pid, msg, rs);
                        lemma_same_seats_keep_one_admin(s, post);
                    },
                }
            },
            None => {},
        },
    }
}

/// Snapshots never carry a player's reconnection secret.
pub proof fn law_snapshots_hide_secrets(s: GameState)
    ensures
        s.snapshot() matches MessageView::GameStateSnapshot { players, .. } && forall|i: int|
            0 <= i < players.len() ==> (#[trigger] players[i]).secret.len() == 0,
{
}

// ---------------------------------------------------------------------------
// Chips in play

/// The bets on a list of hands, summed.
pub open spec fn bets(hs: Seq<crate::types::HandView>) -> int
    decreases hs.len(),
{
    if hs.len() == 0 {
        0
    } else {
        bets(hs.drop_last()) + hs.last().bet
    }
}

/// A player's chips together with what they have bet.
pub open spec fn stake(p: crate::types::PlayerView) -> int {
    p.chips + bets(p.hands)
}

/// From players `a` to players `b`: the same seats, every stake kept, and
/// nobody but the player at `t` changed.
pub open spec fn stakes_kept(a: Seq<crate::types::PlayerView>, b: Seq<crate::types::PlayerView>, t: int) -> bool {
    &&& b.len() == a.len()
    &&& forall|i: int|
        0 <= i < a.len() ==> stake(#[trigger] b[i]) == stake(a[i]) && (i != t ==> b[i] == a[i])
}

proof fn lemma_bets_update(hs: Seq<crate::types::HandView>, i: int, h: crate::types::HandView)
    requires
        0 <= i < hs.len(),
    ensures
        bets(hs.update(i, h)) == bets(hs) - hs[i].bet + h.bet,
    decreases hs.len(),
{
    if i == hs.len() - 1 {
        assert(hs.update(i, h).drop_last() =~= hs.drop_last());
    } else {
        lemma_bets_update(hs.drop_last(), i, h);
        assert(hs.update(i, h).drop_last() =~= hs.drop_last().update(i, h));
    }
}

proof fn lemma_bets_insert(hs: Seq<crate::types::HandView>, i: int, h: crate::types::HandView)
    requires
        0 <= i <= hs.len(),
    ensures
        bets(hs.insert(i, h)) == bets(hs) + h.bet,
    decreases hs.len(),
{
    if i == hs.len() {
        assert(hs.insert(i, h).drop_last() =~= hs);
    } else {
        lemma_bets_insert(hs.drop_last(), i, h);
        assert(hs.insert(i, h).drop_last() =~= hs.drop_last().insert(i, h));
        assert(hs.insert(i, h).last() == hs.last());
    }
}

proof fn lemma_stakes_kept_trans(
    a: Seq<crate::types::PlayerView>,
    b: Seq<crate::types::PlayerView>,
    c: Seq<crate::types::PlayerView>,
    t: int,
)
    requires
        stakes_kept(a, b, t),
        stakes_kept(b, c, t),
    ensures
        stakes_kept(a, c, t),
{
    assert forall|i: int| 0 <= i < a.len() implies stake(#[trigger] c[i]) == stake(a[i]) && (i != t ==> c[i]
        == a[i]) by {
        assert(stake(c[i]) == stake(b[i]));
    }
}

/// Moving play on during the round changes no stake, and only the current
/// player's active hand index.
proof fn lemma_advance_stakes(s: GameState, rs: Seq<Option<Card>>)
    requires
        s.advance(rs) is Some,
        s.advance(rs)->Some_0.phase == GamePhase::Playing,
    ensures
        stakes_kept(s.players, s.advance(rs)->Some_0.players, s.turn_index as int),
{
    let t = s.turn_index as int;
    let post = s.advance(rs)->Some_0;
    if t < s.players.len() && s.players[t].status == PlayerStatus::Playing
        && s.players[t].active_hand_index + 1 < s.players[t].hands.len() {
        assert(post.players == s.players.update(
            t,
            crate::types::PlayerView {
                active_hand_index: (s.players[t].active_hand_index + 1) as usize,
                ..s.players[t]
            },
        ));
    } else {
        let start: int = if t == usize::MAX {
            0
        } else {
            t + 1
        };
        match crate::model::next_turn(s.players, start - 1) {
            Some(n) => {
                assert(post.players == s.players);
            },
            None => {},
        }
    }
}

proof fn lemma_action_stakes(s: GameState, pid: u128, a: crate::messages::ActionType, rs: Seq<Option<Card>>)
    requires
        s.action(pid, a, rs) is Some,
        s.action(pid, a, rs)->Some_0.phase == GamePhase::Playing,
        rs.len() > 0 ==> rs[0] is Some,
        ({
            let t = s.turn_index as int;
            t < s.players.len() && s.players[t].active_hand_index < s.players[t].hands.len()
                ==> 2 * s.players[t].hands[s.players[t].active_hand_index as int].bet <= u32::MAX
        }),
    ensures
        stakes_kept(s.players, s.action(pid, a, rs)->Some_0.players, s.turn_index as int),
{
    let post = s.action(pid, a, rs)->Some_0;
    let t = s.turn_index as int;
    if s.phase == GamePhase::Playing && t < s.players.len() && s.players[t].id == pid {
        let p = s.players[t];
        let ai = p.active_hand_index as int;
        if ai < p.hands.len() {
            let h = p.hands[ai];
            match a {
                crate::messages::ActionType::Hit => {
                    match rs[0] {
                        Some(c) => {
                            let p1 = crate::model::give_card(p, ai, c);
                            lemma_bets_update(p.hands, ai, crate::types::HandView { cards: h.cards.push(c), ..h });
                            if hand_value(p1.hands[ai].cards) > 21 {
                                let hb = crate::types::HandView {
                                    status: crate::types::HandStatus::Busted,
                                    ..p1.hands[ai]
                                };
                                let s1 = s.with_player(
                                    t,
                                    crate::types::PlayerView { hands: p1.hands.update(ai, hb), ..p1 },
                                );
                                lemma_bets_update(p1.hands, ai, hb);
                                assert(stakes_kept(s.players, s1.players, t));
                                lemma_advance_stakes(s1, rs.drop_first());
                                lemma_stakes_kept_trans(s.players, s1.players, post.players, t);
                            } else {
                                assert(stakes_kept(s.players, s.with_player(t, p1).players, t));
                            }
                        },
                        None => {},
                    }
                },
                crate::messages::ActionType::Stand => {
                    let hs = crate::types::HandView { status: crate::types::HandStatus::Stood, ..h };
                    let s1 = s.with_player(t, crate::types::PlayerView { hands: p.hands.update(ai, hs), ..p });
                    lemma_bets_update(p.hands, ai, hs);
                    assert(stakes_kept(s.players, s1.players, t));
                    lemma_advance_stakes(s1, rs);
                    lemma_stakes_kept_trans(s.players, s1.players, post.players, t);
                },
                crate::messages::ActionType::Double => {
                    if p.chips >= h.bet {
                        let c = rs[0]->Some_0;
                        let s1 = s.with_player(
                            t,
                            crate::types::PlayerView { chips: (p.chips - h.bet) as u32, ..p },
                        );
                        let cards = h.cards.push(c);
                        let h1 = crate::types::HandView {
                            cards,
                            bet: crate::model::wrap32(h.bet + h.bet),
                            status: if hand_value(cards) > 21 {
                                crate::types::HandStatus::Busted
                            } else {
                                crate::types::HandStatus::Doubled
                            },
                        };
                        let s2 = s1.with_player(
                            t,
                            crate::types::PlayerView { hands: p.hands.update(ai, h1), ..s1.players[t] },
                        );
                        assert(h1.bet == 2 * h.bet);
                        lemma_bets_update(p.hands, ai, h1);
                        assert(stakes_kept(s.players, s2.players, t));
                        lemma_advance_stakes(s2, rs.drop_first());
                        lemma_stakes_kept_trans(s.players, s2.players, post.players, t);
                    }
                },
                crate::messages::ActionType::Split => {
                    if h.cards.len() == 2 && p.chips >= h.bet && h.cards[0].rank == h.cards[1].rank {
                        let kept = match rs[0] {
                            Some(c) => h.cards.drop_last().push(c),
                            None => h.cards.drop_last(),
                        };
                        let moved = match rs[1] {
                            Some(c) => seq![h.cards.last(), c],
                            None => seq![h.cards.last()],
                        };
                        let hk = crate::types::HandView { cards: kept, ..h };
                        let hm = crate::types::HandView {
                            cards: moved,
                            bet: h.bet,
                            status: crate::types::HandStatus::Playing,
                        };
                        lemma_bets_update(p.hands, ai, hk);
                        lemma_bets_insert(p.hands.update(ai, hk), ai + 1, hm);
                        assert(post.players[t].hands == p.hands.update(ai, hk).insert(ai + 1, hm));
                        assert(stakes_kept(s.players, post.players, t));
                    }
                },
            }
        }
    }
}

/// The first of some draws comes up empty only from an empty shoe in a room
/// that deals from no decks.
proof fn lemma_first_draw_empty(k: nat, a: Seq<Card>, rs: Seq<Option<Card>>, b: Seq<Card>)
    requires
        draws_rel(k, a, rs, b),
        rs.len() > 0,
        rs[0] is None,
    ensures
        k == 0,
        a.len() == 0,
    decreases rs.len(),
{
    let prev = rs.drop_last();
    if rs.len() == 1 {
        assert(rs.last() == rs[0]);
        assert(prev.len() == 0);
        assert(draws_rel(k, a, prev, b));
        assert(b == a);
    } else {
        assert(prev[0] == rs[0]);
        match rs.last() {
            None => {
                lemma_first_draw_empty(k, a, prev, b);
            },
            Some(c) => {
                if draws_rel(k, a, prev, b.push(c)) {
                    lemma_first_draw_empty(k, a, prev, b.push(c));
                } else {
                    lemma_first_draw_empty(k, a, prev, Seq::empty());
                }
            },
        }
    }
}

/// Chips stay in play: while a round is being played, a move only moves a
/// player's chips into their own bets (a double or a split), so every
/// player's chips plus bets stay the same, and nobody but the player on turn
/// changes. A double has to fit in a bet (twice the bet at most `u32::MAX`),
/// and the room must have a card to deal: a card left in the shoe, or decks
/// to rebuild it from (else a double takes the chips but gets no card to
/// double on).
pub proof fn law_moves_keep_chips_in_play(
    pre: GameState,
    conn: u128,
    action_type: crate::messages::ActionType,
    post: GameState,
)
    requires
        step_rel(pre, conn, ClientMessage::GameAction { action_type }, post),
        post.phase == GamePhase::Playing,
        pre.deck.len() > 0 || pre.settings.deck_count > 0,
        ({
            let t = pre.turn_index as int;
            t < pre.players.len() && pre.players[t].active_hand_index < pre.players[t].hands.len()
                ==> 2 * pre.players[t].hands[pre.players[t].active_hand_index as int].bet <= u32::MAX
        }),
    ensures
        stakes_kept(pre.players, post.players, pre.turn_index as int),
{
    let msg = ClientMessage::GameAction { action_type };
    let (rs, id, sid) = choose|rs: Seq<Option<Card>>, id: u128, sid: u128|
        #[trigger] pre.with_deck(post.deck).step(conn, msg, rs, id, sid) == Some(post)
            && draws_rel(pre.settings.deck_count as nat, pre.deck, rs, post.deck)
            && crate::ids::is_v4_uuid(id) && crate::ids::is_v4_uuid(sid);
    let s = pre.with_deck(post.deck);
    if rs.len() > 0 && rs[0] is None {
        lemma_first_draw_empty(pre.settings.deck_count as nat, pre.deck, rs, post.deck);
    }
    match conn_pos(s.connections, conn) {
        Some(k) => {
            lemma_action_stakes(s, s.connections[k].1, action_type, rs);
        },
        None => {
            assert(post.players == pre.players);
        },
    }
}

// ---------------------------------------------------------------------------
// Payout

/// What a hand brings back at payout, read from how it ended: a win pays the
/// bet back twice (a blackjack, two and a half times as the float
/// arithmetic gives it), a push returns the bet, a loss pays nothing.
pub open spec fn settled_pay(before: crate::types::HandView, after: crate::types::HandView) -> int {
    if after.status == crate::types::HandStatus::Won {
        if before.status == crate::types::HandStatus::Blackjack {
            crate::model::blackjack_return(before.bet) as int
        } else {
            2 * before.bet
        }
    } else if after.status == crate::types::HandStatus::Push {
        before.bet as int
    } else {
        0
    }
}

/// The pay of every hand, summed.
pub open spec fn settled_total(before: Seq<crate::types::HandView>, after: Seq<crate::types::HandView>) -> int
    decreases before.len(),
{
    if before.len() == 0 || after.len() == 0 {
        0
    } else {
        settled_total(before.drop_last(), after.drop_last()) + settled_pay(before.last(), after.last())
    }
}

proof fn lemma_settled_pay_nonneg(b: crate::types::HandView, a: crate::types::HandView)
    ensures
        settled_pay(b, a) >= 0,
{
}

#[verifier::spinoff_prover]
proof fn lemma_paid_chips_sum(chips: u32, hs: Seq<crate::types::HandView>, dv: nat, dbj: bool)
    requires
        chips + settled_total(
            hs,
            hs.map_values(
                |h: crate::types::HandView| crate::types::HandView { status: crate::model::hand_outcome(h, dv, dbj), ..h },
            ),
        ) <= u32::MAX,
    ensures
        crate::model::paid_chips(chips, hs, dv, dbj) == chips + settled_total(
            hs,
            hs.map_values(
                |h: crate::types::HandView| crate::types::HandView { status: crate::model::hand_outcome(h, dv, dbj), ..h },
            ),
        ),
    decreases hs.len(),
{
    let f = |h: crate::types::HandView| crate::types::HandView { status: crate::model::hand_outcome(h, dv, dbj), ..h };
    if hs.len() > 0 {
        let rest = hs.drop_last();
        assert(hs.map_values(f).drop_last() =~= rest.map_values(f));
        assert(hs.map_values(f).last() == f(hs.last()));
        lemma_settled_pay_nonneg(hs.last(), f(hs.last()));
        lemma_paid_chips_sum(chips, rest, dv, dbj);
    }
}

/// Payout: every hand in the round is settled against the dealer. A busted
/// hand is lost whatever the dealer holds; a blackjack wins unless the dealer
/// has one too (then it pushes); any other hand loses to a dealer blackjack,
/// wins when the dealer busts or it beats the dealer's total, pushes on a tie
/// and otherwise loses. Cards and bets stay for display, the player sits for
/// the next round, and (as long as no chip count overflows) the player's chips
/// grow by exactly what the hands pay; a player not in the round is left as
/// they were.
#[verifier::spinoff_prover]
pub proof fn law_payout_settles_every_hand(s: GameState)
    ensures
        ({
            let t = s.resolve_bets();
            let dv = hand_value(s.dealer_hand);
            let dbj = dv == 21 && s.dealer_hand.len() == 2;
            &&& t.phase == GamePhase::Payout
            &&& t.players.len() == s.players.len()
            &&& forall|i: int|
                0 <= i < s.players.len() && s.players[i].status != PlayerStatus::Playing
                    ==> #[trigger] t.players[i] == s.players[i]
            &&& forall|i: int|
                0 <= i < s.players.len() && s.players[i].status == PlayerStatus::Playing ==> {
                    let p = s.players[i];
                    let q = #[trigger] t.players[i];
                    &&& q.status == PlayerStatus::Sitting
                    &&& q.id == p.id
                    &&& q.hands.len() == p.hands.len()
                    &&& forall|j: int|
                        0 <= j < p.hands.len() ==> {
                            let h = p.hands[j];
                            let o = #[trigger] q.hands[j];
                            let hv = hand_value(h.cards);
                            &&& o.cards == h.cards
                            &&& o.bet == h.bet
                            &&& h.status == crate::types::HandStatus::Busted ==> o.status
                                == crate::types::HandStatus::Lost
                            &&& h.status == crate::types::HandStatus::Blackjack ==> o.status == (if dbj {
                                crate::types::HandStatus::Push
                            } else {
                                crate::types::HandStatus::Won
                            })
                            &&& h.status != crate::types::HandStatus::Busted && h.status
                                != crate::types::HandStatus::Blackjack ==> o.status == (if dbj {
                                crate::types::HandStatus::Lost
                            } else if dv > 21 || hv > dv {
                                crate::types::HandStatus::Won
                            } else if hv == dv {
                                crate::types::HandStatus::Push
                            } else {
                                crate::types::HandStatus::Lost
                            })
                        }
                    &&& p.chips + settled_total(p.hands, q.hands) <= u32::MAX ==> q.chips == p.chips
                        + settled_total(p.hands, q.hands)
                }
        }),
{
    let t = s.resolve_bets();
    let dv = hand_value(s.dealer_hand);
    let dbj = dv == 21 && s.dealer_hand.len() == 2;
    assert forall|i: int|
        0 <= i < s.players.len() && s.players[i].status == PlayerStatus::Playing implies {
            let p = s.players[i];
            let q = #[trigger] t.players[i];
            p.chips + settled_total(p.hands, q.hands) <= u32::MAX ==> q.chips == p.chips + settled_total(
                p.hands,
                q.hands,
            )
        } by {
        let p = s.players[i];
        let q = t.players[i];
        assert(q == crate::model::settle_player(p, dv, dbj));
        if p.chips + settled_total(p.hands, q.hands) <= u32::MAX {
            lemma_paid_chips_sum(p.chips, p.hands, dv, dbj);
        }
    }
}

// ---------------------------------------------------------------------------
// A clear table for each round

/// The table is clear: the dealer holds no card and no player holds a hand.
pub open spec fn table_clear(t: GameState) -> bool {
    &&& t.dealer_hand.len() == 0
    &&& forall|i: int| 0 <= i < t.players.len() ==> (#[trigger] t.players[i]).hands.len() == 0
}

proof fn lemma_game_message_enters_betting(s: GameState, pid: u128, msg: ClientMessage, rs: Seq<Option<Card>>)
    requires
        s.game_message(pid, msg, rs) is Some,
        s.phase != GamePhase::Betting,
        s.game_message(pid, msg, rs)->Some_0.phase == GamePhase::Betting,
    ensures
        table_clear(s.game_message(pid, msg, rs)->Some_0),
{
    match msg {
        ClientMessage::GameAction { action_type } => {
            lemma_action(s, pid, action_type, rs);
        },
        ClientMessage::StartGame => {
            if s.is_admin(pid) && s.phase == GamePhase::Playing {
                let t = s.turn_index as int;
                let s1 = if t < s.players.len() {
                    s.with_player(
                        t,
                        crate::types::PlayerView {
                            hands: s.players[t].hands.map_values(
                                |h: crate::types::HandView| crate::model::stood(h),
                            ),
                            ..s.players[t]
                        },
                    )
                } else {
                    s
                };
                lemma_pass_turn(s1, rs);
            }
        },
        _ => {},
    }
}

/// Each round starts at a clear table: whenever a message opens betting,
/// the dealer's hand and every player's hands are empty, so a round's cards
/// are only those dealt in it.
pub proof fn law_betting_opens_at_a_clear_table(pre: GameState, conn: u128, msg: ClientMessage, post: GameState)
    requires
        step_rel(pre, conn, msg, post),
        pre.phase != GamePhase::Betting,
        post.phase == GamePhase::Betting,
    ensures
        table_clear(post),
{
    let (rs, id, sid) = choose|rs: Seq<Option<Card>>, id: u128, sid: u128|
        #[trigger] pre.with_deck(post.deck).step(conn, msg, rs, id, sid) == Some(post)
            && draws_rel(pre.settings.deck_count as nat, pre.deck, rs, post.deck)
            && crate::ids::is_v4_uuid(id) && crate::ids::is_v4_uuid(sid);
    let s = pre.with_deck(post.deck);
    match msg {
        ClientMessage::JoinGame { username } => {},
        ClientMessage::Reconnect { player_id, secret } => {},
        ClientMessage::Disconnect => {},
        _ => match conn_pos(s.connections, conn) {
            Some(k) => {
                lemma_game_message_enters_betting(s, s.connections[k].1, msg, rs);
            },
            None => {},
        },
    }
}

// ---------------------------------------------------------------------------
// Hits

/// The first of some draws from a shoe that still holds cards is its last
/// card.
proof fn lemma_first_draw_from_shoe(k: nat, a: Seq<Card>, rs: Seq<Option<Card>>, b: Seq<Card>)
    requires
        draws_rel(k, a, rs, b),
        rs.len() > 0,
        a.len() > 0,
    ensures
        rs[0] == Some(a.last()),
    decreases rs.len(),
{
    let prev = rs.drop_last();
    if rs.len() == 1 {
        assert(rs.last() == rs[0]);
        match rs.last() {
            None => {
                assert(draws_rel(k, a, prev, b));
            },
            Some(c) => {
                if draws_rel(k, a, prev, b.push(c)) {
                    assert(a == b.push(c));
                } else {
                    assert(draws_rel(k, a, prev, Seq::empty()));
                }
            },
        }
    } else {
        assert(prev[0] == rs[0]);
        match rs.last() {
            None => {
                lemma_first_draw_from_shoe(k, a, prev, b);
            },
            Some(c) => {
                if draws_rel(k, a, prev, b.push(c)) {
                    lemma_first_draw_from_shoe(k, a, prev, b.push(c));
                } else {
                    lemma_first_draw_from_shoe(k, a, prev, Seq::empty());
                }
            },
        }
    }
}

/// Every player keeps their hands and the cards in them.
pub open spec fn same_cards(s: GameState, t: GameState) -> bool {
    &&& t.players.len() == s.players.len()
    &&& forall|i: int| 0 <= i < s.players.len() ==> (#[trigger] t.players[i]).hands.len() == s.players[i].hands.len()
    &&& forall|i: int, j: int|
        0 <= i < s.players.len() && 0 <= j < s.players[i].hands.len() ==> (#[trigger] t.players[i].hands[j]).cards
            == s.players[i].hands[j].cards
}

proof fn lemma_play_dealer_cards(s: GameState, rs: Seq<Option<Card>>)
    requires
        s.play_dealer(rs) is Some,
    ensures
        same_cards(s, s.play_dealer(rs)->Some_0),
{
    let t = s.play_dealer(rs)->Some_0;
    let d = dealer_draws(s.dealer_hand, rs)->Some_0;
    let s3 = GameState { phase: GamePhase::DealerTurn, dealer_hand: d, ..s };
    let dv = hand_value(d);
    let dbj = dv == 21 && d.len() == 2;
    assert(t.players == s.players.map_values(|p: crate::types::PlayerView| crate::model::settle_player(p, dv, dbj)));
    assert forall|i: int, j: int|
        0 <= i < s.players.len() && 0 <= j < s.players[i].hands.len() implies (#[trigger] t.players[i].hands[j]).cards
            == s.players[i].hands[j].cards by {
        assert(t.players[i] == crate::model::settle_player(s.players[i], dv, dbj));
    }
}

proof fn lemma_pass_turn_cards(s: GameState, rs: Seq<Option<Card>>)
    requires
        s.pass_turn(rs) is Some,
    ensures
        same_cards(s, s.pass_turn(rs)->Some_0),
{
    let t = s.turn_index as int;
    let start: int = if t == usize::MAX {
        0
    } else {
        t + 1
    };
    match crate::model::next_turn(s.players, start - 1) {
        Some(n) => {},
        None => {
            let s1 = s.with_turn(
                if start >= s.players.len() {
                    start as usize
                } else {
                    s.players.len() as usize
                },
            );
            lemma_play_dealer_cards(s1, rs);
        },
    }
}

proof fn lemma_advance_cards(s: GameState, rs: Seq<Option<Card>>)
    requires
        s.advance(rs) is Some,
    ensures
        same_cards(s, s.advance(rs)->Some_0),
{
    let t = s.turn_index as int;
    if t < s.players.len() && s.players[t].status == PlayerStatus::Playing
        && s.players[t].active_hand_index + 1 < s.players[t].hands.len() {
        let post = s.advance(rs)->Some_0;
        assert forall|i: int, j: int|
            0 <= i < s.players.len() && 0 <= j < s.players[i].hands.len() implies (
            #[trigger] post.players[i].hands[j]).cards == s.players[i].hands[j].cards by {
            if i == t {
                assert(post.players[i].hands == s.players[i].hands);
            }
        }
    } else {
        lemma_pass_turn_cards(s, rs);
    }
}

/// A hit deals the next card of the shoe (its last card) onto the player's
/// active hand and leaves every other hand's cards as they were, whether the
/// hand busts and play moves on or not.
pub proof fn law_hit_deals_to_the_active_hand(pre: GameState, conn: u128, post: GameState)
    requires
        step_rel(pre, conn, ClientMessage::GameAction { action_type: crate::messages::ActionType::Hit }, post),
        conn_pos(pre.connections, conn) is Some,
        pre.phase == GamePhase::Playing,
        pre.turn_index < pre.players.len(),
        pre.players[pre.turn_index as int].id == pre.connections[conn_pos(pre.connections, conn)->Some_0].1,
        pre.players[pre.turn_index as int].active_hand_index < pre.players[pre.turn_index as int].hands.len(),
        pre.deck.len() > 0,
    ensures
        ({
            let t = pre.turn_index as int;
            let a = pre.players[t].active_hand_index as int;
            let p = pre.players[t];
            let q = post.players[t];
            &&& post.players.len() == pre.players.len()
            &&& q.hands.len() == p.hands.len()
            &&& q.hands[a].cards == p.hands[a].cards.push(pre.deck.last())
            &&& forall|j: int| 0 <= j < p.hands.len() && j != a ==> (#[trigger] q.hands[j]).cards == p.hands[j].cards
        }),
{
    let msg = ClientMessage::GameAction { action_type: crate::messages::ActionType::Hit };
    let (rs, id, sid) = choose|rs: Seq<Option<Card>>, id: u128, sid: u128|
        #[trigger] pre.with_deck(post.deck).step(conn, msg, rs, id, sid) == Some(post)
            && draws_rel(pre.settings.deck_count as nat, pre.deck, rs, post.deck)
            && crate::ids::is_v4_uuid(id) && crate::ids::is_v4_uuid(sid);
    let s = pre.with_deck(post.deck);
    let pid = pre.connections[conn_pos(pre.connections, conn)->Some_0].1;
    let t = pre.turn_index as int;
    let p = s.players[t];
    let a = p.active_hand_index as int;
    assert(s.step(conn, msg, rs, id, sid) == s.hit(rs));
    lemma_first_draw_from_shoe(pre.settings.deck_count as nat, pre.deck, rs, post.deck);
    let c = pre.deck.last();
    let p1 = crate::model::give_card(p, a, c);
    if hand_value(p1.hands[a].cards) > 21 {
        let hb = crate::types::HandView { status: crate::types::HandStatus::Busted, ..p1.hands[a] };
        let s1 = s.with_player(t, crate::types::PlayerView { hands: p1.hands.update(a, hb), ..p1 });
        lemma_advance_cards(s1, rs.drop_first());
        assert(post == s1.advance(rs.drop_first())->Some_0);
        assert forall|j: int| 0 <= j < p.hands.len() && j != a implies (#[trigger] post.players[t].hands[j]).cards
            == p.hands[j].cards by {
            assert(post.players[t].hands[j].cards == s1.players[t].hands[j].cards);
        }
        assert(post.players[t].hands[a].cards == s1.players[t].hands[a].cards);
    }
}

// ---------------------------------------------------------------------------
// Whose turn it can be

/// The player at the turn index is in the round and connected.
pub open spec fn turn_player_present(t: GameState) -> bool {
    &&& t.turn_index < t.players.len()
    &&& t.players[t.turn_index as int].is_connected
    &&& t.players[t.turn_index as int].status == PlayerStatus::Playing
}

/// From `s` to `t`: if play is on in `t` and the turn has just been handed
/// to someone (play just began, or the turn index moved), that player is in
/// the round and connected.
pub open spec fn turn_handed_to_present(s: GameState, t: GameState) -> bool {
    t.phase == GamePhase::Playing && (s.phase != GamePhase::Playing || t.turn_index != s.turn_index)
        ==> turn_player_present(t)
}

proof fn lemma_pass_turn_present(s: GameState, rs: Seq<Option<Card>>)
    requires
        s.pass_turn(rs) is Some,
        s.players.len() <= usize::MAX,
        s.pass_turn(rs)->Some_0.phase == GamePhase::Playing,
    ensures
        turn_player_present(s.pass_turn(rs)->Some_0),
{
    let t = s.turn_index as int;
    let start: int = if t == usize::MAX {
        0
    } else {
        t + 1
    };
    match crate::model::next_turn(s.players, start - 1) {
        Some(n) => {
            assert(crate::model::is_next_turn(s.players, start - 1, n));
        },
        None => {},
    }
}

proof fn lemma_advance_present(s: GameState, rs: Seq<Option<Card>>)
    requires
        s.advance(rs) is Some,
        s.players.len() <= usize::MAX,
    ensures
        turn_handed_to_present(s, s.advance(rs)->Some_0),
{
    let t = s.turn_index as int;
    if !(t < s.players.len() && s.players[t].status == PlayerStatus::Playing
        && s.players[t].active_hand_index + 1 < s.players[t].hands.len()) {
        if s.pass_turn(rs)->Some_0.phase == GamePhase::Playing {
            lemma_pass_turn_present(s, rs);
        }
    }
}

proof fn lemma_start_action_present(s: GameState, rs: Seq<Option<Card>>)
    requires
        s.start_action(rs) is Some,
        s.players.len() <= usize::MAX,
    ensures
        s.start_action(rs)->Some_0.phase == GamePhase::Playing ==> turn_player_present(s.start_action(rs)->Some_0),
{
    let n = count_playing(s.players) as int;
    if n != 0 {
        let s0 = s.with_turn(0).with_phase(GamePhase::Playing);
        let s1 = s0.deal_round(rs.take(n + 1)).deal_round(rs.subrange(n + 1, 2 * (n + 1)));
        let s2 = s1.with_players(s1.players.map_values(|p: crate::types::PlayerView| crate::model::mark_blackjack(p)));
        match crate::model::first_opener(s2.players) {
            Some(pos) => {
                assert(crate::model::is_first_opener(s2.players, pos));
            },
            None => {},
        }
    }
}

proof fn lemma_action_present(s: GameState, pid: u128, a: crate::messages::ActionType, rs: Seq<Option<Card>>)
    requires
        s.action(pid, a, rs) is Some,
        s.players.len() <= usize::MAX,
    ensures
        turn_handed_to_present(s, s.action(pid, a, rs)->Some_0),
{
    let t = s.turn_index as int;
    if s.phase == GamePhase::Playing && t < s.players.len() && s.players[t].id == pid {
        let p = s.players[t];
        let ai = p.active_hand_index as int;
        if ai < p.hands.len() {
            let h = p.hands[ai];
            match a {
                crate::messages::ActionType::Hit => {
                    match rs[0] {
                        Some(c) => {
                            let p1 = crate::model::give_card(p, ai, c);
                            if hand_value(p1.hands[ai].cards) > 21 {
                                let s1 = s.with_player(
                                    t,
                                    crate::types::PlayerView {
                                        hands: p1.hands.update(
                                            ai,
                                            crate::types::HandView {
                                                status: crate::types::HandStatus::Busted,
                                                ..p1.hands[ai]
                                            },
                                        ),
                                        ..p1
                                    },
                                );
                                lemma_advance_present(s1, rs.drop_first());
                            }
                        },
                        None => {},
                    }
                },
                crate::messages::ActionType::Stand => {
                    let s1 = s.with_player(
                        t,
                        crate::types::PlayerView {
                            hands: p.hands.update(
                                ai,
                                crate::types::HandView { status: crate::types::HandStatus::Stood, ..h },
                            ),
                            ..p
                        },
                    );
                    lemma_advance_present(s1, rs);
                },
                crate::messages::ActionType::Double => {
                    if p.chips >= h.bet {
                        match rs[0] {
                            Some(c) => {
                                let s1 = s.with_player(
                                    t,
                                    crate::types::PlayerView { chips: (p.chips - h.bet) as u32, ..p },
                                );
                                let cards = h.cards.push(c);
                                let h1 = crate::types::HandView {
                                    cards,
                                    bet: crate::model::wrap32(h.bet + h.bet),
                                    status: if hand_value(cards) > 21 {
                                        crate::types::HandStatus::Busted
                                    } else {
                                        crate::types::HandStatus::Doubled
                                    },
                                };
                                let s2 = s1.with_player(
                                    t,
                                    crate::types::PlayerView { hands: p.hands.update(ai, h1), ..s1.players[t] },
                                );
                                lemma_advance_present(s2, rs.drop_first());
                            },
                            None => {},
                        }
                    }
                },
                crate::messages::ActionType::Split => {},
            }
        }
    }
}

proof fn lemma_bet_present(s: GameState, pid: u128, amount: u32, rs: Seq<Option<Card>>)
    requires
        s.bet(pid, amount, rs) is Some,
        s.players.len() <= usize::MAX,
    ensures
        turn_handed_to_present(s, s.bet(pid, amount, rs)->Some_0),
{
    if s.phase == GamePhase::Betting {
        match player_pos(s.players, pid) {
            Some(i) => {
                let p = s.players[i];
                if p.status != PlayerStatus::PendingApproval && (p.status == PlayerStatus::Sitting
                    || p.status == PlayerStatus::Spectating) && p.chips >= amount {
                    let s1 = s.with_player(
                        i,
                        crate::types::PlayerView {
                            chips: (p.chips - amount) as u32,
                            status: PlayerStatus::Playing,
                            hands: seq![
                                crate::types::HandView {
                                    cards: Seq::empty(),
                                    bet: amount,
                                    status: crate::types::HandStatus::Playing,
                                },
                            ],
                            active_hand_index: 0,
                            ..p
                        },
                    );
                    if crate::model::all_ready(s1.players) {
                        lemma_start_action_present(s1, rs);
                    }
                }
            },
            None => {},
        }
    }
}

proof fn lemma_start_game_present(s: GameState, pid: u128, rs: Seq<Option<Card>>)
    requires
        s.start_game(pid, rs) is Some,
        s.players.len() <= usize::MAX,
    ensures
        turn_handed_to_present(s, s.start_game(pid, rs)->Some_0),
{
    if s.is_admin(pid) {
        if s.phase == GamePhase::Betting {
            lemma_start_action_present(s, rs);
        } else if s.phase == GamePhase::Playing {
            let t = s.turn_index as int;
            let s1 = if t < s.players.len() {
                s.with_player(
                    t,
                    crate::types::PlayerView {
                        hands: s.players[t].hands.map_values(
                            |h: crate::types::HandView| crate::model::stood(h),
                        ),
                        ..s.players[t]
                    },
                )
            } else {
                s
            };
            if s1.pass_turn(rs)->Some_0.phase == GamePhase::Playing {
                lemma_pass_turn_present(s1, rs);
            }
        }
    }
}

/// The turn only goes to a player who can take it: whenever a message begins
/// play or moves the turn to another seat, and play goes on, the player now
/// on turn is in the round and connected. Players who went offline are
/// skipped.
pub proof fn law_turn_goes_to_a_connected_player(pre: GameState, conn: u128, msg: ClientMessage, post: GameState)
    requires
        step_rel(pre, conn, msg, post),
        pre.players.len() <= usize::MAX,
    ensures
        turn_handed_to_present(pre, post),
{
    let (rs, id, sid) = choose|rs: Seq<Option<Card>>, id: u128, sid: u128|
        #[trigger] pre.with_deck(post.deck).step(conn, msg, rs, id, sid) == Some(post)
            && draws_rel(pre.settings.deck_count as nat, pre.deck, rs, post.deck)
            && crate::ids::is_v4_uuid(id) && crate::ids::is_v4_uuid(sid);
    let s = pre.with_deck(post.deck);
    match msg {
        ClientMessage::JoinGame { username } => {},
        ClientMessage::Reconnect { player_id, secret } => {},
        ClientMessage::Disconnect => {},
        _ => match conn_pos(s.connections, conn) {
            Some(k) => {
                let pid = s.connections[k].1;
                match msg {
                    ClientMessage::PlaceBet { amount } => {
                        lemma_bet_present(s, pid, amount, rs);
                    },
                    ClientMessage::GameAction { action_type } => {
                        lemma_action_present(s, pid, action_type, rs);
                    },
                    ClientMessage::StartGame => {
                        lemma_start_game_present(s, pid, rs);
                    },
                    _ => {},
                }
            },
            None => {},
        },
    }
}

// ---------------------------------------------------------------------------
// Presence

/// The room holds a connection for player `pid`.
pub open spec fn has_connection(cs: Seq<(u128, u128)>, pid: u128) -> bool {
    exists|k: int| 0 <= k < cs.len() && #[trigger] cs[k].1 == pid
}

/// No two seats carry the same player id.
pub open spec fn distinct_ids(ps: Seq<crate::types::PlayerView>) -> bool {
    forall|i: int, j: int| 0 <= i < ps.len() && 0 <= j < ps.len() && i != j ==> #[trigger] ps[i].id != #[trigger] ps[j].id
}

/// Every seated player shows as connected exactly when the room holds a
/// connection for them.
pub open spec fn presence_matches(s: GameState) -> bool {
    forall|i: int| 0 <= i < s.players.len() ==> (#[trigger] s.players[i]).is_connected == has_connection(
        s.connections,
        s.players[i].id,
    )
}

/// Adding or removing a connection of one player leaves every other player's
/// presence alone.
proof fn lemma_has_connection_push(cs: Seq<(u128, u128)>, c: (u128, u128), pid: u128)
    ensures
        has_connection(cs.push(c), pid) == (has_connection(cs, pid) || c.1 == pid),
{
    if has_connection(cs, pid) {
        let k = choose|k: int| 0 <= k < cs.len() && #[trigger] cs[k].1 == pid;
        assert(cs.push(c)[k].1 == pid);
    }
    if c.1 == pid {
        assert(cs.push(c)[cs.len() as int].1 == pid);
    }
    if has_connection(cs.push(c), pid) {
        let k = choose|k: int| 0 <= k < cs.push(c).len() && #[trigger] cs.push(c)[k].1 == pid;
        if k < cs.len() {
            assert(cs[k].1 == pid);
        }
    }
}

proof fn lemma_has_connection_remove(cs: Seq<(u128, u128)>, r: int, pid: u128)
    requires
        0 <= r < cs.len(),
        cs[r].1 != pid,
    ensures
        has_connection(cs.remove(r), pid) == has_connection(cs, pid),
{
    let t = cs.remove(r);
    if has_connection(cs, pid) {
        let k = choose|k: int| 0 <= k < cs.len() && #[trigger] cs[k].1 == pid;
        if k < r {
            assert(t[k].1 == pid);
        } else {
            assert(t[k - 1].1 == pid);
        }
    }
    if has_connection(t, pid) {
        let k = choose|k: int| 0 <= k < t.len() && #[trigger] t[k].1 == pid;
        if k < r {
            assert(cs[k].1 == pid);
        } else {
            assert(cs[k + 1].1 == pid);
        }
    }
}

proof fn lemma_conn_of_player_iff(cs: Seq<(u128, u128)>, pid: u128)
    ensures
        (conn_of_player(cs, pid) is Some) == has_connection(cs, pid),
{
    if has_connection(cs, pid) {
        let k = choose|k: int| 0 <= k < cs.len() && #[trigger] cs[k].1 == pid;
        lemma_conn_of_player_some(cs, pid, k);
    }
    if conn_of_player(cs, pid) is Some {
        let k = conn_of_player(cs, pid)->Some_0;
        assert(is_first_conn_of(cs, pid, k));
        assert(cs[k].1 == pid);
    }
}

proof fn lemma_same_seats_keep_presence(s: GameState, t: GameState)
    requires
        same_seats(s, t),
        presence_matches(s),
    ensures
        presence_matches(t),
{
    assert forall|i: int| 0 <= i < t.players.len() implies (#[trigger] t.players[i]).is_connected
        == has_connection(t.connections, t.players[i].id) by {
        assert(t.players[i].is_connected == s.players[i].is_connected);
        assert(t.players[i].id == s.players[i].id);
    }
}

/// A kick takes the kicked player's connections away along with the seat.
#[verifier::spinoff_prover]
proof fn lemma_kick_presence(s: GameState, pid: u128, target: u128)
    requires
        presence_matches(s),
        distinct_ids(s.players),
    ensures
        presence_matches(s.kick(pid, target)),
{
    let t = s.kick(pid, target);
    if s.is_admin(pid) && pid != target {
        let cs = s.connections;
        let keep = crate::model::belongs_to_other_than(target);
        let kept = cs.filter(keep);
        assert(t.connections == kept);
        assert forall|i: int| 0 <= i < t.players.len() implies (#[trigger] t.players[i]).is_connected
            == has_connection(kept, t.players[i].id) by {
            let q = t.players[i];
            let i0 = match player_pos(s.players, target) {
                Some(r) => if i < r { i } else { i + 1 },
                None => i,
            };
            match player_pos(s.players, target) {
                Some(r) => {
                    assert(is_first_player(s.players, target, r));
                    assert(q == s.players[i0]);
                    assert(i0 != r);
                    assert(q.id != target);
                },
                None => {
                    assert(q == s.players[i]);
                    if q.id == target {
                        lemma_player_pos_some(s.players, target, i);
                    }
                },
            }
            assert(q == s.players[i0]);
            if has_connection(cs, q.id) {
                let k = choose|k: int| 0 <= k < cs.len() && #[trigger] cs[k].1 == q.id;
                assert(keep(cs[k]));
                cs.lemma_filter_contains(keep, k);
                let m = choose|m: int| 0 <= m < kept.len() && kept[m] == cs[k];
                assert(kept[m].1 == q.id);
            }
            if has_connection(kept, q.id) {
                let m = choose|m: int| 0 <= m < kept.len() && #[trigger] kept[m].1 == q.id;
                assert(kept.contains(kept[m]));
                cs.lemma_filter_contains_rev(keep, kept[m]);
                let k = choose|k: int| 0 <= k < cs.len() && cs[k] == kept[m];
                assert(cs[k].1 == q.id);
            }
        }
    }
}

/// Presence follows the connections: if every player showed as connected
/// exactly when the room held a connection for them, that stays so after
/// every message, as long as seats keep distinct ids (a join's fresh id is
/// new). In particular a player who still has another connection open stays
/// connected when one of their connections closes.
#[verifier::spinoff_prover]
pub proof fn law_presence_follows_connections(pre: GameState, conn: u128, msg: ClientMessage, post: GameState)
    requires
        step_rel(pre, conn, msg, post),
        presence_matches(pre),
        distinct_ids(pre.players),
        distinct_ids(post.players),
    ensures
        presence_matches(post),
{
    let (rs, id, sid) = choose|rs: Seq<Option<Card>>, id: u128, sid: u128|
        #[trigger] pre.with_deck(post.deck).step(conn, msg, rs, id, sid) == Some(post)
            && draws_rel(pre.settings.deck_count as nat, pre.deck, rs, post.deck)
            && crate::ids::is_v4_uuid(id) && crate::ids::is_v4_uuid(sid);
    let s = pre.with_deck(post.deck);
    assert(presence_matches(s));
    let cs = s.connections;
    match msg {
        ClientMessage::JoinGame { username } => {
            let n = s.players.len() as int;
            if conn_pos(cs, conn) is None && n < s.settings.max_players {
                assert(post.connections == cs.push((conn, id)));
                assert(post.players[n].id == id);
                assert forall|i: int| 0 <= i < post.players.len() implies (#[trigger] post.players[i]).is_connected
                    == has_connection(post.connections, post.players[i].id) by {
                    lemma_has_connection_push(cs, (conn, id), post.players[i].id);
                    if i < n {
                        assert(post.players[i] == s.players[i]);
                        assert(post.players[i].id != post.players[n].id);
                    }
                }
            }
        },
        ClientMessage::Reconnect { player_id, secret } => {
            if conn_pos(cs, conn) is None {
                match player_pos(s.players, player_id) {
                    Some(r) => {
                        if s.players[r].secret == secret@ {
                            assert(is_first_player(s.players, player_id, r));
                            assert(post.connections == cs.push((conn, player_id)));
                            assert forall|i: int| 0 <= i < post.players.len() implies (
                            #[trigger] post.players[i]).is_connected == has_connection(
                                post.connections,
                                post.players[i].id,
                            ) by {
                                lemma_has_connection_push(cs, (conn, player_id), post.players[i].id);
                                if i != r {
                                    assert(post.players[i] == s.players[i]);
                                    assert(s.players[i].id != s.players[r].id);
                                }
                            }
                        }
                    },
                    None => {},
                }
            }
        },
        ClientMessage::Disconnect => {
            match conn_pos(cs, conn) {
                Some(k) => {
                    let pid = cs[k].1;
                    let cs2 = cs.remove(k);
                    assert(post.connections == cs2);
                    lemma_conn_of_player_iff(cs2, pid);
                    assert(has_connection(cs, pid)) by {
                        assert(cs[k].1 == pid);
                    }
                    assert forall|i: int| 0 <= i < post.players.len() implies (
                    #[trigger] post.players[i]).is_connected == has_connection(cs2, post.players[i].id) by {
                        let q = s.players[i];
                        if q.id != pid {
                            lemma_has_connection_remove(cs, k, q.id);
                            match player_pos(s.players, pid) {
                                Some(r) => {
                                    assert(is_first_player(s.players, pid, r));
                                    assert(i != r);
                                },
                                None => {},
                            }
                            assert(post.players[i] == q);
                        } else {
                            lemma_player_pos_some(s.players, pid, i);
                            let r = player_pos(s.players, pid)->Some_0;
                            assert(is_first_player(s.players, pid, r));
                            assert(r == i);
                        }
                    }
                },
                None => {},
            }
        },
        _ => match conn_pos(cs, conn) {
            Some(k) => {
                let pid = cs[k].1;
                match msg {
                    ClientMessage::KickPlayer { player_id } => {
                        lemma_kick_presence(s, pid, player_id);
                    },
                    _ => {
                        lemma_game_message_same_seats(s, pid, msg, rs);
                        lemma_same_seats_keep_presence(s, post);
                    },
                }
            },
            None => {},
        },
    }
}

} // verus!
