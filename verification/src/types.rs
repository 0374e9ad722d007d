//! Players, hands, phases and room settings.
use vstd::prelude::*;
use crate::cards::Card;

verus! {

/// The phases a room goes through; a round runs Betting -> Playing ->
/// DealerTurn -> Payout and the admin starts the next one.
#[derive(Clone, Copy, Debug, PartialEq, Eq, Structural)]
pub enum GamePhase {
    Lobby,
    Betting,
    Playing,
    DealerTurn,
    Payout,
    GameOver,
}

/// Where a hand stands in the round and, after payout, how it ended.
#[derive(Clone, Copy, Debug, PartialEq, Eq, Structural)]
pub enum HandStatus {
    Playing,
    Stood,
    Busted,
    Blackjack,
    Doubled,
    Won,
    Lost,
    Push,
}

/// Where a player stands in the room.
#[derive(Clone, Copy, Debug, PartialEq, Eq, Structural)]
pub enum PlayerStatus {
    /// Just joined, or sitting out.
    Spectating,
    /// Waiting for the round (may bet).
    Sitting,
    /// Has a bet in the current round.
    Playing,
    /// Waiting for an admin to let them in.
    PendingApproval,
}

/// Rules of a room, chosen at creation and changeable by an admin.
#[derive(Clone, Copy, Debug, PartialEq, Eq, Structural)]
pub struct GameSettings {
    pub initial_chips: u32,
    pub max_players: usize,
    pub deck_count: usize,
    pub approval_required: bool,
    pub chat_enabled: bool,
}

/// A hand of cards with the bet placed on it.
#[derive(Debug)]
pub struct Hand {
    pub cards: Vec<Card>,
    pub bet: u32,
    pub status: HandStatus,
}

/// Mathematical value of a hand.
#[verifier::ext_equal]
pub struct HandView {
    pub cards: Seq<Card>,
    pub bet: u32,
    pub status: HandStatus,
}

impl View for Hand {
    type V = HandView;

    open spec fn view(&self) -> HandView {
        HandView { cards: self.cards@, bet: self.bet, status: self.status }
    }
}

/// A seat in the room. `id` is the player's UUID as a 128-bit integer and
/// `secret` is the reconnection credential handed out on joining.
#[derive(Debug)]
pub struct Player {
    pub id: u128,
    pub name: String,
    pub chips: u32,
    pub hands: Vec<Hand>,
    pub active_hand_index: usize,
    pub status: PlayerStatus,
    pub is_admin: bool,
    pub secret: String,
    pub is_connected: bool,
}

/// Mathematical value of a player.
#[verifier::ext_equal]
pub struct PlayerView {
    pub id: u128,
    pub name: Seq<char>,
    pub chips: u32,
    pub hands: Seq<HandView>,
    pub active_hand_index: usize,
    pub status: PlayerStatus,
    pub is_admin: bool,
    pub secret: Seq<char>,
    pub is_connected: bool,
}

pub open spec fn hands_view(hands: Seq<Hand>) -> Seq<HandView> {
    hands.map_values(|h: Hand| h@)
}

pub open spec fn players_view(players: Seq<Player>) -> Seq<PlayerView> {
    players.map_values(|p: Player| p@)
}

impl View for Player {
    type V = PlayerView;

    open spec fn view(&self) -> PlayerView {
        PlayerView {
            id: self.id,
            name: self.name@,
            chips: self.chips,
            hands: hands_view(self.hands@),
            active_hand_index: self.active_hand_index,
            status: self.status,
            is_admin: self.is_admin,
            secret: self.secret@,
            is_connected: self.is_connected,
        }
    }
}

/// A copy of a sequence of cards.
pub fn copy_cards(cards: &Vec<Card>) -> (res: Vec<Card>)
    ensures
        res@ == cards@,
{
    let mut res: Vec<Card> = Vec::new();
    let mut i: usize = 0;
    while i < cards.len()
        invariant
            i <= cards@.len(),
            res@ =~= cards@.take(i as int),
        decreases cards@.len() - i,
    {
        res.push(cards[i]);
        i = i + 1;
        proof {
            assert(cards@.take(i as int) =~= cards@.take(i - 1).push(cards@[i - 1]));
        }
    }
    proof {
        assert(cards@.take(cards@.len() as int) =~= cards@);
    }
    res
}

impl Hand {
    /// A copy of this hand.
    pub fn duplicate(&self) -> (res: Hand)
        ensures
            res@ == self@,
    {
        Hand { cards: copy_cards(&self.cards), bet: self.bet, status: self.status }
    }
}

impl Player {
    /// A copy of this player.
    pub fn duplicate(&self) -> (res: Player)
        ensures
            res@ == self@,
    {
        let mut hands: Vec<Hand> = Vec::new();
        let mut i: usize = 0;
        while i < self.hands.len()
            invariant
                i <= self.hands@.len(),
                hands_view(hands@) =~= hands_view(self.hands@).take(i as int),
            decreases self.hands@.len() - i,
        {
            let h = self.hands[i].duplicate();
            let ghost before = hands@;
            hands.push(h);
            proof {
                assert(hands@ =~= before.push(h));
                assert(hands_view(self.hands@).take(i + 1) =~= hands_view(self.hands@).take(
                    i as int,
                ).push(h@));
            }
            i = i + 1;
        }
        proof {
            assert(hands_view(self.hands@).take(self.hands@.len() as int) =~= hands_view(
                self.hands@,
            ));
        }
        Player {
            id: self.id,
            name: self.name.clone(),
            chips: self.chips,
            hands,
            active_hand_index: self.active_hand_index,
            status: self.status,
            is_admin: self.is_admin,
            secret: self.secret.clone(),
            is_connected: self.is_connected,
        }
    }
}

/// A player as the others see them: everything but the reconnection secret.
pub open spec fn without_secret(p: PlayerView) -> PlayerView {
    PlayerView { secret: Seq::empty(), ..p }
}

impl Player {
    /// A copy of this player for others to see: the secret is left out.
    pub fn public_copy(&self) -> (res: Player)
        ensures
            res@ == without_secret(self@),
    {
        let mut p = self.duplicate();
        p.secret = String::new();
        p
    }
}

/// Copies of a list of players for others to see: the secrets are left out.
pub fn public_players(players: &Vec<Player>) -> (res: Vec<Player>)
    ensures
        players_view(res@) == players_view(players@).map_values(|p: PlayerView| without_secret(p)),
{
    let ghost target = players_view(players@).map_values(|p: PlayerView| without_secret(p));
    let mut res: Vec<Player> = Vec::new();
    let mut i: usize = 0;
    while i < players.len()
        invariant
            i <= players@.len(),
            target == players_view(players@).map_values(|p: PlayerView| without_secret(p)),
            players_view(res@) =~= target.take(i as int),
        decreases players@.len() - i,
    {
        let p = players[i].public_copy();
        let ghost before = res@;
        res.push(p);
        proof {
            assert(res@ =~= before.push(p));
            assert(target.take(i + 1) =~= target.take(i as int).push(p@));
        }
        i = i + 1;
    }
    proof {
        assert(target.take(players@.len() as int) =~= target);
    }
    res
}

} // verus!
