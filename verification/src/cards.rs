//! Playing cards, the standard deck and blackjack hand values.
use vstd::prelude::*;

verus! {

/// The four French suits.
#[derive(Clone, Copy, Debug, PartialEq, Eq, Structural)]
pub enum Suit {
    Hearts,
    Diamonds,
    Clubs,
    Spades,
}

/// The thirteen ranks, from Two up to Ace.
#[derive(Clone, Copy, Debug, PartialEq, Eq, Structural)]
pub enum Rank {
    Two,
    Three,
    Four,
    Five,
    Six,
    Seven,
    Eight,
    Nine,
    Ten,
    Jack,
    Queen,
    King,
    Ace,
}

/// A single playing card.
#[derive(Clone, Copy, Debug, PartialEq, Eq, Structural)]
pub struct Card {
    pub suit: Suit,
    pub rank: Rank,
}

/// The points a rank is worth before any ace is softened: 2..=10 for the pip
/// cards, 10 for the court cards and 11 for an ace.
pub open spec fn rank_points(r: Rank) -> nat {
    match r {
        Rank::Two => 2,
        Rank::Three => 3,
        Rank::Four => 4,
        Rank::Five => 5,
        Rank::Six => 6,
        Rank::Seven => 7,
        Rank::Eight => 8,
        Rank::Nine => 9,
        Rank::Ten | Rank::Jack | Rank::Queen | Rank::King => 10,
        Rank::Ace => 11,
    }
}

/// Sum of the card points of a hand, every ace counted as 11.
pub open spec fn raw_total(cards: Seq<Card>) -> nat
    decreases cards.len(),
{
    if cards.len() == 0 {
        0
    } else {
        raw_total(cards.drop_last()) + rank_points(cards.last().rank)
    }
}

/// Number of aces in a hand.
pub open spec fn ace_count(cards: Seq<Card>) -> nat
    decreases cards.len(),
{
    if cards.len() == 0 {
        0
    } else {
        ace_count(cards.drop_last()) + (if cards.last().rank == Rank::Ace { 1nat } else { 0nat })
    }
}

/// Turns aces from 11 into 1 (one at a time) while the score is above 21.
pub open spec fn soften(score: nat, aces: nat) -> nat
    decreases aces,
{
    if score > 21 && aces > 0 && score >= 10 {
        soften((score - 10) as nat, (aces - 1) as nat)
    } else {
        score
    }
}

/// The blackjack value of a hand.
pub open spec fn hand_value(cards: Seq<Card>) -> nat {
    soften(raw_total(cards), ace_count(cards))
}

/// Position of a suit in the standard deck order.
pub open spec fn suit_index(s: Suit) -> int {
    match s {
        Suit::Hearts => 0,
        Suit::Diamonds => 1,
        Suit::Clubs => 2,
        Suit::Spades => 3,
    }
}

/// Position of a rank in the standard deck order.
pub open spec fn rank_index(r: Rank) -> int {
    match r {
        Rank::Two => 0,
        Rank::Three => 1,
        Rank::Four => 2,
        Rank::Five => 3,
        Rank::Six => 4,
        Rank::Seven => 5,
        Rank::Eight => 6,
        Rank::Nine => 7,
        Rank::Ten => 8,
        Rank::Jack => 9,
        Rank::Queen => 10,
        Rank::King => 11,
        Rank::Ace => 12,
    }
}

pub open spec fn suit_at(i: int) -> Suit {
    if i == 0 {
        Suit::Hearts
    } else if i == 1 {
        Suit::Diamonds
    } else if i == 2 {
        Suit::Clubs
    } else {
        Suit::Spades
    }
}

pub open spec fn rank_at(i: int) -> Rank {
    if i == 0 {
        Rank::Two
    } else if i == 1 {
        Rank::Three
    } else if i == 2 {
        Rank::Four
    } else if i == 3 {
        Rank::Five
    } else if i == 4 {
        Rank::Six
    } else if i == 5 {
        Rank::Seven
    } else if i == 6 {
        Rank::Eight
    } else if i == 7 {
        Rank::Nine
    } else if i == 8 {
        Rank::Ten
    } else if i == 9 {
        Rank::Jack
    } else if i == 10 {
        Rank::Queen
    } else if i == 11 {
        Rank::King
    } else {
        Rank::Ace
    }
}

/// The 52-card deck in suit-major order: Hearts Two..Ace, then Diamonds,
/// Clubs and Spades.
pub open spec fn standard_deck() -> Seq<Card> {
    Seq::new(52, |i: int| Card { suit: suit_at(i / 13), rank: rank_at(i % 13) })
}

fn suit_from_index(i: usize) -> (s: Suit)
    requires
        i < 4,
    ensures
        s == suit_at(i as int),
{
    if i == 0 {
        Suit::Hearts
    } else if i == 1 {
        Suit::Diamonds
    } else if i == 2 {
        Suit::Clubs
    } else {
        Suit::Spades
    }
}

fn rank_from_index(i: usize) -> (r: Rank)
    requires
        i < 13,
    ensures
        r == rank_at(i as int),
{
    if i == 0 {
        Rank::Two
    } else if i == 1 {
        Rank::Three
    } else if i == 2 {
        Rank::Four
    } else if i == 3 {
        Rank::Five
    } else if i == 4 {
        Rank::Six
    } else if i == 5 {
        Rank::Seven
    } else if i == 6 {
        Rank::Eight
    } else if i == 7 {
        Rank::Nine
    } else if i == 8 {
        Rank::Ten
    } else if i == 9 {
        Rank::Jack
    } else if i == 10 {
        Rank::Queen
    } else if i == 11 {
        Rank::King
    } else {
        Rank::Ace
    }
}

impl Card {
    /// Points of this card, an ace counting 11.
    pub fn value(&self) -> (v: u8)
        ensures
            v as nat == rank_points(self.rank),
    {
        match self.rank {
            Rank::Two => 2,
            Rank::Three => 3,
            Rank::Four => 4,
            Rank::Five => 5,
            Rank::Six => 6,
            Rank::Seven => 7,
            Rank::Eight => 8,
            Rank::Nine => 9,
            Rank::Ten | Rank::Jack | Rank::Queen | Rank::King => 10,
            Rank::Ace => 11,
        }
    }

    /// A fresh, unshuffled 52-card deck in suit-major order.
    pub fn new_deck() -> (deck: Vec<Card>)
        ensures
            deck@ == standard_deck(),
    {
        let mut deck: Vec<Card> = Vec::new();
        let mut si: usize = 0;
        while si < 4
            invariant
                si <= 4,
                deck@ =~= standard_deck().take(13 * si as int),
            decreases 4 - si,
        {
            let suit = suit_from_index(si);
            let mut ri: usize = 0;
            while ri < 13
                invariant
                    si < 4,
                    ri <= 13,
                    suit == suit_at(si as int),
                    deck@ =~= standard_deck().take(13 * si + ri),
                decreases 13 - ri,
            {
                let rank = rank_from_index(ri);
                proof {
                    let k = 13 * si + ri;
                    assert(k / 13 == si as int && k % 13 == ri as int) by (nonlinear_arith)
                        requires
                            k == 13 * si + ri,
                            ri < 13,
                    ;
                    assert(standard_deck().take(k + 1) =~= standard_deck().take(k).push(
                        standard_deck()[k],
                    ));
                }
                deck.push(Card { suit, rank });
                ri = ri + 1;
            }
            si = si + 1;
        }
        proof {
            assert(standard_deck().take(52) =~= standard_deck());
        }
        deck
    }
}

/// Adding one card to a hand adds its points to the raw total.
pub proof fn lemma_raw_total_push(cards: Seq<Card>, c: Card)
    ensures
        raw_total(cards.push(c)) == raw_total(cards) + rank_points(c.rank),
        ace_count(cards.push(c)) == ace_count(cards) + (if c.rank == Rank::Ace { 1nat } else { 0nat }),
{
    assert(cards.push(c).drop_last() =~= cards);
}

/// The raw total of a prefix never exceeds that of the whole hand.
pub proof fn lemma_raw_total_prefix(cards: Seq<Card>, i: int)
    requires
        0 <= i <= cards.len(),
    ensures
        raw_total(cards.take(i)) <= raw_total(cards),
        ace_count(cards.take(i)) <= ace_count(cards),
    decreases cards.len() - i,
{
    if i < cards.len() {
        lemma_raw_total_prefix(cards, i + 1);
        assert(cards.take(i + 1) =~= cards.take(i).push(cards[i]));
        lemma_raw_total_push(cards.take(i), cards[i]);
    } else {
        assert(cards.take(i) =~= cards);
    }
}

/// Each ace contributes 11 to the raw total.
pub proof fn lemma_aces_in_total(cards: Seq<Card>)
    ensures
        11 * ace_count(cards) <= raw_total(cards),
    decreases cards.len(),
{
    if cards.len() > 0 {
        lemma_aces_in_total(cards.drop_last());
    }
}

/// `j` aces were turned from 11 into 1 by softening, and no fewer would do.
pub open spec fn softened_by(score: nat, aces: nat, j: nat) -> bool {
    &&& j <= aces
    &&& soften(score, aces) == score - 10 * j
    &&& (j < aces ==> soften(score, aces) <= 21)
    &&& (j > 0 ==> score - 10 * (j - 1) > 21)
}

/// Softening lowers the score by ten per converted ace.
pub proof fn lemma_soften_shape(score: nat, aces: nat)
    requires
        10 * aces <= score,
    ensures
        exists|j: nat| #[trigger] softened_by(score, aces, j),
    decreases aces,
{
    if score > 21 && aces > 0 && score >= 10 {
        lemma_soften_shape((score - 10) as nat, (aces - 1) as nat);
        let j = choose|j: nat| #[trigger] softened_by((score - 10) as nat, (aces - 1) as nat, j);
        assert(softened_by(score, aces, j + 1));
    } else {
        assert(softened_by(score, aces, 0));
    }
}

/// The total of a hand when `j` of its aces count 1 and the others 11.
pub open spec fn total_with_hard_aces(cards: Seq<Card>, j: nat) -> int {
    raw_total(cards) - 10 * j
}

/// The value of a hand is the best total it can make: every way of counting
/// its aces as 1 or 11 gives a total, and the value is the largest such total
/// that does not exceed 21; when every total exceeds 21, the value is the
/// smallest one (all aces counted as 1).
pub proof fn lemma_hand_value_is_best_total(cards: Seq<Card>)
    ensures
        exists|j: nat|
            j <= ace_count(cards) && hand_value(cards) == #[trigger] total_with_hard_aces(cards, j),
        forall|j: nat|
            j <= ace_count(cards) && #[trigger] total_with_hard_aces(cards, j) <= 21
                ==> total_with_hard_aces(cards, j) <= hand_value(cards),
        hand_value(cards) <= 21 || hand_value(cards) == total_with_hard_aces(
            cards,
            ace_count(cards),
        ),
{
    let s = raw_total(cards);
    let a = ace_count(cards);
    lemma_aces_in_total(cards);
    lemma_soften_shape(s, a);
    let j0 = choose|j: nat| #[trigger] softened_by(s, a, j);
    assert(hand_value(cards) == total_with_hard_aces(cards, j0));
    assert forall|j: nat| j <= a && #[trigger] total_with_hard_aces(cards, j) <= 21 implies
        total_with_hard_aces(cards, j) <= hand_value(cards) by {
        if j < j0 {
            assert(s - 10 * (j0 - 1) > 21);
            assert(s - 10 * j >= s - 10 * (j0 - 1));
        }
    }
}

/// Every card is worth at least one point, however the aces are counted.
pub proof fn lemma_hand_value_at_least_len(cards: Seq<Card>)
    ensures
        hand_value(cards) >= cards.len(),
{
    lemma_hard_total_at_least_len(cards);
    lemma_aces_in_total(cards);
    lemma_soften_shape(raw_total(cards), ace_count(cards));
    let j = choose|j: nat| #[trigger] softened_by(raw_total(cards), ace_count(cards), j);
    assert(raw_total(cards) - 10 * j >= raw_total(cards) - 10 * ace_count(cards));
}

proof fn lemma_hard_total_at_least_len(cards: Seq<Card>)
    ensures
        raw_total(cards) >= cards.len() + 10 * ace_count(cards),
    decreases cards.len(),
{
    if cards.len() > 0 {
        lemma_hard_total_at_least_len(cards.drop_last());
    }
}

/// The blackjack value of a hand: aces count 11 unless that takes the total
/// above 21, in which case they count 1, one at a time.
pub fn calculate_hand_value(hand: &[Card]) -> (v: u8)
    requires
        raw_total(hand@) <= 255,
    ensures
        v as nat == hand_value(hand@),
{
    let mut score: u8 = 0;
    let mut aces: u8 = 0;
    let mut i: usize = 0;
    while i < hand.len()
        invariant
            i <= hand@.len(),
            raw_total(hand@) <= 255,
            score as nat == raw_total(hand@.take(i as int)),
            aces as nat == ace_count(hand@.take(i as int)),
        decreases hand@.len() - i,
    {
        let card = hand[i];
        let value = card.value();
        proof {
            assert(hand@.take(i + 1) =~= hand@.take(i as int).push(card));
            lemma_raw_total_push(hand@.take(i as int), card);
            lemma_raw_total_prefix(hand@, i + 1);
            lemma_aces_in_total(hand@.take(i + 1));
        }
        score = score + value;
        if card.rank == Rank::Ace {
            aces = aces + 1;
        }
        i = i + 1;
    }
    proof {
        assert(hand@.take(hand@.len() as int) =~= hand@);
    }
    while score > 21 && aces > 0
        invariant
            soften(score as nat, aces as nat) == hand_value(hand@),
        decreases aces,
    {
        score = score - 10;
        aces = aces - 1;
    }
    score
}

/// The value of a hand of any size, for use inside the game where hands are
/// evaluated without a bound on their length.
pub(crate) fn hand_value_of(hand: &Vec<Card>) -> (v: u128)
    ensures
        v as nat == hand_value(hand@),
{
    let mut score: u128 = 0;
    let mut aces: u128 = 0;
    let mut i: usize = 0;
    while i < hand.len()
        invariant
            i <= hand@.len(),
            score as nat == raw_total(hand@.take(i as int)),
            aces as nat == ace_count(hand@.take(i as int)),
            score <= 11 * i,
            aces <= i,
        decreases hand@.len() - i,
    {
        let card = hand[i];
        let value = card.value();
        proof {
            assert(hand@.take(i + 1) =~= hand@.take(i as int).push(card));
            lemma_raw_total_push(hand@.take(i as int), card);
        }
        score = score + value as u128;
        if card.rank == Rank::Ace {
            aces = aces + 1;
        }
        i = i + 1;
    }
    proof {
        assert(hand@.take(hand@.len() as int) =~= hand@);
    }
    while score > 21 && aces > 0
        invariant
            soften(score as nat, aces as nat) == hand_value(hand@),
        decreases aces,
    {
        score = score - 10;
        aces = aces - 1;
    }
    score
}

/// A standard deck holds every card exactly once.
pub proof fn lemma_standard_deck_complete()
    ensures
        standard_deck().len() == 52,
        standard_deck().no_duplicates(),
        forall|c: Card| standard_deck().contains(c),
{
    let d = standard_deck();
    assert forall|c: Card| d.contains(c) by {
        let k = 13 * suit_index(c.suit) + rank_index(c.rank);
        assert(k / 13 == suit_index(c.suit) && k % 13 == rank_index(c.rank)) by (nonlinear_arith)
            requires
                k == 13 * suit_index(c.suit) + rank_index(c.rank),
                0 <= rank_index(c.rank) < 13,
        ;
        assert(d[k] == c);
    }
    assert forall|i: int, j: int| 0 <= i < d.len() && 0 <= j < d.len() && i != j implies d[i]
        != d[j] by {
        assert(i == 13 * (i / 13) + i % 13 && j == 13 * (j / 13) + j % 13) by (nonlinear_arith);
        if d[i] == d[j] {
            assert(suit_index(suit_at(i / 13)) == i / 13);
            assert(suit_index(suit_at(j / 13)) == j / 13);
            assert(rank_index(rank_at(i % 13)) == i % 13);
            assert(rank_index(rank_at(j % 13)) == j % 13);
        }
    }
}

/// Taking the card at `i` out of a hand takes its points off the raw total
/// and, for an ace, one ace off the count.
proof fn lemma_totals_remove(cards: Seq<Card>, i: int)
    requires
        0 <= i < cards.len(),
    ensures
        raw_total(cards) == raw_total(cards.remove(i)) + rank_points(cards[i].rank),
        ace_count(cards) == ace_count(cards.remove(i)) + (if cards[i].rank == Rank::Ace {
            1nat
        } else {
            0nat
        }),
    decreases cards.len(),
{
    if i == cards.len() - 1 {
        assert(cards.remove(i) =~= cards.drop_last());
    } else {
        lemma_totals_remove(cards.drop_last(), i);
        assert(cards.remove(i).drop_last() =~= cards.drop_last().remove(i));
        assert(cards.remove(i).last() == cards.last());
    }
}

/// A hand's value does not depend on the order of its cards: two hands that
/// hold the same cards, each as often, have the same raw total, the same
/// number of aces, and so the same value.
pub proof fn lemma_hand_value_ignores_order(h1: Seq<Card>, h2: Seq<Card>)
    requires
        h1.to_multiset() == h2.to_multiset(),
    ensures
        raw_total(h1) == raw_total(h2),
        ace_count(h1) == ace_count(h2),
        hand_value(h1) == hand_value(h2),
    decreases h1.len(),
{
    broadcast use vstd::seq_lib::group_to_multiset_ensures;

    if h1.len() == 0 {
        assert(h2.to_multiset().len() == 0);
        assert(h2.len() == 0);
    } else {
        let c = h1.last();
        let rest = h1.drop_last();
        assert(h1 =~= rest.push(c));
        assert(h1.to_multiset() =~= rest.to_multiset().insert(c));
        assert(h2.to_multiset().count(c) > 0);
        assert(h2.contains(c));
        let j = choose|j: int| 0 <= j < h2.len() && h2[j] == c;
        lemma_totals_remove(h2, j);
        assert(h2.remove(j).to_multiset() =~= h2.to_multiset().remove(c));
        assert(rest.to_multiset() =~= h1.to_multiset().remove(c));
        lemma_hand_value_ignores_order(rest, h2.remove(j));
    }
}

} // verus!
