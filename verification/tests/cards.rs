use blackjack_backend::cards::{calculate_hand_value, Card, Rank, Suit};

fn card(rank: Rank) -> Card {
    Card { suit: Suit::Spades, rank }
}

fn hand(ranks: &[Rank]) -> Vec<Card> {
    ranks.iter().map(|r| card(*r)).collect()
}

#[test]
fn every_rank_has_its_points() {
    let expected = [
        (Rank::Two, 2),
        (Rank::Three, 3),
        (Rank::Four, 4),
        (Rank::Five, 5),
        (Rank::Six, 6),
        (Rank::Seven, 7),
        (Rank::Eight, 8),
        (Rank::Nine, 9),
        (Rank::Ten, 10),
        (Rank::Jack, 10),
        (Rank::Queen, 10),
        (Rank::King, 10),
        (Rank::Ace, 11),
    ];
    for (rank, points) in expected {
        assert_eq!(card(rank).value(), points);
    }
}

#[test]
fn new_deck_holds_every_card_once() {
    let deck = Card::new_deck();
    assert_eq!(deck.len(), 52);
    for (i, a) in deck.iter().enumerate() {
        for b in deck.iter().skip(i + 1) {
            assert_ne!(a, b);
        }
    }
    assert_eq!(deck[0], Card { suit: Suit::Hearts, rank: Rank::Two });
    assert_eq!(deck[12], Card { suit: Suit::Hearts, rank: Rank::Ace });
    assert_eq!(deck[13], Card { suit: Suit::Diamonds, rank: Rank::Two });
    assert_eq!(deck[51], Card { suit: Suit::Spades, rank: Rank::Ace });
}

#[test]
fn ace_counts_eleven_when_it_fits() {
    assert_eq!(calculate_hand_value(&[card(Rank::Ace), card(Rank::King)]), 21);
    assert_eq!(calculate_hand_value(&hand(&[Rank::Ace, Rank::Six])), 17);
}

#[test]
fn ace_counts_one_when_eleven_would_bust() {
    assert_eq!(calculate_hand_value(&hand(&[Rank::Ace, Rank::Six, Rank::Nine])), 16);
    assert_eq!(calculate_hand_value(&hand(&[Rank::Ace, Rank::Ace])), 12);
    assert_eq!(calculate_hand_value(&hand(&[Rank::Ace, Rank::Ace, Rank::Ace, Rank::Ace])), 14);
    assert_eq!(
        calculate_hand_value(&hand(&[Rank::Ace, Rank::Ace, Rank::Nine, Rank::King])),
        21
    );
}

#[test]
fn busted_hand_keeps_its_total() {
    assert_eq!(calculate_hand_value(&hand(&[Rank::King, Rank::Queen, Rank::Five])), 25);
    assert_eq!(calculate_hand_value(&hand(&[Rank::Ace, Rank::King, Rank::Queen, Rank::Two])), 23);
}

#[test]
fn empty_hand_is_worth_nothing() {
    assert_eq!(calculate_hand_value(&[]), 0);
}

#[test]
fn card_order_does_not_change_a_hand_value() {
    let a = hand(&[Rank::Ace, Rank::Nine, Rank::Ace, Rank::King]);
    let b = hand(&[Rank::King, Rank::Ace, Rank::Ace, Rank::Nine]);
    assert_eq!(calculate_hand_value(&a), calculate_hand_value(&b));
    assert_eq!(calculate_hand_value(&a), 21);
}
