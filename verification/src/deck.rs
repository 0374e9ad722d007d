//! The shoe a room deals from: `deck_count` standard decks, shuffled, dealt
//! from the end and rebuilt and reshuffled whenever it runs out.
use vstd::prelude::*;
use crate::cards::{Card, standard_deck};

verus! {

/// `k` standard decks, one after the other.
pub open spec fn full_deck(k: nat) -> Seq<Card>
    decreases k,
{
    if k == 0 {
        Seq::empty()
    } else {
        full_deck((k - 1) as nat) + standard_deck()
    }
}

/// `draws` are the results of successive draws from a shoe of `k` decks that
/// held `before` and holds `after` once they are done. A draw takes the last
/// card of the shoe; from an empty shoe it first rebuilds the `k` decks and
/// shuffles them (any order may come out), and with `k == 0` it yields
/// nothing. The relation is read backwards from `after`: before a draw that
/// gave `c`, the shoe was `after.push(c)`, or it was empty and `after.push(c)`
/// is a shuffled rebuild.
pub open spec fn draws_rel(k: nat, before: Seq<Card>, draws: Seq<Option<Card>>, after: Seq<Card>) -> bool
    decreases draws.len(),
{
    if draws.len() == 0 {
        after == before
    } else {
        let prev = draws.drop_last();
        match draws.last() {
            None => k == 0 && after.len() == 0 && draws_rel(k, before, prev, after),
            Some(c) => draws_rel(k, before, prev, after.push(c)) || (k > 0 && draws_rel(
                k,
                before,
                prev,
                Seq::empty(),
            ) && after.push(c).to_multiset() == full_deck(k).to_multiset()),
        }
    }
}

pub proof fn lemma_full_deck_len(k: nat)
    ensures
        full_deck(k).len() == 52 * k,
    decreases k,
{
    if k > 0 {
        lemma_full_deck_len((k - 1) as nat);
    }
}

/// Draws compose: drawing `xs` and then `ys` is drawing `xs + ys`.
pub proof fn lemma_draws_compose(
    k: nat,
    a: Seq<Card>,
    xs: Seq<Option<Card>>,
    b: Seq<Card>,
    ys: Seq<Option<Card>>,
    c: Seq<Card>,
)
    requires
        draws_rel(k, a, xs, b),
        draws_rel(k, b, ys, c),
    ensures
        draws_rel(k, a, xs + ys, c),
    decreases ys.len(),
{
    if ys.len() == 0 {
        assert(xs + ys =~= xs);
    } else {
        assert((xs + ys).drop_last() =~= xs + ys.drop_last());
        assert((xs + ys).last() == ys.last());
        match ys.last() {
            None => {
                lemma_draws_compose(k, a, xs, b, ys.drop_last(), c);
            },
            Some(card) => {
                if draws_rel(k, b, ys.drop_last(), c.push(card)) {
                    lemma_draws_compose(k, a, xs, b, ys.drop_last(), c.push(card));
                } else {
                    lemma_draws_compose(k, a, xs, b, ys.drop_last(), Seq::empty());
                }
            },
        }
    }
}

/// No draws leave the shoe as it was.
pub proof fn lemma_draws_none(k: nat, a: Seq<Card>)
    ensures
        draws_rel(k, a, Seq::empty(), a),
{
}

} // verus!
