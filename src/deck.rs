use vstd::prelude::*;
use crate::cards::all_cards;

verus! {

#[verifier::external_type_specification]
#[verifier::external_body]
pub struct ExDeck(aya_poker::deck::Deck);

/// The cards a deck was built from.
pub uninterp spec fn deck_pool(d: aya_poker::deck::Deck) -> Set<u8>;

/// The cards of the pool not dealt since the last reset.
pub uninterp spec fn deck_left(d: aya_poker::deck::Deck) -> Set<u8>;

/// Relies on `aya_poker::deck::Deck::with_seed`: the deck holds the given
/// cards (index `i` is `aya_poker::base::CARDS[i]`), none yet dealt, and
/// shuffles them with a generator seeded by `seed`. It panics on more than
/// 52 cards, which distinct indices below 52 rule out.
#[verifier::external_body]
pub(crate) fn deck_with_seed(cards: &Vec<u8>, seed: u64) -> (d: aya_poker::deck::Deck)
    requires
        cards@.no_duplicates(),
        all_cards(cards@),
    ensures
        deck_pool(d) == cards@.to_set(),
        deck_left(d) == cards@.to_set(),
{
    aya_poker::deck::Deck::with_seed(cards.iter().map(|c| &aya_poker::base::CARDS[*c as usize]), seed)
}

/// Relies on `aya_poker::deck::Deck::reset`: every card of the pool is
/// available again; the generator is not reseeded.
#[verifier::external_body]
pub(crate) fn deck_reset(d: &mut aya_poker::deck::Deck)
    ensures
        deck_pool(*final(d)) == deck_pool(*old(d)),
        deck_left(*final(d)) == deck_pool(*old(d)),
{
    d.reset()
}

/// Relies on `aya_poker::deck::Deck::deal`: it swaps a randomly chosen
/// undealt card into each of the next `n` places and hands those places
/// out, as `Card::idx`. It returns `Some` whenever `n` is at most 52, and
/// panics (on an empty range of the generator) when fewer than `n` cards
/// are left.
#[verifier::external_body]
pub(crate) fn deck_deal(d: &mut aya_poker::deck::Deck, n: usize) -> (r: Option<Vec<u8>>)
    requires
        deck_left(*old(d)).finite(),
        n <= deck_left(*old(d)).len(),
    ensures
        r.is_some(),
        r.unwrap()@.len() == n,
        r.unwrap()@.no_duplicates(),
        forall|i: int| 0 <= i < n ==> deck_left(*old(d)).contains(#[trigger] r.unwrap()@[i]),
        deck_left(*final(d)) == deck_left(*old(d)).difference(r.unwrap()@.to_set()),
        deck_pool(*final(d)) == deck_pool(*old(d)),
{
    d.deal(n).map(|cs| cs.iter().map(|c| c.idx() as u8).collect())
}

} // verus!
