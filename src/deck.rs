use vstd::prelude::*;
use vstd::multiset::Multiset;
use crate::role::{Class, is_complete_set};
use rand::seq::SliceRandom;
use rand::SeedableRng;
use rand::rngs::StdRng;

verus! {

broadcast use vstd::seq_lib::group_to_multiset_ensures;

/// Relies on rand's `SliceRandom::shuffle` (with `thread_rng`): it only swaps
/// elements of the slice, so the result is a permutation of its input.
#[verifier::external_body]
fn shuffle_cards(cards: &mut Vec<Class>)
    ensures
        final(cards)@.to_multiset() == old(cards)@.to_multiset(),
        final(cards)@.len() == old(cards)@.len(),
{
    cards.shuffle(&mut rand::thread_rng());
}

#[verifier::external_type_specification]
#[verifier::external_body]
pub struct ExStdRng(rand::rngs::StdRng);

/// Relies on rand's `StdRng::seed_from_u64`: a generator fixed by the seed.
#[verifier::external_body]
fn seeded_rng(seed: u64) -> (r: StdRng) {
    StdRng::seed_from_u64(seed)
}

/// Relies on rand's `SliceRandom::shuffle` with the given generator: it only
/// swaps elements of the slice, so the result is a permutation of its input.
#[verifier::external_body]
fn shuffle_cards_with(cards: &mut Vec<Class>, rng: &mut StdRng)
    ensures
        final(cards)@.to_multiset() == old(cards)@.to_multiset(),
        final(cards)@.len() == old(cards)@.len(),
{
    cards.shuffle(rng);
}

/// The draw pile: a pool of role cards, drawn from the top. With a seeded
/// generator every reshuffle is reproducible; without one, each uses the
/// thread's random source.
pub struct Deck {
    pub cards: Vec<Class>,
    pub rng: Option<StdRng>,
}

impl View for Deck {
    type V = Seq<Class>;

    open spec fn view(&self) -> Seq<Class> {
        self.cards@
    }
}

impl Deck {
    /// A complete deck (three copies of each role) in a fixed order.
    pub fn ordered() -> (r: Deck)
        ensures
            is_complete_set(r@.to_multiset()),
            r@.len() == 15,
    {
        let mut cards: Vec<Class> = Vec::new();
        let ghost s0 = cards@;
        cards.push(Class::Ambassador);
        cards.push(Class::Ambassador);
        cards.push(Class::Ambassador);
        let ghost s1 = cards@;
        cards.push(Class::Assassin);
        cards.push(Class::Assassin);
        cards.push(Class::Assassin);
        let ghost s2 = cards@;
        cards.push(Class::Captain);
        cards.push(Class::Captain);
        cards.push(Class::Captain);
        let ghost s3 = cards@;
        cards.push(Class::Contessa);
        cards.push(Class::Contessa);
        cards.push(Class::Contessa);
        let ghost s4 = cards@;
        cards.push(Class::Duke);
        cards.push(Class::Duke);
        cards.push(Class::Duke);
        proof {
            assert(s0.to_multiset() =~= Multiset::empty());
            assert(s1.to_multiset() =~= Multiset::empty().insert(Class::Ambassador).insert(Class::Ambassador).insert(Class::Ambassador));
            assert(s2.to_multiset() =~= s1.to_multiset().insert(Class::Assassin).insert(Class::Assassin).insert(Class::Assassin));
            assert(s3.to_multiset() =~= s2.to_multiset().insert(Class::Captain).insert(Class::Captain).insert(Class::Captain));
            assert(s4.to_multiset() =~= s3.to_multiset().insert(Class::Contessa).insert(Class::Contessa).insert(Class::Contessa));
            assert(cards@.to_multiset() =~= s4.to_multiset().insert(Class::Duke).insert(Class::Duke).insert(Class::Duke));
        }
        Deck { cards, rng: None }
    }

    /// A deck holding `cards` (the last is the top), reshuffled at random.
    pub fn from_cards(cards: Vec<Class>) -> (r: Deck)
        ensures
            r@ == cards@,
    {
        Deck { cards, rng: None }
    }

    /// A deck holding `cards` whose reshuffles follow the generator seeded
    /// with `seed`.
    pub fn from_cards_seeded(cards: Vec<Class>, seed: u64) -> (r: Deck)
        ensures
            r@ == cards@,
    {
        Deck { cards, rng: Some(seeded_rng(seed)) }
    }

    /// A complete deck in random order.
    pub fn new() -> (r: Deck)
        ensures
            is_complete_set(r@.to_multiset()),
            r@.len() == 15,
    {
        let mut d = Deck::ordered();
        d.shuffle();
        d
    }

    pub fn len(&self) -> (r: usize)
        ensures
            r == self@.len(),
    {
        self.cards.len()
    }

    /// Removes and returns the top card; `None` when the deck is empty.
    pub fn draw_card(&mut self) -> (r: Option<Class>)
        ensures
            old(self)@.len() == 0 ==> r.is_none() && final(self)@ == old(self)@,
            old(self)@.len() > 0 ==> r == Some(old(self)@.last())
                && final(self)@ == old(self)@.drop_last(),
    {
        self.cards.pop()
    }

    /// Puts a card back and reshuffles, so that it cannot be predictably redrawn.
    pub fn return_card(&mut self, card: Class)
        ensures
            final(self)@.to_multiset() == old(self)@.to_multiset().insert(card),
            final(self)@.len() == old(self)@.len() + 1,
    {
        self.cards.push(card);
        self.shuffle();
    }

    /// Randomises the order of the cards.
    pub fn shuffle(&mut self)
        ensures
            final(self)@.to_multiset() == old(self)@.to_multiset(),
            final(self)@.len() == old(self)@.len(),
    {
        let rng = self.rng.take();
        match rng {
            Some(mut g) => {
                shuffle_cards_with(&mut self.cards, &mut g);
                self.rng = Some(g);
            },
            None => shuffle_cards(&mut self.cards),
        }
    }
    /// Puts every card of `cards` back, reshuffling after each.
    pub fn return_all(&mut self, cards: &Vec<Class>)
        ensures
            final(self)@.to_multiset() == old(self)@.to_multiset().add(cards@.to_multiset()),
            final(self)@.len() == old(self)@.len() + cards@.len(),
    {
        let mut i: usize = 0;
        while i < cards.len()
            invariant
                i <= cards@.len(),
                self@.to_multiset() == old(self)@.to_multiset().add(cards@.subrange(0, i as int).to_multiset()),
                self@.len() == old(self)@.len() + i,
            decreases cards@.len() - i,
        {
            self.return_card(cards[i]);
            assert(cards@.subrange(0, i + 1) == cards@.subrange(0, i as int).push(cards@[i as int]));
            assert(self@.to_multiset() =~= old(self)@.to_multiset().add(cards@.subrange(0, i + 1).to_multiset()));
            i = i + 1;
        }
        assert(cards@.subrange(0, i as int) == cards@);
    }
}

} // verus!
