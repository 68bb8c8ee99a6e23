use vstd::prelude::*;
use vstd::multiset::Multiset;

verus! {

/// The five roles of the game; three copies of each exist.
#[derive(Clone, Copy, Debug, PartialEq, Eq, Structural, Hash)]
pub enum Class {
    Ambassador,
    Assassin,
    Captain,
    Contessa,
    Duke,
}

/// Number of cards in a complete deck.
pub const DECK_SIZE: usize = 15;

/// A multiset of roles that holds exactly three copies of every role.
pub open spec fn is_complete_set(m: Multiset<Class>) -> bool {
    forall|c: Class| #[trigger] m.count(c) == 3
}

/// Whether `hand` holds at least one copy of `role`.
pub fn holds(hand: &Vec<Class>, role: Class) -> (r: bool)
    ensures
        r == hand@.contains(role),
{
    let mut i: usize = 0;
    while i < hand.len()
        invariant
            i <= hand@.len(),
            forall|j: int| 0 <= j < i ==> hand@[j] != role,
        decreases hand@.len() - i,
    {
        if hand[i] == role {
            return true;
        }
        i = i + 1;
    }
    false
}

} // verus!
