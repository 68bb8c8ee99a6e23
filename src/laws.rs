use vstd::prelude::*;
use crate::role::Class;
use crate::engine::{Engine, active_count, gold_of, lemma_step, TOTAL_GOLD};

verus! {

/// In every state the engine can reach (its constructors establish the
/// invariant and every operation keeps it), each role has exactly three
/// copies across the deck, the revealed pile and the hands, and the pool
/// together with the players' gold makes the game's fifty.
pub proof fn conservation<C>(e: &Engine<C>)
    requires
        e.inv(),
    ensures
        forall|c: Class| #[trigger] e.all_cards().count(c) == 3,
        e.pool() + gold_of(e.players_view()) == TOTAL_GOLD,
{
}

/// The game is over exactly when one active seat is left: the count of
/// active seats never drops to zero.
pub proof fn over_exactly_at_one<C>(e: &Engine<C>)
    requires
        e.inv(),
    ensures
        e.game_over() <==> active_count(e.players_view()) == 1,
{
}

/// A seat that is eliminated at the start of a stretch of play is never asked
/// for a decision during it: every seat that the stretch adds to the record
/// of consulted seats was active at its start.
pub proof fn eliminated_never_consulted<C>(before: &Engine<C>, after: &Engine<C>, seat: usize)
    requires
        after.consults_active(before),
        seat < before.players_view().len(),
        !before.seat_active(seat as int),
    ensures
        forall|k: int| before.consulted_seats().len() <= k < after.consulted_seats().len()
            ==> #[trigger] after.consulted_seats()[k] != seat,
{
}

/// Two stretches of play that each keep eliminated seats out of play and
/// consult only seats active at their start (as every `do_turn` does) make
/// one stretch with the same two properties.
pub proof fn stretches_compose<C>(a: &Engine<C>, b: &Engine<C>, c: &Engine<C>)
    requires
        b.no_revival(a),
        c.no_revival(b),
        b.consults_active(a),
        c.consults_active(b),
        a.players_view().len() == b.players_view().len(),
    ensures
        c.no_revival(a),
        c.consults_active(a),
{
    lemma_step(a, b, c);
}

} // verus!
