//! Rules engine for the card game Coup: deck, player state, action
//! resolution, challenges, blocks and turn order, with machine-checked
//! contracts on every state change.

pub mod role;
pub mod deck;
pub mod exchange;
pub mod engine;
pub mod laws;

use vstd::prelude::*;
use crate::engine::{Engine, EngineError, PlayerController, lemma_active_other, MIN_PLAYERS, MAX_PLAYERS};

verus! {

/// Plays a game with one seat per controller for at most `max_turns` turns.
/// Returns the winning seat, or `None` if the game had not ended by then.
pub fn run_game<C: PlayerController>(controllers: Vec<C>, max_turns: u32) -> (r: Result<Option<usize>, EngineError>)
    ensures
        !(MIN_PLAYERS <= controllers@.len() <= MAX_PLAYERS)
            ==> r == Err::<Option<usize>, EngineError>(EngineError::InvalidPlayerCount),
        MIN_PLAYERS <= controllers@.len() <= MAX_PLAYERS ==> r is Ok,
        MIN_PLAYERS <= controllers@.len() <= MAX_PLAYERS && max_turns == 0 ==> r == Ok::<Option<usize>, EngineError>(None),
        r matches Ok(Some(w)) ==> w < controllers@.len(),
{
    let mut e = match Engine::new(controllers) {
        Ok(e) => e,
        Err(err) => {
            return Err(err);
        },
    };
    proof {
        lemma_active_other(e.players_view(), 0);
        assert(e.players_view()[1].active());
    }
    Ok(e.play(max_turns))
}

} // verus!
