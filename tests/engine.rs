use coup_engine::engine::{Action, ChallengeOutcome, Engine, EngineError, GameView, PlayerController};
use coup_engine::role::Class;
use coup_engine::run_game;

#[derive(Clone)]
enum Plan {
    Income,
    When { gold: u32, action: Action },
}

#[derive(Clone)]
struct Bot {
    plan: Plan,
    challenge: bool,
    block: Option<Class>,
    keep: Option<Vec<Class>>,
}

impl Bot {
    fn income() -> Bot {
        Bot { plan: Plan::Income, challenge: false, block: None, keep: None }
    }

    fn with_plan(gold: u32, action: Action) -> Bot {
        Bot { plan: Plan::When { gold, action }, challenge: false, block: None, keep: None }
    }
}

impl PlayerController for Bot {
    fn init(&self, _seat: usize, _view: &GameView) {}

    fn get_next_action(&self, view: &GameView, _hand: &Vec<Class>) -> Action {
        match &self.plan {
            Plan::Income => Action::Income,
            Plan::When { gold, action } => {
                if view.golds[view.current_player] >= *gold {
                    *action
                } else {
                    Action::Income
                }
            }
        }
    }

    fn decide_challenge(&self, _view: &GameView, _claimant: usize, _role: Class) -> bool {
        self.challenge
    }

    fn decide_block(&self, _view: &GameView, _actor: usize, _action: Action) -> Option<Class> {
        self.block
    }

    fn select_cards_to_keep(&self, candidates: &Vec<Class>, keep_count: usize) -> Vec<Class> {
        match &self.keep {
            Some(k) => k.clone(),
            None => candidates[..keep_count].to_vec(),
        }
    }

    fn choose_card_to_lose(&self, hand: &Vec<Class>) -> Class {
        hand[0]
    }
}

fn create_players(num_players: i32) -> Vec<Bot> {
    let mut players: Vec<Bot> = Vec::new();
    for _ in 0..num_players {
        players.push(Bot::income());
    }
    players
}

fn full_deck() -> Vec<Class> {
    let mut v = Vec::new();
    for c in [Class::Ambassador, Class::Assassin, Class::Captain, Class::Contessa, Class::Duke] {
        for _ in 0..3 {
            v.push(c);
        }
    }
    v
}

fn take(pool: &mut Vec<Class>, c: Class) {
    let i = pool.iter().position(|x| *x == c).expect("card available");
    pool.remove(i);
}

/// A full deck order: `bottom` stays at the bottom, `first_dealt` is dealt
/// first (two per seat, first seat first), the other cards in between.
fn deck_order(bottom: &[Class], first_dealt: &[Class]) -> Vec<Class> {
    let mut middle = full_deck();
    for c in bottom.iter().chain(first_dealt.iter()) {
        take(&mut middle, *c);
    }
    let mut order: Vec<Class> = bottom.to_vec();
    order.extend(middle);
    order.extend(first_dealt.iter().rev());
    order
}

fn count(cards: &[Class], c: Class) -> usize {
    cards.iter().filter(|x| **x == c).count()
}

#[test]
fn initializes_correctly() {
    let engine = Engine::new(create_players(5)).unwrap();
    assert_eq!(engine.player_count(), 5);
    assert_eq!(engine.eliminated_count(), 0);
    assert_eq!(engine.gold_pool(), 40);
    assert_eq!(engine.turn_count(), 0);
    assert_eq!(engine.deck_size(), 5); // 15 cards total, minus 2 cards to each player
}

#[test]
fn too_few_players_is_rejected() {
    assert!(matches!(Engine::new(create_players(1)), Err(EngineError::InvalidPlayerCount)));
}

#[test]
fn too_many_players_is_rejected() {
    assert!(matches!(Engine::new(create_players(7)), Err(EngineError::InvalidPlayerCount)));
}

#[test]
fn incomplete_deck_is_rejected() {
    let mut order = full_deck();
    order[0] = Class::Duke;
    assert!(matches!(
        Engine::with_deck_order(create_players(2), order),
        Err(EngineError::InvalidDeck)
    ));
    let short = full_deck()[1..].to_vec();
    assert!(matches!(
        Engine::with_deck_order(create_players(3), short),
        Err(EngineError::InvalidDeck)
    ));
}

#[test]
fn deals_from_the_top() {
    let order = deck_order(&[], &[Class::Assassin, Class::Captain, Class::Duke, Class::Contessa]);
    let e = Engine::with_deck_order(create_players(2), order.clone()).unwrap();
    assert_eq!(e.hand(0), vec![Class::Assassin, Class::Captain]);
    assert_eq!(e.hand(1), vec![Class::Duke, Class::Contessa]);
    assert_eq!(e.deck_cards(), order[..11].to_vec());
    assert_eq!(e.gold(0), 2);
    assert_eq!(e.gold_pool(), 46);
    assert_eq!(e.current_player(), 0);
}

#[test]
fn scenario_coup() {
    let players = vec![Bot::with_plan(7, Action::Coup { target: 1 }), Bot::income()];
    let mut e = Engine::new(players).unwrap();
    for _ in 0..10 {
        assert_eq!(e.do_turn().map(|r| r.action), Some(Action::Income));
    }
    assert_eq!(e.gold(0), 7);
    assert_eq!(e.card_count(1), 2);
    assert_eq!(e.do_turn().map(|r| r.action), Some(Action::Coup { target: 1 }));
    assert_eq!(e.gold(0), 0);
    assert_eq!(e.card_count(1), 1);
    assert_eq!(e.card_count(0), 2);
    assert_eq!(e.discard_size(), 1);
}

#[test]
fn scenario_failed_bluff() {
    let order = deck_order(&[], &[Class::Assassin, Class::Captain, Class::Duke, Class::Contessa]);
    let mut challenger = Bot::income();
    challenger.challenge = true;
    let players = vec![Bot::with_plan(0, Action::Duke), challenger];
    let mut e = Engine::with_deck_order(players, order).unwrap();
    let report = e.do_turn().unwrap();
    assert_eq!(report.action, Action::Duke);
    assert_eq!(report.challenge, ChallengeOutcome::ChallengeSucceeded);
    assert_eq!(report.challenger, Some(1));
    assert!(!report.resolved);
    assert_eq!(e.gold_pool(), 46);
    assert_eq!(e.card_count(0), 1);
    assert_eq!(e.gold(0), 2);
    assert_eq!(e.card_count(1), 2);
    assert_eq!(e.current_player(), 1);
}

#[test]
fn scenario_blocked_assassination() {
    let order = deck_order(&[], &[Class::Assassin, Class::Captain, Class::Contessa, Class::Duke]);
    let mut target = Bot::income();
    target.block = Some(Class::Contessa);
    let players = vec![Bot::with_plan(3, Action::Assassinate { target: 1 }), target];
    let mut e = Engine::with_deck_order(players, order).unwrap();
    e.do_turn();
    e.do_turn();
    assert_eq!(e.gold(0), 3);
    let report = e.do_turn().unwrap();
    assert_eq!(report.action, Action::Assassinate { target: 1 });
    assert_eq!(report.blocker, Some((1, Class::Contessa)));
    assert_eq!(report.block_challenge, ChallengeOutcome::NotChallenged);
    assert!(!report.resolved);
    assert_eq!(e.gold(0), 0);
    assert_eq!(e.card_count(1), 2);
    assert_eq!(e.card_count(0), 2);
    assert_eq!(e.gold_pool(), 50 - 0 - e.gold(1));
}

#[test]
fn scenario_exchange() {
    let order = deck_order(
        &[Class::Ambassador, Class::Duke, Class::Duke],
        &[Class::Assassin, Class::Captain],
    );
    let mut actor = Bot::with_plan(0, Action::Ambassador);
    actor.keep = Some(vec![Class::Duke, Class::Duke]);
    let mut players = vec![actor];
    for _ in 0..5 {
        players.push(Bot::income());
    }
    let mut e = Engine::with_deck_order(players, order).unwrap();
    assert_eq!(e.deck_size(), 3);
    assert_eq!(e.do_turn().map(|r| r.action), Some(Action::Ambassador));
    assert_eq!(e.hand(0), vec![Class::Duke, Class::Duke]);
    let deck = e.deck_cards();
    assert_eq!(deck.len(), 3);
    assert_eq!(count(&deck, Class::Assassin), 1);
    assert_eq!(count(&deck, Class::Captain), 1);
    assert_eq!(count(&deck, Class::Ambassador), 1);
}

#[test]
fn exchange_with_invalid_selection_changes_nothing() {
    let order = deck_order(
        &[Class::Ambassador, Class::Duke, Class::Duke],
        &[Class::Assassin, Class::Captain],
    );
    let mut actor = Bot::with_plan(0, Action::Ambassador);
    actor.keep = Some(vec![Class::Duke, Class::Contessa]);
    let mut players = vec![actor];
    for _ in 0..5 {
        players.push(Bot::income());
    }
    let mut e = Engine::with_deck_order(players, order).unwrap();
    let before = e.deck_cards();
    e.do_turn();
    assert_eq!(e.hand(0), vec![Class::Assassin, Class::Captain]);
    assert_eq!(e.deck_cards(), before);
}

#[test]
fn exchange_with_wrong_count_changes_nothing() {
    let order = deck_order(
        &[Class::Ambassador, Class::Duke, Class::Duke],
        &[Class::Assassin, Class::Captain],
    );
    let mut actor = Bot::with_plan(0, Action::Ambassador);
    actor.keep = Some(vec![Class::Duke]);
    let mut players = vec![actor];
    for _ in 0..5 {
        players.push(Bot::income());
    }
    let mut e = Engine::with_deck_order(players, order).unwrap();
    let before = e.deck_cards();
    e.do_turn();
    assert_eq!(e.hand(0), vec![Class::Assassin, Class::Captain]);
    assert_eq!(e.deck_cards(), before);
}

#[test]
fn true_claim_survives_challenge() {
    let order = deck_order(&[], &[Class::Duke, Class::Captain, Class::Assassin, Class::Contessa]);
    let mut challenger = Bot::income();
    challenger.challenge = true;
    let players = vec![Bot::with_plan(0, Action::Duke), challenger];
    let mut e = Engine::with_deck_order(players, order).unwrap();
    e.do_turn();
    assert_eq!(e.card_count(0), 2);
    assert_eq!(e.card_count(1), 1);
    assert_eq!(e.gold(0), 5);
    assert_eq!(e.deck_size(), 11);
    assert_eq!(e.discard_size(), 1);
}

#[test]
fn challenge_outcomes_directly() {
    let order = deck_order(
        &[],
        &[Class::Duke, Class::Captain, Class::Ambassador, Class::Ambassador, Class::Ambassador, Class::Contessa],
    );
    let mut e = Engine::with_deck_order(create_players(3), order).unwrap();
    assert_eq!(e.challenge(0, 1, Class::Duke), ChallengeOutcome::ChallengeFailed);
    assert_eq!(e.card_count(0), 2);
    assert_eq!(e.card_count(1), 1);
    assert_eq!(e.challenge(0, 2, Class::Ambassador), ChallengeOutcome::ChallengeSucceeded);
    assert_eq!(e.card_count(0), 1);
    assert_eq!(e.card_count(2), 2);
}

#[test]
fn forced_coup_at_ten_gold() {
    let mut e = Engine::new(create_players(2)).unwrap();
    for _ in 0..16 {
        assert_eq!(e.do_turn().map(|r| r.action), Some(Action::Income));
    }
    assert_eq!(e.gold(0), 10);
    assert_eq!(e.do_turn().map(|r| r.action), Some(Action::Coup { target: 1 }));
    assert_eq!(e.gold(0), 3);
    assert_eq!(e.card_count(1), 1);
}

#[test]
fn captain_steals_two() {
    let players = vec![Bot::with_plan(0, Action::Captain { target: 1 }), Bot::income()];
    let mut e = Engine::new(players).unwrap();
    e.do_turn();
    assert_eq!(e.gold(0), 4);
    assert_eq!(e.gold(1), 0);
    e.do_turn();
    e.do_turn();
    assert_eq!(e.gold(0), 5);
    assert_eq!(e.gold(1), 0);
}

#[test]
fn foreign_aid_blocked_by_duke() {
    let mut blocker = Bot::income();
    blocker.block = Some(Class::Duke);
    let players = vec![Bot::with_plan(0, Action::ForeignAid), blocker];
    let mut e = Engine::new(players).unwrap();
    e.do_turn();
    assert_eq!(e.gold(0), 2);
}

#[test]
fn bluffed_block_called_out() {
    let order = deck_order(&[], &[Class::Duke, Class::Captain, Class::Assassin, Class::Contessa]);
    let mut actor = Bot::with_plan(0, Action::ForeignAid);
    actor.challenge = true;
    let mut blocker = Bot::income();
    blocker.block = Some(Class::Duke);
    let mut e = Engine::with_deck_order(vec![actor, blocker], order).unwrap();
    e.do_turn();
    assert_eq!(e.card_count(1), 1);
    assert_eq!(e.gold(0), 4);
}

#[test]
fn wrong_blocking_role_is_ignored() {
    let mut blocker = Bot::income();
    blocker.block = Some(Class::Contessa);
    let players = vec![Bot::with_plan(0, Action::ForeignAid), blocker];
    let mut e = Engine::new(players).unwrap();
    e.do_turn();
    assert_eq!(e.gold(0), 4);
}

#[test]
fn illegal_declaration_defaults_to_income() {
    let players = vec![Bot::with_plan(0, Action::Coup { target: 1 }), Bot::income()];
    let mut e = Engine::new(players).unwrap();
    assert_eq!(e.do_turn().map(|r| r.action), Some(Action::Income));
    assert_eq!(e.gold(0), 3);
    assert!(!e.is_legal(0, Action::Assassinate { target: 0 }));
    assert!(e.is_legal(0, Action::Assassinate { target: 1 }));
}

#[test]
fn game_ends_with_one_player() {
    let mut e = Engine::new(create_players(2)).unwrap();
    let mut turns = 0;
    while !e.is_over() && turns < 200 {
        e.do_turn();
        turns += 1;
    }
    assert!(e.is_over());
    assert_eq!(e.eliminated_count(), 1);
    assert_eq!(e.winner(), Some(0));
    assert!(e.do_turn().is_none());
    let mut total = e.gold_pool();
    for s in 0..2 {
        total += e.gold(s);
    }
    assert_eq!(total, 50);
}

#[test]
fn run_game_reports_winner() {
    assert_eq!(run_game(create_players(2), 200), Ok(Some(0)));
    assert_eq!(run_game(create_players(3), 0), Ok(None));
    let mut e = Engine::new(create_players(2)).unwrap();
    assert_eq!(e.play(0), None);
    assert_eq!(e.turn_count(), 0);
    assert_eq!(e.play(500), Some(0));
    assert!(!e.is_active(1));
    assert_eq!(run_game(create_players(8), 10), Err(EngineError::InvalidPlayerCount));
}

#[test]
fn turn_skips_eliminated_seats() {
    let players = vec![
        Bot::with_plan(7, Action::Coup { target: 1 }),
        Bot::income(),
        Bot::with_plan(7, Action::Coup { target: 1 }),
    ];
    let mut e = Engine::new(players).unwrap();
    while e.card_count(1) > 0 {
        e.do_turn();
    }
    assert!(!e.is_active(1));
    assert_eq!(e.current_player(), 0);
    e.do_turn();
    assert_eq!(e.current_player(), 2);
}

#[test]
fn steal_blocked_by_another_seat() {
    let mut bystander = Bot::income();
    bystander.block = Some(Class::Captain);
    let players = vec![Bot::with_plan(0, Action::Captain { target: 1 }), Bot::income(), bystander];
    let mut e = Engine::new(players).unwrap();
    e.do_turn();
    assert_eq!(e.gold(0), 2);
    assert_eq!(e.gold(1), 2);
}

#[test]
fn seeded_game_replays_exactly() {
    let order = deck_order(&[], &[Class::Duke, Class::Captain, Class::Assassin, Class::Contessa]);
    let make = || {
        let mut challenger = Bot::income();
        challenger.challenge = true;
        let players = vec![Bot::with_plan(0, Action::Duke), challenger];
        Engine::with_deck_order_seeded(players, order.clone(), 42).unwrap()
    };
    let mut e1 = make();
    let mut e2 = make();
    e1.do_turn();
    e2.do_turn();
    assert_eq!(e1.deck_cards(), e2.deck_cards());
    assert_eq!(e1.hand(0), e2.hand(0));
    assert_eq!(e1.card_count(1), 1);
    assert!(matches!(
        Engine::with_deck_order_seeded(create_players(9), order, 1),
        Err(EngineError::InvalidPlayerCount)
    ));
}
