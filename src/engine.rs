use vstd::prelude::*;
use vstd::multiset::Multiset;
use crate::role::{Class, is_complete_set, holds, DECK_SIZE};
use crate::deck::Deck;
use crate::exchange::{is_valid_selection, remainder, same_cards};

verus! {

broadcast use vstd::seq_lib::group_to_multiset_ensures;

/// Gold in a game: the pool plus what the players hold.
pub const TOTAL_GOLD: u32 = 50;
/// Gold each player starts with.
pub const STARTING_GOLD: u32 = 2;
/// Gold at which a player must launch a coup.
pub const FORCED_COUP_GOLD: u32 = 10;
pub const COUP_COST: u32 = 7;
pub const ASSASSINATE_COST: u32 = 3;
pub const MIN_PLAYERS: usize = 2;
pub const MAX_PLAYERS: usize = 6;

/// An action a player declares on their turn; targets are seat indices.
#[derive(Clone, Copy, Debug, PartialEq, Eq, Structural)]
pub enum Action {
    Ambassador,
    Assassinate { target: usize },
    Captain { target: usize },
    Coup { target: usize },
    Duke,
    ForeignAid,
    Income,
}

/// How a challenge against a claimed role ended.
#[derive(Clone, Copy, Debug, PartialEq, Eq, Structural)]
pub enum ChallengeOutcome {
    NotChallenged,
    ChallengeFailed,
    ChallengeSucceeded,
}

/// Errors when a game is set up.
#[derive(Clone, Copy, Debug, PartialEq, Eq, Structural)]
pub enum EngineError {
    InvalidPlayerCount,
    InvalidDeck,
}

/// The role an action claims, if it can be challenged.
pub open spec fn claimed_role(a: Action) -> Option<Class> {
    match a {
        Action::Duke => Some(Class::Duke),
        Action::Assassinate { .. } => Some(Class::Assassin),
        Action::Captain { .. } => Some(Class::Captain),
        Action::Ambassador => Some(Class::Ambassador),
        _ => None,
    }
}

/// What the actor pays on declaring an action.
pub open spec fn cost(a: Action) -> u32 {
    match a {
        Action::Coup { .. } => COUP_COST,
        Action::Assassinate { .. } => ASSASSINATE_COST,
        _ => 0,
    }
}

/// Whether claiming `role` blocks action `a`.
pub open spec fn blocks(a: Action, role: Class) -> bool {
    match a {
        Action::ForeignAid => role == Class::Duke,
        Action::Assassinate { .. } => role == Class::Contessa,
        Action::Captain { .. } => role == Class::Ambassador || role == Class::Captain,
        _ => false,
    }
}

/// The seat an action is aimed at, if any.
pub open spec fn target_of(a: Action) -> Option<usize> {
    match a {
        Action::Assassinate { target } => Some(target),
        Action::Captain { target } => Some(target),
        Action::Coup { target } => Some(target),
        _ => None,
    }
}

pub fn action_claim(a: Action) -> (r: Option<Class>)
    ensures
        r == claimed_role(a),
{
    match a {
        Action::Duke => Some(Class::Duke),
        Action::Assassinate { .. } => Some(Class::Assassin),
        Action::Captain { .. } => Some(Class::Captain),
        Action::Ambassador => Some(Class::Ambassador),
        _ => None,
    }
}

pub fn action_cost(a: Action) -> (r: u32)
    ensures
        r == cost(a),
{
    match a {
        Action::Coup { .. } => COUP_COST,
        Action::Assassinate { .. } => ASSASSINATE_COST,
        _ => 0,
    }
}

pub fn can_block(a: Action, role: Class) -> (r: bool)
    ensures
        r == blocks(a, role),
{
    match a {
        Action::ForeignAid => role == Class::Duke,
        Action::Assassinate { .. } => role == Class::Contessa,
        Action::Captain { .. } => role == Class::Ambassador || role == Class::Captain,
        _ => false,
    }
}

pub fn action_target(a: Action) -> (r: Option<usize>)
    ensures
        r == target_of(a),
{
    match a {
        Action::Assassinate { target } => Some(target),
        Action::Captain { target } => Some(target),
        Action::Coup { target } => Some(target),
        _ => None,
    }
}

/// One seat's state: gold and concealed influence cards. A player with no
/// cards is eliminated.
pub struct Player {
    pub gold: u32,
    pub hand: Vec<Class>,
}

impl Player {
    /// A player at the start of a game: starting gold, no cards dealt yet.
    pub fn new() -> (r: Player)
        ensures
            r.gold == STARTING_GOLD,
            r.hand@.len() == 0,
    {
        Player { gold: STARTING_GOLD, hand: Vec::new() }
    }

    pub open spec fn active(&self) -> bool {
        self.hand@.len() > 0
    }
}

/// Cards held by all the players together.
pub open spec fn hands_of(ps: Seq<Player>) -> Multiset<Class>
    decreases ps.len(),
{
    if ps.len() == 0 {
        Multiset::empty()
    } else {
        hands_of(ps.drop_last()).add(ps.last().hand@.to_multiset())
    }
}

/// Gold held by all the players together.
pub open spec fn gold_of(ps: Seq<Player>) -> int
    decreases ps.len(),
{
    if ps.len() == 0 {
        0
    } else {
        gold_of(ps.drop_last()) + ps.last().gold
    }
}

/// Number of cards held by all the players together.
pub open spec fn cards_held(ps: Seq<Player>) -> int
    decreases ps.len(),
{
    if ps.len() == 0 {
        0
    } else {
        cards_held(ps.drop_last()) + ps.last().hand@.len()
    }
}

pub proof fn lemma_held_update(ps: Seq<Player>, i: int, p: Player)
    requires
        0 <= i < ps.len(),
    ensures
        cards_held(ps.update(i, p)) == cards_held(ps) - ps[i].hand@.len() + p.hand@.len(),
    decreases ps.len(),
{
    let q = ps.update(i, p);
    if i == ps.len() - 1 {
        assert(q.drop_last() =~= ps.drop_last());
    } else {
        assert(q.drop_last() =~= ps.drop_last().update(i, p));
        lemma_held_update(ps.drop_last(), i, p);
    }
}

/// Number of players that still hold a card.
pub open spec fn active_count(ps: Seq<Player>) -> int
    decreases ps.len(),
{
    if ps.len() == 0 {
        0
    } else {
        active_count(ps.drop_last()) + if ps.last().active() { 1int } else { 0int }
    }
}

pub proof fn lemma_hands_update(ps: Seq<Player>, i: int, p: Player)
    requires
        0 <= i < ps.len(),
    ensures
        hands_of(ps.update(i, p)).add(ps[i].hand@.to_multiset())
            =~= hands_of(ps).add(p.hand@.to_multiset()),
    decreases ps.len(),
{
    let q = ps.update(i, p);
    let a = p.hand@.to_multiset();
    let b = ps[i].hand@.to_multiset();
    if i == ps.len() - 1 {
        assert(q.drop_last() =~= ps.drop_last());
        assert(hands_of(q) == hands_of(ps.drop_last()).add(a));
        assert(hands_of(ps) == hands_of(ps.drop_last()).add(b));
    } else {
        assert(q.drop_last() =~= ps.drop_last().update(i, p));
        lemma_hands_update(ps.drop_last(), i, p);
        let l = ps.last().hand@.to_multiset();
        assert(q.last() == ps.last());
        assert(hands_of(q) == hands_of(q.drop_last()).add(l));
        assert(hands_of(ps) == hands_of(ps.drop_last()).add(l));
        assert(hands_of(q.drop_last()).add(b) =~= hands_of(ps.drop_last()).add(a));
        assert forall|c: Class| #[trigger] hands_of(q).add(b).count(c) == hands_of(ps).add(a).count(c) by {
            assert(hands_of(q.drop_last()).add(b).count(c) == hands_of(ps.drop_last()).add(a).count(c));
        }
    }
}

pub proof fn lemma_gold_update(ps: Seq<Player>, i: int, p: Player)
    requires
        0 <= i < ps.len(),
    ensures
        gold_of(ps.update(i, p)) == gold_of(ps) - ps[i].gold + p.gold,
    decreases ps.len(),
{
    let q = ps.update(i, p);
    if i == ps.len() - 1 {
        assert(q.drop_last() =~= ps.drop_last());
    } else {
        assert(q.drop_last() =~= ps.drop_last().update(i, p));
        lemma_gold_update(ps.drop_last(), i, p);
    }
}

pub proof fn lemma_gold_bound(ps: Seq<Player>, i: int)
    requires
        0 <= i < ps.len(),
    ensures
        ps[i].gold <= gold_of(ps),
        gold_of(ps) >= 0,
    decreases ps.len(),
{
    lemma_gold_nonneg(ps.drop_last());
    if i < ps.len() - 1 {
        lemma_gold_bound(ps.drop_last(), i);
    }
}

pub proof fn lemma_gold_nonneg(ps: Seq<Player>)
    ensures
        gold_of(ps) >= 0,
    decreases ps.len(),
{
    if ps.len() > 0 {
        lemma_gold_nonneg(ps.drop_last());
    }
}

pub proof fn lemma_gold_two(ps: Seq<Player>, i: int, j: int)
    requires
        0 <= i < ps.len(),
        0 <= j < ps.len(),
        i != j,
    ensures
        ps[i].gold + ps[j].gold <= gold_of(ps),
    decreases ps.len(),
{
    let n = ps.len() - 1;
    lemma_gold_nonneg(ps.drop_last());
    if i == n {
        lemma_gold_bound(ps.drop_last(), j);
    } else if j == n {
        lemma_gold_bound(ps.drop_last(), i);
    } else {
        lemma_gold_two(ps.drop_last(), i, j);
    }
}

pub proof fn lemma_active_update(ps: Seq<Player>, i: int, p: Player)
    requires
        0 <= i < ps.len(),
    ensures
        active_count(ps.update(i, p)) == active_count(ps)
            - (if ps[i].active() { 1int } else { 0int }) + (if p.active() { 1int } else { 0int }),
    decreases ps.len(),
{
    let q = ps.update(i, p);
    if i == ps.len() - 1 {
        assert(q.drop_last() =~= ps.drop_last());
    } else {
        assert(q.drop_last() =~= ps.drop_last().update(i, p));
        lemma_active_update(ps.drop_last(), i, p);
    }
}

/// An active seat other than `i` exists exactly when at least two are active
/// (given that `i` is one of them).
pub proof fn lemma_active_other(ps: Seq<Player>, i: int)
    requires
        0 <= i < ps.len(),
        ps[i].active(),
    ensures
        active_count(ps) >= 2 <==> exists|j: int| 0 <= j < ps.len() && j != i && #[trigger] ps[j].active(),
    decreases ps.len(),
{
    let n = ps.len() - 1;
    let d = ps.drop_last();
    if i == n {
        lemma_active_any(d);
        if exists|j: int| 0 <= j < ps.len() && j != i && #[trigger] ps[j].active() {
            let j = choose|j: int| 0 <= j < ps.len() && j != i && #[trigger] ps[j].active();
            assert(d[j].active());
        }
    } else {
        lemma_active_other(d, i);
        lemma_active_nonneg(d);
        if exists|j: int| 0 <= j < d.len() && j != i && #[trigger] d[j].active() {
            let j = choose|j: int| 0 <= j < d.len() && j != i && #[trigger] d[j].active();
            assert(ps[j].active());
        }
        lemma_active_any(d);
        assert(d[i].active());
        if ps.last().active() {
            assert(ps[n].active());
        }
        if !ps.last().active() && exists|j: int| 0 <= j < ps.len() && j != i && #[trigger] ps[j].active() {
            let j = choose|j: int| 0 <= j < ps.len() && j != i && #[trigger] ps[j].active();
            assert(d[j].active());
        }
    }
}

pub proof fn lemma_active_nonneg(ps: Seq<Player>)
    ensures
        active_count(ps) >= 0,
    decreases ps.len(),
{
    if ps.len() > 0 {
        lemma_active_nonneg(ps.drop_last());
    }
}

/// Some seat is active exactly when the count is positive.
pub proof fn lemma_active_any(ps: Seq<Player>)
    ensures
        active_count(ps) >= 1 <==> exists|j: int| 0 <= j < ps.len() && #[trigger] ps[j].active(),
    decreases ps.len(),
{
    if ps.len() > 0 {
        let d = ps.drop_last();
        lemma_active_any(d);
        lemma_active_nonneg(d);
        if exists|j: int| 0 <= j < d.len() && #[trigger] d[j].active() {
            let j = choose|j: int| 0 <= j < d.len() && #[trigger] d[j].active();
            assert(ps[j].active());
        }
        if exists|j: int| 0 <= j < ps.len() && #[trigger] ps[j].active() {
            let j = choose|j: int| 0 <= j < ps.len() && #[trigger] ps[j].active();
            if j < d.len() {
                assert(d[j].active());
            }
        }
    }
}

/// What every seat may see: gold and card counts per seat, whose turn it is,
/// the deck size and the gold pool. Concealed cards are never in it.
pub struct GameView {
    pub golds: Vec<u32>,
    pub card_counts: Vec<usize>,
    pub current_player: usize,
    pub deck_size: usize,
    pub gold_pool: u32,
}

/// A decision-maker for one seat (a person at a terminal, a bot, a script).
/// The engine validates every answer and substitutes a default for one it
/// cannot use, so an implementation may return anything.
pub trait PlayerController {
    /// Called once when the game is set up, with this controller's seat.
    fn init(&self, seat: usize, view: &GameView);

    /// The action to declare on this seat's turn.
    fn get_next_action(&self, view: &GameView, hand: &Vec<Class>) -> Action;

    /// Whether to challenge `claimant`'s claim of `role`.
    fn decide_challenge(&self, view: &GameView, claimant: usize, role: Class) -> bool;

    /// The role claimed to block `action` by `actor`, or `None` to let it pass.
    fn decide_block(&self, view: &GameView, actor: usize, action: Action) -> Option<Class>;

    /// Which `keep_count` cards to keep out of `candidates` in an exchange.
    fn select_cards_to_keep(&self, candidates: &Vec<Class>, keep_count: usize) -> Vec<Class>;

    /// Which card of `hand` to give up on losing influence.
    fn choose_card_to_lose(&self, hand: &Vec<Class>) -> Class;
}

/// Returns a copy of a hand.
fn copy_hand(h: &Vec<Class>) -> (r: Vec<Class>)
    ensures
        r@ == h@,
{
    let mut r: Vec<Class> = Vec::new();
    let mut i: usize = 0;
    while i < h.len()
        invariant
            i <= h@.len(),
            r@ == h@.subrange(0, i as int),
        decreases h@.len() - i,
    {
        r.push(h[i]);
        assert(r@ =~= h@.subrange(0, i + 1));
        i = i + 1;
    }
    assert(r@ =~= h@);
    r
}

/// The hand without one copy of `c`.
fn remove_card(h: &Vec<Class>, c: Class) -> (r: Vec<Class>)
    requires
        h@.contains(c),
    ensures
        r@.to_multiset() == h@.to_multiset().remove(c),
        r@.len() == h@.len() - 1,
{
    let mut r: Vec<Class> = Vec::new();
    let mut i: usize = 0;
    let mut found = false;
    let ghost mut at: int = 0;
    while i < h.len()
        invariant
            i <= h@.len(),
            !found ==> r@ == h@.subrange(0, i as int) && forall|j: int| 0 <= j < i ==> h@[j] != c,
            found ==> 0 <= at < i && h@[at] == c && r@ == h@.remove(at).subrange(0, i - 1),
        decreases h@.len() - i,
    {
        if !found && h[i] == c {
            found = true;
            proof { at = i as int; }
            assert(r@ =~= h@.remove(at).subrange(0, i as int));
        } else {
            r.push(h[i]);
            if found {
                assert(r@ =~= h@.remove(at).subrange(0, i as int));
            } else {
                assert(r@ =~= h@.subrange(0, i + 1));
            }
        }
        i = i + 1;
    }
    assert(found);
    assert(r@ =~= h@.remove(at));
    r
}

/// The engine: owns all game state and runs the turns.
pub struct Engine<C> {
    players: Vec<Player>,
    controllers: Vec<C>,
    deck: Deck,
    discard: Vec<Class>,
    gold_pool: u32,
    turn_count: u32,
    current_player_index: usize,
    /// Every seat whose controller the engine has asked for a decision, in
    /// order.
    consulted: Ghost<Seq<usize>>,
    /// Every exchange offer made to a controller: the candidate cards, how
    /// many to keep, and the cards it chose, in order.
    offers: Ghost<Seq<(Seq<Class>, usize, Seq<Class>)>>,
}

impl<C> Engine<C> {
    pub closed spec fn players_view(&self) -> Seq<Player> {
        self.players@
    }

    pub closed spec fn controller_count(&self) -> nat {
        self.controllers@.len()
    }

    pub closed spec fn deck_view(&self) -> Seq<Class> {
        self.deck@
    }

    pub closed spec fn discard_view(&self) -> Seq<Class> {
        self.discard@
    }

    pub closed spec fn pool(&self) -> u32 {
        self.gold_pool
    }

    pub closed spec fn turns(&self) -> u32 {
        self.turn_count
    }

    pub closed spec fn current(&self) -> usize {
        self.current_player_index
    }

    /// The exchange offers made so far: candidates, number to keep, choice.
    pub closed spec fn exchange_offers(&self) -> Seq<(Seq<Class>, usize, Seq<Class>)> {
        self.offers@
    }

    /// The seats whose controllers have been asked for a decision, in order.
    pub closed spec fn consulted_seats(&self) -> Seq<usize> {
        self.consulted@
    }

    /// Since `before`, the engine has only added to the record of consulted
    /// seats, and only seats that were active in `before`.
    pub open spec fn consults_active(&self, before: &Self) -> bool {
        let l0 = before.consulted_seats();
        let l1 = self.consulted_seats();
        &&& l0.len() <= l1.len()
        &&& l1.subrange(0, l0.len() as int) == l0
        &&& forall|k: int| l0.len() <= k < l1.len() ==> before.seat_active(#[trigger] l1[k] as int)
    }

    /// Every seat added to the record of consulted seats since `before` is
    /// `x` or `y`.
    pub open spec fn consulted_only(&self, before: &Self, x: int, y: int) -> bool {
        forall|k: int| before.consulted_seats().len() <= k < self.consulted_seats().len()
            ==> #[trigger] self.consulted_seats()[k] == x || self.consulted_seats()[k] == y
    }

    /// Only the record of consulted seats may differ from `other`.
    pub open spec fn unchanged_but_log(&self, other: &Self) -> bool {
        &&& self.players_view() == other.players_view()
        &&& self.controller_count() == other.controller_count()
        &&& self.deck_view() == other.deck_view()
        &&& self.discard_view() == other.discard_view()
        &&& self.pool() == other.pool()
        &&& self.turns() == other.turns()
        &&& self.current() == other.current()
    }

    pub open spec fn seat_active(&self, i: int) -> bool {
        0 <= i < self.players_view().len() && self.players_view()[i].active()
    }

    /// Every card of the game: the deck, the revealed pile and all hands.
    pub open spec fn all_cards(&self) -> Multiset<Class> {
        self.deck_view().to_multiset().add(self.discard_view().to_multiset()).add(
            hands_of(self.players_view()),
        )
    }

    /// The state invariant that every operation keeps.
    pub open spec fn inv(&self) -> bool {
        let ps = self.players_view();
        &&& MIN_PLAYERS <= ps.len() <= MAX_PLAYERS
        &&& self.controller_count() == ps.len()
        &&& forall|i: int| 0 <= i < ps.len() ==> #[trigger] ps[i].hand@.len() <= 2
        &&& is_complete_set(self.all_cards())
        &&& self.pool() + gold_of(ps) == TOTAL_GOLD
        &&& self.current() < ps.len()
        &&& active_count(ps) >= 1
    }

    /// The invariant between turns: also, the seat to move is active.
    pub open spec fn wf(&self) -> bool {
        self.inv() && self.seat_active(self.current() as int)
    }

    pub open spec fn game_over(&self) -> bool {
        active_count(self.players_view()) <= 1
    }

    /// Everything but the players' hands and gold is as in `other`.
    pub open spec fn same_frame(&self, other: &Self) -> bool {
        &&& self.players_view().len() == other.players_view().len()
        &&& self.controller_count() == other.controller_count()
        &&& self.current() == other.current()
        &&& self.turns() == other.turns()
    }

    /// Seats other than those listed keep their state.
    pub open spec fn others_unchanged(&self, other: &Self, a: int, b: int) -> bool {
        forall|j: int| 0 <= j < self.players_view().len() && j != a && j != b
            ==> #[trigger] self.players_view()[j] == other.players_view()[j]
    }

    /// No seat that was eliminated in `before` holds a card again.
    pub open spec fn no_revival(&self, before: &Self) -> bool {
        forall|j: int| 0 <= j < before.players_view().len() && !before.seat_active(j)
            ==> !#[trigger] self.seat_active(j)
    }

    /// No hand holds more cards than in `before`, and the revealed pile only
    /// grows.
    pub open spec fn hands_shrink(&self, before: &Self) -> bool {
        &&& forall|j: int| 0 <= j < before.players_view().len()
            ==> #[trigger] self.players_view()[j].hand@.len() <= before.players_view()[j].hand@.len()
        &&& before.discard_view().len() <= self.discard_view().len()
        &&& self.discard_view().subrange(0, before.discard_view().len() as int) == before.discard_view()
    }

    /// Cards in hands plus revealed cards: a card that leaves a hand for
    /// good goes to the revealed pile, never back to the deck.
    pub open spec fn cards_out(&self) -> int {
        cards_held(self.players_view()) + self.discard_view().len()
    }

    pub open spec fn golds_unchanged(&self, other: &Self) -> bool {
        &&& self.pool() == other.pool()
        &&& forall|j: int| 0 <= j < self.players_view().len()
            ==> #[trigger] self.players_view()[j].gold == other.players_view()[j].gold
    }

    /// Whether `actor` may declare `a`: a player holding ten gold or more
    /// must launch a coup, the cost must be affordable, and a target must be
    /// another active seat.
    pub open spec fn legal(&self, actor: int, a: Action) -> bool {
        let g = self.players_view()[actor].gold;
        &&& (g >= FORCED_COUP_GOLD ==> a is Coup)
        &&& g >= cost(a)
        &&& match target_of(a) {
            Some(t) => t != actor && self.seat_active(t as int),
            None => true,
        }
    }

    pub fn is_over(&self) -> (r: bool)
        requires
            self.inv(),
        ensures
            r == self.game_over(),
    {
        self.active_players() <= 1
    }

    pub fn active_players(&self) -> (r: usize)
        requires
            self.inv(),
        ensures
            r == active_count(self.players_view()),
    {
        let mut n: usize = 0;
        let mut i: usize = 0;
        while i < self.players.len()
            invariant
                i <= self.players@.len() <= MAX_PLAYERS,
                n == active_count(self.players@.subrange(0, i as int)),
                n <= i,
            decreases self.players@.len() - i,
        {
            assert(self.players@.subrange(0, i + 1).drop_last() =~= self.players@.subrange(0, i as int));
            if self.players[i].hand.len() > 0 {
                n = n + 1;
            }
            i = i + 1;
        }
        assert(self.players@.subrange(0, i as int) =~= self.players@);
        n
    }

    pub fn player_count(&self) -> (r: usize)
        ensures
            r == self.players_view().len(),
    {
        self.players.len()
    }

    pub fn eliminated_count(&self) -> (r: usize)
        requires
            self.inv(),
        ensures
            r == self.players_view().len() - active_count(self.players_view()),
    {
        let a = self.active_players();
        proof { lemma_active_bound(self.players@); }
        self.players.len() - a
    }

    pub fn gold_pool(&self) -> (r: u32)
        ensures
            r == self.pool(),
    {
        self.gold_pool
    }

    pub fn turn_count(&self) -> (r: u32)
        ensures
            r == self.turns(),
    {
        self.turn_count
    }

    pub fn current_player(&self) -> (r: usize)
        ensures
            r == self.current(),
    {
        self.current_player_index
    }

    pub fn deck_size(&self) -> (r: usize)
        ensures
            r == self.deck_view().len(),
    {
        self.deck.len()
    }

    /// The cards left in the deck, bottom first.
    pub fn deck_cards(&self) -> (r: Vec<Class>)
        ensures
            r@ == self.deck_view(),
    {
        copy_hand(&self.deck.cards)
    }

    pub fn discard_size(&self) -> (r: usize)
        ensures
            r == self.discard_view().len(),
    {
        self.discard.len()
    }

    pub fn gold(&self, seat: usize) -> (r: u32)
        requires
            seat < self.players_view().len(),
        ensures
            r == self.players_view()[seat as int].gold,
    {
        self.players[seat].gold
    }

    pub fn card_count(&self, seat: usize) -> (r: usize)
        requires
            seat < self.players_view().len(),
        ensures
            r == self.players_view()[seat as int].hand@.len(),
    {
        self.players[seat].hand.len()
    }

    /// The concealed cards of a seat (for the owner of the engine, not for
    /// other seats).
    pub fn hand(&self, seat: usize) -> (r: Vec<Class>)
        requires
            seat < self.players_view().len(),
        ensures
            r@ == self.players_view()[seat as int].hand@,
    {
        copy_hand(&self.players[seat].hand)
    }

    pub fn is_active(&self, seat: usize) -> (r: bool)
        requires
            seat < self.players_view().len(),
        ensures
            r == self.seat_active(seat as int),
    {
        self.players[seat].hand.len() > 0
    }

    /// The public view of the game.
    pub fn view(&self) -> (r: GameView)
        ensures
            r.golds@.len() == self.players_view().len(),
            r.card_counts@.len() == self.players_view().len(),
            forall|i: int| 0 <= i < r.golds@.len() ==> r.golds@[i] == #[trigger] self.players_view()[i].gold
                && r.card_counts@[i] == self.players_view()[i].hand@.len(),
            r.current_player == self.current(),
            r.deck_size == self.deck_view().len(),
            r.gold_pool == self.pool(),
    {
        let mut golds: Vec<u32> = Vec::new();
        let mut card_counts: Vec<usize> = Vec::new();
        let mut i: usize = 0;
        while i < self.players.len()
            invariant
                i <= self.players@.len(),
                golds@.len() == i,
                card_counts@.len() == i,
                forall|k: int| 0 <= k < i ==> #[trigger] golds@[k] == self.players@[k].gold
                    && card_counts@[k] == self.players@[k].hand@.len(),
            decreases self.players@.len() - i,
        {
            golds.push(self.players[i].gold);
            card_counts.push(self.players[i].hand.len());
            assert(golds@[i as int] == self.players@[i as int].gold);
            i = i + 1;
        }
        GameView {
            golds,
            card_counts,
            current_player: self.current_player_index,
            deck_size: self.deck.len(),
            gold_pool: self.gold_pool,
        }
    }

    /// Sets the state of one seat.
    fn replace_player(&mut self, i: usize, gold: u32, hand: Vec<Class>)
        requires
            i < old(self).players@.len(),
        ensures
            final(self).players@ == old(self).players@.update(i as int, Player { gold, hand }),
            final(self).controllers == old(self).controllers,
            final(self).deck == old(self).deck,
            final(self).discard == old(self).discard,
            final(self).gold_pool == old(self).gold_pool,
            final(self).turn_count == old(self).turn_count,
            final(self).current_player_index == old(self).current_player_index,
            final(self).consulted == old(self).consulted,
            final(self).offers == old(self).offers,
    {
        self.players.set(i, Player { gold, hand });
    }

    /// Records that `seat`'s controller is about to be asked for a decision.
    fn consult(&mut self, seat: usize)
        requires
            old(self).seat_active(seat as int),
        ensures
            final(self).unchanged_but_log(old(self)),
            final(self).consulted_seats() == old(self).consulted_seats().push(seat),
            final(self).consults_active(old(self)),
            final(self).players == old(self).players,
            final(self).controllers == old(self).controllers,
            final(self).deck == old(self).deck,
            final(self).discard == old(self).discard,
            final(self).gold_pool == old(self).gold_pool,
            final(self).turn_count == old(self).turn_count,
            final(self).current_player_index == old(self).current_player_index,
            final(self).offers == old(self).offers,
    {
        self.consulted = Ghost(self.consulted@.push(seat));
        assert(self.consulted@.subrange(0, old(self).consulted@.len() as int) =~= old(self).consulted@);
    }
}

/// Seat `j` lies strictly after `from` and strictly before `to` in seating
/// order, wrapping round the table.
pub open spec fn between_cyclic(from: int, to: int, j: int) -> bool {
    if from < to {
        from < j < to
    } else {
        j > from || j < to
    }
}

/// What a grant of `amount` gold yields from a pool of `pool`.
pub open spec fn granted(amount: u32, pool: u32) -> u32 {
    if amount <= pool {
        amount
    } else {
        pool
    }
}

/// Gold an action takes from the pool when it resolves.
pub open spec fn pool_gain(a: Action, pool: u32) -> int {
    match a {
        Action::Income => granted(1, pool) as int,
        Action::ForeignAid => granted(2, pool) as int,
        Action::Duke => granted(3, pool) as int,
        _ => 0,
    }
}

/// Gold a steal takes from a seat holding `gold`.
pub open spec fn stolen(gold: u32) -> int {
    if gold >= 2 {
        2
    } else {
        gold as int
    }
}

/// How the answers `asked` of `actor`'s controller led to `a`: the first
/// legal answer is taken; after two illegal ones the default applies, which
/// is income below ten gold.
pub open spec fn declared_as<C>(e: &Engine<C>, actor: int, asked: Seq<Action>, a: Action) -> bool {
    &&& 1 <= asked.len() <= 2
    &&& e.legal(actor, asked[0]) ==> asked.len() == 1 && a == asked[0]
    &&& !e.legal(actor, asked[0]) ==> asked.len() == 2
    &&& asked.len() == 2 && e.legal(actor, asked[1]) ==> a == asked[1]
    &&& asked.len() == 2 && !e.legal(actor, asked[1]) && e.players_view()[actor].gold < FORCED_COUP_GOLD
        ==> a == Action::Income
}

/// The hands in `post` are those of `pre` after a challenge window on
/// `claimant`'s claim of `role` that ended in `outcome`, challenged by
/// `challenger`.
pub open spec fn window_effect(
    pre: Seq<Player>,
    post: Seq<Player>,
    claimant: int,
    role: Class,
    outcome: ChallengeOutcome,
    challenger: Option<usize>,
) -> bool {
    &&& post.len() == pre.len()
    &&& (challenger is None <==> outcome == ChallengeOutcome::NotChallenged)
    &&& challenger is None ==> forall|j: int| 0 <= j < pre.len() ==> #[trigger] post[j].hand@ == pre[j].hand@
    &&& challenger matches Some(ch) ==> {
        &&& ch != claimant
        &&& 0 <= ch < pre.len()
        &&& pre[ch as int].active()
        &&& outcome == (if pre[claimant].hand@.contains(role) {
            ChallengeOutcome::ChallengeFailed
        } else {
            ChallengeOutcome::ChallengeSucceeded
        })
        &&& outcome == ChallengeOutcome::ChallengeFailed ==> {
            &&& post[claimant].hand@.len() == pre[claimant].hand@.len()
            &&& post[ch as int].hand@.len() == pre[ch as int].hand@.len() - 1
        }
        &&& outcome == ChallengeOutcome::ChallengeSucceeded ==> {
            &&& post[claimant].hand@.len() == pre[claimant].hand@.len() - 1
            &&& post[ch as int].hand@ == pre[ch as int].hand@
        }
        &&& forall|j: int| 0 <= j < pre.len() && j != claimant && j != ch ==> #[trigger] post[j].hand@ == pre[j].hand@
    }
}

/// What happened in one turn.
pub struct TurnReport {
    /// The action declared (legal, after any substitution).
    pub action: Action,
    /// The answers the controller gave when asked for an action, in order.
    pub asked: Ghost<Seq<Action>>,
    /// The outcome of the challenge window on the action's claim.
    pub challenge: ChallengeOutcome,
    /// The seat that challenged the action's claim.
    pub challenger: Option<usize>,
    /// The seat that blocked, and the role it claimed.
    pub blocker: Option<(usize, Class)>,
    /// The outcome of the challenge window on the block's claim.
    pub block_challenge: ChallengeOutcome,
    /// The seat that challenged the block.
    pub block_challenger: Option<usize>,
    /// The seats' state after the challenge window on the action.
    pub after_challenge: Ghost<Seq<Player>>,
    /// The seats' state after the block window and its challenge window.
    pub after_block: Ghost<Seq<Player>>,
    /// Whether the action's effect was applied.
    pub resolved: bool,
}

/// A deck order that holds the whole card set: fifteen cards, three of
/// each role.
pub open spec fn is_full_deck(d: Seq<Class>) -> bool {
    d.len() == DECK_SIZE && is_complete_set(d.to_multiset())
}

/// `e` is a fresh game of `n` seats dealt from `order` (its last card is the
/// top): two cards to each seat in seating order, first seat first, and two
/// gold each from the pool.
pub open spec fn dealt_from<C>(e: &Engine<C>, n: nat, order: Seq<Class>) -> bool {
    &&& e.wf()
    &&& e.players_view().len() == n
    &&& e.pool() == TOTAL_GOLD - STARTING_GOLD * n
    &&& e.turns() == 0
    &&& e.current() == 0
    &&& e.discard_view().len() == 0
    &&& e.deck_view() == order.subrange(0, DECK_SIZE - 2 * n)
    &&& forall|i: int| 0 <= i < n ==> {
        &&& (#[trigger] e.players_view()[i]).gold == STARTING_GOLD
        &&& e.players_view()[i].hand@ == seq![order[DECK_SIZE - 1 - 2 * i], order[DECK_SIZE - 2 - 2 * i]]
    }
}

/// The top two cards of a deck (all of it, if it holds fewer).
pub open spec fn top_two(d: Seq<Class>) -> Seq<Class> {
    if d.len() >= 2 {
        d.subrange(d.len() - 2, d.len() as int)
    } else {
        d
    }
}

pub proof fn lemma_no_revival_trans<C>(a: &Engine<C>, b: &Engine<C>, c: &Engine<C>)
    requires
        b.no_revival(a),
        c.no_revival(b),
        a.players_view().len() == b.players_view().len(),
    ensures
        c.no_revival(a),
{
    assert forall|j: int| 0 <= j < a.players_view().len() && !a.seat_active(j) implies !#[trigger] c.seat_active(j) by {
        assert(!b.seat_active(j));
    }
}

pub proof fn lemma_consults_same<C>(a: &Engine<C>, b: &Engine<C>)
    requires
        b.consulted_seats() == a.consulted_seats(),
    ensures
        b.consults_active(a),
{
    assert(b.consulted_seats().subrange(0, a.consulted_seats().len() as int) =~= a.consulted_seats());
}

pub proof fn lemma_consults_trans<C>(a: &Engine<C>, b: &Engine<C>, c: &Engine<C>)
    requires
        b.consults_active(a),
        c.consults_active(b),
        b.no_revival(a),
        a.players_view().len() == b.players_view().len(),
    ensures
        c.consults_active(a),
{
    let l0 = a.consulted_seats();
    let l1 = b.consulted_seats();
    let l2 = c.consulted_seats();
    assert(l2.subrange(0, l0.len() as int) =~= l1.subrange(0, l0.len() as int));
    assert forall|k: int| l0.len() <= k < l2.len() implies a.seat_active(#[trigger] l2[k] as int) by {
        if k < l1.len() {
            assert(l2[k] == l2.subrange(0, l1.len() as int)[k]);
            assert(l1[k] == l2[k]);
        } else {
            assert(b.seat_active(l2[k] as int));
        }
    }
}

pub proof fn lemma_step<C>(a: &Engine<C>, b: &Engine<C>, c: &Engine<C>)
    requires
        b.no_revival(a),
        c.no_revival(b),
        b.consults_active(a),
        c.consults_active(b),
        a.players_view().len() == b.players_view().len(),
    ensures
        c.no_revival(a),
        c.consults_active(a),
{
    lemma_no_revival_trans(a, b, c);
    lemma_consults_trans(a, b, c);
}

pub proof fn lemma_shrink_trans<C>(a: &Engine<C>, b: &Engine<C>, c: &Engine<C>)
    requires
        b.hands_shrink(a),
        c.hands_shrink(b),
        a.players_view().len() == b.players_view().len(),
    ensures
        c.hands_shrink(a),
{
    assert forall|j: int| 0 <= j < a.players_view().len()
        implies #[trigger] c.players_view()[j].hand@.len() <= a.players_view()[j].hand@.len() by {
        assert(b.players_view()[j].hand@.len() <= a.players_view()[j].hand@.len());
    }
    let n = a.discard_view().len() as int;
    assert(c.discard_view().subrange(0, n) =~= c.discard_view().subrange(0, b.discard_view().len() as int).subrange(0, n));
}

pub proof fn lemma_shrink_same<C>(a: &Engine<C>, b: &Engine<C>)
    requires
        forall|j: int| 0 <= j < a.players_view().len()
            ==> #[trigger] b.players_view()[j].hand@.len() == a.players_view()[j].hand@.len(),
        b.discard_view() == a.discard_view(),
    ensures
        b.hands_shrink(a),
{
    assert(b.discard_view().subrange(0, a.discard_view().len() as int) =~= a.discard_view());
}

pub proof fn lemma_active_bound(ps: Seq<Player>)
    ensures
        0 <= active_count(ps) <= ps.len(),
    decreases ps.len(),
{
    if ps.len() > 0 {
        lemma_active_bound(ps.drop_last());
    }
}

impl<C: PlayerController> Engine<C> {
    /// `seat` gives up `choice` if it holds that role, else its first card.
    /// The card is revealed and stays out of play. `other` is an active seat
    /// besides `seat` (so the game never loses its last active player).
    fn lose_influence(&mut self, seat: usize, other: usize, choice: Class) -> (lost: Class)
        requires
            old(self).inv(),
            old(self).seat_active(seat as int),
            old(self).seat_active(other as int),
            seat != other,
        ensures
            final(self).inv(),
            final(self).cards_out() == old(self).cards_out(),
            final(self).hands_shrink(old(self)),
            final(self).consulted_seats() == old(self).consulted_seats(),
            final(self).same_frame(old(self)),
            final(self).no_revival(old(self)),
            final(self).golds_unchanged(old(self)),
            final(self).others_unchanged(old(self), seat as int, seat as int),
            final(self).deck_view() == old(self).deck_view(),
            old(self).players_view()[seat as int].hand@.contains(lost),
            old(self).players_view()[seat as int].hand@.contains(choice) ==> lost == choice,
            final(self).players_view()[seat as int].hand@.to_multiset()
                == old(self).players_view()[seat as int].hand@.to_multiset().remove(lost),
            final(self).players_view()[seat as int].hand@.len()
                == old(self).players_view()[seat as int].hand@.len() - 1,
    {
        let ghost ps = self.players@;
        let ghost oh = self.players@[seat as int].hand@;
        let lost = if holds(&self.players[seat].hand, choice) {
            choice
        } else {
            self.players[seat].hand[0]
        };
        assert(oh[0] == oh[0]);
        let new_hand = remove_card(&self.players[seat].hand, lost);
        let gold = self.players[seat].gold;
        let ghost np = Player { gold, hand: new_hand };
        let ghost nh = new_hand@;
        self.replace_player(seat, gold, new_hand);
        let ghost d0 = self.discard@;
        self.discard.push(lost);
        proof {
            lemma_hands_update(ps, seat as int, np);
            lemma_gold_update(ps, seat as int, np);
            lemma_active_update(ps, seat as int, np);
            lemma_held_update(ps, seat as int, np);
            lemma_active_other(ps, seat as int);
            assert(ps[other as int].active());
            let old_all = self.deck@.to_multiset().add(d0.to_multiset()).add(hands_of(ps));
            assert forall|c: Class| #[trigger] self.all_cards().count(c) == old_all.count(c) by {
                assert(hands_of(self.players@).add(oh.to_multiset()).count(c)
                    == hands_of(ps).add(nh.to_multiset()).count(c));
            }
            assert(self.all_cards() =~= old_all);
            assert forall|i: int| 0 <= i < self.players@.len() implies #[trigger] self.players@[i].hand@.len() <= 2 by {
                assert(ps[i].hand@.len() <= 2);
            }
            assert forall|j: int| 0 <= j < ps.len()
                implies #[trigger] self.players@[j].hand@.len() <= ps[j].hand@.len() by {
                if j != seat as int {
                    assert(self.players@[j] == ps[j]);
                }
            }
            assert(self.discard@.subrange(0, d0.len() as int) =~= d0);
        }
        lost
    }

    /// `seat` loses one influence card: the only one, or the one its
    /// controller picks (any card if the pick is not in the hand).
    fn punish(&mut self, seat: usize, other: usize) -> (lost: Class)
        requires
            old(self).inv(),
            old(self).seat_active(seat as int),
            old(self).seat_active(other as int),
            seat != other,
        ensures
            final(self).inv(),
            final(self).cards_out() == old(self).cards_out(),
            final(self).hands_shrink(old(self)),
            final(self).consulted_only(old(self), seat as int, seat as int),
            final(self).consults_active(old(self)),
            final(self).same_frame(old(self)),
            final(self).no_revival(old(self)),
            final(self).golds_unchanged(old(self)),
            final(self).others_unchanged(old(self), seat as int, seat as int),
            final(self).deck_view() == old(self).deck_view(),
            old(self).players_view()[seat as int].hand@.contains(lost),
            final(self).players_view()[seat as int].hand@.to_multiset()
                == old(self).players_view()[seat as int].hand@.to_multiset().remove(lost),
            final(self).players_view()[seat as int].hand@.len()
                == old(self).players_view()[seat as int].hand@.len() - 1,
    {
        let choice = if self.players[seat].hand.len() >= 2 {
            self.consult(seat);
            self.controllers[seat].choose_card_to_lose(&self.players[seat].hand)
        } else {
            self.players[seat].hand[0]
        };
        let ghost mid = *self;
        let lost = self.lose_influence(seat, other, choice);
        proof {
            lemma_consults_same(&mid, self);
            lemma_consults_trans(old(self), &mid, self);
        }
        lost
    }

    /// Settles `challenger`'s challenge of `claimant`'s claim to hold `role`.
    /// If the claim is true, the claimant shows the card, shuffles it back
    /// into the deck and draws a replacement, and the challenger loses a
    /// card. Otherwise the claimant loses a card.
    pub fn challenge(&mut self, claimant: usize, challenger: usize, role: Class) -> (r: ChallengeOutcome)
        requires
            old(self).inv(),
            old(self).seat_active(claimant as int),
            old(self).seat_active(challenger as int),
            claimant != challenger,
        ensures
            final(self).inv(),
            final(self).cards_out() == old(self).cards_out(),
            final(self).hands_shrink(old(self)),
            final(self).consults_active(old(self)),
            final(self).same_frame(old(self)),
            final(self).no_revival(old(self)),
            final(self).golds_unchanged(old(self)),
            final(self).others_unchanged(old(self), claimant as int, challenger as int),
            final(self).deck_view().len() == old(self).deck_view().len(),
            r == (if old(self).players_view()[claimant as int].hand@.contains(role) {
                ChallengeOutcome::ChallengeFailed
            } else {
                ChallengeOutcome::ChallengeSucceeded
            }),
            r == ChallengeOutcome::ChallengeFailed ==> {
                &&& final(self).players_view()[claimant as int].hand@.len()
                    == old(self).players_view()[claimant as int].hand@.len()
                &&& final(self).players_view()[challenger as int].hand@.len()
                    == old(self).players_view()[challenger as int].hand@.len() - 1
                &&& final(self).players_view()[challenger as int].hand@.to_multiset().subset_of(
                    old(self).players_view()[challenger as int].hand@.to_multiset())
            },
            r == ChallengeOutcome::ChallengeSucceeded ==> {
                &&& final(self).players_view()[claimant as int].hand@.len()
                    == old(self).players_view()[claimant as int].hand@.len() - 1
                &&& final(self).players_view()[claimant as int].hand@.to_multiset().subset_of(
                    old(self).players_view()[claimant as int].hand@.to_multiset())
                &&& final(self).players_view()[challenger as int]
                    == old(self).players_view()[challenger as int]
                &&& final(self).deck_view() == old(self).deck_view()
            },
    {
        if holds(&self.players[claimant].hand, role) {
            let ghost ps = self.players@;
            let ghost oh = self.players@[claimant as int].hand@;
            let ghost d0 = self.deck@;
            let mut nh = remove_card(&self.players[claimant].hand, role);
            let gold = self.players[claimant].gold;
            self.deck.return_card(role);
            let ghost d1 = self.deck@;
            let drawn = self.deck.draw_card();
            let c = match drawn {
                Some(c) => c,
                None => role,
            };
            let ghost h1 = nh@;
            nh.push(c);
            let ghost np = Player { gold, hand: nh };
            let ghost nhv = nh@;
            self.replace_player(claimant, gold, nh);
            proof {
                assert(d1 == d1.drop_last().push(d1.last()));
                assert(self.deck@ == d1.drop_last());
                assert(c == d1.last());
                assert(d1.to_multiset() == d0.to_multiset().insert(role));
                assert(oh.to_multiset().count(role) >= 1);
                assert(d1.to_multiset() == d1.drop_last().to_multiset().insert(c));
                lemma_hands_update(ps, claimant as int, np);
                lemma_gold_update(ps, claimant as int, np);
                lemma_active_update(ps, claimant as int, np);
                lemma_held_update(ps, claimant as int, np);
                let old_all = d0.to_multiset().add(self.discard@.to_multiset()).add(hands_of(ps));
                assert forall|x: Class| #[trigger] self.all_cards().count(x) == old_all.count(x) by {
                    assert(hands_of(self.players@).add(oh.to_multiset()).count(x)
                        == hands_of(ps).add(nhv.to_multiset()).count(x));
                    assert(nhv.to_multiset() == h1.to_multiset().insert(c));
                    let rx: int = if x == role { 1 } else { 0 };
                    let cx: int = if x == c { 1 } else { 0 };
                    assert(nhv.to_multiset().count(x) == h1.to_multiset().count(x) + cx);
                    assert(h1.to_multiset().count(x) == oh.to_multiset().count(x) - rx);
                    assert(d1.to_multiset().count(x) == d0.to_multiset().count(x) + rx);
                    assert(d1.to_multiset().count(x) == self.deck@.to_multiset().count(x) + cx);
                }
                assert(self.all_cards() =~= old_all);
                assert forall|i: int| 0 <= i < self.players@.len() implies #[trigger] self.players@[i].hand@.len() <= 2 by {
                    assert(ps[i].hand@.len() <= 2);
                }
                assert(self.players@[challenger as int] == ps[challenger as int]);
            }
            let ghost mid = self.players@;
            self.punish(challenger, claimant);
            proof {
                assert(self.players@[claimant as int] == mid[claimant as int]);
            }
            ChallengeOutcome::ChallengeFailed
        } else {
            self.punish(claimant, challenger);
            ChallengeOutcome::ChallengeSucceeded
        }
    }
}

impl<C: PlayerController> Engine<C> {
    pub fn is_legal(&self, actor: usize, a: Action) -> (r: bool)
        requires
            self.inv(),
            actor < self.players_view().len(),
        ensures
            r == self.legal(actor as int, a),
    {
        let g = self.players[actor].gold;
        if g >= FORCED_COUP_GOLD {
            match a {
                Action::Coup { .. } => {},
                _ => {
                    return false;
                },
            }
        }
        if g < action_cost(a) {
            return false;
        }
        match action_target(a) {
            Some(t) => t != actor && t < self.players.len() && self.players[t].hand.len() > 0,
            None => true,
        }
    }

    /// The action taken for a seat whose controller keeps declaring illegal
    /// ones: a coup on the first other active seat when it holds ten gold or
    /// more, income otherwise.
    pub fn default_action(&self, actor: usize) -> (r: Action)
        requires
            self.inv(),
            self.seat_active(actor as int),
            !self.game_over(),
        ensures
            self.legal(actor as int, r),
            self.players_view()[actor as int].gold >= FORCED_COUP_GOLD ==> r is Coup,
            self.players_view()[actor as int].gold < FORCED_COUP_GOLD ==> r == Action::Income,
    {
        if self.players[actor].gold >= FORCED_COUP_GOLD {
            proof { lemma_active_other(self.players@, actor as int); }
            let mut j: usize = 0;
            while j < self.players.len()
                invariant
                    self.inv(),
                    actor < self.players@.len(),
                    self.players@[actor as int].gold >= FORCED_COUP_GOLD,
                    j <= self.players@.len(),
                    forall|k: int| 0 <= k < j && k != actor ==> !#[trigger] self.players@[k].active(),
                decreases self.players@.len() - j,
            {
                if j != actor && self.players[j].hand.len() > 0 {
                    return Action::Coup { target: j };
                }
                j = j + 1;
            }
            proof {
                let k = choose|k: int| 0 <= k < self.players@.len() && k != actor && #[trigger] self.players@[k].active();
                assert(!self.players@[k].active());
            }
            Action::Income
        } else {
            Action::Income
        }
    }

    /// Asks the seat to move for its action, once more if the first answer
    /// is illegal, and falls back on `default_action` after that.
    fn declare(&mut self, actor: usize) -> (r: (Action, Ghost<Seq<Action>>))
        requires
            old(self).inv(),
            old(self).seat_active(actor as int),
            !old(self).game_over(),
        ensures
            final(self).inv(),
            final(self).unchanged_but_log(old(self)),
            final(self).consults_active(old(self)),
            final(self).no_revival(old(self)),
            old(self).legal(actor as int, r.0),
            declared_as(old(self), actor as int, r.1@, r.0),
            final(self).consulted_seats().len() == old(self).consulted_seats().len() + r.1@.len(),
            final(self).consulted_only(old(self), actor as int, actor as int),
    {
        let view = self.view();
        self.consult(actor);
        let a = self.controllers[actor].get_next_action(&view, &self.players[actor].hand);
        if self.is_legal(actor, a) {
            let asked: Ghost<Seq<Action>> = Ghost(Seq::empty().push(a));
            return (a, asked);
        }
        let ghost mid = *self;
        self.consult(actor);
        proof { lemma_consults_trans(old(self), &mid, self); }
        let b = self.controllers[actor].get_next_action(&view, &self.players[actor].hand);
        if self.is_legal(actor, b) {
            let asked: Ghost<Seq<Action>> = Ghost(Seq::empty().push(a).push(b));
            return (b, asked);
        }
        let asked: Ghost<Seq<Action>> = Ghost(Seq::empty().push(a).push(b));
        (self.default_action(actor), asked)
    }

    /// Sets one seat's gold, keeping its hand.
    fn set_gold(&mut self, i: usize, g: u32)
        requires
            i < old(self).players@.len(),
        ensures
            final(self).players@.len() == old(self).players@.len(),
            final(self).players@[i as int].gold == g,
            final(self).players@[i as int].hand@ == old(self).players@[i as int].hand@,
            forall|j: int| 0 <= j < old(self).players@.len() && j != i
                ==> #[trigger] final(self).players@[j] == old(self).players@[j],
            hands_of(final(self).players@) == hands_of(old(self).players@),
            active_count(final(self).players@) == active_count(old(self).players@),
            gold_of(final(self).players@) == gold_of(old(self).players@) - old(self).players@[i as int].gold + g,
            cards_held(final(self).players@) == cards_held(old(self).players@),
            final(self).controllers == old(self).controllers,
            final(self).deck == old(self).deck,
            final(self).discard == old(self).discard,
            final(self).gold_pool == old(self).gold_pool,
            final(self).turn_count == old(self).turn_count,
            final(self).current_player_index == old(self).current_player_index,
            final(self).consulted == old(self).consulted,
            final(self).offers == old(self).offers,
    {
        let hand = copy_hand(&self.players[i].hand);
        let ghost ps = self.players@;
        let ghost np = Player { gold: g, hand };
        self.replace_player(i, g, hand);
        proof {
            lemma_hands_update(ps, i as int, np);
            lemma_gold_update(ps, i as int, np);
            lemma_active_update(ps, i as int, np);
            lemma_held_update(ps, i as int, np);
            let m = ps[i as int].hand@.to_multiset();
            assert(np.hand@.to_multiset() == m);
            assert forall|c: Class| #[trigger] hands_of(self.players@).count(c) == hands_of(ps).count(c) by {
                assert(hands_of(self.players@).add(m).count(c) == hands_of(ps).add(m).count(c));
            }
            assert(hands_of(self.players@) =~= hands_of(ps));
        }
    }

    /// The actor pays `amount` into the pool.
    fn pay(&mut self, actor: usize, amount: u32)
        requires
            old(self).inv(),
            actor < old(self).players_view().len(),
            old(self).players_view()[actor as int].gold >= amount,
        ensures
            final(self).inv(),
            final(self).cards_out() == old(self).cards_out(),
            final(self).hands_shrink(old(self)),
            final(self).consulted_seats() == old(self).consulted_seats(),
            final(self).same_frame(old(self)),
            final(self).no_revival(old(self)),
            final(self).others_unchanged(old(self), actor as int, actor as int),
            final(self).deck_view() == old(self).deck_view(),
            final(self).players_view()[actor as int].gold == old(self).players_view()[actor as int].gold - amount,
            final(self).players_view()[actor as int].hand@ == old(self).players_view()[actor as int].hand@,
            final(self).pool() == old(self).pool() + amount,
    {
        proof { lemma_gold_bound(self.players@, actor as int); }
        let g = self.players[actor].gold;
        self.set_gold(actor, g - amount);
        self.gold_pool = self.gold_pool + amount;
        proof {
            assert forall|i: int| 0 <= i < self.players@.len() implies #[trigger] self.players@[i].hand@.len() <= 2 by {
                assert(old(self).players@[i].hand@.len() <= 2);
            }
            assert forall|j: int| 0 <= j < old(self).players@.len()
                implies #[trigger] self.players@[j].hand@.len() == old(self).players@[j].hand@.len() by {
                if j != actor as int {
                    assert(self.players@[j] == old(self).players@[j]);
                }
            }
            lemma_shrink_same(old(self), self);
        }
    }

    /// The actor takes `amount` gold from the pool, or all of it if the pool
    /// holds less.
    fn grant(&mut self, actor: usize, amount: u32)
        requires
            old(self).inv(),
            actor < old(self).players_view().len(),
        ensures
            final(self).inv(),
            final(self).cards_out() == old(self).cards_out(),
            final(self).hands_shrink(old(self)),
            final(self).consulted_seats() == old(self).consulted_seats(),
            final(self).same_frame(old(self)),
            final(self).no_revival(old(self)),
            final(self).others_unchanged(old(self), actor as int, actor as int),
            final(self).deck_view() == old(self).deck_view(),
            final(self).players_view()[actor as int].gold == old(self).players_view()[actor as int].gold
                + if amount <= old(self).pool() { amount } else { old(self).pool() },
            final(self).players_view()[actor as int].hand@ == old(self).players_view()[actor as int].hand@,
            final(self).pool() == old(self).pool() - if amount <= old(self).pool() { amount } else { old(self).pool() },
    {
        proof { lemma_gold_bound(self.players@, actor as int); }
        let n = if amount <= self.gold_pool { amount } else { self.gold_pool };
        let g = self.players[actor].gold;
        self.set_gold(actor, g + n);
        self.gold_pool = self.gold_pool - n;
        proof {
            assert forall|i: int| 0 <= i < self.players@.len() implies #[trigger] self.players@[i].hand@.len() <= 2 by {
                assert(old(self).players@[i].hand@.len() <= 2);
            }
            assert forall|j: int| 0 <= j < old(self).players@.len()
                implies #[trigger] self.players@[j].hand@.len() == old(self).players@[j].hand@.len() by {
                if j != actor as int {
                    assert(self.players@[j] == old(self).players@[j]);
                }
            }
            lemma_shrink_same(old(self), self);
        }
    }

    /// The actor takes two gold from `target`, or all it has if less.
    fn steal(&mut self, actor: usize, target: usize)
        requires
            old(self).inv(),
            actor < old(self).players_view().len(),
            target < old(self).players_view().len(),
            actor != target,
        ensures
            final(self).inv(),
            final(self).cards_out() == old(self).cards_out(),
            final(self).hands_shrink(old(self)),
            final(self).consulted_seats() == old(self).consulted_seats(),
            final(self).same_frame(old(self)),
            final(self).no_revival(old(self)),
            final(self).others_unchanged(old(self), actor as int, target as int),
            final(self).deck_view() == old(self).deck_view(),
            final(self).pool() == old(self).pool(),
            final(self).players_view()[actor as int].gold == old(self).players_view()[actor as int].gold
                + if old(self).players_view()[target as int].gold >= 2 { 2 } else { old(self).players_view()[target as int].gold },
            final(self).players_view()[target as int].gold == old(self).players_view()[target as int].gold
                - if old(self).players_view()[target as int].gold >= 2 { 2 } else { old(self).players_view()[target as int].gold },
            final(self).players_view()[actor as int].hand@ == old(self).players_view()[actor as int].hand@,
            final(self).players_view()[target as int].hand@ == old(self).players_view()[target as int].hand@,
    {
        proof { lemma_gold_two(self.players@, actor as int, target as int); }
        let tg = self.players[target].gold;
        let n = if tg >= 2 { 2 } else { tg };
        self.set_gold(target, tg - n);
        let ag = self.players[actor].gold;
        self.set_gold(actor, ag + n);
        proof {
            assert forall|i: int| 0 <= i < self.players@.len() implies #[trigger] self.players@[i].hand@.len() <= 2 by {
                assert(old(self).players@[i].hand@.len() <= 2);
            }
            assert forall|j: int| 0 <= j < old(self).players@.len()
                implies #[trigger] self.players@[j].hand@.len() == old(self).players@[j].hand@.len() by {
                if j != actor as int && j != target as int {
                    assert(self.players@[j] == old(self).players@[j]);
                }
            }
            lemma_shrink_same(old(self), self);
        }
    }
}

impl<C: PlayerController> Engine<C> {
    /// The Ambassador exchange: the actor draws two cards (fewer if the deck
    /// runs short) and keeps as many cards as it held, chosen by its
    /// controller from its hand and the drawn cards; the rest go back to the
    /// deck, which is reshuffled. An inadmissible choice changes no card and
    /// puts the drawn cards back on top as they were.
    #[verifier::rlimit(60)]
    pub fn exchange(&mut self, actor: usize)
        requires
            old(self).inv(),
            old(self).seat_active(actor as int),
        ensures
            final(self).inv(),
            final(self).cards_out() == old(self).cards_out(),
            final(self).hands_shrink(old(self)),
            final(self).consults_active(old(self)),
            final(self).same_frame(old(self)),
            final(self).no_revival(old(self)),
            final(self).golds_unchanged(old(self)),
            final(self).others_unchanged(old(self), actor as int, actor as int),
            final(self).discard_view() == old(self).discard_view(),
            final(self).players_view()[actor as int].hand@.len()
                == old(self).players_view()[actor as int].hand@.len(),
            final(self).deck_view().len() == old(self).deck_view().len(),
            final(self).players_view()[actor as int].hand@.to_multiset().subset_of(
                old(self).players_view()[actor as int].hand@.to_multiset().add(
                    top_two(old(self).deck_view()).to_multiset())),
            final(self).deck_view().to_multiset().add(final(self).players_view()[actor as int].hand@.to_multiset())
                == old(self).deck_view().to_multiset().add(old(self).players_view()[actor as int].hand@.to_multiset()),
            final(self).consulted_seats() == old(self).consulted_seats().push(actor),
            final(self).exchange_offers().drop_last() == old(self).exchange_offers(),
            final(self).exchange_offers().len() == old(self).exchange_offers().len() + 1,
            ({
                let offer = final(self).exchange_offers().last();
                let oh = old(self).players_view()[actor as int].hand@;
                let sel = offer.2;
                &&& offer.0 == oh + top_two(old(self).deck_view()).reverse()
                &&& offer.1 == oh.len()
                &&& (sel.len() == oh.len() && sel.to_multiset().subset_of(offer.0.to_multiset())) ==> {
                    &&& final(self).players_view()[actor as int].hand@ == sel
                    &&& final(self).deck_view().to_multiset().add(sel.to_multiset())
                        == old(self).deck_view().to_multiset().add(oh.to_multiset())
                }
                &&& !(sel.len() == oh.len() && sel.to_multiset().subset_of(offer.0.to_multiset())) ==> {
                    &&& final(self).players_view()[actor as int] == old(self).players_view()[actor as int]
                    &&& final(self).deck_view() == old(self).deck_view()
                }
            }),
    {
        let ghost d0 = self.deck@;
        let ghost ps = self.players@;
        let ghost oh = self.players@[actor as int].hand@;
        let mut drawn: Vec<Class> = Vec::new();
        match self.deck.draw_card() {
            Some(c) => drawn.push(c),
            None => {},
        }
        match self.deck.draw_card() {
            Some(c) => drawn.push(c),
            None => {},
        }
        proof {
            if d0.len() >= 2 {
                assert(drawn@ =~= seq![d0[d0.len() - 1], d0[d0.len() - 2]]);
                assert(self.deck@ =~= d0.subrange(0, d0.len() - 2));
                assert(top_two(d0) =~= seq![d0[d0.len() - 2], d0[d0.len() - 1]]);
                assert(d0 =~= self.deck@.push(d0[d0.len() - 2]).push(d0[d0.len() - 1]));
                assert(drawn@ =~= seq![].push(d0[d0.len() - 1]).push(d0[d0.len() - 2]));
                assert(top_two(d0) =~= seq![].push(d0[d0.len() - 2]).push(d0[d0.len() - 1]));
            } else if d0.len() == 1 {
                assert(drawn@ =~= seq![].push(d0[0]));
                assert(self.deck@ =~= seq![]);
                assert(d0 =~= seq![].push(d0[0]));
            } else {
                assert(drawn@ =~= seq![]);
            }
            assert(drawn@ =~= top_two(d0).reverse());
            assert(drawn@.to_multiset() =~= top_two(d0).to_multiset());
            assert(self.deck@.to_multiset().add(drawn@.to_multiset()) =~= d0.to_multiset());
            assert(self.deck@.len() + drawn@.len() == d0.len());
        }
        let mut candidates = copy_hand(&self.players[actor].hand);
        let mut i: usize = 0;
        while i < drawn.len()
            invariant
                i <= drawn@.len(),
                candidates@ == oh + drawn@.subrange(0, i as int),
            decreases drawn@.len() - i,
        {
            candidates.push(drawn[i]);
            assert(candidates@ =~= oh + drawn@.subrange(0, i + 1));
            i = i + 1;
        }
        proof {
            assert(drawn@.subrange(0, i as int) =~= drawn@);
            vstd::seq_lib::lemma_multiset_commutative(oh, drawn@);
        }
        let keep_count = self.players[actor].hand.len();
        self.consult(actor);
        let keep = self.controllers[actor].select_cards_to_keep(&candidates, keep_count);
        self.offers = Ghost(self.offers@.push((candidates@, keep_count, keep@)));
        let ghost offers_after = self.offers@;
        if is_valid_selection(&candidates, &keep, keep_count) {
            let rest = remainder(&candidates, &keep);
            let gold = self.players[actor].gold;
            let ghost kv = keep@;
            let ghost np = Player { gold, hand: keep };
            self.replace_player(actor, gold, keep);
            let ghost dm = self.deck@;
            self.deck.return_all(&rest);
            proof {
                lemma_hands_update(ps, actor as int, np);
                lemma_gold_update(ps, actor as int, np);
                lemma_active_update(ps, actor as int, np);
                lemma_held_update(ps, actor as int, np);
                let old_all = d0.to_multiset().add(self.discard@.to_multiset()).add(hands_of(ps));
                assert forall|x: Class| #[trigger] self.all_cards().count(x) == old_all.count(x) by {
                    assert(hands_of(self.players@).add(oh.to_multiset()).count(x)
                        == hands_of(ps).add(kv.to_multiset()).count(x));
                    assert(dm.to_multiset().add(drawn@.to_multiset()).count(x) == d0.to_multiset().count(x));
                    assert(kv.to_multiset().count(x) <= candidates@.to_multiset().count(x));
                }
                assert(self.all_cards() =~= old_all);
                assert(self.consulted@.subrange(0, old(self).consulted@.len() as int) =~= old(self).consulted@);
                assert forall|x: Class| #[trigger] self.deck@.to_multiset().add(kv.to_multiset()).count(x)
                    == d0.to_multiset().add(oh.to_multiset()).count(x) by {
                    assert(dm.to_multiset().add(drawn@.to_multiset()).count(x) == d0.to_multiset().count(x));
                    assert(kv.to_multiset().count(x) <= candidates@.to_multiset().count(x));
                }
                assert(self.deck@.to_multiset().add(kv.to_multiset()) =~= d0.to_multiset().add(oh.to_multiset()));
                assert forall|j: int| 0 <= j < ps.len()
                    implies #[trigger] self.players@[j].hand@.len() == ps[j].hand@.len() by {
                    if j != actor as int {
                        assert(self.players@[j] == ps[j]);
                    }
                }
                lemma_shrink_same(old(self), self);
                assert forall|j: int| 0 <= j < self.players@.len() implies #[trigger] self.players@[j].hand@.len() <= 2 by {
                    assert(ps[j].hand@.len() <= 2);
                }
            }
        } else {
            let ghost dm = self.deck@;
            let mut k: usize = drawn.len();
            while k > 0
                invariant
                    k <= drawn@.len(),
                    self.players == old(self).players,
                    self.controllers == old(self).controllers,
                    self.consulted@ == old(self).consulted@.push(actor),
                    self.offers@ == offers_after,
                    self.discard == old(self).discard,
                    self.gold_pool == old(self).gold_pool,
                    self.turn_count == old(self).turn_count,
                    self.current_player_index == old(self).current_player_index,
                    self.deck@ =~= dm + drawn@.subrange(k as int, drawn@.len() as int).reverse(),
                decreases k,
            {
                k = k - 1;
                self.deck.cards.push(drawn[k]);
                assert(drawn@.subrange(k as int, drawn@.len() as int).reverse()
                    =~= drawn@.subrange(k + 1, drawn@.len() as int).reverse().push(drawn@[k as int]));
            }
            proof {
                assert(drawn@.subrange(0, drawn@.len() as int) == drawn@);
                if d0.len() >= 2 {
                    assert(drawn@.reverse() =~= top_two(d0));
                    assert(d0 =~= d0.subrange(0, d0.len() - 2) + top_two(d0));
                } else if d0.len() == 1 {
                    assert(drawn@.reverse() =~= d0);
                }
                assert(self.deck@ =~= d0);
                assert(self.consulted@.subrange(0, old(self).consulted@.len() as int) =~= old(self).consulted@);
                assert(oh.to_multiset().subset_of(oh.to_multiset().add(top_two(d0).to_multiset())));
                lemma_shrink_same(old(self), self);
            }
        }
    }
}

impl<C: PlayerController> Engine<C> {
    /// The first other active seat, in turn order after `claimant`, whose
    /// controller challenges the claim of `role`.
    fn find_challenger(&mut self, claimant: usize, role: Class) -> (r: Option<usize>)
        requires
            old(self).inv(),
            claimant < old(self).players_view().len(),
        ensures
            final(self).inv(),
            final(self).unchanged_but_log(old(self)),
            final(self).consults_active(old(self)),
            final(self).no_revival(old(self)),
            r matches Some(j) ==> j != claimant && final(self).seat_active(j as int),
            r matches Some(j) ==> final(self).consulted_seats().len() > old(self).consulted_seats().len()
                && final(self).consulted_seats().last() == j,
    {
        let n = self.players.len();
        let view = self.view();
        let mut k: usize = 1;
        proof { lemma_consults_same(old(self), self); }
        while k < n
            invariant
                self.inv(),
                self.unchanged_but_log(old(self)),
                self.consults_active(old(self)),
                n == self.players@.len(),
                claimant < n,
                1 <= k <= n,
            decreases n - k,
        {
            let j = if claimant + k < n { claimant + k } else { claimant + k - n };
            if self.players[j].hand.len() > 0 {
                let ghost mid = *self;
                self.consult(j);
                proof { lemma_consults_trans(old(self), &mid, self); }
                if self.controllers[j].decide_challenge(&view, claimant, role) {
                    return Some(j);
                }
            }
            k = k + 1;
        }
        None
    }

    /// The challenge window on `claimant`'s claim of `role`: the first
    /// challenger, if any, is settled by `challenge`.
    pub fn solicit_challenge(&mut self, claimant: usize, role: Class) -> (r: (ChallengeOutcome, Option<usize>))
        requires
            old(self).inv(),
            old(self).seat_active(claimant as int),
        ensures
            final(self).inv(),
            final(self).cards_out() == old(self).cards_out(),
            final(self).hands_shrink(old(self)),
            final(self).consults_active(old(self)),
            final(self).same_frame(old(self)),
            final(self).no_revival(old(self)),
            final(self).golds_unchanged(old(self)),
            r.1 is None <==> r.0 == ChallengeOutcome::NotChallenged,
            r.0 == ChallengeOutcome::NotChallenged ==> final(self).players_view() == old(self).players_view()
                && final(self).deck_view() == old(self).deck_view()
                && final(self).discard_view() == old(self).discard_view(),
            r.1 matches Some(ch) ==> {
                &&& ch != claimant
                &&& old(self).seat_active(ch as int)
                &&& final(self).others_unchanged(old(self), claimant as int, ch as int)
                &&& r.0 == (if old(self).players_view()[claimant as int].hand@.contains(role) {
                    ChallengeOutcome::ChallengeFailed
                } else {
                    ChallengeOutcome::ChallengeSucceeded
                })
                &&& r.0 == ChallengeOutcome::ChallengeFailed ==> {
                    &&& final(self).players_view()[claimant as int].hand@.len()
                        == old(self).players_view()[claimant as int].hand@.len()
                    &&& final(self).players_view()[ch as int].hand@.len()
                        == old(self).players_view()[ch as int].hand@.len() - 1
                }
                &&& r.0 == ChallengeOutcome::ChallengeSucceeded ==> {
                    &&& final(self).players_view()[claimant as int].hand@.len()
                        == old(self).players_view()[claimant as int].hand@.len() - 1
                    &&& final(self).players_view()[ch as int] == old(self).players_view()[ch as int]
                }
            },
    {
        let found = self.find_challenger(claimant, role);
        match found {
            Some(j) => {
                let ghost mid = *self;
                let r = self.challenge(claimant, j, role);
                proof {
                    lemma_step(old(self), &mid, self);
                    lemma_shrink_same(old(self), &mid);
                    lemma_shrink_trans(old(self), &mid, self);
                }
                (r, Some(j))
            },
            None => {
                proof { lemma_shrink_same(old(self), self); }
                (ChallengeOutcome::NotChallenged, None)
            },
        }
    }

    /// The block window: for an assassination only an active target is
    /// asked; for foreign aid and a steal every other active seat is asked in
    /// turn order. A claim of a role that does not block the action counts as
    /// no block.
    fn find_blocker(&mut self, actor: usize, a: Action) -> (r: Option<(usize, Class)>)
        requires
            old(self).inv(),
            actor < old(self).players_view().len(),
        ensures
            final(self).inv(),
            final(self).unchanged_but_log(old(self)),
            !(a is ForeignAid || a is Captain || a is Assassinate) ==> final(self).consulted_seats() == old(self).consulted_seats(),
            final(self).consults_active(old(self)),
            final(self).no_revival(old(self)),
            r matches Some((b, role)) ==> {
                &&& b != actor
                &&& final(self).seat_active(b as int)
                &&& blocks(a, role)
                &&& (a matches Action::Assassinate { target } ==> b == target)
            },
    {
        let n = self.players.len();
        let view = self.view();
        proof { lemma_consults_same(old(self), self); }
        match a {
            Action::ForeignAid | Action::Captain { .. } => {
                let mut k: usize = 1;
                while k < n
                    invariant
                        self.inv(),
                        self.unchanged_but_log(old(self)),
                        self.consults_active(old(self)),
                        n == self.players@.len(),
                        actor < n,
                        1 <= k <= n,
                        a is ForeignAid || a is Captain,
                    decreases n - k,
                {
                    let j = if actor + k < n { actor + k } else { actor + k - n };
                    if self.players[j].hand.len() > 0 {
                        let ghost mid = *self;
                        self.consult(j);
                        proof { lemma_consults_trans(old(self), &mid, self); }
                        match self.controllers[j].decide_block(&view, actor, a) {
                            Some(role) => {
                                if can_block(a, role) {
                                    return Some((j, role));
                                }
                            },
                            None => {},
                        }
                    }
                    k = k + 1;
                }
                None
            },
            Action::Assassinate { target } => {
                if target != actor && target < n && self.players[target].hand.len() > 0 {
                    self.consult(target);
                    match self.controllers[target].decide_block(&view, actor, a) {
                        Some(role) => {
                            if can_block(a, role) {
                                Some((target, role))
                            } else {
                                None
                            }
                        },
                        None => None,
                    }
                } else {
                    None
                }
            },
            _ => None,
        }
    }

    /// Applies the effect of an action that survived its challenge and block
    /// windows. Income gives one gold, foreign aid two, the Duke three (each
    /// capped by the pool); a coup or an assassination costs the target a
    /// card; the Captain steals up to two gold; the Ambassador exchanges.
    fn resolve(&mut self, actor: usize, a: Action)
        requires
            old(self).inv(),
            old(self).seat_active(actor as int),
        ensures
            final(self).inv(),
            final(self).cards_out() == old(self).cards_out(),
            final(self).hands_shrink(old(self)),
            a matches Action::Coup { target } ==> final(self).consulted_only(old(self), target as int, target as int),
            final(self).consults_active(old(self)),
            final(self).same_frame(old(self)),
            final(self).no_revival(old(self)),
            final(self).pool() == old(self).pool() - pool_gain(a, old(self).pool()),
            forall|j: int| 0 <= j < old(self).players_view().len() && j != actor
                && !(a matches Action::Captain { target } && j == target)
                ==> #[trigger] final(self).players_view()[j].gold == old(self).players_view()[j].gold,
            ({
                let before = old(self).players_view();
                let after = final(self).players_view();
                let g = before[actor as int].gold;
                match a {
                    Action::Income => after[actor as int].gold == g + granted(1, old(self).pool()),
                    Action::ForeignAid => after[actor as int].gold == g + granted(2, old(self).pool()),
                    Action::Duke => after[actor as int].gold == g + granted(3, old(self).pool()),
                    Action::Coup { target } | Action::Assassinate { target } => {
                        &&& after[actor as int].gold == g
                        &&& (target != actor && old(self).seat_active(target as int)
                            ==> after[target as int].hand@.len() == before[target as int].hand@.len() - 1)
                    },
                    Action::Captain { target } => target != actor && target < before.len() ==> {
                        let t = before[target as int].gold;
                        let n = if t >= 2 { 2 } else { t };
                        &&& after[actor as int].gold == g + n
                        &&& after[target as int].gold == t - n
                    },
                    Action::Ambassador => {
                        &&& after[actor as int].gold == g
                        &&& after[actor as int].hand@.len() == before[actor as int].hand@.len()
                        &&& final(self).deck_view().len() == old(self).deck_view().len()
                        &&& after[actor as int].hand@.to_multiset().subset_of(
                            before[actor as int].hand@.to_multiset().add(top_two(old(self).deck_view()).to_multiset()))
                    },
                }
            }),
    {
        match a {
            Action::Income => self.grant(actor, 1),
            Action::ForeignAid => self.grant(actor, 2),
            Action::Duke => self.grant(actor, 3),
            Action::Coup { target } | Action::Assassinate { target } => {
                if target != actor && target < self.players.len() && self.players[target].hand.len() > 0 {
                    self.punish(target, actor);
                }
            },
            Action::Captain { target } => {
                if target != actor && target < self.players.len() {
                    self.steal(actor, target);
                }
            },
            Action::Ambassador => self.exchange(actor),
        }
        proof {
            if self.consulted_seats() == old(self).consulted_seats() {
                lemma_consults_same(old(self), self);
            }
            if self.players@ == old(self).players@ && self.discard@ == old(self).discard@ {
                lemma_shrink_same(old(self), self);
            }
        }
    }

    /// Moves the turn to the next active seat after the current one, in
    /// seating order, wrapping round.
    fn advance(&mut self)
        requires
            old(self).inv(),
        ensures
            final(self).wf(),
            final(self).consulted_seats() == old(self).consulted_seats(),
            final(self).players_view() == old(self).players_view(),
            final(self).deck_view() == old(self).deck_view(),
            final(self).discard_view() == old(self).discard_view(),
            final(self).pool() == old(self).pool(),
            final(self).turns() == old(self).turns(),
            final(self).controller_count() == old(self).controller_count(),
            forall|j: int| 0 <= j < final(self).players_view().len()
                && between_cyclic(old(self).current() as int, final(self).current() as int, j)
                ==> !#[trigger] final(self).seat_active(j),
    {
        let n = self.players.len();
        let from = self.current_player_index;
        proof { lemma_active_any(self.players@); }
        let mut j: usize = from + 1;
        while j < n
            invariant
                self.inv(),
                n == self.players@.len(),
                from == self.current_player_index,
                from == old(self).current_player_index,
                self.players == old(self).players,
                self.deck == old(self).deck,
                self.discard == old(self).discard,
                self.gold_pool == old(self).gold_pool,
                self.turn_count == old(self).turn_count,
                self.controllers == old(self).controllers,
                self.consulted == old(self).consulted,
                from < j <= n,
                forall|k: int| from < k < j ==> !#[trigger] self.players@[k].active(),
            decreases n - j,
        {
            if self.players[j].hand.len() > 0 {
                self.current_player_index = j;
                proof {
                    assert forall|m: int| 0 <= m < n && between_cyclic(from as int, j as int, m)
                        implies !#[trigger] self.seat_active(m) by {
                        assert(!self.players@[m].active());
                    }
                }
                return;
            }
            j = j + 1;
        }
        let mut j: usize = 0;
        while j <= from
            invariant
                self.inv(),
                n == self.players@.len(),
                from == self.current_player_index,
                from == old(self).current_player_index,
                self.players == old(self).players,
                self.deck == old(self).deck,
                self.discard == old(self).discard,
                self.gold_pool == old(self).gold_pool,
                self.turn_count == old(self).turn_count,
                self.controllers == old(self).controllers,
                self.consulted == old(self).consulted,
                j <= from + 1,
                forall|k: int| from < k < n ==> !#[trigger] self.players@[k].active(),
                forall|k: int| 0 <= k < j ==> !#[trigger] self.players@[k].active(),
            decreases from + 1 - j,
        {
            if self.players[j].hand.len() > 0 {
                self.current_player_index = j;
                proof {
                    assert forall|m: int| 0 <= m < n && between_cyclic(from as int, j as int, m)
                        implies !#[trigger] self.seat_active(m) by {
                        assert(!self.players@[m].active());
                    }
                }
                return;
            }
            j = j + 1;
        }
        proof {
            lemma_active_any(self.players@);
            let k = choose|k: int| 0 <= k < self.players@.len() && #[trigger] self.players@[k].active();
            if k > from {
                assert(!self.players@[k].active());
            } else {
                assert(!self.players@[k].active());
            }
        }
    }

    /// Plays one turn: the seat to move declares an action (a coup is forced
    /// at ten gold or more), pays its cost, and the action goes through the
    /// challenge window, the block window and the block's challenge window
    /// before it is resolved; then the turn passes to the next active seat.
    /// Returns what happened, or `None` once the game is over.
    pub fn do_turn(&mut self) -> (r: Option<TurnReport>)
        requires
            old(self).wf(),
        ensures
            final(self).wf(),
            final(self).consults_active(old(self)),
            final(self).no_revival(old(self)),
            final(self).hands_shrink(old(self)),
            final(self).cards_out() == old(self).cards_out(),
            final(self).players_view().len() == old(self).players_view().len(),
            old(self).game_over() ==> r.is_none() && final(self).players_view() == old(self).players_view()
                && final(self).current() == old(self).current() && final(self).turns() == old(self).turns(),
            !old(self).game_over() ==> r is Some,
            r matches Some(rep) ==> ({
                let actor = old(self).current() as int;
                let a = rep.action;
                let before = old(self).players_view();
                let after = final(self).players_view();
                &&& old(self).legal(actor, a)
                &&& declared_as(old(self), actor, rep.asked@, a)
                &&& before[actor].gold >= FORCED_COUP_GOLD ==> a is Coup
                &&& a is Income ==> rep.resolved
                // the windows, one after the other
                &&& claimed_role(a) matches Some(role) ==> window_effect(before, rep.after_challenge@, actor, role, rep.challenge, rep.challenger)
                &&& claimed_role(a) is None ==> rep.after_challenge@.len() == before.len()
                    && forall|j: int| 0 <= j < before.len() ==> #[trigger] rep.after_challenge@[j].hand@ == before[j].hand@
                &&& rep.blocker matches Some((b, role)) ==> window_effect(rep.after_challenge@, rep.after_block@, b as int,
                    role, rep.block_challenge, rep.block_challenger)
                &&& rep.blocker is None ==> rep.after_block@.len() == before.len()
                    && forall|j: int| 0 <= j < before.len() ==> #[trigger] rep.after_block@[j].hand@ == rep.after_challenge@[j].hand@
                &&& !rep.resolved ==> forall|j: int| 0 <= j < before.len() ==> #[trigger] after[j].hand@ == rep.after_block@[j].hand@
                // the challenge window on the action's claim
                &&& claimed_role(a) is None ==> rep.challenge == ChallengeOutcome::NotChallenged
                &&& (rep.challenger is None <==> rep.challenge == ChallengeOutcome::NotChallenged)
                &&& rep.challenger matches Some(ch) ==> ch != actor && old(self).seat_active(ch as int)
                &&& rep.challenge == ChallengeOutcome::ChallengeFailed
                    ==> (claimed_role(a) matches Some(role) && before[actor].hand@.contains(role))
                &&& rep.challenge == ChallengeOutcome::ChallengeSucceeded ==> {
                    &&& (claimed_role(a) matches Some(role) && !before[actor].hand@.contains(role))
                    &&& !rep.resolved
                    &&& rep.blocker is None
                    &&& after[actor].hand@.len() == before[actor].hand@.len() - 1
                    &&& forall|j: int| 0 <= j < before.len() && j != actor ==> #[trigger] after[j].hand@ == before[j].hand@
                }
                // the block window
                &&& rep.blocker matches Some((b, role)) ==> {
                    &&& b != actor
                    &&& blocks(a, role)
                    &&& (a matches Action::Assassinate { target } ==> b == target)
                }
                &&& (rep.block_challenger is None <==> rep.block_challenge == ChallengeOutcome::NotChallenged)
                &&& rep.blocker is None ==> rep.block_challenge == ChallengeOutcome::NotChallenged
                &&& (rep.blocker is Some && rep.block_challenge != ChallengeOutcome::ChallengeSucceeded) ==> !rep.resolved
                &&& (rep.blocker is Some && rep.challenge == ChallengeOutcome::NotChallenged
                    && rep.block_challenge == ChallengeOutcome::NotChallenged)
                    ==> forall|j: int| 0 <= j < before.len() ==> #[trigger] after[j].hand@ == before[j].hand@
                // gold: the cost goes to the pool, the effect only if resolved
                &&& final(self).pool() == old(self).pool() + cost(a) - if rep.resolved { pool_gain(a, old(self).pool()) } else { 0 }
                &&& after[actor].gold == before[actor].gold - cost(a) + if rep.resolved {
                    pool_gain(a, old(self).pool()) + match a {
                        Action::Captain { target } => stolen(before[target as int].gold),
                        _ => 0,
                    }
                } else {
                    0
                }
                &&& forall|j: int| 0 <= j < before.len() && j != actor ==> #[trigger] after[j].gold == before[j].gold
                    - if rep.resolved && (a matches Action::Captain { target } && j == target) { stolen(before[j].gold) } else { 0 }
                // a coup always lands, and only the actor and the target are asked
                &&& a matches Action::Coup { target } ==> {
                    &&& rep.resolved
                    &&& final(self).consulted_only(old(self), actor, target as int)
                    &&& after[target as int].hand@.len() == before[target as int].hand@.len() - 1
                }
            }),
            !old(self).game_over() ==> final(self).turns() == (if old(self).turns() < u32::MAX {
                old(self).turns() + 1
            } else {
                old(self).turns() as int
            }),
            !old(self).game_over() ==> forall|j: int| 0 <= j < final(self).players_view().len()
                && between_cyclic(old(self).current() as int, final(self).current() as int, j)
                ==> !#[trigger] final(self).seat_active(j),
    {
        if self.is_over() {
            proof { lemma_consults_same(old(self), self); lemma_shrink_same(old(self), self); }
            return None;
        }
        let actor = self.current_player_index;
        let (action, asked) = self.declare(actor);
        proof { assert(self.no_revival(old(self))); lemma_shrink_same(old(self), self); }
        let ghost mid = *self;
        let price = action_cost(action);
        self.pay(actor, price);
        proof {
            lemma_consults_same(&mid, self);
            lemma_step(old(self), &mid, self);
            lemma_shrink_trans(old(self), &mid, self);
        }
        let ghost paid = *self;
        let mut challenge = ChallengeOutcome::NotChallenged;
        let mut challenger: Option<usize> = None;
        let mut proceed = true;
        match action_claim(action) {
            Some(role) => {
                let ghost mid = *self;
                let (o, c) = self.solicit_challenge(actor, role);
                challenge = o;
                challenger = c;
                if o == ChallengeOutcome::ChallengeSucceeded {
                    proceed = false;
                }
                proof { lemma_step(old(self), &mid, self); lemma_shrink_trans(old(self), &mid, self); }
            },
            None => {},
        }
        let ghost challenged = *self;
        let after_challenge: Ghost<Seq<Player>> = Ghost(self.players@);
        let mut blocker: Option<(usize, Class)> = None;
        let mut block_challenge = ChallengeOutcome::NotChallenged;
        let mut block_challenger: Option<usize> = None;
        if proceed && self.players[actor].hand.len() > 0 {
            let ghost mid = *self;
            let found = self.find_blocker(actor, action);
            proof {
                lemma_step(old(self), &mid, self);
                lemma_shrink_same(&mid, self);
                lemma_shrink_trans(old(self), &mid, self);
            }
            blocker = found;
            match found {
                Some((b, role)) => {
                    let ghost mid = *self;
                    let (o, c) = self.solicit_challenge(b, role);
                    block_challenge = o;
                    block_challenger = c;
                    if o != ChallengeOutcome::ChallengeSucceeded {
                        proceed = false;
                    }
                    proof { lemma_step(old(self), &mid, self); lemma_shrink_trans(old(self), &mid, self); }
                },
                None => {},
            }
        }
        let ghost blocked = *self;
        let after_block: Ghost<Seq<Player>> = Ghost(self.players@);
        let resolved = proceed && self.players[actor].hand.len() > 0;
        if resolved {
            let ghost mid = *self;
            self.resolve(actor, action);
            proof { lemma_step(old(self), &mid, self); lemma_shrink_trans(old(self), &mid, self); }
        }
        proof { assert(self.no_revival(old(self))); }
        let ghost mid = *self;
        if self.turn_count < u32::MAX {
            self.turn_count = self.turn_count + 1;
        }
        self.advance();
        proof {
            assert(self.players_view() == mid.players_view());
            assert forall|j: int| 0 <= j < old(self).players_view().len() && !old(self).seat_active(j)
                implies !#[trigger] self.seat_active(j) by {
                assert(!mid.seat_active(j));
            }
            lemma_consults_same(&mid, self);
            lemma_consults_trans(old(self), &mid, self);
            lemma_shrink_same(&mid, self);
            lemma_shrink_trans(old(self), &mid, self);
        }
        Some(
            TurnReport {
                action,
                asked,
                challenge,
                challenger,
                blocker,
                block_challenge,
                block_challenger,
                after_challenge,
                after_block,
                resolved,
            },
        )
    }
}

impl<C: PlayerController> Engine<C> {
    /// Sets up a game with one seat per controller, dealing from `order`
    /// (its last card is the top of the deck): two cards to each seat in
    /// seating order, first seat first. Each seat starts with two gold from
    /// the pool. Fails unless there are two to six seats and `order` is a
    /// full deck.
    pub fn with_deck_order(controllers: Vec<C>, order: Vec<Class>) -> (r: Result<Engine<C>, EngineError>)
        ensures
            !(MIN_PLAYERS <= controllers@.len() <= MAX_PLAYERS) ==> r == Err::<Engine<C>, EngineError>(EngineError::InvalidPlayerCount),
            MIN_PLAYERS <= controllers@.len() <= MAX_PLAYERS && !is_full_deck(order@)
                ==> r == Err::<Engine<C>, EngineError>(EngineError::InvalidDeck),
            MIN_PLAYERS <= controllers@.len() <= MAX_PLAYERS && is_full_deck(order@)
                ==> (r matches Ok(e) && dealt_from(&e, controllers@.len(), order@)),
    {
        Self::set_up(controllers, order, None)
    }

    /// As `with_deck_order`, and every later reshuffle follows the generator
    /// seeded with `seed`, so a game can be replayed exactly.
    pub fn with_deck_order_seeded(controllers: Vec<C>, order: Vec<Class>, seed: u64) -> (r: Result<Engine<C>, EngineError>)
        ensures
            !(MIN_PLAYERS <= controllers@.len() <= MAX_PLAYERS) ==> r == Err::<Engine<C>, EngineError>(EngineError::InvalidPlayerCount),
            MIN_PLAYERS <= controllers@.len() <= MAX_PLAYERS && !is_full_deck(order@)
                ==> r == Err::<Engine<C>, EngineError>(EngineError::InvalidDeck),
            MIN_PLAYERS <= controllers@.len() <= MAX_PLAYERS && is_full_deck(order@)
                ==> (r matches Ok(e) && dealt_from(&e, controllers@.len(), order@)),
    {
        Self::set_up(controllers, order, Some(seed))
    }

    fn set_up(controllers: Vec<C>, order: Vec<Class>, seed: Option<u64>) -> (r: Result<Engine<C>, EngineError>)
        ensures
            !(MIN_PLAYERS <= controllers@.len() <= MAX_PLAYERS) ==> r == Err::<Engine<C>, EngineError>(EngineError::InvalidPlayerCount),
            MIN_PLAYERS <= controllers@.len() <= MAX_PLAYERS && !is_full_deck(order@)
                ==> r == Err::<Engine<C>, EngineError>(EngineError::InvalidDeck),
            MIN_PLAYERS <= controllers@.len() <= MAX_PLAYERS && is_full_deck(order@)
                ==> (r matches Ok(e) && dealt_from(&e, controllers@.len(), order@)),
    {
        let n = controllers.len();
        if n < MIN_PLAYERS || n > MAX_PLAYERS {
            return Err(EngineError::InvalidPlayerCount);
        }
        let full = Deck::ordered();
        proof {
            if is_complete_set(order@.to_multiset()) {
                assert(order@.to_multiset() =~= full.cards@.to_multiset());
            }
        }
        if order.len() != DECK_SIZE || !same_cards(&order, &full.cards) {
            return Err(EngineError::InvalidDeck);
        }
        let mut deck = match seed {
            Some(sd) => Deck::from_cards_seeded(order, sd),
            None => Deck::from_cards(order),
        };
        let ghost o = deck@;
        let mut players: Vec<Player> = Vec::new();
        let mut i: usize = 0;
        while i < n
            invariant
                MIN_PLAYERS <= n <= MAX_PLAYERS,
                o.len() == DECK_SIZE,
                is_complete_set(o.to_multiset()),
                i <= n,
                players@.len() == i,
                deck@ == o.subrange(0, DECK_SIZE - 2 * i),
                hands_of(players@).add(deck@.to_multiset()) == o.to_multiset(),
                gold_of(players@) == STARTING_GOLD * i,
                active_count(players@) == i,
                forall|k: int| 0 <= k < i ==> {
                    &&& (#[trigger] players@[k]).gold == STARTING_GOLD
                    &&& players@[k].hand@ == seq![o[DECK_SIZE - 1 - 2 * k], o[DECK_SIZE - 2 - 2 * k]]
                },
            decreases n - i,
        {
            let ghost d0 = deck@;
            let c1 = match deck.draw_card() {
                Some(c) => c,
                None => Class::Duke,
            };
            let c2 = match deck.draw_card() {
                Some(c) => c,
                None => Class::Duke,
            };
            let mut hand: Vec<Class> = Vec::new();
            hand.push(c1);
            hand.push(c2);
            let ghost hv = hand@;
            let ghost before = players@;
            players.push(Player { gold: STARTING_GOLD, hand });
            proof {
                assert(players@.drop_last() == before);
                assert(deck@ =~= o.subrange(0, DECK_SIZE - 2 * (i + 1)));
                assert(d0 =~= deck@.push(c2).push(c1));
                assert(hv =~= seq![c1, c2]);
                assert(hv =~= seq![].push(c1).push(c2));
                assert(hands_of(players@) == hands_of(before).add(hv.to_multiset()));
                assert(hands_of(players@).add(deck@.to_multiset()) =~= hands_of(before).add(d0.to_multiset()));
            }
            i = i + 1;
        }
        let mut e = Engine {
            players,
            controllers,
            deck,
            discard: Vec::new(),
            gold_pool: TOTAL_GOLD - STARTING_GOLD * (n as u32),
            turn_count: 0,
            current_player_index: 0,
            consulted: Ghost(Seq::empty()),
            offers: Ghost(Seq::empty()),
        };
        proof {
            assert(e.all_cards() =~= o.to_multiset());
            assert(e.players@[0].active());
        }
        let view = e.view();
        let mut k: usize = 0;
        while k < n
            invariant
                n == e.controllers@.len(),
            decreases n - k,
        {
            e.controllers[k].init(k, &view);
            k = k + 1;
        }
        Ok(e)
    }

    /// Sets up a game with a freshly shuffled deck. Fails unless there are
    /// two to six seats.
    pub fn new(controllers: Vec<C>) -> (r: Result<Engine<C>, EngineError>)
        ensures
            !(MIN_PLAYERS <= controllers@.len() <= MAX_PLAYERS) ==> r == Err::<Engine<C>, EngineError>(EngineError::InvalidPlayerCount),
            MIN_PLAYERS <= controllers@.len() <= MAX_PLAYERS ==> (r matches Ok(e) && {
                let n = controllers@.len();
                &&& e.wf()
                &&& e.players_view().len() == n
                &&& e.pool() == TOTAL_GOLD - STARTING_GOLD * n
                &&& e.turns() == 0
                &&& e.current() == 0
                &&& e.discard_view().len() == 0
                &&& e.deck_view().len() == DECK_SIZE - 2 * n
                &&& forall|i: int| 0 <= i < n ==> {
                    &&& (#[trigger] e.players_view()[i]).gold == STARTING_GOLD
                    &&& e.players_view()[i].hand@.len() == 2
                }
            }),
    {
        let deck = Deck::new();
        Self::with_deck_order(controllers, deck.cards)
    }
}

impl<C> Engine<C> {
    /// The last active seat, once the game is over.
    pub fn winner(&self) -> (r: Option<usize>)
        requires
            self.inv(),
        ensures
            !self.game_over() ==> r.is_none(),
            self.game_over() ==> (r matches Some(w) && self.seat_active(w as int)
                && forall|j: int| 0 <= j < self.players_view().len() && j != w ==> !#[trigger] self.seat_active(j)),
    {
        if self.active_players() > 1 {
            return None;
        }
        proof { lemma_active_any(self.players@); }
        let mut j: usize = 0;
        while j < self.players.len()
            invariant
                self.inv(),
                self.game_over(),
                j <= self.players@.len(),
                forall|k: int| 0 <= k < j ==> !#[trigger] self.players@[k].active(),
            decreases self.players@.len() - j,
        {
            if self.players[j].hand.len() > 0 {
                proof {
                    lemma_active_other(self.players@, j as int);
                    assert forall|m: int| 0 <= m < self.players@.len() && m != j implies !#[trigger] self.seat_active(m) by {
                        if self.players@[m].active() {
                            assert(active_count(self.players@) >= 2);
                        }
                    }
                }
                return Some(j);
            }
            j = j + 1;
        }
        proof {
            let k = choose|k: int| 0 <= k < self.players@.len() && #[trigger] self.players@[k].active();
            assert(!self.players@[k].active());
        }
        None
    }
}

impl<C: PlayerController> Engine<C> {
    /// Plays turns until the game is over or `max_turns` turns have been
    /// played. Returns the winning seat, or `None` if the game is not over.
    pub fn play(&mut self, max_turns: u32) -> (r: Option<usize>)
        requires
            old(self).wf(),
        ensures
            final(self).wf(),
            final(self).players_view().len() == old(self).players_view().len(),
            max_turns == 0 ==> final(self).players_view() == old(self).players_view(),
            r is None <==> !final(self).game_over(),
            r matches Some(w) ==> final(self).seat_active(w as int)
                && forall|j: int| 0 <= j < final(self).players_view().len() && j != w
                    ==> !#[trigger] final(self).seat_active(j),
    {
        let mut t: u32 = 0;
        while t < max_turns && !self.is_over()
            invariant
                self.wf(),
                t <= max_turns,
                self.players_view().len() == old(self).players_view().len(),
                t == 0 ==> self.players_view() == old(self).players_view(),
            decreases max_turns - t,
        {
            self.do_turn();
            t = t + 1;
        }
        self.winner()
    }
}

} // verus!
