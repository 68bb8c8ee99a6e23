use coup_engine::deck::Deck;
use coup_engine::exchange::{is_valid_selection, remainder, same_cards};
use coup_engine::role::{holds, Class};

fn count(cards: &[Class], c: Class) -> usize {
    cards.iter().filter(|x| **x == c).count()
}

const ROLES: [Class; 5] = [Class::Ambassador, Class::Assassin, Class::Captain, Class::Contessa, Class::Duke];

#[test]
fn new_deck_holds_three_of_each() {
    let d = Deck::new();
    assert_eq!(d.len(), 15);
    for c in ROLES {
        assert_eq!(count(&d.cards, c), 3);
    }
}

#[test]
fn ordered_deck_is_grouped() {
    let d = Deck::ordered();
    assert_eq!(d.cards[0], Class::Ambassador);
    assert_eq!(d.cards[14], Class::Duke);
}

#[test]
fn draw_takes_the_top_card() {
    let mut d = Deck::from_cards(vec![Class::Duke, Class::Captain]);
    assert_eq!(d.draw_card(), Some(Class::Captain));
    assert_eq!(d.draw_card(), Some(Class::Duke));
    assert_eq!(d.draw_card(), None);
    assert_eq!(d.len(), 0);
}

#[test]
fn return_card_keeps_every_card() {
    let mut d = Deck::from_cards(vec![Class::Duke, Class::Captain, Class::Duke]);
    d.return_card(Class::Contessa);
    assert_eq!(d.len(), 4);
    assert_eq!(count(&d.cards, Class::Duke), 2);
    assert_eq!(count(&d.cards, Class::Captain), 1);
    assert_eq!(count(&d.cards, Class::Contessa), 1);
}

#[test]
fn shuffle_is_a_permutation() {
    let mut d = Deck::ordered();
    d.shuffle();
    assert_eq!(d.len(), 15);
    for c in ROLES {
        assert_eq!(count(&d.cards, c), 3);
    }
}

#[test]
fn selection_must_fit_the_candidates() {
    let cands = vec![Class::Assassin, Class::Captain, Class::Duke, Class::Duke];
    assert!(is_valid_selection(&cands, &vec![Class::Duke, Class::Duke], 2));
    assert!(is_valid_selection(&cands, &vec![Class::Captain, Class::Assassin], 2));
    assert!(!is_valid_selection(&cands, &vec![Class::Captain, Class::Captain], 2));
    assert!(!is_valid_selection(&cands, &vec![Class::Contessa, Class::Duke], 2));
    assert!(!is_valid_selection(&cands, &vec![Class::Duke], 2));
    assert!(is_valid_selection(&cands, &vec![Class::Duke], 1));
    assert!(!is_valid_selection(&cands, &vec![Class::Duke, Class::Duke, Class::Duke], 3));
}

#[test]
fn remainder_returns_what_is_not_kept() {
    let cands = vec![Class::Assassin, Class::Duke, Class::Captain, Class::Duke];
    let rest = remainder(&cands, &vec![Class::Duke, Class::Assassin]);
    assert_eq!(rest.len(), 2);
    assert_eq!(count(&rest, Class::Duke), 1);
    assert_eq!(count(&rest, Class::Captain), 1);
    let rest = remainder(&cands, &vec![]);
    assert_eq!(rest, cands);
}

#[test]
fn same_cards_ignores_order_but_counts_copies() {
    let a = vec![Class::Duke, Class::Captain, Class::Duke];
    assert!(same_cards(&a, &vec![Class::Captain, Class::Duke, Class::Duke]));
    assert!(!same_cards(&a, &vec![Class::Captain, Class::Duke]));
    assert!(!same_cards(&a, &vec![Class::Captain, Class::Captain, Class::Duke]));
}

#[test]
fn holds_finds_a_role() {
    let h = vec![Class::Contessa, Class::Duke];
    assert!(holds(&h, Class::Duke));
    assert!(!holds(&h, Class::Assassin));
    assert!(!holds(&vec![], Class::Duke));
}

#[test]
fn seeded_shuffles_repeat() {
    let mut a = Deck::from_cards_seeded(Deck::ordered().cards, 7);
    let mut b = Deck::from_cards_seeded(Deck::ordered().cards, 7);
    for _ in 0..3 {
        a.shuffle();
        b.shuffle();
        assert_eq!(a.cards, b.cards);
    }
    for c in ROLES {
        assert_eq!(count(&a.cards, c), 3);
    }
}
