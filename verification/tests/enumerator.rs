use mulligan_sim::card::{Card, CardPower};
use mulligan_sim::patterns::{get_all_play_patterns, same_multiset};
use mulligan_sim::sim::Simulator;

fn n(m: i8) -> Card {
    Card { mana: m, power: CardPower::Normal }
}

fn coin() -> Card {
    Card::coin()
}

fn total_mana(p: &Vec<Card>) -> i32 {
    p.iter().filter(|c| c.mana != -1).map(|c| c.mana as i32).sum()
}

fn has_coin(p: &Vec<Card>) -> bool {
    p.iter().any(|c| c.mana == -1)
}

fn contains_ms(plays: &Vec<Vec<Card>>, want: &Vec<Card>) -> bool {
    plays.iter().any(|p| same_multiset(p, want))
}

fn assert_all_distinct(plays: &Vec<Vec<Card>>) {
    for i in 0..plays.len() {
        for j in i + 1..plays.len() {
            assert!(!same_multiset(&plays[i], &plays[j]));
        }
    }
}

#[test]
fn normal_test() {
    let _sim = Simulator::new(100, 6, 2, 1);
    let hand = vec![n(2), n(8), n(8)];
    let all_plays = get_all_play_patterns(&hand, 9, 0);
    assert!(!all_plays.is_empty());
    for p in &all_plays {
        assert!(total_mana(p) <= 9);
    }
    assert_all_distinct(&all_plays);
    assert!(contains_ms(&all_plays, &vec![n(8)]));
    // a non-coin affordable play exists, so "do nothing" is not offered
    assert!(all_plays.iter().all(|p| !p.is_empty()));
}

#[test]
fn coin_test() {
    let _sim = Simulator::new(100, 6, 2, 1);
    let hand = vec![n(4), n(3), n(3), n(2), n(5), coin()];
    let all_plays = get_all_play_patterns(&hand, 4, 0);
    assert!(!all_plays.is_empty());
    for p in &all_plays {
        let budget = if has_coin(p) { 5 } else { 4 };
        assert!(total_mana(p) <= budget);
    }
    assert_all_distinct(&all_plays);
    // a coin-free fallback is always offered
    assert!(all_plays.iter().any(|p| !has_coin(p)));
}

#[test]
fn simple_test() {
    let _sim = Simulator::new(100, 6, 2, 0);
    let hand = vec![n(5), coin()];
    let all_plays = get_all_play_patterns(&hand, 4, 0);
    // the coin raises the budget to five, which the five-drop fully spends
    assert!(contains_ms(&all_plays, &vec![n(5), coin()]));
    // a coin play never leaves unspent mana
    for p in &all_plays {
        if has_coin(p) {
            assert_eq!(total_mana(p), 5);
        }
    }
    assert_eq!(vec![1, 2].sort(), vec![2, 1].sort());
}

#[test]
fn three_small_cards_budget_three() {
    let hand = vec![n(1), n(2), n(3)];
    let all_plays = get_all_play_patterns(&hand, 3, 0);
    assert!(contains_ms(&all_plays, &vec![n(1), n(2)]));
    assert!(contains_ms(&all_plays, &vec![n(3)]));
    assert!(all_plays.iter().all(|p| !p.is_empty()));
}

#[test]
fn zero_cost_cards_always_played() {
    let hand = vec![n(0), n(2)];
    let all_plays = get_all_play_patterns(&hand, 1, 0);
    assert!(!all_plays.is_empty());
    for p in &all_plays {
        assert!(p.iter().filter(|c| c.mana == 0).count() == 1);
    }
}

#[test]
fn empty_hand_offers_doing_nothing() {
    let hand: Vec<Card> = Vec::new();
    let all_plays = get_all_play_patterns(&hand, 5, 0);
    assert_eq!(all_plays.len(), 1);
    assert!(all_plays[0].is_empty());
}
