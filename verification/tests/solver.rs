use mulligan_sim::card::{Card, CardPower};
use mulligan_sim::dealer::{CardLocation, Dealer, PlayOrder};
use mulligan_sim::sim::{score_play, Hero, Simulator, REP_BOUND};

fn n(m: i8) -> Card {
    Card { mana: m, power: CardPower::Normal }
}

fn small_sim() -> Simulator {
    let mut sim = Simulator::new(8, 3, 2, 0);
    assert!(sim.dealer.insert_cards(b"1n1"));
    assert!(sim.dealer.insert_cards(b"1n2"));
    assert!(sim.dealer.insert_cards(b"1n3"));
    assert!(sim.dealer.insert_cards(b"10n4"));
    sim
}

#[test]
fn solver_visits_every_pattern() {
    let mut sim = small_sim();
    let mut rng = fastrand::Rng::with_seed(1);
    let (best, report) = sim.solve_mull(vec![0, 1, 2], &mut rng);
    // three distinct cards going first: all eight bit patterns are scored
    assert_eq!(report.len(), 8);
    // the all-mulligan pattern comes first, the all-keep pattern is present
    assert!(report[0].kept_cards.is_empty());
    assert!(report.iter().any(|e| e.kept_cards.len() == 3));
    // the best entry's score is at least every evaluated score
    for e in &report {
        assert!(e.score <= report[best].score);
    }
    // the solver leaves the deck reset
    assert!(sim.dealer.card_location.iter().all(|l| *l == CardLocation::InDeck));
    assert!(sim.hand.is_empty());
}

#[test]
fn solver_skips_value_duplicates() {
    let mut sim = Simulator::new(8, 3, 2, 0);
    assert!(sim.dealer.insert_cards(b"3n2"));
    assert!(sim.dealer.insert_cards(b"10n4"));
    let mut rng = fastrand::Rng::with_seed(2);
    let (_best, report) = sim.solve_mull(vec![0, 1, 2], &mut rng);
    // three equal cards: only kept counts zero to three are distinct
    assert_eq!(report.len(), 4);
}

#[test]
fn driver_is_deterministic_per_seed() {
    let sim = small_sim();
    let mut rng1 = fastrand::Rng::with_seed(5);
    let mut rng2 = fastrand::Rng::with_seed(5);
    let s1 = sim.start_simulation(&vec![0, 1], &mut rng1);
    let s2 = sim.start_simulation(&vec![0, 1], &mut rng2);
    assert_eq!(s1, s2);
    assert!(-REP_BOUND <= s1 && s1 <= REP_BOUND);
}

#[test]
fn future_score_test() {
    let sim = small_sim();
    let hand = vec![n(1), n(2), n(2), n(4)];
    let mut rng = fastrand::Rng::with_seed(3);
    // the deck holds only one two-drop, so this hand cannot be placed
    assert!(sim.play_a_hand(&hand, 5, &mut rng).is_none());
    let hand2 = vec![n(1), n(2), n(3), n(4)];
    let picked = sim.play_a_hand(&hand2, 5, &mut rng).unwrap();
    let coin_free_total: i32 = picked.0.iter().map(|c| c.mana as i32).sum();
    assert!(coin_free_total <= 5);
}

#[test]
fn different_card_power() {
    let mut sim = Simulator::new(8, 3, 2, 0);
    assert!(sim.dealer.insert_cards(b"1n2"));
    assert!(sim.dealer.insert_cards(b"1s2"));
    assert!(sim.dealer.insert_cards(b"1w4"));
    assert!(sim.dealer.insert_cards(b"1s4"));
    assert!(sim.dealer.insert_cards(b"6n9"));
    let hand = vec![
        Card { mana: 2, power: CardPower::Normal },
        Card { mana: 2, power: CardPower::Strong },
        Card { mana: 4, power: CardPower::Weak },
        Card { mana: 4, power: CardPower::Strong },
    ];
    let mut rng = fastrand::Rng::with_seed(4);
    let picked = sim.play_a_hand(&hand, 6, &mut rng).unwrap();
    let total: i32 = picked.0.iter().map(|c| c.mana as i32).sum();
    assert!(total <= 6);
}

#[test]
fn immediate_score_formula() {
    // base ten, minus one per wasted mana, in thousandths
    assert_eq!(score_play(&vec![n(2)], 3, Hero::Warrior, 0), 9000);
    // a waste of two fires the hero power for every hero but the demon hunter
    assert_eq!(score_play(&vec![n(1)], 3, Hero::Mage, 0), 8500);
    assert_eq!(score_play(&vec![n(1)], 3, Hero::Warrior, 0), 8000);
    // the demon hunter fires on a waste of one past the first turn
    assert_eq!(score_play(&vec![n(2)], 3, Hero::DemonHunter, 0), 9500);
    assert_eq!(score_play(&vec![n(0)], 1, Hero::DemonHunter, 0), 9000);
    // tier bonuses: strong up, weak down, half a point each
    assert_eq!(
        score_play(&vec![Card { mana: 2, power: CardPower::Strong }], 2, Hero::Warrior, 0),
        10500
    );
    assert_eq!(
        score_play(&vec![Card { mana: 2, power: CardPower::Weak }], 2, Hero::Warrior, 0),
        9500
    );
    // the per-card play bonus counts once per committed card
    assert_eq!(score_play(&vec![n(1), n(1)], 2, Hero::Warrior, 1), 12000);
    // the coin raises the budget instead of consuming it
    assert_eq!(score_play(&vec![n(5), Card::coin()], 4, Hero::Warrior, 0), 10000);
}

#[test]
fn play_a_turn_keeps_hand_in_step() {
    let mut sim = small_sim();
    let mut rng = fastrand::Rng::with_seed(6);
    assert!(sim.set_start_hand(&vec![0, 1, 2], &mut rng));
    sim.draw_card(&mut rng);
    let score = sim.play_a_turn(1, 2, &mut rng);
    assert!(score > -1200000000 && score < 1200000000);
    let in_hand = sim
        .dealer
        .card_location
        .iter()
        .filter(|l| **l == CardLocation::InHand)
        .count();
    assert_eq!(in_hand, sim.hand.len());
}

#[test]
fn single_eligible_position_is_drawn() {
    let mut d = Dealer::new();
    assert!(d.insert_cards(b"1n5"));
    let mut rng = fastrand::Rng::with_seed(9);
    let pos = Dealer::draw_card(&mut d.card_location, &mut rng);
    assert_eq!(pos, 0);
    assert_eq!(d.card_location[0], CardLocation::InHand);
}

#[test]
fn second_player_setup_gets_the_coin() {
    let mut sim = small_sim();
    sim.reset();
    sim.set_play_order(PlayOrder::Second);
    let mut rng = fastrand::Rng::with_seed(10);
    assert!(sim.set_start_hand(&vec![0, 1], &mut rng));
    // four starting cards plus the coin
    assert_eq!(sim.hand.len(), 5);
    assert_eq!(sim.dealer.cards.iter().filter(|c| c.mana == -1).count(), 1);
}

#[test]
fn archetype_comparisons_cover_the_table() {
    let mut sim = Simulator::new(4, 3, 2, 0);
    assert!(sim.dealer.insert_cards(b"2n1"));
    assert!(sim.dealer.insert_cards(b"2n2"));
    assert!(sim.dealer.insert_cards(b"2n3"));
    assert!(sim.dealer.insert_cards(b"2n4"));
    assert!(sim.dealer.insert_cards(b"1s1"));
    assert!(sim.dealer.insert_cards(b"1s3"));
    assert!(sim.dealer.insert_cards(b"1s4"));
    assert!(sim.dealer.insert_cards(b"5n9"));
    let mut rng = fastrand::Rng::with_seed(11);
    let deltas = sim.sim_common_pattern(&mut rng);
    assert_eq!(deltas.len(), 11);
    assert!(deltas.iter().all(|d| d.is_some()));
}

#[test]
fn archetype_lines_skip_missing_cards() {
    // no one-drops in the deck: the lines that keep a one-drop yield nothing
    let mut sim = Simulator::new(4, 3, 2, 0);
    assert!(sim.dealer.insert_cards(b"3n2"));
    assert!(sim.dealer.insert_cards(b"3n3"));
    assert!(sim.dealer.insert_cards(b"3n4"));
    assert!(sim.dealer.insert_cards(b"1s3"));
    assert!(sim.dealer.insert_cards(b"1s4"));
    assert!(sim.dealer.insert_cards(b"5n9"));
    let mut rng = fastrand::Rng::with_seed(12);
    let deltas = sim.sim_common_pattern(&mut rng);
    assert_eq!(deltas.len(), 11);
    // keeping 1, keeping 1(strong), and having 1 and keeping 3
    assert!(deltas[0].is_none());
    assert!(deltas[1].is_none());
    assert!(deltas[9].is_none());
    // the fully stocked lines still run
    assert!(deltas[2].is_some());
    assert!(deltas[10].is_some());
}
