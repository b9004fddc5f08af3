use mulligan_sim::card::{Card, CardPower};
use mulligan_sim::codec::parse_config;
use mulligan_sim::dealer::{CardLocation, Dealer, PlayOrder};
use mulligan_sim::sim::{Hero, Simulator};

#[test]
fn save_load_round_trip() {
    let mut d = Dealer::new();
    assert!(d.insert_cards(b"2n2"));
    assert!(d.insert_cards(b"1s13"));
    assert!(d.insert_cards(b"1w0"));
    assert!(d.insert_cards(b"1n127"));
    let text = d.save();
    let mut d2 = Dealer::new();
    assert!(d2.load(&text));
    assert_eq!(d.cards, d2.cards);
    assert!(d2.card_location.iter().all(|l| *l == CardLocation::InDeck));
}

#[test]
fn reset_twice_is_reset_once() {
    let mut d = Dealer::new();
    assert!(d.insert_cards(b"5n3"));
    d.adjust_coin(PlayOrder::Second);
    let mut rng = fastrand::Rng::with_seed(7);
    Dealer::draw_card(&mut d.card_location, &mut rng);
    d.reset_deck();
    let cards_once = d.cards.clone();
    let locs_once = d.card_location.clone();
    d.reset_deck();
    assert_eq!(cards_once, d.cards);
    assert_eq!(locs_once, d.card_location);
    assert!(d.cards.iter().all(|c| c.mana != -1));
    assert!(d.card_location.iter().all(|l| *l == CardLocation::InDeck));
}

#[test]
fn adjust_coin_cases() {
    let mut d = Dealer::new();
    assert!(d.insert_cards(b"3n2"));
    d.adjust_coin(PlayOrder::Second);
    assert_eq!(d.cards.iter().filter(|c| c.mana == -1).count(), 1);
    d.adjust_coin(PlayOrder::Second);
    assert_eq!(d.cards.iter().filter(|c| c.mana == -1).count(), 1);
    d.adjust_coin(PlayOrder::First);
    assert_eq!(d.cards.iter().filter(|c| c.mana == -1).count(), 0);
    assert_eq!(d.cards.len(), 3);
}

#[test]
fn card_token_parsing() {
    assert_eq!(Card::create(b"n2"), Some(Card { mana: 2, power: CardPower::Normal }));
    assert_eq!(Card::create(b"s4"), Some(Card { mana: 4, power: CardPower::Strong }));
    assert_eq!(Card::create(b"w12"), Some(Card { mana: 12, power: CardPower::Weak }));
    assert_eq!(Card::create(b"7"), Some(Card { mana: 7, power: CardPower::Normal }));
    assert_eq!(Card::create(b""), None);
    assert_eq!(Card::create(b"s"), None);
    assert_eq!(Card::create(b"x3"), None);
    assert_eq!(Card::create(b"128"), None);
    assert_eq!(Card::create(b"n-1"), None);
}

#[test]
fn repetition_token_parsing() {
    let cards = Card::create_cards(b"3s4").unwrap();
    assert_eq!(cards.len(), 3);
    assert!(cards.iter().all(|c| *c == Card { mana: 4, power: CardPower::Strong }));
    assert_eq!(Card::create_cards(b"s4"), None);
    assert_eq!(Card::create_cards(b"2x3"), None);
    assert_eq!(Card::create_cards(b"2n"), None);
}

#[test]
fn load_failure_clears_deck() {
    let mut d = Dealer::new();
    assert!(d.insert_cards(b"3n2"));
    assert!(!d.load(b"n2 x3"));
    assert_eq!(d.cards.len(), 0);
    assert!(!d.load(b""));
    assert_eq!(d.cards.len(), 0);
}

#[test]
fn fill_deck_to_thirty() {
    let mut d = Dealer::new();
    assert!(d.insert_cards(b"4n2"));
    assert!(d.fill_deck());
    assert_eq!(d.cards.len(), 30);
    assert!(d.cards[4..].iter().all(|c| *c == Card { mana: 9, power: CardPower::Normal }));
    let mut big = Dealer::new();
    assert!(big.insert_cards(b"31n1"));
    assert!(!big.fill_deck());
    assert_eq!(big.cards.len(), 31);
}

#[test]
fn insert_cards_failure_changes_nothing() {
    let mut d = Dealer::new();
    assert!(d.insert_cards(b"2n2"));
    assert!(!d.insert_cards(b"zz"));
    assert_eq!(d.cards.len(), 2);
}

#[test]
fn hero_words() {
    let mut sim = Simulator::new(10, 3, 2, 0);
    assert!(sim.set_hero(b"ma"));
    assert!(matches!(sim.hero, Hero::Mage));
    assert!(sim.set_hero(b"warrior"));
    assert!(matches!(sim.hero, Hero::Warrior));
    assert!(sim.set_hero(b"dh"));
    assert!(matches!(sim.hero, Hero::DemonHunter));
    assert!(!sim.set_hero(b"zz"));
    assert!(matches!(sim.hero, Hero::DemonHunter));
}

#[test]
fn config_parsing() {
    let c = parse_config(b"cycle_reps 100\nmaxturn 6\nmax_search_depth 2\nplay_card_bonus 1")
        .unwrap();
    assert_eq!(c.cycle_reps, 100);
    assert_eq!(c.maxturn, 6);
    assert_eq!(c.max_search_depth, 2);
    assert_eq!(c.play_card_bonus, 1);
    // unrecognized keys are ignored
    let c2 = parse_config(
        b"other 5\ncycle_reps 10\nmaxturn 3\nmax_search_depth 2\nplay_card_bonus -1",
    )
    .unwrap();
    assert_eq!(c2.cycle_reps, 10);
    assert_eq!(c2.play_card_bonus, -1);
    // a missing key refuses the whole configuration
    assert!(parse_config(b"cycle_reps 100\nmaxturn 6\nmax_search_depth 2").is_none());
    // a malformed line refuses it too
    assert!(parse_config(
        b"cycle_reps\nmaxturn 6\nmax_search_depth 2\nplay_card_bonus 1"
    )
    .is_none());
    // a bad value for a recognized key refuses it
    assert!(parse_config(
        b"cycle_reps ten\nmaxturn 6\nmax_search_depth 2\nplay_card_bonus 1"
    )
    .is_none());
}
