//! The simulator: scoring of candidate patterns, the sampled depth-limited
//! turn evaluator, the Monte Carlo repetition driver, and the mulligan
//! solver. Scores are fixed-point integers in thousandths of a point, so a
//! tier bonus of half a point is 500.

use vstd::prelude::*;
use vstd::multiset::Multiset;
use vstd::multiset::group_multiset_axioms;
use vstd::seq_lib::group_to_multiset_ensures;
use crate::card::{Card, CardPower, is_coin, coin_spec};
use crate::dealer::{CardLocation, Dealer, PlayOrder, DECK_CAP, count_loc, loc_of, strip_coins,
    lemma_count_loc_update, lemma_loc_of_update, lemma_loc_of_contains,
    lemma_loc_of_sub, lemma_strip_coins_wf, lemma_strip_coins_idempotent};
use crate::patterns::{hand_wf, coin_count, coin_bonus, sum_mana, get_all_play_patterns,
    all_ok, pattern_ok, fits_budget, lemma_hand_wf_sub, lemma_coin_count_push,
    lemma_sum_mana_push, lemma_coin_count_is_count, same_multiset};
use crate::seqs::{copy_vec, lemma_swap_remove_multiset, lemma_submultiset_len,
    lemma_subset_transitive};

verus! {

broadcast use group_to_multiset_ensures, group_multiset_axioms;

/// The hero selects the mana-efficiency bonus value.
#[derive(Clone, Copy, PartialEq, Eq, Structural, Debug)]
pub enum Hero {
    Warrior,
    Priest,
    Hunter,
    Warlock,
    Mage,
    Rogue,
    Shaman,
    Paladin,
    DemonHunter,
    Druid,
}

impl Hero {
    /// The hero-power bonus, in thousandths of a point.
    pub open spec fn hero_power_value_spec(self) -> int {
        match self {
            Hero::Warrior => 0,
            Hero::Priest => 0,
            Hero::Hunter => 0,
            Hero::Warlock => 0,
            Hero::Mage => 500,
            Hero::Rogue => 1200,
            Hero::Shaman => 800,
            Hero::Paladin => 1000,
            Hero::DemonHunter => 500,
            Hero::Druid => 500,
        }
    }

    pub fn hero_power_value(&self) -> (r: i64)
        ensures
            r == self.hero_power_value_spec(),
    {
        match self {
            Hero::Warrior => 0,
            Hero::Priest => 0,
            Hero::Hunter => 0,
            Hero::Warlock => 0,
            Hero::Mage => 500,
            Hero::Rogue => 1200,
            Hero::Shaman => 800,
            Hero::Paladin => 1000,
            Hero::DemonHunter => 500,
            Hero::Druid => 500,
        }
    }
}

/// Tier bonus of a committed card, in thousandths: strong half a point up,
/// weak half a point down.
pub open spec fn tier_value(p: CardPower) -> int {
    match p {
        CardPower::Strong => 500,
        CardPower::Normal => 0,
        CardPower::Weak => -500,
    }
}

/// Immediate value of committing one card: its tier bonus plus the constant
/// per-card play bonus from configuration.
pub open spec fn card_play_value(c: Card, bonus: i8) -> int {
    tier_value(c.power) + bonus * 1000
}

/// Summed play value of a whole pattern.
pub open spec fn pattern_play_value(s: Seq<Card>, bonus: i8) -> int
    decreases s.len(),
{
    if s.len() == 0 {
        0
    } else {
        pattern_play_value(s.drop_last(), bonus) + card_play_value(s.last(), bonus)
    }
}

/// Whether the hero power fires: for the demon hunter a waste of one on any
/// turn but the first, for every other hero a waste of exactly two.
pub open spec fn hero_power_fires(hero: Hero, waste: int, mana: int) -> bool {
    (hero == Hero::DemonHunter && waste == 1 && mana != 1) || (hero != Hero::DemonHunter && waste
        == 2)
}

/// The immediate score of one candidate pattern at a mana budget: a
/// baseline of ten points, minus a point per unspent mana (the coin raises
/// the budget by one rather than consuming any), plus the hero bonus when
/// the waste matches the hero's threshold, plus every committed card's
/// play value.
pub open spec fn immediate_score(play: Seq<Card>, mana: int, hero: Hero, bonus: i8) -> int {
    let waste = mana + coin_bonus(play) - sum_mana(play);
    10000 - waste * 1000 + (if hero_power_fires(hero, waste, mana) {
        hero.hero_power_value_spec()
    } else {
        0
    }) + pattern_play_value(play, bonus)
}

/// The largest magnitude an immediate score can take on a capped deck.
pub const IMMEDIATE_BOUND: i64 = 1200000000;

/// The largest magnitude a lookahead score can take at a given depth.
pub open spec fn score_bound(depth: int) -> int {
    if depth <= 1 {
        IMMEDIATE_BOUND as int
    } else {
        (IMMEDIATE_BOUND as int) * depth
    }
}

proof fn lemma_pattern_play_value_bound(s: Seq<Card>, bonus: i8)
    ensures
        -129000 * s.len() <= pattern_play_value(s, bonus) <= 129000 * s.len(),
    decreases s.len(),
{
    if s.len() > 0 {
        lemma_pattern_play_value_bound(s.drop_last(), bonus);
    }
}

proof fn lemma_sum_mana_bounds(s: Seq<Card>)
    requires
        forall|i: int| 0 <= i < s.len() ==> (#[trigger] s[i]).mana >= -1,
    ensures
        0 <= sum_mana(s) <= 127 * s.len(),
    decreases s.len(),
{
    if s.len() > 0 {
        assert(forall|i: int| 0 <= i < s.drop_last().len()
            ==> (#[trigger] s.drop_last()[i]).mana >= -1) by {
            assert(forall|i: int| 0 <= i < s.drop_last().len()
                ==> s.drop_last()[i] == s[i]);
        }
        lemma_sum_mana_bounds(s.drop_last());
    }
}

/// The immediate score of a pattern stays well within the 64-bit range.
proof fn lemma_immediate_score_bound(play: Seq<Card>, mana: int, hero: Hero, bonus: i8)
    requires
        play.len() <= DECK_CAP,
        forall|i: int| 0 <= i < play.len() ==> (#[trigger] play[i]).mana >= -1,
        -128 <= mana <= 127,
    ensures
        -IMMEDIATE_BOUND < immediate_score(play, mana, hero, bonus) < IMMEDIATE_BOUND,
{
    lemma_pattern_play_value_bound(play, bonus);
    lemma_sum_mana_bounds(play);
}

/// Computes the immediate score of one pattern, exactly as specified.
pub fn score_play(play: &Vec<Card>, mana: i8, hero: Hero, bonus: i8) -> (r: i64)
    requires
        play@.len() <= DECK_CAP,
        forall|i: int| 0 <= i < play@.len() ==> (#[trigger] play@[i]).mana >= -1,
    ensures
        r == immediate_score(play@, mana as int, hero, bonus),
        -IMMEDIATE_BOUND < r < IMMEDIATE_BOUND,
{
    let mut sum: i64 = 0;
    let mut pv: i64 = 0;
    let mut has_coin = false;
    let mut i: usize = 0;
    while i < play.len()
        invariant
            i <= play@.len(),
            play@.len() <= DECK_CAP,
            forall|t: int| 0 <= t < play@.len() ==> (#[trigger] play@[t]).mana >= -1,
            sum == sum_mana(play@.take(i as int)),
            0 <= sum <= 127 * i,
            pv == pattern_play_value(play@.take(i as int), bonus),
            -129000 * i <= pv <= 129000 * i,
            has_coin == (coin_count(play@.take(i as int)) > 0),
            coin_count(play@.take(i as int)) >= 0,
        decreases play@.len() - i,
    {
        proof {
            broadcast use lemma_sum_mana_push, lemma_coin_count_push;

            assert(play@.take(i as int + 1) =~= play@.take(i as int).push(play@[i as int]));
            assert(pattern_play_value(play@.take(i as int).push(play@[i as int]), bonus)
                == pattern_play_value(play@.take(i as int), bonus)
                + card_play_value(play@[i as int], bonus)) by {
                assert(play@.take(i as int).push(play@[i as int]).drop_last()
                    =~= play@.take(i as int));
            }
        }
        let c = play[i];
        if c.is_coin() {
            has_coin = true;
        } else {
            sum = sum + c.mana as i64;
        }
        let tier: i64 = match c.power {
            CardPower::Strong => 500,
            CardPower::Normal => 0,
            CardPower::Weak => -500,
        };
        pv = pv + tier + (bonus as i64) * 1000;
        i += 1;
    }
    proof {
        assert(play@.take(play@.len() as int) =~= play@);
    }
    let waste: i64 = (mana as i64) + (if has_coin {
        1i64
    } else {
        0i64
    }) - sum;
    let mut r: i64 = 10000 - waste * 1000;
    let fires = (matches!(hero, Hero::DemonHunter) && waste == 1 && mana != 1i8) || (!matches!(hero,
        Hero::DemonHunter) && waste == 2);
    if fires {
        r = r + hero.hero_power_value();
    }
    r = r + pv;
    proof {
        lemma_immediate_score_bound(play@, mana as int, hero, bonus);
    }
    r
}

/// Truncated division of a score: the quotient of the magnitudes with the
/// sign put back, as machine division rounds toward zero.
pub open spec fn div_scores(a: int, b: int) -> int {
    if a >= 0 {
        a / b
    } else {
        -((-a) / b)
    }
}

/// Divides a score sum by a positive count, rounding toward zero.
pub fn score_div(a: i64, b: i64) -> (r: i64)
    requires
        b > 0,
        a > i64::MIN,
    ensures
        r == div_scores(a as int, b as int),
        a >= 0 ==> 0 <= r <= a,
        a < 0 ==> a <= r <= 0,
{
    if a >= 0 {
        let q = (a as u64) / (b as u64);
        proof {
            assert(q <= a as u64) by (nonlinear_arith)
                requires
                    q == (a as u64) / (b as u64),
                    b as u64 >= 1,
            {}
        }
        q as i64
    } else {
        let m = (-a) as u64;
        let q = m / (b as u64);
        proof {
            assert(q <= m) by (nonlinear_arith)
                requires
                    q == m / (b as u64),
                    b as u64 >= 1,
            {}
        }
        -(q as i64)
    }
}

/// The simulator: the deck, the running hand (as deck positions), the
/// cumulative score, and the session configuration.
pub struct Simulator {
    pub cycle_reps: i32,
    pub dealer: Dealer,
    pub hand: Vec<usize>,
    pub score: i64,
    pub maxturn: u8,
    pub max_search_depth: u8,
    pub hero: Hero,
    pub play_order: PlayOrder,
    pub play_card_bonus: i8,
}

impl Simulator {
    /// The hand mirrors the in-hand location tags exactly: a position is
    /// listed once in the hand if and only if its tag is in-hand.
    pub open spec fn hand_sync(self) -> bool {
        &&& forall|p: int| 0 <= p < self.dealer.card_location@.len()
            ==> ((#[trigger] self.dealer.card_location@[p]) == CardLocation::InHand
                <==> self.hand@.to_multiset().count(p as usize) > 0)
        &&& forall|t: int| 0 <= t < self.hand@.len()
            ==> (#[trigger] self.hand@[t]) < self.dealer.card_location@.len()
        &&& forall|x: usize| #[trigger] self.hand@.to_multiset().count(x) <= 1
    }

    /// Configuration within the ranges the score arithmetic needs.
    pub open spec fn config_wf(self) -> bool {
        &&& 1 <= self.cycle_reps <= 100000
        &&& 1 <= self.maxturn
        &&& self.maxturn as int + self.max_search_depth as int <= 126
    }

    pub open spec fn wf(self) -> bool {
        &&& self.dealer.wf()
        &&& self.hand_sync()
        &&& self.config_wf()
    }

    /// Every configuration field but the deck and the hand.
    pub open spec fn same_config(self, other: Simulator) -> bool {
        &&& self.cycle_reps == other.cycle_reps
        &&& self.maxturn == other.maxturn
        &&& self.max_search_depth == other.max_search_depth
        &&& self.hero == other.hero
        &&& self.play_order == other.play_order
        &&& self.play_card_bonus == other.play_card_bonus
    }

    pub fn new(cycle_reps: i32, maxturn: u8, max_search_depth: u8, play_card_bonus: i8) -> (r:
        Simulator)
        requires
            1 <= cycle_reps <= 100000,
            1 <= maxturn,
            maxturn as int + max_search_depth as int <= 126,
        ensures
            r.wf(),
            r.cycle_reps == cycle_reps,
            r.maxturn == maxturn,
            r.max_search_depth == max_search_depth,
            r.play_card_bonus == play_card_bonus,
            r.hero == Hero::Warrior,
            r.play_order == PlayOrder::First,
            r.dealer.cards@.len() == 0,
            r.hand@.len() == 0,
            r.score == 10000,
    {
        Simulator {
            cycle_reps,
            dealer: Dealer::new(),
            hand: Vec::new(),
            score: 10000,
            maxturn,
            hero: Hero::Warrior,
            max_search_depth,
            play_order: PlayOrder::First,
            play_card_bonus,
        }
    }

    /// An independent deep copy, as each simulation repetition owns one.
    pub fn duplicate(&self) -> (r: Simulator)
        ensures
            r.dealer.cards@ == self.dealer.cards@,
            r.dealer.card_location@ == self.dealer.card_location@,
            r.hand@ == self.hand@,
            r.score == self.score,
            r.same_config(*self),
    {
        Simulator {
            cycle_reps: self.cycle_reps,
            dealer: self.dealer.duplicate(),
            hand: copy_vec(&self.hand),
            score: self.score,
            maxturn: self.maxturn,
            hero: self.hero,
            max_search_depth: self.max_search_depth,
            play_order: self.play_order,
            play_card_bonus: self.play_card_bonus,
        }
    }

    /// Clears everything, the deck included.
    pub fn clear(&mut self)
        requires
            old(self).wf(),
        ensures
            final(self).wf(),
            final(self).score == 0,
            final(self).play_order == PlayOrder::First,
            final(self).hand@.len() == 0,
            final(self).dealer.cards@.len() == 0,
            final(self).cycle_reps == old(self).cycle_reps,
            final(self).maxturn == old(self).maxturn,
            final(self).max_search_depth == old(self).max_search_depth,
            final(self).hero == old(self).hero,
            final(self).play_card_bonus == old(self).play_card_bonus,
    {
        self.score = 0;
        self.play_order = PlayOrder::First;
        self.hand = Vec::new();
        self.dealer.clear();
    }

    /// Resets the hand and deck to start a fresh trial of the same deck:
    /// everything back in the deck, the coin stripped out.
    pub fn reset(&mut self)
        requires
            old(self).wf(),
        ensures
            final(self).wf(),
            final(self).dealer.cards@ == strip_coins(old(self).dealer.cards@),
            final(self).hand@.len() == 0,
            forall|i: int| 0 <= i < final(self).dealer.card_location@.len()
                ==> final(self).dealer.card_location@[i] == CardLocation::InDeck,
            count_loc(final(self).dealer.card_location@, CardLocation::InDeck)
                == final(self).dealer.cards@.len(),
            coin_count(final(self).dealer.cards@) == 0,
            final(self).score == old(self).score,
            final(self).same_config(*old(self)),
    {
        self.dealer.reset_deck();
        self.hand = Vec::new();
        proof {
            assert forall|x: usize| #[trigger] self.hand@.to_multiset().count(x) <= 1 by {
                assert(self.hand@.to_multiset().len() == 0);
            }
        }
    }

    /// Draws a random card from the deck into the hand.
    pub fn draw_card(&mut self, rng: &mut fastrand::Rng) -> (pos: usize)
        requires
            old(self).wf(),
            count_loc(old(self).dealer.card_location@, CardLocation::InDeck) > 0,
        ensures
            final(self).wf(),
            final(self).dealer.cards@ == old(self).dealer.cards@,
            pos < old(self).dealer.card_location@.len(),
            old(self).dealer.card_location@[pos as int] == CardLocation::InDeck,
            final(self).dealer.card_location@
                == old(self).dealer.card_location@.update(pos as int, CardLocation::InHand),
            final(self).hand@ == old(self).hand@.push(pos),
            count_loc(final(self).dealer.card_location@, CardLocation::InDeck)
                == count_loc(old(self).dealer.card_location@, CardLocation::InDeck) - 1,
            final(self).score == old(self).score,
            final(self).same_config(*old(self)),
    {
        let pos = Dealer::draw_card(&mut self.dealer.card_location, rng);
        let ghost oldhand = self.hand@;
        self.hand.push(pos);
        proof {
            lemma_count_loc_update(old(self).dealer.card_location@, pos as int,
                CardLocation::InHand, CardLocation::InDeck);
            assert(oldhand.to_multiset().count(pos) == 0) by {
                assert(old(self).dealer.card_location@[pos as int] == CardLocation::InDeck);
            }
            assert(self.hand@.to_multiset() == oldhand.to_multiset().insert(pos));
            assert forall|p: int| 0 <= p < self.dealer.card_location@.len() implies
                ((#[trigger] self.dealer.card_location@[p]) == CardLocation::InHand
                    <==> self.hand@.to_multiset().count(p as usize) > 0) by {
                if p == pos as int {
                } else {
                    assert(self.dealer.card_location@[p]
                        == old(self).dealer.card_location@[p]);
                    assert(self.hand@.to_multiset().count(p as usize)
                        == oldhand.to_multiset().count(p as usize));
                }
            }
            assert forall|x: usize| #[trigger] self.hand@.to_multiset().count(x) <= 1 by {
                if x != pos {
                    assert(self.hand@.to_multiset().count(x)
                        == oldhand.to_multiset().count(x));
                }
            }
            assert forall|t: int| 0 <= t < self.hand@.len() implies (#[trigger] self.hand@[t])
                < self.dealer.card_location@.len() by {
                if t < oldhand.len() {
                    assert(self.hand@[t] == oldhand[t]);
                }
            }
        }
        pos
    }

    /// Declares the play order on a freshly reset deck, adding or removing
    /// the coin to match: the side on the draw owns the coin.
    pub fn set_play_order(&mut self, order: PlayOrder)
        requires
            old(self).wf(),
            old(self).dealer.cards@.len() < DECK_CAP,
            old(self).hand@.len() == 0,
            forall|i: int| 0 <= i < old(self).dealer.card_location@.len()
                ==> old(self).dealer.card_location@[i] == CardLocation::InDeck,
        ensures
            final(self).wf(),
            final(self).play_order == order,
            coin_count(final(self).dealer.cards@) == (if order == PlayOrder::Second {
                1int
            } else {
                0int
            }),
            final(self).hand@.len() == 0,
            forall|i: int| 0 <= i < final(self).dealer.card_location@.len()
                ==> final(self).dealer.card_location@[i] == CardLocation::InDeck,
            final(self).score == old(self).score,
            final(self).cycle_reps == old(self).cycle_reps,
            final(self).maxturn == old(self).maxturn,
            final(self).max_search_depth == old(self).max_search_depth,
            final(self).hero == old(self).hero,
            final(self).play_card_bonus == old(self).play_card_bonus,
    {
        self.play_order = order;
        self.dealer.adjust_coin(order);
        proof {
            let oldd = old(self).dealer;
            lemma_coin_count_is_count(oldd.cards@);
            assert(coin_count(oldd.cards@) >= 0);
            assert forall|i: int| 0 <= i < self.dealer.card_location@.len() implies
                self.dealer.card_location@[i] == CardLocation::InDeck by {
                if order == PlayOrder::Second {
                    if coin_count(oldd.cards@) == 0 {
                        assert(self.dealer.card_location@
                            == oldd.card_location@.push(CardLocation::InDeck));
                        if i < oldd.card_location@.len() {
                            assert(self.dealer.card_location@[i] == oldd.card_location@[i]);
                        }
                    } else {
                        assert(self.dealer == oldd);
                    }
                } else {
                    if coin_count(oldd.cards@) > 0 {
                        let p = choose|p: int| 0 <= p < oldd.cards@.len()
                            && is_coin(#[trigger] oldd.cards@[p])
                            && self.dealer.cards@ == oldd.cards@.update(p,
                                oldd.cards@.last()).drop_last()
                            && self.dealer.card_location@ == oldd.card_location@.update(p,
                                oldd.card_location@.last()).drop_last();
                        assert(self.dealer.card_location@[i]
                            == oldd.card_location@.update(p, oldd.card_location@.last())[i]);
                    } else {
                        assert(self.dealer == oldd);
                    }
                }
            }
            assert forall|p: int| 0 <= p < self.dealer.card_location@.len() implies
                ((#[trigger] self.dealer.card_location@[p]) == CardLocation::InHand
                    <==> self.hand@.to_multiset().count(p as usize) > 0) by {
                assert(self.hand@.to_multiset().len() == 0);
            }
            assert forall|x: usize| #[trigger] self.hand@.to_multiset().count(x) <= 1 by {
                assert(self.hand@.to_multiset().len() == 0);
            }
        }
    }

    /// The candidate patterns the evaluator weighs for a location view: the
    /// full enumeration of the cards in hand there, at the turn's budget.
    pub open spec fn turn_candidates(self, view: Seq<CardLocation>, mana: i8) -> Seq<
        Seq<Card>,
    > {
        crate::patterns::enumerate_spec(loc_of(self.dealer.cards@, view,
            CardLocation::InHand), mana as int, 0)
    }

    /// Every value the evaluator can return for a view, recursively: the
    /// minus-ten-point floor of the empty play, or — at the last depth — a
    /// candidate's immediate score, or otherwise a candidate's immediate
    /// score plus the truncated mean of ten sampled one-draw-ahead
    /// evaluations on a view holding the hand less that candidate's cards.
    pub open spec fn possible_turn_value(self, v: int, view: Seq<CardLocation>, mana: i8,
        depth: u8) -> bool
        decreases depth as int, 0int,
    {
        ||| v == -10000
        ||| (depth <= 1 && exists|i: int| 0 <= i < self.turn_candidates(view, mana).len()
            && v == immediate_score(#[trigger] self.turn_candidates(view, mana)[i],
                mana as int, self.hero, self.play_card_bonus))
        ||| (depth > 1 && exists|i: int, pview: Seq<CardLocation>, ts: Seq<int>|
            #![trigger self.turn_candidates(view, mana)[i], pview.len(), ts.len()]
            0 <= i < self.turn_candidates(view, mana).len()
            && pview.len() == view.len()
            && ts.len() == 10
            && loc_of(self.dealer.cards@, pview, CardLocation::InHand).to_multiset().add(
                self.turn_candidates(view, mana)[i].to_multiset())
                == loc_of(self.dealer.cards@, view, CardLocation::InHand).to_multiset()
            && count_loc(pview, CardLocation::InDeck)
                == count_loc(view, CardLocation::InDeck)
            && self.samples_ok(ts, pview, (mana + 1) as i8, (depth - 1) as u8)
            && v == immediate_score(self.turn_candidates(view, mana)[i], mana as int,
                self.hero, self.play_card_bonus) + div_scores(sum_of(ts), 10))
    }

    /// Each listed value is one sampled continuation: a one-draw-ahead
    /// evaluation of the base view, at the next turn's budget and the next,
    /// shallower depth.
    pub open spec fn samples_ok(self, ts: Seq<int>, base: Seq<CardLocation>, nmana: i8,
        ndepth: u8) -> bool
        decreases ndepth as int, 5int,
    {
        forall|j: int| 0 <= j < ts.len() ==> exists|pos: int|
            0 <= pos < base.len() && (#[trigger] base[pos]) == CardLocation::InDeck
            && self.possible_turn_value(#[trigger] ts[j],
                base.update(pos, CardLocation::InHand), nmana, ndepth)
    }

    /// Scores every candidate pattern for this turn's hand: immediate value
    /// plus the average of ten sampled one-draw-ahead continuations, and
    /// returns the best pattern with its score. Ties keep the first maximal
    /// pattern; where every total falls below the floor of minus ten points,
    /// the empty play stands with that floor as its score. Works on a
    /// hypothetical location view and changes nothing but the random source.
    pub fn evaluate_turn(&self, view: &Vec<CardLocation>, mana: i8, depth: u8,
        rng: &mut fastrand::Rng) -> (r: (Vec<Card>, i64))
        requires
            self.dealer.wf(),
            view@.len() == self.dealer.cards@.len(),
            1 <= mana,
            mana as int + depth as int <= 126,
            count_loc(view@, CardLocation::InDeck) >= depth as int - 1,
        ensures
            r.0@.to_multiset().subset_of(loc_of(self.dealer.cards@, view@,
                CardLocation::InHand).to_multiset()),
            fits_budget(r.0@, mana),
            -score_bound(depth as int) <= r.1 <= score_bound(depth as int),
            (r.0@ =~= Seq::<Card>::empty() && r.1 == -10000) || exists|i: int|
                0 <= i < self.turn_candidates(view@, mana).len()
                && (#[trigger] self.turn_candidates(view@, mana)[i]) == r.0@,
            depth <= 1 ==> (forall|i: int| 0 <= i < self.turn_candidates(view@, mana).len()
                ==> immediate_score(#[trigger] self.turn_candidates(view@, mana)[i],
                    mana as int, self.hero, self.play_card_bonus) <= r.1),
            depth <= 1 ==> ((r.0@ =~= Seq::<Card>::empty() && r.1 == -10000)
                || exists|i: int| 0 <= i < self.turn_candidates(view@, mana).len()
                    && (#[trigger] self.turn_candidates(view@, mana)[i]) == r.0@
                    && r.1 == immediate_score(r.0@, mana as int, self.hero,
                        self.play_card_bonus)
                    && (forall|j: int| 0 <= j < i ==> immediate_score(
                        #[trigger] self.turn_candidates(view@, mana)[j], mana as int,
                        self.hero, self.play_card_bonus) < r.1)),
            depth > 1 ==> ((r.0@ =~= Seq::<Card>::empty() && r.1 == -10000)
                || exists|fsum: int|
                    -(score_bound(depth as int - 1) * 10) <= fsum
                        <= score_bound(depth as int - 1) * 10
                    && r.1 == immediate_score(r.0@, mana as int, self.hero,
                        self.play_card_bonus) + #[trigger] div_scores(fsum, 10)),
            self.possible_turn_value(r.1 as int, view@, mana, depth),
        decreases depth,
    {
        let hand = self.dealer.get_hand(view);
        proof {
            lemma_loc_of_sub(self.dealer.cards@, view@, CardLocation::InHand);
            lemma_hand_wf_sub(hand@, self.dealer.cards@);
            lemma_submultiset_len(hand@.to_multiset(), self.dealer.cards@.to_multiset());
        }
        let all_plays = get_all_play_patterns(&hand, mana, 0i8);
        let ghost cand = self.turn_candidates(view@, mana);
        proof {
            assert(cand == crate::patterns::views_of(all_plays@));
        }
        let mut best: Vec<Card> = Vec::new();
        let mut max_score: i64 = -10000;
        let ghost mut besti: int = 0;
        proof {
            assert(best@.to_multiset().len() == 0);
            assert forall|x: Card| best@.to_multiset().count(x)
                <= hand@.to_multiset().count(x) by {}
            assert(self.possible_turn_value(-10000, view@, mana, depth));
        }
        let mut pi: usize = 0;
        while pi < all_plays.len()
            invariant
                self.dealer.wf(),
                view@.len() == self.dealer.cards@.len(),
                1 <= mana,
                mana as int + depth as int <= 126,
                count_loc(view@, CardLocation::InDeck) >= depth as int - 1,
                hand@ == loc_of(self.dealer.cards@, view@, CardLocation::InHand),
                hand_wf(hand@),
                hand@.len() <= self.dealer.cards@.len(),
                all_ok(all_plays@, mana, hand@),
                best@.to_multiset().subset_of(hand@.to_multiset()),
                fits_budget(best@, mana),
                -score_bound(depth as int) <= max_score <= score_bound(depth as int),
                cand == self.turn_candidates(view@, mana),
                cand == crate::patterns::views_of(all_plays@),
                pi <= all_plays@.len(),
                (best@ =~= Seq::<Card>::empty() && max_score == -10000) || exists|i: int|
                    0 <= i < cand.len() && (#[trigger] cand[i]) == best@,
                depth <= 1 ==> (forall|i: int| 0 <= i < pi
                    ==> immediate_score(#[trigger] cand[i], mana as int, self.hero,
                        self.play_card_bonus) <= max_score),
                depth <= 1 ==> ((best@ =~= Seq::<Card>::empty() && max_score == -10000)
                    || (0 <= besti < cand.len() && cand[besti] == best@
                        && max_score == immediate_score(best@, mana as int, self.hero,
                            self.play_card_bonus)
                        && (forall|j: int| 0 <= j < besti ==> immediate_score(
                            #[trigger] cand[j], mana as int, self.hero,
                            self.play_card_bonus) < max_score))),
                depth > 1 ==> ((best@ =~= Seq::<Card>::empty() && max_score == -10000)
                    || exists|fsum: int|
                        -(score_bound(depth as int - 1) * 10) <= fsum
                            <= score_bound(depth as int - 1) * 10
                        && max_score == immediate_score(best@, mana as int, self.hero,
                            self.play_card_bonus) + #[trigger] div_scores(fsum, 10)),
                self.possible_turn_value(max_score as int, view@, mana, depth),
            decreases all_plays@.len() - pi,
        {
            proof {
                assert(pattern_ok(all_plays@[pi as int]@, mana, hand@));
                lemma_hand_wf_sub(all_plays@[pi as int]@, hand@);
                lemma_submultiset_len(all_plays@[pi as int]@.to_multiset(),
                    hand@.to_multiset());
            }
            let play = &all_plays[pi];
            let ghost imm = immediate_score(all_plays@[pi as int]@, mana as int, self.hero,
                self.play_card_bonus);
            let ghost mut fsum_g: int = 0;
            let ghost mut ts_g: Seq<int> = Seq::empty();
            let ghost mut pview_g: Seq<CardLocation> = Seq::empty();
            let mut score = score_play(play, mana, self.hero, self.play_card_bonus);
            if depth > 1 {
                // commit the pattern on a scratch view, then sample draws
                let ps = match self.dealer.cards_to_position(play, CardLocation::InHand, view) {
                    Some(ps) => ps,
                    None => {
                        proof {
                            assert(false);
                        }
                        Vec::new()
                    },
                };
                let mut scratch = copy_vec(view);
                let mut t: usize = 0;
                while t < ps.len()
                    invariant
                        view@.len() == self.dealer.cards@.len(),
                        scratch@.len() == view@.len(),
                        t <= ps@.len(),
                        ps@.len() == play@.len(),
                        forall|u: int| 0 <= u < ps@.len() ==> (#[trigger] ps@[u])
                            < view@.len() && view@[ps@[u] as int] == CardLocation::InHand
                            && self.dealer.cards@[ps@[u] as int] == play@[u],
                        forall|u: int, w: int| 0 <= u < w < ps@.len()
                            ==> (#[trigger] ps@[u]) != (#[trigger] ps@[w]),
                        forall|u: int| t <= u < ps@.len()
                            ==> (#[trigger] scratch@[ps@[u] as int]) == CardLocation::InHand,
                        loc_of(self.dealer.cards@, scratch@,
                            CardLocation::InHand).to_multiset().add(
                            play@.take(t as int).to_multiset())
                            == loc_of(self.dealer.cards@, view@,
                            CardLocation::InHand).to_multiset(),
                        forall|j: int| 0 <= j < scratch@.len()
                            && (#[trigger] scratch@[j]) != view@[j]
                            ==> scratch@[j] == CardLocation::NoWhere,
                        count_loc(scratch@, CardLocation::InDeck)
                            == count_loc(view@, CardLocation::InDeck),
                    decreases ps@.len() - t,
                {
                    let p = ps[t];
                    let ghost oldscratch = scratch@;
                    scratch.set(p, CardLocation::NoWhere);
                    proof {
                        lemma_count_loc_update(oldscratch, p as int, CardLocation::NoWhere,
                            CardLocation::InDeck);
                        assert(oldscratch[p as int] != CardLocation::InDeck);
                        lemma_loc_of_update(self.dealer.cards@, oldscratch, p as int,
                            CardLocation::NoWhere, CardLocation::InHand);
                        assert(play@.take(t as int + 1)
                            =~= play@.take(t as int).push(play@[t as int]));
                        let before_ms = loc_of(self.dealer.cards@, oldscratch,
                            CardLocation::InHand).to_multiset();
                        let after_ms = loc_of(self.dealer.cards@, scratch@,
                            CardLocation::InHand).to_multiset();
                        assert(after_ms == before_ms.remove(play@[t as int]));
                        assert(before_ms.count(play@[t as int]) > 0) by {
                            lemma_loc_of_contains(self.dealer.cards@, oldscratch,
                                CardLocation::InHand, play@[t as int]);
                        }
                        assert(after_ms.add(play@.take(t as int + 1).to_multiset())
                            =~= before_ms.add(play@.take(t as int).to_multiset()));
                        assert forall|u: int| t + 1 <= u < ps@.len() implies
                            (#[trigger] scratch@[ps@[u] as int]) == CardLocation::InHand by {
                            assert(ps@[u] != ps@[t as int]);
                            assert(scratch@[ps@[u] as int] == oldscratch[ps@[u] as int]);
                        }
                    }
                    t += 1;
                }
                proof {
                    assert(play@.take(play@.len() as int) =~= play@);
                    pview_g = scratch@;
                    assert(loc_of(self.dealer.cards@, pview_g,
                        CardLocation::InHand).to_multiset().add(play@.to_multiset())
                        == loc_of(self.dealer.cards@, view@,
                        CardLocation::InHand).to_multiset());
                }
                let mut sum_future: i64 = 0;
                let mut s: usize = 0;
                while s < 10
                    invariant
                        s <= 10,
                        1 < depth,
                        self.dealer.wf(),
                        1 <= mana,
                        mana as int + depth as int <= 126,
                        scratch@.len() == self.dealer.cards@.len(),
                        count_loc(scratch@, CardLocation::InDeck) >= depth as int - 1,
                        -(score_bound(depth as int - 1) * s) <= sum_future
                            <= score_bound(depth as int - 1) * s,
                        ts_g.len() == s as int,
                        sum_future as int == sum_of(ts_g),
                        self.samples_ok(ts_g, scratch@, (mana + 1) as i8,
                            (depth - 1) as u8),
                    decreases 10 - s,
                {
                    let mut temp = copy_vec(&scratch);
                    let drawn = Dealer::draw_card(&mut temp, rng);
                    proof {
                        lemma_count_loc_update(scratch@, drawn as int, CardLocation::InHand,
                            CardLocation::InDeck);
                    }
                    let sub = self.evaluate_turn(&temp, mana + 1i8, depth - 1, rng);
                    let ghost olds = s as int;
                    let ghost oldsum = sum_future as int;
                    proof {
                        // the sample is a one-draw-ahead evaluation of the base
                        assert(temp@ == scratch@.update(drawn as int, CardLocation::InHand));
                        assert(scratch@[drawn as int] == CardLocation::InDeck);
                        assert(mana + 1i8 == ((mana + 1) as i8)
                            && depth - 1 == ((depth - 1) as u8));
                        assert(self.possible_turn_value(sub.1 as int,
                            scratch@.update(drawn as int, CardLocation::InHand),
                            (mana + 1) as i8, (depth - 1) as u8));
                        let old_ts = ts_g;
                        ts_g = ts_g.push(sub.1 as int);
                        assert(ts_g.drop_last() =~= old_ts);
                        assert(sum_of(ts_g) == sum_of(old_ts) + sub.1);
                        assert forall|j: int| 0 <= j < ts_g.len() implies exists|pos: int|
                            0 <= pos < scratch@.len()
                            && (#[trigger] scratch@[pos]) == CardLocation::InDeck
                            && self.possible_turn_value(#[trigger] ts_g[j],
                                scratch@.update(pos, CardLocation::InHand),
                                (mana + 1) as i8, (depth - 1) as u8) by {
                            if j < old_ts.len() {
                                assert(ts_g[j] == old_ts[j]);
                            } else {
                                assert(ts_g[j] == sub.1 as int);
                                assert(scratch@[drawn as int] == CardLocation::InDeck);
                            }
                        }
                        assert(self.samples_ok(ts_g, scratch@, (mana + 1) as i8,
                            (depth - 1) as u8));
                    }
                    proof {
                        let d = depth as int - 1;
                        let b = score_bound(d);
                        assert(1 <= d <= 125);
                        if d > 1 {
                            assert((IMMEDIATE_BOUND as int) * d <= 150000000000int
                                && (IMMEDIATE_BOUND as int) * d >= 0) by (nonlinear_arith)
                                requires
                                    1 < d <= 125,
                            ;
                        }
                        assert(0 <= b <= 150000000000int);
                        assert(b * (olds + 1) == b * olds + b) by (nonlinear_arith);
                        assert(b * olds <= b * 9) by (nonlinear_arith)
                            requires
                                olds <= 9,
                                b >= 0,
                        ;
                        assert(-(b * 9) <= b * olds) by (nonlinear_arith)
                            requires
                                0 <= olds,
                                b >= 0,
                        ;
                        assert(-(b * olds) >= -(b * 9));
                        assert(-1500000000000int <= oldsum + sub.1 <= 1500000000000int);
                    }
                    sum_future = sum_future + sub.1;
                    s += 1;
                    proof {
                        let d = depth as int - 1;
                        let b = score_bound(d);
                        assert(b * (olds + 1) == b * olds + b) by (nonlinear_arith);
                        assert(sum_future == oldsum + sub.1);
                        assert(sum_future <= b * olds + b);
                        assert(-(b * (olds + 1)) <= sum_future);
                        assert(s as int == olds + 1);
                    }
                }
                let avg = score_div(sum_future, 10);
                proof {
                    lemma_div10_bound(sum_future as int, score_bound(depth as int - 1));
                }
                score = score + avg;
                proof {
                    fsum_g = sum_future as int;
                    assert(-(score_bound(depth as int - 1) * 10) <= fsum_g
                        <= score_bound(depth as int - 1) * 10);
                    assert(score == imm + div_scores(fsum_g, 10));
                    assert(pview_g == scratch@);
                    assert(ts_g.len() == 10);
                    assert(fsum_g == sum_of(ts_g));
                    assert(self.samples_ok(ts_g, pview_g, (mana + 1) as i8,
                        (depth - 1) as u8));
                    assert(score_bound(depth as int)
                        == IMMEDIATE_BOUND + score_bound(depth as int - 1)
                        || depth as int - 1 >= 1 && score_bound(depth as int)
                        >= IMMEDIATE_BOUND + score_bound(depth as int - 1)) by {
                        if depth as int - 1 <= 1 {
                        } else {
                            assert((IMMEDIATE_BOUND as int) * (depth as int)
                                == (IMMEDIATE_BOUND as int) * (depth as int - 1)
                                + IMMEDIATE_BOUND) by (nonlinear_arith);
                        }
                    }
                }
            }
            proof {
                if depth <= 1 {
                    assert(score == imm);
                }
                assert(cand[pi as int] == all_plays@[pi as int]@);
            }
            let ghost oldmax = max_score as int;
            let ghost oldbest = best@;
            if score > max_score {
                max_score = score;
                best = copy_vec(play);
                proof {
                    besti = pi as int;
                    assert(best@ == all_plays@[pi as int]@);
                    assert(cand[pi as int] == best@);
                    if depth <= 1 {
                        // everything before the new best scored strictly less
                        assert forall|j: int| 0 <= j < besti implies immediate_score(
                            #[trigger] cand[j], mana as int, self.hero,
                            self.play_card_bonus) < max_score by {
                            assert(immediate_score(cand[j], mana as int, self.hero,
                                self.play_card_bonus) <= oldmax);
                        }
                    }
                    if depth > 1 {
                        assert(max_score == immediate_score(best@, mana as int, self.hero,
                            self.play_card_bonus) + div_scores(fsum_g, 10));
                        assert(self.samples_ok(ts_g, pview_g, (mana + 1) as i8,
                            (depth - 1) as u8));
                        assert(pview_g.len() == view@.len());
                        assert(ts_g.len() == 10);
                        assert(max_score == immediate_score(best@, mana as int, self.hero,
                            self.play_card_bonus) + div_scores(sum_of(ts_g), 10));
                        assert(cand[pi as int]
                            == self.turn_candidates(view@, mana)[pi as int]);
                        assert(self.possible_turn_value(max_score as int, view@, mana,
                            depth));
                    }
                    if depth <= 1 {
                        assert(max_score == immediate_score(cand[pi as int], mana as int,
                            self.hero, self.play_card_bonus));
                        assert(self.possible_turn_value(max_score as int, view@, mana,
                            depth));
                    }
                }
            }
            proof {
                if depth <= 1 {
                    assert forall|i: int| 0 <= i < pi + 1 implies
                        immediate_score(#[trigger] cand[i], mana as int, self.hero,
                            self.play_card_bonus) <= max_score by {
                        if i < pi {
                            assert(immediate_score(cand[i], mana as int, self.hero,
                                self.play_card_bonus) <= oldmax);
                        } else {
                            assert(cand[i] == all_plays@[pi as int]@);
                            assert(immediate_score(cand[i], mana as int, self.hero,
                                self.play_card_bonus) == imm);
                        }
                    }
                }
            }
            pi += 1;
        }
        (best, max_score)
    }
}

/// Removes one occurrence of a position from the running hand by swapping
/// it with the last entry, as the hand's order carries no meaning.
fn remove_position(hand: &mut Vec<usize>, pos: usize)
    requires
        old(hand)@.to_multiset().count(pos) > 0,
    ensures
        final(hand)@.to_multiset() == old(hand)@.to_multiset().remove(pos),
        final(hand)@.len() == old(hand)@.len() - 1,
{
    let mut i: usize = 0;
    proof {
        assert(hand@.contains(pos));
    }
    while i < hand.len()
        invariant
            hand@ == old(hand)@,
            i <= hand@.len(),
            hand@.contains(pos),
            forall|j: int| 0 <= j < i ==> hand@[j] != pos,
        decreases hand@.len() - i,
    {
        if hand[i] == pos {
            proof {
                lemma_swap_remove_multiset(hand@, i as int);
            }
            hand.swap_remove(i);
            return ;
        }
        i += 1;
    }
    proof {
        let w = choose|w: int| 0 <= w < hand@.len() && hand@[w] == pos;
        assert(false);
    }
}

impl Simulator {
    /// Evaluates the turn on the real deck state, commits the best pattern
    /// (its cards move from the hand to committed), and returns the
    /// committed pattern's immediate score, which is what accumulates into
    /// the session total.
    pub fn play_a_turn(&mut self, mana: i8, depth: u8, rng: &mut fastrand::Rng) -> (r: i64)
        requires
            old(self).wf(),
            1 <= mana,
            mana as int + depth as int <= 126,
            count_loc(old(self).dealer.card_location@, CardLocation::InDeck)
                >= depth as int - 1,
        ensures
            final(self).wf(),
            final(self).dealer.cards@ == old(self).dealer.cards@,
            final(self).score == old(self).score,
            final(self).same_config(*old(self)),
            count_loc(final(self).dealer.card_location@, CardLocation::InDeck)
                == count_loc(old(self).dealer.card_location@, CardLocation::InDeck),
            -IMMEDIATE_BOUND < r < IMMEDIATE_BOUND,
            possible_turn_score(r as int, mana, strip_coins(old(self).dealer.cards@),
                old(self).hero, old(self).play_card_bonus),
            exists|play: Seq<Card>|
                {
                    &&& r == immediate_score(play, mana as int, old(self).hero,
                        old(self).play_card_bonus)
                    &&& fits_budget(play, mana)
                    &&& #[trigger] play.to_multiset().subset_of(loc_of(old(self).dealer.cards@,
                        old(self).dealer.card_location@, CardLocation::InHand).to_multiset())
                    &&& (play =~= Seq::<Card>::empty() || exists|i: int|
                        0 <= i < old(self).turn_candidates(old(self).dealer.card_location@,
                            mana).len()
                        && (#[trigger] old(self).turn_candidates(
                            old(self).dealer.card_location@, mana)[i]) == play)
                    &&& (depth <= 1 ==> ((exists|i: int|
                            0 <= i < old(self).turn_candidates(
                                old(self).dealer.card_location@, mana).len()
                            && (#[trigger] old(self).turn_candidates(
                                old(self).dealer.card_location@, mana)[i]) == play
                            && (forall|j: int| 0 <= j < old(self).turn_candidates(
                                    old(self).dealer.card_location@, mana).len()
                                ==> immediate_score(#[trigger] old(self).turn_candidates(
                                    old(self).dealer.card_location@, mana)[j], mana as int,
                                    old(self).hero, old(self).play_card_bonus) <= r)
                            && (forall|j: int| 0 <= j < i ==> immediate_score(
                                old(self).turn_candidates(old(self).dealer.card_location@,
                                    mana)[j], mana as int, old(self).hero,
                                old(self).play_card_bonus) < r))
                        || (play =~= Seq::<Card>::empty() && (forall|j: int|
                            0 <= j < old(self).turn_candidates(
                                old(self).dealer.card_location@, mana).len()
                            ==> immediate_score(#[trigger] old(self).turn_candidates(
                                old(self).dealer.card_location@, mana)[j], mana as int,
                                old(self).hero, old(self).play_card_bonus) <= -10000))))
                    &&& loc_of(final(self).dealer.cards@, final(self).dealer.card_location@,
                        CardLocation::InHand).to_multiset().add(play.to_multiset())
                        == loc_of(old(self).dealer.cards@, old(self).dealer.card_location@,
                        CardLocation::InHand).to_multiset()
                },
    {
        let view = copy_vec(&self.dealer.card_location);
        let picked = self.evaluate_turn(&view, mana, depth, rng);
        let best = picked.0;
        proof {
            lemma_loc_of_sub(self.dealer.cards@, view@, CardLocation::InHand);
            lemma_hand_wf_sub(loc_of(self.dealer.cards@, view@, CardLocation::InHand),
                self.dealer.cards@);
            lemma_hand_wf_sub(best@, loc_of(self.dealer.cards@, view@, CardLocation::InHand));
            lemma_submultiset_len(best@.to_multiset(),
                loc_of(self.dealer.cards@, view@, CardLocation::InHand).to_multiset());
            lemma_submultiset_len(loc_of(self.dealer.cards@, view@,
                CardLocation::InHand).to_multiset(), self.dealer.cards@.to_multiset());
        }
        let r = score_play(&best, mana, self.hero, self.play_card_bonus);
        let ps = match self.dealer.cards_to_position(&best, CardLocation::InHand, &view) {
            Some(ps) => ps,
            None => {
                proof {
                    assert(false);
                }
                Vec::new()
            },
        };
        let ghost cardsq = self.dealer.cards@;
        let ghost startloc = self.dealer.card_location@;
        let ghost herop = self.hero;
        let ghost bonusp = self.play_card_bonus;
        let mut t: usize = 0;
        while t < ps.len()
            invariant
                t <= ps@.len(),
                self.score == old(self).score,
                self.same_config(*old(self)),
                self.config_wf(),
                self.dealer.cards@ == cardsq,
                self.dealer.card_location@.len() == cardsq.len(),
                self.dealer.wf(),
                self.hand_sync(),
                ps@.len() == best@.len(),
                forall|u: int| 0 <= u < ps@.len() ==> (#[trigger] ps@[u]) < cardsq.len()
                    && cardsq[ps@[u] as int] == best@[u]
                    && startloc[ps@[u] as int] == CardLocation::InHand,
                forall|u: int, v: int| 0 <= u < v < ps@.len()
                    ==> (#[trigger] ps@[u]) != (#[trigger] ps@[v]),
                forall|u: int| t <= u < ps@.len()
                    ==> (#[trigger] self.dealer.card_location@[ps@[u] as int])
                        == CardLocation::InHand,
                loc_of(cardsq, self.dealer.card_location@,
                    CardLocation::InHand).to_multiset().add(best@.take(t as int).to_multiset())
                    == loc_of(cardsq, startloc, CardLocation::InHand).to_multiset(),
                count_loc(self.dealer.card_location@, CardLocation::InDeck)
                    == count_loc(startloc, CardLocation::InDeck),
            decreases ps@.len() - t,
        {
            let p = ps[t];
            let ghost midloc = self.dealer.card_location@;
            let ghost midhand = self.hand@;
            self.dealer.card_location.set(p, CardLocation::NoWhere);
            proof {
                assert(midloc[p as int] == CardLocation::InHand);
                assert(midhand.to_multiset().count(p) > 0);
            }
            remove_position(&mut self.hand, p);
            proof {
                lemma_count_loc_update(midloc, p as int, CardLocation::NoWhere,
                    CardLocation::InDeck);
                lemma_loc_of_update(cardsq, midloc, p as int, CardLocation::NoWhere,
                    CardLocation::InHand);
                assert(best@.take(t as int + 1)
                    =~= best@.take(t as int).push(best@[t as int]));
                let before_ms = loc_of(cardsq, midloc, CardLocation::InHand).to_multiset();
                let after_ms = loc_of(cardsq, self.dealer.card_location@,
                    CardLocation::InHand).to_multiset();
                assert(after_ms == before_ms.remove(best@[t as int]));
                assert(before_ms.count(best@[t as int]) > 0) by {
                    lemma_loc_of_contains(cardsq, midloc, CardLocation::InHand,
                        best@[t as int]);
                }
                assert(after_ms.add(best@.take(t as int + 1).to_multiset())
                    =~= before_ms.add(best@.take(t as int).to_multiset()));
                // the hand stays in step with the location tags
                assert forall|q: int| 0 <= q < self.dealer.card_location@.len() implies
                    ((#[trigger] self.dealer.card_location@[q]) == CardLocation::InHand
                        <==> self.hand@.to_multiset().count(q as usize) > 0) by {
                    if q == p as int {
                        assert(self.hand@.to_multiset().count(p) == 0);
                    } else {
                        assert(self.dealer.card_location@[q] == midloc[q]);
                        assert(self.hand@.to_multiset().count(q as usize)
                            == midhand.to_multiset().count(q as usize));
                    }
                }
                assert forall|x: usize| #[trigger] self.hand@.to_multiset().count(x) <= 1 by {
                    assert(midhand.to_multiset().count(x) <= 1);
                }
                assert forall|u: int| 0 <= u < self.hand@.len() implies
                    (#[trigger] self.hand@[u]) < self.dealer.card_location@.len() by {
                    assert(self.hand@.to_multiset().count(self.hand@[u]) > 0) by {
                        assert(self.hand@.contains(self.hand@[u]));
                    }
                    assert(midhand.to_multiset().count(self.hand@[u]) > 0);
                    assert(midhand.contains(self.hand@[u]));
                    let w = choose|w: int| 0 <= w < midhand.len()
                        && midhand[w] == self.hand@[u];
                    assert(midhand[w] < self.dealer.card_location@.len());
                }
                // positions later in the list are still in hand
                assert forall|u: int| t + 1 <= u < ps@.len() implies
                    (#[trigger] self.dealer.card_location@[ps@[u] as int])
                        == CardLocation::InHand by {
                    assert(ps@[u] != ps@[t as int]);
                    assert(self.dealer.card_location@[ps@[u] as int]
                        == midloc[ps@[u] as int]);
                }
            }
            t += 1;
        }
        proof {
            assert(best@.take(best@.len() as int) =~= best@);
            assert(loc_of(cardsq, self.dealer.card_location@,
                CardLocation::InHand).to_multiset().add(best@.to_multiset())
                == loc_of(cardsq, startloc, CardLocation::InHand).to_multiset());
            // the committed pattern also witnesses a possible turn score of
            // the stripped deck with the coin allowed
            lemma_loc_of_sub(cardsq, startloc, CardLocation::InHand);
            lemma_cards_within_strip(cardsq);
            lemma_subset_transitive(best@.to_multiset(),
                loc_of(cardsq, startloc, CardLocation::InHand).to_multiset(),
                cardsq.to_multiset());
            lemma_subset_transitive(best@.to_multiset(), cardsq.to_multiset(),
                strip_coins(cardsq).to_multiset().insert(coin_spec()));
            assert(possible_turn_score(r as int, mana, strip_coins(cardsq), herop, bonusp));
        }
        r
    }
}

/// The sum of a sequence of sampled scores.
pub open spec fn sum_of(ts: Seq<int>) -> int
    decreases ts.len(),
{
    if ts.len() == 0 {
        0
    } else {
        sum_of(ts.drop_last()) + ts.last()
    }
}

/// One turn's contribution to a repetition: the immediate score of some
/// pattern that fits the turn's budget and commits only cards the deck
/// holds, the coin included since the side on the draw owns one.
pub open spec fn possible_turn_score(v: int, mana: i8, cards: Seq<Card>, hero: Hero,
    bonus: i8) -> bool {
    exists|play: Seq<Card>| fits_budget(play, mana)
        && #[trigger] play.to_multiset().subset_of(cards.to_multiset().insert(coin_spec()))
        && v == immediate_score(play, mana as int, hero, bonus)
}

/// A value one full repetition can total: possible turn scores summed over
/// turns one through the given turn count.
pub open spec fn possible_rep_score(v: int, turns: int, cards: Seq<Card>, hero: Hero,
    bonus: i8) -> bool
    decreases turns,
{
    if turns <= 0 {
        v == 0
    } else {
        exists|t: int| #![trigger possible_turn_score(t, turns as i8, cards, hero, bonus)]
            possible_turn_score(t, turns as i8, cards, hero, bonus)
                && possible_rep_score(v - t, turns - 1, cards, hero, bonus)
    }
}

/// A value the whole run can total: possible repetition scores summed.
pub open spec fn possible_total(v: int, reps: int, turns: int, cards: Seq<Card>, hero: Hero,
    bonus: i8) -> bool
    decreases reps,
{
    if reps <= 0 {
        v == 0
    } else {
        exists|rv: int| #![trigger possible_rep_score(rv, turns, cards, hero, bonus)]
            possible_rep_score(rv, turns, cards, hero, bonus)
                && possible_total(v - rv, reps - 1, turns, cards, hero, bonus)
    }
}

/// An average the Monte Carlo driver can report for a session: some
/// achievable grand total divided, toward zero, by the repetition count.
pub open spec fn achievable_average(v: int, reps: int, turns: int, cards: Seq<Card>,
    hero: Hero, bonus: i8) -> bool {
    exists|total: int| #![trigger div_scores(total, reps)]
        possible_total(total, reps, turns, cards, hero, bonus) && v == div_scores(total, reps)
}

/// A deck with at most one coin holds nothing beyond its stripped cards
/// and possibly that coin.
pub proof fn lemma_cards_within_strip(s: Seq<Card>)
    requires
        hand_wf(s),
    ensures
        s.to_multiset().subset_of(strip_coins(s).to_multiset().insert(coin_spec())),
    decreases s.len(),
{
    if s.len() == 0 {
        assert forall|x: Card| s.to_multiset().count(x)
            <= strip_coins(s).to_multiset().insert(coin_spec()).count(x) by {
            assert(s.to_multiset().len() == 0);
        }
    } else {
        let dl = s.drop_last();
        assert(forall|i: int| 0 <= i < dl.len() ==> dl[i] == s[i]);
        assert(hand_wf(dl)) by {
            assert(coin_count(s) == coin_count(dl) + if is_coin(s.last()) {
                1int
            } else {
                0int
            });
            lemma_coin_count_is_count(dl);
        }
        lemma_cards_within_strip(dl);
        assert(s =~= dl.push(s.last()));
        assert(s.to_multiset() == dl.to_multiset().insert(s.last()));
        if is_coin(s.last()) {
            assert(s.last() == coin_spec());
            assert(strip_coins(s) == strip_coins(dl));
            // the rest of the deck holds no further coin
            assert(coin_count(dl) == 0) by {
                assert(coin_count(s) == coin_count(dl) + 1);
                lemma_coin_count_is_count(dl);
            }
            assert(dl.to_multiset().count(coin_spec()) == 0) by {
                lemma_coin_count_is_count(dl);
            }
            lemma_strip_coins_wf(dl);
            assert(strip_coins(dl).to_multiset().count(coin_spec()) == 0) by {
                if strip_coins(dl).to_multiset().count(coin_spec()) > 0 {
                    assert(strip_coins(dl).contains(coin_spec()));
                    let w = choose|w: int| 0 <= w < strip_coins(dl).len()
                        && strip_coins(dl)[w] == coin_spec();
                    assert(is_coin(strip_coins(dl)[w]));
                }
            }
            assert forall|x: Card| s.to_multiset().count(x)
                <= strip_coins(s).to_multiset().insert(coin_spec()).count(x) by {
                if x != coin_spec() {
                    assert(dl.to_multiset().count(x)
                        <= strip_coins(dl).to_multiset().insert(coin_spec()).count(x));
                }
            }
        } else {
            assert(strip_coins(s) == strip_coins(dl).push(s.last()));
            assert(strip_coins(s).to_multiset()
                == strip_coins(dl).to_multiset().insert(s.last()));
            assert forall|x: Card| s.to_multiset().count(x)
                <= strip_coins(s).to_multiset().insert(coin_spec()).count(x) by {
                assert(dl.to_multiset().count(x)
                    <= strip_coins(dl).to_multiset().insert(coin_spec()).count(x));
            }
        }
    }
}

/// The largest magnitude one repetition's accumulated score can take.
pub const REP_BOUND: i64 = 151200000000;

impl Simulator {
    /// Installs an opening hand for one trial: the deck is reset (coin
    /// stripped), the kept positions move to the hand, filler cards are
    /// drawn at random up to the play order's starting size, and on the
    /// draw the coin joins both deck and hand.
    pub fn set_start_hand(&mut self, kept_hand: &Vec<usize>, rng: &mut fastrand::Rng) -> (r:
        bool)
        requires
            old(self).wf(),
            old(self).dealer.cards@.len() < DECK_CAP,
            forall|i: int, j: int| 0 <= i < j < kept_hand@.len()
                ==> (#[trigger] kept_hand@[i]) != (#[trigger] kept_hand@[j]),
            kept_hand@.len() <= old(self).play_order.start_hand_size_spec(),
            strip_coins(old(self).dealer.cards@).len()
                >= old(self).play_order.start_hand_size_spec(),
        ensures
            r == (forall|i: int| 0 <= i < kept_hand@.len() ==> (#[trigger] kept_hand@[i])
                < strip_coins(old(self).dealer.cards@).len()),
            !r ==> *final(self) == *old(self),
            r ==> final(self).wf()
                && final(self).same_config(*old(self))
                && final(self).score == old(self).score
                && strip_coins(final(self).dealer.cards@)
                    == strip_coins(old(self).dealer.cards@)
                && final(self).hand@.len() == old(self).play_order.start_hand_size_spec()
                    + (if old(self).play_order == PlayOrder::Second { 1int } else { 0int })
                && final(self).hand@.take(kept_hand@.len() as int) == kept_hand@
                && count_loc(final(self).dealer.card_location@, CardLocation::InDeck)
                    == strip_coins(old(self).dealer.cards@).len()
                    - old(self).play_order.start_hand_size_spec(),
    {
        // a kept position that a reset would not keep is a structural
        // mismatch: report it before touching anything
        let slen = self.stripped_len();
        let mut v: usize = 0;
        while v < kept_hand.len()
            invariant
                v <= kept_hand@.len(),
                slen == strip_coins(old(self).dealer.cards@).len(),
                *self == *old(self),
                forall|j: int| 0 <= j < v ==> (#[trigger] kept_hand@[j]) < slen,
            decreases kept_hand@.len() - v,
        {
            if kept_hand[v] >= slen {
                return false;
            }
            v += 1;
        }
        self.reset();
        proof {
            lemma_strip_coins_wf(old(self).dealer.cards@);
            lemma_strip_coins_idempotent(old(self).dealer.cards@);
        }
        let ghost stripped = self.dealer.cards@;
        let mut i: usize = 0;
        while i < kept_hand.len()
            invariant
                i <= kept_hand@.len(),
                self.dealer.cards@ == stripped,
                self.dealer.wf(),
                self.config_wf(),
                self.same_config(*old(self)),
                self.score == old(self).score,
                self.dealer.card_location@.len() == stripped.len(),
                forall|t: int| 0 <= t < kept_hand@.len() ==> (#[trigger] kept_hand@[t])
                    < stripped.len(),
                forall|t: int, u: int| 0 <= t < u < kept_hand@.len()
                    ==> (#[trigger] kept_hand@[t]) != (#[trigger] kept_hand@[u]),
                self.hand@ == kept_hand@.take(i as int),
                forall|p: int| 0 <= p < self.dealer.card_location@.len()
                    ==> ((#[trigger] self.dealer.card_location@[p]) == CardLocation::InHand
                        <==> self.hand@.to_multiset().count(p as usize) > 0),
                forall|p: int| 0 <= p < self.dealer.card_location@.len()
                    ==> (#[trigger] self.dealer.card_location@[p]) == CardLocation::InHand
                        || self.dealer.card_location@[p] == CardLocation::InDeck,
                forall|x: usize| #[trigger] self.hand@.to_multiset().count(x) <= 1,
                count_loc(self.dealer.card_location@, CardLocation::InDeck)
                    == stripped.len() - i,
            decreases kept_hand@.len() - i,
        {
            let p = kept_hand[i];
            let ghost midloc = self.dealer.card_location@;
            let ghost midhand = self.hand@;
            proof {
                assert(midhand.to_multiset().count(p) == 0) by {
                    if midhand.to_multiset().count(p) > 0 {
                        assert(midhand.contains(p));
                        let w = choose|w: int| 0 <= w < midhand.len() && midhand[w] == p;
                        assert(kept_hand@.take(i as int)[w] == kept_hand@[w]);
                    }
                }
                assert(midloc[p as int] == CardLocation::InDeck);
            }
            let ok = self.dealer.deck_to_hand(p);
            self.hand.push(p);
            proof {
                lemma_count_loc_update(midloc, p as int, CardLocation::InHand,
                    CardLocation::InDeck);
                assert(self.hand@ =~= kept_hand@.take(i as int + 1));
                assert(self.hand@.to_multiset() == midhand.to_multiset().insert(p));
                assert forall|q: int| 0 <= q < self.dealer.card_location@.len() implies
                    ((#[trigger] self.dealer.card_location@[q]) == CardLocation::InHand
                        <==> self.hand@.to_multiset().count(q as usize) > 0) by {
                    if q != p as int {
                        assert(self.dealer.card_location@[q] == midloc[q]);
                        assert(self.hand@.to_multiset().count(q as usize)
                            == midhand.to_multiset().count(q as usize));
                    }
                }
                assert forall|x: usize| #[trigger] self.hand@.to_multiset().count(x) <= 1 by {
                    if x != p {
                        assert(self.hand@.to_multiset().count(x)
                            == midhand.to_multiset().count(x));
                    }
                }
            }
            i += 1;
        }
        let size = self.play_order.get_start_hand_size() as usize;
        let ghost kn = kept_hand@.len() as int;
        let mut d: usize = kept_hand.len();
        proof {
            assert(kept_hand@.take(kn) =~= kept_hand@);
        }
        while d < size
            invariant
                0 <= kn <= d <= size,
                kn == kept_hand@.len(),
                size == self.play_order.start_hand_size_spec(),
                self.dealer.cards@ == stripped,
                stripped.len() >= size,
                self.dealer.wf(),
                self.config_wf(),
                self.hand_sync(),
                self.same_config(*old(self)),
                self.score == old(self).score,
                self.hand@.len() == d,
                self.hand@.take(kn) == kept_hand@,
                count_loc(self.dealer.card_location@, CardLocation::InDeck)
                    == stripped.len() - d,
            decreases size - d,
        {
            let ghost prehand = self.hand@;
            self.draw_card(rng);
            proof {
                assert(0 <= kn <= prehand.len());
                assert(self.hand@.take(kn) =~= prehand.take(kn));
            }
            d += 1;
        }
        if matches!(self.play_order, PlayOrder::Second) {
            let ghost precoin = *self;
            self.dealer.insert_card(Card::coin());
            let newpos = self.dealer.cards.len() - 1;
            let ghost midloc = self.dealer.card_location@;
            let ghost midhand = self.hand@;
            proof {
                assert forall|q: int| 0 <= q < midloc.len() implies
                    ((#[trigger] midloc[q]) == CardLocation::InHand
                        <==> midhand.to_multiset().count(q as usize) > 0) by {
                    if q < precoin.dealer.card_location@.len() {
                        assert(midloc[q] == precoin.dealer.card_location@[q]);
                    } else {
                        assert(midloc[q] == CardLocation::InDeck);
                        if midhand.to_multiset().count(q as usize) > 0 {
                            assert(midhand.contains(q as usize));
                            let w = choose|w: int| 0 <= w < midhand.len()
                                && midhand[w] == q as usize;
                            assert(midhand[w] < precoin.dealer.card_location@.len());
                        }
                    }
                }
                assert(midhand.to_multiset().count(newpos) == 0) by {
                    assert(midloc[newpos as int] == CardLocation::InDeck);
                }
                lemma_count_loc_update(midloc, newpos as int, CardLocation::InHand,
                    CardLocation::InDeck);
                assert(midloc == precoin.dealer.card_location@.push(CardLocation::InDeck));
                crate::dealer::lemma_count_loc_push(precoin.dealer.card_location@,
                    CardLocation::InDeck, CardLocation::InDeck);
            }
            self.dealer.card_location.set(newpos, CardLocation::InHand);
            self.hand.push(newpos);
            proof {
                assert forall|q: int| 0 <= q < self.dealer.card_location@.len() implies
                    ((#[trigger] self.dealer.card_location@[q]) == CardLocation::InHand
                        <==> self.hand@.to_multiset().count(q as usize) > 0) by {
                    if q != newpos as int {
                        assert(self.dealer.card_location@[q] == midloc[q]);
                        assert(self.hand@.to_multiset().count(q as usize)
                            == midhand.to_multiset().count(q as usize));
                    }
                }
                assert forall|x: usize| #[trigger] self.hand@.to_multiset().count(x) <= 1 by {
                    if x != newpos {
                        assert(self.hand@.to_multiset().count(x)
                            == midhand.to_multiset().count(x));
                    }
                }
                assert(self.hand@.take(kn) =~= midhand.take(kn));
                assert(strip_coins(self.dealer.cards@) == strip_coins(stripped)) by {
                    assert(self.dealer.cards@.drop_last() =~= stripped);
                }
                lemma_strip_coins_idempotent(old(self).dealer.cards@);
            }
        }
        true
    }

    /// Runs the configured number of full-game repetitions for one kept
    /// opening hand and returns the average score in thousandths of a
    /// point. Each repetition owns an independent copy of the simulator
    /// state; only the numeric total is shared.
    pub fn start_simulation(&self, kept_hand: &Vec<usize>, rng: &mut fastrand::Rng) -> (r: i64)
        requires
            self.wf(),
            self.dealer.cards@.len() < DECK_CAP,
            forall|i: int| 0 <= i < kept_hand@.len() ==> (#[trigger] kept_hand@[i])
                < strip_coins(self.dealer.cards@).len(),
            forall|i: int, j: int| 0 <= i < j < kept_hand@.len()
                ==> (#[trigger] kept_hand@[i]) != (#[trigger] kept_hand@[j]),
            kept_hand@.len() <= self.play_order.start_hand_size_spec(),
            strip_coins(self.dealer.cards@).len() >= self.play_order.start_hand_size_spec()
                + self.maxturn as int + self.max_search_depth as int,
        ensures
            -REP_BOUND <= r <= REP_BOUND,
            achievable_average(r as int, self.cycle_reps as int, self.maxturn as int,
                strip_coins(self.dealer.cards@), self.hero, self.play_card_bonus),
    {
        let mut sim = self.duplicate();
        let mut total: i64 = 0;
        let reps = self.cycle_reps;
        let mut rep: i32 = 0;
        while rep < reps
            invariant
                0 <= rep <= reps,
                reps == self.cycle_reps,
                1 <= reps <= 100000,
                self.wf(),
                self.dealer.cards@.len() < DECK_CAP,
                sim.wf(),
                sim.same_config(*self),
                strip_coins(sim.dealer.cards@) == strip_coins(self.dealer.cards@),
                forall|i: int| 0 <= i < kept_hand@.len() ==> (#[trigger] kept_hand@[i])
                    < strip_coins(self.dealer.cards@).len(),
                forall|i: int, j: int| 0 <= i < j < kept_hand@.len()
                    ==> (#[trigger] kept_hand@[i]) != (#[trigger] kept_hand@[j]),
                kept_hand@.len() <= self.play_order.start_hand_size_spec(),
                strip_coins(self.dealer.cards@).len()
                    >= self.play_order.start_hand_size_spec() + self.maxturn as int
                    + self.max_search_depth as int,
                -(REP_BOUND * rep) <= total <= REP_BOUND * rep,
                possible_total(total as int, rep as int, self.maxturn as int,
                    strip_coins(self.dealer.cards@), self.hero, self.play_card_bonus),
            decreases reps - rep,
        {
            sim.score = 0;
            let ghost prevcards = sim.dealer.cards@;
            sim.reset();
            proof {
                lemma_strip_coins_idempotent(prevcards);
                lemma_strip_coins_wf(sim.dealer.cards@);
                lemma_strip_coins_wf(self.dealer.cards@);
                assert(strip_coins(sim.dealer.cards@) == strip_coins(self.dealer.cards@));
                assert(sim.dealer.cards@.len() == strip_coins(self.dealer.cards@).len());
                assert(sim.dealer.cards@.len() < DECK_CAP);
            }
            let ghost striplen = strip_coins(self.dealer.cards@).len() as int;
            let _ok = sim.set_start_hand(kept_hand, rng);
            let size = sim.play_order.get_start_hand_size();
            let mut turn: u8 = 1;
            while turn <= sim.maxturn
                invariant
                    1 <= turn <= sim.maxturn + 1,
                    sim.wf(),
                    sim.same_config(*self),
                    strip_coins(sim.dealer.cards@) == strip_coins(self.dealer.cards@),
                    striplen == strip_coins(self.dealer.cards@).len(),
                    striplen >= sim.play_order.start_hand_size_spec() + sim.maxturn as int
                        + sim.max_search_depth as int,
                    count_loc(sim.dealer.card_location@, CardLocation::InDeck)
                        == striplen - sim.play_order.start_hand_size_spec()
                        - (turn as int - 1),
                    -(IMMEDIATE_BOUND * (turn as int - 1)) <= sim.score
                        <= IMMEDIATE_BOUND * (turn as int - 1),
                    possible_rep_score(sim.score as int, turn as int - 1,
                        strip_coins(self.dealer.cards@), self.hero, self.play_card_bonus),
                decreases sim.maxturn + 1 - turn,
            {
                sim.draw_card(rng);
                let ghost prevscore = sim.score as int;
                let ghost presim = sim;
                let score_a_turn = sim.play_a_turn(turn as i8, sim.max_search_depth, rng);
                proof {
                    // the turn's score extends the possible repetition total
                    assert(strip_coins(presim.dealer.cards@)
                        == strip_coins(self.dealer.cards@));
                    assert(presim.hero == self.hero
                        && presim.play_card_bonus == self.play_card_bonus);
                    assert(possible_turn_score(score_a_turn as int, turn as i8,
                        strip_coins(presim.dealer.cards@), presim.hero,
                        presim.play_card_bonus));
                    assert(possible_turn_score(score_a_turn as int, turn as i8,
                        strip_coins(self.dealer.cards@), self.hero, self.play_card_bonus));
                    assert(possible_rep_score(prevscore + score_a_turn, turn as int,
                        strip_coins(self.dealer.cards@), self.hero,
                        self.play_card_bonus)) by {
                        assert(possible_rep_score(prevscore, turn as int - 1,
                            strip_coins(self.dealer.cards@), self.hero,
                            self.play_card_bonus));
                        assert(turn as i8 == ((turn as int) as i8));
                        assert(possible_turn_score(score_a_turn as int,
                            ((turn as int) as i8), strip_coins(self.dealer.cards@),
                            self.hero, self.play_card_bonus));
                    }
                }
                proof {
                    assert(IMMEDIATE_BOUND * (turn as int - 1) <= IMMEDIATE_BOUND * 126
                        && -(IMMEDIATE_BOUND * 126) <= -(IMMEDIATE_BOUND * (turn as int - 1)))
                        by (nonlinear_arith)
                        requires
                            0 <= turn as int - 1 <= 126,
                    ;
                    assert(IMMEDIATE_BOUND * (turn as int)
                        == IMMEDIATE_BOUND * (turn as int - 1) + IMMEDIATE_BOUND)
                        by (nonlinear_arith);
                }
                sim.score = sim.score + score_a_turn;
                turn += 1;
            }
            proof {
                assert(-(IMMEDIATE_BOUND * (sim.maxturn as int)) <= sim.score
                    <= IMMEDIATE_BOUND * (sim.maxturn as int));
                assert(IMMEDIATE_BOUND * (sim.maxturn as int) <= REP_BOUND) by (nonlinear_arith)
                    requires
                        sim.maxturn as int <= 126,
                ;
                assert(REP_BOUND * (rep + 1) == REP_BOUND * rep + REP_BOUND)
                    by (nonlinear_arith);
                assert(REP_BOUND * rep <= REP_BOUND * 100000) by (nonlinear_arith)
                    requires
                        0 <= rep <= 100000,
                ;
            }
            proof {
                assert(turn as int == sim.maxturn as int + 1);
                assert(possible_rep_score(sim.score as int, turn as int - 1,
                    strip_coins(self.dealer.cards@), self.hero, self.play_card_bonus));
                assert(possible_rep_score(sim.score as int, sim.maxturn as int,
                    strip_coins(self.dealer.cards@), self.hero, self.play_card_bonus));
                assert(possible_rep_score(sim.score as int, self.maxturn as int,
                    strip_coins(self.dealer.cards@), self.hero, self.play_card_bonus));
                assert(possible_total(total + sim.score, rep as int + 1,
                    self.maxturn as int, strip_coins(self.dealer.cards@), self.hero,
                    self.play_card_bonus)) by {
                    assert(possible_total(total as int, rep as int, self.maxturn as int,
                        strip_coins(self.dealer.cards@), self.hero,
                        self.play_card_bonus));
                    assert(possible_total(total as int, (rep as int + 1) - 1,
                        self.maxturn as int, strip_coins(self.dealer.cards@), self.hero,
                        self.play_card_bonus));
                }
            }
            total = total + sim.score;
            rep += 1;
        }
        proof {
            assert(REP_BOUND * reps <= REP_BOUND * 100000) by (nonlinear_arith)
                requires
                    0 <= reps <= 100000,
            ;
        }
        proof {
            assert(possible_total(total as int, reps as int, self.maxturn as int,
                strip_coins(self.dealer.cards@), self.hero, self.play_card_bonus));
        }
        let avg = score_div(total, reps as i64);
        proof {
            let t = total as int;
            let rp = reps as int;
            assert(rp * (REP_BOUND as int) == (REP_BOUND as int) * rp) by (nonlinear_arith);
            vstd::arithmetic::div_mod::lemma_div_multiples_vanish(REP_BOUND as int, rp);
            if t >= 0 {
                vstd::arithmetic::div_mod::lemma_div_is_ordered(t, (REP_BOUND as int) * rp, rp);
                vstd::arithmetic::div_mod::lemma_div_pos_is_pos(t, rp);
            } else {
                vstd::arithmetic::div_mod::lemma_div_is_ordered(-t, (REP_BOUND as int) * rp,
                    rp);
                vstd::arithmetic::div_mod::lemma_div_pos_is_pos(-t, rp);
            }
        }
        avg
    }
}

/// One evaluated keep/redraw pattern of an opening hand: which cards of the
/// sorted hand are kept, the kept card values, and the simulated score.
pub struct MullEntry {
    pub flags: Vec<bool>,
    pub kept_cards: Vec<Card>,
    pub score: i64,
}

/// The deck positions of the sorted hand that a keep/redraw bit pattern
/// selects, reading the mask's bits from the high end: bit (len-1-i) keeps
/// the hand's i-th card.
pub open spec fn mask_positions(sh: Seq<usize>, m: u8, i: int) -> Seq<usize>
    decreases i,
{
    if i <= 0 {
        Seq::empty()
    } else {
        let rest = mask_positions(sh, m, i - 1);
        if (m >> ((sh.len() - i) as u32)) & 1 == 1 {
            rest.push(sh[i - 1])
        } else {
            rest
        }
    }
}

/// The card values at the given deck positions, in order.
pub open spec fn cards_at(cards: Seq<Card>, ps: Seq<usize>) -> Seq<Card> {
    Seq::new(ps.len(), |t: int| cards[ps[t] as int])
}

/// Positions listed in ascending order.
pub open spec fn sorted_positions(sh: Seq<usize>) -> bool {
    forall|a: int, b: int| 0 <= a < b < sh.len() ==> (#[trigger] sh[a]) <= (#[trigger] sh[b])
}

/// Every keep/redraw bit pattern below the bound has the multiset of the
/// cards it selects from the sorted hand represented among the entries.
pub open spec fn mull_covered(entries: Seq<MullEntry>, cards: Seq<Card>, sh: Seq<usize>,
    n: int) -> bool {
    forall|m: u8| #![trigger mask_positions(sh, m, sh.len() as int)] m < n
        ==> exists|e: int| 0 <= e < entries.len()
            && (#[trigger] entries[e]).kept_cards@.to_multiset()
            == cards_at(cards, mask_positions(sh, m, sh.len() as int)).to_multiset()
}

/// Sorts deck positions ascending with a selection sort.
fn sort_positions(v: &mut Vec<usize>)
    ensures
        final(v)@.len() == old(v)@.len(),
        final(v)@.to_multiset() == old(v)@.to_multiset(),
        forall|a: int, b: int| 0 <= a < b < final(v)@.len()
            ==> (#[trigger] final(v)@[a]) <= (#[trigger] final(v)@[b]),
{
    let n = v.len();
    let mut i: usize = 0;
    while i < n
        invariant
            n == v@.len(),
            i <= n,
            v@.to_multiset() == old(v)@.to_multiset(),
            forall|a: int, b: int| 0 <= a < b < i ==> (#[trigger] v@[a]) <= (#[trigger] v@[b]),
            forall|a: int, b: int| 0 <= a < i && i <= b < n
                ==> (#[trigger] v@[a]) <= (#[trigger] v@[b]),
        decreases n - i,
    {
        let ghost vs = v@;
        let mut m: usize = i;
        let mut j: usize = i + 1;
        while j < n
            invariant
                v@ == vs,
                n == v@.len(),
                i < n,
                i <= m < j,
                j <= n,
                forall|t: int| i <= t < j ==> (#[trigger] v@[m as int]) <= v@[t],
            decreases n - j,
        {
            if v[j] <= v[m] {
                m = j;
            }
            j += 1;
        }
        let tmp = v[i];
        let vm = v[m];
        v.set(i, vm);
        v.set(m, tmp);
        proof {
            assert(v@ == vs.update(i as int, vs[m as int]).update(m as int, vs[i as int]));
            crate::seqs::lemma_swap_multiset(vs, i as int, m as int);
            assert forall|a: int, b: int| 0 <= a < b < i + 1 implies (#[trigger] v@[a])
                <= (#[trigger] v@[b]) by {
                if b < i {
                    assert(v@[a] == vs[a] && v@[b] == vs[b]);
                } else {
                    assert(v@[a] == vs[a]);
                    assert(v@[b] == vs[m as int]);
                }
            }
            assert forall|a: int, b: int| 0 <= a < i + 1 && i + 1 <= b < n implies
                (#[trigger] v@[a]) <= (#[trigger] v@[b]) by {
                let vb = if b == m { vs[i as int] } else { vs[b] };
                assert(v@[b] == vb);
                if a < i {
                    assert(v@[a] == vs[a]);
                } else {
                    assert(v@[a] == vs[m as int]);
                    assert(vs[m as int] <= vb);
                }
            }
        }
        i += 1;
    }
}

/// Whether some evaluated entry already kept this multiset of cards.
fn entries_contain(entries: &Vec<MullEntry>, kept: &Vec<Card>) -> (r: bool)
    ensures
        r == exists|i: int| 0 <= i < entries@.len() && (#[trigger] entries@[i]).kept_cards@
            .to_multiset() == kept@.to_multiset(),
{
    let mut i: usize = 0;
    while i < entries.len()
        invariant
            i <= entries@.len(),
            forall|j: int| 0 <= j < i ==> (#[trigger] entries@[j]).kept_cards@.to_multiset()
                != kept@.to_multiset(),
        decreases entries@.len() - i,
    {
        if same_multiset(&entries[i].kept_cards, kept) {
            return true;
        }
        i += 1;
    }
    false
}

impl Simulator {
    /// The mulligan solver: every keep/redraw bit pattern of the opening
    /// hand is generated; patterns whose kept cards repeat an already
    /// evaluated multiset are skipped; each remaining pattern is scored by
    /// the simulation driver. The index of the best entry is returned with
    /// the full report, and the best entry's score is at least every other
    /// evaluated score. The deck is left reset.
    pub fn solve_mull(&mut self, hand: Vec<usize>, rng: &mut fastrand::Rng) -> (r: (usize,
        Vec<MullEntry>))
        requires
            old(self).wf(),
            old(self).dealer.cards@.len() < DECK_CAP,
            hand@.len() == old(self).play_order.start_hand_size_spec(),
            forall|i: int, j: int| 0 <= i < j < hand@.len()
                ==> (#[trigger] hand@[i]) != (#[trigger] hand@[j]),
            forall|i: int| 0 <= i < hand@.len() ==> (#[trigger] hand@[i])
                < strip_coins(old(self).dealer.cards@).len()
                && hand@[i] < old(self).dealer.cards@.len(),
            strip_coins(old(self).dealer.cards@).len()
                >= old(self).play_order.start_hand_size_spec() + old(self).maxturn as int
                + old(self).max_search_depth as int,
        ensures
            final(self).wf(),
            final(self).same_config(*old(self)),
            final(self).hand@.len() == 0,
            final(self).dealer.cards@ == strip_coins(old(self).dealer.cards@),
            forall|i: int| 0 <= i < final(self).dealer.card_location@.len()
                ==> final(self).dealer.card_location@[i] == CardLocation::InDeck,
            forall|e: int| 0 <= e < r.1@.len()
                ==> (#[trigger] r.1@[e]).flags@.len() == hand@.len(),
            forall|e: int| 0 <= e < r.1@.len()
                ==> achievable_average((#[trigger] r.1@[e]).score as int,
                    old(self).cycle_reps as int, old(self).maxturn as int,
                    strip_coins(old(self).dealer.cards@), old(self).hero,
                    old(self).play_card_bonus),
            exists|sh: Seq<usize>|
                #![trigger sh.to_multiset()]
                sh.to_multiset() == hand@.to_multiset() && sorted_positions(sh)
                    && mull_covered(r.1@, strip_coins(old(self).dealer.cards@), sh,
                    old(self).play_order.pattern_int_spec()),
            r.1@.len() >= 1,
            r.0 < r.1@.len(),
            forall|i: int| 0 <= i < r.1@.len() ==> (#[trigger] r.1@[i]).score
                <= r.1@[r.0 as int].score,
            forall|i: int, j: int| 0 <= i < j < r.1@.len()
                ==> (#[trigger] r.1@[i]).kept_cards@.to_multiset()
                    != (#[trigger] r.1@[j]).kept_cards@.to_multiset(),
            r.1@.len() <= old(self).play_order.pattern_int_spec(),
            r.1@[0].kept_cards@.len() == 0,
    {
        let mut hand = hand;
        let ghost hand0 = hand@;
        proof {
            hand0.lemma_multiset_has_no_duplicates();
        }
        sort_positions(&mut hand);
        proof {
            crate::seqs::lemma_submultiset_elements(hand@, hand0);
            assert forall|i: int| 0 <= i < hand@.len() implies (#[trigger] hand@[i])
                < strip_coins(old(self).dealer.cards@).len()
                && hand@[i] < old(self).dealer.cards@.len() by {
                assert(hand0.contains(hand@[i]));
                let w = choose|w: int| 0 <= w < hand0.len() && hand0[w] == hand@[i];
                assert(hand0[w] < old(self).dealer.cards@.len());
            }
            assert forall|x: usize| #[trigger] hand@.to_multiset().count(x) <= 1 by {
                if hand0.to_multiset().count(x) > 0 {
                    assert(hand0.to_multiset().contains(x));
                } else {
                    assert(hand@.to_multiset().count(x) == 0);
                }
            }
        }
        // the kept cards are reported from the stripped deck, the deck every
        // trial actually plays with
        let mut stripped: Vec<Card> = Vec::new();
        let mut si: usize = 0;
        while si < self.dealer.cards.len()
            invariant
                si <= self.dealer.cards@.len(),
                self.dealer.cards@ == old(self).dealer.cards@,
                stripped@ == strip_coins(self.dealer.cards@.take(si as int)),
            decreases self.dealer.cards@.len() - si,
        {
            proof {
                assert(self.dealer.cards@.take(si as int + 1)
                    =~= self.dealer.cards@.take(si as int).push(self.dealer.cards@[si as int]));
                assert(self.dealer.cards@.take(si as int + 1).drop_last()
                    =~= self.dealer.cards@.take(si as int));
            }
            if !self.dealer.cards[si].is_coin() {
                stripped.push(self.dealer.cards[si]);
            }
            si += 1;
        }
        proof {
            assert(self.dealer.cards@.take(self.dealer.cards@.len() as int)
                =~= self.dealer.cards@);
            assert(stripped@ == strip_coins(old(self).dealer.cards@));
        }
        let n = self.play_order.get_pattern_int();
        let size = self.play_order.get_start_hand_size();
        let mut entries: Vec<MullEntry> = Vec::new();
        let mut best: usize = 0;
        let mut index: u8 = 0;
        while index < n
            invariant
                index <= n,
                n == old(self).play_order.pattern_int_spec(),
                size == old(self).play_order.start_hand_size_spec(),
                self.wf(),
                *self == *old(self) || self.same_config(*old(self)),
                old(self).dealer.cards@.len() < DECK_CAP,
                self.dealer.cards@ == old(self).dealer.cards@,
                self.dealer.card_location@ == old(self).dealer.card_location@,
                self.hand@ == old(self).hand@,
                hand@.len() == size,
                forall|i: int| 0 <= i < hand@.len() ==> (#[trigger] hand@[i])
                    < strip_coins(old(self).dealer.cards@).len()
                    && hand@[i] < old(self).dealer.cards@.len(),
                forall|x: usize| #[trigger] hand@.to_multiset().count(x) <= 1,
                forall|a: int, b: int| 0 <= a < b < hand@.len()
                    ==> (#[trigger] hand@[a]) <= (#[trigger] hand@[b]),
                hand@.to_multiset() == hand0.to_multiset(),
                stripped@ == strip_coins(old(self).dealer.cards@),
                strip_coins(old(self).dealer.cards@).len()
                    >= size + old(self).maxturn as int + old(self).max_search_depth as int,
                mull_covered(entries@, strip_coins(old(self).dealer.cards@), hand@, index as int),
                entries@.len() <= index,
                forall|e: int| 0 <= e < entries@.len()
                    ==> (#[trigger] entries@[e]).flags@.len() == hand@.len(),
                forall|e: int| 0 <= e < entries@.len()
                    ==> achievable_average((#[trigger] entries@[e]).score as int,
                        old(self).cycle_reps as int, old(self).maxturn as int,
                        strip_coins(old(self).dealer.cards@), old(self).hero,
                        old(self).play_card_bonus),
                entries@.len() == 0 ==> index == 0 && best == 0,
                entries@.len() > 0 ==> best < entries@.len()
                    && entries@[0].kept_cards@.len() == 0,
                forall|i: int| 0 <= i < entries@.len() ==> (#[trigger] entries@[i]).score
                    <= entries@[best as int].score,
                forall|i: int, j: int| 0 <= i < j < entries@.len()
                    ==> (#[trigger] entries@[i]).kept_cards@.to_multiset()
                        != (#[trigger] entries@[j]).kept_cards@.to_multiset(),
            decreases n - index,
        {
            let mut keptp: Vec<usize> = Vec::new();
            let mut flags: Vec<bool> = Vec::new();
            let mut i: usize = 0;
            while i < size as usize
                invariant
                    i <= size as usize,
                    size == 3 || size == 4,
                    size as usize == hand@.len(),
                    index == 0 ==> keptp@.len() == 0,
                    flags@.len() == i,
                    forall|t: int| 0 <= t < keptp@.len() ==> (#[trigger] keptp@[t])
                        < strip_coins(old(self).dealer.cards@).len()
                        && keptp@[t] < old(self).dealer.cards@.len(),
                    forall|x: usize| #[trigger] hand@.to_multiset().count(x) <= 1,
                    forall|i2: int| 0 <= i2 < hand@.len() ==> (#[trigger] hand@[i2])
                        < strip_coins(old(self).dealer.cards@).len()
                        && hand@[i2] < old(self).dealer.cards@.len(),
                    keptp@ == mask_positions(hand@, index, i as int),
                    keptp@.to_multiset().subset_of(hand@.take(i as int).to_multiset()),
                decreases size as usize - i,
            {
                let bit = (index >> ((size as usize - 1 - i) as u32)) & 1u8;
                proof {
                    assert(hand@.take(i as int + 1)
                        =~= hand@.take(i as int).push(hand@[i as int]));
                }
                if bit == 1u8 {
                    proof {
                        if index == 0 {
                            assert(index >> ((size as usize - 1 - i) as u32) == 0) by (
                            bit_vector)
                                requires
                                    index == 0u8,
                            ;
                            assert(0u8 & 1u8 == 0u8) by (bit_vector);
                        }
                        crate::seqs::lemma_submultiset_insert(keptp@.to_multiset(),
                            hand@.take(i as int).to_multiset(), hand@[i as int]);
                    }
                    keptp.push(hand[i]);
                    flags.push(true);
                } else {
                    proof {
                        assert forall|y: usize| keptp@.to_multiset().count(y)
                            <= hand@.take(i as int + 1).to_multiset().count(y) by {
                            assert(keptp@.to_multiset().count(y)
                                <= hand@.take(i as int).to_multiset().count(y));
                        }
                        assert(keptp@.to_multiset().subset_of(
                            hand@.take(i as int + 1).to_multiset()));
                    }
                    flags.push(false);
                }
                i += 1;
            }
            proof {
                crate::seqs::lemma_take_submultiset(hand@, size as int);
                assert(hand@.take(hand@.len() as int) =~= hand@);
                assert forall|y: usize| keptp@.to_multiset().count(y)
                    <= hand@.to_multiset().count(y) by {
                    assert(keptp@.to_multiset().count(y)
                        <= hand@.take(size as int).to_multiset().count(y));
                }
                assert forall|x: usize| #[trigger] keptp@.to_multiset().count(x) <= 1 by {
                    assert(hand@.to_multiset().count(x) <= 1);
                }
                keptp@.lemma_multiset_has_no_duplicates_conv();
                lemma_submultiset_len(keptp@.to_multiset(), hand@.to_multiset());
            }
            let mut kept_cards: Vec<Card> = Vec::new();
            let mut kt: usize = 0;
            while kt < keptp.len()
                invariant
                    kt <= keptp@.len(),
                    stripped@ == strip_coins(old(self).dealer.cards@),
                    forall|t: int| 0 <= t < keptp@.len() ==> (#[trigger] keptp@[t])
                        < strip_coins(old(self).dealer.cards@).len(),
                    kept_cards@.len() == kt,
                    forall|t: int| 0 <= t < kt
                        ==> (#[trigger] kept_cards@[t]) == stripped@[keptp@[t] as int],
                decreases keptp@.len() - kt,
            {
                kept_cards.push(stripped[keptp[kt]]);
                kt += 1;
            }
            proof {
                assert(keptp@ == mask_positions(hand@, index, hand@.len() as int));
                assert(kept_cards@ =~= cards_at(strip_coins(old(self).dealer.cards@),
                    keptp@));
            }
            let ghost pre_entries = entries@;
            let dup = entries_contain(&entries, &kept_cards);
            if !dup {
                let score = self.start_simulation(&keptp, rng);
                proof {
                    // the entry's score is an average the driver can reach
                    assert(self.cycle_reps == old(self).cycle_reps
                        && self.maxturn == old(self).maxturn
                        && self.hero == old(self).hero
                        && self.play_card_bonus == old(self).play_card_bonus);
                    assert(achievable_average(score as int, old(self).cycle_reps as int,
                        old(self).maxturn as int, strip_coins(old(self).dealer.cards@),
                        old(self).hero, old(self).play_card_bonus));
                }
                let e = MullEntry { flags, kept_cards, score };
                let ghost before = entries@;
                let ghost oldbest = best as int;
                let newidx = entries.len();
                let is_new_best = newidx == 0 || score >= entries[best].score;
                if is_new_best {
                    best = newidx;
                }
                entries.push(e);
                proof {
                    assert forall|t: int| 0 <= t < entries@.len() implies
                        (#[trigger] entries@[t]).score <= entries@[best as int].score by {
                        if t < before.len() {
                            assert(entries@[t] == before[t]);
                        }
                        if is_new_best {
                            assert(entries@[best as int].score == score);
                            if t < before.len() {
                                assert(before[t].score <= before[oldbest].score);
                            }
                        } else {
                            assert(entries@[best as int] == before[oldbest]);
                        }
                    }
                    assert forall|t: int, u: int| 0 <= t < u < entries@.len() implies
                        (#[trigger] entries@[t]).kept_cards@.to_multiset()
                            != (#[trigger] entries@[u]).kept_cards@.to_multiset() by {
                        if u < before.len() {
                            assert(entries@[t] == before[t] && entries@[u] == before[u]);
                        } else {
                            assert(entries@[t] == before[t]);
                        }
                    }
                    if before.len() == 0 {
                        assert(entries@[0].kept_cards@.len() == 0);
                    } else {
                        assert(entries@[0] == before[0]);
                    }
                }
            }
            proof {
                // every bit pattern seen so far has its kept multiset among
                // the entries: the new mask's either just joined or already
                // repeated an earlier multiset
                assert forall|m: u8|
                    #![trigger mask_positions(hand@, m, hand@.len() as int)]
                    m < index + 1 implies exists|e: int| 0 <= e < entries@.len()
                    && (#[trigger] entries@[e]).kept_cards@.to_multiset()
                    == cards_at(strip_coins(old(self).dealer.cards@),
                        mask_positions(hand@, m, hand@.len() as int)).to_multiset() by {
                    assert(mull_covered(pre_entries, strip_coins(old(self).dealer.cards@), hand@,
                        index as int));
                    if m == index {
                        if dup {
                            let w = choose|w: int| 0 <= w < pre_entries.len()
                                && (#[trigger] pre_entries[w]).kept_cards@.to_multiset()
                                == kept_cards@.to_multiset();
                            assert(entries@[w] == pre_entries[w]);
                            assert(entries@[w].kept_cards@.to_multiset()
                                == cards_at(strip_coins(old(self).dealer.cards@),
                                mask_positions(hand@, m, hand@.len() as int)).to_multiset());
                        } else {
                            let w = entries@.len() - 1;
                            assert(entries@[w].kept_cards@ == kept_cards@);
                        }
                    } else {
                        let w = choose|w: int| 0 <= w < pre_entries.len()
                            && (#[trigger] pre_entries[w]).kept_cards@.to_multiset()
                            == cards_at(strip_coins(old(self).dealer.cards@),
                                mask_positions(hand@, m, hand@.len() as int)).to_multiset();
                        assert(entries@[w] == pre_entries[w]);
                    }
                }
                assert(mull_covered(entries@, strip_coins(old(self).dealer.cards@), hand@,
                    index as int + 1));
            }
            index += 1;
        }
        proof {
            assert(entries@.len() >= 1);
            // the sorted hand realizes the representation clause
            assert(hand@.to_multiset() == hand0.to_multiset());
            assert(forall|a: int, b: int| 0 <= a < b < hand@.len()
                ==> (#[trigger] hand@[a]) <= (#[trigger] hand@[b]));
            assert(forall|m: u8| #![trigger mask_positions(hand@, m, hand@.len() as int)]
                m < old(self).play_order.pattern_int_spec()
                ==> exists|e: int| 0 <= e < entries@.len()
                    && (#[trigger] entries@[e]).kept_cards@.to_multiset()
                    == cards_at(strip_coins(old(self).dealer.cards@),
                        mask_positions(hand@, m, hand@.len() as int)).to_multiset());
        }
        let ghost sorted_hand = hand@;
        proof {
            assert(sorted_positions(sorted_hand));
            assert(mull_covered(entries@, strip_coins(old(self).dealer.cards@), sorted_hand,
                old(self).play_order.pattern_int_spec()));
            assert(sorted_hand.to_multiset() == hand0.to_multiset());
        }
        self.reset();
        proof {
            lemma_strip_coins_idempotent(old(self).dealer.cards@);
        }
        (best, entries)
    }
}

/// Whether the bytes spell the given word, one helper per word length.
fn eq2(w: &[u8], b0: u8, b1: u8) -> (r: bool)
    ensures
        r == (w@ == seq![b0, b1]),
{
    let r = w.len() == 2 && w[0] == b0 && w[1] == b1;
    proof {
        if r {
            assert(w@ =~= seq![b0, b1]);
        } else {
            if w@ == seq![b0, b1] {
                assert(w@.len() == 2);
            }
        }
    }
    r
}

fn eq4(w: &[u8], b0: u8, b1: u8, b2: u8, b3: u8) -> (r: bool)
    ensures
        r == (w@ == seq![b0, b1, b2, b3]),
{
    let r = w.len() == 4 && w[0] == b0 && w[1] == b1 && w[2] == b2 && w[3] == b3;
    proof {
        if r {
            assert(w@ =~= seq![b0, b1, b2, b3]);
        } else {
            if w@ == seq![b0, b1, b2, b3] {
                assert(w@.len() == 4);
            }
        }
    }
    r
}

fn eq5(w: &[u8], b0: u8, b1: u8, b2: u8, b3: u8, b4: u8) -> (r: bool)
    ensures
        r == (w@ == seq![b0, b1, b2, b3, b4]),
{
    let r = w.len() == 5 && w[0] == b0 && w[1] == b1 && w[2] == b2 && w[3] == b3 && w[4] == b4;
    proof {
        if r {
            assert(w@ =~= seq![b0, b1, b2, b3, b4]);
        } else {
            if w@ == seq![b0, b1, b2, b3, b4] {
                assert(w@.len() == 5);
            }
        }
    }
    r
}

fn eq6(w: &[u8], b0: u8, b1: u8, b2: u8, b3: u8, b4: u8, b5: u8) -> (r: bool)
    ensures
        r == (w@ == seq![b0, b1, b2, b3, b4, b5]),
{
    let r = w.len() == 6 && w[0] == b0 && w[1] == b1 && w[2] == b2 && w[3] == b3 && w[4] == b4 && w[5] == b5;
    proof {
        if r {
            assert(w@ =~= seq![b0, b1, b2, b3, b4, b5]);
        } else {
            if w@ == seq![b0, b1, b2, b3, b4, b5] {
                assert(w@.len() == 6);
            }
        }
    }
    r
}

fn eq7(w: &[u8], b0: u8, b1: u8, b2: u8, b3: u8, b4: u8, b5: u8, b6: u8) -> (r: bool)
    ensures
        r == (w@ == seq![b0, b1, b2, b3, b4, b5, b6]),
{
    let r = w.len() == 7 && w[0] == b0 && w[1] == b1 && w[2] == b2 && w[3] == b3 && w[4] == b4 && w[5] == b5 && w[6] == b6;
    proof {
        if r {
            assert(w@ =~= seq![b0, b1, b2, b3, b4, b5, b6]);
        } else {
            if w@ == seq![b0, b1, b2, b3, b4, b5, b6] {
                assert(w@.len() == 7);
            }
        }
    }
    r
}

/// Whether a command word names a hero, in long or short form.
pub open spec fn hero_word(w: Seq<u8>) -> bool {
    ||| w == seq![119u8, 114u8]
    ||| w == seq![119u8, 97u8, 114u8, 114u8, 105u8, 111u8, 114u8]
    ||| w == seq![119u8, 108u8]
    ||| w == seq![119u8, 97u8, 114u8, 108u8, 111u8, 99u8, 107u8]
    ||| w == seq![112u8, 114u8]
    ||| w == seq![112u8, 114u8, 105u8, 101u8, 115u8, 116u8]
    ||| w == seq![100u8, 114u8]
    ||| w == seq![100u8, 114u8, 117u8, 105u8, 100u8]
    ||| w == seq![109u8, 97u8]
    ||| w == seq![109u8, 97u8, 103u8, 101u8]
    ||| w == seq![112u8, 97u8]
    ||| w == seq![112u8, 97u8, 108u8, 97u8, 100u8, 105u8, 110u8]
    ||| w == seq![115u8, 104u8]
    ||| w == seq![115u8, 104u8, 97u8, 109u8, 97u8, 110u8]
    ||| w == seq![114u8, 111u8]
    ||| w == seq![114u8, 111u8, 103u8, 117u8, 101u8]
    ||| w == seq![104u8, 117u8]
    ||| w == seq![104u8, 117u8, 110u8, 116u8, 101u8, 114u8]
    ||| w == seq![100u8, 104u8]
}

impl Simulator {
    /// Sets the hero from its command word, long or short form; an unknown
    /// word changes nothing and reports the failure.
    pub fn set_hero(&mut self, word: &[u8]) -> (r: bool)
        requires
            old(self).wf(),
        ensures
            final(self).wf(),
            final(self).dealer == old(self).dealer,
            final(self).hand@ == old(self).hand@,
            final(self).score == old(self).score,
            final(self).cycle_reps == old(self).cycle_reps,
            final(self).maxturn == old(self).maxturn,
            final(self).max_search_depth == old(self).max_search_depth,
            final(self).play_order == old(self).play_order,
            final(self).play_card_bonus == old(self).play_card_bonus,
            r == hero_word(word@),
            !r ==> final(self).hero == old(self).hero,
            word@ == seq![119u8, 114u8] || word@ == seq![119u8, 97u8, 114u8, 114u8, 105u8, 111u8, 114u8]
                ==> r && final(self).hero == Hero::Warrior,
            word@ == seq![119u8, 108u8] || word@ == seq![119u8, 97u8, 114u8, 108u8, 111u8, 99u8, 107u8]
                ==> r && final(self).hero == Hero::Warlock,
            word@ == seq![112u8, 114u8] || word@ == seq![112u8, 114u8, 105u8, 101u8, 115u8, 116u8]
                ==> r && final(self).hero == Hero::Priest,
            word@ == seq![100u8, 114u8] || word@ == seq![100u8, 114u8, 117u8, 105u8, 100u8]
                ==> r && final(self).hero == Hero::Druid,
            word@ == seq![109u8, 97u8] || word@ == seq![109u8, 97u8, 103u8, 101u8]
                ==> r && final(self).hero == Hero::Mage,
            word@ == seq![112u8, 97u8] || word@ == seq![112u8, 97u8, 108u8, 97u8, 100u8, 105u8, 110u8]
                ==> r && final(self).hero == Hero::Paladin,
            word@ == seq![115u8, 104u8] || word@ == seq![115u8, 104u8, 97u8, 109u8, 97u8, 110u8]
                ==> r && final(self).hero == Hero::Shaman,
            word@ == seq![114u8, 111u8] || word@ == seq![114u8, 111u8, 103u8, 117u8, 101u8]
                ==> r && final(self).hero == Hero::Rogue,
            word@ == seq![104u8, 117u8] || word@ == seq![104u8, 117u8, 110u8, 116u8, 101u8, 114u8]
                ==> r && final(self).hero == Hero::Hunter,
            word@ == seq![100u8, 104u8] ==> r && final(self).hero == Hero::DemonHunter,
    {
        let hero = if eq2(word, 119u8, 114u8) || eq7(word, 119u8, 97u8, 114u8, 114u8, 105u8, 111u8, 114u8) {
            Some(Hero::Warrior)
        } else if eq2(word, 119u8, 108u8) || eq7(word, 119u8, 97u8, 114u8, 108u8, 111u8, 99u8, 107u8) {
            Some(Hero::Warlock)
        } else if eq2(word, 112u8, 114u8) || eq6(word, 112u8, 114u8, 105u8, 101u8, 115u8, 116u8) {
            Some(Hero::Priest)
        } else if eq2(word, 100u8, 114u8) || eq5(word, 100u8, 114u8, 117u8, 105u8, 100u8) {
            Some(Hero::Druid)
        } else if eq2(word, 109u8, 97u8) || eq4(word, 109u8, 97u8, 103u8, 101u8) {
            Some(Hero::Mage)
        } else if eq2(word, 112u8, 97u8) || eq7(word, 112u8, 97u8, 108u8, 97u8, 100u8, 105u8, 110u8) {
            Some(Hero::Paladin)
        } else if eq2(word, 115u8, 104u8) || eq6(word, 115u8, 104u8, 97u8, 109u8, 97u8, 110u8) {
            Some(Hero::Shaman)
        } else if eq2(word, 114u8, 111u8) || eq5(word, 114u8, 111u8, 103u8, 117u8, 101u8) {
            Some(Hero::Rogue)
        } else if eq2(word, 104u8, 117u8) || eq6(word, 104u8, 117u8, 110u8, 116u8, 101u8, 114u8) {
            Some(Hero::Hunter)
        } else if eq2(word, 100u8, 104u8) {
            Some(Hero::DemonHunter)
        } else {
            None
        };
        match hero {
            Some(h) => {
                self.hero = h;
                true
            },
            None => false,
        }
    }
}

impl Simulator {
    /// Shows how a hypothetical hand would be played at a given mana: the
    /// hand's cards are placed into a fresh location view over the real
    /// deck and the turn is evaluated there, changing nothing. Fails
    /// exactly when some declared card is not in the deck.
    pub fn play_a_hand(&self, hand: &Vec<Card>, mana: i8, rng: &mut fastrand::Rng) -> (r:
        Option<(Vec<Card>, i64)>)
        requires
            self.dealer.wf(),
            1 <= mana,
            mana as int + self.max_search_depth as int <= 126,
            self.dealer.cards@.len() >= hand@.len() + self.max_search_depth as int,
        ensures
            r is Some <==> hand@.to_multiset().subset_of(self.dealer.cards@.to_multiset()),
            r matches Some(p) ==> fits_budget(p.0@, mana)
                && p.0@.to_multiset().subset_of(hand@.to_multiset())
                && (exists|v: Seq<CardLocation>| #![trigger v.len()]
                    v.len() == self.dealer.cards@.len()
                    && loc_of(self.dealer.cards@, v, CardLocation::InHand).to_multiset()
                        == hand@.to_multiset()
                    && self.possible_turn_value(p.1 as int, v, mana,
                        self.max_search_depth)),
    {
        // a fresh view with everything in the deck
        let mut view: Vec<CardLocation> = Vec::new();
        let mut i: usize = 0;
        while i < self.dealer.cards.len()
            invariant
                i <= self.dealer.cards@.len(),
                view@.len() == i,
                forall|t: int| 0 <= t < i ==> view@[t] == CardLocation::InDeck,
                count_loc(view@, CardLocation::InDeck) == i,
            decreases self.dealer.cards@.len() - i,
        {
            proof {
                assert(view@.push(CardLocation::InDeck).drop_last() =~= view@);
            }
            view.push(CardLocation::InDeck);
            i += 1;
        }
        proof {
            lemma_loc_of_uniform(self.dealer.cards@, view@, CardLocation::InDeck);
        }
        let ps = match self.dealer.cards_to_position(hand, CardLocation::InDeck, &view) {
            Some(ps) => ps,
            None => {
                return None;
            },
        };
        proof {
            crate::dealer::lemma_loc_of_absent(self.dealer.cards@, view@,
                CardLocation::InHand);
            assert(loc_of(self.dealer.cards@, view@, CardLocation::InHand).to_multiset()
                =~= hand@.take(0).to_multiset()) by {
                assert(hand@.take(0).to_multiset().len() == 0);
                assert(Seq::<Card>::empty().to_multiset().len() == 0);
            }
        }
        let mut t: usize = 0;
        while t < ps.len()
            invariant
                t <= ps@.len(),
                view@.len() == self.dealer.cards@.len(),
                ps@.len() == hand@.len(),
                forall|u: int| 0 <= u < ps@.len() ==> (#[trigger] ps@[u]) < view@.len()
                    && self.dealer.cards@[ps@[u] as int] == hand@[u],
                forall|u: int, w: int| 0 <= u < w < ps@.len()
                    ==> (#[trigger] ps@[u]) != (#[trigger] ps@[w]),
                forall|u: int| t <= u < ps@.len()
                    ==> (#[trigger] view@[ps@[u] as int]) == CardLocation::InDeck,
                loc_of(self.dealer.cards@, view@, CardLocation::InHand).to_multiset()
                    == hand@.take(t as int).to_multiset(),
                count_loc(view@, CardLocation::InDeck)
                    >= self.dealer.cards@.len() - t,
            decreases ps@.len() - t,
        {
            let ghost prev = view@;
            view.set(ps[t], CardLocation::InHand);
            proof {
                lemma_count_loc_update(prev, ps@[t as int] as int, CardLocation::InHand,
                    CardLocation::InDeck);
                lemma_loc_of_update(self.dealer.cards@, prev, ps@[t as int] as int,
                    CardLocation::InHand, CardLocation::InHand);
                assert(hand@.take(t as int + 1)
                    =~= hand@.take(t as int).push(hand@[t as int]));
                assert forall|u: int| t + 1 <= u < ps@.len() implies
                    (#[trigger] view@[ps@[u] as int]) == CardLocation::InDeck by {
                    assert(ps@[u] != ps@[t as int]);
                    assert(view@[ps@[u] as int] == prev[ps@[u] as int]);
                }
            }
            t += 1;
        }
        proof {
            assert(hand@.take(hand@.len() as int) =~= hand@);
        }
        let picked = self.evaluate_turn(&view, mana, self.max_search_depth, rng);
        proof {
            assert(view@.len() == self.dealer.cards@.len());
            assert(loc_of(self.dealer.cards@, view@, CardLocation::InHand).to_multiset()
                == hand@.to_multiset());
            assert(self.possible_turn_value(picked.1 as int, view@, mana,
                self.max_search_depth));
        }
        Some(picked)
    }

    /// The standard keep-heuristic archetypes: for each line, the fuller
    /// hand and the thinner hand whose simulated scores are subtracted.
    pub open spec fn archetype_pair(k: int) -> (Seq<Card>, Seq<Card>) {
        let n1 = Card { mana: 1i8, power: CardPower::Normal };
        let s1 = Card { mana: 1i8, power: CardPower::Strong };
        let n2 = Card { mana: 2i8, power: CardPower::Normal };
        let n3 = Card { mana: 3i8, power: CardPower::Normal };
        let s3 = Card { mana: 3i8, power: CardPower::Strong };
        let n4 = Card { mana: 4i8, power: CardPower::Normal };
        let s4 = Card { mana: 4i8, power: CardPower::Strong };
        if k == 0 {
            (seq![n1], Seq::<Card>::empty())
        } else if k == 1 {
            (seq![s1], Seq::<Card>::empty())
        } else if k == 2 {
            (seq![n2], Seq::<Card>::empty())
        } else if k == 3 {
            (seq![n3], Seq::<Card>::empty())
        } else if k == 4 {
            (seq![s3], Seq::<Card>::empty())
        } else if k == 5 {
            (seq![n4], Seq::<Card>::empty())
        } else if k == 6 {
            (seq![s4], Seq::<Card>::empty())
        } else if k == 7 {
            (seq![n2, n2, n3], seq![n2, n3])
        } else if k == 8 {
            (seq![n2, n3, n3], seq![n2, n3])
        } else if k == 9 {
            (seq![n1, n3], seq![n1])
        } else {
            (seq![n2, n4], seq![n2])
        }
    }

    /// Runs the standard archetype comparisons: for each common keep
    /// heuristic, the score of keeping the fuller hand minus the score of
    /// the thinner one, where both hands can be found in the deck; a line
    /// yields a value exactly when both of its hands can be placed.
    pub fn sim_common_pattern(&self, rng: &mut fastrand::Rng) -> (r: Vec<Option<i64>>)
        requires
            self.wf(),
            self.dealer.cards@.len() < DECK_CAP,
            strip_coins(self.dealer.cards@).len() >= self.play_order.start_hand_size_spec()
                + self.maxturn as int + self.max_search_depth as int,
        ensures
            r@.len() == 11,
            forall|k: int| 0 <= k < r@.len() ==> (((#[trigger] r@[k]) is Some)
                <==> self.placeable(Self::archetype_pair(k).0)
                    && self.placeable(Self::archetype_pair(k).1)),
            forall|i: int| 0 <= i < r@.len() ==> ((#[trigger] r@[i]) matches Some(d)
                ==> -2 * REP_BOUND <= d <= 2 * REP_BOUND
                    && (exists|a1: int|
                        #![trigger achievable_average(a1, self.cycle_reps as int,
                            self.maxturn as int, strip_coins(self.dealer.cards@),
                            self.hero, self.play_card_bonus)]
                        achievable_average(a1, self.cycle_reps as int,
                            self.maxturn as int, strip_coins(self.dealer.cards@),
                            self.hero, self.play_card_bonus)
                        && achievable_average(a1 - d, self.cycle_reps as int,
                            self.maxturn as int, strip_coins(self.dealer.cards@),
                            self.hero, self.play_card_bonus))),
    {
        let mut table: Vec<(Vec<Card>, Vec<Card>)> = Vec::new();
        let n1 = Card { mana: 1i8, power: CardPower::Normal };
        let s1 = Card { mana: 1i8, power: CardPower::Strong };
        let n2 = Card { mana: 2i8, power: CardPower::Normal };
        let n3 = Card { mana: 3i8, power: CardPower::Normal };
        let s3 = Card { mana: 3i8, power: CardPower::Strong };
        let n4 = Card { mana: 4i8, power: CardPower::Normal };
        let s4 = Card { mana: 4i8, power: CardPower::Strong };
        let mut h: Vec<Card> = Vec::new();
        h.push(n1);
        table.push((h, Vec::new()));
        let mut h: Vec<Card> = Vec::new();
        h.push(s1);
        table.push((h, Vec::new()));
        let mut h: Vec<Card> = Vec::new();
        h.push(n2);
        table.push((h, Vec::new()));
        let mut h: Vec<Card> = Vec::new();
        h.push(n3);
        table.push((h, Vec::new()));
        let mut h: Vec<Card> = Vec::new();
        h.push(s3);
        table.push((h, Vec::new()));
        let mut h: Vec<Card> = Vec::new();
        h.push(n4);
        table.push((h, Vec::new()));
        let mut h: Vec<Card> = Vec::new();
        h.push(s4);
        table.push((h, Vec::new()));
        let mut h: Vec<Card> = Vec::new();
        h.push(n2);
        h.push(n2);
        h.push(n3);
        let mut g: Vec<Card> = Vec::new();
        g.push(n2);
        g.push(n3);
        table.push((h, g));
        let mut h: Vec<Card> = Vec::new();
        h.push(n2);
        h.push(n3);
        h.push(n3);
        let mut g: Vec<Card> = Vec::new();
        g.push(n2);
        g.push(n3);
        table.push((h, g));
        let mut h: Vec<Card> = Vec::new();
        h.push(n1);
        h.push(n3);
        let mut g: Vec<Card> = Vec::new();
        g.push(n1);
        table.push((h, g));
        let mut h: Vec<Card> = Vec::new();
        h.push(n2);
        h.push(n4);
        let mut g: Vec<Card> = Vec::new();
        g.push(n2);
        table.push((h, g));
        proof {
            assert forall|k: int| 0 <= k < 11 implies
                (#[trigger] table@[k]).0@ == Self::archetype_pair(k).0
                && table@[k].1@ == Self::archetype_pair(k).1 by {
                assert(table@[k].0@ =~= Self::archetype_pair(k).0);
                assert(table@[k].1@ =~= Self::archetype_pair(k).1);
            }
        }
        let mut out: Vec<Option<i64>> = Vec::new();
        let mut k: usize = 0;
        while k < table.len()
            invariant
                k <= table@.len(),
                table@.len() == 11,
                out@.len() == k,
                self.wf(),
                self.dealer.cards@.len() < DECK_CAP,
                strip_coins(self.dealer.cards@).len()
                    >= self.play_order.start_hand_size_spec() + self.maxturn as int
                    + self.max_search_depth as int,
                forall|t: int| 0 <= t < 11 ==> (#[trigger] table@[t]).0@
                    == Self::archetype_pair(t).0
                    && table@[t].1@ == Self::archetype_pair(t).1,
                forall|t: int| 0 <= t < out@.len() ==> (((#[trigger] out@[t]) is Some)
                    <==> self.placeable(Self::archetype_pair(t).0)
                        && self.placeable(Self::archetype_pair(t).1)),
                forall|i: int| 0 <= i < out@.len() ==> ((#[trigger] out@[i]) matches Some(d)
                    ==> -2 * REP_BOUND <= d <= 2 * REP_BOUND
                        && (exists|a1: int|
                            #![trigger achievable_average(a1, self.cycle_reps as int,
                                self.maxturn as int, strip_coins(self.dealer.cards@),
                                self.hero, self.play_card_bonus)]
                            achievable_average(a1, self.cycle_reps as int,
                                self.maxturn as int, strip_coins(self.dealer.cards@),
                                self.hero, self.play_card_bonus)
                            && achievable_average(a1 - d, self.cycle_reps as int,
                                self.maxturn as int, strip_coins(self.dealer.cards@),
                                self.hero, self.play_card_bonus))),
            decreases table@.len() - k,
        {
            let delta = self.sim_one_pattern(&table[k].0, &table[k].1, rng);
            out.push(delta);
            k += 1;
        }
        out
    }

    /// The location view with every position that a reset would not keep
    /// masked out: a declared card may only be matched to a reset-stable
    /// in-deck position.
    pub open spec fn reset_stable_view(self) -> Seq<CardLocation> {
        Seq::new(self.dealer.card_location@.len(), |i: int|
            if i < strip_coins(self.dealer.cards@).len()
                && self.dealer.card_location@[i] == CardLocation::InDeck {
                CardLocation::InDeck
            } else {
                CardLocation::NoWhere
            })
    }

    /// Whether a hand of card values can be placed for a simulated trial:
    /// each value found at a distinct reset-stable in-deck position, and no
    /// more values than the starting hand holds.
    pub open spec fn placeable(self, h: Seq<Card>) -> bool {
        &&& h.to_multiset().subset_of(loc_of(self.dealer.cards@, self.reset_stable_view(),
            CardLocation::InDeck).to_multiset())
        &&& h.len() <= self.play_order.start_hand_size_spec()
    }

    /// Builds the reset-stable view.
    fn stable_view(&self) -> (r: Vec<CardLocation>)
        requires
            self.dealer.wf(),
        ensures
            r@ == self.reset_stable_view(),
    {
        let slen = self.stripped_len();
        let mut r: Vec<CardLocation> = Vec::new();
        let mut i: usize = 0;
        while i < self.dealer.card_location.len()
            invariant
                i <= self.dealer.card_location@.len(),
                slen == strip_coins(self.dealer.cards@).len(),
                r@.len() == i,
                forall|t: int| 0 <= t < i ==> r@[t] == self.reset_stable_view()[t],
            decreases self.dealer.card_location@.len() - i,
        {
            if i < slen && self.dealer.card_location[i] == CardLocation::InDeck {
                r.push(CardLocation::InDeck);
            } else {
                r.push(CardLocation::NoWhere);
            }
            i += 1;
        }
        proof {
            assert(r@ =~= self.reset_stable_view());
        }
        r
    }

    /// The stripped deck's length: how many non-coin cards the deck holds.
    fn stripped_len(&self) -> (r: usize)
        requires
            self.dealer.wf(),
        ensures
            r == strip_coins(self.dealer.cards@).len(),
    {
        let mut slen: usize = 0;
        let mut i: usize = 0;
        while i < self.dealer.cards.len()
            invariant
                i <= self.dealer.cards@.len(),
                slen == strip_coins(self.dealer.cards@.take(i as int)).len(),
                slen <= i,
            decreases self.dealer.cards@.len() - i,
        {
            proof {
                assert(self.dealer.cards@.take(i as int + 1)
                    =~= self.dealer.cards@.take(i as int).push(self.dealer.cards@[i as int]));
                assert(self.dealer.cards@.take(i as int + 1).drop_last()
                    =~= self.dealer.cards@.take(i as int));
            }
            if !self.dealer.cards[i].is_coin() {
                slen += 1;
            }
            i += 1;
        }
        proof {
            assert(self.dealer.cards@.take(self.dealer.cards@.len() as int)
                =~= self.dealer.cards@);
        }
        slen
    }

    /// Scores one archetype pair: the two hands' simulated averages,
    /// subtracted, exactly when both hands can be placed.
    fn sim_one_pattern(&self, hand1: &Vec<Card>, hand2: &Vec<Card>, rng: &mut fastrand::Rng)
        -> (r: Option<i64>)
        requires
            self.wf(),
            self.dealer.cards@.len() < DECK_CAP,
            strip_coins(self.dealer.cards@).len() >= self.play_order.start_hand_size_spec()
                + self.maxturn as int + self.max_search_depth as int,
        ensures
            r is Some <==> self.placeable(hand1@) && self.placeable(hand2@),
            r matches Some(d) ==> -2 * REP_BOUND <= d <= 2 * REP_BOUND
                && (exists|a1: int|
                    #![trigger achievable_average(a1, self.cycle_reps as int,
                        self.maxturn as int, strip_coins(self.dealer.cards@), self.hero,
                        self.play_card_bonus)]
                    achievable_average(a1, self.cycle_reps as int, self.maxturn as int,
                        strip_coins(self.dealer.cards@), self.hero, self.play_card_bonus)
                    && achievable_average(a1 - d, self.cycle_reps as int,
                        self.maxturn as int, strip_coins(self.dealer.cards@), self.hero,
                        self.play_card_bonus)),
    {
        let view = self.stable_view();
        let size = self.play_order.get_start_hand_size();
        let p1 = match self.dealer.cards_to_position(hand1, CardLocation::InDeck, &view) {
            Some(p) => p,
            None => {
                return None;
            },
        };
        let p2 = match self.dealer.cards_to_position(hand2, CardLocation::InDeck, &view) {
            Some(p) => p,
            None => {
                return None;
            },
        };
        if p1.len() > size as usize || p2.len() > size as usize {
            return None;
        }
        proof {
            // a matched position carries the stable tag, so it survives a
            // reset and stays distinct
            assert forall|i: int| 0 <= i < p1@.len() implies (#[trigger] p1@[i])
                < strip_coins(self.dealer.cards@).len() by {
                assert(self.reset_stable_view()[p1@[i] as int] == CardLocation::InDeck);
            }
            assert forall|i: int| 0 <= i < p2@.len() implies (#[trigger] p2@[i])
                < strip_coins(self.dealer.cards@).len() by {
                assert(self.reset_stable_view()[p2@[i] as int] == CardLocation::InDeck);
            }
        }
        let s1 = self.start_simulation(&p1, rng);
        let s2 = self.start_simulation(&p2, rng);
        proof {
            assert(achievable_average((s1 as int) - (s1 - s2) as int,
                self.cycle_reps as int, self.maxturn as int,
                strip_coins(self.dealer.cards@), self.hero, self.play_card_bonus));
        }
        Some(s1 - s2)
    }

}

/// All positions of a uniformly tagged view hold their cards at that tag.
pub proof fn lemma_loc_of_uniform(cards: Seq<Card>, locs: Seq<CardLocation>, tag: CardLocation)
    requires
        cards.len() == locs.len(),
        forall|i: int| 0 <= i < locs.len() ==> locs[i] == tag,
    ensures
        loc_of(cards, locs, tag) == cards,
    decreases cards.len(),
{
    if cards.len() > 0 {
        assert(forall|i: int| 0 <= i < locs.drop_last().len()
            ==> locs.drop_last()[i] == tag);
        lemma_loc_of_uniform(cards.drop_last(), locs.drop_last(), tag);
        assert(loc_of(cards, locs, tag) =~= cards);
    } else {
        assert(loc_of(cards, locs, tag) =~= cards);
    }
}

impl Simulator {
    /// The indices of a mulligan report ranked ascending by score, for
    /// display: every index appears exactly once.
    pub fn ranked_order(report: &Vec<MullEntry>) -> (r: Vec<usize>)
        ensures
            r@.len() == report@.len(),
            forall|i: int| 0 <= i < r@.len() ==> (#[trigger] r@[i]) < report@.len(),
            forall|i: int, j: int| 0 <= i < j < r@.len()
                ==> (#[trigger] r@[i]) != (#[trigger] r@[j]),
            forall|i: int, j: int| 0 <= i < j < r@.len()
                ==> report@[r@[i] as int].score <= report@[r@[j] as int].score,
    {
        let n = report.len();
        let mut order: Vec<usize> = Vec::new();
        let mut k: usize = 0;
        while k < n
            invariant
                k <= n,
                order@.len() == k,
                forall|t: int| 0 <= t < k ==> (#[trigger] order@[t]) == t,
            decreases n - k,
        {
            order.push(k);
            k += 1;
        }
        let mut i: usize = 0;
        while i < n
            invariant
                i <= n,
                n == report@.len(),
                order@.len() == n,
                forall|t: int| 0 <= t < n ==> (#[trigger] order@[t]) < n,
                forall|t: int, u: int| 0 <= t < u < n
                    ==> (#[trigger] order@[t]) != (#[trigger] order@[u]),
                forall|a: int, b: int| 0 <= a < b < i
                    ==> report@[order@[a] as int].score <= report@[order@[b] as int].score,
                forall|a: int, b: int| 0 <= a < i && i <= b < n
                    ==> report@[order@[a] as int].score <= report@[order@[b] as int].score,
            decreases n - i,
        {
            let ghost os = order@;
            let mut m: usize = i;
            let mut j: usize = i + 1;
            while j < n
                invariant
                    order@ == os,
                    n == report@.len(),
                    order@.len() == n,
                    forall|t: int| 0 <= t < n ==> (#[trigger] order@[t]) < n,
                    i < n,
                    i <= m < j,
                    j <= n,
                    forall|t: int| i <= t < j ==> report@[order@[m as int] as int].score
                        <= report@[(#[trigger] order@[t]) as int].score,
                decreases n - j,
            {
                if report[order[j]].score <= report[order[m]].score {
                    m = j;
                }
                j += 1;
            }
            let tmp = order[i];
            let om = order[m];
            order.set(i, om);
            order.set(m, tmp);
            proof {
                assert(order@ == os.update(i as int, os[m as int]).update(m as int,
                    os[i as int]));
                crate::seqs::lemma_swap_multiset(os, i as int, m as int);
                assert forall|t: int| 0 <= t < n implies (#[trigger] order@[t]) < n by {
                    if t != i && t != m {
                        assert(order@[t] == os[t]);
                    }
                }
                assert forall|t: int, u: int| 0 <= t < u < n implies
                    (#[trigger] order@[t]) != (#[trigger] order@[u]) by {
                    let vt = if t == i { os[m as int] } else if t == m { os[i as int] }
                        else { os[t] };
                    let vu = if u == i { os[m as int] } else if u == m { os[i as int] }
                        else { os[u] };
                    assert(order@[t] == vt && order@[u] == vu);
                }
                assert forall|a: int, b: int| 0 <= a < b < i + 1 implies
                    report@[order@[a] as int].score <= report@[order@[b] as int].score by {
                    if b < i {
                        assert(order@[a] == os[a] && order@[b] == os[b]);
                    } else {
                        assert(order@[a] == os[a]);
                        assert(order@[b] == os[m as int]);
                    }
                }
                assert forall|a: int, b: int| 0 <= a < i + 1 && i + 1 <= b < n implies
                    report@[order@[a] as int].score <= report@[order@[b] as int].score by {
                    let vb = if b == m { os[i as int] } else { os[b] };
                    assert(order@[b] == vb);
                    if a < i {
                        assert(order@[a] == os[a]);
                    } else {
                        assert(order@[a] == os[m as int]);
                        assert(report@[os[m as int] as int].score
                            <= report@[vb as int].score);
                    }
                }
            }
            i += 1;
        }
        order
    }
}

/// Bounds survive averaging: a sum of at most ten values within a bound,
/// divided by ten, stays within it.
proof fn lemma_div10_bound(a: int, b: int)
    requires
        -10 * b <= a <= 10 * b,
        0 <= b,
    ensures
        -b <= div_scores(a, 10) <= b,
{
    if a >= 0 {
        vstd::arithmetic::div_mod::lemma_div_is_ordered(a, 10 * b, 10);
        vstd::arithmetic::div_mod::lemma_div_multiples_vanish(b, 10);
        vstd::arithmetic::div_mod::lemma_div_pos_is_pos(a, 10);
        assert(10 * b == b * 10) by (nonlinear_arith);
    } else {
        vstd::arithmetic::div_mod::lemma_div_is_ordered(-a, 10 * b, 10);
        vstd::arithmetic::div_mod::lemma_div_multiples_vanish(b, 10);
        vstd::arithmetic::div_mod::lemma_div_pos_is_pos(-a, 10);
        assert(10 * b == b * 10) by (nonlinear_arith);
    }
}

} // verus!
