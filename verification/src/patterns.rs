//! The play-pattern enumerator: from a hand and a mana budget, the
//! deduplicated collection of card subsets worth committing this turn.
//! Pruning is dominance-based: once a combination spends `k` mana out of the
//! budget using the most expensive remaining card, combinations spending no
//! more without it are skipped. The result is pinned exactly: it equals the
//! specification-level enumeration, so every returned pattern fits the
//! budget (raised by one when it holds the coin), no two returned patterns
//! are the same multiset, and a coin-free fallback is always present.

use vstd::prelude::*;
use vstd::multiset::Multiset;
use vstd::multiset::group_multiset_axioms;
use vstd::seq_lib::group_to_multiset_ensures;
use vstd::seq_lib::lemma_multiset_commutative;
use vstd::seq_lib::lemma_sorted_unique;
use vstd::relations::{sorted_by, total_ordering};
use crate::card::{Card, CardPower, is_coin, coin_spec};
use crate::seqs::{copy_vec, lemma_swap_remove_multiset, lemma_take_submultiset,
    lemma_submultiset_elements, lemma_subset_transitive, lemma_submultiset_insert};

verus! {

broadcast use group_to_multiset_ensures, group_multiset_axioms;

/// Total mana cost of a pattern, the coin excluded: the coin raises the
/// budget rather than consuming it.
pub open spec fn sum_mana(s: Seq<Card>) -> int
    decreases s.len(),
{
    if s.len() == 0 {
        0
    } else {
        sum_mana(s.drop_last()) + if is_coin(s.last()) {
            0
        } else {
            s.last().mana as int
        }
    }
}

/// How many coins a sequence of cards holds.
pub open spec fn coin_count(s: Seq<Card>) -> int
    decreases s.len(),
{
    if s.len() == 0 {
        0
    } else {
        coin_count(s.drop_last()) + if is_coin(s.last()) {
            1int
        } else {
            0int
        }
    }
}

/// A pattern is coin-free when every card in it has non-negative mana.
pub open spec fn coin_free(s: Seq<Card>) -> bool {
    forall|i: int| 0 <= i < s.len() ==> s[i].mana >= 0
}

/// Well-formed collections of cards: mana never sits below the coin
/// sentinel, every coin is the canonical coin, and at most one coin is held.
pub open spec fn hand_wf(s: Seq<Card>) -> bool {
    &&& forall|i: int| 0 <= i < s.len() ==> s[i].mana >= -1
    &&& forall|i: int| 0 <= i < s.len() && is_coin(#[trigger] s[i]) ==> s[i] == coin_spec()
    &&& coin_count(s) <= 1
}

/// A negative budget buys nothing more than a zero budget.
pub open spec fn clamp0(m: i8) -> int {
    if m < 0 {
        0
    } else {
        m as int
    }
}

/// The one extra point of budget that a pattern holding the coin enjoys.
pub open spec fn coin_bonus(s: Seq<Card>) -> int {
    if coin_count(s) > 0 {
        1
    } else {
        0
    }
}

/// A pattern fits a budget when its mana total stays within the budget,
/// raised by one if the pattern holds the coin.
pub open spec fn fits_budget(s: Seq<Card>, budget: i8) -> bool {
    sum_mana(s) <= clamp0(budget) + coin_bonus(s)
}

pub broadcast proof fn lemma_sum_mana_push(s: Seq<Card>, c: Card)
    ensures
        #[trigger] sum_mana(s.push(c)) == sum_mana(s) + if is_coin(c) {
            0
        } else {
            c.mana as int
        },
{
    assert(s.push(c).drop_last() =~= s);
}

pub broadcast proof fn lemma_coin_count_push(s: Seq<Card>, c: Card)
    ensures
        #[trigger] coin_count(s.push(c)) == coin_count(s) + if is_coin(c) {
            1int
        } else {
            0int
        },
{
    assert(s.push(c).drop_last() =~= s);
}

/// Mana totals and coin counts add up over concatenation.
pub proof fn lemma_sums_concat(a: Seq<Card>, b: Seq<Card>)
    ensures
        sum_mana(a + b) == sum_mana(a) + sum_mana(b),
        coin_count(a + b) == coin_count(a) + coin_count(b),
    decreases b.len(),
{
    if b.len() == 0 {
        assert(a + b =~= a);
    } else {
        assert((a + b).drop_last() =~= a + b.drop_last());
        assert((a + b).last() == b.last());
        lemma_sums_concat(a, b.drop_last());
    }
}

/// Where every coin is canonical, counting coins by the sentinel agrees
/// with counting occurrences of the canonical coin value.
pub proof fn lemma_coin_count_is_count(s: Seq<Card>)
    requires
        forall|i: int| 0 <= i < s.len() && is_coin(#[trigger] s[i]) ==> s[i] == coin_spec(),
    ensures
        coin_count(s) == s.to_multiset().count(coin_spec()),
    decreases s.len(),
{
    if s.len() == 0 {
        assert(s.to_multiset().count(coin_spec()) == 0) by {
            assert(s.to_multiset().len() == 0);
        }
    } else {
        let dl = s.drop_last();
        assert(forall|i: int| 0 <= i < dl.len() ==> dl[i] == s[i]);
        lemma_coin_count_is_count(dl);
        assert(s =~= dl.push(s.last()));
        assert(s.to_multiset() == dl.to_multiset().insert(s.last()));
        if is_coin(s.last()) {
            assert(s.last() == coin_spec());
        } else {
            assert(s.last() != coin_spec());
        }
    }
}

/// Well-formedness carries over to any multiset-included selection.
pub proof fn lemma_hand_wf_sub(sub: Seq<Card>, sup: Seq<Card>)
    requires
        hand_wf(sup),
        sub.to_multiset().subset_of(sup.to_multiset()),
    ensures
        hand_wf(sub),
        coin_count(sub) <= coin_count(sup),
{
    lemma_submultiset_elements(sub, sup);
    assert forall|i: int| 0 <= i < sub.len() implies sub[i].mana >= -1
        && (is_coin(#[trigger] sub[i]) ==> sub[i] == coin_spec()) by {
        assert(sup.contains(sub[i]));
        let j = choose|j: int| 0 <= j < sup.len() && sup[j] == sub[i];
        assert(sup[j].mana >= -1);
    }
    lemma_coin_count_is_count(sub);
    lemma_coin_count_is_count(sup);
    assert(sub.to_multiset().count(coin_spec()) <= sup.to_multiset().count(coin_spec()));
}

/// A collection without coins has only coin-free, non-sentinel members.
pub proof fn lemma_no_coin_members(s: Seq<Card>)
    requires
        hand_wf(s),
        coin_count(s) == 0,
    ensures
        forall|i: int| 0 <= i < s.len() ==> !is_coin(#[trigger] s[i]),
{
    lemma_coin_count_is_count(s);
    assert forall|i: int| 0 <= i < s.len() implies !is_coin(#[trigger] s[i]) by {
        if is_coin(s[i]) {
            assert(s[i] == coin_spec());
            assert(s.contains(coin_spec()));
            assert(s.to_multiset().count(coin_spec()) > 0);
        }
    }
}

/// A pattern whose cards all cost nothing adds no mana and no coin.
pub proof fn lemma_all_zero_sums(s: Seq<Card>)
    requires
        forall|i: int| 0 <= i < s.len() ==> s[i].mana == 0,
    ensures
        sum_mana(s) == 0,
        coin_count(s) == 0,
    decreases s.len(),
{
    if s.len() > 0 {
        lemma_all_zero_sums(s.drop_last());
    }
}

/// How many copies of a card a vector holds.
pub fn count_card(s: &Vec<Card>, c: Card) -> (r: usize)
    ensures
        r == s@.to_multiset().count(c),
{
    let mut cnt: usize = 0;
    let mut i: usize = 0;
    while i < s.len()
        invariant
            i <= s@.len(),
            cnt == s@.take(i as int).to_multiset().count(c),
            cnt <= i,
        decreases s@.len() - i,
    {
        proof {
            assert(s@.take(i as int + 1) =~= s@.take(i as int).push(s@[i as int]));
        }
        if s[i] == c {
            cnt += 1;
        }
        i += 1;
    }
    proof {
        assert(s@.take(s@.len() as int) =~= s@);
    }
    cnt
}

/// Whether two patterns commit exactly the same cards, duplicates counted.
pub fn same_multiset(a: &Vec<Card>, b: &Vec<Card>) -> (r: bool)
    ensures
        r == (a@.to_multiset() == b@.to_multiset()),
{
    let mut i: usize = 0;
    while i < a.len()
        invariant
            i <= a@.len(),
            forall|j: int| 0 <= j < i ==> a@.to_multiset().count(#[trigger] a@[j])
                == b@.to_multiset().count(a@[j]),
        decreases a@.len() - i,
    {
        if count_card(a, a[i]) != count_card(b, a[i]) {
            return false;
        }
        i += 1;
    }
    let mut k: usize = 0;
    while k < b.len()
        invariant
            k <= b@.len(),
            forall|j: int| 0 <= j < a@.len() ==> a@.to_multiset().count(#[trigger] a@[j])
                == b@.to_multiset().count(a@[j]),
            forall|j: int| 0 <= j < k ==> a@.to_multiset().count(#[trigger] b@[j])
                == b@.to_multiset().count(b@[j]),
        decreases b@.len() - k,
    {
        if count_card(a, b[k]) != count_card(b, b[k]) {
            return false;
        }
        k += 1;
    }
    proof {
        assert(a@.to_multiset() =~= b@.to_multiset()) by {
            assert forall|x: Card| a@.to_multiset().count(x) == b@.to_multiset().count(x) by {
                if a@.to_multiset().count(x) > 0 {
                    assert(a@.contains(x));
                    let j = choose|j: int| 0 <= j < a@.len() && a@[j] == x;
                    assert(a@.to_multiset().count(a@[j]) == b@.to_multiset().count(a@[j]));
                } else if b@.to_multiset().count(x) > 0 {
                    assert(b@.contains(x));
                    let j = choose|j: int| 0 <= j < b@.len() && b@[j] == x;
                    assert(a@.to_multiset().count(b@[j]) == b@.to_multiset().count(b@[j]));
                }
            }
        }
    }
    true
}

/// Whether some pattern in the collection commits the same cards.
fn contains_multiset(v: &Vec<Vec<Card>>, p: &Vec<Card>) -> (r: bool)
    ensures
        r == exists|i: int| 0 <= i < v@.len() && (#[trigger] v@[i])@.to_multiset()
            == p@.to_multiset(),
{
    let mut i: usize = 0;
    while i < v.len()
        invariant
            i <= v@.len(),
            forall|j: int| 0 <= j < i ==> (#[trigger] v@[j])@.to_multiset() != p@.to_multiset(),
        decreases v@.len() - i,
    {
        if same_multiset(&v[i], p) {
            return true;
        }
        i += 1;
    }
    false
}

/// Whether every card of the pattern has non-negative mana.
pub fn is_coin_free(p: &Vec<Card>) -> (r: bool)
    ensures
        r == coin_free(p@),
{
    let mut i: usize = 0;
    while i < p.len()
        invariant
            i <= p@.len(),
            forall|j: int| 0 <= j < i ==> (#[trigger] p@[j]).mana >= 0,
        decreases p@.len() - i,
    {
        if p[i].mana < 0i8 {
            return false;
        }
        i += 1;
    }
    true
}

/// The first position holding the coin, if any.
fn find_coin(hand: &Vec<Card>) -> (r: Option<usize>)
    ensures
        match r {
            Some(p) => p < hand@.len() && is_coin(hand@[p as int])
                && (forall|j: int| 0 <= j < p ==> !is_coin(#[trigger] hand@[j])),
            None => forall|i: int| 0 <= i < hand@.len() ==> !is_coin(#[trigger] hand@[i]),
        },
{
    let mut i: usize = 0;
    while i < hand.len()
        invariant
            i <= hand@.len(),
            forall|j: int| 0 <= j < i ==> !is_coin(#[trigger] hand@[j]),
        decreases hand@.len() - i,
    {
        if hand[i].is_coin() {
            return Some(i);
        }
        i += 1;
    }
    None
}

/// The cards whose mana does not pass the given bound, in hand order.
fn filter_within(hand: &Vec<Card>, bound: i16) -> (r: Vec<Card>)
    ensures
        r@ == filter_le_spec(hand@, bound as int),
        r@.len() <= hand@.len(),
        forall|i: int| 0 <= i < r@.len() ==> (#[trigger] r@[i]).mana as int <= bound as int,
        r@.to_multiset().subset_of(hand@.to_multiset()),
{
    let mut r: Vec<Card> = Vec::new();
    let mut i: usize = 0;
    while i < hand.len()
        invariant
            i <= hand@.len(),
            r@.len() <= i,
            r@ == filter_le_spec(hand@.take(i as int), bound as int),
            forall|k: int| 0 <= k < r@.len() ==> (#[trigger] r@[k]).mana as int <= bound as int,
            r@.to_multiset().subset_of(hand@.take(i as int).to_multiset()),
        decreases hand@.len() - i,
    {
        proof {
            assert(hand@.take(i as int + 1) =~= hand@.take(i as int).push(hand@[i as int]));
            assert(hand@.take(i as int + 1).drop_last() =~= hand@.take(i as int));
        }
        if hand[i].mana as i16 <= bound {
            proof {
                lemma_submultiset_insert(r@.to_multiset(),
                    hand@.take(i as int).to_multiset(), hand@[i as int]);
            }
            r.push(hand[i]);
        } else {
            proof {
                assert forall|x: Card| r@.to_multiset().count(x)
                    <= hand@.take(i as int + 1).to_multiset().count(x) by {
                    assert(r@.to_multiset().count(x)
                        <= hand@.take(i as int).to_multiset().count(x));
                }
            }
        }
        i += 1;
    }
    proof {
        assert(hand@.take(hand@.len() as int) =~= hand@);
    }
    r
}

/// What the enumerator promises of every pattern it hands back: the pattern
/// fits the budget and commits only cards the hand holds.
pub open spec fn pattern_ok(p: Seq<Card>, budget: i8, hand: Seq<Card>) -> bool {
    fits_budget(p, budget) && p.to_multiset().subset_of(hand.to_multiset())
}

pub open spec fn all_ok(v: Seq<Vec<Card>>, budget: i8, hand: Seq<Card>) -> bool {
    forall|i: int| 0 <= i < v.len() ==> pattern_ok((#[trigger] v[i])@, budget, hand)
}

/// Mana that is never zero carries over to any multiset-included selection.
proof fn lemma_nonzero_transfer(sub: Seq<Card>, sup: Seq<Card>)
    requires
        sub.to_multiset().subset_of(sup.to_multiset()),
        forall|i: int| 0 <= i < sup.len() ==> (#[trigger] sup[i]).mana != 0,
    ensures
        forall|i: int| 0 <= i < sub.len() ==> (#[trigger] sub[i]).mana != 0,
{
    lemma_submultiset_elements(sub, sup);
    assert forall|i: int| 0 <= i < sub.len() implies (#[trigger] sub[i]).mana != 0 by {
        assert(sup.contains(sub[i]));
        let j = choose|j: int| 0 <= j < sup.len() && sup[j] == sub[i];
        assert(sup[j].mana != 0);
    }
}

/// Pushes one card onto a copy of every pattern in the list.
fn map_push(ps: &Vec<Vec<Card>>, c: Card) -> (r: Vec<Vec<Card>>)
    ensures
        r@.len() == ps@.len(),
        forall|i: int| 0 <= i < r@.len() ==> (#[trigger] r@[i])@ == ps@[i]@.push(c),
{
    let mut r: Vec<Vec<Card>> = Vec::new();
    let mut i: usize = 0;
    while i < ps.len()
        invariant
            i <= ps@.len(),
            r@.len() == i,
            forall|k: int| 0 <= k < i ==> (#[trigger] r@[k])@ == ps@[k]@.push(c),
        decreases ps@.len() - i,
    {
        let mut q = copy_vec(&ps[i]);
        q.push(c);
        r.push(q);
        i += 1;
    }
    r
}

/// Recursive core of the enumerator, on a hand without zero-cost cards.
/// The pivot is the most expensive remaining card; patterns that include it
/// recurse with budget and floor lowered by its cost, patterns without it
/// recurse with the floor raised so that dominated subsets are skipped. The
/// coin is handled first and separately: the sub-enumeration runs with
/// budget and floor both raised by one, and the coin is appended onto every
/// pattern it yields.
#[verifier::rlimit(90)]
pub fn get_all_plays(hand: &Vec<Card>, mana_max: i8, mana_min: i8) -> (r: Vec<Vec<Card>>)
    requires
        hand_wf(hand@),
        forall|i: int| 0 <= i < hand@.len() ==> (#[trigger] hand@[i]).mana != 0,
        coin_count(hand@) > 0 ==> mana_max <= 126,
    ensures
        all_ok(r@, mana_max, hand@),
        all_tight(r@, mana_max as int, mana_min as int),
        views_of(r@) == plays_spec(hand@, mana_max as int, mana_min as int),
        hand@.len() == 0 ==> r@.len() == 0,
    decreases hand@.len(),
{
    broadcast use lemma_sum_mana_push, lemma_coin_count_push;

    let max0: i8 = if mana_max < 0i8 {
        0i8
    } else {
        mana_max
    };
    let min0: i8 = if mana_min < 0i8 {
        0i8
    } else {
        mana_min
    };
    proof {
        assert(clamp0(mana_max) == max0 as int);
    }
    if hand.len() == 0 {
        let empty_out: Vec<Vec<Card>> = Vec::new();
        proof {
            assert(views_of(empty_out@) =~= plays_spec(hand@, mana_max as int,
                mana_min as int));
        }
        return empty_out;
    }

    // take the coin out, noting whether it was there
    let mut h = copy_vec(hand);
    let mut have_coin = false;
    match find_coin(&h) {
        Some(p) => {
            proof {
                lemma_swap_remove_multiset(h@, p as int);
                assert(hand@[p as int] == coin_spec());
                assert(hand@.contains(coin_spec()));
                lemma_coin_count_is_count(hand@);
                assert(coin_count(hand@) == 1);
                lemma_coin_head(hand@);
                assert(p as nat == coin_head(hand@)) by {
                    let ch = coin_head(hand@);
                    if ch < p {
                        assert(!is_coin(hand@[ch as int]));
                    }
                    if p < ch {
                        assert(!is_coin(hand@[p as int]));
                    }
                }
            }
            h.swap_remove(p);
            have_coin = true;
        },
        None => {
            proof {
                lemma_coin_count_is_count(hand@);
                if hand@.contains(coin_spec()) {
                    let w = choose|w: int| 0 <= w < hand@.len() && hand@[w] == coin_spec();
                    assert(is_coin(hand@[w]));
                    assert(false);
                }
                assert(coin_count(hand@) == 0);
                lemma_coin_head(hand@);
                assert(coin_head(hand@) == hand@.len()) by {
                    if coin_head(hand@) < hand@.len() {
                        assert(is_coin(hand@[coin_head(hand@) as int]));
                    }
                }
            }
        },
    }
    let ghost ch = coin_head(hand@);
    let ghost spec_h = if ch < hand@.len() {
        hand@.update(ch as int, hand@.last()).drop_last()
    } else {
        hand@
    };
    proof {
        assert(have_coin == (ch < hand@.len()));
        assert(h@ == spec_h);
    }
    proof {
        if have_coin {
            assert(h@.to_multiset() == hand@.to_multiset().remove(coin_spec()));
            assert forall|x: Card| h@.to_multiset().count(x)
                <= hand@.to_multiset().count(x) by {}
            assert(h@.to_multiset().insert(coin_spec()) =~= hand@.to_multiset()) by {
                assert(hand@.to_multiset().count(coin_spec()) >= 1);
            }
        } else {
            assert(h@ == hand@);
            assert(h@.to_multiset().subset_of(hand@.to_multiset()));
        }
        lemma_hand_wf_sub(h@, hand@);
        lemma_nonzero_transfer(h@, hand@);
        lemma_coin_count_is_count(h@);
        assert(coin_count(h@) == 0);
        lemma_no_coin_members(h@);
    }

    // keep the cards that could fit even a coin-raised budget
    let hand1 = filter_within(&h, max0 as i16 + 1);
    let ghost mmax = mana_max as int;
    let ghost mmin = mana_min as int;
    let ghost smax0 = if mmax < 0 { 0int } else { mmax };
    let ghost smin0 = if mmin < 0 { 0int } else { mmin };
    proof {
        assert(smax0 == max0 as int && smin0 == min0 as int);
        assert(hand1@ == filter_le_spec(spec_h, smax0 + 1));
        lemma_subset_transitive(hand1@.to_multiset(), h@.to_multiset(), hand@.to_multiset());
        lemma_hand_wf_sub(hand1@, h@);
        lemma_nonzero_transfer(hand1@, h@);
        lemma_coin_count_is_count(hand1@);
        assert(coin_count(hand1@) == 0);
        lemma_no_coin_members(hand1@);
        assert(forall|i: int| 0 <= i < hand1@.len() ==> (#[trigger] hand1@[i]).mana >= 1);
    }

    let mut patterns: Vec<Vec<Card>> = Vec::new();
    if have_coin {
        // the coin only joins combinations that fully consume the raised budget
        let sub = get_all_plays(&hand1, max0 + 1i8, max0 + 1i8);
        patterns = map_push(&sub, Card::coin());
        proof {
            assert(views_of(sub@) == plays_spec(hand1@, smax0 + 1, smax0 + 1));
            assert forall|i: int| 0 <= i < patterns@.len() implies
                pattern_ok((#[trigger] patterns@[i])@, mana_max, hand@)
                && pattern_tight(patterns@[i]@, mmax, mmin) by {
                let p = sub@[i]@;
                assert(pattern_ok(p, (max0 + 1) as i8, hand1@));
                assert(pattern_tight(p, smax0 + 1, smax0 + 1));
                assert(patterns@[i]@ == p.push(coin_spec()));
                lemma_hand_wf_sub(p, hand1@);
                lemma_coin_count_is_count(p);
                assert(coin_count(p) == 0);
                assert(sum_mana(p) <= max0 + 1);
                assert(sum_mana(p) >= smax0 + 1);
                assert(sum_mana(p.push(coin_spec())) == sum_mana(p));
                assert(coin_count(p.push(coin_spec())) == 1);
                assert(fits_budget(patterns@[i]@, mana_max));
                lemma_subset_transitive(p.to_multiset(), hand1@.to_multiset(), h@.to_multiset());
                lemma_submultiset_insert(p.to_multiset(), h@.to_multiset(), coin_spec());
                assert(p.push(coin_spec()).to_multiset() == p.to_multiset().insert(coin_spec()));
                assert(h@.to_multiset().insert(coin_spec()) == hand@.to_multiset());
            }
            assert(views_of(patterns@) =~= map_push_spec(views_of(sub@), coin_spec())) by {
                assert forall|i: int| 0 <= i < patterns@.len() implies
                    views_of(patterns@)[i] == map_push_spec(views_of(sub@), coin_spec())[i]
                    by {
                    assert(patterns@[i]@ == sub@[i]@.push(coin_spec()));
                }
            }
        }
    }
    let ghost spec_coin_patterns = if ch < hand@.len() {
        map_push_spec(plays_spec(filter_le_spec(spec_h, smax0 + 1), smax0 + 1, smax0 + 1),
            coin_spec())
    } else {
        Seq::<Seq<Card>>::empty()
    };
    proof {
        assert(all_ok(patterns@, mana_max, hand@));
        assert(all_tight(patterns@, mmax, mmin));
        if !have_coin {
            assert(views_of(patterns@) =~= spec_coin_patterns);
        }
        assert(views_of(patterns@) == spec_coin_patterns);
    }

    // now only the cards that fit the budget itself
    let hand2full = filter_within(&hand1, max0 as i16);
    proof {
        assert(hand2full@ == filter_le_spec(hand1@, smax0));
    }
    if hand2full.len() == 0 {
        proof {
            assert(plays_spec(hand@, mmax, mmin) == spec_coin_patterns);
        }
        return patterns;
    }
    let mut hand2 = hand2full;
    let ghost hand3 = hand2@;
    proof {
        lemma_subset_transitive(hand3.to_multiset(), hand1@.to_multiset(), h@.to_multiset());
        lemma_subset_transitive(hand3.to_multiset(), h@.to_multiset(), hand@.to_multiset());
        lemma_hand_wf_sub(hand3, hand1@);
        lemma_nonzero_transfer(hand3, hand1@);
        lemma_coin_count_is_count(hand3);
        assert(coin_count(hand3) == 0);
        lemma_no_coin_members(hand3);
        assert(forall|i: int| 0 <= i < hand3.len() ==> (#[trigger] hand3[i]).mana >= 1);
    }
    let last = hand2.pop().unwrap();
    proof {
        assert(hand2@ == hand3.drop_last());
        assert(last == hand3[hand3.len() - 1]);
        assert(last.mana >= 1 && last.mana as int <= max0 as int);
        assert(hand3 =~= hand2@.push(last));
        assert(hand2@ =~= hand3.take(hand3.len() - 1));
        lemma_take_submultiset(hand3, hand3.len() - 1);
        lemma_subset_transitive(hand2@.to_multiset(), hand3.to_multiset(), hand@.to_multiset());
        lemma_hand_wf_sub(hand2@, hand3);
        lemma_nonzero_transfer(hand2@, hand3);
        lemma_coin_count_is_count(hand2@);
        // the hand still holds the popped pivot
        assert(hand3.to_multiset().count(last) > 0) by {
            assert(hand3.contains(last));
        }
        assert(hand@.to_multiset().count(last) > 0);
    }

    if hand2.len() == 0 {
        // the pivot alone is the only candidate left
        if last.mana >= min0 {
            let mut single: Vec<Card> = Vec::new();
            single.push(last);
            proof {
                assert(single@ =~= Seq::<Card>::empty().push(last));
                assert(sum_mana(single@) == last.mana as int);
                assert(coin_count(single@) == 0);
                assert forall|x: Card| single@.to_multiset().count(x)
                    <= hand@.to_multiset().count(x) by {
                    assert(single@.to_multiset() == Seq::<Card>::empty().to_multiset().insert(
                        last));
                    assert(Seq::<Card>::empty().to_multiset().len() == 0);
                }
                assert(pattern_ok(single@, mana_max, hand@));
            }
            let ghost before = patterns@;
            patterns.push(single);
            proof {
                assert forall|i: int| 0 <= i < patterns@.len() implies
                    pattern_ok((#[trigger] patterns@[i])@, mana_max, hand@) by {
                    if i < before.len() {
                        assert(patterns@[i] == before[i]);
                    } else {
                        assert(patterns@[i] == single);
                    }
                }
            }
        }
        return patterns;
    }

    // patterns that include the pivot
    let min2: i8 = min0 - last.mana;
    let sub1 = get_all_plays(&hand2, max0 - last.mana, min2);
    let mut patterns1 = map_push(&sub1, last);
    proof {
        assert forall|i: int| 0 <= i < patterns1@.len() implies
            pattern_ok((#[trigger] patterns1@[i])@, mana_max, hand@) by {
            let p = sub1@[i]@;
            assert(pattern_ok(p, (max0 - last.mana) as i8, hand2@));
            assert(patterns1@[i]@ == p.push(last));
            assert(clamp0((max0 - last.mana) as i8) == max0 - last.mana);
            assert(sum_mana(p.push(last)) == sum_mana(p) + last.mana);
            assert(coin_count(p.push(last)) == coin_count(p));
            assert(fits_budget(p.push(last), mana_max));
            lemma_submultiset_insert(p.to_multiset(), hand2@.to_multiset(), last);
            assert(p.push(last).to_multiset() == p.to_multiset().insert(last));
            assert(hand2@.to_multiset().insert(last) == hand3.to_multiset());
            lemma_subset_transitive(p.push(last).to_multiset(), hand3.to_multiset(),
                hand@.to_multiset());
        }
    }
    if patterns1.len() == 0 && last.mana >= min0 {
        let mut single: Vec<Card> = Vec::new();
        single.push(last);
        proof {
            assert(single@ =~= Seq::<Card>::empty().push(last));
            assert(sum_mana(single@) == last.mana as int);
            assert(coin_count(single@) == 0);
            assert forall|x: Card| single@.to_multiset().count(x)
                <= hand@.to_multiset().count(x) by {
                assert(single@.to_multiset() == Seq::<Card>::empty().to_multiset().insert(last));
                assert(Seq::<Card>::empty().to_multiset().len() == 0);
            }
            assert(pattern_ok(single@, mana_max, hand@));
        }
        let ghost before1 = patterns1@;
        patterns1.push(single);
        proof {
            assert forall|i: int| 0 <= i < patterns1@.len() implies
                pattern_ok((#[trigger] patterns1@[i])@, mana_max, hand@) by {
                if i < before1.len() {
                    assert(patterns1@[i] == before1[i]);
                } else {
                    assert(patterns1@[i] == single);
                }
            }
        }
    }

    // patterns that skip the pivot: only floors the pivot could not reach
    let next = hand2[hand2.len() - 1];
    let min3: i8 = if min0 > max0 - last.mana {
        min0
    } else if max0 - last.mana == 0i8 {
        0i8
    } else if last.mana == next.mana && last.power != next.power {
        max0 - last.mana + 1i8
    } else {
        max0 - last.mana
    };
    let mut patterns2 = get_all_plays(&hand2, max0, min3);
    proof {
        assert forall|i: int| 0 <= i < patterns2@.len() implies
            pattern_ok((#[trigger] patterns2@[i])@, mana_max, hand@) by {
            let p = patterns2@[i]@;
            assert(pattern_ok(p, max0, hand2@));
            assert(clamp0(max0) == clamp0(mana_max));
            lemma_subset_transitive(p.to_multiset(), hand2@.to_multiset(), hand3.to_multiset());
            lemma_subset_transitive(p.to_multiset(), hand3.to_multiset(), hand@.to_multiset());
        }
    }

    let ghost g0 = patterns@;
    let ghost g1 = patterns1@;
    let ghost g2 = patterns2@;
    patterns.append(&mut patterns1);
    patterns.append(&mut patterns2);
    proof {
        assert(patterns@ == g0 + g1 + g2);
        assert forall|i: int| 0 <= i < patterns@.len() implies
            pattern_ok((#[trigger] patterns@[i])@, mana_max, hand@) by {
            if i < g0.len() {
                assert(patterns@[i] == g0[i]);
            } else if i < g0.len() + g1.len() {
                assert(patterns@[i] == g1[i - g0.len()]);
            } else {
                assert(patterns@[i] == g2[i - g0.len() - g1.len()]);
            }
        }
    }
    patterns
}

/// The card order as a relation value, for the specification-level sort.
pub open spec fn card_leq() -> spec_fn(Card, Card) -> bool {
    |a: Card, b: Card| a.le_spec(b)
}

/// The card order is a total order: reflexive, transitive, antisymmetric
/// and connected, since the power rank separates equal-mana cards.
pub proof fn lemma_card_leq_total()
    ensures
        total_ordering(card_leq()),
{
    let leq = card_leq();
    assert forall|a: Card, b: Card| #[trigger] leq(a, b) && #[trigger] leq(b, a)
        implies a == b by {}
    assert forall|a: Card, b: Card, c: Card| #[trigger] leq(a, b) && #[trigger] leq(b, c)
        implies leq(a, c) by {}
    assert forall|a: Card, b: Card| #[trigger] leq(a, b) || #[trigger] leq(b, a) by {}
}

/// The cards whose mana does not pass the bound, in order.
pub open spec fn filter_le_spec(s: Seq<Card>, bound: int) -> Seq<Card>
    decreases s.len(),
{
    if s.len() == 0 {
        Seq::empty()
    } else if s.last().mana <= bound {
        filter_le_spec(s.drop_last(), bound).push(s.last())
    } else {
        filter_le_spec(s.drop_last(), bound)
    }
}

/// The zero-cost cards of a hand, in order.
pub open spec fn filter_zero(s: Seq<Card>) -> Seq<Card>
    decreases s.len(),
{
    if s.len() == 0 {
        Seq::empty()
    } else if s.last().mana == 0 {
        filter_zero(s.drop_last()).push(s.last())
    } else {
        filter_zero(s.drop_last())
    }
}

/// The cards of a hand that cost something (or are the coin), in order.
pub open spec fn filter_nonzero(s: Seq<Card>) -> Seq<Card>
    decreases s.len(),
{
    if s.len() == 0 {
        Seq::empty()
    } else if s.last().mana != 0 {
        filter_nonzero(s.drop_last()).push(s.last())
    } else {
        filter_nonzero(s.drop_last())
    }
}

/// A bound filter is no longer than its input.
pub proof fn lemma_filter_le_len(s: Seq<Card>, bound: int)
    ensures
        filter_le_spec(s, bound).len() <= s.len(),
    decreases s.len(),
{
    if s.len() > 0 {
        lemma_filter_le_len(s.drop_last(), bound);
    }
}

/// Index of the first coin, or the length when the hand holds none.
pub open spec fn coin_head(s: Seq<Card>) -> nat
    decreases s.len(),
{
    if s.len() == 0 {
        0
    } else if is_coin(s[0]) {
        0
    } else {
        1 + coin_head(s.drop_first())
    }
}

pub proof fn lemma_coin_head(s: Seq<Card>)
    ensures
        coin_head(s) <= s.len(),
        forall|j: int| 0 <= j < coin_head(s) ==> !is_coin(#[trigger] s[j]),
        coin_head(s) < s.len() ==> is_coin(s[coin_head(s) as int]),
    decreases s.len(),
{
    if s.len() > 0 && !is_coin(s[0]) {
        lemma_coin_head(s.drop_first());
        assert forall|j: int| 0 <= j < coin_head(s) implies !is_coin(#[trigger] s[j]) by {
            if j > 0 {
                assert(!is_coin(s.drop_first()[j - 1]));
            }
        }
    }
}

/// Each pattern of the list with one more card pushed onto it.
pub open spec fn map_push_spec(ps: Seq<Seq<Card>>, c: Card) -> Seq<Seq<Card>> {
    ps.map_values(|p: Seq<Card>| p.push(c))
}

/// The mathematical view of a list of patterns.
pub open spec fn views_of(v: Seq<Vec<Card>>) -> Seq<Seq<Card>> {
    v.map_values(|p: Vec<Card>| p@)
}

/// The documented enumeration, one recursion step at a time: the coin is
/// handled first with budget and floor both raised by one; then the pivot,
/// the most expensive remaining card, is either included (budget and floor
/// lowered by its cost) or excluded (the floor raised so that dominated
/// subsets are skipped, one further when the next card shares the pivot's
/// mana but not its power).
pub open spec fn plays_spec(hand: Seq<Card>, mana_max: int, mana_min: int) -> Seq<Seq<Card>>
    decreases hand.len(),
    via plays_spec_decreases
{
    let max0 = if mana_max < 0 { 0int } else { mana_max };
    let min0 = if mana_min < 0 { 0int } else { mana_min };
    if hand.len() == 0 {
        Seq::empty()
    } else {
        let p = coin_head(hand);
        let have_coin = p < hand.len();
        let h = if have_coin {
            hand.update(p as int, hand.last()).drop_last()
        } else {
            hand
        };
        let hand1 = filter_le_spec(h, max0 + 1);
        let coin_patterns = if have_coin {
            map_push_spec(plays_spec(hand1, max0 + 1, max0 + 1), coin_spec())
        } else {
            Seq::empty()
        };
        let hand2full = filter_le_spec(hand1, max0);
        if hand2full.len() == 0 {
            coin_patterns
        } else {
            let last = hand2full.last();
            let hand2 = hand2full.drop_last();
            if hand2.len() == 0 {
                if last.mana >= min0 {
                    coin_patterns.push(seq![last])
                } else {
                    coin_patterns
                }
            } else {
                let sub1 = plays_spec(hand2, max0 - last.mana, min0 - last.mana);
                let patterns1 = if sub1.len() == 0 && last.mana >= min0 {
                    seq![seq![last]]
                } else {
                    map_push_spec(sub1, last)
                };
                let next = hand2.last();
                let min3 = if min0 > max0 - last.mana {
                    min0
                } else if max0 - last.mana == 0 {
                    0int
                } else if last.mana == next.mana && last.power != next.power {
                    max0 - last.mana + 1
                } else {
                    max0 - last.mana
                };
                let patterns2 = plays_spec(hand2, max0, min3);
                coin_patterns + patterns1 + patterns2
            }
        }
    }
}

#[via_fn]
proof fn plays_spec_decreases(hand: Seq<Card>, mana_max: int, mana_min: int) {
    let max0 = if mana_max < 0 { 0int } else { mana_max };
    if hand.len() > 0 {
        let p = coin_head(hand);
        lemma_coin_head(hand);
        let have_coin = p < hand.len();
        let h = if have_coin {
            hand.update(p as int, hand.last()).drop_last()
        } else {
            hand
        };
        lemma_filter_le_len(h, max0 + 1);
        let hand1 = filter_le_spec(h, max0 + 1);
        lemma_filter_le_len(hand1, max0);
    }
}

/// Whether some pattern in the list commits the same multiset of cards.
pub open spec fn has_ms(ps: Seq<Seq<Card>>, p: Seq<Card>) -> bool {
    exists|i: int| 0 <= i < ps.len() && (#[trigger] ps[i]).to_multiset() == p.to_multiset()
}

/// The list with every pattern repeating an earlier multiset removed; the
/// first occurrence of each multiset stays, in order.
pub open spec fn dedup_spec(ps: Seq<Seq<Card>>) -> Seq<Seq<Card>>
    decreases ps.len(),
{
    if ps.len() == 0 {
        Seq::empty()
    } else if has_ms(ps.drop_last(), ps.last()) {
        dedup_spec(ps.drop_last())
    } else {
        dedup_spec(ps.drop_last()).push(ps.last())
    }
}

/// A multiset occurs among the deduplicated patterns exactly when it
/// occurred among the originals.
pub proof fn lemma_dedup_has(ps: Seq<Seq<Card>>, p: Seq<Card>)
    ensures
        has_ms(dedup_spec(ps), p) <==> has_ms(ps, p),
    decreases ps.len(),
{
    if ps.len() > 0 {
        let dl = ps.drop_last();
        lemma_dedup_has(dl, p);
        lemma_dedup_has(dl, ps.last());
        let d = dedup_spec(ps);
        if has_ms(ps, p) {
            let w = choose|w: int| 0 <= w < ps.len()
                && (#[trigger] ps[w]).to_multiset() == p.to_multiset();
            if w < dl.len() {
                assert(dl[w] == ps[w]);
                assert(has_ms(dl, p));
                let v = choose|v: int| 0 <= v < dedup_spec(dl).len()
                    && (#[trigger] dedup_spec(dl)[v]).to_multiset() == p.to_multiset();
                if has_ms(dl, ps.last()) {
                    assert(d[v] == dedup_spec(dl)[v]);
                } else {
                    assert(d[v] == dedup_spec(dl)[v]);
                }
                assert(has_ms(d, p));
            } else {
                if has_ms(dl, ps.last()) {
                    assert(has_ms(dl, p));
                    let v = choose|v: int| 0 <= v < dedup_spec(dl).len()
                        && (#[trigger] dedup_spec(dl)[v]).to_multiset() == p.to_multiset();
                    assert(d[v] == dedup_spec(dl)[v]);
                } else {
                    assert(d[d.len() - 1].to_multiset() == p.to_multiset());
                }
                assert(has_ms(d, p));
            }
        }
        if has_ms(d, p) {
            let w = choose|w: int| 0 <= w < d.len()
                && (#[trigger] d[w]).to_multiset() == p.to_multiset();
            if has_ms(dl, ps.last()) {
                assert(d == dedup_spec(dl));
                assert(has_ms(dl, p));
                let v = choose|v: int| 0 <= v < dl.len()
                    && (#[trigger] dl[v]).to_multiset() == p.to_multiset();
                assert(ps[v] == dl[v]);
                assert(has_ms(ps, p));
            } else {
                if w < dedup_spec(dl).len() {
                    assert(d[w] == dedup_spec(dl)[w]);
                    assert(has_ms(dedup_spec(dl), p));
                    let v = choose|v: int| 0 <= v < dl.len()
                        && (#[trigger] dl[v]).to_multiset() == p.to_multiset();
                    assert(ps[v] == dl[v]);
                } else {
                    assert(d[w] == ps.last());
                    assert(ps[ps.len() - 1].to_multiset() == p.to_multiset());
                }
                assert(has_ms(ps, p));
            }
        }
    }
}

/// The empty "do nothing" pattern joins the list exactly when no pattern
/// in it is coin-free.
pub open spec fn with_nothing(ps: Seq<Seq<Card>>) -> Seq<Seq<Card>> {
    if exists|i: int| 0 <= i < ps.len() && coin_free(#[trigger] ps[i]) {
        ps
    } else {
        ps.push(Seq::empty())
    }
}

/// The whole enumeration that the turn evaluator sees: the zero-cost cards
/// are split off, the rest is sorted ascending and enumerated, exact
/// duplicates are removed, the empty fallback is added when every pattern
/// would need the coin, and the zero-cost cards are put back onto every
/// pattern.
pub open spec fn enumerate_spec(hand: Seq<Card>, mana_max: int, mana_min: int) -> Seq<
    Seq<Card>,
> {
    let zeros = filter_zero(hand);
    let sorted = filter_nonzero(hand).sort_by(card_leq());
    let base = with_nothing(dedup_spec(plays_spec(sorted, mana_max, mana_min)));
    base.map_values(|p: Seq<Card>| p + zeros)
}

/// A pattern keeps to the enumeration floors: a coin-free pattern spends
/// at least the clamped minimum, and a coin pattern spends exactly the
/// raised budget, fully.
pub open spec fn pattern_tight(p: Seq<Card>, mana_max: int, mana_min: int) -> bool {
    &&& coin_count(p) == 0 ==> sum_mana(p) >= (if mana_min < 0 { 0int } else { mana_min })
    &&& coin_count(p) > 0 ==> sum_mana(p) == (if mana_max < 0 { 0int } else { mana_max }) + 1
}

pub open spec fn all_tight(v: Seq<Vec<Card>>, mana_max: int, mana_min: int) -> bool {
    forall|i: int| 0 <= i < v.len() ==> pattern_tight((#[trigger] v[i])@, mana_max, mana_min)
}

/// Ascending order by mana first, power second.
pub open spec fn sorted_cards(s: Seq<Card>) -> bool {
    forall|i: int, j: int| 0 <= i < j < s.len() ==> (#[trigger] s[i]).le_spec(#[trigger] s[j])
}

/// Sorts a hand ascending by (mana, power) with a selection sort. The
/// enumerator's pruning assumes this order, so it is restored on entry
/// rather than trusted from callers.
pub fn sort_cards(v: &mut Vec<Card>)
    ensures
        final(v)@.len() == old(v)@.len(),
        final(v)@.to_multiset() == old(v)@.to_multiset(),
        sorted_cards(final(v)@),
{
    let n = v.len();
    let mut i: usize = 0;
    while i < n
        invariant
            n == v@.len(),
            i <= n,
            v@.to_multiset() == old(v)@.to_multiset(),
            forall|a: int, b: int| 0 <= a < b < i ==> (#[trigger] v@[a]).le_spec(
                #[trigger] v@[b]),
            forall|a: int, b: int| 0 <= a < i && i <= b < n ==> (#[trigger] v@[a]).le_spec(
                #[trigger] v@[b]),
        decreases n - i,
    {
        let ghost vs = v@;
        let mut m: usize = i;
        let mut j: usize = i + 1;
        while j < n
            invariant
                v@ == vs,
                n == v@.len(),
                i < n,
                i <= m < j,
                j <= n,
                forall|t: int| i <= t < j ==> (#[trigger] v@[m as int]).le_spec(v@[t]),
            decreases n - j,
        {
            if v[j].le(&v[m]) {
                m = j;
            }
            j += 1;
        }
        let tmp = v[i];
        let vm = v[m];
        v.set(i, vm);
        v.set(m, tmp);
        proof {
            assert(v@ == vs.update(i as int, vs[m as int]).update(m as int, vs[i as int]));
            crate::seqs::lemma_swap_multiset(vs, i as int, m as int);
            assert forall|a: int, b: int| 0 <= a < b < i + 1 implies (#[trigger] v@[a]).le_spec(
                #[trigger] v@[b]) by {
                if b < i {
                    assert(v@[a] == vs[a] && v@[b] == vs[b]);
                } else {
                    assert(v@[a] == vs[a]);
                    assert(v@[b] == vs[m as int]);
                }
            }
            assert forall|a: int, b: int| 0 <= a < i + 1 && i + 1 <= b < n implies
                (#[trigger] v@[a]).le_spec(#[trigger] v@[b]) by {
                let vb = if b == m { vs[i as int] } else { vs[b] };
                assert(v@[b] == vb);
                if a < i {
                    assert(v@[a] == vs[a]);
                } else {
                    assert(v@[a] == vs[m as int]);
                    assert(vs[m as int].le_spec(vb));
                }
            }
        }
        i += 1;
    }
}

/// The pattern appears, as the very sequence, somewhere in the list.
pub open spec fn came_from(p: Vec<Card>, plays: Seq<Vec<Card>>) -> bool {
    exists|j: int| 0 <= j < plays.len() && p@ == (#[trigger] plays[j])@
}

/// Some pattern in the list commits the same multiset of cards.
pub open spec fn represented(p: Vec<Card>, r: Seq<Vec<Card>>) -> bool {
    exists|i: int| 0 <= i < r.len() && (#[trigger] r[i])@.to_multiset() == p@.to_multiset()
}

/// Strips every pattern that commits the same multiset of cards as an
/// earlier one; what stays came from the input, and every input pattern is
/// still represented by an equal multiset.
pub fn remove_duplicate_plays(plays: &Vec<Vec<Card>>) -> (r: Vec<Vec<Card>>)
    ensures
        views_of(r@) == dedup_spec(views_of(plays@)),
        forall|i: int, j: int| 0 <= i < j < r@.len()
            ==> (#[trigger] r@[i])@.to_multiset() != (#[trigger] r@[j])@.to_multiset(),
        forall|i: int| 0 <= i < r@.len() ==> came_from(#[trigger] r@[i], plays@),
        forall|j: int| 0 <= j < plays@.len() ==> represented(#[trigger] plays@[j], r@),
{
    let mut r: Vec<Vec<Card>> = Vec::new();
    let mut k: usize = 0;
    while k < plays.len()
        invariant
            k <= plays@.len(),
            views_of(r@) == dedup_spec(views_of(plays@.take(k as int))),
            forall|i: int, j: int| 0 <= i < j < r@.len()
                ==> (#[trigger] r@[i])@.to_multiset() != (#[trigger] r@[j])@.to_multiset(),
            forall|i: int| 0 <= i < r@.len() ==> came_from(#[trigger] r@[i], plays@),
            forall|j: int| 0 <= j < k ==> represented(#[trigger] plays@[j], r@),
        decreases plays@.len() - k,
    {
        let ghost before = r@;
        let dup = contains_multiset(&r, &plays[k]);
        if !dup {
            r.push(copy_vec(&plays[k]));
        }
        proof {
            // the kept list mirrors the specification's one-step dedup
            let pv = views_of(plays@.take(k as int));
            assert(views_of(plays@.take(k as int + 1)) =~= pv.push(plays@[k as int]@)) by {
                assert(plays@.take(k as int + 1)
                    =~= plays@.take(k as int).push(plays@[k as int]));
            }
            assert(pv.push(plays@[k as int]@).drop_last() =~= pv);
            lemma_dedup_has(pv, plays@[k as int]@);
            assert(dup == has_ms(views_of(before), plays@[k as int]@)) by {
                if dup {
                    let w = choose|w: int| 0 <= w < before.len()
                        && (#[trigger] before[w])@.to_multiset()
                        == plays@[k as int]@.to_multiset();
                    assert(views_of(before)[w].to_multiset()
                        == plays@[k as int]@.to_multiset());
                }
                if has_ms(views_of(before), plays@[k as int]@) {
                    let w = choose|w: int| 0 <= w < views_of(before).len()
                        && (#[trigger] views_of(before)[w]).to_multiset()
                        == plays@[k as int]@.to_multiset();
                    assert(before[w]@.to_multiset() == plays@[k as int]@.to_multiset());
                }
            }
            assert(dup == has_ms(pv, plays@[k as int]@));
            if dup {
                assert(views_of(r@) == dedup_spec(views_of(plays@.take(k as int + 1))));
            } else {
                assert(views_of(r@) =~= views_of(before).push(plays@[k as int]@)) by {
                    assert(r@[before.len() as int]@ == plays@[k as int]@);
                    assert forall|t: int| 0 <= t < before.len() implies
                        views_of(r@)[t] == views_of(before)[t] by {
                        assert(r@[t] == before[t]);
                    }
                }
                assert(views_of(r@) == dedup_spec(views_of(plays@.take(k as int + 1))));
            }
            if !dup {
                assert(r@[before.len() as int]@ == plays@[k as int]@);
                assert forall|i: int, j: int| 0 <= i < j < r@.len() implies
                    (#[trigger] r@[i])@.to_multiset() != (#[trigger] r@[j])@.to_multiset() by {
                    if j < before.len() {
                        assert(r@[i] == before[i] && r@[j] == before[j]);
                    } else {
                        assert(r@[i] == before[i]);
                        assert(before[i]@.to_multiset() != plays@[k as int]@.to_multiset());
                    }
                }
                assert forall|i: int| 0 <= i < r@.len() implies
                    came_from(#[trigger] r@[i], plays@) by {
                    if i < before.len() {
                        assert(r@[i] == before[i]);
                        assert(came_from(before[i], plays@));
                    } else {
                        assert(r@[i]@ == (plays@[k as int])@);
                    }
                }
            }
            assert forall|j: int| 0 <= j < k + 1 implies
                represented(#[trigger] plays@[j], r@) by {
                if j == k {
                    if dup {
                        let w = choose|w: int| 0 <= w < before.len()
                            && (#[trigger] before[w])@.to_multiset()
                            == plays@[k as int]@.to_multiset();
                        assert(r@[w] == before[w]);
                        assert((r@[w])@.to_multiset() == plays@[j]@.to_multiset());
                    } else {
                        assert((r@[before.len() as int])@.to_multiset()
                            == plays@[j]@.to_multiset());
                    }
                } else {
                    assert(represented(plays@[j], before));
                    let w = choose|w: int| 0 <= w < before.len()
                        && (#[trigger] before[w])@.to_multiset() == plays@[j]@.to_multiset();
                    assert(r@[w] == before[w]);
                    assert((r@[w])@.to_multiset() == plays@[j]@.to_multiset());
                }
            }
        }
        k += 1;
    }
    proof {
        assert(plays@.take(plays@.len() as int) =~= plays@);
    }
    r
}

/// Adds the empty "do nothing" pattern when no present pattern is coin-free,
/// so a fallback that does not depend on holding the coin is always offered.
pub fn add_play_nothing(plays: &mut Vec<Vec<Card>>)
    ensures
        views_of(final(plays)@) == with_nothing(views_of(old(plays)@)),
        (exists|i: int| 0 <= i < old(plays)@.len() && coin_free((#[trigger] old(plays)@[i])@))
            ==> final(plays)@ == old(plays)@,
        !(exists|i: int| 0 <= i < old(plays)@.len() && coin_free((#[trigger] old(plays)@[i])@))
            ==> final(plays)@.len() == old(plays)@.len() + 1
                && (forall|i: int| 0 <= i < old(plays)@.len()
                    ==> final(plays)@[i] == old(plays)@[i])
                && final(plays)@[old(plays)@.len() as int]@ == Seq::<Card>::empty(),
        exists|i: int| 0 <= i < final(plays)@.len() && coin_free((#[trigger] final(plays)@[i])@),
{
    let mut k: usize = 0;
    while k < plays.len()
        invariant
            k <= plays@.len(),
            plays@ == old(plays)@,
            forall|j: int| 0 <= j < k ==> !coin_free((#[trigger] plays@[j])@),
        decreases plays@.len() - k,
    {
        if is_coin_free(&plays[k]) {
            proof {
                assert(coin_free(views_of(plays@)[k as int]));
                assert(with_nothing(views_of(plays@)) == views_of(plays@));
            }
            return ;
        }
        k += 1;
    }
    proof {
        assert forall|i: int| 0 <= i < views_of(plays@).len() implies
            !coin_free(#[trigger] views_of(plays@)[i]) by {
            assert(!coin_free(plays@[i]@));
        }
    }
    let empty: Vec<Card> = Vec::new();
    let ghost before = plays@;
    plays.push(empty);
    proof {
        assert(views_of(plays@) =~= views_of(before).push(Seq::<Card>::empty())) by {
            assert forall|t: int| 0 <= t < before.len() implies
                views_of(plays@)[t] == views_of(before)[t] by {
                assert(plays@[t] == before[t]);
            }
            assert(plays@[before.len() as int]@ =~= Seq::<Card>::empty());
        }
        assert(!(exists|i: int| 0 <= i < views_of(before).len()
            && coin_free(#[trigger] views_of(before)[i])));
    }
}

/// The complete enumerator for one turn: zero-cost cards are split off since
/// they are always played, the rest is enumerated, exact duplicates are
/// removed, the empty fallback is added when every pattern would need the
/// coin, and the zero-cost cards are put back onto every result. Every
/// pattern fits the budget (raised by one where it holds the coin), commits
/// only held cards, no two patterns are the same multiset, and at least one
/// coin-free pattern is always present.
#[verifier::rlimit(80)]
pub fn get_all_play_patterns(hand: &Vec<Card>, mana_max: i8, mana_min: i8) -> (r: Vec<Vec<Card>>)
    requires
        hand_wf(hand@),
        coin_count(hand@) > 0 ==> mana_max <= 126,
    ensures
        views_of(r@) == enumerate_spec(hand@, mana_max as int, mana_min as int),
        all_ok(r@, mana_max, hand@),
        forall|i: int| 0 <= i < r@.len()
            ==> filter_zero(hand@).to_multiset().subset_of((#[trigger] r@[i])@.to_multiset()),
        forall|i: int, j: int| 0 <= i < j < r@.len()
            ==> (#[trigger] r@[i])@.to_multiset() != (#[trigger] r@[j])@.to_multiset(),
        exists|i: int| 0 <= i < r@.len() && coin_free((#[trigger] r@[i])@),
        r@.len() >= 1,
{
    broadcast use lemma_sum_mana_push, lemma_coin_count_push;

    let ghost mmax = mana_max as int;
    let ghost mmin = mana_min as int;
    // split off the zero-cost cards, which are always played
    let mut no_zero: Vec<Card> = Vec::new();
    let mut zeros: Vec<Card> = Vec::new();
    let mut i: usize = 0;
    while i < hand.len()
        invariant
            i <= hand@.len(),
            no_zero@ == filter_nonzero(hand@.take(i as int)),
            zeros@ == filter_zero(hand@.take(i as int)),
            no_zero@.to_multiset().add(zeros@.to_multiset())
                == hand@.take(i as int).to_multiset(),
            forall|t: int| 0 <= t < no_zero@.len() ==> (#[trigger] no_zero@[t]).mana != 0,
            forall|t: int| 0 <= t < zeros@.len() ==> (#[trigger] zeros@[t]).mana == 0,
        decreases hand@.len() - i,
    {
        proof {
            assert(hand@.take(i as int + 1) =~= hand@.take(i as int).push(hand@[i as int]));
            assert(hand@.take(i as int + 1).drop_last() =~= hand@.take(i as int));
        }
        let ghost nz = no_zero@;
        let ghost zz = zeros@;
        if hand[i].mana != 0i8 {
            no_zero.push(hand[i]);
            proof {
                assert(no_zero@.to_multiset() == nz.to_multiset().insert(hand@[i as int]));
                assert(no_zero@.to_multiset().add(zeros@.to_multiset())
                    =~= nz.to_multiset().add(zz.to_multiset()).insert(hand@[i as int]));
            }
        } else {
            zeros.push(hand[i]);
            proof {
                assert(zeros@.to_multiset() == zz.to_multiset().insert(hand@[i as int]));
                assert(no_zero@.to_multiset().add(zeros@.to_multiset())
                    =~= nz.to_multiset().add(zz.to_multiset()).insert(hand@[i as int]));
            }
        }
        i += 1;
    }
    let ghost nz0 = no_zero@;
    sort_cards(&mut no_zero);
    proof {
        assert(hand@.take(hand@.len() as int) =~= hand@);
        assert(nz0 == filter_nonzero(hand@));
        assert(zeros@ == filter_zero(hand@));
        // a sorted permutation is unique, so the sorted hand is the
        // specification's sorted hand
        lemma_card_leq_total();
        nz0.lemma_sort_by_ensures(card_leq());
        assert(sorted_by(no_zero@, card_leq())) by {
            assert forall|a: int, b: int| 0 <= a < b < no_zero@.len() implies
                #[trigger] card_leq()(no_zero@[a], no_zero@[b]) by {
                assert(no_zero@[a].le_spec(no_zero@[b]));
            }
        }
        lemma_sorted_unique(no_zero@, nz0.sort_by(card_leq()), card_leq());
        assert(no_zero@ == filter_nonzero(hand@).sort_by(card_leq()));
        assert(no_zero@.to_multiset() == nz0.to_multiset());
        lemma_nonzero_transfer(no_zero@, nz0);
        assert(no_zero@.to_multiset().add(zeros@.to_multiset()) == hand@.to_multiset());
        assert forall|x: Card| no_zero@.to_multiset().count(x)
            <= hand@.to_multiset().count(x) by {}
        assert(no_zero@.to_multiset().subset_of(hand@.to_multiset()));
        lemma_hand_wf_sub(no_zero@, hand@);
    }

    let base0 = get_all_plays(&no_zero, mana_max, mana_min);
    let mut base = remove_duplicate_plays(&base0);
    proof {
        assert forall|t: int| 0 <= t < base@.len() implies
            pattern_ok((#[trigger] base@[t])@, mana_max, no_zero@) by {
            let j = choose|j: int| 0 <= j < base0@.len() && base@[t]@ == base0@[j]@;
            assert(pattern_ok(base0@[j]@, mana_max, no_zero@));
        }
    }
    let ghost ob = base@;
    add_play_nothing(&mut base);
    proof {
        let pushed = !(exists|i: int| 0 <= i < ob.len() && coin_free((#[trigger] ob[i])@));
        // every pattern, including a pushed empty one, fits and is held
        assert forall|t: int| 0 <= t < base@.len() implies
            pattern_ok((#[trigger] base@[t])@, mana_max, no_zero@) by {
            if t < ob.len() {
                assert(base@[t] == ob[t]);
            } else {
                assert(base@[t]@ == Seq::<Card>::empty());
                assert(sum_mana(base@[t]@) == 0);
                assert(coin_count(base@[t]@) == 0);
                assert forall|x: Card| base@[t]@.to_multiset().count(x)
                    <= no_zero@.to_multiset().count(x) by {
                    assert(base@[t]@.to_multiset().len() == 0);
                }
            }
        }
        // distinctness survives: an empty pattern is coin-free, so where one
        // was pushed no earlier pattern can be the empty multiset
        assert forall|i: int, j: int| 0 <= i < j < base@.len() implies
            (#[trigger] base@[i])@.to_multiset() != (#[trigger] base@[j])@.to_multiset() by {
            if j < ob.len() {
                assert(base@[i] == ob[i] && base@[j] == ob[j]);
            } else if pushed {
                assert(base@[i] == ob[i]);
                assert(base@[j]@ == Seq::<Card>::empty());
                if ob[i]@.to_multiset() == base@[j]@.to_multiset() {
                    assert(ob[i]@.to_multiset().len() == 0);
                    assert(ob[i]@.len() == 0);
                    assert(coin_free(ob[i]@));
                    assert(false);
                }
            }
        }
    }

    // put the zero-cost cards back onto every pattern
    let mut out: Vec<Vec<Card>> = Vec::new();
    let mut k: usize = 0;
    while k < base.len()
        invariant
            k <= base@.len(),
            out@.len() == k,
            forall|t: int| 0 <= t < k ==> (#[trigger] out@[t])@ == base@[t]@ + zeros@,
        decreases base@.len() - k,
    {
        let mut p = copy_vec(&base[k]);
        let mut z = copy_vec(&zeros);
        p.append(&mut z);
        out.push(p);
        k += 1;
    }
    proof {
        lemma_all_zero_sums(zeros@);
        assert forall|t: int| 0 <= t < out@.len() implies
            pattern_ok((#[trigger] out@[t])@, mana_max, hand@) by {
            let b = base@[t]@;
            assert(out@[t]@ == b + zeros@);
            lemma_sums_concat(b, zeros@);
            lemma_multiset_commutative(b, zeros@);
            assert(pattern_ok(b, mana_max, no_zero@));
            assert(sum_mana(out@[t]@) == sum_mana(b));
            assert(coin_count(out@[t]@) == coin_count(b));
            assert forall|x: Card| out@[t]@.to_multiset().count(x)
                <= hand@.to_multiset().count(x) by {
                assert(out@[t]@.to_multiset().count(x)
                    == b.to_multiset().count(x) + zeros@.to_multiset().count(x));
                assert(b.to_multiset().count(x) <= no_zero@.to_multiset().count(x));
                assert(hand@.to_multiset().count(x)
                    == no_zero@.to_multiset().count(x) + zeros@.to_multiset().count(x));
            }
        }
        assert forall|i: int, j: int| 0 <= i < j < out@.len() implies
            (#[trigger] out@[i])@.to_multiset() != (#[trigger] out@[j])@.to_multiset() by {
            lemma_multiset_commutative(base@[i]@, zeros@);
            lemma_multiset_commutative(base@[j]@, zeros@);
            if out@[i]@.to_multiset() == out@[j]@.to_multiset() {
                assert(base@[i]@.to_multiset() =~= base@[j]@.to_multiset()) by {
                    assert forall|x: Card| base@[i]@.to_multiset().count(x)
                        == base@[j]@.to_multiset().count(x) by {
                        assert(out@[i]@.to_multiset().count(x)
                            == base@[i]@.to_multiset().count(x)
                            + zeros@.to_multiset().count(x));
                        assert(out@[j]@.to_multiset().count(x)
                            == base@[j]@.to_multiset().count(x)
                            + zeros@.to_multiset().count(x));
                    }
                }
                assert(false);
            }
        }
        // a coin-free pattern stays coin-free once the zero-cost cards join it
        let w = choose|w: int| 0 <= w < base@.len() && coin_free((#[trigger] base@[w])@);
        assert(coin_free(out@[w]@)) by {
            assert forall|t: int| 0 <= t < out@[w]@.len() implies
                (#[trigger] out@[w]@[t]).mana >= 0 by {
                if t < base@[w]@.len() {
                    assert(out@[w]@[t] == base@[w]@[t]);
                } else {
                    assert(out@[w]@[t] == zeros@[t - base@[w]@.len()]);
                }
            }
        }
        // the result is exactly the documented enumeration
        let bs = with_nothing(dedup_spec(plays_spec(no_zero@, mmax, mmin)));
        assert(views_of(base0@) == plays_spec(no_zero@, mmax, mmin));
        assert(views_of(base@) == bs);
        let es = enumerate_spec(hand@, mmax, mmin);
        assert(es.len() == bs.len());
        assert(views_of(out@) =~= es) by {
            assert forall|t: int| 0 <= t < out@.len() implies views_of(out@)[t] == es[t] by {
                assert(es[t] == bs[t] + filter_zero(hand@));
                assert(out@[t]@ == base@[t]@ + zeros@);
                assert(views_of(base@)[t] == base@[t]@);
            }
        }
        // every zero-cost card joins every pattern
        assert forall|t: int| 0 <= t < out@.len() implies
            filter_zero(hand@).to_multiset().subset_of((#[trigger] out@[t])@.to_multiset())
            by {
            lemma_multiset_commutative(base@[t]@, zeros@);
            assert forall|x: Card| zeros@.to_multiset().count(x)
                <= out@[t]@.to_multiset().count(x) by {
                assert(out@[t]@.to_multiset().count(x)
                    == base@[t]@.to_multiset().count(x) + zeros@.to_multiset().count(x));
            }
        }
    }
    out
}

} // verus!
