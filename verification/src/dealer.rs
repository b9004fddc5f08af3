//! Deck and hand state: an ordered sequence of cards paired index-for-index
//! with a location tag. A position's card value never changes; only its
//! location moves between in-deck, in-hand and committed.

use vstd::prelude::*;
use vstd::multiset::Multiset;
use vstd::multiset::group_multiset_axioms;
use vstd::seq_lib::group_to_multiset_ensures;
use crate::card::{Card, CardPower, is_coin, coin_spec};
use crate::patterns::{hand_wf, coin_count, lemma_coin_count_push, lemma_coin_count_is_count,
    lemma_no_coin_members};
use crate::rng::rand_below;
use crate::seqs::{copy_vec, lemma_swap_remove_multiset, lemma_submultiset_len};

verus! {

broadcast use group_to_multiset_ensures, group_multiset_axioms;

/// Where a card instance currently sits. A committed card has left the
/// game for the rest of the playout and is nowhere.
#[derive(Clone, Copy, PartialEq, Eq, Structural, Debug)]
pub enum CardLocation {
    InDeck,
    InHand,
    NoWhere,
}

/// Decks larger than this are refused; it keeps every score sum far from
/// the integer limits.
pub const DECK_CAP: usize = 4096;

/// How many positions carry the given location tag.
pub open spec fn count_loc(s: Seq<CardLocation>, loc: CardLocation) -> int
    decreases s.len(),
{
    if s.len() == 0 {
        0
    } else {
        count_loc(s.drop_last(), loc) + if s.last() == loc {
            1int
        } else {
            0int
        }
    }
}

/// The cards that sit at the given location, in deck order.
pub open spec fn loc_of(cards: Seq<Card>, locs: Seq<CardLocation>, tag: CardLocation) -> Seq<Card>
    decreases cards.len(),
{
    if cards.len() == 0 {
        Seq::empty()
    } else {
        let rest = loc_of(cards.drop_last(), locs.drop_last(), tag);
        if locs.last() == tag {
            rest.push(cards.last())
        } else {
            rest
        }
    }
}

/// The deck with every coin removed, order kept.
pub open spec fn strip_coins(s: Seq<Card>) -> Seq<Card>
    decreases s.len(),
{
    if s.len() == 0 {
        Seq::empty()
    } else if is_coin(s.last()) {
        strip_coins(s.drop_last())
    } else {
        strip_coins(s.drop_last()).push(s.last())
    }
}

pub broadcast proof fn lemma_count_loc_push(s: Seq<CardLocation>, v: CardLocation,
    loc: CardLocation)
    ensures
        #[trigger] count_loc(s.push(v), loc) == count_loc(s, loc) + if v == loc {
            1int
        } else {
            0int
        },
{
    assert(s.push(v).drop_last() =~= s);
}

/// Retagging one position moves the location counts by exactly one.
pub proof fn lemma_count_loc_update(s: Seq<CardLocation>, j: int, v: CardLocation,
    loc: CardLocation)
    requires
        0 <= j < s.len(),
    ensures
        count_loc(s.update(j, v), loc) == count_loc(s, loc) - (if s[j] == loc {
            1int
        } else {
            0int
        }) + (if v == loc {
            1int
        } else {
            0int
        }),
    decreases s.len(),
{
    let l = s.len() - 1;
    if j == l {
        assert(s.update(j, v).drop_last() =~= s.drop_last());
    } else {
        assert(s.update(j, v).drop_last() =~= s.drop_last().update(j, v));
        assert(s.update(j, v).last() == s.last());
        lemma_count_loc_update(s.drop_last(), j, v, loc);
    }
}

/// Retagging one position changes which cards sit at each location in the
/// expected way: the position's card leaves its old tag's multiset and
/// joins the new tag's.
pub proof fn lemma_loc_of_update(cards: Seq<Card>, locs: Seq<CardLocation>, j: int,
    v: CardLocation, tag: CardLocation)
    requires
        cards.len() == locs.len(),
        0 <= j < locs.len(),
    ensures
        loc_of(cards, locs.update(j, v), tag).to_multiset() == (if locs[j] == tag && v != tag {
            loc_of(cards, locs, tag).to_multiset().remove(cards[j])
        } else if locs[j] != tag && v == tag {
            loc_of(cards, locs, tag).to_multiset().insert(cards[j])
        } else {
            loc_of(cards, locs, tag).to_multiset()
        }),
    decreases cards.len(),
{
    let l = locs.len() - 1;
    let old_ms = loc_of(cards, locs, tag).to_multiset();
    if j == l {
        assert(locs.update(j, v).drop_last() =~= locs.drop_last());
        assert(cards.drop_last() == cards.drop_last());
        let rest = loc_of(cards.drop_last(), locs.drop_last(), tag);
        if locs[j] == tag && v != tag {
            assert(loc_of(cards, locs, tag) == rest.push(cards.last()));
            assert(loc_of(cards, locs.update(j, v), tag) == rest);
            assert(rest.to_multiset() == rest.push(cards.last()).to_multiset().remove(
                cards[j])) by {
                assert(rest.push(cards.last()).to_multiset()
                    == rest.to_multiset().insert(cards.last()));
            }
        } else if locs[j] != tag && v == tag {
            assert(loc_of(cards, locs, tag) == rest);
            assert(loc_of(cards, locs.update(j, v), tag) == rest.push(cards.last()));
        }
    } else {
        assert(locs.update(j, v).drop_last() =~= locs.drop_last().update(j, v));
        assert(locs.update(j, v).last() == locs.last());
        lemma_loc_of_update(cards.drop_last(), locs.drop_last(), j, v, tag);
        let rest_old = loc_of(cards.drop_last(), locs.drop_last(), tag);
        let rest_new = loc_of(cards.drop_last(), locs.drop_last().update(j, v), tag);
        assert(locs.drop_last()[j] == locs[j]);
        assert(cards.drop_last()[j] == cards[j]);
        if locs.last() == tag {
            assert(loc_of(cards, locs, tag) == rest_old.push(cards.last()));
            assert(loc_of(cards, locs.update(j, v), tag) == rest_new.push(cards.last()));
            assert(rest_old.push(cards.last()).to_multiset()
                == rest_old.to_multiset().insert(cards.last()));
            assert(rest_new.push(cards.last()).to_multiset()
                == rest_new.to_multiset().insert(cards.last()));
            if locs[j] == tag && v != tag {
                assert(rest_old.to_multiset().count(cards[j]) > 0) by {
                    lemma_loc_of_contains(cards.drop_last(), locs.drop_last(), tag, cards[j]);
                }
                assert(rest_old.to_multiset().remove(cards[j]).insert(cards.last())
                    =~= rest_old.to_multiset().insert(cards.last()).remove(cards[j]));
            } else if locs[j] != tag && v == tag {
                assert(rest_old.to_multiset().insert(cards[j]).insert(cards.last())
                    =~= rest_old.to_multiset().insert(cards.last()).insert(cards[j]));
            }
        }
    }
}

/// A card is at a location exactly when some position holds that card with
/// that tag.
pub proof fn lemma_loc_of_contains(cards: Seq<Card>, locs: Seq<CardLocation>,
    tag: CardLocation, c: Card)
    requires
        cards.len() == locs.len(),
    ensures
        loc_of(cards, locs, tag).to_multiset().count(c) > 0 <==> exists|j: int|
            0 <= j < cards.len() && cards[j] == c && locs[j] == tag,
    decreases cards.len(),
{
    if cards.len() == 0 {
        assert(loc_of(cards, locs, tag).to_multiset().len() == 0);
    } else {
        lemma_loc_of_contains(cards.drop_last(), locs.drop_last(), tag, c);
        let rest = loc_of(cards.drop_last(), locs.drop_last(), tag);
        let l = cards.len() - 1;
        if locs.last() == tag {
            assert(loc_of(cards, locs, tag) == rest.push(cards.last()));
            assert(rest.push(cards.last()).to_multiset()
                == rest.to_multiset().insert(cards.last()));
            if loc_of(cards, locs, tag).to_multiset().count(c) > 0 {
                if cards.last() == c {
                    assert(cards[l] == c && locs[l] == tag);
                } else {
                    assert(rest.to_multiset().count(c) > 0);
                    let w = choose|w: int| 0 <= w < cards.drop_last().len()
                        && cards.drop_last()[w] == c && locs.drop_last()[w] == tag;
                    assert(cards[w] == c && locs[w] == tag);
                }
            }
            if exists|j: int| 0 <= j < cards.len() && cards[j] == c && locs[j] == tag {
                let w = choose|w: int| 0 <= w < cards.len() && cards[w] == c && locs[w] == tag;
                if w == l {
                    assert(loc_of(cards, locs, tag).to_multiset().count(c) > 0);
                } else {
                    assert(cards.drop_last()[w] == c && locs.drop_last()[w] == tag);
                    assert(rest.to_multiset().count(c) > 0);
                }
            }
        } else {
            assert(loc_of(cards, locs, tag) == rest);
            if exists|j: int| 0 <= j < cards.len() && cards[j] == c && locs[j] == tag {
                let w = choose|w: int| 0 <= w < cards.len() && cards[w] == c && locs[w] == tag;
                assert(w != l);
                assert(cards.drop_last()[w] == c && locs.drop_last()[w] == tag);
            }
            if rest.to_multiset().count(c) > 0 {
                let w = choose|w: int| 0 <= w < cards.drop_last().len()
                    && cards.drop_last()[w] == c && locs.drop_last()[w] == tag;
                assert(cards[w] == c && locs[w] == tag);
            }
        }
    }
}

/// A location no position carries holds no cards.
pub proof fn lemma_loc_of_absent(cards: Seq<Card>, locs: Seq<CardLocation>, tag: CardLocation)
    requires
        cards.len() == locs.len(),
        forall|i: int| 0 <= i < locs.len() ==> locs[i] != tag,
    ensures
        loc_of(cards, locs, tag) == Seq::<Card>::empty(),
    decreases cards.len(),
{
    if cards.len() > 0 {
        assert(forall|i: int| 0 <= i < locs.drop_last().len() ==> locs.drop_last()[i] != tag);
        lemma_loc_of_absent(cards.drop_last(), locs.drop_last(), tag);
    }
}

/// The cards at any one location are a selection of the whole deck.
pub proof fn lemma_loc_of_sub(cards: Seq<Card>, locs: Seq<CardLocation>, tag: CardLocation)
    requires
        cards.len() == locs.len(),
    ensures
        loc_of(cards, locs, tag).to_multiset().subset_of(cards.to_multiset()),
        loc_of(cards, locs, tag).len() <= cards.len(),
    decreases cards.len(),
{
    if cards.len() == 0 {
    } else {
        lemma_loc_of_sub(cards.drop_last(), locs.drop_last(), tag);
        let rest = loc_of(cards.drop_last(), locs.drop_last(), tag);
        assert(cards =~= cards.drop_last().push(cards.last()));
        assert(cards.to_multiset() == cards.drop_last().to_multiset().insert(cards.last()));
        if locs.last() == tag {
            assert(loc_of(cards, locs, tag) == rest.push(cards.last()));
            assert(rest.push(cards.last()).to_multiset()
                == rest.to_multiset().insert(cards.last()));
            assert forall|x: Card| loc_of(cards, locs, tag).to_multiset().count(x)
                <= cards.to_multiset().count(x) by {
                assert(rest.to_multiset().count(x)
                    <= cards.drop_last().to_multiset().count(x));
            }
        } else {
            assert forall|x: Card| loc_of(cards, locs, tag).to_multiset().count(x)
                <= cards.to_multiset().count(x) by {
                assert(rest.to_multiset().count(x)
                    <= cards.drop_last().to_multiset().count(x));
            }
        }
        lemma_submultiset_len(loc_of(cards, locs, tag).to_multiset(), cards.to_multiset());
    }
}

/// Facts about a stripped deck: it is no longer, holds no coin, and keeps
/// well-formedness.
pub proof fn lemma_strip_coins_wf(s: Seq<Card>)
    requires
        hand_wf(s),
    ensures
        strip_coins(s).len() <= s.len(),
        hand_wf(strip_coins(s)),
        coin_count(strip_coins(s)) == 0,
        forall|i: int| 0 <= i < strip_coins(s).len() ==> !is_coin(#[trigger] strip_coins(s)[i])
            && strip_coins(s)[i].mana >= 0,
    decreases s.len(),
{
    broadcast use lemma_coin_count_push;

    if s.len() > 0 {
        let dl = s.drop_last();
        assert(hand_wf(dl)) by {
            assert(forall|i: int| 0 <= i < dl.len() ==> dl[i] == s[i]);
            assert(coin_count(dl) <= coin_count(s)) by {
                assert(coin_count(s) == coin_count(dl) + if is_coin(s.last()) {
                    1int
                } else {
                    0int
                });
            }
        }
        lemma_strip_coins_wf(dl);
        if !is_coin(s.last()) {
            let t = strip_coins(dl);
            assert(strip_coins(s) == t.push(s.last()));
            assert forall|i: int| 0 <= i < strip_coins(s).len() implies
                !is_coin(#[trigger] strip_coins(s)[i]) && strip_coins(s)[i].mana >= 0 by {
                if i < t.len() {
                    assert(strip_coins(s)[i] == t[i]);
                } else {
                    assert(strip_coins(s)[i] == s.last());
                }
            }
        }
    }
}

/// Stripping the coins of an already stripped deck changes nothing: a
/// second reset gives the same location assignment as a single one.
pub proof fn lemma_strip_coins_idempotent(s: Seq<Card>)
    ensures
        strip_coins(strip_coins(s)) == strip_coins(s),
    decreases s.len(),
{
    if s.len() > 0 {
        lemma_strip_coins_idempotent(s.drop_last());
        if !is_coin(s.last()) {
            let t = strip_coins(s.drop_last());
            assert(strip_coins(s) == t.push(s.last()));
            assert(t.push(s.last()).drop_last() =~= t);
            assert(strip_coins(t.push(s.last())) == strip_coins(t).push(s.last()));
        }
    }
}

/// The parsed deck text holds only plain persisted cards: non-negative
/// mana within the card range, and never the coin.
pub proof fn lemma_parse_deck_nonneg(s: Seq<u8>)
    requires
        crate::codec::parse_deck_spec(s) is Some,
    ensures
        forall|i: int| 0 <= i < crate::codec::parse_deck_spec(s).unwrap().len()
            ==> 0 <= (#[trigger] crate::codec::parse_deck_spec(s).unwrap()[i]).mana <= 127,
    decreases s.len(),
{
    let j0 = crate::codec::split_head(s, 32);
    let j = if j0 > s.len() { s.len() } else { j0 };
    let tok = s.take(j as int);
    assert(crate::card::token_valid(tok));
    crate::card::lemma_digits_val_prefix(crate::card::token_digits(tok),
        crate::card::token_digits(tok).len() as int);
    assert(crate::card::token_digits(tok).take(crate::card::token_digits(tok).len() as int)
        =~= crate::card::token_digits(tok));
    let c = crate::card::token_card(tok);
    assert(0 <= c.mana <= 127);
    if j != s.len() {
        let rest = crate::codec::parse_deck_spec(s.skip(j + 1int));
        lemma_parse_deck_nonneg(s.skip(j + 1int));
        let all = crate::codec::parse_deck_spec(s).unwrap();
        assert forall|i: int| 0 <= i < all.len() implies
            0 <= (#[trigger] all[i]).mana <= 127 by {
            if i > 0 {
                assert(all[i] == rest.unwrap()[i - 1]);
            }
        }
    }
}

impl Dealer {
    /// Parses and appends the cards of one repetition token, such as
    /// `4n2` for four normal two-drops. Fails, with nothing changed, when
    /// the token is malformed or the deck would outgrow its cap.
    pub fn insert_cards(&mut self, cards_str: &[u8]) -> (r: bool)
        requires
            old(self).wf(),
        ensures
            final(self).wf(),
            !r ==> *final(self) == *old(self),
            r ==> crate::codec::cards_token_valid(cards_str@)
                && final(self).cards@.len() == old(self).cards@.len()
                    + crate::codec::cards_token_count(cards_str@)
                && (forall|i: int| 0 <= i < old(self).cards@.len()
                    ==> final(self).cards@[i] == old(self).cards@[i])
                && (forall|i: int| old(self).cards@.len() <= i < final(self).cards@.len()
                    ==> final(self).cards@[i] == crate::codec::cards_token_card(cards_str@))
                && (forall|i: int| 0 <= i < old(self).card_location@.len()
                    ==> final(self).card_location@[i] == old(self).card_location@[i])
                && (forall|i: int| old(self).cards@.len() <= i < final(self).cards@.len()
                    ==> (#[trigger] final(self).card_location@[i]) == CardLocation::InDeck),
            !crate::codec::cards_token_valid(cards_str@) ==> !r,
    {
        let cards = match Card::create_cards(cards_str) {
            Some(c) => c,
            None => {
                return false;
            },
        };
        if cards.len() > DECK_CAP || self.cards.len() > DECK_CAP - cards.len() {
            return false;
        }
        proof {
            assert(crate::codec::cards_token_valid(cards_str@));
            if cards@.len() > 0 {
                let tok = cards_str@.skip(crate::codec::cards_token_split(cards_str@));
                assert(crate::card::token_valid(tok));
                crate::card::lemma_digits_val_prefix(crate::card::token_digits(tok),
                    crate::card::token_digits(tok).len() as int);
                assert(crate::card::token_digits(tok).take(
                    crate::card::token_digits(tok).len() as int)
                    =~= crate::card::token_digits(tok));
                assert(0 <= cards@[0].mana <= 127);
            }
        }
        let mut i: usize = 0;
        while i < cards.len()
            invariant
                i <= cards@.len(),
                old(self).wf(),
                self.wf(),
                self.cards@.len() == old(self).cards@.len() + i,
                self.cards@.len() <= DECK_CAP - (cards@.len() - i),
                forall|t: int| 0 <= t < cards@.len() ==> (#[trigger] cards@[t])
                    == crate::codec::cards_token_card(cards_str@)
                    && 0 <= cards@[t].mana <= 127,
                forall|t: int| 0 <= t < old(self).cards@.len()
                    ==> self.cards@[t] == old(self).cards@[t],
                forall|t: int| old(self).cards@.len() <= t < self.cards@.len()
                    ==> self.cards@[t] == crate::codec::cards_token_card(cards_str@),
                forall|t: int| 0 <= t < old(self).card_location@.len()
                    ==> self.card_location@[t] == old(self).card_location@[t],
                forall|t: int| old(self).cards@.len() <= t < self.cards@.len()
                    ==> (#[trigger] self.card_location@[t]) == CardLocation::InDeck,
                self.card_location@.len() == self.cards@.len(),
            decreases cards@.len() - i,
        {
            let c = cards[i];
            let ghost pre = self.card_location@;
            self.insert_card(c);
            proof {
                assert(self.card_location@ == pre.push(CardLocation::InDeck));
                assert forall|t: int| 0 <= t < old(self).card_location@.len() implies
                    self.card_location@[t] == old(self).card_location@[t] by {
                    assert(self.card_location@[t] == pre[t]);
                    assert(pre[t] == old(self).card_location@[t]);
                }
            }
            i += 1;
        }
        true
    }

    /// Fills the deck up to thirty cards with plain expensive filler, the
    /// nine-mana normal card; refuses a deck already over thirty.
    pub fn fill_deck(&mut self) -> (r: bool)
        requires
            old(self).wf(),
        ensures
            final(self).wf(),
            r == (old(self).cards@.len() <= 30),
            !r ==> *final(self) == *old(self),
            r ==> final(self).cards@.len() == 30
                && (forall|i: int| 0 <= i < old(self).cards@.len()
                    ==> final(self).cards@[i] == old(self).cards@[i])
                && (forall|i: int| old(self).cards@.len() <= i < 30
                    ==> (#[trigger] final(self).cards@[i])
                        == (Card { mana: 9i8, power: CardPower::Normal }))
                && (forall|i: int| 0 <= i < old(self).card_location@.len()
                    ==> final(self).card_location@[i] == old(self).card_location@[i])
                && (forall|i: int| old(self).cards@.len() <= i < 30
                    ==> (#[trigger] final(self).card_location@[i]) == CardLocation::InDeck),
    {
        if self.cards.len() > 30 {
            return false;
        }
        while self.cards.len() < 30
            invariant
                old(self).wf(),
                self.wf(),
                old(self).cards@.len() <= self.cards@.len() <= 30,
                forall|t: int| 0 <= t < old(self).cards@.len()
                    ==> self.cards@[t] == old(self).cards@[t],
                forall|t: int| old(self).cards@.len() <= t < self.cards@.len()
                    ==> (#[trigger] self.cards@[t])
                        == (Card { mana: 9i8, power: CardPower::Normal }),
                forall|t: int| 0 <= t < old(self).card_location@.len()
                    ==> self.card_location@[t] == old(self).card_location@[t],
                forall|t: int| old(self).cards@.len() <= t < self.cards@.len()
                    ==> (#[trigger] self.card_location@[t]) == CardLocation::InDeck,
            decreases 30 - self.cards@.len(),
        {
            let ghost pre = self.card_location@;
            self.insert_card(Card { mana: 9i8, power: CardPower::Normal });
            proof {
                assert(self.card_location@ == pre.push(CardLocation::InDeck));
                assert forall|t: int| 0 <= t < old(self).card_location@.len() implies
                    self.card_location@[t] == old(self).card_location@[t] by {
                    assert(self.card_location@[t] == pre[t]);
                    assert(pre[t] == old(self).card_location@[t]);
                }
            }
        }
        true
    }

    /// The persisted text of the deck. The coin is never persisted, so the
    /// deck must hold none.
    pub fn save(&self) -> (r: Vec<u8>)
        requires
            self.wf(),
            coin_count(self.cards@) == 0,
        ensures
            r@ == crate::codec::deck_text(self.cards@),
    {
        proof {
            lemma_no_coin_members(self.cards@);
        }
        crate::codec::save_deck(&self.cards)
    }

    /// Replaces the whole deck with the cards of the given text; a
    /// malformed token or an oversized deck fails the load atomically,
    /// leaving the deck cleared.
    pub fn load(&mut self, s: &[u8]) -> (r: bool)
        requires
            old(self).wf(),
        ensures
            final(self).wf(),
            match crate::codec::parse_deck_spec(s@) {
                Some(cs) => {
                    &&& (r <==> cs.len() <= DECK_CAP)
                    &&& r ==> final(self).cards@ == cs
                        && (forall|i: int| 0 <= i < final(self).card_location@.len()
                            ==> final(self).card_location@[i] == CardLocation::InDeck)
                },
                None => !r,
            },
            !r ==> final(self).cards@.len() == 0,
    {
        self.clear();
        let cards = match crate::codec::parse_deck(s) {
            Some(c) => c,
            None => {
                return false;
            },
        };
        if cards.len() > DECK_CAP {
            return false;
        }
        proof {
            lemma_parse_deck_nonneg(s@);
        }
        let mut i: usize = 0;
        while i < cards.len()
            invariant
                i <= cards@.len(),
                cards@.len() <= DECK_CAP,
                cards@ == crate::codec::parse_deck_spec(s@).unwrap(),
                forall|t: int| 0 <= t < cards@.len()
                    ==> 0 <= (#[trigger] cards@[t]).mana <= 127,
                self.wf(),
                self.cards@ =~= cards@.take(i as int),
                forall|t: int| 0 <= t < self.card_location@.len()
                    ==> self.card_location@[t] == CardLocation::InDeck,
                coin_count(self.cards@) == 0,
            decreases cards@.len() - i,
        {
            proof {
                broadcast use crate::patterns::lemma_coin_count_push;

                assert(cards@.take(i as int + 1)
                    =~= cards@.take(i as int).push(cards@[i as int]));
            }
            self.insert_card(cards[i]);
            i += 1;
        }
        proof {
            assert(cards@.take(cards@.len() as int) =~= cards@);
        }
        true
    }
}

/// Whether the simulated side plays first or second; the side on the draw
/// starts with one more card and the coin.
#[derive(Clone, Copy, PartialEq, Eq, Structural, Debug)]
pub enum PlayOrder {
    First,
    Second,
}

impl PlayOrder {
    pub open spec fn start_hand_size_spec(self) -> int {
        match self {
            PlayOrder::First => 3,
            PlayOrder::Second => 4,
        }
    }

    pub fn get_start_hand_size(&self) -> (r: u8)
        ensures
            r == self.start_hand_size_spec(),
    {
        match self {
            PlayOrder::First => 3,
            PlayOrder::Second => 4,
        }
    }

    /// How many keep/redraw bit patterns an opening hand of this order has.
    pub open spec fn pattern_int_spec(self) -> int {
        match self {
            PlayOrder::First => 8,
            PlayOrder::Second => 16,
        }
    }

    pub fn get_pattern_int(&self) -> (r: u8)
        ensures
            r == self.pattern_int_spec(),
    {
        match self {
            PlayOrder::First => 8,
            PlayOrder::Second => 16,
        }
    }

    /// Decides the play order by a coin flip. Nothing is promised of the
    /// outcome beyond it being one of the two orders.
    pub fn flip_the_coin(rng: &mut fastrand::Rng) -> PlayOrder {
        if crate::rng::rand_bool(rng) {
            PlayOrder::First
        } else {
            PlayOrder::Second
        }
    }
}

/// The deck: cards paired index-for-index with their current locations.
pub struct Dealer {
    pub cards: Vec<Card>,
    pub card_location: Vec<CardLocation>,
}

impl Dealer {
    /// The two sequences move together, the deck stays small enough for
    /// score arithmetic, and the cards themselves are well formed.
    pub open spec fn wf(self) -> bool {
        &&& self.cards@.len() == self.card_location@.len()
        &&& self.cards@.len() <= DECK_CAP
        &&& hand_wf(self.cards@)
    }

    pub fn new() -> (r: Dealer)
        ensures
            r.wf(),
            r.cards@.len() == 0,
            r.card_location@.len() == 0,
    {
        Dealer { cards: Vec::new(), card_location: Vec::new() }
    }

    /// An independent deep copy, as each simulation worker owns one.
    pub fn duplicate(&self) -> (r: Dealer)
        ensures
            r.cards@ == self.cards@,
            r.card_location@ == self.card_location@,
    {
        Dealer { cards: copy_vec(&self.cards), card_location: copy_vec(&self.card_location) }
    }

    /// Appends a card, located in the deck. Duplicates stay distinct
    /// positions.
    pub fn insert_card(&mut self, card: Card)
        requires
            old(self).wf(),
            old(self).cards@.len() < DECK_CAP,
            card.mana >= -1,
            is_coin(card) ==> card == coin_spec() && coin_count(old(self).cards@) == 0,
        ensures
            final(self).cards@ == old(self).cards@.push(card),
            final(self).card_location@ == old(self).card_location@.push(CardLocation::InDeck),
            final(self).wf(),
    {
        broadcast use lemma_coin_count_push;

        self.cards.push(card);
        self.card_location.push(CardLocation::InDeck);
        proof {
            assert forall|i: int| 0 <= i < self.cards@.len() implies
                (#[trigger] self.cards@[i]).mana >= -1 by {
                if i < old(self).cards@.len() {
                    assert(self.cards@[i] == old(self).cards@[i]);
                }
            }
        }
    }

    /// Empties the whole deck, locations included.
    pub fn clear(&mut self)
        ensures
            final(self).cards@.len() == 0,
            final(self).card_location@.len() == 0,
            final(self).wf(),
    {
        self.cards.clear();
        self.card_location.clear();
    }

    /// Puts every card back in the deck and strips the coin out entirely:
    /// the coin is re-derived per trial from the play order, never kept.
    pub fn reset_deck(&mut self)
        requires
            old(self).wf(),
        ensures
            final(self).cards@ == strip_coins(old(self).cards@),
            final(self).card_location@.len() == final(self).cards@.len(),
            forall|i: int| 0 <= i < final(self).card_location@.len()
                ==> final(self).card_location@[i] == CardLocation::InDeck,
            final(self).wf(),
            coin_count(final(self).cards@) == 0,
            count_loc(final(self).card_location@, CardLocation::InDeck)
                == final(self).cards@.len(),
    {
        proof {
            lemma_strip_coins_wf(old(self).cards@);
        }
        let mut kept: Vec<Card> = Vec::new();
        let mut i: usize = 0;
        while i < self.cards.len()
            invariant
                self.cards@ == old(self).cards@,
                self.card_location@ == old(self).card_location@,
                i <= self.cards@.len(),
                kept@ == strip_coins(self.cards@.take(i as int)),
            decreases self.cards@.len() - i,
        {
            proof {
                assert(self.cards@.take(i as int + 1)
                    =~= self.cards@.take(i as int).push(self.cards@[i as int]));
                assert(self.cards@.take(i as int + 1).drop_last()
                    =~= self.cards@.take(i as int));
            }
            if !self.cards[i].is_coin() {
                kept.push(self.cards[i]);
            }
            i += 1;
        }
        proof {
            assert(self.cards@.take(self.cards@.len() as int) =~= self.cards@);
        }
        let n = kept.len();
        let mut locs: Vec<CardLocation> = Vec::new();
        let mut k: usize = 0;
        while k < n
            invariant
                k <= n,
                locs@.len() == k,
                forall|t: int| 0 <= t < k ==> locs@[t] == CardLocation::InDeck,
                count_loc(locs@, CardLocation::InDeck) == k,
            decreases n - k,
        {
            proof {
                assert(locs@.push(CardLocation::InDeck).drop_last() =~= locs@);
            }
            locs.push(CardLocation::InDeck);
            k += 1;
        }
        self.cards = kept;
        self.card_location = locs;
    }

    /// Moves the card at a deck position into the hand; reports whether the
    /// position exists.
    pub fn deck_to_hand(&mut self, card_pos: usize) -> (r: bool)
        ensures
            r == (card_pos < old(self).card_location@.len()),
            r ==> final(self).card_location@
                == old(self).card_location@.update(card_pos as int, CardLocation::InHand),
            !r ==> final(self).card_location@ == old(self).card_location@,
            final(self).cards@ == old(self).cards@,
    {
        if card_pos < self.card_location.len() {
            self.card_location.set(card_pos, CardLocation::InHand);
            true
        } else {
            false
        }
    }

    /// The first position whose card and location both match, if any.
    pub fn get_card_pos(&self, card: Card, location: CardLocation, view: &Vec<CardLocation>)
        -> (r: Option<usize>)
        requires
            view@.len() == self.cards@.len(),
        ensures
            match r {
                Some(p) => p < self.cards@.len() && self.cards@[p as int] == card
                    && view@[p as int] == location
                    && (forall|j: int| 0 <= j < p
                        ==> !(self.cards@[j] == card && (#[trigger] view@[j]) == location)),
                None => forall|j: int| 0 <= j < self.cards@.len()
                    ==> !(self.cards@[j] == card && (#[trigger] view@[j]) == location),
            },
    {
        let mut i: usize = 0;
        while i < self.cards.len()
            invariant
                i <= self.cards@.len(),
                view@.len() == self.cards@.len(),
                forall|j: int| 0 <= j < i
                    ==> !(self.cards@[j] == card && (#[trigger] view@[j]) == location),
            decreases self.cards@.len() - i,
        {
            if self.cards[i] == card && view[i] == location {
                return Some(i);
            }
            i += 1;
        }
        None
    }

    /// The card values at the given deck positions, in the given order.
    pub fn position_to_cards(&self, positions: &Vec<usize>) -> (r: Vec<Card>)
        requires
            forall|i: int| 0 <= i < positions@.len()
                ==> (#[trigger] positions@[i]) < self.cards@.len(),
        ensures
            r@.len() == positions@.len(),
            forall|i: int| 0 <= i < r@.len()
                ==> (#[trigger] r@[i]) == self.cards@[positions@[i] as int],
    {
        let mut r: Vec<Card> = Vec::new();
        let mut i: usize = 0;
        while i < positions.len()
            invariant
                i <= positions@.len(),
                r@.len() == i,
                forall|t: int| 0 <= t < positions@.len()
                    ==> (#[trigger] positions@[t]) < self.cards@.len(),
                forall|t: int| 0 <= t < i
                    ==> (#[trigger] r@[t]) == self.cards@[positions@[t] as int],
            decreases positions@.len() - i,
        {
            r.push(self.cards[positions[i]]);
            i += 1;
        }
        r
    }

    /// Draws uniformly at random among the positions in the deck under the
    /// given location view and flips the drawn position to in-hand.
    pub fn draw_card(view: &mut Vec<CardLocation>, rng: &mut fastrand::Rng) -> (pos: usize)
        requires
            count_loc(old(view)@, CardLocation::InDeck) > 0,
        ensures
            pos < old(view)@.len(),
            old(view)@[pos as int] == CardLocation::InDeck,
            final(view)@ == old(view)@.update(pos as int, CardLocation::InHand),
    {
        broadcast use lemma_count_loc_push;

        let mut n: usize = 0;
        let mut i: usize = 0;
        while i < view.len()
            invariant
                view@ == old(view)@,
                i <= view@.len(),
                n == count_loc(view@.take(i as int), CardLocation::InDeck),
                n <= i,
            decreases view@.len() - i,
        {
            proof {
                broadcast use lemma_count_loc_push;

                assert(view@.take(i as int + 1) =~= view@.take(i as int).push(view@[i as int]));
                assert(count_loc(view@.take(i as int + 1), CardLocation::InDeck)
                    == count_loc(view@.take(i as int).push(view@[i as int]),
                    CardLocation::InDeck));
            }
            if view[i] == CardLocation::InDeck {
                n += 1;
            }
            i += 1;
        }
        proof {
            assert(view@.take(view@.len() as int) =~= view@);
        }
        let k = rand_below(rng, n);
        let vlen = view.len();
        let mut seen: usize = 0;
        let mut j: usize = 0;
        loop
            invariant
                view@ == old(view)@,
                vlen == view@.len(),
                j <= vlen,
                seen == count_loc(view@.take(j as int), CardLocation::InDeck),
                seen <= k,
                k < count_loc(view@, CardLocation::InDeck),
            decreases view@.len() - j,
        {
            proof {
                broadcast use lemma_count_loc_push;

                assert(j < view@.len()) by {
                    if j == view@.len() {
                        assert(view@.take(view@.len() as int) =~= view@);
                        assert(false);
                    }
                }
                assert(view@.take(j as int + 1)
                    =~= view@.take(j as int).push(view@[j as int]));
                assert(count_loc(view@.take(j as int + 1), CardLocation::InDeck)
                    == count_loc(view@.take(j as int).push(view@[j as int]),
                    CardLocation::InDeck));
            }
            if view[j] == CardLocation::InDeck {
                if seen == k {
                    view.set(j, CardLocation::InHand);
                    return j;
                }
                seen += 1;
            }
            j += 1;
        }
    }

    /// Maps card values to distinct deck positions holding those values at
    /// the given location, consuming each position as it is matched so that
    /// duplicate values resolve to distinct positions. Fails, with nothing
    /// changed, exactly when some value cannot be matched.
    pub fn cards_to_position(&self, cards: &Vec<Card>, location: CardLocation,
        view: &Vec<CardLocation>) -> (r: Option<Vec<usize>>)
        requires
            view@.len() == self.cards@.len(),
            location != CardLocation::NoWhere,
        ensures
            match r {
                Some(ps) => {
                    &&& cards@.to_multiset().subset_of(loc_of(self.cards@, view@,
                        location).to_multiset())
                    &&& ps@.len() == cards@.len()
                    &&& forall|i: int| 0 <= i < ps@.len() ==> (#[trigger] ps@[i])
                        < self.cards@.len() && self.cards@[ps@[i] as int] == cards@[i]
                        && view@[ps@[i] as int] == location
                    &&& forall|i: int, j: int| 0 <= i < j < ps@.len()
                        ==> (#[trigger] ps@[i]) != (#[trigger] ps@[j])
                },
                None => !cards@.to_multiset().subset_of(loc_of(self.cards@, view@,
                    location).to_multiset()),
            },
    {
        let ghost total = loc_of(self.cards@, view@, location).to_multiset();
        let mut scratch = copy_vec(view);
        let mut ps: Vec<usize> = Vec::new();
        let mut i: usize = 0;
        while i < cards.len()
            invariant
                view@.len() == self.cards@.len(),
                scratch@.len() == view@.len(),
                location != CardLocation::NoWhere,
                i <= cards@.len(),
                ps@.len() == i,
                total == loc_of(self.cards@, view@, location).to_multiset(),
                loc_of(self.cards@, scratch@, location).to_multiset().add(
                    cards@.take(i as int).to_multiset()) == total,
                forall|t: int| 0 <= t < i ==> (#[trigger] ps@[t]) < self.cards@.len()
                    && self.cards@[ps@[t] as int] == cards@[t]
                    && view@[ps@[t] as int] == location
                    && scratch@[ps@[t] as int] == CardLocation::NoWhere,
                forall|t: int, u: int| 0 <= t < u < ps@.len()
                    ==> (#[trigger] ps@[t]) != (#[trigger] ps@[u]),
                forall|j: int| 0 <= j < scratch@.len() && scratch@[j] != (#[trigger] view@[j])
                    ==> scratch@[j] == CardLocation::NoWhere,
            decreases cards@.len() - i,
        {
            let c = cards[i];
            proof {
                assert(cards@.take(i as int + 1)
                    =~= cards@.take(i as int).push(cards@[i as int]));
            }
            match self.get_card_pos(c, location, &scratch) {
                None => {
                    proof {
                        lemma_loc_of_contains(self.cards@, scratch@, location, c);
                        assert(loc_of(self.cards@, scratch@, location).to_multiset().count(c)
                            == 0);
                        assert(total.count(c) == cards@.take(i as int).to_multiset().count(c));
                        crate::seqs::lemma_take_submultiset(cards@, i as int + 1);
                        assert(cards@.to_multiset().count(c)
                            >= cards@.take(i as int + 1).to_multiset().count(c));
                        assert(cards@.take(i as int + 1).to_multiset().count(c)
                            == cards@.take(i as int).to_multiset().count(c) + 1);
                        assert(cards@.to_multiset().count(c) > total.count(c));
                    }
                    return None;
                },
                Some(p) => {
                    let ghost old_scratch = scratch@;
                    let ghost old_ps = ps@;
                    ps.push(p);
                    scratch.set(p, CardLocation::NoWhere);
                    proof {
                        // the found position is fresh: consumed ones are marked
                        assert forall|t: int, u: int| 0 <= t < u < ps@.len() implies
                            (#[trigger] ps@[t]) != (#[trigger] ps@[u]) by {
                            if u < old_ps.len() {
                                assert(ps@[t] == old_ps[t] && ps@[u] == old_ps[u]);
                            } else {
                                assert(ps@[t] == old_ps[t]);
                                assert(old_scratch[old_ps[t] as int] == CardLocation::NoWhere);
                                assert(old_scratch[p as int] == location);
                            }
                        }
                        // the view position matched through the scratch copy
                        assert(view@[p as int] == location) by {
                            if old_scratch[p as int] != view@[p as int] {
                                assert(old_scratch[p as int] == CardLocation::NoWhere);
                            }
                        }
                        lemma_loc_of_update(self.cards@, old_scratch, p as int,
                            CardLocation::NoWhere, location);
                        let before_ms = loc_of(self.cards@, old_scratch, location).to_multiset();
                        let after_ms = loc_of(self.cards@, scratch@, location).to_multiset();
                        assert(after_ms == before_ms.remove(c));
                        assert(before_ms.count(c) > 0) by {
                            lemma_loc_of_contains(self.cards@, old_scratch, location, c);
                        }
                        assert(after_ms.add(cards@.take(i as int + 1).to_multiset())
                            =~= before_ms.add(cards@.take(i as int).to_multiset()));
                    }
                    i += 1;
                },
            }
        }
        proof {
            assert(cards@.take(cards@.len() as int) =~= cards@);
            assert forall|x: Card| cards@.to_multiset().count(x) <= total.count(x) by {
                assert(total.count(x) == loc_of(self.cards@, scratch@,
                    location).to_multiset().count(x) + cards@.to_multiset().count(x));
            }
        }
        Some(ps)
    }

    /// Removes the coin when going first, adds one in the deck when going
    /// second, and does nothing otherwise.
    pub fn adjust_coin(&mut self, play_order: PlayOrder)
        requires
            old(self).wf(),
            old(self).cards@.len() < DECK_CAP,
        ensures
            final(self).wf(),
            final(self).cards@.len() == final(self).card_location@.len(),
            coin_count(final(self).cards@) == (if play_order == PlayOrder::Second {
                1int
            } else {
                0int
            }),
            play_order == PlayOrder::First && coin_count(old(self).cards@) == 0
                ==> *final(self) == *old(self),
            play_order == PlayOrder::Second && coin_count(old(self).cards@) > 0
                ==> *final(self) == *old(self),
            play_order == PlayOrder::Second && coin_count(old(self).cards@) == 0
                ==> final(self).cards@ == old(self).cards@.push(coin_spec())
                    && final(self).card_location@
                        == old(self).card_location@.push(CardLocation::InDeck),
            play_order == PlayOrder::First && coin_count(old(self).cards@) > 0
                ==> exists|p: int| 0 <= p < old(self).cards@.len()
                    && is_coin(#[trigger] old(self).cards@[p])
                    && final(self).cards@ == old(self).cards@.update(p,
                        old(self).cards@.last()).drop_last()
                    && final(self).card_location@ == old(self).card_location@.update(p,
                        old(self).card_location@.last()).drop_last(),
    {
        broadcast use lemma_coin_count_push;

        let mut coin_pos: Option<usize> = None;
        let mut i: usize = 0;
        while i < self.cards.len()
            invariant
                self.cards@ == old(self).cards@,
                self.card_location@ == old(self).card_location@,
                i <= self.cards@.len(),
                match coin_pos {
                    Some(p) => p < i && is_coin(self.cards@[p as int]),
                    None => forall|j: int| 0 <= j < i ==> !is_coin(#[trigger] self.cards@[j]),
                },
            decreases self.cards@.len() - i,
        {
            if coin_pos.is_none() && self.cards[i].is_coin() {
                coin_pos = Some(i);
            }
            i += 1;
        }
        proof {
            lemma_coin_count_is_count(self.cards@);
            match coin_pos {
                Some(p) => {
                    assert(is_coin(self.cards@[p as int]));
                    assert(self.cards@[p as int] == coin_spec());
                    assert(self.cards@.contains(coin_spec()));
                    assert(coin_count(self.cards@) == 1);
                },
                None => {
                    if self.cards@.contains(coin_spec()) {
                        let w = choose|w: int| 0 <= w < self.cards@.len()
                            && self.cards@[w] == coin_spec();
                        assert(is_coin(self.cards@[w]));
                        assert(false);
                    }
                    assert(coin_count(self.cards@) == 0);
                },
            }
        }
        match (play_order, coin_pos) {
            (PlayOrder::First, Some(p)) => {
                proof {
                    lemma_swap_remove_multiset(self.cards@, p as int);
                }
                self.cards.swap_remove(p);
                self.card_location.swap_remove(p);
                proof {
                    assert(self.cards@.to_multiset()
                        == old(self).cards@.to_multiset().remove(coin_spec()));
                    assert forall|x: Card| self.cards@.to_multiset().count(x)
                        <= old(self).cards@.to_multiset().count(x) by {}
                    crate::patterns::lemma_hand_wf_sub(self.cards@, old(self).cards@);
                    lemma_coin_count_is_count(self.cards@);
                    assert(coin_count(self.cards@) == 0);
                }
            },
            (PlayOrder::Second, None) => {
                self.insert_card(Card::coin());
                proof {
                    assert(coin_count(self.cards@) == 1);
                }
            },
            _ => {},
        }
    }

    /// Sorts the deck's cards ascending by (mana, power); the locations are
    /// untouched, as the deck is only sorted while everything is in it.
    pub fn sort_deck(&mut self)
        requires
            old(self).wf(),
        ensures
            final(self).wf(),
            final(self).cards@.to_multiset() == old(self).cards@.to_multiset(),
            crate::patterns::sorted_cards(final(self).cards@),
            final(self).card_location@ == old(self).card_location@,
            final(self).cards@.len() == old(self).cards@.len(),
    {
        crate::patterns::sort_cards(&mut self.cards);
        proof {
            crate::patterns::lemma_hand_wf_sub(self.cards@, old(self).cards@);
        }
    }

    /// The cards currently in hand under the given location view, in deck
    /// order.
    pub fn get_hand(&self, view: &Vec<CardLocation>) -> (r: Vec<Card>)
        requires
            view@.len() == self.cards@.len(),
        ensures
            r@ == loc_of(self.cards@, view@, CardLocation::InHand),
    {
        let mut r: Vec<Card> = Vec::new();
        let mut i: usize = 0;
        while i < self.cards.len()
            invariant
                i <= self.cards@.len(),
                view@.len() == self.cards@.len(),
                r@ == loc_of(self.cards@.take(i as int), view@.take(i as int),
                    CardLocation::InHand),
            decreases self.cards@.len() - i,
        {
            proof {
                assert(self.cards@.take(i as int + 1)
                    =~= self.cards@.take(i as int).push(self.cards@[i as int]));
                assert(view@.take(i as int + 1) =~= view@.take(i as int).push(view@[i as int]));
                assert(self.cards@.take(i as int + 1).drop_last()
                    =~= self.cards@.take(i as int));
                assert(view@.take(i as int + 1).drop_last() =~= view@.take(i as int));
            }
            if view[i] == CardLocation::InHand {
                r.push(self.cards[i]);
            }
            i += 1;
        }
        proof {
            assert(self.cards@.take(self.cards@.len() as int) =~= self.cards@);
            assert(view@.take(view@.len() as int) =~= view@);
        }
        r
    }
}

} // verus!
