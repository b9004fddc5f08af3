//! The card value model: a mana cost (with the sentinel `-1` for the coin)
//! and an ordered power tier, compared by mana first and power second.

use vstd::prelude::*;

verus! {

/// Strength tier of a card, ordered weak < normal < strong.
#[derive(Clone, Copy, PartialEq, Eq, Structural, Debug)]
pub enum CardPower {
    Strong,
    Normal,
    Weak,
}

impl CardPower {
    /// Numeric rank that realizes the tier order: weak 1, normal 2, strong 3.
    pub open spec fn rank_spec(self) -> int {
        match self {
            CardPower::Strong => 3,
            CardPower::Normal => 2,
            CardPower::Weak => 1,
        }
    }

    pub fn rank(&self) -> (r: u8)
        ensures
            r == self.rank_spec(),
    {
        match self {
            CardPower::Strong => 3,
            CardPower::Normal => 2,
            CardPower::Weak => 1,
        }
    }

    /// Letter that stands for the tier in the deck persistence format.
    pub open spec fn letter_spec(self) -> u8 {
        match self {
            CardPower::Strong => 115,
            CardPower::Normal => 110,
            CardPower::Weak => 119,
        }
    }

    pub fn to_char(&self) -> (r: u8)
        ensures
            r == self.letter_spec(),
    {
        match self {
            CardPower::Strong => 115,
            CardPower::Normal => 110,
            CardPower::Weak => 119,
        }
    }
}

/// A card value: mana cost and power tier. Cards carry no identity; two
/// cards with equal fields are interchangeable. The mana cost is either
/// non-negative, or the sentinel `-1` for the coin, a one-time bonus card
/// that raises the turn's budget by one when committed.
#[derive(Clone, Copy, PartialEq, Eq, Structural, Debug)]
pub struct Card {
    pub mana: i8,
    pub power: CardPower,
}

/// The coin is the one card with negative mana.
pub open spec fn is_coin(c: Card) -> bool {
    c.mana == -1
}

/// The canonical coin value: the coin is always created with normal power.
pub open spec fn coin_spec() -> Card {
    Card { mana: -1i8, power: CardPower::Normal }
}

impl Card {
    pub fn coin() -> (r: Card)
        ensures
            r == coin_spec(),
    {
        Card { mana: -1i8, power: CardPower::Normal }
    }

    pub fn is_coin(&self) -> (r: bool)
        ensures
            r == is_coin(*self),
    {
        self.mana == -1i8
    }

    /// The total order on cards: by mana first, power second.
    pub open spec fn le_spec(self, other: Card) -> bool {
        self.mana < other.mana || (self.mana == other.mana
            && self.power.rank_spec() <= other.power.rank_spec())
    }

    pub fn le(&self, other: &Card) -> (r: bool)
        ensures
            r == self.le_spec(*other),
    {
        self.mana < other.mana || (self.mana == other.mana && self.power.rank() <= other.power.rank())
    }
}

/// A decimal digit byte.
pub open spec fn is_digit(b: u8) -> bool {
    48 <= b <= 57
}

/// A power letter byte: s, n or w.
pub open spec fn is_power_letter(b: u8) -> bool {
    b == 115 || b == 110 || b == 119
}

pub open spec fn all_digits(s: Seq<u8>) -> bool {
    forall|i: int| 0 <= i < s.len() ==> is_digit(#[trigger] s[i])
}

/// Value of a string of decimal digits.
pub open spec fn digits_val(s: Seq<u8>) -> int
    decreases s.len(),
{
    if s.len() == 0 {
        0
    } else {
        digits_val(s.drop_last()) * 10 + (s.last() - 48)
    }
}

/// The digit part of a card token: everything after the optional letter.
pub open spec fn token_digits(s: Seq<u8>) -> Seq<u8> {
    if s.len() > 0 && is_power_letter(s[0]) {
        s.drop_first()
    } else {
        s
    }
}

pub open spec fn token_power(s: Seq<u8>) -> CardPower {
    if s.len() > 0 && s[0] == 115 {
        CardPower::Strong
    } else if s.len() > 0 && s[0] == 119 {
        CardPower::Weak
    } else {
        CardPower::Normal
    }
}

/// A valid card token: an optional power letter, then one or more decimal
/// digits whose value fits the mana range. A missing letter means normal.
pub open spec fn token_valid(s: Seq<u8>) -> bool {
    &&& token_digits(s).len() > 0
    &&& all_digits(token_digits(s))
    &&& digits_val(token_digits(s)) <= 127
}

pub open spec fn token_card(s: Seq<u8>) -> Card {
    Card { mana: digits_val(token_digits(s)) as i8, power: token_power(s) }
}

/// Digit strings have non-negative values that only grow as digits append.
pub proof fn lemma_digits_val_prefix(s: Seq<u8>, i: int)
    requires
        all_digits(s),
        0 <= i <= s.len(),
    ensures
        digits_val(s) >= digits_val(s.take(i)) >= 0,
    decreases s.len(),
{
    if s.len() == 0 {
        assert(s.take(i) =~= s);
    } else if i == s.len() {
        assert(s.take(i) =~= s);
        lemma_digits_val_prefix(s.drop_last(), s.len() - 1);
        assert(s.drop_last().take(s.len() - 1) =~= s.drop_last());
    } else {
        let dl = s.drop_last();
        assert(forall|j: int| 0 <= j < dl.len() ==> dl[j] == s[j]);
        lemma_digits_val_prefix(dl, i);
        assert(dl.take(i) =~= s.take(i));
        assert(digits_val(s) == digits_val(dl) * 10 + (s.last() - 48));
        assert(digits_val(dl) * 10 >= digits_val(dl));
        assert(is_digit(s[s.len() - 1]));
    }
}

impl Card {
    /// Parses one card token: an optional power letter (s, n or w; absent
    /// means normal) followed by the mana cost in decimal. Returns the card
    /// exactly when the token matches that grammar, and nothing otherwise.
    pub fn create(card_str: &[u8]) -> (r: Option<Card>)
        ensures
            token_valid(card_str@) ==> r == Some(token_card(card_str@)),
            !token_valid(card_str@) ==> r is None,
    {
        if card_str.len() == 0 {
            return None;
        }
        let first = card_str[0];
        let is_letter = first == 115 || first == 110 || first == 119;
        let start: usize = if is_letter {
            1
        } else {
            0
        };
        if !is_letter && !(first >= 48 && first <= 57) {
            proof {
                assert(!all_digits(token_digits(card_str@))) by {
                    assert(token_digits(card_str@)[0] == card_str@[0]);
                }
            }
            return None;
        }
        if start >= card_str.len() {
            proof {
                assert(token_digits(card_str@).len() == 0);
            }
            return None;
        }
        let ghost digits = token_digits(card_str@);
        proof {
            assert(digits =~= card_str@.subrange(start as int, card_str@.len() as int));
        }
        let mut val: u32 = 0;
        let mut i: usize = start;
        while i < card_str.len()
            invariant
                start <= i <= card_str@.len(),
                (start as int) < card_str@.len(),
                digits == token_digits(card_str@),
                digits =~= card_str@.subrange(start as int, card_str@.len() as int),
                all_digits(card_str@.subrange(start as int, i as int)),
                val == digits_val(card_str@.subrange(start as int, i as int)),
                val <= 127,
            decreases card_str@.len() - i,
        {
            let b = card_str[i];
            proof {
                assert(card_str@.subrange(start as int, i as int + 1)
                    =~= card_str@.subrange(start as int, i as int).push(b));
                assert(card_str@.subrange(start as int, i as int + 1).drop_last()
                    =~= card_str@.subrange(start as int, i as int));
            }
            if !(b >= 48 && b <= 57) {
                proof {
                    assert(digits[i - start] == b);
                    assert(!all_digits(digits));
                }
                return None;
            }
            let nv = val * 10 + (b - 48) as u32;
            if nv > 127 {
                proof {
                    if all_digits(digits) {
                        assert(digits.take(i - start + 1)
                            =~= card_str@.subrange(start as int, i as int + 1));
                        lemma_digits_val_prefix(digits, i - start + 1);
                        assert(digits_val(digits) > 127);
                    }
                }
                return None;
            }
            val = nv;
            i += 1;
        }
        proof {
            assert(card_str@.subrange(start as int, card_str@.len() as int) == digits);
            assert(token_valid(card_str@));
            assert(token_card(card_str@).mana == val as i8);
        }
        let power = if first == 115 {
            CardPower::Strong
        } else if first == 119 {
            CardPower::Weak
        } else {
            CardPower::Normal
        };
        Some(Card { mana: val as i8, power })
    }
}

} // verus!
