//! The deck persistence format: one line of `<power-letter><mana>` tokens
//! separated by single spaces. Saving then loading a deck reproduces it
//! exactly; the coin is never persisted.

use vstd::prelude::*;
use vstd::arithmetic::div_mod::{lemma_fundamental_div_mod, lemma_div_is_ordered};
use crate::card::{Card, CardPower, is_coin, is_digit, is_power_letter, all_digits, digits_val,
    token_digits, token_power, token_valid, token_card, lemma_digits_val_prefix};

verus! {

/// The decimal digits of a mana cost in the range a card allows.
pub open spec fn decimal_of(m: int) -> Seq<u8> {
    if m < 10 {
        seq![(48 + m) as u8]
    } else if m < 100 {
        seq![(48 + m / 10) as u8, (48 + m % 10) as u8]
    } else {
        seq![49u8, (48 + (m / 10) % 10) as u8, (48 + m % 10) as u8]
    }
}

/// The token that stands for one card: its power letter, then its mana.
pub open spec fn card_token(c: Card) -> Seq<u8> {
    seq![c.power.letter_spec()] + decimal_of(c.mana as int)
}

/// The persisted text of a whole deck: tokens joined by single spaces.
pub open spec fn deck_text(cards: Seq<Card>) -> Seq<u8>
    decreases cards.len(),
{
    if cards.len() == 0 {
        Seq::empty()
    } else if cards.len() == 1 {
        card_token(cards[0])
    } else {
        card_token(cards[0]) + seq![32u8] + deck_text(cards.drop_first())
    }
}

/// Length of the prefix before the first occurrence of a byte; the whole
/// length when the byte is absent.
pub open spec fn split_head(s: Seq<u8>, b: u8) -> nat
    decreases s.len(),
{
    if s.len() == 0 {
        0
    } else if s[0] == b {
        0
    } else {
        1 + split_head(s.drop_first(), b)
    }
}

pub proof fn lemma_split_head(s: Seq<u8>, b: u8)
    ensures
        split_head(s, b) <= s.len(),
        forall|j: int| 0 <= j < split_head(s, b) ==> s[j] != b,
        split_head(s, b) < s.len() ==> s[split_head(s, b) as int] == b,
    decreases s.len(),
{
    if s.len() > 0 && s[0] != b {
        lemma_split_head(s.drop_first(), b);
        assert forall|j: int| 0 <= j < split_head(s, b) implies s[j] != b by {
            if j > 0 {
                assert(s.drop_first()[j - 1] != b);
            }
        }
    }
}

/// What the loader accepts: a non-empty sequence of valid tokens separated
/// by single spaces, giving back the cards in order.
pub open spec fn parse_deck_spec(s: Seq<u8>) -> Option<Seq<Card>>
    decreases s.len(),
{
    if s.len() == 0 {
        None
    } else {
        let j0 = split_head(s, 32);
        let j = if j0 > s.len() {
            s.len()
        } else {
            j0
        };
        if !token_valid(s.take(j as int)) {
            None
        } else if j == s.len() {
            Some(seq![token_card(s.take(j as int))])
        } else {
            match parse_deck_spec(s.skip(j + 1int)) {
                None => None,
                Some(rest) => Some(seq![token_card(s.take(j as int))] + rest),
            }
        }
    }
}

/// Renders one card's token. The coin is never persisted, so the mana is
/// non-negative.
fn push_token(out: &mut Vec<u8>, c: Card)
    requires
        0 <= c.mana <= 127,
    ensures
        final(out)@ == old(out)@ + card_token(c),
{
    out.push(c.power.to_char());
    let d = c.mana as u32;
    if d < 10 {
        out.push((48 + d) as u8);
    } else if d < 100 {
        out.push((48 + d / 10) as u8);
        out.push((48 + d % 10) as u8);
    } else {
        out.push(49u8);
        out.push((48 + (d / 10) % 10) as u8);
        out.push((48 + d % 10) as u8);
    }
    proof {
        assert(final(out)@ =~= old(out)@ + card_token(c));
    }
}

/// The text that `save` writes for a deck: every card's token, joined by
/// single spaces.
pub fn save_deck(cards: &Vec<Card>) -> (r: Vec<u8>)
    requires
        forall|i: int| 0 <= i < cards@.len() ==> 0 <= (#[trigger] cards@[i]).mana <= 127,
    ensures
        r@ == deck_text(cards@),
{
    let mut out: Vec<u8> = Vec::new();
    proof {
        assert(cards@.skip(0) =~= cards@);
        assert(Seq::<u8>::empty() + deck_text(cards@) =~= deck_text(cards@));
    }
    let mut i: usize = 0;
    while i < cards.len()
        invariant
            i <= cards@.len(),
            forall|t: int| 0 <= t < cards@.len() ==> 0 <= (#[trigger] cards@[t]).mana <= 127,
            out@ + deck_text(cards@.skip(i as int)) == deck_text(cards@),
        decreases cards@.len() - i,
    {
        let ghost pre = out@;
        push_token(&mut out, cards[i]);
        if i + 1 < cards.len() {
            out.push(32u8);
        }
        proof {
            let rest = cards@.skip(i as int);
            assert(rest[0] == cards@[i as int]);
            assert(rest.drop_first() =~= cards@.skip(i as int + 1));
            if i + 1 < cards@.len() {
                assert(deck_text(rest) == card_token(cards@[i as int]) + seq![32u8]
                    + deck_text(cards@.skip(i as int + 1)));
                assert(out@ + deck_text(cards@.skip(i as int + 1))
                    =~= pre + deck_text(rest));
            } else {
                assert(rest.len() == 1);
                assert(deck_text(rest) == card_token(cards@[i as int]));
                assert(out@ + deck_text(cards@.skip(i as int + 1))
                    =~= pre + deck_text(rest)) by {
                    assert(cards@.skip(i as int + 1).len() == 0);
                    assert(deck_text(cards@.skip(i as int + 1)) == Seq::<u8>::empty());
                }
            }
        }
        i += 1;
    }
    proof {
        assert(cards@.skip(cards@.len() as int).len() == 0);
        assert(deck_text(cards@.skip(cards@.len() as int)) == Seq::<u8>::empty());
        assert(out@ + Seq::<u8>::empty() =~= out@);
    }
    out
}

/// Parses the persisted text back into cards: the tokens in order, or
/// nothing as soon as any token is malformed.
pub fn parse_deck(s: &[u8]) -> (r: Option<Vec<Card>>)
    ensures
        match parse_deck_spec(s@) {
            Some(cs) => r matches Some(v) && v@ == cs,
            None => r is None,
        },
    decreases s@.len(),
{
    if s.len() == 0 {
        return None;
    }
    let mut j: usize = 0;
    while j < s.len() && s[j] != 32u8
        invariant
            j <= s@.len(),
            forall|t: int| 0 <= t < j ==> s@[t] != 32,
        decreases s@.len() - j,
    {
        j += 1;
    }
    proof {
        lemma_split_head(s@, 32);
        assert(j as nat == split_head(s@, 32)) by {
            let k = split_head(s@, 32);
            if k < j {
                assert(s@[k as int] != 32);
            }
            if j < k {
                assert(s@[j as int] != 32);
            }
        }
    }
    let mut token: Vec<u8> = Vec::new();
    let mut t: usize = 0;
    while t < j
        invariant
            t <= j <= s@.len(),
            token@ == s@.take(j as int).take(t as int),
        decreases j - t,
    {
        proof {
            assert(s@.take(j as int).take(t as int + 1)
                =~= s@.take(j as int).take(t as int).push(s@[t as int]));
        }
        token.push(s[t]);
        t += 1;
    }
    proof {
        assert(token@ =~= s@.take(j as int));
    }
    match Card::create(token.as_slice()) {
        None => None,
        Some(c) => {
            if j == s.len() {
                let mut v: Vec<Card> = Vec::new();
                v.push(c);
                proof {
                    assert(v@ =~= seq![token_card(s@.take(j as int))]);
                }
                Some(v)
            } else {
                let mut rest_bytes: Vec<u8> = Vec::new();
                let mut u: usize = j + 1;
                while u < s.len()
                    invariant
                        j + 1 <= u <= s@.len(),
                        rest_bytes@ == s@.subrange(j as int + 1, u as int),
                    decreases s@.len() - u,
                {
                    proof {
                        assert(s@.subrange(j as int + 1, u as int + 1)
                            =~= s@.subrange(j as int + 1, u as int).push(s@[u as int]));
                    }
                    rest_bytes.push(s[u]);
                    u += 1;
                }
                proof {
                    assert(rest_bytes@ =~= s@.skip(j as int + 1));
                }
                match parse_deck(rest_bytes.as_slice()) {
                    None => None,
                    Some(rest) => {
                        let mut v: Vec<Card> = Vec::new();
                        v.push(c);
                        let mut rest = rest;
                        v.append(&mut rest);
                        proof {
                            let spec_rest = parse_deck_spec(s@.skip(j as int + 1));
                            assert(v@ =~= seq![token_card(s@.take(j as int))]
                                + spec_rest.unwrap());
                        }
                        Some(v)
                    },
                }
            }
        },
    }
}

/// A count-and-card token like `3s4`: a decimal count, then a card token
/// whose letter is required. The count is capped so a single command cannot
/// demand an unreasonable allocation.
pub open spec fn cards_token_valid(s: Seq<u8>) -> bool {
    exists|p: int| #![trigger s[p]] 0 <= p < s.len() && is_power_letter(s[p])
        && (forall|j: int| 0 <= j < p ==> !is_power_letter(#[trigger] s[j]))
        && p > 0 && all_digits(s.take(p)) && digits_val(s.take(p)) <= 100000
        && token_valid(s.skip(p))
}

pub open spec fn cards_token_split(s: Seq<u8>) -> int {
    choose|p: int| #![trigger s[p]] 0 <= p < s.len() && is_power_letter(s[p])
        && (forall|j: int| 0 <= j < p ==> !is_power_letter(#[trigger] s[j]))
        && p > 0 && all_digits(s.take(p)) && digits_val(s.take(p)) <= 100000
        && token_valid(s.skip(p))
}

pub open spec fn cards_token_count(s: Seq<u8>) -> int {
    digits_val(s.take(cards_token_split(s)))
}

pub open spec fn cards_token_card(s: Seq<u8>) -> Card {
    token_card(s.skip(cards_token_split(s)))
}

impl Card {
    /// Parses a repetition token: `3s4` stands for three strong cards of
    /// four mana. Returns exactly that many identical cards when the token
    /// matches, and nothing otherwise.
    pub fn create_cards(cards_str: &[u8]) -> (r: Option<Vec<Card>>)
        ensures
            cards_token_valid(cards_str@) ==> (r matches Some(v)
                && v@.len() == cards_token_count(cards_str@)
                && (forall|i: int| 0 <= i < v@.len()
                    ==> (#[trigger] v@[i]) == cards_token_card(cards_str@))),
            !cards_token_valid(cards_str@) ==> r is None,
    {
        // find the first power letter
        let mut p: usize = 0;
        while p < cards_str.len() && !(cards_str[p] == 115 || cards_str[p] == 110
            || cards_str[p] == 119)
            invariant
                p <= cards_str@.len(),
                forall|j: int| 0 <= j < p ==> !is_power_letter(#[trigger] cards_str@[j]),
            decreases cards_str@.len() - p,
        {
            p += 1;
        }
        if p >= cards_str.len() {
            proof {
                if cards_token_valid(cards_str@) {
                    let w = cards_token_split(cards_str@);
                    assert(is_power_letter(cards_str@[w]));
                }
            }
            return None;
        }
        if p == 0 {
            proof {
                if cards_token_valid(cards_str@) {
                    let w = cards_token_split(cards_str@);
                    assert(is_power_letter(cards_str@[w]));
                    assert(w == 0 || !is_power_letter(cards_str@[0]));
                }
            }
            return None;
        }
        proof {
            if cards_token_valid(cards_str@) {
                let w = cards_token_split(cards_str@);
                assert(is_power_letter(cards_str@[w]));
                assert(w as int == p as int) by {
                    if w < p {
                        assert(!is_power_letter(cards_str@[w]));
                    }
                    if p < w {
                        assert(!is_power_letter(cards_str@[p as int]));
                    }
                }
            }
        }
        // parse the count
        let mut count: u32 = 0;
        let mut i: usize = 0;
        while i < p
            invariant
                i <= p <= cards_str@.len(),
                (p as int) < cards_str@.len(),
                0 < p,
                is_power_letter(cards_str@[p as int]),
                forall|j: int| 0 <= j < p ==> !is_power_letter(#[trigger] cards_str@[j]),
                all_digits(cards_str@.take(p as int).take(i as int)),
                count == digits_val(cards_str@.take(p as int).take(i as int)),
                count <= 100000,
            decreases p - i,
        {
            let b = cards_str[i];
            proof {
                assert(cards_str@.take(p as int).take(i as int + 1)
                    =~= cards_str@.take(p as int).take(i as int).push(b));
                assert(cards_str@.take(p as int).take(i as int + 1).drop_last()
                    =~= cards_str@.take(p as int).take(i as int));
            }
            if !(b >= 48 && b <= 57) {
                proof {
                    if cards_token_valid(cards_str@) {
                        let w = cards_token_split(cards_str@);
                        assert(is_power_letter(cards_str@[w]));
                        assert(w == p as int) by {
                            if w < p {
                                assert(!is_power_letter(cards_str@[w]));
                            }
                            if p < w {
                                assert(!is_power_letter(cards_str@[p as int]));
                            }
                        }
                        assert(cards_str@.take(p as int)[i as int] == b);
                        assert(!all_digits(cards_str@.take(p as int)));
                    }
                }
                return None;
            }
            let nv = count * 10 + (b - 48) as u32;
            if nv > 100000 {
                proof {
                    if cards_token_valid(cards_str@) {
                        let w = cards_token_split(cards_str@);
                        assert(is_power_letter(cards_str@[w]));
                        assert(w == p as int) by {
                            if w < p {
                                assert(!is_power_letter(cards_str@[w]));
                            }
                            if p < w {
                                assert(!is_power_letter(cards_str@[p as int]));
                            }
                        }
                        let pre = cards_str@.take(p as int);
                        assert(all_digits(pre));
                        assert(pre.take(i as int + 1)
                            =~= cards_str@.take(p as int).take(i as int + 1));
                        lemma_digits_val_prefix(pre, i as int + 1);
                    }
                }
                return None;
            }
            count = nv;
            i += 1;
        }
        proof {
            assert(cards_str@.take(p as int).take(p as int) =~= cards_str@.take(p as int));
        }
        // parse the card token after the letter position
        let mut suffix: Vec<u8> = Vec::new();
        let mut u: usize = p;
        while u < cards_str.len()
            invariant
                p <= u <= cards_str@.len(),
                suffix@ == cards_str@.subrange(p as int, u as int),
            decreases cards_str@.len() - u,
        {
            proof {
                assert(cards_str@.subrange(p as int, u as int + 1)
                    =~= cards_str@.subrange(p as int, u as int).push(cards_str@[u as int]));
            }
            suffix.push(cards_str[u]);
            u += 1;
        }
        proof {
            assert(suffix@ =~= cards_str@.skip(p as int));
        }
        match Card::create(suffix.as_slice()) {
            None => {
                proof {
                    if cards_token_valid(cards_str@) {
                        assert(token_valid(cards_str@.skip(cards_token_split(cards_str@))));
                    }
                }
                None
            },
            Some(c) => {
                proof {
                    assert(cards_token_valid(cards_str@)) by {
                        assert(is_power_letter(cards_str@[p as int]));
                    }
                    let w = cards_token_split(cards_str@);
                    assert(w == p as int) by {
                        assert(is_power_letter(cards_str@[w]));
                        if w < p {
                            assert(!is_power_letter(cards_str@[w]));
                        }
                        if p < w {
                            assert(!is_power_letter(cards_str@[p as int]));
                        }
                    }
                }
                let mut v: Vec<Card> = Vec::new();
                let mut k: u32 = 0;
                while k < count
                    invariant
                        k <= count,
                        v@.len() == k,
                        forall|t: int| 0 <= t < v@.len() ==> (#[trigger] v@[t]) == c,
                    decreases count - k,
                {
                    v.push(c);
                    k += 1;
                }
                Some(v)
            },
        }
    }
}

/// The digit part of an integer token: everything after an optional sign.
pub open spec fn int_digits(s: Seq<u8>) -> Seq<u8> {
    if s.len() > 0 && (s[0] == 43 || s[0] == 45) {
        s.drop_first()
    } else {
        s
    }
}

/// The signed value of an integer token.
pub open spec fn int_val(s: Seq<u8>) -> int {
    if s.len() > 0 && s[0] == 45 {
        -digits_val(int_digits(s))
    } else {
        digits_val(int_digits(s))
    }
}

/// A valid integer token within a range: an optional sign, then one or
/// more decimal digits, with the signed value inside the range.
pub open spec fn int_valid(s: Seq<u8>, lo: int, hi: int) -> bool {
    &&& int_digits(s).len() > 0
    &&& all_digits(int_digits(s))
    &&& lo <= int_val(s) <= hi
}

/// Parses one decimal integer token, exactly when it is valid for the
/// given range.
pub fn parse_int(s: &[u8], lo: i64, hi: i64) -> (r: Option<i64>)
    requires
        -100000000000 <= lo <= hi <= 100000000000,
    ensures
        int_valid(s@, lo as int, hi as int) ==> r == Some((int_val(s@)) as i64),
        !int_valid(s@, lo as int, hi as int) ==> r is None,
{
    if s.len() == 0 {
        return None;
    }
    let first = s[0];
    let has_sign = first == 43 || first == 45;
    let neg = first == 45;
    let start: usize = if has_sign {
        1
    } else {
        0
    };
    if start >= s.len() {
        proof {
            assert(int_digits(s@).len() == 0);
        }
        return None;
    }
    let ghost digits = int_digits(s@);
    proof {
        assert(digits =~= s@.subrange(start as int, s@.len() as int));
    }
    let mut val: i64 = 0;
    let mut i: usize = start;
    while i < s.len()
        invariant
            start <= i <= s@.len(),
            (start as int) < s@.len(),
            digits == int_digits(s@),
            digits =~= s@.subrange(start as int, s@.len() as int),
            all_digits(s@.subrange(start as int, i as int)),
            val == digits_val(s@.subrange(start as int, i as int)),
            0 <= val <= 1000000000009,
            -100000000000 <= lo <= hi <= 100000000000,
            neg == (s@[0] == 45),
        decreases s@.len() - i,
    {
        let b = s[i];
        proof {
            assert(s@.subrange(start as int, i as int + 1)
                =~= s@.subrange(start as int, i as int).push(b));
            assert(s@.subrange(start as int, i as int + 1).drop_last()
                =~= s@.subrange(start as int, i as int));
        }
        if !(b >= 48 && b <= 57) {
            proof {
                assert(digits[i - start] == b);
                assert(!all_digits(digits));
            }
            return None;
        }
        if val > 100000000000 {
            proof {
                if all_digits(digits) {
                    assert(digits.take(i - start) =~= s@.subrange(start as int, i as int));
                    lemma_digits_val_prefix(digits, i - start);
                    assert(digits_val(digits) > 100000000000);
                    assert(!int_valid(s@, lo as int, hi as int));
                }
            }
            return None;
        }
        val = val * 10 + ((b - 48) as i64);
        i += 1;
    }
    proof {
        assert(s@.subrange(start as int, s@.len() as int) == digits);
        assert(all_digits(digits));
        assert(val == digits_val(digits));
    }
    let signed: i64 = if neg {
        -val
    } else {
        val
    };
    if signed < lo || signed > hi {
        return None;
    }
    Some(signed)
}

/// The four session settings, parsed from the configuration text.
pub struct SimConfig {
    pub cycle_reps: i32,
    pub maxturn: u8,
    pub max_search_depth: u8,
    pub play_card_bonus: i8,
}

/// What one configuration line does to the partial settings: every line
/// must hold exactly two space-separated fields; a recognized key takes the
/// value, which must parse as its integer type, and unknown keys are
/// ignored.
pub open spec fn line_step(line: Seq<u8>, acc: (Option<int>, Option<int>, Option<int>,
    Option<int>)) -> Option<(Option<int>, Option<int>, Option<int>, Option<int>)> {
    let k0 = split_head(line, 32);
    let k = if k0 > line.len() {
        line.len()
    } else {
        k0
    };
    if k == line.len() {
        None
    } else {
        let key = line.take(k as int);
        let val = line.skip(k + 1int);
        if split_head(val, 32) < val.len() {
            None
        } else if key == seq![99u8, 121u8, 99u8, 108u8, 101u8, 95u8, 114u8, 101u8, 112u8,
            115u8] {
            if int_valid(val, i32::MIN as int, i32::MAX as int) {
                Some((Some(int_val(val)), acc.1, acc.2, acc.3))
            } else {
                None
            }
        } else if key == seq![109u8, 97u8, 120u8, 116u8, 117u8, 114u8, 110u8] {
            if int_valid(val, 0, 255) {
                Some((acc.0, Some(int_val(val)), acc.2, acc.3))
            } else {
                None
            }
        } else if key == seq![109u8, 97u8, 120u8, 95u8, 115u8, 101u8, 97u8, 114u8, 99u8, 104u8,
            95u8, 100u8, 101u8, 112u8, 116u8, 104u8] {
            if int_valid(val, 0, 255) {
                Some((acc.0, acc.1, Some(int_val(val)), acc.3))
            } else {
                None
            }
        } else if key == seq![112u8, 108u8, 97u8, 121u8, 95u8, 99u8, 97u8, 114u8, 100u8, 95u8,
            98u8, 111u8, 110u8, 117u8, 115u8] {
            if int_valid(val, -128, 127) {
                Some((acc.0, acc.1, acc.2, Some(int_val(val))))
            } else {
                None
            }
        } else {
            Some(acc)
        }
    }
}

/// The settings that a whole configuration text yields, processing one
/// newline-separated line at a time.
pub open spec fn config_rec(s: Seq<u8>, acc: (Option<int>, Option<int>, Option<int>,
    Option<int>)) -> Option<(Option<int>, Option<int>, Option<int>, Option<int>)>
    decreases s.len(),
{
    let j0 = split_head(s, 10);
    let j = if j0 > s.len() {
        s.len()
    } else {
        j0
    };
    match line_step(s.take(j as int), acc) {
        None => None,
        Some(acc2) => {
            if j == s.len() {
                Some(acc2)
            } else {
                config_rec(s.skip(j + 1int), acc2)
            }
        },
    }
}

/// The session refuses to start unless all four settings are present and
/// parse as integers.
pub open spec fn config_of(s: Seq<u8>) -> Option<SimConfig> {
    match config_rec(s, (None, None, None, None)) {
        None => None,
        Some((a, b, c, d)) => {
            if a is Some && b is Some && c is Some && d is Some {
                Some(SimConfig {
                    cycle_reps: a.unwrap() as i32,
                    maxturn: b.unwrap() as u8,
                    max_search_depth: c.unwrap() as u8,
                    play_card_bonus: d.unwrap() as i8,
                })
            } else {
                None
            }
        },
    }
}

/// Applies one configuration line to the partial settings.
fn line_step_exec(line: &[u8], acc: (Option<i64>, Option<i64>, Option<i64>, Option<i64>)) -> (r:
    Option<(Option<i64>, Option<i64>, Option<i64>, Option<i64>)>)
    requires
        acc.0 matches Some(v) ==> i32::MIN <= v <= i32::MAX,
        acc.1 matches Some(v) ==> 0 <= v <= 255,
        acc.2 matches Some(v) ==> 0 <= v <= 255,
        acc.3 matches Some(v) ==> -128 <= v <= 127,
    ensures
        match line_step(line@, (spec_acc(acc.0), spec_acc(acc.1), spec_acc(acc.2),
            spec_acc(acc.3))) {
            None => r is None,
            Some(a2) => r matches Some(e) && spec_acc(e.0) == a2.0 && spec_acc(e.1) == a2.1
                && spec_acc(e.2) == a2.2 && spec_acc(e.3) == a2.3,
        },
        r matches Some(e) ==> {
            &&& (e.0 matches Some(v) ==> i32::MIN <= v <= i32::MAX)
            &&& (e.1 matches Some(v) ==> 0 <= v <= 255)
            &&& (e.2 matches Some(v) ==> 0 <= v <= 255)
            &&& (e.3 matches Some(v) ==> -128 <= v <= 127)
        },
{
    let mut k: usize = 0;
    while k < line.len() && line[k] != 32u8
        invariant
            k <= line@.len(),
            forall|t: int| 0 <= t < k ==> line@[t] != 32,
        decreases line@.len() - k,
    {
        k += 1;
    }
    proof {
        lemma_split_head(line@, 32);
        assert(k as nat == split_head(line@, 32)) by {
            let w = split_head(line@, 32);
            if w < k {
                assert(line@[w as int] != 32);
            }
            if k < w {
                assert(line@[k as int] != 32);
            }
        }
    }
    if k == line.len() {
        return None;
    }
    let mut key: Vec<u8> = Vec::new();
    let mut t: usize = 0;
    while t < k
        invariant
            t <= k <= line@.len(),
            key@ == line@.take(k as int).take(t as int),
        decreases k - t,
    {
        proof {
            assert(line@.take(k as int).take(t as int + 1)
                =~= line@.take(k as int).take(t as int).push(line@[t as int]));
        }
        key.push(line[t]);
        t += 1;
    }
    let mut val: Vec<u8> = Vec::new();
    let mut u: usize = k + 1;
    while u < line.len()
        invariant
            k + 1 <= u <= line@.len(),
            val@ == line@.subrange(k as int + 1, u as int),
        decreases line@.len() - u,
    {
        proof {
            assert(line@.subrange(k as int + 1, u as int + 1)
                =~= line@.subrange(k as int + 1, u as int).push(line@[u as int]));
        }
        val.push(line[u]);
        u += 1;
    }
    proof {
        assert(key@ =~= line@.take(k as int));
        assert(val@ =~= line@.skip(k as int + 1));
    }
    // the value must be a single field
    let mut w: usize = 0;
    while w < val.len()
        invariant
            w <= val@.len(),
            (k as int) < line@.len(),
            k as nat == split_head(line@, 32),
            key@ == line@.take(k as int),
            val@ == line@.skip(k as int + 1),
            forall|t2: int| 0 <= t2 < w ==> val@[t2] != 32,
        decreases val@.len() - w,
    {
        if val[w] == 32u8 {
            proof {
                lemma_split_head(val@, 32);
                assert(split_head(val@, 32) <= w);
            }
            return None;
        }
        w += 1;
    }
    proof {
        lemma_split_head(val@, 32);
        assert(split_head(val@, 32) == val@.len()) by {
            if split_head(val@, 32) < val@.len() {
                assert(val@[split_head(val@, 32) as int] == 32);
            }
        }
    }
    if eq_key(&key, 0u8) {
        match parse_int(val.as_slice(), -2147483648i64, 2147483647i64) {
            Some(v) => Some((Some(v), acc.1, acc.2, acc.3)),
            None => None,
        }
    } else if eq_key(&key, 1u8) {
        match parse_int(val.as_slice(), 0i64, 255i64) {
            Some(v) => Some((acc.0, Some(v), acc.2, acc.3)),
            None => None,
        }
    } else if eq_key(&key, 2u8) {
        match parse_int(val.as_slice(), 0i64, 255i64) {
            Some(v) => Some((acc.0, acc.1, Some(v), acc.3)),
            None => None,
        }
    } else if eq_key(&key, 3u8) {
        match parse_int(val.as_slice(), -128i64, 127i64) {
            Some(v) => Some((acc.0, acc.1, acc.2, Some(v))),
            None => None,
        }
    } else {
        Some(acc)
    }
}

/// The spec-level value of a partial setting.
pub open spec fn spec_acc(v: Option<i64>) -> Option<int> {
    match v {
        None => None,
        Some(x) => Some(x as int),
    }
}

/// The key byte sequence for each setting.
pub open spec fn key_bytes(which: u8) -> Seq<u8> {
    if which == 0 {
        seq![99u8, 121u8, 99u8, 108u8, 101u8, 95u8, 114u8, 101u8, 112u8, 115u8]
    } else if which == 1 {
        seq![109u8, 97u8, 120u8, 116u8, 117u8, 114u8, 110u8]
    } else if which == 2 {
        seq![109u8, 97u8, 120u8, 95u8, 115u8, 101u8, 97u8, 114u8, 99u8, 104u8, 95u8, 100u8,
            101u8, 112u8, 116u8, 104u8]
    } else {
        seq![112u8, 108u8, 97u8, 121u8, 95u8, 99u8, 97u8, 114u8, 100u8, 95u8, 98u8, 111u8,
            110u8, 117u8, 115u8]
    }
}

/// Whether the bytes spell the given setting's key.
fn eq_key(key: &Vec<u8>, which: u8) -> (r: bool)
    requires
        which <= 3,
    ensures
        r == (key@ == key_bytes(which)),
{
    let expect: [u8; 16] = if which == 0 {
        [99, 121, 99, 108, 101, 95, 114, 101, 112, 115, 0, 0, 0, 0, 0, 0]
    } else if which == 1 {
        [109, 97, 120, 116, 117, 114, 110, 0, 0, 0, 0, 0, 0, 0, 0, 0]
    } else if which == 2 {
        [109, 97, 120, 95, 115, 101, 97, 114, 99, 104, 95, 100, 101, 112, 116, 104]
    } else {
        [112, 108, 97, 121, 95, 99, 97, 114, 100, 95, 98, 111, 110, 117, 115, 0]
    };
    let n: usize = if which == 0 {
        10
    } else if which == 1 {
        7
    } else if which == 2 {
        16
    } else {
        15
    };
    proof {
        assert(key_bytes(which).len() == n);
        assert(forall|i: int| 0 <= i < n ==> expect@[i] == key_bytes(which)[i]);
    }
    if key.len() != n {
        proof {
            if key@ == key_bytes(which) {
                assert(key@.len() == n);
            }
        }
        return false;
    }
    let mut i: usize = 0;
    while i < n
        invariant
            i <= n,
            n <= 16,
            key@.len() == n,
            key_bytes(which).len() == n,
            forall|t: int| 0 <= t < n ==> expect@[t] == key_bytes(which)[t],
            forall|t: int| 0 <= t < i ==> key@[t] == key_bytes(which)[t],
        decreases n - i,
    {
        if key[i] != expect[i] {
            return false;
        }
        i += 1;
    }
    proof {
        assert(key@ =~= key_bytes(which));
    }
    true
}

/// Parses the configuration text: every line must hold a key and a value
/// separated by one space, unrecognized keys are ignored, and all four
/// settings must be present for the session to start.
pub fn parse_config(s: &[u8]) -> (r: Option<SimConfig>)
    ensures
        match config_of(s@) {
            Some(c) => r matches Some(rc) && rc.cycle_reps == c.cycle_reps
                && rc.maxturn == c.maxturn && rc.max_search_depth == c.max_search_depth
                && rc.play_card_bonus == c.play_card_bonus,
            None => r is None,
        },
{
    let mut acc: (Option<i64>, Option<i64>, Option<i64>, Option<i64>) = (None, None, None,
        None);
    let mut rest: Vec<u8> = slice_to_vec_bytes(s);
    proof {
        assert(rest@ == s@);
    }
    let ghost total = s@;
    let mut done = false;
    loop
        invariant
            total == s@,
            (acc.0 matches Some(v) ==> i32::MIN <= v <= i32::MAX),
            (acc.1 matches Some(v) ==> 0 <= v <= 255),
            (acc.2 matches Some(v) ==> 0 <= v <= 255),
            (acc.3 matches Some(v) ==> -128 <= v <= 127),
            !done ==> config_rec(total, (None, None, None, None)) == config_rec(rest@,
                (spec_acc(acc.0), spec_acc(acc.1), spec_acc(acc.2), spec_acc(acc.3))),
            done ==> config_rec(total, (None, None, None, None)) == Some((spec_acc(acc.0),
                spec_acc(acc.1), spec_acc(acc.2), spec_acc(acc.3))),
        decreases rest@.len() + 1 - (if done { 1int } else { 0int }),
    {
        if done {
            proof {
                assert(config_rec(total, (None, None, None, None)) == Some((spec_acc(acc.0),
                    spec_acc(acc.1), spec_acc(acc.2), spec_acc(acc.3))));
            }
            match (acc.0, acc.1, acc.2, acc.3) {
                (Some(a), Some(b), Some(c), Some(d)) => {
                    return Some(SimConfig {
                        cycle_reps: a as i32,
                        maxturn: b as u8,
                        max_search_depth: c as u8,
                        play_card_bonus: d as i8,
                    });
                },
                _ => {
                    return None;
                },
            }
        }
        let mut j: usize = 0;
        while j < rest.len() && rest[j] != 10u8
            invariant
                j <= rest@.len(),
                forall|t: int| 0 <= t < j ==> rest@[t] != 10,
            decreases rest@.len() - j,
        {
            j += 1;
        }
        proof {
            lemma_split_head(rest@, 10);
            assert(j as nat == split_head(rest@, 10)) by {
                let w2 = split_head(rest@, 10);
                if w2 < j {
                    assert(rest@[w2 as int] != 10);
                }
                if j < w2 {
                    assert(rest@[j as int] != 10);
                }
            }
        }
        let mut line: Vec<u8> = Vec::new();
        let mut t: usize = 0;
        while t < j
            invariant
                t <= j <= rest@.len(),
                line@ == rest@.take(j as int).take(t as int),
            decreases j - t,
        {
            proof {
                assert(rest@.take(j as int).take(t as int + 1)
                    =~= rest@.take(j as int).take(t as int).push(rest@[t as int]));
            }
            line.push(rest[t]);
            t += 1;
        }
        proof {
            assert(line@ =~= rest@.take(j as int));
        }
        let ghost accspec = (spec_acc(acc.0), spec_acc(acc.1), spec_acc(acc.2),
            spec_acc(acc.3));
        match line_step_exec(line.as_slice(), acc) {
            None => {
                proof {
                    assert(line_step(rest@.take(j as int), accspec) is None) by {
                        if line_step(line@, accspec) is Some {
                            assert(false);
                        }
                    }
                    assert(config_rec(rest@, accspec) is None);
                    assert(config_rec(total, (None, None, None, None)) is None);
                    assert(config_of(s@) is None);
                }
                return None;
            },
            Some(a2) => {
                proof {
                    assert(line_step(rest@.take(j as int), accspec)
                        == Some((spec_acc(a2.0), spec_acc(a2.1), spec_acc(a2.2),
                        spec_acc(a2.3))));
                }
                acc = a2;
            },
        }
        if j == rest.len() {
            done = true;
        } else {
            let mut next: Vec<u8> = Vec::new();
            let mut u: usize = j + 1;
            while u < rest.len()
                invariant
                    j + 1 <= u <= rest@.len(),
                    next@ == rest@.subrange(j as int + 1, u as int),
                decreases rest@.len() - u,
            {
                proof {
                    assert(rest@.subrange(j as int + 1, u as int + 1)
                        =~= rest@.subrange(j as int + 1, u as int).push(rest@[u as int]));
                }
                next.push(rest[u]);
                u += 1;
            }
            proof {
                assert(next@ =~= rest@.skip(j as int + 1));
            }
            rest = next;
        }
    }
}

/// Copies a byte slice into a fresh vector.
fn slice_to_vec_bytes(s: &[u8]) -> (r: Vec<u8>)
    ensures
        r@ == s@,
{
    let mut r: Vec<u8> = Vec::new();
    let mut i: usize = 0;
    while i < s.len()
        invariant
            i <= s@.len(),
            r@ == s@.take(i as int),
        decreases s@.len() - i,
    {
        proof {
            assert(s@.take(i as int + 1) =~= s@.take(i as int).push(s@[i as int]));
        }
        r.push(s[i]);
        i += 1;
    }
    proof {
        assert(s@.take(s@.len() as int) =~= s@);
    }
    r
}

/// One token reads back as the card it was written for, and holds no space.
pub proof fn lemma_token_round_trip(c: Card)
    requires
        0 <= c.mana <= 127,
    ensures
        token_valid(card_token(c)),
        token_card(card_token(c)) == c,
        card_token(c).len() >= 2,
        forall|j: int| 0 <= j < card_token(c).len() ==> (#[trigger] card_token(c)[j]) != 32,
{
    let m = c.mana as int;
    let tok = card_token(c);
    let dec = decimal_of(m);
    assert(is_power_letter(tok[0]));
    assert(token_digits(tok) =~= dec);
    lemma_fundamental_div_mod(m, 10);
    if m < 10 {
        assert(all_digits(dec));
        assert(digits_val(dec) == m) by {
            assert(((48 + m) as u8) == 48 + m);
            assert(dec.last() == (48 + m) as u8);
            assert(dec.drop_last() =~= Seq::<u8>::empty());
            assert(digits_val(dec.drop_last()) == 0);
        }
    } else if m < 100 {
        assert(1 <= m / 10 <= 9) by {
            lemma_div_is_ordered(10, m, 10);
            lemma_div_is_ordered(m, 99, 10);
        }
        assert(all_digits(dec));
        assert(digits_val(dec) == (m / 10) * 10 + m % 10) by {
            assert(((48 + m / 10) as u8) == 48 + m / 10);
            assert(((48 + m % 10) as u8) == 48 + m % 10);
            let d1 = dec.drop_last();
            assert(d1 =~= seq![(48 + m / 10) as u8]);
            assert(d1.drop_last() =~= Seq::<u8>::empty());
            assert(digits_val(d1.drop_last()) == 0);
            assert(digits_val(d1) == m / 10);
            assert(dec.last() == (48 + m % 10) as u8);
        }
    } else {
        assert(10 <= m / 10 <= 12) by {
            lemma_div_is_ordered(100, m, 10);
            lemma_div_is_ordered(m, 127, 10);
        }
        lemma_fundamental_div_mod(m / 10, 10);
        assert((m / 10) / 10 == 1) by {
            lemma_div_is_ordered(10, m / 10, 10);
            lemma_div_is_ordered(m / 10, 12, 10);
        }
        assert(m / 10 == 10 + (m / 10) % 10);
        assert(all_digits(dec));
        assert(digits_val(dec) == ((1 * 10) + (m / 10) % 10) * 10 + m % 10) by {
            assert(((48 + (m / 10) % 10) as u8) == 48 + (m / 10) % 10);
            assert(((48 + m % 10) as u8) == 48 + m % 10);
            let d1 = dec.drop_last();
            let d2 = d1.drop_last();
            assert(d1 =~= seq![49u8, (48 + (m / 10) % 10) as u8]);
            assert(d2 =~= seq![49u8]);
            assert(d2.drop_last() =~= Seq::<u8>::empty());
            assert(digits_val(d2.drop_last()) == 0);
            assert(d2.last() == 49);
            assert(digits_val(d2) == 1);
            assert(d1.last() == (48 + (m / 10) % 10) as u8);
            assert(digits_val(d1) == 1 * 10 + (m / 10) % 10);
            assert(dec.last() == (48 + m % 10) as u8);
        }
        assert(((1 * 10) + (m / 10) % 10) * 10 + m % 10 == (m / 10) * 10 + m % 10);
    }
    assert(token_power(tok) == c.power);
    assert(token_card(tok).mana == m as i8);
}

/// Saving a deck and loading the text back gives the same cards in the
/// same order, for any non-empty deck without the coin.
pub proof fn lemma_deck_round_trip(cards: Seq<Card>)
    requires
        cards.len() >= 1,
        forall|i: int| 0 <= i < cards.len() ==> 0 <= (#[trigger] cards[i]).mana <= 127,
    ensures
        parse_deck_spec(deck_text(cards)) == Some(cards),
    decreases cards.len(),
{
    let c0 = cards[0];
    let tok = card_token(c0);
    lemma_token_round_trip(c0);
    let text = deck_text(cards);
    lemma_split_head(text, 32);
    let j = split_head(text, 32);
    if cards.len() == 1 {
        assert(text == tok);
        assert(j == text.len()) by {
            if j < text.len() {
                assert(text[j as int] == 32);
            }
        }
        assert(text.take(j as int) =~= tok);
        assert(parse_deck_spec(text) == Some(seq![token_card(tok)]));
        assert(seq![token_card(tok)] =~= cards);
    } else {
        let rest = cards.drop_first();
        assert(text == tok + seq![32u8] + deck_text(rest));
        assert(j == tok.len()) by {
            if j < tok.len() {
                assert(text[j as int] == tok[j as int]);
                assert(text[j as int] != 32);
            } else if j > tok.len() {
                assert(text[tok.len() as int] == 32);
            }
        }
        assert(text.take(j as int) =~= tok);
        assert(j < text.len());
        assert(text.skip(j as int + 1) =~= deck_text(rest));
        assert(forall|i: int| 0 <= i < rest.len() ==> 0 <= (#[trigger] rest[i]).mana <= 127)
            by {
            assert(forall|i: int| 0 <= i < rest.len() ==> rest[i] == cards[i + 1]);
        }
        lemma_deck_round_trip(rest);
        assert(parse_deck_spec(text) == Some(seq![token_card(tok)] + rest));
        assert(seq![token_card(tok)] + rest =~= cards);
    }
}

} // verus!
