//! The short textual forms of a portfolio: the bets hash, one letter for
//! each pair of pirate indices, and the amounts hash, three base-52 letters
//! for each bet amount.
use vstd::prelude::*;

use crate::text::push_char;
use crate::math::{bets_indices_to_bet_binaries, seq_bin, valid_indices, BET_AMOUNT_MAX, BET_AMOUNT_MIN};

verus! {

/// The index sequences of a list of five-pick arrays.
pub open spec fn views(bets: Seq<[u8; 5]>) -> Seq<Seq<u8>> {
    bets.map_values(|b: [u8; 5]| b@)
}

/// Every entry holds valid pirate indices.
pub open spec fn all_valid(bets: Seq<[u8; 5]>) -> bool {
    forall|k: int| 0 <= k < bets.len() ==> valid_indices(#[trigger] bets[k])
}

/// The pirate indices of all bets, one after the other.
pub open spec fn bets_digits(bets: Seq<Seq<u8>>) -> Seq<u8>
    decreases bets.len(),
{
    if bets.len() == 0 {
        Seq::empty()
    } else {
        bets_digits(bets.drop_last()) + bets.last()
    }
}

/// A digit sequence made even in length by a trailing 0.
pub open spec fn padded(d: Seq<u8>) -> Seq<u8> {
    if d.len() % 2 == 1 {
        d.push(0)
    } else {
        d
    }
}

/// The letter of a pair of pirate indices.
pub open spec fn pair_letter(m: u8, a: u8) -> char {
    ((97 + 5 * m + a) as u8) as char
}

/// The letters of an even-length digit sequence, one per pair.
pub open spec fn pair_letters(d: Seq<u8>) -> Seq<char> {
    Seq::new(d.len() / 2, |k: int| pair_letter(d[2 * k], d[2 * k + 1]))
}

/// The bets hash of a list of bets.
pub open spec fn bets_hash_of(bets: Seq<Seq<u8>>) -> Seq<char> {
    pair_letters(padded(bets_digits(bets)))
}

/// A letter of a bets hash: `a` to `y`.
pub open spec fn is_pair_letter(c: char) -> bool {
    'a' <= c <= 'y'
}

/// Every letter of `h` is a letter of a bets hash.
pub open spec fn is_bets_hash(h: Seq<char>) -> bool {
    forall|i: int| 0 <= i < h.len() ==> is_pair_letter(#[trigger] h[i])
}

/// The two pirate indices that each letter of `h` stands for.
pub open spec fn hash_digits(h: Seq<char>) -> Seq<u8> {
    Seq::new(
        2 * h.len(),
        |i: int|
            if i % 2 == 0 {
                ((h[i / 2] as int - 97) / 5) as u8
            } else {
                ((h[i / 2] as int - 97) % 5) as u8
            },
    )
}

/// The `j`-th group of five digits, filled up with 0 past the end.
pub open spec fn chunk(d: Seq<u8>, j: int) -> Seq<u8> {
    Seq::new(5, |i: int| if 5 * j + i < d.len() { d[5 * j + i] } else { 0u8 })
}

/// The number of groups of five that `n` digits make.
pub open spec fn chunk_count(n: int) -> int {
    (n + 4) / 5
}

/// The groups of five of a digit sequence.
pub open spec fn chunks(d: Seq<u8>) -> Seq<Seq<u8>> {
    Seq::new(chunk_count(d.len() as int) as nat, |j: int| chunk(d, j))
}

/// A group that picks at least one pirate.
pub open spec fn picks_any(c: Seq<u8>) -> bool {
    exists|i: int| 0 <= i < c.len() && c[i] != 0
}

/// The groups that pick at least one pirate, in order.
pub open spec fn keep_bets(cs: Seq<Seq<u8>>) -> Seq<Seq<u8>>
    decreases cs.len(),
{
    if cs.len() == 0 {
        Seq::empty()
    } else if picks_any(cs.last()) {
        keep_bets(cs.drop_last()).push(cs.last())
    } else {
        keep_bets(cs.drop_last())
    }
}

/// The bets that a bets hash stands for.
pub open spec fn bets_of_hash(h: Seq<char>) -> Seq<Seq<u8>> {
    keep_bets(chunks(hash_digits(h)))
}

/// The letters of a bets hash for a list of pirate-index tuples: the indices
/// are read in order, a 0 is added when their number is odd, and each pair
/// `(m, a)` becomes the letter `'a' + 5 * m + a`.
pub fn bets_hash_value(bets_indices: Vec<[u8; 5]>) -> (r: String)
    requires
        all_valid(bets_indices@),
        bets_indices@.len() <= 0x1000_0000,
    ensures
        r@ == bets_hash_of(views(bets_indices@)),
{
    let ghost vs = views(bets_indices@);
    let mut digits: Vec<u8> = Vec::new();
    let mut k: usize = 0;
    while k < bets_indices.len()
        invariant
            k <= bets_indices@.len(),
            vs == views(bets_indices@),
            bets_indices@.len() <= 0x1000_0000,
            all_valid(bets_indices@),
            digits@ == bets_digits(vs.subrange(0, k as int)),
            digits@.len() == 5 * k,
            forall|i: int| 0 <= i < digits@.len() ==> digits@[i] <= 4,
        decreases bets_indices@.len() - k,
    {
        let b = bets_indices[k];
        assert(valid_indices(b));
        let ghost before = digits@;
        let mut i: usize = 0;
        while i < 5
            invariant
                i <= 5,
                valid_indices(b),
                digits@ == before + b@.subrange(0, i as int),
                forall|t: int| 0 <= t < before.len() ==> before[t] <= 4,
            decreases 5 - i,
        {
            digits.push(b[i]);
            assert(b@.subrange(0, i + 1) =~= b@.subrange(0, i as int).push(b@[i as int]));
            i = i + 1;
        }
        assert(vs.subrange(0, k + 1).drop_last() =~= vs.subrange(0, k as int));
        assert(b@.subrange(0, 5) =~= b@);
        assert(forall|i: int| 0 <= i < digits@.len() ==> digits@[i] <= 4) by {
            assert forall|i: int| 0 <= i < digits@.len() implies digits@[i] <= 4 by {
                if i >= before.len() {
                    assert(digits@[i] == b@[i - before.len()]);
                    assert(valid_indices(b));
                }
            }
        }
        k = k + 1;
    }
    assert(vs.subrange(0, k as int) =~= vs);
    if digits.len() % 2 == 1 {
        digits.push(0);
    }
    let ghost d = digits@;
    assert(d == padded(bets_digits(vs)));
    let mut r = String::new();
    let mut p: usize = 0;
    while p < digits.len() / 2
        invariant
            d == digits@,
            d.len() % 2 == 0,
            d.len() <= 0x1000_0000 * 5 + 1,
            p <= d.len() / 2,
            forall|i: int| 0 <= i < d.len() ==> d[i] <= 4,
            r@ == pair_letters(d).subrange(0, p as int),
        decreases d.len() / 2 - p,
    {
        let m = digits[2 * p];
        let a = digits[2 * p + 1];
        let c = (97 + 5 * m + a) as char;
        push_char(&mut r, c);
        assert(r@ =~= pair_letters(d).subrange(0, p + 1));
        p = p + 1;
    }
    assert(r@ =~= pair_letters(d));
    r
}

/// The pirate indices that the letters of a bets hash stand for, two per letter.
fn hash_to_digits(bets_hash: &str) -> (r: Vec<u8>)
    requires
        is_bets_hash(bets_hash@),
        bets_hash@.len() <= 0x1000_0000,
    ensures
        r@ == hash_digits(bets_hash@),
        forall|i: int| 0 <= i < r@.len() ==> r@[i] <= 4,
{
    let n = bets_hash.unicode_len();
    let mut r: Vec<u8> = Vec::new();
    let mut i: usize = 0;
    while i < n
        invariant
            n == bets_hash@.len(),
            n <= 0x1000_0000,
            i <= n,
            is_bets_hash(bets_hash@),
            r@ == hash_digits(bets_hash@).subrange(0, 2 * i),
            forall|t: int| 0 <= t < r@.len() ==> r@[t] <= 4,
        decreases n - i,
    {
        let c = bets_hash.get_char(i);
        assert(is_pair_letter(bets_hash@[i as int]));
        let v: u32 = (c as u32) - 97;
        r.push((v / 5) as u8);
        r.push((v % 5) as u8);
        assert(r@ =~= hash_digits(bets_hash@).subrange(0, 2 * i + 2));
        i = i + 1;
    }
    assert(r@ =~= hash_digits(bets_hash@));
    r
}

/// The bets that a bets hash stands for: the indices of its letters taken
/// five at a time (the last group filled up with 0), leaving out each group
/// that picks no pirate.
pub fn bets_hash_to_bet_indices(bets_hash: &str) -> (r: Vec<[u8; 5]>)
    requires
        is_bets_hash(bets_hash@),
        bets_hash@.len() <= 0x1000_0000,
    ensures
        views(r@) == bets_of_hash(bets_hash@),
        all_valid(r@),
{
    let digits = hash_to_digits(bets_hash);
    let ghost d = digits@;
    let ghost cs = chunks(d);
    let count: usize = (digits.len() + 4) / 5;
    let mut r: Vec<[u8; 5]> = Vec::new();
    let mut j: usize = 0;
    while j < count
        invariant
            d == digits@,
            d.len() <= 0x2000_0000,
            cs == chunks(d),
            count == chunk_count(d.len() as int),
            j <= count,
            forall|i: int| 0 <= i < d.len() ==> d[i] <= 4,
            views(r@) == keep_bets(cs.subrange(0, j as int)),
            all_valid(r@),
        decreases count - j,
    {
        let mut c: [u8; 5] = [0u8; 5];
        let mut i: usize = 0;
        let mut any = false;
        while i < 5
            invariant
                i <= 5,
                j < count,
                count == chunk_count(d.len() as int),
                d == digits@,
                d.len() <= 0x2000_0000,
                forall|t: int| 0 <= t < d.len() ==> d[t] <= 4,
                c@.len() == 5,
                forall|t: int| 0 <= t < i ==> c@[t] == chunk(d, j as int)[t],
                forall|t: int| i <= t < 5 ==> c@[t] == 0,
                forall|t: int| 0 <= t < 5 ==> c@[t] <= 4,
                any == exists|t: int| 0 <= t < i && c@[t] != 0,
            decreases 5 - i,
        {
            let at = 5 * j + i;
            let ghost c0 = c@;
            if at < digits.len() {
                let v = digits[at];
                c[i] = v;
                if v != 0 {
                    any = true;
                }
            }
            proof {
                assert(forall|t: int| 0 <= t < i ==> c@[t] == c0[t]);
                if c@[i as int] != 0 {
                    assert(c@[i as int] != 0);
                    assert(exists|t: int| 0 <= t < i + 1 && c@[t] != 0);
                } else if exists|t: int| 0 <= t < i + 1 && c@[t] != 0 {
                    let t = choose|t: int| 0 <= t < i + 1 && c@[t] != 0;
                    assert(t < i && c0[t] != 0);
                } else if exists|t: int| 0 <= t < i && c0[t] != 0 {
                    let t = choose|t: int| 0 <= t < i && c0[t] != 0;
                    assert(c@[t] != 0);
                }
            }
            i = i + 1;
        }
        let ghost ch = chunk(d, j as int);
        assert(c@ =~= ch);
        assert(cs.subrange(0, j + 1).drop_last() =~= cs.subrange(0, j as int));
        assert(cs.subrange(0, j + 1).last() == ch);
        assert(any == picks_any(ch));
        let ghost r0 = r@;
        if any {
            r.push(c);
            assert(views(r@) =~= views(r0).push(c@));
        }
        j = j + 1;
    }
    assert(cs.subrange(0, count as int) =~= cs);
    r
}

proof fn lemma_bets_digits(bs: Seq<Seq<u8>>)
    requires
        forall|k: int| 0 <= k < bs.len() ==> (#[trigger] bs[k]).len() == 5,
    ensures
        bets_digits(bs).len() == 5 * bs.len(),
        forall|j: int, i: int|
            0 <= j < bs.len() && 0 <= i < 5 ==> #[trigger] bets_digits(bs)[5 * j + i] == bs[j][i],
    decreases bs.len(),
{
    if bs.len() > 0 {
        let init = bs.drop_last();
        lemma_bets_digits(init);
        assert forall|j: int, i: int| 0 <= j < bs.len() && 0 <= i < 5 implies #[trigger] bets_digits(
            bs,
        )[5 * j + i] == bs[j][i] by {
            if j < bs.len() - 1 {
                assert(init[j] == bs[j]);
            }
        }
    }
}

proof fn lemma_keep_all(cs: Seq<Seq<u8>>)
    requires
        forall|k: int| 0 <= k < cs.len() ==> picks_any(#[trigger] cs[k]),
    ensures
        keep_bets(cs) == cs,
    decreases cs.len(),
{
    if cs.len() > 0 {
        let init = cs.drop_last();
        assert forall|k: int| 0 <= k < init.len() implies picks_any(#[trigger] init[k]) by {
            assert(init[k] == cs[k]);
        }
        lemma_keep_all(init);
        assert(picks_any(cs[cs.len() - 1]));
        assert(init.push(cs.last()) =~= cs);
    }
}

/// A bet: valid pirate indices with at least one pick.
pub open spec fn all_bets(bets: Seq<[u8; 5]>) -> bool {
    forall|k: int| 0 <= k < bets.len() ==> crate::math::is_bet_indices(#[trigger] bets[k])
}

/// Decoding the bets hash of a list of bets gives the list back.
pub proof fn lemma_bets_hash_round_trip(bets: Seq<[u8; 5]>)
    requires
        all_bets(bets),
    ensures
        bets_of_hash(bets_hash_of(views(bets))) == views(bets),
{
    let vs = views(bets);
    assert forall|k: int| 0 <= k < vs.len() implies (#[trigger] vs[k]).len() == 5 by {}
    lemma_bets_digits(vs);
    let dg = bets_digits(vs);
    let d = padded(dg);
    assert forall|i: int| 0 <= i < d.len() implies d[i] <= 4 by {
        if i < dg.len() {
            let j = i / 5;
            let t = i % 5;
            assert(i == 5 * j + t);
            assert(dg[5 * j + t] == vs[j][t]);
            assert(crate::math::is_bet_indices(bets[j]));
            assert(crate::math::valid_index(bets[j]@[t]));
        }
    }
    let h = pair_letters(d);
    assert forall|i: int| 0 <= i < d.len() implies hash_digits(h)[i] == d[i] by {
        let k = i / 2;
        let m = d[2 * k];
        let a = d[2 * k + 1];
        assert(h[k] == pair_letter(m, a));
        assert(h[k] as int == 97 + 5 * m + a);
    }
    assert(hash_digits(h) =~= d);
    let cs = chunks(d);
    let n = vs.len();
    assert forall|j: int| 0 <= j < n implies #[trigger] cs[j] == vs[j] by {
        assert forall|i: int| 0 <= i < 5 implies chunk(d, j)[i] == vs[j][i] by {
            assert(d[5 * j + i] == dg[5 * j + i]);
        }
        assert(chunk(d, j) =~= vs[j]);
    }
    assert forall|k: int| 0 <= k < vs.len() implies picks_any(#[trigger] vs[k]) by {
        assert(crate::math::is_bet_indices(bets[k]));
        let a = choose|a: int| 0 <= a < 5 && bets[k]@[a] != 0;
        assert(vs[k][a] != 0);
    }
    if n % 2 == 0 {
        assert(cs =~= vs);
        lemma_keep_all(vs);
    } else {
        assert(cs.len() == n + 1);
        assert(cs.drop_last() =~= vs);
        assert(!picks_any(cs.last()));
        lemma_keep_all(vs);
    }
}

/// The amount that an entry of an amounts list stands for: 0 where it is
/// missing or under the minimum.
pub open spec fn amount_value(v: Option<u32>) -> nat {
    match v {
        Some(x) => if x >= BET_AMOUNT_MIN {
            x as nat
        } else {
            0
        },
        None => 0,
    }
}

/// The number that the three letters of an amount encode.
pub open spec fn amount_word(v: Option<u32>) -> nat {
    (amount_value(v) % (BET_AMOUNT_MAX as nat)) + BET_AMOUNT_MAX as nat
}

/// The letter of a base-52 digit: `a` to `z`, then `A` to `Z`.
pub open spec fn b52_letter(d: nat) -> char {
    if d < 26 {
        ((97 + d) as u8) as char
    } else {
        ((65 + d - 26) as u8) as char
    }
}

/// The three letters of one amount, most significant first.
pub open spec fn amount_letters(v: Option<u32>) -> Seq<char> {
    let w = amount_word(v);
    seq![b52_letter(w / 2704), b52_letter((w / 52) % 52), b52_letter(w % 52)]
}

/// The amounts hash of a list of amounts.
pub open spec fn amounts_hash_of(amounts: Seq<Option<u32>>) -> Seq<char>
    decreases amounts.len(),
{
    if amounts.len() == 0 {
        Seq::empty()
    } else {
        amounts_hash_of(amounts.drop_last()) + amount_letters(amounts.last())
    }
}

/// A letter of an amounts hash.
pub open spec fn is_b52_letter(c: char) -> bool {
    ('a' <= c <= 'z') || ('A' <= c <= 'Z')
}

/// The digit that a base-52 letter stands for.
pub open spec fn letter_value(c: char) -> nat {
    if 'a' <= c <= 'z' {
        (c as nat - 97) as nat
    } else {
        (c as nat - 65 + 26) as nat
    }
}

/// Letters of the base-52 alphabet, three per amount.
pub open spec fn is_amounts_hash(h: Seq<char>) -> bool {
    &&& h.len() % 3 == 0
    &&& forall|i: int| 0 <= i < h.len() ==> is_b52_letter(#[trigger] h[i])
}

/// The number that the `k`-th letter triple of `h` encodes.
pub open spec fn triple_value(h: Seq<char>, k: int) -> nat {
    2704 * letter_value(h[3 * k]) + 52 * letter_value(h[3 * k + 1]) + letter_value(h[3 * k + 2])
}

/// The amount of one triple: its number less the offset, where it reaches it.
pub open spec fn triple_amount(t: nat) -> Option<u32> {
    if t >= BET_AMOUNT_MAX {
        Some((t - BET_AMOUNT_MAX) as u32)
    } else {
        None
    }
}

/// The amounts that an amounts hash stands for.
pub open spec fn amounts_of_hash(h: Seq<char>) -> Seq<Option<u32>> {
    Seq::new(h.len() / 3, |k: int| triple_amount(triple_value(h, k)))
}

fn b52_char(d: u32) -> (c: char)
    requires
        d < 52,
    ensures
        c == b52_letter(d as nat),
{
    if d < 26 {
        ((97 + d) as u8) as char
    } else {
        ((65 + d - 26) as u8) as char
    }
}

/// The amounts hash of a list of bet amounts: for each entry, the number
/// `(v mod BET_AMOUNT_MAX) + BET_AMOUNT_MAX` in three base-52 letters, where
/// `v` is the amount, or 0 where it is missing or under `BET_AMOUNT_MIN`.
pub fn bet_amounts_to_amounts_hash(bet_amounts: &Vec<Option<u32>>) -> (r: String)
    ensures
        r@ == amounts_hash_of(bet_amounts@),
{
    let mut r = String::new();
    let mut k: usize = 0;
    while k < bet_amounts.len()
        invariant
            k <= bet_amounts@.len(),
            r@ == amounts_hash_of(bet_amounts@.subrange(0, k as int)),
        decreases bet_amounts@.len() - k,
    {
        let v: u32 = match bet_amounts[k] {
            Some(x) => if x >= BET_AMOUNT_MIN {
                x
            } else {
                0
            },
            None => 0,
        };
        let w: u32 = (v % BET_AMOUNT_MAX) + BET_AMOUNT_MAX;
        assert(w as nat == amount_word(bet_amounts@[k as int]));
        assert(w / 2704 < 52);
        push_char(&mut r, b52_char(w / 2704));
        push_char(&mut r, b52_char((w / 52) % 52));
        push_char(&mut r, b52_char(w % 52));
        let ghost pre = bet_amounts@.subrange(0, k + 1);
        assert(pre.drop_last() =~= bet_amounts@.subrange(0, k as int));
        assert(r@ =~= amounts_hash_of(pre));
        k = k + 1;
    }
    assert(bet_amounts@.subrange(0, k as int) =~= bet_amounts@);
    r
}

fn letter_digit(c: char) -> (d: u32)
    requires
        is_b52_letter(c),
    ensures
        d == letter_value(c),
        d < 52,
{
    if 'a' <= c && c <= 'z' {
        (c as u32) - 97
    } else {
        (c as u32) - 65 + 26
    }
}

/// The bet amounts of an amounts hash: each letter triple read as a base-52
/// number, less `BET_AMOUNT_MAX`; a triple under that offset is a missing
/// amount.
pub fn amounts_hash_to_bet_amounts(amounts_hash: &str) -> (r: Vec<Option<u32>>)
    requires
        is_amounts_hash(amounts_hash@),
    ensures
        r@ == amounts_of_hash(amounts_hash@),
{
    let n = amounts_hash.unicode_len();
    let ghost h = amounts_hash@;
    let mut r: Vec<Option<u32>> = Vec::new();
    let mut k: usize = 0;
    while k < n / 3
        invariant
            n == h.len(),
            h == amounts_hash@,
            is_amounts_hash(h),
            k <= n / 3,
            r@ == amounts_of_hash(h).subrange(0, k as int),
        decreases n / 3 - k,
    {
        let d0 = letter_digit(amounts_hash.get_char(3 * k));
        let d1 = letter_digit(amounts_hash.get_char(3 * k + 1));
        let d2 = letter_digit(amounts_hash.get_char(3 * k + 2));
        let t: u32 = 2704 * d0 + 52 * d1 + d2;
        assert(t as nat == triple_value(h, k as int));
        if t >= BET_AMOUNT_MAX {
            r.push(Some(t - BET_AMOUNT_MAX));
        } else {
            r.push(None);
        }
        assert(r@ =~= amounts_of_hash(h).subrange(0, k + 1));
        k = k + 1;
    }
    assert(r@ =~= amounts_of_hash(h));
    r
}

proof fn lemma_amounts_hash_layout(amounts: Seq<Option<u32>>)
    ensures
        amounts_hash_of(amounts).len() == 3 * amounts.len(),
        forall|k: int, i: int|
            0 <= k < amounts.len() && 0 <= i < 3 ==> #[trigger] amounts_hash_of(amounts)[3 * k
                + i] == amount_letters(amounts[k])[i],
    decreases amounts.len(),
{
    if amounts.len() > 0 {
        let init = amounts.drop_last();
        lemma_amounts_hash_layout(init);
        assert forall|k: int, i: int| 0 <= k < amounts.len() && 0 <= i < 3 implies #[trigger] amounts_hash_of(
            amounts,
        )[3 * k + i] == amount_letters(amounts[k])[i] by {
            if k < amounts.len() - 1 {
                assert(init[k] == amounts[k]);
            }
        }
    }
}

/// The amounts list as its hash keeps it: each entry becomes its amount,
/// 0 where it is missing or under the minimum.
pub open spec fn normalized(amounts: Seq<Option<u32>>) -> Seq<Option<u32>> {
    amounts.map_values(|v: Option<u32>| Some(amount_value(v) as u32))
}

/// Decoding the amounts hash of a list whose amounts are under
/// `BET_AMOUNT_MAX` gives each amount back, with 0 for each entry that is
/// missing or under `BET_AMOUNT_MIN`.
pub proof fn lemma_amounts_hash_round_trip(amounts: Seq<Option<u32>>)
    requires
        forall|k: int| 0 <= k < amounts.len() ==> amount_value(#[trigger] amounts[k]) < BET_AMOUNT_MAX,
    ensures
        is_amounts_hash(amounts_hash_of(amounts)),
        amounts_of_hash(amounts_hash_of(amounts)) == normalized(amounts),
{
    lemma_amounts_hash_layout(amounts);
    let h = amounts_hash_of(amounts);
    assert forall|d: nat| d < 52 implies is_b52_letter(#[trigger] b52_letter(d)) && letter_value(
        b52_letter(d),
    ) == d by {}
    assert forall|i: int| 0 <= i < h.len() implies is_b52_letter(#[trigger] h[i]) by {
        let k = i / 3;
        let t = i % 3;
        assert(h[3 * k + t] == amount_letters(amounts[k])[t]);
        let w = amount_word(amounts[k]);
        assert(w / 2704 < 52);
    }
    assert forall|k: int| 0 <= k < amounts.len() implies triple_amount(
        #[trigger] triple_value(h, k),
    ) == Some(amount_value(amounts[k]) as u32) by {
        let w = amount_word(amounts[k]);
        assert(h[3 * k + 0] == amount_letters(amounts[k])[0]);
        assert(h[3 * k + 1] == amount_letters(amounts[k])[1]);
        assert(h[3 * k + 2] == amount_letters(amounts[k])[2]);
        assert(w / 2704 < 52);
        assert(letter_value(h[3 * k]) == w / 2704);
        assert(letter_value(h[3 * k + 1]) == (w / 52) % 52);
        assert(letter_value(h[3 * k + 2]) == w % 52);
        assert(2704 * (w / 2704) + 52 * ((w / 52) % 52) + w % 52 == w) by (nonlinear_arith);
        assert(amount_value(amounts[k]) < BET_AMOUNT_MAX);
    }
    assert(amounts_of_hash(h) =~= normalized(amounts));
}

/// The binaries of the bets that a bets hash stands for.
pub open spec fn bins_of_hash(h: Seq<char>) -> Seq<u32> {
    bets_of_hash(h).map_values(|c: Seq<u8>| seq_bin(c))
}

/// The binaries of the bets that a bets hash stands for, in order.
pub fn bets_hash_to_bet_binaries(bets_hash: &str) -> (r: Vec<u32>)
    requires
        is_bets_hash(bets_hash@),
        bets_hash@.len() <= 0x1000_0000,
    ensures
        r@ == bins_of_hash(bets_hash@),
{
    let bets = bets_hash_to_bet_indices(bets_hash);
    let r = bets_indices_to_bet_binaries(bets);
    assert(r@ =~= bins_of_hash(bets_hash@)) by {
        assert forall|k: int| 0 <= k < r@.len() implies r@[k] == bins_of_hash(bets_hash@)[k] by {
            assert(views(bets@)[k] == bets@[k]@);
        }
    }
    r
}

/// The number of bets that a bets hash stands for.
pub fn bets_hash_to_bets_count(bets_hash: &str) -> (r: usize)
    requires
        is_bets_hash(bets_hash@),
        bets_hash@.len() <= 0x1000_0000,
    ensures
        r == bets_of_hash(bets_hash@).len(),
{
    let bets = bets_hash_to_bet_indices(bets_hash);
    bets.len()
}

/// The groups that `keep_bets` keeps each pick a pirate, and they are no
/// more than the groups.
pub proof fn lemma_kept(cs: Seq<Seq<u8>>)
    ensures
        keep_bets(cs).len() <= cs.len(),
        forall|k: int| 0 <= k < keep_bets(cs).len() ==> picks_any(#[trigger] keep_bets(cs)[k]),
    decreases cs.len(),
{
    if cs.len() > 0 {
        lemma_kept(cs.drop_last());
    }
}

} // verus!
