//! Portfolios: bets as rows of a round's table, with optional amounts.
use vstd::prelude::*;

use crate::aggregate::{outcome_picks, wins, OUTCOME_COUNT};
use crate::builders::{is_full_bin, won_by};
use crate::hash::{
    amounts_hash_of, amounts_of_hash, bet_amounts_to_amounts_hash, bets_hash_of, bets_hash_value,
    is_amounts_hash, views,
};
use crate::round::Round;
use crate::math::seq_bin;
use crate::table::{row, ROW_COUNT};

verus! {

/// The amounts of a portfolio, as a hash or as a list.
pub enum BetAmounts {
    AmountHash(String),
    Amounts(Vec<Option<u32>>),
}

impl BetAmounts {
    /// The same amount for each of `length` bets.
    pub fn from_amount(amount: u32, length: usize) -> (r: BetAmounts)
        ensures
            r matches BetAmounts::Amounts(v) && v@ == Seq::new(length as nat, |i: int| Some(amount)),
    {
        let mut v: Vec<Option<u32>> = Vec::new();
        let mut k: usize = 0;
        while k < length
            invariant
                k <= length,
                v@ == Seq::new(k as nat, |i: int| Some(amount)),
            decreases length - k,
        {
            v.push(Some(amount));
            assert(v@ =~= Seq::new((k + 1) as nat, |i: int| Some(amount)));
            k = k + 1;
        }
        BetAmounts::Amounts(v)
    }
}

/// Why amounts could not be set.
#[derive(PartialEq, Eq, Structural, Clone, Copy, Debug)]
pub enum BetsError {
    /// The amounts hash is malformed.
    InvalidInput,
}

/// Whether every letter of `h` is a base-52 letter and their number a
/// multiple of three.
pub fn is_valid_amounts_hash(h: &str) -> (r: bool)
    ensures
        r == is_amounts_hash(h@),
{
    let n = h.unicode_len();
    if n % 3 != 0 {
        return false;
    }
    let mut i: usize = 0;
    while i < n
        invariant
            n == h@.len(),
            i <= n,
            forall|t: int| 0 <= t < i ==> crate::hash::is_b52_letter(#[trigger] h@[t]),
        decreases n - i,
    {
        let c = h.get_char(i);
        if !(('a' <= c && c <= 'z') || ('A' <= c && c <= 'Z')) {
            return false;
        }
        i = i + 1;
    }
    true
}

/// A portfolio: rows of a round table, with an amount for each where set.
pub struct Bets {
    pub array_indices: Vec<usize>,
    pub bet_amounts: Option<Vec<Option<u32>>>,
}

/// The pirate indices of rows of a round table.
pub open spec fn rows_of(idx: Seq<usize>) -> Seq<Seq<u8>> {
    idx.map_values(|i: usize| row(i as int))
}

impl Bets {
    /// The rows are rows of the table, and few enough to hash.
    pub open spec fn wf(&self) -> bool {
        &&& self.array_indices@.len() <= 0x1000_0000
        &&& forall|k: int| 0 <= k < self.array_indices@.len() ==> #[trigger] self.array_indices@[k] < ROW_COUNT
    }

    /// The bets' pirate indices.
    pub open spec fn picks(&self) -> Seq<Seq<u8>> {
        rows_of(self.array_indices@)
    }

    /// A portfolio of the given rows, without amounts.
    pub fn new(array_indices: Vec<usize>) -> (r: Bets)
        ensures
            r.array_indices == array_indices,
            r.bet_amounts is None,
    {
        Bets { array_indices, bet_amounts: None }
    }

    /// The two portfolios hold the same bets, in any order.
    pub fn same_bets(&self, other: &Bets) -> (r: bool)
        ensures
            r == (self.array_indices@.to_multiset() == other.array_indices@.to_multiset()),
    {
        let a = &self.array_indices;
        let b = &other.array_indices;
        let mut k: usize = 0;
        while k < a.len()
            invariant
                k <= a@.len(),
                a@ == self.array_indices@,
                b@ == other.array_indices@,
                forall|t: int| 0 <= t < k ==> occurrences(a@, #[trigger] a@[t]) == occurrences(b@, a@[t]),
            decreases a@.len() - k,
        {
            if count_of(a, a[k]) != count_of(b, a[k]) {
                proof {
                    let x = a@[k as int];
                    lemma_occurrences(a@, x);
                    lemma_occurrences(b@, x);
                    assert(a@.to_multiset().count(x) != b@.to_multiset().count(x));
                }
                return false;
            }
            k = k + 1;
        }
        let mut k: usize = 0;
        while k < b.len()
            invariant
                k <= b@.len(),
                a@ == self.array_indices@,
                b@ == other.array_indices@,
                forall|t: int| 0 <= t < a@.len() ==> occurrences(a@, #[trigger] a@[t]) == occurrences(b@, a@[t]),
                forall|t: int| 0 <= t < k ==> occurrences(a@, #[trigger] b@[t]) == occurrences(b@, b@[t]),
            decreases b@.len() - k,
        {
            if count_of(a, b[k]) != count_of(b, b[k]) {
                proof {
                    let x = b@[k as int];
                    lemma_occurrences(a@, x);
                    lemma_occurrences(b@, x);
                    assert(a@.to_multiset().count(x) != b@.to_multiset().count(x));
                }
                return false;
            }
            k = k + 1;
        }
        proof {
            broadcast use vstd::seq_lib::group_to_multiset_ensures;

            assert forall|x: usize| #[trigger] a@.to_multiset().count(x) == b@.to_multiset().count(x) by {
                lemma_occurrences(a@, x);
                lemma_occurrences(b@, x);
                if a@.contains(x) {
                    let t = choose|t: int| 0 <= t < a@.len() && a@[t] == x;
                    assert(occurrences(a@, a@[t]) == occurrences(b@, a@[t]));
                } else if b@.contains(x) {
                    let t = choose|t: int| 0 <= t < b@.len() && b@[t] == x;
                    assert(occurrences(a@, b@[t]) == occurrences(b@, b@[t]));
                }
            }
            assert(a@.to_multiset() =~= b@.to_multiset());
        }
        true
    }

    /// The number of bets.
    pub fn len(&self) -> (r: usize)
        ensures
            r == self.array_indices@.len(),
    {
        self.array_indices.len()
    }

    /// The binary of each bet.
    pub fn get_binaries(&self, round: &Round) -> (r: Vec<u32>)
        requires
            self.wf(),
            round.wf(),
        ensures
            r@.len() == self.array_indices@.len(),
            forall|k: int|
                0 <= k < r@.len() ==> #[trigger] r@[k] == seq_bin(self.picks()[k]),
    {
        let mut r: Vec<u32> = Vec::new();
        let mut k: usize = 0;
        while k < self.array_indices.len()
            invariant
                k <= self.array_indices@.len(),
                self.wf(),
                round.wf(),
                r@.len() == k,
                forall|t: int| 0 <= t < k ==> #[trigger] r@[t] == seq_bin(self.picks()[t]),
            decreases self.array_indices@.len() - k,
        {
            let i = self.array_indices[k];
            assert(i < ROW_COUNT);
            assert(self.picks()[k as int] == row(i as int));
            assert(round.table.indices@[i as int]@ == row(i as int));
            r.push(round.table.bins[i]);
            k = k + 1;
        }
        r
    }

    /// The pirate indices of each bet.
    pub fn get_indices(&self, round: &Round) -> (r: Vec<[u8; 5]>)
        requires
            self.wf(),
            round.wf(),
        ensures
            views(r@) == self.picks(),
    {
        let mut r: Vec<[u8; 5]> = Vec::new();
        let mut k: usize = 0;
        while k < self.array_indices.len()
            invariant
                k <= self.array_indices@.len(),
                self.wf(),
                round.wf(),
                views(r@) == self.picks().subrange(0, k as int),
            decreases self.array_indices@.len() - k,
        {
            let i = self.array_indices[k];
            assert(i < ROW_COUNT);
            assert(round.table.indices@[i as int]@ == row(i as int));
            let ghost r0 = r@;
            r.push(round.table.indices[i]);
            assert(views(r@) =~= views(r0).push(row(i as int)));
            assert(self.picks().subrange(0, k + 1) =~= self.picks().subrange(0, k as int).push(row(i as int)));
            k = k + 1;
        }
        assert(self.picks().subrange(0, k as int) =~= self.picks());
        r
    }

    /// The odds of each bet.
    pub fn odds_values(&self, round: &Round) -> (r: Vec<u32>)
        requires
            self.wf(),
            round.wf(),
        ensures
            r@.len() == self.array_indices@.len(),
            forall|k: int| 0 <= k < r@.len() ==> #[trigger] r@[k] == round.table.odds@[self.array_indices@[k] as int],
    {
        let mut r: Vec<u32> = Vec::new();
        let mut k: usize = 0;
        while k < self.array_indices.len()
            invariant
                k <= self.array_indices@.len(),
                self.wf(),
                round.wf(),
                r@.len() == k,
                forall|t: int| 0 <= t < k ==> #[trigger] r@[t] == round.table.odds@[self.array_indices@[t] as int],
            decreases self.array_indices@.len() - k,
        {
            let i = self.array_indices[k];
            assert(i < ROW_COUNT);
            r.push(round.table.odds[i]);
            k = k + 1;
        }
        r
    }

    /// The bets hash of the portfolio.
    pub fn bets_hash(&self, round: &Round) -> (r: String)
        requires
            self.wf(),
            round.wf(),
        ensures
            r@ == bets_hash_of(self.picks()),
    {
        let indices = self.get_indices(round);
        assert(views(indices@).len() == indices@.len());
        assert forall|k: int| 0 <= k < indices@.len() implies crate::math::valid_indices(#[trigger] indices@[k]) by {
            assert(views(indices@)[k] == indices@[k]@);
            assert(self.array_indices@[k] < ROW_COUNT);
            assert(indices@[k]@ == row(self.array_indices@[k] as int));
            crate::table::lemma_row_valid(self.array_indices@[k] as int);
        }
        bets_hash_value(indices)
    }

    /// The amounts hash of the portfolio's amounts, where set.
    pub fn amounts_hash(&self) -> (r: Option<String>)
        ensures
            self.bet_amounts is None ==> r is None,
            self.bet_amounts matches Some(v) ==> r matches Some(s) && s@ == amounts_hash_of(v@),
    {
        match &self.bet_amounts {
            Some(v) => Some(bet_amounts_to_amounts_hash(v)),
            None => None,
        }
    }

    /// Sets the amounts from a list or from an amounts hash, or removes
    /// them; an error, with nothing changed, where the hash is malformed.
    pub fn set_bet_amounts(&mut self, amounts: Option<BetAmounts>) -> (r: Result<(), BetsError>)
        ensures
            final(self).array_indices == old(self).array_indices,
            r is Err <==> (amounts matches Some(BetAmounts::AmountHash(h)) && !is_amounts_hash(h@)),
            r is Err ==> final(self).bet_amounts == old(self).bet_amounts,
            r is Ok ==> match amounts {
                Some(BetAmounts::AmountHash(h)) => final(self).bet_amounts matches Some(v) && v@
                    == amounts_of_hash(h@),
                Some(BetAmounts::Amounts(a)) => final(self).bet_amounts == Some(a),
                None => final(self).bet_amounts is None,
            },
    {
        match amounts {
            Some(BetAmounts::AmountHash(h)) => {
                if !is_valid_amounts_hash(h.as_str()) {
                    return Err(BetsError::InvalidInput);
                }
                self.bet_amounts = Some(crate::hash::amounts_hash_to_bet_amounts(h.as_str()));
            },
            Some(BetAmounts::Amounts(a)) => {
                self.bet_amounts = Some(a);
            },
            None => {
                self.bet_amounts = None;
            },
        }
        Ok(())
    }

    /// Sets each bet's amount to the round's bet amount, capped at the
    /// bet's largest amount; removes the amounts where the round has none.
    pub fn fill_bet_amounts(&mut self, round: &Round)
        requires
            old(self).wf(),
            round.wf(),
        ensures
            final(self).array_indices == old(self).array_indices,
            round.bet_amount is None ==> final(self).bet_amounts is None,
            round.bet_amount matches Some(b) ==> final(self).bet_amounts matches Some(v) && v@.len()
                == old(self).array_indices@.len() && forall|k: int|
                0 <= k < v@.len() ==> #[trigger] v@[k] == Some(
                    if b <= round.table.maxbets@[old(self).array_indices@[k] as int] {
                        b
                    } else {
                        round.table.maxbets@[old(self).array_indices@[k] as int]
                    },
                ),
    {
        match round.bet_amount {
            Some(b) => {
                let mut v: Vec<Option<u32>> = Vec::new();
                let mut k: usize = 0;
                while k < self.array_indices.len()
                    invariant
                        k <= self.array_indices@.len(),
                        self.wf(),
                        round.wf(),
                        round.bet_amount == Some(b),
                        v@.len() == k,
                        forall|t: int|
                            0 <= t < k ==> #[trigger] v@[t] == Some(
                                if b <= round.table.maxbets@[self.array_indices@[t] as int] {
                                    b
                                } else {
                                    round.table.maxbets@[self.array_indices@[t] as int]
                                },
                            ),
                    decreases self.array_indices@.len() - k,
                {
                    let i = self.array_indices[k];
                    assert(i < ROW_COUNT);
                    let m = round.table.maxbets[i];
                    v.push(Some(if b <= m { b } else { m }));
                    k = k + 1;
                }
                self.bet_amounts = Some(v);
            },
            None => {
                self.bet_amounts = None;
            },
        }
    }

    /// Every outcome of the round is won by some bet of the portfolio.
    pub fn is_bustproof(&self, round: &Round) -> (r: bool)
        requires
            self.wf(),
            round.wf(),
        ensures
            r == (forall|o: int| 0 <= o < OUTCOME_COUNT ==> won_by(self.picks(), #[trigger] outcome_picks(o))),
    {
        let indices = self.get_indices(round);
        let mut o: usize = 0;
        while o < OUTCOME_COUNT
            invariant
                o <= OUTCOME_COUNT,
                views(indices@) == self.picks(),
                forall|t: int| 0 <= t < o ==> won_by(self.picks(), #[trigger] outcome_picks(t)),
            decreases OUTCOME_COUNT - o,
        {
            let w: [u8; 5] = [
                ((o / 256) % 4 + 1) as u8,
                ((o / 64) % 4 + 1) as u8,
                ((o / 16) % 4 + 1) as u8,
                ((o / 4) % 4 + 1) as u8,
                (o % 4 + 1) as u8,
            ];
            assert(w@ =~= outcome_picks(o as int));
            let mut found = false;
            let mut k: usize = 0;
            while k < indices.len() && !found
                invariant
                    k <= indices@.len(),
                    views(indices@) == self.picks(),
                    w@ == outcome_picks(o as int),
                    found ==> won_by(self.picks(), w@),
                    !found ==> forall|t: int| 0 <= t < k ==> !wins(#[trigger] self.picks()[t], w@),
                decreases indices@.len() - k + (if found { 0int } else { 1int }),
            {
                assert(views(indices@)[k as int] == indices@[k as int]@);
                if crate::aggregate::bet_wins(&indices[k], &w) {
                    found = true;
                }
                k = k + 1;
            }
            if !found {
                assert(!won_by(self.picks(), w@));
                return false;
            }
            o = o + 1;
        }
        true
    }

    /// Every bet picks a pirate in each arena.
    pub fn is_crazy(&self, round: &Round) -> (r: bool)
        requires
            self.wf(),
            round.wf(),
        ensures
            r == forall|k: int| 0 <= k < self.array_indices@.len() ==> is_full_bin(
                #[trigger] seq_bin(self.picks()[k]),
            ),
    {
        let bins = self.get_binaries(round);
        let mut k: usize = 0;
        while k < bins.len()
            invariant
                k <= bins@.len(),
                bins@.len() == self.array_indices@.len(),
                forall|t: int| 0 <= t < bins@.len() ==> #[trigger] bins@[t] == seq_bin(self.picks()[t]),
                forall|t: int| 0 <= t < k ==> is_full_bin(#[trigger] seq_bin(self.picks()[t])),
            decreases bins@.len() - k,
        {
            let b = bins[k];
            if !(crate::builders::is_pick_binary(b) && crate::builders::arenas_picked(b) == 5) {
                assert(!is_full_bin(seq_bin(self.picks()[k as int])));
                return false;
            }
            k = k + 1;
        }
        true
    }

    /// Some bet picks a pirate in each arena and every bet picks only
    /// pirates of it.
    pub fn is_gambit(&self, round: &Round) -> (r: bool)
        requires
            self.wf(),
            round.wf(),
        ensures
            r == exists|g: int|
                0 <= g < self.array_indices@.len() && is_full_bin(#[trigger] seq_bin(self.picks()[g]))
                    && within_all(self.picks(), seq_bin(self.picks()[g])),
    {
        let bins = self.get_binaries(round);
        let mut g: usize = 0;
        while g < bins.len()
            invariant
                g <= bins@.len(),
                bins@.len() == self.array_indices@.len(),
                forall|t: int| 0 <= t < bins@.len() ==> #[trigger] bins@[t] == seq_bin(self.picks()[t]),
                forall|t: int| 0 <= t < g ==> !(is_full_bin(#[trigger] seq_bin(self.picks()[t]))
                    && within_all(self.picks(), seq_bin(self.picks()[t]))),
            decreases bins@.len() - g,
        {
            let b = bins[g];
            if crate::builders::is_pick_binary(b) && crate::builders::arenas_picked(b) == 5 {
                let mut all = true;
                let mut k: usize = 0;
                while k < bins.len() && all
                    invariant
                        k <= bins@.len(),
                        bins@.len() == self.array_indices@.len(),
                        self.picks().len() == bins@.len(),
                        forall|t: int| 0 <= t < bins@.len() ==> #[trigger] bins@[t] == seq_bin(self.picks()[t]),
                        all ==> forall|t: int| 0 <= t < k ==> #[trigger] bins@[t] & b == bins@[t],
                        !all ==> !within_all(self.picks(), b),
                    decreases bins@.len() - k + (if all { 1int } else { 0int }),
                {
                    if bins[k] & b != bins[k] {
                        all = false;
                        assert(seq_bin(self.picks()[k as int]) & b != seq_bin(self.picks()[k as int]));
                    }
                    k = k + 1;
                }
                if all {
                    assert forall|t: int| 0 <= t < self.picks().len() implies #[trigger] seq_bin(
                        self.picks()[t],
                    ) & b == seq_bin(self.picks()[t]) by {
                        assert(bins@[t] & b == bins@[t]);
                    }
                    assert(within_all(self.picks(), b));
                    return true;
                }
            }
            g = g + 1;
        }
        false
    }
}


/// The number of times `x` occurs in `s`.
pub open spec fn occurrences(s: Seq<usize>, x: usize) -> nat
    decreases s.len(),
{
    if s.len() == 0 {
        0
    } else {
        occurrences(s.drop_last(), x) + if s.last() == x {
            1nat
        } else {
            0nat
        }
    }
}

proof fn lemma_occurrences(s: Seq<usize>, x: usize)
    ensures
        occurrences(s, x) == s.to_multiset().count(x),
    decreases s.len(),
{
    broadcast use vstd::seq_lib::group_to_multiset_ensures;

    if s.len() > 0 {
        lemma_occurrences(s.drop_last(), x);
        assert(s.drop_last().push(s.last()) =~= s);
    }
}

fn count_of(v: &Vec<usize>, x: usize) -> (r: usize)
    ensures
        r == occurrences(v@, x),
{
    let mut r: usize = 0;
    let mut k: usize = 0;
    while k < v.len()
        invariant
            k <= v@.len(),
            r == occurrences(v@.subrange(0, k as int), x),
            r <= k,
        decreases v@.len() - k,
    {
        assert(v@.subrange(0, k + 1).drop_last() =~= v@.subrange(0, k as int));
        if v[k] == x {
            r = r + 1;
        }
        k = k + 1;
    }
    assert(v@.subrange(0, k as int) =~= v@);
    r
}

/// Every bet picks only pirates of `g`.
pub open spec fn within_all(bets: Seq<Seq<u8>>, g: u32) -> bool {
    forall|k: int| 0 <= k < bets.len() ==> #[trigger] seq_bin(bets[k]) & g == seq_bin(bets[k])
}

} // verus!
