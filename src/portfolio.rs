//! The round's portfolio builders and payouts.
use vstd::prelude::*;

use crate::aggregate::{win_total, wins};
use crate::bets::Bets;
use crate::builders::{
    all_rows, best_full_binary, bets_from_draws, bustproof_bets, gambit_indices, is_full_bin, is_top,
    kept_draws, lemma_full_bin, odds_keys, max_ter_indices, rows_holding, rows_reaching, rows_within,
    tenbet_indices, units_indices, winning_binary, BuildError,
};
use crate::hash::{amounts_hash_of, bets_hash_of, views};
use crate::text::{decimal, push_decimal, push_str};
use crate::math::{bin_indices, is_bet_bin, is_bet_indices, seq_bin};
use crate::round::Round;
use crate::table::{row, row_index, ROW_COUNT};

verus! {

/// The amounts that a portfolio of rows gets from the round: the round's
/// bet amount capped at each row's largest amount, where the round has one.
pub open spec fn filled(round: &Round, rows: Seq<usize>) -> Option<Seq<Option<u32>>> {
    match round.bet_amount {
        Some(b) => Some(
            Seq::new(
                rows.len(),
                |k: int|
                    Some(
                        if b <= round.table.maxbets@[rows[k] as int] {
                            b
                        } else {
                            round.table.maxbets@[rows[k] as int]
                        },
                    ),
            ),
        ),
        None => None,
    }
}

/// The amounts of a portfolio as a sequence.
pub open spec fn amounts_view(a: Option<Vec<Option<u32>>>) -> Option<Seq<Option<u32>>> {
    match a {
        Some(v) => Some(v@),
        None => None,
    }
}

/// A portfolio of exactly these rows, with the round's amounts.
pub open spec fn portfolio_of(round: &Round, b: Bets, rows: Seq<usize>) -> bool {
    &&& b.array_indices@ == rows
    &&& amounts_view(b.bet_amounts) == filled(round, rows)
}

impl Round {
    /// The portfolio of the given rows, with amounts filled in.
    fn portfolio(&self, rows: Vec<usize>) -> (r: Bets)
        requires
            self.wf(),
            rows@.len() <= 0x1000_0000,
            forall|k: int| 0 <= k < rows@.len() ==> #[trigger] rows@[k] < ROW_COUNT,
        ensures
            portfolio_of(self, r, rows@),
            r.wf(),
    {
        let mut b = Bets::new(rows);
        b.fill_bet_amounts(self);
        proof {
            if b.bet_amounts is Some {
                assert(b.bet_amounts.unwrap()@ =~= filled(self, rows@).unwrap());
            }
        }
        b
    }

    /// The portfolio of the given rows of the round table.
    pub fn make_bets_from_array_indices(&self, indices: Vec<usize>) -> (r: Bets)
        requires
            self.wf(),
            indices@.len() <= 0x1000_0000,
            forall|k: int| 0 <= k < indices@.len() ==> #[trigger] indices@[k] < ROW_COUNT,
        ensures
            portfolio_of(self, r, indices@),
    {
        self.portfolio(indices)
    }

    /// The portfolio of the given bets, as pirate indices.
    pub fn make_bets_from_indices(&self, indices: Vec<[u8; 5]>) -> (r: Bets)
        requires
            self.wf(),
            indices@.len() <= 0x1000_0000,
            forall|k: int| 0 <= k < indices@.len() ==> is_bet_indices(#[trigger] indices@[k]),
        ensures
            r.array_indices@.len() == indices@.len(),
            r.picks() == views(indices@),
            portfolio_of(self, r, r.array_indices@),
    {
        let mut rows: Vec<usize> = Vec::new();
        let mut k: usize = 0;
        while k < indices.len()
            invariant
                k <= indices@.len(),
                forall|t: int| 0 <= t < indices@.len() ==> is_bet_indices(#[trigger] indices@[t]),
                rows@.len() == k,
                forall|t: int| 0 <= t < k ==> #[trigger] rows@[t] < ROW_COUNT && row(rows@[t] as int) == indices@[t]@,
            decreases indices@.len() - k,
        {
            assert(is_bet_indices(indices@[k as int]));
            rows.push(row_index(indices[k]));
            k = k + 1;
        }
        let r = self.portfolio(rows);
        assert(r.picks() =~= views(indices@));
        r
    }

    /// The portfolio of the given bets, as binaries.
    pub fn make_bets_from_binaries(&self, binaries: Vec<u32>) -> (r: Bets)
        requires
            self.wf(),
            binaries@.len() <= 0x1000_0000,
            forall|k: int| 0 <= k < binaries@.len() ==> is_bet_bin(#[trigger] binaries@[k]),
        ensures
            r.array_indices@.len() == binaries@.len(),
            forall|k: int| 0 <= k < binaries@.len() ==> seq_bin(#[trigger] r.picks()[k]) == binaries@[k],
            portfolio_of(self, r, r.array_indices@),
    {
        let mut rows: Vec<usize> = Vec::new();
        let mut k: usize = 0;
        while k < binaries.len()
            invariant
                k <= binaries@.len(),
                forall|t: int| 0 <= t < binaries@.len() ==> is_bet_bin(#[trigger] binaries@[t]),
                rows@.len() == k,
                forall|t: int| 0 <= t < k ==> #[trigger] rows@[t] < ROW_COUNT && seq_bin(row(rows@[t] as int)) == binaries@[t],
            decreases binaries@.len() - k,
        {
            let bin = binaries[k];
            assert(is_bet_bin(bin));
            proof {
                crate::math::lemma_binary_round_trip(bin);
            }
            let b = crate::math::binary_to_indices(bin);
            assert(is_bet_indices(b)) by {
                let a = choose|a: int| 0 <= a < 5 && #[trigger] bin_indices(bin)[a] != 0;
                assert(b@[a] != 0);
            }
            rows.push(row_index(b));
            k = k + 1;
        }
        let r = self.portfolio(rows);
        assert forall|k: int| 0 <= k < binaries@.len() implies seq_bin(#[trigger] r.picks()[k]) == binaries@[k] by {
            assert(r.picks()[k] == row(r.array_indices@[k] as int));
        }
        r
    }

    /// The portfolio that a bets hash stands for; an error where the hash
    /// holds a letter past `y`.
    pub fn make_bets_from_hash(&self, bets_hash: &str) -> (r: Result<Bets, BuildError>)
        requires
            self.wf(),
            bets_hash@.len() <= 0x1000_0000,
        ensures
            r is Err <==> !crate::hash::is_bets_hash(bets_hash@),
            r matches Ok(b) ==> b.picks() == crate::hash::bets_of_hash(bets_hash@) && portfolio_of(
                self,
                b,
                b.array_indices@,
            ),
    {
        if !is_valid_bets_hash(bets_hash) {
            return Err(BuildError::InvalidInput);
        }
        let indices = crate::hash::bets_hash_to_bet_indices(bets_hash);
        proof {
            let d = crate::hash::hash_digits(bets_hash@);
            assert(views(indices@) == crate::hash::bets_of_hash(bets_hash@));
            crate::hash::lemma_kept(crate::hash::chunks(d));
            assert forall|k: int| 0 <= k < indices@.len() implies is_bet_indices(#[trigger] indices@[k]) by {
                assert(views(indices@)[k] == indices@[k]@);
                assert(crate::hash::picks_any(indices@[k]@));
                let a = choose|a: int| 0 <= a < indices@[k]@.len() && indices@[k]@[a] != 0;
                assert(indices@[k]@[a] != 0);
            }
        }
        Ok(self.make_bets_from_indices(indices))
    }

    /// The rows of highest expected return, as many as a portfolio holds;
    /// `keys` ranks the rows by expected return.
    pub fn make_max_ter_bets(&self, keys: &Vec<u64>) -> (r: Bets)
        requires
            self.wf(),
            keys@.len() == ROW_COUNT,
        ensures
            is_top(keys@, all_rows(ROW_COUNT as nat), self.max_bets() as nat, self.reversed(), r.array_indices@),
            portfolio_of(self, r, r.array_indices@),
    {
        let rows = max_ter_indices(keys, self.max_amount_of_bets(), self.modifier.is_reverse());
        self.portfolio(rows)
    }

    /// The rows of highest expected return among those whose odds reach
    /// `units`; `None` where no row does.
    pub fn make_units_bets(&self, keys: &Vec<u64>, units: u32) -> (r: Option<Bets>)
        requires
            self.wf(),
            keys@.len() == ROW_COUNT,
        ensures
            r is None <==> forall|i: int| 0 <= i < ROW_COUNT ==> self.table.odds@[i] < units,
            r matches Some(b) ==> is_top(
                keys@,
                rows_reaching(self.table.odds@, units),
                self.max_bets() as nat,
                self.reversed(),
                b.array_indices@,
            ) && portfolio_of(self, b, b.array_indices@),
    {
        let count = self.max_amount_of_bets();
        match units_indices(keys, &self.table.odds, units, count, self.modifier.is_reverse()) {
            Some(rows) => Some(self.portfolio(rows)),
            None => None,
        }
    }

    /// The rows of highest expected return among those that hold every
    /// pirate of `pirates_binary`; an error unless it picks one to three
    /// pirates in different arenas.
    pub fn make_tenbet_bets(&self, keys: &Vec<u64>, pirates_binary: u32) -> (r: Result<Bets, BuildError>)
        requires
            self.wf(),
            keys@.len() == ROW_COUNT,
        ensures
            r is Err <==> !crate::builders::is_tenbet_base(pirates_binary),
            r matches Ok(b) ==> is_top(
                keys@,
                rows_holding(self.table.bins@, pirates_binary),
                self.max_bets() as nat,
                self.reversed(),
                b.array_indices@,
            ) && portfolio_of(self, b, b.array_indices@),
    {
        let count = self.max_amount_of_bets();
        match tenbet_indices(keys, &self.table.bins, pirates_binary, count, self.modifier.is_reverse()) {
            Ok(rows) => Ok(self.portfolio(rows)),
            Err(e) => Err(e),
        }
    }

    /// The rows of highest odds among those that pick only pirates of the
    /// full bet `pirates_binary`.
    pub fn make_gambit_bets(&self, pirates_binary: u32) -> (r: Bets)
        requires
            self.wf(),
            is_full_bin(pirates_binary),
        ensures
            is_top(
                odds_keys(self.table.odds@),
                rows_within(self.table.bins@, pirates_binary),
                self.max_bets() as nat,
                self.reversed(),
                r.array_indices@,
            ),
            portfolio_of(self, r, r.array_indices@),
    {
        let rows = gambit_indices(
            &self.table.odds,
            &self.table.bins,
            pirates_binary,
            self.max_amount_of_bets(),
            self.modifier.is_reverse(),
        );
        self.portfolio(rows)
    }

    /// The gambit around the full bet of highest expected return.
    pub fn make_best_gambit_bets(&self, keys: &Vec<u64>) -> (r: Bets)
        requires
            self.wf(),
            keys@.len() == ROW_COUNT,
        ensures
            exists|g: int|
                0 <= g < ROW_COUNT && is_full_bin(#[trigger] self.table.bins@[g]) && is_top(
                    odds_keys(self.table.odds@),
                    rows_within(self.table.bins@, self.table.bins@[g]),
                    self.max_bets() as nat,
                    self.reversed(),
                    r.array_indices@,
                ) && forall|j: int|
                    0 <= j < ROW_COUNT && j != g && is_full_bin(#[trigger] self.table.bins@[j])
                        ==> crate::builders::ranks_before(keys@, g, j, self.reversed()),
            portfolio_of(self, r, r.array_indices@),
    {
        proof {
            assert(self.table.indices@[780]@ == row(780));
            assert(row(780) =~= seq![1u8, 1, 1, 1, 1]);
            lemma_full_bin(row(780));
        }
        match best_full_binary(keys, &self.table.bins, self.modifier.is_reverse()) {
            Some(b) => self.make_gambit_bets(b),
            None => {
                assert(!is_full_bin(self.table.bins@[780]));
                self.portfolio(Vec::new())
            },
        }
    }

    /// The gambit around the winners, once the round is over.
    pub fn make_winning_gambit_bets(&self) -> (r: Option<Bets>)
        requires
            self.wf(),
        ensures
            r is Some <==> forall|a: int| 0 <= a < 5 ==> #[trigger] self.data.winners@[a] != 0,
            r matches Some(b) ==> is_top(
                odds_keys(self.table.odds@),
                rows_within(self.table.bins@, seq_bin(self.data.winners@)),
                self.max_bets() as nat,
                self.reversed(),
                b.array_indices@,
            ) && portfolio_of(self, b, b.array_indices@),
    {
        match winning_binary(&self.data.winners) {
            Some(b) => {
                proof {
                    assert(crate::math::valid_seq(self.data.winners@)) by {
                        assert(forall|a: int| 0 <= a < 5 ==> #[trigger] self.data.winners@[a] <= 4);
                    }
                    lemma_full_bin(self.data.winners@);
                }
                Some(self.make_gambit_bets(b))
            },
            None => {
                assert(exists|a: int| 0 <= a < 5 && !(1 <= #[trigger] self.data.winners@[a] <= 4));
                None
            },
        }
    }

    /// A portfolio that wins on every outcome, over the positive arenas;
    /// `None` where no arena is positive.
    pub fn make_bustproof_bets(&self) -> (r: Option<Bets>)
        requires
            self.wf(),
        ensures
            r is None <==> crate::builders::positive_count(self.odds, 5) == 0,
            r matches Some(b) ==> crate::builders::covers_all(b.picks()) && portfolio_of(
                self,
                b,
                b.array_indices@,
            ),
    {
        match bustproof_bets(&self.odds) {
            Some(v) => {
                Some(self.make_bets_from_indices(v))
            },
            None => None,
        }
    }

    /// The portfolio of distinct full bets that random draws give, as many
    /// as a portfolio holds.
    pub fn make_crazy_bets(&self, draws: &Vec<u32>) -> (r: Bets)
        requires
            self.wf(),
        ensures
            r.array_indices@.len() == kept_draws(draws@, self.max_bets() as nat, true, draws@.len() as int).len(),
            forall|k: int|
                0 <= k < r.array_indices@.len() ==> seq_bin(#[trigger] r.picks()[k]) == kept_draws(
                    draws@,
                    self.max_bets() as nat,
                    true,
                    draws@.len() as int,
                )[k],
            portfolio_of(self, r, r.array_indices@),
    {
        let bins = bets_from_draws(draws, self.max_amount_of_bets(), true);
        proof {
            crate::builders::lemma_kept_bets(draws@, self.max_bets() as nat, true, draws@.len() as int);
        }
        self.make_bets_from_binaries(bins)
    }

    /// The portfolio of distinct non-empty bets that random draws give, as
    /// many as a portfolio holds.
    pub fn make_random_bets(&self, draws: &Vec<u32>) -> (r: Bets)
        requires
            self.wf(),
        ensures
            r.array_indices@.len() == kept_draws(draws@, self.max_bets() as nat, false, draws@.len() as int).len(),
            forall|k: int|
                0 <= k < r.array_indices@.len() ==> seq_bin(#[trigger] r.picks()[k]) == kept_draws(
                    draws@,
                    self.max_bets() as nat,
                    false,
                    draws@.len() as int,
                )[k],
            portfolio_of(self, r, r.array_indices@),
    {
        let bins = bets_from_draws(draws, self.max_amount_of_bets(), false);
        proof {
            crate::builders::lemma_kept_bets(draws@, self.max_bets() as nat, false, draws@.len() as int);
        }
        self.make_bets_from_binaries(bins)
    }

    /// The most bets a portfolio of this round holds.
    pub open spec fn max_bets(&self) -> usize {
        if self.modifier.value & crate::modifier::CHARITY_CORNER != 0 {
            10usize
        } else {
            15usize
        }
    }

    /// The builders rank in reverse.
    pub open spec fn reversed(&self) -> bool {
        self.modifier.value & crate::modifier::REVERSE != 0
    }
}

/// Whether every letter of `h` is a letter of a bets hash.
pub fn is_valid_bets_hash(h: &str) -> (r: bool)
    ensures
        r == crate::hash::is_bets_hash(h@),
{
    let n = h.unicode_len();
    let mut i: usize = 0;
    while i < n
        invariant
            n == h@.len(),
            i <= n,
            forall|t: int| 0 <= t < i ==> crate::hash::is_pair_letter(#[trigger] h@[t]),
        decreases n - i,
    {
        let c = h.get_char(i);
        if !('a' <= c && c <= 'y') {
            return false;
        }
        i = i + 1;
    }
    true
}

/// The link to a round and a portfolio: the site (where asked for), the
/// round, the bets hash and amounts hash of the portfolio, and the round's
/// bet amount.
pub open spec fn url_text(
    round: u16,
    bets: Option<(Seq<char>, Option<Seq<char>>)>,
    bet_amount: Option<u32>,
    include_domain: bool,
) -> Seq<char> {
    (if include_domain {
        "https://neofood.club"@
    } else {
        Seq::empty()
    }) + "/?round="@ + decimal(round as nat) + match bets {
        Some((b, a)) => "&b="@ + b + match a {
            Some(a) => "&a="@ + a,
            None => Seq::empty(),
        },
        None => Seq::empty(),
    } + match bet_amount {
        Some(x) => "&bet_amount="@ + decimal(x as nat),
        None => Seq::empty(),
    }
}

/// The odds of each of the given rows.
pub open spec fn row_odds(round: &Round, rows: Seq<usize>) -> Seq<u32> {
    Seq::new(rows.len(), |k: int| round.table.odds@[rows[k] as int])
}

/// The amount of bet `k`, 0 where there is none.
pub open spec fn amount_at(amounts: Option<Vec<Option<u32>>>, k: int) -> nat {
    match amounts {
        Some(v) => if 0 <= k < v@.len() {
            match v@[k] {
                Some(x) => x as nat,
                None => 0,
            }
        } else {
            0
        },
        None => 0,
    }
}

/// What bet `k` pays in NP when it wins: its amount times its odds, up to
/// the payout ceiling.
pub open spec fn np_of(amount: nat, odds: nat) -> nat {
    if amount * odds <= crate::table::MAX_PAYOUT {
        amount * odds
    } else {
        crate::table::MAX_PAYOUT as nat
    }
}

/// The NP that the first `n` bets win under the winners `w`.
pub open spec fn np_total(
    picks: Seq<Seq<u8>>,
    odds: Seq<u32>,
    amounts: Option<Vec<Option<u32>>>,
    w: Seq<u8>,
    n: int,
) -> nat
    decreases n,
{
    if n <= 0 {
        0
    } else {
        np_total(picks, odds, amounts, w, n - 1) + if wins(picks[n - 1], w) {
            np_of(amount_at(amounts, n - 1), odds[n - 1] as nat)
        } else {
            0
        }
    }
}

proof fn lemma_np_total_bound(
    picks: Seq<Seq<u8>>,
    odds: Seq<u32>,
    amounts: Option<Vec<Option<u32>>>,
    w: Seq<u8>,
    n: int,
)
    requires
        n >= 0,
    ensures
        np_total(picks, odds, amounts, w, n) <= n * crate::table::MAX_PAYOUT,
    decreases n,
{
    if n > 0 {
        lemma_np_total_bound(picks, odds, amounts, w, n - 1);
    }
}

proof fn lemma_odds_total_rows(round: &Round, rows: Seq<usize>, n: int)
    requires
        round.wf(),
        0 <= n <= rows.len(),
        forall|k: int| 0 <= k < rows.len() ==> #[trigger] rows[k] < ROW_COUNT,
    ensures
        crate::aggregate::odds_total(row_odds(round, rows), n) <= n * 371293,
    decreases n,
{
    if n > 0 {
        lemma_odds_total_rows(round, rows, n - 1);
        let i = rows[n - 1] as int;
        assert(round.table.indices@[i]@ == row(i));
        crate::table::lemma_row_odds_bound(round.odds, i);
    }
}

/// The sum of the first `n` amounts of a portfolio.
pub open spec fn amounts_total(amounts: Option<Vec<Option<u32>>>, n: int) -> nat
    decreases n,
{
    if n <= 0 {
        0
    } else {
        amounts_total(amounts, n - 1) + amount_at(amounts, n - 1)
    }
}

proof fn lemma_amounts_total_bound(amounts: Option<Vec<Option<u32>>>, n: int)
    requires
        n >= 0,
    ensures
        amounts_total(amounts, n) <= n * 0xFFFF_FFFF,
    decreases n,
{
    if n > 0 {
        lemma_amounts_total_bound(amounts, n - 1);
        assert(amount_at(amounts, n - 1) <= 0xFFFF_FFFF);
    }
}

impl Round {
    /// The NP that a portfolio wins under the winners `w`.
    fn np_under(&self, bets: &Bets, indices: &Vec<[u8; 5]>, odds: &Vec<u32>, w: &[u8; 5]) -> (r: u64)
        requires
            self.wf(),
            bets.wf(),
            bets.array_indices@.len() <= 4000,
            views(indices@) == bets.picks(),
            odds@ == row_odds(self, bets.array_indices@),
        ensures
            r == np_total(bets.picks(), odds@, bets.bet_amounts, w@, bets.array_indices@.len() as int),
    {
        assert(views(indices@).len() == indices@.len());
        assert(bets.picks().len() == bets.array_indices@.len());
        let n = indices.len();
        let mut total: u64 = 0;
        let mut k: usize = 0;
        while k < n
            invariant
                n == indices@.len(),
                n == bets.array_indices@.len(),
                n <= 4000,
                views(indices@) == bets.picks(),
                odds@ == row_odds(self, bets.array_indices@),
                k <= n,
                total == np_total(bets.picks(), odds@, bets.bet_amounts, w@, k as int),
            decreases n - k,
        {
            proof {
                lemma_np_total_bound(bets.picks(), odds@, bets.bet_amounts, w@, k + 1);
            }
            assert(views(indices@)[k as int] == indices@[k as int]@);
            if crate::aggregate::bet_wins(&indices[k], w) {
                let a: u64 = match &bets.bet_amounts {
                    Some(v) => if k < v.len() {
                        match v[k] {
                            Some(x) => x as u64,
                            None => 0,
                        }
                    } else {
                        0
                    },
                    None => 0,
                };
                assert(a == amount_at(bets.bet_amounts, k as int));
                let o = odds[k] as u64;
                assert(a * o <= 0xFFFF_FFFF * 0xFFFF_FFFF) by (nonlinear_arith)
                    requires
                        a <= 0xFFFF_FFFF,
                        o <= 0xFFFF_FFFF,
                ;
                let p = a * o;
                let won: u64 = if p <= crate::table::MAX_PAYOUT as u64 {
                    p
                } else {
                    crate::table::MAX_PAYOUT as u64
                };
                total = total + won;
            }
            k = k + 1;
        }
        total
    }

    /// The portfolio has amounts and wins more NP than it stakes on every
    /// outcome of the round.
    pub fn is_guaranteed_win(&self, bets: &Bets) -> (r: bool)
        requires
            self.wf(),
            bets.wf(),
            bets.array_indices@.len() <= 4000,
        ensures
            r == (bets.bet_amounts is Some && forall|o: int|
                0 <= o < crate::aggregate::OUTCOME_COUNT ==> np_total(
                    bets.picks(),
                    row_odds(self, bets.array_indices@),
                    bets.bet_amounts,
                    #[trigger] crate::aggregate::outcome_picks(o),
                    bets.array_indices@.len() as int,
                ) > amounts_total(bets.bet_amounts, bets.array_indices@.len() as int)),
    {
        if bets.bet_amounts.is_none() {
            return false;
        }
        let indices = bets.get_indices(self);
        let odds = bets.odds_values(self);
        assert(odds@ =~= row_odds(self, bets.array_indices@));
        let n = bets.array_indices.len();
        let mut stake: u64 = 0;
        let mut k: usize = 0;
        while k < n
            invariant
                n == bets.array_indices@.len(),
                n <= 4000,
                k <= n,
                stake == amounts_total(bets.bet_amounts, k as int),
            decreases n - k,
        {
            proof {
                lemma_amounts_total_bound(bets.bet_amounts, k + 1);
            }
            let a: u64 = match &bets.bet_amounts {
                Some(v) => if k < v.len() {
                    match v[k] {
                        Some(x) => x as u64,
                        None => 0,
                    }
                } else {
                    0
                },
                None => 0,
            };
            assert(a == amount_at(bets.bet_amounts, k as int));
            stake = stake + a;
            k = k + 1;
        }
        let mut o: usize = 0;
        while o < crate::aggregate::OUTCOME_COUNT
            invariant
                self.wf(),
                bets.wf(),
                n == bets.array_indices@.len(),
                n <= 4000,
                views(indices@) == bets.picks(),
                odds@ == row_odds(self, bets.array_indices@),
                stake == amounts_total(bets.bet_amounts, n as int),
                o <= crate::aggregate::OUTCOME_COUNT,
                forall|t: int|
                    0 <= t < o ==> np_total(
                        bets.picks(),
                        odds@,
                        bets.bet_amounts,
                        #[trigger] crate::aggregate::outcome_picks(t),
                        n as int,
                    ) > stake,
            decreases crate::aggregate::OUTCOME_COUNT - o,
        {
            let w: [u8; 5] = [
                ((o / 256) % 4 + 1) as u8,
                ((o / 64) % 4 + 1) as u8,
                ((o / 16) % 4 + 1) as u8,
                ((o / 4) % 4 + 1) as u8,
                (o % 4 + 1) as u8,
            ];
            assert(w@ =~= crate::aggregate::outcome_picks(o as int));
            if self.np_under(bets, &indices, &odds, &w) <= stake {
                return false;
            }
            o = o + 1;
        }
        true
    }

    /// The link to this round and, where given, a portfolio.
    pub fn make_url(&self, bets: Option<&Bets>, include_domain: bool) -> (r: String)
        requires
            self.wf(),
            bets matches Some(b) ==> b.wf(),
        ensures
            r@ == url_text(
                self.data.round,
                match bets {
                    Some(b) => Some(
                        (
                            bets_hash_of(b.picks()),
                            match b.bet_amounts {
                                Some(v) => Some(amounts_hash_of(v@)),
                                None => None,
                            },
                        ),
                    ),
                    None => None,
                },
                self.bet_amount,
                include_domain,
            ),
    {
        let mut s = String::new();
        if include_domain {
            push_str(&mut s, "https://neofood.club");
        }
        push_str(&mut s, "/?round=");
        push_decimal(&mut s, self.data.round as u32);
        match bets {
            Some(b) => {
                push_str(&mut s, "&b=");
                let h = b.bets_hash(self);
                push_str(&mut s, h.as_str());
                match b.amounts_hash() {
                    Some(a) => {
                        push_str(&mut s, "&a=");
                        push_str(&mut s, a.as_str());
                    },
                    None => {},
                }
            },
            None => {},
        }
        match self.bet_amount {
            Some(x) => {
                push_str(&mut s, "&bet_amount=");
                push_decimal(&mut s, x);
            },
            None => {},
        }
        assert(s@ =~= url_text(
            self.data.round,
            match bets {
                Some(b) => Some(
                    (
                        bets_hash_of(b.picks()),
                        match b.bet_amounts {
                            Some(v) => Some(amounts_hash_of(v@)),
                            None => None,
                        },
                    ),
                ),
                None => None,
            },
            self.bet_amount,
            include_domain,
        ));
        s
    }

    /// The odds units that a portfolio wins: the sum of the odds of its
    /// winning bets once the round is over, else 0.
    pub fn get_win_units(&self, bets: &Bets) -> (r: u32)
        requires
            self.wf(),
            bets.wf(),
            bets.array_indices@.len() <= 10000,
        ensures
            r == if forall|a: int| 0 <= a < 5 ==> #[trigger] self.data.winners@[a] != 0 {
                win_total(
                    bets.picks(),
                    row_odds(self, bets.array_indices@),
                    self.data.winners@,
                    bets.array_indices@.len() as int,
                )
            } else {
                0
            },
    {
        if !self.is_over() {
            return 0;
        }
        let indices = bets.get_indices(self);
        let odds = bets.odds_values(self);
        assert(views(indices@).len() == indices@.len());
        assert(bets.picks().len() == bets.array_indices@.len());
        proof {
            lemma_odds_total_rows(self, bets.array_indices@, bets.array_indices@.len() as int);
            assert(odds@ =~= row_odds(self, bets.array_indices@));
        }
        crate::aggregate::winnings(&indices, &odds, &self.data.winners)
    }

    /// The NP that a portfolio wins: for each winning bet its amount times
    /// its odds, up to the payout ceiling, once the round is over; 0 before,
    /// or without amounts.
    pub fn get_win_np(&self, bets: &Bets) -> (r: u32)
        requires
            self.wf(),
            bets.wf(),
            bets.array_indices@.len() <= 4000,
        ensures
            r == if bets.bet_amounts is Some && forall|a: int|
                0 <= a < 5 ==> #[trigger] self.data.winners@[a] != 0 {
                np_total(
                    bets.picks(),
                    row_odds(self, bets.array_indices@),
                    bets.bet_amounts,
                    self.data.winners@,
                    bets.array_indices@.len() as int,
                )
            } else {
                0
            },
    {
        if !self.is_over() {
            return 0;
        }
        if bets.bet_amounts.is_none() {
            return 0;
        }
        let indices = bets.get_indices(self);
        let odds = bets.odds_values(self);
        assert(odds@ =~= row_odds(self, bets.array_indices@));
        let total = self.np_under(bets, &indices, &odds, &self.data.winners);
        proof {
            lemma_np_total_bound(
                bets.picks(),
                odds@,
                bets.bet_amounts,
                self.data.winners@,
                bets.array_indices@.len() as int,
            );
        }
        total as u32
    }
}

} // verus!
