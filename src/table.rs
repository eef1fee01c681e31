//! The round table: every non-empty bet of a round, in a fixed order, with
//! its binary, its odds and the largest amount worth placing on it.
use vstd::prelude::*;

use crate::math::{lemma_seq_round_trip, pirates_binary, seq_bin, valid_index, valid_seq};

verus! {

/// The number of non-empty bets.
pub const ROW_COUNT: usize = 3124;

/// The payout ceiling of a single bet.
pub const MAX_PAYOUT: u32 = 1_000_000;

/// Odds of a round: row per arena, column 0 unused, columns 1 to 4 the
/// pirates' odds, each from 2 to 13.
pub open spec fn valid_odds(odds: [[u8; 5]; 5]) -> bool {
    forall|a: int, i: int| 0 <= a < 5 && 1 <= i < 5 ==> 2 <= #[trigger] odds@[a]@[i] <= 13
}

/// The pirate indices of the number `n` written with five base-5 digits,
/// the last arena fastest.
pub open spec fn row_digits(n: int) -> Seq<u8> {
    seq![
        ((n / 625) % 5) as u8,
        ((n / 125) % 5) as u8,
        ((n / 25) % 5) as u8,
        ((n / 5) % 5) as u8,
        (n % 5) as u8,
    ]
}

/// The pirate indices of row `i`: the `i + 1`-th tuple of `{0..4}^5` in
/// lexicographic order, the all-zero tuple left out.
pub open spec fn row(i: int) -> Seq<u8> {
    row_digits(i + 1)
}

/// The odds that one arena of a bet contributes: 1 where it picks no pirate.
pub open spec fn arena_factor(odds: [[u8; 5]; 5], a: int, p: u8) -> nat {
    if p == 0 {
        1
    } else {
        odds@[a]@[p as int] as nat
    }
}

/// The odds of a bet: the product of its picks' odds.
pub open spec fn bet_odds(odds: [[u8; 5]; 5], b: Seq<u8>) -> nat {
    arena_factor(odds, 0, b[0]) * arena_factor(odds, 1, b[1]) * arena_factor(odds, 2, b[2])
        * arena_factor(odds, 3, b[3]) * arena_factor(odds, 4, b[4])
}

/// The smallest amount whose winnings at odds `o` reach the payout ceiling.
pub open spec fn max_bet(o: nat) -> nat {
    ((MAX_PAYOUT as int + o - 1) / (o as int)) as nat
}

/// The integer columns of the round table.
pub struct RoundTable {
    /// The pirate indices of each row.
    pub indices: Vec<[u8; 5]>,
    /// The binary of each row.
    pub bins: Vec<u32>,
    /// The odds of each row.
    pub odds: Vec<u32>,
    /// The largest amount worth placing on each row.
    pub maxbets: Vec<u32>,
}

impl RoundTable {
    /// The table holds, row by row, the bets of `row` with their binaries,
    /// odds and largest amounts under the odds matrix `odds`.
    pub open spec fn wf(&self, odds: [[u8; 5]; 5]) -> bool {
        &&& self.indices@.len() == ROW_COUNT
        &&& self.bins@.len() == ROW_COUNT
        &&& self.odds@.len() == ROW_COUNT
        &&& self.maxbets@.len() == ROW_COUNT
        &&& forall|i: int|
            0 <= i < ROW_COUNT ==> {
                &&& (#[trigger] self.indices@[i])@ == row(i)
                &&& self.bins@[i] == seq_bin(row(i))
                &&& self.odds@[i] == bet_odds(odds, row(i))
                &&& self.maxbets@[i] == max_bet(bet_odds(odds, row(i)))
            }
    }
}

pub proof fn lemma_row_valid(i: int)
    requires
        0 <= i < ROW_COUNT,
    ensures
        valid_seq(row(i)),
        exists|a: int| 0 <= a < 5 && row(i)[a] != 0,
{
    let n = i + 1;
    assert(n == 625 * ((n / 625) % 5) + 125 * ((n / 125) % 5) + 25 * ((n / 25) % 5) + 5 * ((n / 5)
        % 5) + n % 5) by {
        let nu = n as u32;
        assert(nu == 625 * ((nu / 625) % 5) + 125 * ((nu / 125) % 5) + 25 * ((nu / 25) % 5) + 5 * ((
        nu / 5) % 5) + nu % 5) by (bit_vector)
            requires
                nu < 3125,
        ;
    }
    let r = row(i);
    if forall|a: int| 0 <= a < 5 ==> r[a] == 0 {
        assert(r[0] == 0 && r[1] == 0 && r[2] == 0 && r[3] == 0 && r[4] == 0);
        assert(false);
    }
}

proof fn lemma_rows_distinct(i: int, j: int)
    requires
        0 <= i < ROW_COUNT,
        0 <= j < ROW_COUNT,
        row(i) == row(j),
    ensures
        i == j,
{
    let n = (i + 1) as u32;
    let m = (j + 1) as u32;
    assert(row(i)[0] == row(j)[0] && row(i)[1] == row(j)[1] && row(i)[2] == row(j)[2] && row(i)[3]
        == row(j)[3] && row(i)[4] == row(j)[4]);
    assert(n == m) by (bit_vector)
        requires
            n < 3125,
            m < 3125,
            (n / 625) % 5 == (m / 625) % 5,
            (n / 125) % 5 == (m / 125) % 5,
            (n / 25) % 5 == (m / 25) % 5,
            (n / 5) % 5 == (m / 5) % 5,
            n % 5 == m % 5,
    ;
}

/// The integer columns of the round table for the odds matrix `odds`.
pub fn round_table(odds: &[[u8; 5]; 5]) -> (t: RoundTable)
    requires
        valid_odds(*odds),
    ensures
        t.wf(*odds),
{
    let mut indices: Vec<[u8; 5]> = Vec::new();
    let mut bins: Vec<u32> = Vec::new();
    let mut os: Vec<u32> = Vec::new();
    let mut maxbets: Vec<u32> = Vec::new();
    let mut i: usize = 0;
    while i < ROW_COUNT
        invariant
            i <= ROW_COUNT,
            valid_odds(*odds),
            indices@.len() == i,
            bins@.len() == i,
            os@.len() == i,
            maxbets@.len() == i,
            forall|k: int|
                0 <= k < i ==> {
                    &&& (#[trigger] indices@[k])@ == row(k)
                    &&& bins@[k] == seq_bin(row(k))
                    &&& os@[k] == bet_odds(*odds, row(k))
                    &&& maxbets@[k] == max_bet(bet_odds(*odds, row(k)))
                },
        decreases ROW_COUNT - i,
    {
        let n: usize = i + 1;
        let b: [u8; 5] = [
            ((n / 625) % 5) as u8,
            ((n / 125) % 5) as u8,
            ((n / 25) % 5) as u8,
            ((n / 5) % 5) as u8,
            (n % 5) as u8,
        ];
        assert(b@ =~= row(i as int));
        proof {
            lemma_row_valid(i as int);
        }
        let bin = pirates_binary(b);
        let mut o: u32 = 1;
        let mut a: usize = 0;
        while a < 5
            invariant
                a <= 5,
                valid_odds(*odds),
                valid_seq(b@),
                o as nat == if a == 0 {
                    1nat
                } else if a == 1 {
                    arena_factor(*odds, 0, b@[0])
                } else if a == 2 {
                    arena_factor(*odds, 0, b@[0]) * arena_factor(*odds, 1, b@[1])
                } else if a == 3 {
                    arena_factor(*odds, 0, b@[0]) * arena_factor(*odds, 1, b@[1]) * arena_factor(
                        *odds,
                        2,
                        b@[2],
                    )
                } else if a == 4 {
                    arena_factor(*odds, 0, b@[0]) * arena_factor(*odds, 1, b@[1]) * arena_factor(
                        *odds,
                        2,
                        b@[2],
                    ) * arena_factor(*odds, 3, b@[3])
                } else {
                    bet_odds(*odds, b@)
                },
                1 <= o <= if a == 0 {
                    1u32
                } else if a == 1 {
                    13u32
                } else if a == 2 {
                    169u32
                } else if a == 3 {
                    2197u32
                } else if a == 4 {
                    28561u32
                } else {
                    371293u32
                },
            decreases 5 - a,
        {
            let p = b[a];
            assert(valid_index(b@[a as int]));
            if p != 0 {
                let f = odds[a][p as usize] as u32;
                assert(2 <= odds@[a as int]@[p as int] <= 13);
                assert(1 <= o * f <= 13 * o) by (nonlinear_arith)
                    requires
                        1 <= o,
                        2 <= f <= 13,
                ;
                o = o * f;
            }
            a = a + 1;
        }
        indices.push(b);
        bins.push(bin);
        os.push(o);
        maxbets.push((MAX_PAYOUT + o - 1) / o);
        i = i + 1;
    }
    let t = RoundTable { indices, bins, odds: os, maxbets };
    assert forall|k: int| 0 <= k < ROW_COUNT implies {
        &&& (#[trigger] t.indices@[k])@ == row(k)
        &&& t.bins@[k] == seq_bin(row(k))
        &&& t.odds@[k] == bet_odds(*odds, row(k))
        &&& t.maxbets@[k] == max_bet(bet_odds(*odds, row(k)))
    } by {
        assert(indices@[k]@ == row(k));
    }
    t
}

/// The round table has one row for each non-empty bet: the binaries differ
/// from row to row and each is a bet, and each row's largest amount is the
/// least whose winnings reach the payout ceiling.
pub proof fn lemma_round_table(t: RoundTable, odds: [[u8; 5]; 5])
    requires
        valid_odds(odds),
        t.wf(odds),
    ensures
        t.bins@.len() == ROW_COUNT,
        forall|i: int, j: int|
            0 <= i < ROW_COUNT && 0 <= j < ROW_COUNT && i != j ==> t.bins@[i] != t.bins@[j],
        forall|i: int| 0 <= i < ROW_COUNT ==> crate::math::is_bet_bin(#[trigger] t.bins@[i]),
        forall|i: int|
            0 <= i < ROW_COUNT ==> t.maxbets@[i] * t.odds@[i] >= MAX_PAYOUT && (t.maxbets@[i] - 1)
                * t.odds@[i] < MAX_PAYOUT,
{
    assert forall|i: int, j: int|
        0 <= i < ROW_COUNT && 0 <= j < ROW_COUNT && i != j implies t.bins@[i] != t.bins@[j] by {
        assert(t.indices@[i]@ == row(i));
        assert(t.indices@[j]@ == row(j));
        lemma_row_valid(i);
        lemma_row_valid(j);
        lemma_seq_round_trip(row(i));
        lemma_seq_round_trip(row(j));
        if t.bins@[i] == t.bins@[j] {
            lemma_rows_distinct(i, j);
        }
    }
    assert forall|i: int| 0 <= i < ROW_COUNT implies crate::math::is_bet_bin(#[trigger] t.bins@[i]) by {
        assert(t.indices@[i]@ == row(i));
        lemma_row_valid(i);
        lemma_seq_round_trip(row(i));
    }
    assert forall|i: int| 0 <= i < ROW_COUNT implies t.maxbets@[i] * t.odds@[i] >= MAX_PAYOUT && (
    t.maxbets@[i] - 1) * t.odds@[i] < MAX_PAYOUT by {
        assert(t.indices@[i]@ == row(i));
        let o = t.odds@[i] as int;
        lemma_row_valid(i);
        assert(o >= 1) by {
            let r = row(i);
            assert(valid_index(r[0]) && valid_index(r[1]) && valid_index(r[2]) && valid_index(r[3])
                && valid_index(r[4]));
            let f0 = arena_factor(odds, 0, r[0]);
            let f1 = arena_factor(odds, 1, r[1]);
            let f2 = arena_factor(odds, 2, r[2]);
            let f3 = arena_factor(odds, 3, r[3]);
            let f4 = arena_factor(odds, 4, r[4]);
            assert(f0 >= 1 && f1 >= 1 && f2 >= 1 && f3 >= 1 && f4 >= 1);
            assert(f0 * f1 * f2 * f3 * f4 >= 1) by (nonlinear_arith)
                requires
                    f0 >= 1,
                    f1 >= 1,
                    f2 >= 1,
                    f3 >= 1,
                    f4 >= 1,
            ;
        }
        let m = t.maxbets@[i] as int;
        assert(m == (1_000_000 + o - 1) / o);
        assert(m * o >= 1_000_000 && (m - 1) * o < 1_000_000) by (nonlinear_arith)
            requires
                o >= 1,
                m == (1_000_000 + o - 1) / o,
        ;
    }
}

proof fn lemma_digits_of_value(b0: u32, b1: u32, b2: u32, b3: u32, b4: u32, n: u32)
    by (bit_vector)
    requires
        b0 <= 4,
        b1 <= 4,
        b2 <= 4,
        b3 <= 4,
        b4 <= 4,
        n == 625 * b0 + 125 * b1 + 25 * b2 + 5 * b3 + b4,
    ensures
        (n / 625) % 5 == b0,
        (n / 125) % 5 == b1,
        (n / 25) % 5 == b2,
        (n / 5) % 5 == b3,
        n % 5 == b4,
        n < 3125,
{
}

/// The row of the round table that holds the bet `b`.
pub fn row_index(b: [u8; 5]) -> (r: usize)
    requires
        crate::math::is_bet_indices(b),
    ensures
        r < ROW_COUNT,
        row(r as int) == b@,
{
    assert(valid_index(b@[0]) && valid_index(b@[1]) && valid_index(b@[2]) && valid_index(b@[3])
        && valid_index(b@[4]));
    let n: u32 = 625 * (b[0] as u32) + 125 * (b[1] as u32) + 25 * (b[2] as u32) + 5 * (b[3] as u32)
        + (b[4] as u32);
    proof {
        lemma_digits_of_value(b[0] as u32, b[1] as u32, b[2] as u32, b[3] as u32, b[4] as u32, n);
        let a = choose|a: int| 0 <= a < 5 && b@[a] != 0;
        assert(b@[a] != 0);
        assert(n != 0);
        assert(row_digits(n as int) =~= b@);
    }
    (n - 1) as usize
}

/// The odds of a row stay under the fifth power of 13.
pub proof fn lemma_row_odds_bound(odds: [[u8; 5]; 5], i: int)
    requires
        valid_odds(odds),
        0 <= i < ROW_COUNT,
    ensures
        1 <= bet_odds(odds, row(i)) <= 371293,
{
    lemma_row_valid(i);
    let r = row(i);
    assert(valid_index(r[0]) && valid_index(r[1]) && valid_index(r[2]) && valid_index(r[3])
        && valid_index(r[4]));
    let f0 = arena_factor(odds, 0, r[0]);
    let f1 = arena_factor(odds, 1, r[1]);
    let f2 = arena_factor(odds, 2, r[2]);
    let f3 = arena_factor(odds, 3, r[3]);
    let f4 = arena_factor(odds, 4, r[4]);
    assert(1 <= f0 <= 13 && 1 <= f1 <= 13 && 1 <= f2 <= 13 && 1 <= f3 <= 13 && 1 <= f4 <= 13);
    assert(1 <= f0 * f1 * f2 * f3 * f4 <= 371293) by (nonlinear_arith)
        requires
            1 <= f0 <= 13,
            1 <= f1 <= 13,
            1 <= f2 <= 13,
            1 <= f3 <= 13,
            1 <= f4 <= 13,
    ;
}

} // verus!
