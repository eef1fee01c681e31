//! Portfolio builders: each picks rows of the round table under a rule of
//! its own and hands back their row indices.
use vstd::prelude::*;

use crate::aggregate::{outcome_picks, wins, OUTCOME_COUNT};
use crate::math::{is_pick_bin, nibble, pirates_binary, seq_bin, valid_seq, ALL_PIRATES};
use crate::table::row_digits;
use crate::hash::views;

verus! {

/// Row `i` ranks before row `j`: a larger key (a smaller one when
/// `reverse`), or the same key and an earlier row.
pub open spec fn ranks_before(keys: Seq<u64>, i: int, j: int, reverse: bool) -> bool {
    if keys[i] == keys[j] {
        i < j
    } else if reverse {
        keys[i] < keys[j]
    } else {
        keys[i] > keys[j]
    }
}

/// `r` is the first `count` eligible rows in ranking order, or all of them
/// where there are fewer.
pub open spec fn is_top(
    keys: Seq<u64>,
    eligible: Seq<bool>,
    count: nat,
    reverse: bool,
    r: Seq<usize>,
) -> bool {
    &&& r.len() <= count
    &&& forall|k: int| 0 <= k < r.len() ==> (#[trigger] r[k]) < keys.len() && eligible[r[k] as int]
    &&& forall|i: int, j: int|
        0 <= i < j < r.len() ==> ranks_before(keys, r[i] as int, r[j] as int, reverse)
    &&& forall|i: int|
        0 <= i < keys.len() && #[trigger] eligible[i] && !r.contains(i as usize) ==> {
            &&& r.len() == count
            &&& forall|k: int| 0 <= k < r.len() ==> ranks_before(keys, r[k] as int, i, reverse)
        }
}

/// A ranked selection holds each row at most once, and only eligible rows.
pub proof fn lemma_top_distinct(
    keys: Seq<u64>,
    eligible: Seq<bool>,
    count: nat,
    reverse: bool,
    r: Seq<usize>,
)
    requires
        is_top(keys, eligible, count, reverse, r),
    ensures
        forall|i: int, j: int| 0 <= i < j < r.len() ==> r[i] != r[j],
        forall|k: int| 0 <= k < r.len() ==> eligible[#[trigger] r[k] as int],
{
    assert forall|i: int, j: int| 0 <= i < j < r.len() implies r[i] != r[j] by {
        assert(ranks_before(keys, r[i] as int, r[j] as int, reverse));
    }
}

/// The first `count` rows among the eligible ones, ranked by key: largest
/// first (smallest first when `reverse`), earlier rows first among equal keys.
pub fn select_top(keys: &Vec<u64>, eligible: &Vec<bool>, count: usize, reverse: bool) -> (r: Vec<
    usize,
>)
    requires
        keys@.len() == eligible@.len(),
    ensures
        is_top(keys@, eligible@, count as nat, reverse, r@),
{
    let n = keys.len();
    let mut r: Vec<usize> = Vec::new();
    let mut done = false;
    while !done && r.len() < count
        invariant
            n == keys@.len(),
            keys@.len() == eligible@.len(),
            r@.len() <= count,
            forall|k: int| 0 <= k < r@.len() ==> (#[trigger] r@[k]) < n && eligible@[r@[k] as int],
            forall|i: int, j: int|
                0 <= i < j < r@.len() ==> ranks_before(keys@, r@[i] as int, r@[j] as int, reverse),
            forall|i: int|
                0 <= i < n && #[trigger] eligible@[i] && !r@.contains(i as usize) ==> r@.len() > 0
                    && ranks_before(keys@, r@.last() as int, i, reverse) || r@.len() == 0,
            done ==> forall|i: int|
                0 <= i < n && #[trigger] eligible@[i] ==> r@.contains(i as usize),
        decreases count - r@.len() + (if done {
            0int
        } else {
            1int
        }),
    {
        let mut best: Option<usize> = None;
        let mut i: usize = 0;
        while i < n
            invariant
                i <= n,
                n == keys@.len(),
                keys@.len() == eligible@.len(),
                forall|k: int| 0 <= k < r@.len() ==> (#[trigger] r@[k]) < n,
                match best {
                    Some(b) => b < i && eligible@[b as int] && (r@.len() == 0 || ranks_before(
                        keys@,
                        r@.last() as int,
                        b as int,
                        reverse,
                    )),
                    None => true,
                },
                forall|t: int|
                    0 <= t < i && #[trigger] eligible@[t] && (r@.len() == 0 || ranks_before(
                        keys@,
                        r@.last() as int,
                        t,
                        reverse,
                    )) ==> match best {
                        Some(b) => b == t || ranks_before(keys@, b as int, t, reverse),
                        None => false,
                    },
            decreases n - i,
        {
            if eligible[i] {
                let after = if r.len() == 0 {
                    true
                } else {
                    let last = r[r.len() - 1];
                    if keys[last] == keys[i] {
                        last < i
                    } else if reverse {
                        keys[last] < keys[i]
                    } else {
                        keys[last] > keys[i]
                    }
                };
                if after {
                    match best {
                        Some(b) => {
                            let better = if keys[i] == keys[b] {
                                i < b
                            } else if reverse {
                                keys[i] < keys[b]
                            } else {
                                keys[i] > keys[b]
                            };
                            if better {
                                best = Some(i);
                            }
                        },
                        None => {
                            best = Some(i);
                        },
                    }
                }
            }
            i = i + 1;
        }
        match best {
            Some(b) => {
                let ghost r0 = r@;
                proof {
                    if r0.contains(b) {
                        let k = choose|k: int| 0 <= k < r0.len() && r0[k] == b;
                        if k < r0.len() - 1 {
                            assert(ranks_before(keys@, r0[k] as int, r0.last() as int, reverse));
                        }
                    }
                }
                r.push(b);
                assert forall|i: int, j: int| 0 <= i < j < r@.len() implies ranks_before(
                    keys@,
                    r@[i] as int,
                    r@[j] as int,
                    reverse,
                ) by {
                    if j == r@.len() - 1 && i < r0.len() - 1 {
                        assert(ranks_before(keys@, r0[i] as int, r0.last() as int, reverse));
                    }
                }
                assert forall|t: int|
                    0 <= t < n && #[trigger] eligible@[t] && !r@.contains(t as usize) implies r@.len()
                    > 0 && ranks_before(keys@, r@.last() as int, t, reverse) || r@.len() == 0 by {
                    if r0.len() > 0 && !r0.contains(t as usize) {
                        assert(ranks_before(keys@, r0.last() as int, t, reverse));
                    }
                    if r0.contains(t as usize) {
                        let k = choose|k: int| 0 <= k < r0.len() && r0[k] == t as usize;
                        assert(r@[k] == t as usize);
                    }
                    assert(r@[r0.len() as int] == b);
                    assert(t != b);
                }
            },
            None => {
                done = true;
                assert forall|t: int| 0 <= t < n && #[trigger] eligible@[t] implies r@.contains(
                    t as usize,
                ) by {
                    if !r@.contains(t as usize) {
                        assert(r@.len() > 0 && ranks_before(keys@, r@.last() as int, t, reverse)
                            || r@.len() == 0);
                    }
                }
            },
        }
    }
    assert forall|i: int|
        0 <= i < keys@.len() && #[trigger] eligible@[i] && !r@.contains(i as usize) implies {
        &&& r@.len() == count
        &&& forall|k: int| 0 <= k < r@.len() ==> ranks_before(keys@, r@[k] as int, i, reverse)
    } by {
        assert(!done);
        assert(r@.len() == 0 || ranks_before(keys@, r@.last() as int, i, reverse));
        assert forall|k: int| 0 <= k < r@.len() implies ranks_before(
            keys@,
            r@[k] as int,
            i,
            reverse,
        ) by {
            if k < r@.len() - 1 {
                assert(ranks_before(keys@, r@[k] as int, r@.last() as int, reverse));
            }
        }
    }
    r
}

/// Why a builder refused its input.
#[derive(PartialEq, Eq, Structural, Clone, Copy, Debug)]
pub enum BuildError {
    /// The pirates given do not fit the builder.
    InvalidInput,
}

/// Every row is eligible.
pub open spec fn all_rows(n: nat) -> Seq<bool> {
    Seq::new(n, |i: int| true)
}

/// The rows whose odds reach `units`.
pub open spec fn rows_reaching(odds: Seq<u32>, units: u32) -> Seq<bool> {
    Seq::new(odds.len(), |i: int| odds[i] >= units)
}

/// The rows whose binary holds every pirate of `p`.
pub open spec fn rows_holding(bins: Seq<u32>, p: u32) -> Seq<bool> {
    Seq::new(bins.len(), |i: int| bins[i] & p == p)
}

/// Odds as ranking keys.
pub open spec fn odds_keys(odds: Seq<u32>) -> Seq<u64> {
    Seq::new(odds.len(), |i: int| odds[i] as u64)
}

/// The rows whose binary picks only pirates of `p`.
pub open spec fn rows_within(bins: Seq<u32>, p: u32) -> Seq<bool> {
    Seq::new(bins.len(), |i: int| bins[i] & p == bins[i])
}

/// The number of arenas in which `bin` picks a pirate.
pub open spec fn arena_count(bin: u32) -> nat {
    (if nibble(bin, 0) != 0 { 1nat } else { 0nat }) + (if nibble(bin, 1) != 0 {
        1nat
    } else {
        0nat
    }) + (if nibble(bin, 2) != 0 {
        1nat
    } else {
        0nat
    }) + (if nibble(bin, 3) != 0 {
        1nat
    } else {
        0nat
    }) + (if nibble(bin, 4) != 0 {
        1nat
    } else {
        0nat
    })
}

/// A bet that picks a pirate in every arena.
pub open spec fn is_full_bin(bin: u32) -> bool {
    is_pick_bin(bin) && arena_count(bin) == 5
}

/// A ten-bet base: one to three pirates, in different arenas.
pub open spec fn is_tenbet_base(bin: u32) -> bool {
    is_pick_bin(bin) && 1 <= arena_count(bin) <= 3
}

/// Whether `bin` sets at most one pirate per arena and nothing above the
/// five groups.
pub fn is_pick_binary(bin: u32) -> (r: bool)
    ensures
        r == is_pick_bin(bin),
{
    if bin > ALL_PIRATES {
        return false;
    }
    let mut a: usize = 0;
    while a < 5
        invariant
            a <= 5,
            forall|t: int|
                0 <= t < a ==> {
                    let n = #[trigger] nibble(bin, t);
                    n == 0 || n == 1 || n == 2 || n == 4 || n == 8
                },
        decreases 5 - a,
    {
        let n: u32 = (bin >> ((16 - 4 * a) as u32)) & 0xF;
        assert(n == nibble(bin, a as int));
        if !(n == 0 || n == 1 || n == 2 || n == 4 || n == 8) {
            return false;
        }
        a = a + 1;
    }
    true
}

/// The number of arenas in which `bin` picks a pirate.
pub fn arenas_picked(bin: u32) -> (r: u32)
    ensures
        r == arena_count(bin),
{
    let mut r: u32 = 0;
    let mut a: usize = 0;
    while a < 5
        invariant
            a <= 5,
            r == (if a > 0 && nibble(bin, 0) != 0 {
                1nat
            } else {
                0nat
            }) + (if a > 1 && nibble(bin, 1) != 0 {
                1nat
            } else {
                0nat
            }) + (if a > 2 && nibble(bin, 2) != 0 {
                1nat
            } else {
                0nat
            }) + (if a > 3 && nibble(bin, 3) != 0 {
                1nat
            } else {
                0nat
            }) + (if a > 4 && nibble(bin, 4) != 0 {
                1nat
            } else {
                0nat
            }),
        decreases 5 - a,
    {
        let n: u32 = (bin >> ((16 - 4 * a) as u32)) & 0xF;
        assert(n == nibble(bin, a as int));
        if n != 0 {
            r = r + 1;
        }
        a = a + 1;
    }
    r
}

/// The `count` rows of highest expected return (`keys`), earlier rows first
/// among equal keys; lowest first when `reverse`.
pub fn max_ter_indices(keys: &Vec<u64>, count: usize, reverse: bool) -> (r: Vec<usize>)
    ensures
        is_top(keys@, all_rows(keys@.len()), count as nat, reverse, r@),
{
    let mut eligible: Vec<bool> = Vec::new();
    let mut i: usize = 0;
    while i < keys.len()
        invariant
            i <= keys@.len(),
            eligible@ == all_rows(i as nat),
        decreases keys@.len() - i,
    {
        eligible.push(true);
        assert(eligible@ =~= all_rows((i + 1) as nat));
        i = i + 1;
    }
    select_top(keys, &eligible, count, reverse)
}

/// The `count` rows of highest expected return among those whose odds
/// reach `units`; `None` where no row does.
pub fn units_indices(keys: &Vec<u64>, odds: &Vec<u32>, units: u32, count: usize, reverse: bool) -> (r:
    Option<Vec<usize>>)
    requires
        keys@.len() == odds@.len(),
    ensures
        r is None <==> forall|i: int| 0 <= i < odds@.len() ==> odds@[i] < units,
        r matches Some(v) ==> is_top(keys@, rows_reaching(odds@, units), count as nat, reverse, v@),
{
    let mut eligible: Vec<bool> = Vec::new();
    let mut any = false;
    let mut i: usize = 0;
    while i < odds.len()
        invariant
            i <= odds@.len(),
            eligible@ == rows_reaching(odds@, units).subrange(0, i as int),
            any <==> exists|t: int| 0 <= t < i && odds@[t] >= units,
        decreases odds@.len() - i,
    {
        let e = odds[i] >= units;
        eligible.push(e);
        if e {
            any = true;
        }
        assert(eligible@ =~= rows_reaching(odds@, units).subrange(0, i + 1));
        i = i + 1;
    }
    assert(eligible@ =~= rows_reaching(odds@, units));
    if any {
        Some(select_top(keys, &eligible, count, reverse))
    } else {
        None
    }
}

/// The `count` rows of highest expected return among those that hold every
/// pirate of `pirates_binary`, which must pick one to three pirates in
/// different arenas.
pub fn tenbet_indices(
    keys: &Vec<u64>,
    bins: &Vec<u32>,
    pirates_binary: u32,
    count: usize,
    reverse: bool,
) -> (r: Result<Vec<usize>, BuildError>)
    requires
        keys@.len() == bins@.len(),
    ensures
        r is Err <==> !is_tenbet_base(pirates_binary),
        r matches Ok(v) ==> is_top(
            keys@,
            rows_holding(bins@, pirates_binary),
            count as nat,
            reverse,
            v@,
        ),
{
    if !is_pick_binary(pirates_binary) {
        return Err(BuildError::InvalidInput);
    }
    let picked = arenas_picked(pirates_binary);
    if picked < 1 || picked > 3 {
        return Err(BuildError::InvalidInput);
    }
    let mut eligible: Vec<bool> = Vec::new();
    let mut i: usize = 0;
    while i < bins.len()
        invariant
            i <= bins@.len(),
            eligible@ == rows_holding(bins@, pirates_binary).subrange(0, i as int),
        decreases bins@.len() - i,
    {
        eligible.push(bins[i] & pirates_binary == pirates_binary);
        assert(eligible@ =~= rows_holding(bins@, pirates_binary).subrange(0, i + 1));
        i = i + 1;
    }
    assert(eligible@ =~= rows_holding(bins@, pirates_binary));
    Ok(select_top(keys, &eligible, count, reverse))
}

/// The `count` rows of highest odds among those that pick only pirates of
/// the full bet `pirates_binary`.
pub fn gambit_indices(
    odds: &Vec<u32>,
    bins: &Vec<u32>,
    pirates_binary: u32,
    count: usize,
    reverse: bool,
) -> (r: Vec<usize>)
    requires
        odds@.len() == bins@.len(),
        is_full_bin(pirates_binary),
    ensures
        is_top(odds_keys(odds@), rows_within(bins@, pirates_binary), count as nat, reverse, r@),
{
    let mut keys: Vec<u64> = Vec::new();
    let mut eligible: Vec<bool> = Vec::new();
    let mut i: usize = 0;
    while i < bins.len()
        invariant
            i <= bins@.len(),
            odds@.len() == bins@.len(),
            keys@.len() == i,
            forall|t: int| 0 <= t < i ==> #[trigger] keys@[t] == odds@[t] as u64,
            eligible@ == rows_within(bins@, pirates_binary).subrange(0, i as int),
        decreases bins@.len() - i,
    {
        keys.push(odds[i] as u64);
        eligible.push(bins[i] & pirates_binary == bins[i]);
        assert(eligible@ =~= rows_within(bins@, pirates_binary).subrange(0, i + 1));
        i = i + 1;
    }
    assert(eligible@ =~= rows_within(bins@, pirates_binary));
    assert(keys@ =~= odds_keys(odds@));
    select_top(&keys, &eligible, count, reverse)
}

/// The binary of the full bet of highest expected return; `None` where no
/// row is a full bet.
pub fn best_full_binary(keys: &Vec<u64>, bins: &Vec<u32>, reverse: bool) -> (r: Option<u32>)
    requires
        keys@.len() == bins@.len(),
    ensures
        r is None <==> forall|i: int| 0 <= i < bins@.len() ==> !is_full_bin(bins@[i]),
        r matches Some(b) ==> exists|i: int|
            0 <= i < bins@.len() && bins@[i] == b && is_full_bin(b) && forall|j: int|
                0 <= j < bins@.len() && j != i && is_full_bin(#[trigger] bins@[j]) ==> ranks_before(
                    keys@,
                    i,
                    j,
                    reverse,
                ),
{
    let mut eligible: Vec<bool> = Vec::new();
    let mut i: usize = 0;
    while i < bins.len()
        invariant
            i <= bins@.len(),
            eligible@.len() == i,
            forall|t: int| 0 <= t < i ==> #[trigger] eligible@[t] == is_full_bin(bins@[t]),
        decreases bins@.len() - i,
    {
        let b = bins[i];
        eligible.push(is_pick_binary(b) && arenas_picked(b) == 5);
        i = i + 1;
    }
    let top = select_top(keys, &eligible, 1, reverse);
    if top.len() == 0 {
        assert forall|i: int| 0 <= i < bins@.len() implies !is_full_bin(bins@[i]) by {
            if is_full_bin(bins@[i]) {
                assert(eligible@[i]);
                assert(!top@.contains(i as usize));
            }
        }
        None
    } else {
        let i = top[0];
        assert(eligible@[i as int]);
        assert forall|j: int|
            0 <= j < bins@.len() && j != i && is_full_bin(#[trigger] bins@[j]) implies ranks_before(
            keys@,
            i as int,
            j,
            reverse,
        ) by {
            assert(eligible@[j]);
            if top@.contains(j as usize) {
                let k = choose|k: int| 0 <= k < top@.len() && top@[k] == j as usize;
                assert(k == 0);
            }
        }
        Some(bins[i])
    }
}

/// The bet that a draw stands for: a full bet (`full`) from the draw's
/// outcome number, or else a row of `{0..4}^5` from the draw itself.
pub open spec fn draw_bet(draw: u32, full: bool) -> Seq<u8> {
    if full {
        outcome_picks((draw % 1024) as int)
    } else {
        row_digits((draw % 3125) as int)
    }
}

/// The distinct non-empty bets that the first `n` draws give, in the order
/// of their first draw, at most `count` of them.
pub open spec fn kept_draws(draws: Seq<u32>, count: nat, full: bool, n: int) -> Seq<u32>
    decreases n,
{
    if n <= 0 {
        Seq::empty()
    } else {
        let before = kept_draws(draws, count, full, n - 1);
        let bin = seq_bin(draw_bet(draws[n - 1], full));
        if before.len() < count && bin != 0 && !before.contains(bin) {
            before.push(bin)
        } else {
            before
        }
    }
}

proof fn lemma_draw_bet_valid(draw: u32, full: bool)
    ensures
        valid_seq(draw_bet(draw, full)),
        full ==> forall|a: int| 0 <= a < 5 ==> draw_bet(draw, full)[a] != 0,
{
}

/// The distinct bets that a sequence of random draws gives, at most
/// `count`: each draw stands for a full bet (`full`) or a row of
/// `{0..4}^5`; empty bets and repeats are passed over.
pub fn bets_from_draws(draws: &Vec<u32>, count: usize, full: bool) -> (r: Vec<u32>)
    ensures
        r@ == kept_draws(draws@, count as nat, full, draws@.len() as int),
{
    let mut r: Vec<u32> = Vec::new();
    let mut k: usize = 0;
    while k < draws.len()
        invariant
            k <= draws@.len(),
            r@ == kept_draws(draws@, count as nat, full, k as int),
        decreases draws@.len() - k,
    {
        let d = draws[k];
        let b: [u8; 5] = if full {
            let o = d % 1024;
            [
                ((o / 256) % 4 + 1) as u8,
                ((o / 64) % 4 + 1) as u8,
                ((o / 16) % 4 + 1) as u8,
                ((o / 4) % 4 + 1) as u8,
                (o % 4 + 1) as u8,
            ]
        } else {
            let o = d % 3125;
            [
                ((o / 625) % 5) as u8,
                ((o / 125) % 5) as u8,
                ((o / 25) % 5) as u8,
                ((o / 5) % 5) as u8,
                (o % 5) as u8,
            ]
        };
        assert(b@ =~= draw_bet(d, full));
        proof {
            lemma_draw_bet_valid(d, full);
        }
        let bin = pirates_binary(b);
        let mut seen = false;
        let mut i: usize = 0;
        while i < r.len()
            invariant
                i <= r@.len(),
                seen <==> exists|t: int| 0 <= t < i && r@[t] == bin,
            decreases r@.len() - i,
        {
            if r[i] == bin {
                seen = true;
            }
            i = i + 1;
        }
        assert(seen <==> r@.contains(bin));
        if r.len() < count && bin != 0 && !seen {
            r.push(bin);
        }
        k = k + 1;
    }
    r
}

/// The full bet of the winners, where every arena has one.
pub fn winning_binary(winners: &[u8; 5]) -> (r: Option<u32>)
    ensures
        r is Some <==> forall|a: int| 0 <= a < 5 ==> 1 <= #[trigger] winners@[a] <= 4,
        r matches Some(b) ==> b == seq_bin(winners@),
{
    let mut a: usize = 0;
    while a < 5
        invariant
            a <= 5,
            forall|t: int| 0 <= t < a ==> 1 <= #[trigger] winners@[t] <= 4,
        decreases 5 - a,
    {
        if winners[a] < 1 || winners[a] > 4 {
            return None;
        }
        a = a + 1;
    }
    assert(winners@[0] <= 4 && winners@[1] <= 4 && winners@[2] <= 4 && winners@[3] <= 4
        && winners@[4] <= 4);
    Some(pirates_binary(*winners))
}

/// The odds of the four pirates of arena `a`.
pub open spec fn arena_odds(odds: [[u8; 5]; 5], a: int) -> Seq<u8> {
    odds@[a]@.subrange(1, 5)
}

/// The arenas whose odds make them positive.
pub open spec fn is_positive_arena(odds: [[u8; 5]; 5], a: int) -> bool {
    crate::model::pot_positive(arena_odds(odds, a))
}

/// The `k`-th (0 to 2) pirate of an arena other than `best`.
pub open spec fn other_pirate(best: u8, k: int) -> u8 {
    if k + 1 < best {
        (k + 1) as u8
    } else {
        (k + 2) as u8
    }
}

/// The pirate of lowest odds in an arena, the first among equals.
pub fn favourite(o: [u8; 4]) -> (r: u8)
    ensures
        1 <= r <= 4,
        forall|i: int| 0 <= i < 4 ==> o@[r - 1] <= #[trigger] o@[i],
        forall|i: int| 0 <= i < r - 1 ==> o@[r - 1] < #[trigger] o@[i],
{
    let mut best: usize = 0;
    let mut i: usize = 1;
    while i < 4
        invariant
            1 <= i <= 4,
            best < i,
            forall|t: int| 0 <= t < i ==> o@[best as int] <= #[trigger] o@[t],
            forall|t: int| 0 <= t < best ==> o@[best as int] < #[trigger] o@[t],
        decreases 4 - i,
    {
        if o[i] < o[best] {
            best = i;
        }
        i = i + 1;
    }
    (best + 1) as u8
}

fn one_pick(bet: [u8; 5], a: usize, p: u8) -> (r: [u8; 5])
    requires
        a < 5,
    ensures
        r@ == bet@.update(a as int, p),
{
    let mut r = bet;
    r[a] = p;
    r
}

/// Some bet of `bets` wins under the winners `w`.
pub open spec fn won_by(bets: Seq<Seq<u8>>, w: Seq<u8>) -> bool {
    exists|k: int| 0 <= k < bets.len() && wins(#[trigger] bets[k], w)
}

/// Every outcome of a round is won by some bet of `bets`.
pub open spec fn covers_all(bets: Seq<Seq<u8>>) -> bool {
    forall|o: int| 0 <= o < OUTCOME_COUNT ==> won_by(bets, #[trigger] outcome_picks(o))
}

/// The number of positive arenas among the first `n`.
pub open spec fn positive_count(odds: [[u8; 5]; 5], n: int) -> nat
    decreases n,
{
    if n <= 0 {
        0
    } else {
        positive_count(odds, n - 1) + if is_positive_arena(odds, n - 1) {
            1nat
        } else {
            0nat
        }
    }
}

/// A portfolio that wins on every outcome: built over the first positive
/// arena `A` (and the next two, `B` and `C`, where there are): each pirate of
/// `A` but its favourite alone; then the favourite of `A` with each pirate of
/// `B` but its favourite; then both favourites with each pirate of `C`. With
/// fewer positive arenas the last arena taken gets all four pirates. `None`
/// where no arena is positive.
pub fn bustproof_bets(odds: &[[u8; 5]; 5]) -> (r: Option<Vec<[u8; 5]>>)
    requires
        crate::table::valid_odds(*odds),
    ensures
        r is None <==> positive_count(*odds, 5) == 0,
        r matches Some(v) ==> {
            &&& covers_all(views(v@))
            &&& v@.len() == (if positive_count(*odds, 5) == 1 {
                4nat
            } else if positive_count(*odds, 5) == 2 {
                7nat
            } else {
                10nat
            })
            &&& forall|k: int|
                0 <= k < v@.len() ==> crate::math::is_bet_indices(#[trigger] v@[k])
            &&& forall|k: int, a: int|
                0 <= k < v@.len() && 0 <= a < 5 && #[trigger] v@[k]@[a] != 0
                    ==> is_positive_arena(*odds, a)
        },
{
    let mut pos: Vec<usize> = Vec::new();
    let mut a: usize = 0;
    while a < 5
        invariant
            a <= 5,
            crate::table::valid_odds(*odds),
            pos@.len() == positive_count(*odds, a as int),
            pos@.len() <= a,
            forall|k: int| 0 <= k < pos@.len() ==> (#[trigger] pos@[k]) < a,
            forall|k: int| 0 <= k < pos@.len() ==> is_positive_arena(*odds, #[trigger] pos@[k] as int),
            forall|i: int, j: int| 0 <= i < j < pos@.len() ==> pos@[i] < pos@[j],
        decreases 5 - a,
    {
        let o: [u8; 4] = [odds[a][1], odds[a][2], odds[a][3], odds[a][4]];
        assert(o@ =~= arena_odds(*odds, a as int));
        assert forall|i: int| 0 <= i < 4 implies 1 <= #[trigger] o@[i] <= 13 by {
            assert(o@[i] == odds@[a as int]@[i + 1]);
        }
        if crate::model::odds_positive(o) {
            pos.push(a);
        }
        a = a + 1;
    }
    if pos.len() == 0 {
        return None;
    }
    let ghost np = positive_count(*odds, 5);
    let zero: [u8; 5] = [0u8; 5];
    let arena_a = pos[0];
    let oa: [u8; 4] = [odds[arena_a][1], odds[arena_a][2], odds[arena_a][3], odds[arena_a][4]];
    let fa = favourite(oa);
    let mut v: Vec<[u8; 5]> = Vec::new();
    if pos.len() == 1 {
        let mut p: u8 = 1;
        while p <= 4
            invariant
                1 <= p <= 5,
                arena_a < 5,
                v@.len() == p - 1,
                forall|k: int| 0 <= k < v@.len() ==> (#[trigger] v@[k])@ == zero@.update(arena_a as int, (k + 1) as u8),
            decreases 5 - p,
        {
            v.push(one_pick(zero, arena_a, p));
            p = p + 1;
        }
        assert forall|o: int| 0 <= o < OUTCOME_COUNT implies won_by(views(v@), #[trigger] outcome_picks(o)) by {
            let w = outcome_picks(o);
            let k = w[arena_a as int] - 1;
            assert(views(v@)[k] == v@[k]@);
                    assert(wins(views(v@)[k], w));
        }
        assert forall|k: int| 0 <= k < v@.len() implies crate::math::is_bet_indices(#[trigger] v@[k]) by {
            assert(v@[k]@[arena_a as int] != 0);
        }
    } else {
        let mut k: u8 = 0;
        while k < 3
            invariant
                k <= 3,
                arena_a < 5,
                1 <= fa <= 4,
                v@.len() == k,
                forall|t: int| 0 <= t < v@.len() ==> (#[trigger] v@[t])@ == zero@.update(arena_a as int, other_pirate(fa, t)),
            decreases 3 - k,
        {
            let p: u8 = if k + 1 < fa { k + 1 } else { k + 2 };
            v.push(one_pick(zero, arena_a, p));
            k = k + 1;
        }
        let base = one_pick(zero, arena_a, fa);
        let arena_b = pos[1];
        assert(arena_a < arena_b);
        if pos.len() == 2 {
            let mut q: u8 = 1;
            while q <= 4
                invariant
                    1 <= q <= 5,
                    arena_a < 5,
                    arena_b < 5,
                    v@.len() == 3 + q - 1,
                    forall|t: int| 0 <= t < 3 ==> (#[trigger] v@[t])@ == zero@.update(arena_a as int, other_pirate(fa, t)),
                    forall|t: int| 3 <= t < v@.len() ==> (#[trigger] v@[t])@ == base@.update(arena_b as int, (t - 2) as u8),
                decreases 5 - q,
            {
                v.push(one_pick(base, arena_b, q));
                q = q + 1;
            }
            assert forall|o: int| 0 <= o < OUTCOME_COUNT implies won_by(views(v@), #[trigger] outcome_picks(o)) by {
                let w = outcome_picks(o);
                let pa = w[arena_a as int];
                if pa != fa {
                    let k: int = if pa < fa { pa - 1 } else { pa - 2 };
                    assert(other_pirate(fa, k) == pa);
                    assert(views(v@)[k] == v@[k]@);
                    assert(wins(views(v@)[k], w));
                } else {
                    let k = 3 + w[arena_b as int] - 1;
                    assert(views(v@)[k] == v@[k]@);
                    assert(wins(views(v@)[k], w));
                }
            }
            assert forall|k: int| 0 <= k < v@.len() implies crate::math::is_bet_indices(#[trigger] v@[k]) by {
                assert(v@[k]@[arena_a as int] != 0);
            }
        } else {
            let ob: [u8; 4] = [odds[arena_b][1], odds[arena_b][2], odds[arena_b][3], odds[arena_b][4]];
            let fb = favourite(ob);
            let mut k: u8 = 0;
            while k < 3
                invariant
                    k <= 3,
                    arena_a < 5,
                    arena_b < 5,
                    1 <= fb <= 4,
                    v@.len() == 3 + k,
                    forall|t: int| 0 <= t < 3 ==> (#[trigger] v@[t])@ == zero@.update(arena_a as int, other_pirate(fa, t)),
                    forall|t: int| 3 <= t < v@.len() ==> (#[trigger] v@[t])@ == base@.update(arena_b as int, other_pirate(fb, t - 3)),
                decreases 3 - k,
            {
                let q: u8 = if k + 1 < fb { k + 1 } else { k + 2 };
                v.push(one_pick(base, arena_b, q));
                k = k + 1;
            }
            let base2 = one_pick(base, arena_b, fb);
            let arena_c = pos[2];
            assert(arena_b < arena_c);
            let mut q: u8 = 1;
            while q <= 4
                invariant
                    1 <= q <= 5,
                    arena_a < 5,
                    arena_b < 5,
                    arena_c < 5,
                    v@.len() == 6 + q - 1,
                    forall|t: int| 0 <= t < 3 ==> (#[trigger] v@[t])@ == zero@.update(arena_a as int, other_pirate(fa, t)),
                    forall|t: int| 3 <= t < 6 ==> (#[trigger] v@[t])@ == base@.update(arena_b as int, other_pirate(fb, t - 3)),
                    forall|t: int| 6 <= t < v@.len() ==> (#[trigger] v@[t])@ == base2@.update(arena_c as int, (t - 5) as u8),
                decreases 5 - q,
            {
                v.push(one_pick(base2, arena_c, q));
                q = q + 1;
            }
            assert forall|o: int| 0 <= o < OUTCOME_COUNT implies won_by(views(v@), #[trigger] outcome_picks(o)) by {
                let w = outcome_picks(o);
                let pa = w[arena_a as int];
                let pb = w[arena_b as int];
                if pa != fa {
                    let k: int = if pa < fa { pa - 1 } else { pa - 2 };
                    assert(other_pirate(fa, k) == pa);
                    assert(views(v@)[k] == v@[k]@);
                    assert(wins(views(v@)[k], w));
                } else if pb != fb {
                    let k: int = if pb < fb { pb - 1 } else { pb - 2 };
                    assert(other_pirate(fb, k) == pb);
                    assert(views(v@)[3 + k] == v@[3 + k]@);
                    assert(wins(views(v@)[3 + k], w));
                } else {
                    let k = 6 + w[arena_c as int] - 1;
                    assert(views(v@)[k] == v@[k]@);
                    assert(wins(views(v@)[k], w));
                }
            }
            assert forall|k: int| 0 <= k < v@.len() implies crate::math::is_bet_indices(#[trigger] v@[k]) by {
                assert(v@[k]@[arena_a as int] != 0);
            }
        }
    }
    assert(pos@.len() == np);
    assert(is_positive_arena(*odds, pos@[0] as int));
    assert(pos@.len() >= 2 ==> is_positive_arena(*odds, pos@[1] as int));
    assert(pos@.len() >= 3 ==> is_positive_arena(*odds, pos@[2] as int));
    assert(covers_all(views(v@)));
    assert(v@.len() == (if np == 1 {
        4nat
    } else if np == 2 {
        7nat
    } else {
        10nat
    }));
    assert(forall|k: int| 0 <= k < v@.len() ==> crate::math::is_bet_indices(#[trigger] v@[k]));
    assert forall|k: int, a: int|
        0 <= k < v@.len() && 0 <= a < 5 && #[trigger] v@[k]@[a] != 0 implies is_positive_arena(
        *odds,
        a,
    ) by {
        if a != pos@[0] as int && (pos@.len() < 2 || a != pos@[1] as int) && (pos@.len() < 3 || a
            != pos@[2] as int) {
            assert(v@[k]@[a] == 0);
        }
    }
    Some(v)
}

/// A bet that picks a pirate in every arena has a full binary.
pub proof fn lemma_full_bin(b: Seq<u8>)
    requires
        valid_seq(b),
        forall|a: int| 0 <= a < 5 ==> #[trigger] b[a] != 0,
    ensures
        is_full_bin(seq_bin(b)),
{
    crate::math::lemma_seq_round_trip(b);
    let bin = seq_bin(b);
    assert forall|a: int| 0 <= a < 5 implies #[trigger] nibble(bin, a) != 0 by {
        assert(crate::math::bin_indices(bin)[a] == b[a]);
        assert(crate::math::nibble_index(0u32) == 0) by (bit_vector);
    }
    assert(nibble(bin, 0) != 0 && nibble(bin, 1) != 0 && nibble(bin, 2) != 0 && nibble(bin, 3) != 0
        && nibble(bin, 4) != 0);
}

/// What the draws keep are bets, at most `count` of them.
pub proof fn lemma_kept_bets(draws: Seq<u32>, count: nat, full: bool, n: int)
    ensures
        kept_draws(draws, count, full, n).len() <= count,
        forall|k: int|
            0 <= k < kept_draws(draws, count, full, n).len() ==> crate::math::is_bet_bin(
                #[trigger] kept_draws(draws, count, full, n)[k],
            ),
    decreases n,
{
    if n > 0 {
        lemma_kept_bets(draws, count, full, n - 1);
        lemma_draw_bet_valid(draws[n - 1], full);
        crate::math::lemma_seq_round_trip(draw_bet(draws[n - 1], full));
    }
}

} // verus!
