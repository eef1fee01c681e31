//! The winnings of a portfolio: which outcomes each bet wins on, and what
//! the portfolio pays out on each of the 1,024 outcomes of a round.
use vstd::prelude::*;

use crate::hash::views;
use crate::math::{pirate_bit, valid_index, valid_indices};

verus! {

/// The number of outcomes of a round: one winner in each arena.
pub const OUTCOME_COUNT: usize = 1024;

/// The outcomes that a pick in `arena` accepts: the pirate's bit, or the
/// whole group where no pirate is picked.
pub open spec fn arena_accept(p: u8, arena: u8) -> u32 {
    if p == 0 {
        (0xFu32 << ((16 - 4 * arena) as u32)) as u32
    } else {
        pirate_bit(p, arena)
    }
}

/// The acceptance mask of a bet: the pirates, arena by arena, whose win
/// leaves the bet standing.
pub open spec fn accept_mask(b: Seq<u8>) -> u32 {
    arena_accept(b[0], 0) | arena_accept(b[1], 1) | arena_accept(b[2], 2) | arena_accept(b[3], 3)
        | arena_accept(b[4], 4)
}

/// The sum of the odds of the first `n` bets whose acceptance mask is `key`.
pub open spec fn mask_total(bets: Seq<Seq<u8>>, odds: Seq<u32>, key: u32, n: int) -> nat
    decreases n,
{
    if n <= 0 {
        0
    } else {
        mask_total(bets, odds, key, n - 1) + if accept_mask(bets[n - 1]) == key {
            odds[n - 1] as nat
        } else {
            0
        }
    }
}

/// The sum of the first `n` odds.
pub open spec fn odds_total(odds: Seq<u32>, n: int) -> nat
    decreases n,
{
    if n <= 0 {
        0
    } else {
        odds_total(odds, n - 1) + odds[n - 1] as nat
    }
}

proof fn lemma_mask_total_bound(bets: Seq<Seq<u8>>, odds: Seq<u32>, key: u32, n: int)
    ensures
        mask_total(bets, odds, key, n) <= odds_total(odds, n),
    decreases n,
{
    if n > 0 {
        lemma_mask_total_bound(bets, odds, key, n - 1);
    }
}

proof fn lemma_odds_total_mono(odds: Seq<u32>, m: int, n: int)
    requires
        m <= n,
    ensures
        odds_total(odds, m) <= odds_total(odds, n),
    decreases n - m,
{
    if m < n {
        lemma_odds_total_mono(odds, m, n - 1);
    }
}

/// Some entry of `r` has the key `key`.
pub open spec fn has_key(r: Seq<(u32, u32)>, key: u32) -> bool {
    exists|i: int| 0 <= i < r.len() && (#[trigger] r[i]).0 == key
}

fn arena_accept_exec(p: u8, arena: u8) -> (r: u32)
    requires
        valid_index(p),
        arena <= 4,
    ensures
        r == arena_accept(p, arena),
{
    if p == 0 {
        let shift: u32 = (16 - 4 * arena) as u32;
        0xFu32 << shift
    } else {
        crate::math::pirate_binary(p, arena)
    }
}

/// The acceptance mask of a bet: for each arena the bit of the picked
/// pirate, or all four bits where the bet picks none there.
pub fn ib_mask(bet: [u8; 5]) -> (r: u32)
    requires
        valid_indices(bet),
    ensures
        r == accept_mask(bet@),
{
    assert(valid_index(bet@[0]) && valid_index(bet@[1]) && valid_index(bet@[2]) && valid_index(
        bet@[3],
    ) && valid_index(bet@[4]));
    arena_accept_exec(bet[0], 0) | arena_accept_exec(bet[1], 1) | arena_accept_exec(bet[2], 2)
        | arena_accept_exec(bet[3], 3) | arena_accept_exec(bet[4], 4)
}

/// The bets grouped by acceptance mask, each mask with the sum of its bets'
/// odds. Masks come in the order of their first bet.
pub fn expand_ib_object(bets: &Vec<[u8; 5]>, bet_odds: &Vec<u32>) -> (r: Vec<(u32, u32)>)
    requires
        bets@.len() == bet_odds@.len(),
        forall|k: int| 0 <= k < bets@.len() ==> valid_indices(#[trigger] bets@[k]),
        odds_total(bet_odds@, bet_odds@.len() as int) <= u32::MAX,
    ensures
        forall|i: int, j: int| 0 <= i < j < r@.len() ==> r@[i].0 != r@[j].0,
        forall|i: int|
            0 <= i < r@.len() ==> (#[trigger] r@[i]).1 == mask_total(views(bets@),
                bet_odds@,
                r@[i].0,
                bets@.len() as int,
            ),
        forall|i: int|
            0 <= i < r@.len() ==> exists|k: int|
                0 <= k < bets@.len() && accept_mask(bets@[k]@) == (#[trigger] r@[i]).0,
        forall|k: int| 0 <= k < bets@.len() ==> has_key(r@, accept_mask(#[trigger] bets@[k]@)),
{
    let mut r: Vec<(u32, u32)> = Vec::new();
    let mut k: usize = 0;
    while k < bets.len()
        invariant
            k <= bets@.len(),
            bets@.len() == bet_odds@.len(),
            forall|t: int| 0 <= t < bets@.len() ==> valid_indices(#[trigger] bets@[t]),
            odds_total(bet_odds@, bet_odds@.len() as int) <= u32::MAX,
            forall|i: int, j: int| 0 <= i < j < r@.len() ==> r@[i].0 != r@[j].0,
            forall|i: int|
                0 <= i < r@.len() ==> (#[trigger] r@[i]).1 == mask_total(views(bets@),
                    bet_odds@,
                    r@[i].0,
                    k as int,
                ),
            forall|i: int|
                0 <= i < r@.len() ==> exists|t: int|
                    0 <= t < k && accept_mask(bets@[t]@) == (#[trigger] r@[i]).0,
            forall|t: int| 0 <= t < k ==> has_key(r@, accept_mask(#[trigger] bets@[t]@)),
            forall|key: u32|
                !has_key(r@, key) ==> #[trigger] mask_total(views(bets@), bet_odds@, key, k as int) == 0,
        decreases bets@.len() - k,
    {
        assert(valid_indices(bets@[k as int]));
        let m = ib_mask(bets[k]);
        let o = bet_odds[k];
        let ghost r0 = r@;
        let mut found = false;
        let mut i: usize = 0;
        while i < r.len() && !found
            invariant
                i <= r@.len(),
                r@.len() == r0.len(),
                found ==> i < r0.len() && r0[i as int].0 == m,
                !found ==> forall|t: int| 0 <= t < i ==> r0[t].0 != m,
                r@ == r0,
            decreases r@.len() - i + (if found {
                0int
            } else {
                1int
            }),
        {
            if r[i].0 == m {
                found = true;
            } else {
                i = i + 1;
            }
        }
        proof {
            lemma_mask_total_bound(views(bets@), bet_odds@, m, k + 1);
            lemma_odds_total_mono(bet_odds@, k + 1, bet_odds@.len() as int);
        }
        if found {
            let (key, w) = r[i];
            r.set(i, (key, w + o));
            assert forall|t: int| 0 <= t < r@.len() implies (#[trigger] r@[t]).1 == mask_total(views(bets@),
                bet_odds@,
                r@[t].0,
                k + 1,
            ) by {
                if t != i {
                    assert(r@[t] == r0[t]);
                }
            }
            assert forall|t: int| 0 <= t < r@.len() implies exists|s: int|
                0 <= s < k + 1 && accept_mask(bets@[s]@) == (#[trigger] r@[t]).0 by {
                assert(r@[t].0 == r0[t].0);
            }
            assert forall|s: int| 0 <= s < k + 1 implies has_key(r@, accept_mask(#[trigger] bets@[s]@)) by {
                if s == k {
                    assert(r@[i as int].0 == m);
                } else {
                    assert(has_key(r0, accept_mask(bets@[s]@)));
                    let t = choose|t: int| 0 <= t < r0.len() && (#[trigger] r0[t]).0 == accept_mask(bets@[s]@);
                    assert(r@[t].0 == r0[t].0);
                }
            }
        } else {
            proof {
                if has_key(r0, m) {
                    let t = choose|t: int| 0 <= t < r0.len() && (#[trigger] r0[t]).0 == m;
                }
                assert(mask_total(views(bets@), bet_odds@, m, k as int) == 0);
            }
            r.push((m, o));
            assert forall|t: int| 0 <= t < r@.len() implies (#[trigger] r@[t]).1 == mask_total(views(bets@),
                bet_odds@,
                r@[t].0,
                k + 1,
            ) by {
                if t < r0.len() {
                    assert(r@[t] == r0[t]);
                }
            }
            assert forall|t: int| 0 <= t < r@.len() implies exists|s: int|
                0 <= s < k + 1 && accept_mask(bets@[s]@) == (#[trigger] r@[t]).0 by {
                if t < r0.len() {
                    assert(r@[t] == r0[t]);
                } else {
                    assert(accept_mask(bets@[k as int]@) == r@[t].0);
                }
            }
            assert forall|s: int| 0 <= s < k + 1 implies has_key(r@, accept_mask(#[trigger] bets@[s]@)) by {
                if s == k {
                    assert(r@[r0.len() as int].0 == m);
                } else {
                    assert(has_key(r0, accept_mask(bets@[s]@)));
                    let t = choose|t: int| 0 <= t < r0.len() && (#[trigger] r0[t]).0 == accept_mask(bets@[s]@);
                    assert(r@[t] == r0[t]);
                }
            }
        }
        assert forall|key: u32| !has_key(r@, key) implies #[trigger] mask_total(views(bets@),
            bet_odds@,
            key,
            k + 1,
        ) == 0 by {
            if key == m {
                if found {
                    assert(r@[i as int].0 == m);
                } else {
                    assert(r@[r0.len() as int].0 == m);
                }
            }
            if has_key(r0, key) {
                let t = choose|t: int| 0 <= t < r0.len() && (#[trigger] r0[t]).0 == key;
                assert(r@[t].0 == r0[t].0);
                assert(has_key(r@, key));
            }
            assert(mask_total(views(bets@), bet_odds@, key, k as int) == 0);
        }
        k = k + 1;
    }
    r
}

/// The winners of outcome `o`: its five base-4 digits, each plus one.
pub open spec fn outcome_picks(o: int) -> Seq<u8> {
    seq![
        ((o / 256) % 4 + 1) as u8,
        ((o / 64) % 4 + 1) as u8,
        ((o / 16) % 4 + 1) as u8,
        ((o / 4) % 4 + 1) as u8,
        (o % 4 + 1) as u8,
    ]
}

/// A bet wins when each of its picks is its arena's winner.
pub open spec fn wins(b: Seq<u8>, w: Seq<u8>) -> bool {
    forall|a: int| 0 <= a < 5 ==> b[a] == 0 || b[a] == w[a]
}

/// The sum of the odds of the first `n` bets that win under winners `w`.
pub open spec fn win_total(bets: Seq<Seq<u8>>, odds: Seq<u32>, w: Seq<u8>, n: int) -> nat
    decreases n,
{
    if n <= 0 {
        0
    } else {
        win_total(bets, odds, w, n - 1) + if wins(bets[n - 1], w) {
            odds[n - 1] as nat
        } else {
            0
        }
    }
}

proof fn lemma_win_total_bound(bets: Seq<Seq<u8>>, odds: Seq<u32>, w: Seq<u8>, n: int)
    ensures
        win_total(bets, odds, w, n) <= odds_total(odds, n),
    decreases n,
{
    if n > 0 {
        lemma_win_total_bound(bets, odds, w, n - 1);
    }
}

/// Whether a bet wins under the winners `w`.
pub fn bet_wins(bet: &[u8; 5], w: &[u8; 5]) -> (r: bool)
    ensures
        r == wins(bet@, w@),
{
    let mut a: usize = 0;
    while a < 5
        invariant
            a <= 5,
            forall|t: int| 0 <= t < a ==> bet@[t] == 0 || bet@[t] == w@[t],
        decreases 5 - a,
    {
        if bet[a] != 0 && bet[a] != w[a] {
            return false;
        }
        a = a + 1;
    }
    true
}

/// The total odds that the bets pay out under the winners `w`.
pub fn winnings(bets: &Vec<[u8; 5]>, bet_odds: &Vec<u32>, w: &[u8; 5]) -> (r: u32)
    requires
        bets@.len() == bet_odds@.len(),
        odds_total(bet_odds@, bet_odds@.len() as int) <= u32::MAX,
    ensures
        r == win_total(views(bets@), bet_odds@, w@, bets@.len() as int),
{
    let mut r: u32 = 0;
    let mut k: usize = 0;
    while k < bets.len()
        invariant
            k <= bets@.len(),
            bets@.len() == bet_odds@.len(),
            odds_total(bet_odds@, bet_odds@.len() as int) <= u32::MAX,
            r == win_total(views(bets@), bet_odds@, w@, k as int),
        decreases bets@.len() - k,
    {
        proof {
            lemma_win_total_bound(views(bets@), bet_odds@, w@, k + 1);
            lemma_odds_total_mono(bet_odds@, k + 1, bet_odds@.len() as int);
        }
        if bet_wins(&bets[k], w) {
            r = r + bet_odds[k];
        }
        k = k + 1;
    }
    r
}

/// What the bets pay out on each outcome of a round, outcome `o` being the
/// one whose winners are `outcome_picks(o)`.
pub fn outcome_payouts(bets: &Vec<[u8; 5]>, bet_odds: &Vec<u32>) -> (r: Vec<u32>)
    requires
        bets@.len() == bet_odds@.len(),
        odds_total(bet_odds@, bet_odds@.len() as int) <= u32::MAX,
    ensures
        r@.len() == OUTCOME_COUNT,
        forall|o: int|
            0 <= o < OUTCOME_COUNT ==> #[trigger] r@[o] == win_total(views(bets@),
                bet_odds@,
                outcome_picks(o),
                bets@.len() as int,
            ),
{
    let mut r: Vec<u32> = Vec::new();
    let mut o: usize = 0;
    while o < OUTCOME_COUNT
        invariant
            o <= OUTCOME_COUNT,
            bets@.len() == bet_odds@.len(),
            odds_total(bet_odds@, bet_odds@.len() as int) <= u32::MAX,
            r@.len() == o,
            forall|t: int|
                0 <= t < o ==> #[trigger] r@[t] == win_total(views(bets@),
                    bet_odds@,
                    outcome_picks(t),
                    bets@.len() as int,
                ),
        decreases OUTCOME_COUNT - o,
    {
        let w: [u8; 5] = [
            ((o / 256) % 4 + 1) as u8,
            ((o / 64) % 4 + 1) as u8,
            ((o / 16) % 4 + 1) as u8,
            ((o / 4) % 4 + 1) as u8,
            (o % 4 + 1) as u8,
        ];
        assert(w@ =~= outcome_picks(o as int));
        r.push(winnings(bets, bet_odds, &w));
        o = o + 1;
    }
    r
}

/// The distinct values of `payouts`, in strictly ascending order.
pub fn payout_tiers(payouts: &Vec<u32>) -> (r: Vec<u32>)
    ensures
        forall|i: int, j: int| 0 <= i < j < r@.len() ==> r@[i] < r@[j],
        forall|i: int| 0 <= i < r@.len() ==> payouts@.contains(#[trigger] r@[i]),
        forall|o: int| 0 <= o < payouts@.len() ==> r@.contains(#[trigger] payouts@[o]),
{
    let mut r: Vec<u32> = Vec::new();
    let mut more = true;
    while more
        invariant
            forall|i: int, j: int| 0 <= i < j < r@.len() ==> r@[i] < r@[j],
            forall|i: int| 0 <= i < r@.len() ==> payouts@.contains(#[trigger] r@[i]),
            forall|o: int|
                0 <= o < payouts@.len() ==> r@.contains(#[trigger] payouts@[o]) || r@.len() == 0
                    || payouts@[o] > r@.last(),
            !more ==> forall|o: int| 0 <= o < payouts@.len() ==> r@.contains(#[trigger] payouts@[o]),
            r@.len() > 0 ==> r@.last() <= u32::MAX,
        decreases (if more {
            1int
        } else {
            0int
        }) + u32::MAX as int + 1 - (if r@.len() > 0 {
            r@.last() as int + 1
        } else {
            0int
        }),
    {
        let mut best: Option<u32> = None;
        let mut i: usize = 0;
        while i < payouts.len()
            invariant
                i <= payouts@.len(),
                forall|t: int|
                    0 <= t < i && (r@.len() == 0 || payouts@[t] > r@.last()) ==> match best {
                        Some(b) => b <= payouts@[t],
                        None => false,
                    },
                match best {
                    Some(b) => payouts@.contains(b) && (r@.len() == 0 || b > r@.last()),
                    None => true,
                },
            decreases payouts@.len() - i,
        {
            let v = payouts[i];
            let above = r.len() == 0 || v > r[r.len() - 1];
            if above {
                match best {
                    Some(b) => {
                        if v < b {
                            best = Some(v);
                        }
                    },
                    None => {
                        best = Some(v);
                    },
                }
            }
            i = i + 1;
        }
        match best {
            Some(b) => {
                let ghost r0 = r@;
                r.push(b);
                assert forall|o: int| 0 <= o < payouts@.len() implies r@.contains(
                    #[trigger] payouts@[o],
                ) || r@.len() == 0 || payouts@[o] > r@.last() by {
                    if r0.contains(payouts@[o]) {
                        let t = choose|t: int| 0 <= t < r0.len() && r0[t] == payouts@[o];
                        assert(r@[t] == payouts@[o]);
                    } else if payouts@[o] == b {
                        assert(r@[r0.len() as int] == b);
                    }
                }
            },
            None => {
                more = false;
            },
        }
    }
    r
}

} // verus!
