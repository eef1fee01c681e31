//! A round of the food club: its data, the odds in use under a modifier,
//! the round table and arenas built from them, and portfolios of bets.
use vstd::prelude::*;

use crate::modifier::{custom_lookup, Modifier, DAY_SECONDS};
use crate::math::{seq_bin, valid_indices};
use crate::model::Arenas;
use crate::table::{round_table, valid_odds, RoundTable};

verus! {

/// Eight hours in seconds: Neopian Standard Time is that far behind UTC.
pub const NST_OFFSET: u32 = 28800;

/// A change of one pirate's odds during a round.
#[derive(Clone, Copy, Debug, PartialEq, Eq, Structural)]
pub struct OddsChange {
    /// When the change happened, in seconds since the Unix epoch.
    pub t: i64,
    pub old: u8,
    pub new: u8,
    /// The pirate's place in its arena, 1 to 4.
    pub pirate: u8,
    /// The arena, 0 to 4.
    pub arena: u8,
}

impl OddsChange {
    /// A change names a pirate of an arena and odds from 2 to 13.
    pub open spec fn wf(&self) -> bool {
        1 <= self.pirate <= 4 && self.arena <= 4 && 2 <= self.new <= 13
    }

    /// The pirate's place in its arena, 1 to 4.
    pub fn pirate_index(&self) -> (r: usize)
        ensures
            r == self.pirate,
    {
        self.pirate as usize
    }

    /// The arena, 0 to 4.
    pub fn arena_index(&self) -> (r: usize)
        ensures
            r == self.arena,
    {
        self.arena as usize
    }

    /// The id of the pirate that changed, under the round's pirate ids.
    pub fn pirate_id(&self, pirates: &[[u8; 4]; 5]) -> (r: usize)
        requires
            self.wf(),
        ensures
            r == pirates@[self.arena as int]@[self.pirate - 1],
    {
        pirates[self.arena as usize][(self.pirate - 1) as usize] as usize
    }
}

/// The data of a round as it is published.
#[derive(Clone, Debug)]
pub struct RoundData {
    pub round: u16,
    /// The start, in seconds since the Unix epoch.
    pub start: Option<i64>,
    /// When the data was taken, in seconds since the Unix epoch.
    pub timestamp: Option<i64>,
    /// The last change of odds, in seconds since the Unix epoch.
    pub last_change: Option<i64>,
    /// The pirate ids of each arena.
    pub pirates: [[u8; 4]; 5],
    pub current_odds: [[u8; 5]; 5],
    pub opening_odds: [[u8; 5]; 5],
    /// The winner of each arena, 0 while the round runs.
    pub winners: [u8; 5],
    pub foods: Option<[[u8; 10]; 5]>,
    pub changes: Vec<OddsChange>,
}

impl RoundData {
    /// Odds in range, winners 0 to 4, changes that name real pirates.
    pub open spec fn wf(&self) -> bool {
        &&& valid_odds(self.current_odds)
        &&& valid_odds(self.opening_odds)
        &&& forall|a: int| 0 <= a < 5 ==> #[trigger] self.winners@[a] <= 4
        &&& forall|k: int| 0 <= k < self.changes@.len() ==> (#[trigger] self.changes@[k]).wf()
    }
}

/// An odds matrix as rows of integers.
pub open spec fn grid(o: [[u8; 5]; 5]) -> Seq<Seq<u8>> {
    o@.map_values(|r: [u8; 5]| r@)
}

/// The odds after the first `n` changes that happened by `cutoff`, starting
/// from `odds`.
pub open spec fn odds_after(odds: Seq<Seq<u8>>, changes: Seq<OddsChange>, cutoff: int, n: int) -> Seq<
    Seq<u8>,
>
    decreases n,
{
    if n <= 0 {
        odds
    } else {
        let before = odds_after(odds, changes, cutoff, n - 1);
        let c = changes[n - 1];
        if c.t <= cutoff {
            before.update(c.arena as int, before[c.arena as int].update(c.pirate as int, c.new))
        } else {
            before
        }
    }
}

/// The first moment at or after `start` whose time of day in Neopian
/// Standard Time is `time`.
pub open spec fn cutoff_of(start: i64, time: u32) -> int {
    let tod = (start + DAY_SECONDS - NST_OFFSET) % (DAY_SECONDS as int);
    start + (time - tod + DAY_SECONDS) % (DAY_SECONDS as int)
}

/// The odds under the flags and custom time of a modifier: the opening
/// odds with the changes up to the custom time where one is set, else the
/// opening or the current odds as the flags say.
pub open spec fn base_odds(data: RoundData, m: Modifier) -> Seq<Seq<u8>> {
    match (m.custom_time, data.start) {
        (Some(t), Some(s)) => odds_after(
            grid(data.opening_odds),
            data.changes@,
            cutoff_of(s, t),
            data.changes@.len() as int,
        ),
        _ => if m.value & crate::modifier::OPENING_ODDS != 0 {
            grid(data.opening_odds)
        } else {
            grid(data.current_odds)
        },
    }
}

/// The odds in use: the base odds with the modifier's custom odds laid over
/// them, pirate by pirate.
pub open spec fn used_odds(data: RoundData, m: Modifier) -> Seq<Seq<u8>> {
    let base = base_odds(data, m);
    Seq::new(
        5,
        |a: int|
            Seq::new(
                5,
                |i: int|
                    if i == 0 {
                        base[a][0]
                    } else {
                        match custom_lookup(m.custom_odds, data.pirates@[a]@[i - 1]) {
                            Some(o) => o,
                            None => base[a][i],
                        }
                    },
            ),
    )
}

/// Odds from 2 to 13 in columns 1 to 4 of five rows of five.
pub open spec fn valid_grid(g: Seq<Seq<u8>>) -> bool {
    forall|a: int, i: int| 0 <= a < 5 && 1 <= i < 5 ==> 2 <= #[trigger] g[a][i] <= 13
}

/// Data and a modifier that make a round: the data in range, a start (if
/// any) after the Unix epoch, and odds in use from 2 to 13.
pub open spec fn round_ok(data: RoundData, m: Modifier) -> bool {
    &&& data.wf()
    &&& m.wf()
    &&& (data.start matches Some(s) ==> s >= 0)
    &&& valid_grid(used_odds(data, m))
}

/// Why a round could not be made.
#[derive(PartialEq, Eq, Structural, Clone, Copy, Debug)]
pub enum RoundError {
    /// Odds, winners, changes or custom odds out of range.
    InvalidInput,
}

/// A round under a modifier, with a global bet amount.
pub struct Round {
    pub data: RoundData,
    pub bet_amount: Option<u32>,
    pub modifier: Modifier,
    /// The odds in use.
    pub odds: [[u8; 5]; 5],
    pub table: RoundTable,
    pub arenas: Arenas,
}

fn odds_in_range(o: &[[u8; 5]; 5]) -> (r: bool)
    ensures
        r == valid_odds(*o),
{
    let mut a: usize = 0;
    while a < 5
        invariant
            a <= 5,
            forall|t: int, i: int| 0 <= t < a && 1 <= i < 5 ==> 2 <= #[trigger] o@[t]@[i] <= 13,
        decreases 5 - a,
    {
        let mut i: usize = 1;
        while i < 5
            invariant
                a < 5,
                1 <= i <= 5,
                forall|t: int, j: int| 0 <= t < a && 1 <= j < 5 ==> 2 <= #[trigger] o@[t]@[j] <= 13,
                forall|j: int| 1 <= j < i ==> 2 <= #[trigger] o@[a as int]@[j] <= 13,
            decreases 5 - i,
        {
            if o[a][i] < 2 || o[a][i] > 13 {
                return false;
            }
            i = i + 1;
        }
        a = a + 1;
    }
    true
}

fn data_in_range(data: &RoundData) -> (r: bool)
    ensures
        r == data.wf(),
{
    if !odds_in_range(&data.current_odds) || !odds_in_range(&data.opening_odds) {
        return false;
    }
    let mut a: usize = 0;
    while a < 5
        invariant
            a <= 5,
            forall|t: int| 0 <= t < a ==> #[trigger] data.winners@[t] <= 4,
        decreases 5 - a,
    {
        if data.winners[a] > 4 {
            return false;
        }
        a = a + 1;
    }
    let mut k: usize = 0;
    while k < data.changes.len()
        invariant
            k <= data.changes@.len(),
            forall|t: int| 0 <= t < k ==> (#[trigger] data.changes@[t]).wf(),
        decreases data.changes@.len() - k,
    {
        let c = data.changes[k];
        if c.pirate < 1 || c.pirate > 4 || c.arena > 4 || c.new < 2 || c.new > 13 {
            return false;
        }
        k = k + 1;
    }
    true
}

proof fn lemma_valid_grid(o: [[u8; 5]; 5])
    ensures
        valid_odds(o) == valid_grid(grid(o)),
{
    if valid_odds(o) {
        assert forall|a: int, i: int| 0 <= a < 5 && 1 <= i < 5 implies 2 <= #[trigger] grid(o)[a][i] <= 13 by {
            assert(grid(o)[a][i] == o@[a]@[i]);
        }
    }
    if valid_grid(grid(o)) {
        assert forall|a: int, i: int| 0 <= a < 5 && 1 <= i < 5 implies 2 <= #[trigger] o@[a]@[i] <= 13 by {
            assert(grid(o)[a][i] == o@[a]@[i]);
        }
    }
}

fn set_odds(o: &mut [[u8; 5]; 5], a: usize, i: usize, v: u8)
    requires
        a < 5,
        i < 5,
    ensures
        grid(*final(o)) == grid(*old(o)).update(a as int, grid(*old(o))[a as int].update(i as int, v)),
{
    let mut row = o[a];
    row[i] = v;
    o[a] = row;
    assert(grid(*o) =~= grid(*old(o)).update(a as int, grid(*old(o))[a as int].update(i as int, v)));
}

/// The odds under the flags and custom time of `m`.
fn compute_base_odds(data: &RoundData, m: &Modifier) -> (r: [[u8; 5]; 5])
    requires
        data.wf(),
        m.wf(),
        data.start matches Some(s) ==> s >= 0,
    ensures
        grid(r) == base_odds(*data, *m),
{
    match (m.custom_time, data.start) {
        (Some(t), Some(s)) => {
            let day: i128 = DAY_SECONDS as i128;
            let tod: i128 = ((s as i128) + day - (NST_OFFSET as i128)) % day;
            let cutoff: i128 = (s as i128) + ((t as i128) - tod + day) % day;
            assert(cutoff == cutoff_of(s, t));
            let mut o = data.opening_odds;
            let mut k: usize = 0;
            while k < data.changes.len()
                invariant
                    k <= data.changes@.len(),
                    data.wf(),
                    grid(o) == odds_after(grid(data.opening_odds), data.changes@, cutoff as int, k as int),
                decreases data.changes@.len() - k,
            {
                let c = data.changes[k];
                assert(c.wf());
                if (c.t as i128) <= cutoff {
                    set_odds(&mut o, c.arena as usize, c.pirate as usize, c.new);
                }
                k = k + 1;
            }
            o
        },
        _ => {
            if m.value & crate::modifier::OPENING_ODDS != 0 {
                data.opening_odds
            } else {
                data.current_odds
            }
        },
    }
}

/// The odds in use under `m`.
fn compute_used_odds(data: &RoundData, m: &Modifier) -> (r: [[u8; 5]; 5])
    requires
        data.wf(),
        m.wf(),
        data.start matches Some(s) ==> s >= 0,
    ensures
        grid(r) == used_odds(*data, *m),
{
    let mut o = compute_base_odds(data, m);
    let ghost base = grid(o);
    let mut a: usize = 0;
    while a < 5
        invariant
            a <= 5,
            base == base_odds(*data, *m),
            grid(o).len() == 5,
            forall|t: int| 0 <= t < 5 ==> (#[trigger] grid(o)[t]).len() == 5,
            forall|t: int, i: int|
                0 <= t < a && 0 <= i < 5 ==> #[trigger] grid(o)[t][i] == used_odds(*data, *m)[t][i],
            forall|t: int, i: int| a <= t < 5 && 0 <= i < 5 ==> #[trigger] grid(o)[t][i] == base[t][i],
        decreases 5 - a,
    {
        let mut i: usize = 1;
        while i < 5
            invariant
                a < 5,
                1 <= i <= 5,
                base == base_odds(*data, *m),
                grid(o).len() == 5,
                forall|t: int| 0 <= t < 5 ==> (#[trigger] grid(o)[t]).len() == 5,
                forall|t: int, j: int|
                    0 <= t < a && 0 <= j < 5 ==> #[trigger] grid(o)[t][j] == used_odds(*data, *m)[t][j],
                forall|j: int|
                    0 <= j < i ==> #[trigger] grid(o)[a as int][j] == used_odds(*data, *m)[a as int][j],
                forall|t: int, j: int|
                    a <= t < 5 && 0 <= j < 5 && !(t == a && j < i) ==> #[trigger] grid(o)[t][j]
                        == base[t][j],
            decreases 5 - i,
        {
            let id = data.pirates[a][i - 1];
            match m.custom_odds_of(id) {
                Some(x) => {
                    set_odds(&mut o, a, i, x);
                },
                None => {},
            }
            i = i + 1;
        }
        a = a + 1;
    }
    assert(grid(o) =~= used_odds(*data, *m)) by {
        assert forall|t: int| 0 <= t < 5 implies #[trigger] grid(o)[t] =~= used_odds(*data, *m)[t] by {}
    }
    o
}

impl Round {
    /// The round's odds in use, table and arenas follow from its data and
    /// modifier.
    pub open spec fn wf(&self) -> bool {
        &&& round_ok(self.data, self.modifier)
        &&& grid(self.odds) == used_odds(self.data, self.modifier)
        &&& valid_odds(self.odds)
        &&& self.table.wf(self.odds)
        &&& self.arenas.wf()
        &&& forall|a: int, i: int|
            0 <= a < 5 && 0 <= i < 4 ==> {
                let p = #[trigger] self.arenas.arenas@[a].pirates@[i];
                &&& p.id == self.data.pirates@[a]@[i]
                &&& p.current_odds == self.odds@[a]@[i + 1]
                &&& p.opening_odds == self.data.opening_odds@[a]@[i + 1]
            }
    }

    /// A round from its data, a global bet amount and a modifier; an error
    /// where the data are out of range or the odds in use leave 2 to 13.
    pub fn new(data: RoundData, bet_amount: Option<u32>, modifier: Modifier) -> (r: Result<
        Round,
        RoundError,
    >)
        ensures
            r is Ok <==> round_ok(data, modifier),
            r matches Ok(round) ==> {
                &&& round.wf()
                &&& round.data == data
                &&& round.bet_amount == bet_amount
                &&& round.modifier == modifier
            },
    {
        if !data_in_range(&data) {
            return Err(RoundError::InvalidInput);
        }
        match modifier.custom_time {
            Some(t) => if t >= DAY_SECONDS {
                return Err(RoundError::InvalidInput);
            },
            None => {},
        }
        match data.start {
            Some(s) => if s < 0 {
                return Err(RoundError::InvalidInput);
            },
            None => {},
        }
        let odds = compute_used_odds(&data, &modifier);
        proof {
            lemma_valid_grid(odds);
        }
        if !odds_in_range(&odds) {
            return Err(RoundError::InvalidInput);
        }
        let table = round_table(&odds);
        let arenas = Arenas::new(&data.pirates, &odds, &data.opening_odds, &data.winners, &data.foods);
        Ok(Round { data, bet_amount, modifier, odds, table, arenas })
    }

    /// The round number.
    pub fn round(&self) -> (r: u16)
        ensures
            r == self.data.round,
    {
        self.data.round
    }

    /// The winners' binary; 0 while the round runs.
    pub fn winners_binary(&self) -> (r: u32)
        requires
            self.wf(),
        ensures
            r == seq_bin(self.data.winners@),
    {
        assert(valid_indices(self.data.winners));
        crate::math::pirates_binary(self.data.winners)
    }

    /// The round is over once every arena has a winner.
    pub fn is_over(&self) -> (r: bool)
        ensures
            r == forall|a: int| 0 <= a < 5 ==> #[trigger] self.data.winners@[a] != 0,
    {
        let mut a: usize = 0;
        while a < 5
            invariant
                a <= 5,
                forall|t: int| 0 <= t < a ==> #[trigger] self.data.winners@[t] != 0,
            decreases 5 - a,
        {
            if self.data.winners[a] == 0 {
                return false;
            }
            a = a + 1;
        }
        true
    }

    /// The most bets a portfolio holds: 10 under Charity Corner, else 15.
    pub fn max_amount_of_bets(&self) -> (r: usize)
        ensures
            r == if self.modifier.value & crate::modifier::CHARITY_CORNER != 0 {
                10usize
            } else {
                15usize
            },
    {
        if self.modifier.is_charity_corner() {
            10
        } else {
            15
        }
    }

    /// The odds in use differ from the current odds.
    pub fn modified(&self) -> (r: bool)
        requires
            self.wf(),
        ensures
            r == (grid(self.odds) != grid(self.data.current_odds)),
    {
        let mut a: usize = 0;
        while a < 5
            invariant
                a <= 5,
                forall|t: int, i: int|
                    0 <= t < a && 0 <= i < 5 ==> #[trigger] self.odds@[t]@[i]
                        == self.data.current_odds@[t]@[i],
            decreases 5 - a,
        {
            let mut i: usize = 0;
            while i < 5
                invariant
                    a < 5,
                    i <= 5,
                    forall|t: int, j: int|
                        0 <= t < a && 0 <= j < 5 ==> #[trigger] self.odds@[t]@[j]
                            == self.data.current_odds@[t]@[j],
                    forall|j: int|
                        0 <= j < i ==> #[trigger] self.odds@[a as int]@[j]
                            == self.data.current_odds@[a as int]@[j],
                decreases 5 - i,
            {
                if self.odds[a][i] != self.data.current_odds[a][i] {
                    assert(grid(self.odds)[a as int][i as int] != grid(self.data.current_odds)[a as int][i as int]);
                    return true;
                }
                i = i + 1;
            }
            a = a + 1;
        }
        assert(grid(self.odds) =~= grid(self.data.current_odds)) by {
            assert forall|t: int| 0 <= t < 5 implies #[trigger] grid(self.odds)[t] =~= grid(self.data.current_odds)[t] by {}
        }
        false
    }

    /// The odds in use.
    pub fn custom_odds(&self) -> (r: [[u8; 5]; 5])
        ensures
            r == self.odds,
    {
        self.odds
    }

    /// The current odds as published.
    pub fn current_odds(&self) -> (r: [[u8; 5]; 5])
        ensures
            r == self.data.current_odds,
    {
        self.data.current_odds
    }

    /// The opening odds as published.
    pub fn opening_odds(&self) -> (r: [[u8; 5]; 5])
        ensures
            r == self.data.opening_odds,
    {
        self.data.opening_odds
    }

    /// The pirate ids of each arena.
    pub fn pirates(&self) -> (r: [[u8; 4]; 5])
        ensures
            r == self.data.pirates,
    {
        self.data.pirates
    }

    /// The winner of each arena.
    pub fn winners(&self) -> (r: [u8; 5])
        ensures
            r == self.data.winners,
    {
        self.data.winners
    }

    /// The foods served, where known.
    pub fn foods(&self) -> (r: Option<[[u8; 10]; 5]>)
        ensures
            r == self.data.foods,
    {
        self.data.foods
    }

    /// The round still runs a day after its start, or has no start: its
    /// lock is outdated at the time `now` (seconds since the Unix epoch).
    pub fn is_outdated_lock(&self, now: i64) -> (r: bool)
        ensures
            r == (!(forall|a: int| 0 <= a < 5 ==> #[trigger] self.data.winners@[a] != 0) && match self.data.start {
                Some(s) => now as int - s as int > DAY_SECONDS as int,
                None => true,
            }),
    {
        if self.is_over() {
            return false;
        }
        match self.data.start {
            Some(s) => (now as i128) - (s as i128) > DAY_SECONDS as i128,
            None => true,
        }
    }

    /// Replaces the global bet amount.
    pub fn set_bet_amount(&mut self, bet_amount: Option<u32>)
        ensures
            final(self).bet_amount == bet_amount,
            final(self).data == old(self).data,
            final(self).modifier == old(self).modifier,
            final(self).odds == old(self).odds,
            final(self).table == old(self).table,
            final(self).arenas == old(self).arenas,
    {
        self.bet_amount = bet_amount;
    }
}

} // verus!
