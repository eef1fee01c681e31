//! The round's pirates and arenas as the betting logic reads them.
use vstd::prelude::*;

use crate::builders::{all_rows, ranks_before, select_top};
use crate::math::pirate_bit;

verus! {

/// The sum over an arena's four pirates of `1 / odds`, times the product of
/// their odds: `Σ_i Π_{j≠i} o_j`.
pub open spec fn pot_numerator(o: Seq<u8>) -> int {
    o[1] * o[2] * o[3] + o[0] * o[2] * o[3] + o[0] * o[1] * o[3] + o[0] * o[1] * o[2]
}

/// The product of an arena's four odds.
pub open spec fn pot_denominator(o: Seq<u8>) -> int {
    o[0] * o[1] * o[2] * o[3]
}

/// An arena is positive when the sum of `1 / odds` over its pirates is
/// above 1, said over integers.
pub open spec fn pot_positive(o: Seq<u8>) -> bool {
    pot_numerator(o) > pot_denominator(o)
}

/// Whether the sum of `1 / odds` over four odds, each from 1 to 13, is above 1.
pub fn odds_positive(o: [u8; 4]) -> (r: bool)
    requires
        forall|i: int| 0 <= i < 4 ==> 1 <= #[trigger] o@[i] <= 13,
    ensures
        r == pot_positive(o@),
{
    let (a, b, c, d) = (o[0] as u64, o[1] as u64, o[2] as u64, o[3] as u64);
    assert(1 <= a <= 13 && 1 <= b <= 13 && 1 <= c <= 13 && 1 <= d <= 13) by {
        assert(1 <= o@[0] <= 13 && 1 <= o@[1] <= 13 && 1 <= o@[2] <= 13 && 1 <= o@[3] <= 13);
    }
    assert(b * c <= 169 && a * c <= 169 && a * b <= 169 && b * c * d <= 2197 && a * c * d <= 2197
        && a * b * d <= 2197 && a * b * c <= 2197 && a * b * c * d <= 28561) by (nonlinear_arith)
        requires
            1 <= a <= 13,
            1 <= b <= 13,
            1 <= c <= 13,
            1 <= d <= 13,
    ;
    b * c * d + a * c * d + a * b * d + a * b * c > a * b * c * d
}

/// A pirate of a round.
#[derive(Clone, Copy, Debug, PartialEq, Eq, Structural)]
pub struct Pirate {
    /// Its id, 1 to 20.
    pub id: u8,
    /// Its arena, 0 to 4.
    pub arena_id: u8,
    /// Its place in the arena, 1 to 4.
    pub index: u8,
    pub current_odds: u8,
    pub opening_odds: u8,
    /// Positive food adjustment.
    pub pfa: Option<u8>,
    /// Negative food adjustment.
    pub nfa: Option<i8>,
    /// Net food adjustment.
    pub fa: Option<i8>,
    pub is_winner: bool,
}

impl Pirate {
    /// A pirate sits at a place of an arena.
    pub open spec fn wf(&self) -> bool {
        1 <= self.index <= 4 && self.arena_id <= 4
    }

    #[allow(clippy::too_many_arguments)]
    pub fn new(
        id: u8,
        arena_id: u8,
        index: u8,
        current_odds: u8,
        opening_odds: u8,
        is_winner: bool,
        pfa: Option<u8>,
        nfa: Option<i8>,
        fa: Option<i8>,
    ) -> (r: Pirate)
        ensures
            r == (Pirate {
                id,
                arena_id,
                index,
                current_odds,
                opening_odds,
                pfa,
                nfa,
                fa,
                is_winner,
            }),
    {
        Pirate { id, arena_id, index, current_odds, opening_odds, pfa, nfa, fa, is_winner }
    }

    /// The pirate's bit in a bet binary.
    pub fn binary(&self) -> (r: u32)
        requires
            self.wf(),
        ensures
            r == pirate_bit(self.index, self.arena_id),
    {
        crate::math::pirate_binary(self.index, self.arena_id)
    }
}

/// A pirate known by its id alone.
#[derive(Clone, Copy, Debug, PartialEq, Eq, Structural)]
pub struct PartialPirate {
    pub id: usize,
}

impl PartialPirate {
    pub fn new(id: usize) -> (r: PartialPirate)
        ensures
            r.id == id,
    {
        PartialPirate { id }
    }
}

/// The name of the arena at place `id`.
pub open spec fn arena_name(id: u8) -> Seq<char> {
    if id == 0 {
        "Shipwreck"@
    } else if id == 1 {
        "Lagoon"@
    } else if id == 2 {
        "Treasure Island"@
    } else if id == 3 {
        "Hidden Cove"@
    } else {
        "Harpoon Harry's"@
    }
}

/// The first pirate of `ps` with id `id`.
pub open spec fn first_with_id(ps: Seq<Pirate>, id: u8) -> Option<Pirate>
    decreases ps.len(),
{
    if ps.len() == 0 {
        None
    } else if ps[0].id == id {
        Some(ps[0])
    } else {
        first_with_id(ps.drop_first(), id)
    }
}

/// The first pirate with each id, for the ids that some pirate has.
pub open spec fn pirates_with_ids(ps: Seq<Pirate>, ids: Seq<u8>) -> Seq<Pirate>
    decreases ids.len(),
{
    if ids.len() == 0 {
        Seq::empty()
    } else {
        let rest = pirates_with_ids(ps, ids.drop_last());
        match first_with_id(ps, ids.last()) {
            Some(p) => rest.push(p),
            None => rest,
        }
    }
}

/// One of the five arenas of a round.
#[derive(Clone, Debug)]
pub struct Arena {
    /// Its place, 0 to 4.
    pub id: u8,
    /// Its four pirates, by place.
    pub pirates: Vec<Pirate>,
    /// The place of the winner, or 0 while the round runs.
    pub winner: u8,
    /// The foods served, where known.
    pub foods: Option<[u8; 10]>,
}

impl Arena {
    /// Four pirates at places 1 to 4 of this arena, with odds from 1 to 13.
    pub open spec fn wf(&self) -> bool {
        &&& self.id <= 4
        &&& self.winner <= 4
        &&& self.pirates@.len() == 4
        &&& forall|i: int|
            0 <= i < 4 ==> {
                &&& (#[trigger] self.pirates@[i]).index == i + 1
                &&& self.pirates@[i].arena_id == self.id
                &&& 1 <= self.pirates@[i].current_odds <= 13
            }
    }

    /// The current odds of the four pirates.
    pub open spec fn odds_view(&self) -> Seq<u8> {
        self.pirates@.map_values(|p: Pirate| p.current_odds)
    }

    pub fn name(&self) -> (r: &'static str)
        requires
            self.wf(),
        ensures
            r@ == arena_name(self.id),
    {
        if self.id == 0 {
            "Shipwreck"
        } else if self.id == 1 {
            "Lagoon"
        } else if self.id == 2 {
            "Treasure Island"
        } else if self.id == 3 {
            "Hidden Cove"
        } else {
            "Harpoon Harry's"
        }
    }

    /// The winning pirate, once the round is over.
    pub fn winner_pirate(&self) -> (r: Option<Pirate>)
        requires
            self.wf(),
        ensures
            self.winner == 0 ==> r is None,
            self.winner != 0 ==> r == Some(self.pirates@[self.winner - 1]),
    {
        if self.winner == 0 {
            None
        } else {
            Some(self.pirates[(self.winner - 1) as usize])
        }
    }

    fn current_odds(&self) -> (r: [u8; 4])
        requires
            self.wf(),
        ensures
            r@ == self.odds_view(),
            forall|i: int| 0 <= i < 4 ==> 1 <= #[trigger] r@[i] <= 13,
    {
        let r: [u8; 4] = [
            self.pirates[0].current_odds,
            self.pirates[1].current_odds,
            self.pirates[2].current_odds,
            self.pirates[3].current_odds,
        ];
        assert(r@ =~= self.odds_view());
        assert forall|i: int| 0 <= i < 4 implies 1 <= #[trigger] r@[i] <= 13 by {
            assert(self.pirates@[i].index == i + 1);
        }
        r
    }

    /// The arena pays out more than it takes in: the sum of `1 / odds` over
    /// its pirates is above 1.
    pub fn is_positive(&self) -> (r: bool)
        requires
            self.wf(),
        ensures
            r == pot_positive(self.odds_view()),
    {
        odds_positive(self.current_odds())
    }

    /// The arena is not positive.
    pub fn is_negative(&self) -> (r: bool)
        requires
            self.wf(),
        ensures
            r == !pot_positive(self.odds_view()),
    {
        !self.is_positive()
    }

    /// The pirates from lowest odds to highest, earlier places first among
    /// equal odds.
    pub fn best(&self) -> (r: Vec<Pirate>)
        requires
            self.wf(),
        ensures
            r@.len() == 4,
            forall|k: int| 0 <= k < 4 ==> self.pirates@.contains(#[trigger] r@[k]),
            forall|i: int, j: int|
                0 <= i < j < 4 ==> r@[i].current_odds < r@[j].current_odds || (r@[i].current_odds
                    == r@[j].current_odds && r@[i].index < r@[j].index),
    {
        let mut keys: Vec<u64> = Vec::new();
        let mut all: Vec<bool> = Vec::new();
        let mut i: usize = 0;
        while i < 4
            invariant
                i <= 4,
                self.wf(),
                keys@.len() == i,
                forall|t: int| 0 <= t < i ==> #[trigger] keys@[t] == self.pirates@[t].current_odds as u64,
                all@ == all_rows(i as nat),
            decreases 4 - i,
        {
            keys.push(self.pirates[i].current_odds as u64);
            all.push(true);
            assert(all@ =~= all_rows((i + 1) as nat));
            i = i + 1;
        }
        let order = select_top(&keys, &all, 4, true);
        let ghost o = order@;
        proof {
            if o.len() < 4 {
                assert(all@[0] && all@[1] && all@[2] && all@[3]);
                assert(o.contains(0usize) && o.contains(1usize) && o.contains(2usize) && o.contains(3usize));
                let k0 = choose|k: int| 0 <= k < o.len() && o[k] == 0usize;
                let k1 = choose|k: int| 0 <= k < o.len() && o[k] == 1usize;
                let k2 = choose|k: int| 0 <= k < o.len() && o[k] == 2usize;
                let k3 = choose|k: int| 0 <= k < o.len() && o[k] == 3usize;
                assert(false);
            }
        }
        let mut r: Vec<Pirate> = Vec::new();
        let mut k: usize = 0;
        while k < order.len()
            invariant
                k <= order@.len(),
                o == order@,
                self.wf(),
                forall|t: int| 0 <= t < order@.len() ==> (#[trigger] order@[t]) < 4,
                r@.len() == k,
                forall|t: int| 0 <= t < k ==> #[trigger] r@[t] == self.pirates@[order@[t] as int],
            decreases order@.len() - k,
        {
            r.push(self.pirates[order[k]]);
            k = k + 1;
        }
        assert forall|k: int| 0 <= k < 4 implies self.pirates@.contains(#[trigger] r@[k]) by {
            assert(r@[k] == self.pirates@[o[k] as int]);
        }
        assert forall|i: int, j: int| 0 <= i < j < 4 implies r@[i].current_odds < r@[j].current_odds
            || (r@[i].current_odds == r@[j].current_odds && r@[i].index < r@[j].index) by {
            assert(ranks_before(keys@, o[i] as int, o[j] as int, true));
            assert(self.pirates@[o[i] as int].index == o[i] + 1);
            assert(self.pirates@[o[j] as int].index == o[j] + 1);
        }
        r
    }

    /// The ids of the four pirates.
    pub fn ids(&self) -> (r: [u8; 4])
        requires
            self.wf(),
        ensures
            forall|i: int| 0 <= i < 4 ==> #[trigger] r@[i] == self.pirates@[i].id,
    {
        [self.pirates[0].id, self.pirates[1].id, self.pirates[2].id, self.pirates[3].id]
    }

    /// The pirate at place `index` (0 to 3) of the arena's list.
    pub fn get_pirate_by_index(&self, index: u8) -> (r: Option<Pirate>)
        requires
            self.wf(),
        ensures
            index < 4 ==> r == Some(self.pirates@[index as int]),
            index >= 4 ==> r is None,
    {
        if index < 4 {
            Some(self.pirates[index as usize])
        } else {
            None
        }
    }
}

/// The five arenas of a round.
#[derive(Clone, Debug)]
pub struct Arenas {
    pub arenas: Vec<Arena>,
}

/// The pirates of a round, arena by arena.
pub open spec fn flat_pirates(arenas: Seq<Arena>) -> Seq<Pirate> {
    Seq::new(20, |k: int| arenas[k / 4].pirates@[k % 4])
}

/// Pirate `p` is in the bet binary `binary`.
pub open spec fn in_binary(binary: u32, p: Pirate) -> bool {
    binary & pirate_bit(p.index, p.arena_id) != 0
}

impl Arenas {
    /// Five well-formed arenas at places 0 to 4.
    pub open spec fn wf(&self) -> bool {
        &&& self.arenas@.len() == 5
        &&& forall|a: int| 0 <= a < 5 ==> (#[trigger] self.arenas@[a]).wf() && self.arenas@[a].id == a
    }

    /// The twenty pirates, arena by arena.
    pub open spec fn flat(&self) -> Seq<Pirate> {
        flat_pirates(self.arenas@)
    }

    /// The arenas of a round from its pirate ids, odds, winners and foods.
    pub fn new(
        pirates: &[[u8; 4]; 5],
        current_odds: &[[u8; 5]; 5],
        opening_odds: &[[u8; 5]; 5],
        winners: &[u8; 5],
        foods: &Option<[[u8; 10]; 5]>,
    ) -> (r: Arenas)
        requires
            forall|a: int, i: int|
                0 <= a < 5 && 1 <= i < 5 ==> 1 <= #[trigger] current_odds@[a]@[i] <= 13,
            forall|a: int| 0 <= a < 5 ==> #[trigger] winners@[a] <= 4,
        ensures
            r.wf(),
            forall|a: int, i: int|
                0 <= a < 5 && 0 <= i < 4 ==> {
                    let p = #[trigger] r.arenas@[a].pirates@[i];
                    &&& p.id == pirates@[a]@[i]
                    &&& p.current_odds == current_odds@[a]@[i + 1]
                    &&& p.opening_odds == opening_odds@[a]@[i + 1]
                    &&& p.is_winner == (winners@[a] == i + 1)
                },
            forall|a: int| 0 <= a < 5 ==> (#[trigger] r.arenas@[a]).winner == winners@[a],
    {
        let mut arenas: Vec<Arena> = Vec::new();
        let mut a: usize = 0;
        while a < 5
            invariant
                a <= 5,
                forall|a: int, i: int|
                    0 <= a < 5 && 1 <= i < 5 ==> 1 <= #[trigger] current_odds@[a]@[i] <= 13,
                forall|a: int| 0 <= a < 5 ==> #[trigger] winners@[a] <= 4,
                arenas@.len() == a,
                forall|t: int| 0 <= t < a ==> (#[trigger] arenas@[t]).wf() && arenas@[t].id == t,
                forall|t: int, i: int|
                    0 <= t < a && 0 <= i < 4 ==> {
                        let p = #[trigger] arenas@[t].pirates@[i];
                        &&& p.id == pirates@[t]@[i]
                        &&& p.current_odds == current_odds@[t]@[i + 1]
                        &&& p.opening_odds == opening_odds@[t]@[i + 1]
                        &&& p.is_winner == (winners@[t] == i + 1)
                    },
                forall|t: int| 0 <= t < a ==> (#[trigger] arenas@[t]).winner == winners@[t],
            decreases 5 - a,
        {
            let mut ps: Vec<Pirate> = Vec::new();
            let mut i: usize = 0;
            while i < 4
                invariant
                    i <= 4,
                    a < 5,
                    forall|a: int, i: int|
                        0 <= a < 5 && 1 <= i < 5 ==> 1 <= #[trigger] current_odds@[a]@[i] <= 13,
                    ps@.len() == i,
                    forall|t: int|
                        0 <= t < i ==> {
                            let p = #[trigger] ps@[t];
                            &&& p.index == t + 1
                            &&& p.arena_id == a
                            &&& 1 <= p.current_odds <= 13
                            &&& p.id == pirates@[a as int]@[t]
                            &&& p.current_odds == current_odds@[a as int]@[t + 1]
                            &&& p.opening_odds == opening_odds@[a as int]@[t + 1]
                            &&& p.is_winner == (winners@[a as int] == t + 1)
                        },
                decreases 4 - i,
            {
                let index: u8 = (i + 1) as u8;
                ps.push(
                    Pirate {
                        id: pirates[a][i],
                        arena_id: a as u8,
                        index,
                        current_odds: current_odds[a][i + 1],
                        opening_odds: opening_odds[a][i + 1],
                        pfa: None,
                        nfa: None,
                        fa: None,
                        is_winner: winners[a] == index,
                    },
                );
                i = i + 1;
            }
            let f: Option<[u8; 10]> = match foods {
                Some(fs) => Some(fs[a]),
                None => None,
            };
            arenas.push(Arena { id: a as u8, pirates: ps, winner: winners[a], foods: f });
            a = a + 1;
        }
        Arenas { arenas }
    }

    /// The first pirate with id `id`.
    pub fn get_pirate_by_id(&self, id: u8) -> (r: Option<Pirate>)
        requires
            self.wf(),
        ensures
            r == first_with_id(self.flat(), id),
    {
        let ghost f = self.flat();
        assert(f.subrange(0, 20) =~= f);
        let mut k: usize = 0;
        while k < 20
            invariant
                k <= 20,
                self.wf(),
                f == self.flat(),
                first_with_id(f, id) == first_with_id(f.subrange(k as int, 20), id),
            decreases 20 - k,
        {
            let p = self.arenas[k / 4].pirates[k % 4];
            assert(p == f[k as int]);
            assert(f.subrange(k as int, 20)[0] == p);
            if p.id == id {
                return Some(p);
            }
            assert(f.subrange(k as int, 20).drop_first() =~= f.subrange(k + 1, 20));
            k = k + 1;
        }
        None
    }

    /// The pirates with the given ids, in the order of the ids; unknown ids
    /// are passed over.
    pub fn get_pirates_by_id(&self, ids: &Vec<u8>) -> (r: Vec<Pirate>)
        requires
            self.wf(),
        ensures
            r@ == pirates_with_ids(self.flat(), ids@),
    {
        let mut r: Vec<Pirate> = Vec::new();
        let mut k: usize = 0;
        while k < ids.len()
            invariant
                k <= ids@.len(),
                self.wf(),
                r@ == pirates_with_ids(self.flat(), ids@.subrange(0, k as int)),
            decreases ids@.len() - k,
        {
            assert(ids@.subrange(0, k + 1).drop_last() =~= ids@.subrange(0, k as int));
            match self.get_pirate_by_id(ids[k]) {
                Some(p) => {
                    r.push(p);
                },
                None => {},
            }
            k = k + 1;
        }
        assert(ids@.subrange(0, k as int) =~= ids@);
        r
    }

    /// The twenty pirates, arena by arena.
    pub fn get_all_pirates_flat(&self) -> (r: Vec<Pirate>)
        requires
            self.wf(),
        ensures
            r@ == self.flat(),
    {
        let mut r: Vec<Pirate> = Vec::new();
        let mut k: usize = 0;
        while k < 20
            invariant
                k <= 20,
                self.wf(),
                r@ == self.flat().subrange(0, k as int),
            decreases 20 - k,
        {
            r.push(self.arenas[k / 4].pirates[k % 4]);
            assert(r@ =~= self.flat().subrange(0, k + 1));
            k = k + 1;
        }
        assert(r@ =~= self.flat());
        r
    }

    /// The pirates that the bet binary `binary` picks, arena by arena.
    pub fn get_pirates_from_binary(&self, binary: u32) -> (r: Vec<Pirate>)
        requires
            self.wf(),
        ensures
            r@ == self.flat().filter(|p: Pirate| in_binary(binary, p)),
    {
        let ghost f = self.flat();
        let ghost pred = |p: Pirate| in_binary(binary, p);
        let mut r: Vec<Pirate> = Vec::new();
        let mut k: usize = 0;
        while k < 20
            invariant
                k <= 20,
                self.wf(),
                f == self.flat(),
                pred == (|p: Pirate| in_binary(binary, p)),
                r@ == f.subrange(0, k as int).filter(pred),
            decreases 20 - k,
        {
            let p = self.arenas[k / 4].pirates[k % 4];
            assert(p == f[k as int]);
            assert(self.arenas@[(k / 4) as int].wf());
            assert(p.wf()) by {
                assert(self.arenas@[(k / 4) as int].pirates@[(k % 4) as int] == p);
            }
            proof {
                f.subrange(0, k as int).lemma_filter_push(p, pred);
                assert(f.subrange(0, k + 1) =~= f.subrange(0, k as int).push(p));
            }
            if binary & p.binary() != 0 {
                r.push(p);
            }
            k = k + 1;
        }
        assert(f.subrange(0, 20) =~= f);
        r
    }

    /// The pirates of each arena.
    pub fn get_all_pirates(&self) -> (r: Vec<Vec<Pirate>>)
        requires
            self.wf(),
        ensures
            r@.len() == 5,
            forall|a: int| 0 <= a < 5 ==> (#[trigger] r@[a])@ == self.arenas@[a].pirates@,
    {
        let mut r: Vec<Vec<Pirate>> = Vec::new();
        let mut a: usize = 0;
        while a < 5
            invariant
                a <= 5,
                self.wf(),
                r@.len() == a,
                forall|t: int| 0 <= t < a ==> (#[trigger] r@[t])@ == self.arenas@[t].pirates@,
            decreases 5 - a,
        {
            assert(self.arenas@[a as int].wf());
            let ps = &self.arenas[a].pirates;
            let mut v: Vec<Pirate> = Vec::new();
            let mut i: usize = 0;
            while i < ps.len()
                invariant
                    i <= ps@.len(),
                    v@ == ps@.subrange(0, i as int),
                decreases ps@.len() - i,
            {
                v.push(ps[i]);
                assert(v@ =~= ps@.subrange(0, i + 1));
                i = i + 1;
            }
            assert(v@ =~= ps@);
            r.push(v);
            a = a + 1;
        }
        r
    }

    /// The pirate ids of each arena.
    pub fn pirate_ids(&self) -> (r: Vec<[u8; 4]>)
        requires
            self.wf(),
        ensures
            r@.len() == 5,
            forall|a: int, i: int|
                0 <= a < 5 && 0 <= i < 4 ==> #[trigger] r@[a]@[i] == self.arenas@[a].pirates@[i].id,
    {
        let mut r: Vec<[u8; 4]> = Vec::new();
        let mut a: usize = 0;
        while a < 5
            invariant
                a <= 5,
                self.wf(),
                r@.len() == a,
                forall|t: int, i: int|
                    0 <= t < a && 0 <= i < 4 ==> #[trigger] r@[t]@[i] == self.arenas@[t].pirates@[i].id,
            decreases 5 - a,
        {
            assert(self.arenas@[a as int].wf());
            r.push(self.arenas[a].ids());
            a = a + 1;
        }
        r
    }

    /// The positive arenas, by place.
    pub fn positives(&self) -> (r: Vec<&Arena>)
        requires
            self.wf(),
        ensures
            r@.map_values(|a: &Arena| *a) == self.arenas@.filter(
                |a: Arena| pot_positive(a.odds_view()),
            ),
    {
        let ghost pred = |a: Arena| pot_positive(a.odds_view());
        let mut r: Vec<&Arena> = Vec::new();
        let mut k: usize = 0;
        while k < 5
            invariant
                k <= 5,
                self.wf(),
                pred == (|a: Arena| pot_positive(a.odds_view())),
                r@.map_values(|a: &Arena| *a) == self.arenas@.subrange(0, k as int).filter(pred),
            decreases 5 - k,
        {
            let a = &self.arenas[k];
            assert(a.wf());
            proof {
                self.arenas@.subrange(0, k as int).lemma_filter_push(*a, pred);
                assert(self.arenas@.subrange(0, k + 1) =~= self.arenas@.subrange(0, k as int).push(*a));
            }
            let ghost r0 = r@;
            if a.is_positive() {
                r.push(a);
                assert(r@.map_values(|a: &Arena| *a) =~= r0.map_values(|a: &Arena| *a).push(*a));
            }
            k = k + 1;
        }
        assert(self.arenas@.subrange(0, 5) =~= self.arenas@);
        r
    }

    /// The arena at place `id`.
    pub fn get_arena(&self, id: usize) -> (r: Option<&Arena>)
        requires
            self.wf(),
        ensures
            id < 5 ==> r == Some(&self.arenas@[id as int]),
            id >= 5 ==> r is None,
    {
        if id < 5 {
            Some(&self.arenas[id])
        } else {
            None
        }
    }
}

} // verus!
