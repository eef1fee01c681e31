//! The bit-packed model of pirates and bets.
//!
//! A bet is a `u32` with five four-bit arena groups; arena 0 is the high
//! group, and inside a group bit 3 stands for pirate 1 and bit 0 for pirate 4.
use vstd::prelude::*;

verus! {

/// The smallest amount that is written into an amounts hash.
pub const BET_AMOUNT_MIN: u32 = 50;

/// The offset that every amount triple of an amounts hash carries.
pub const BET_AMOUNT_MAX: u32 = 70304;

/// The group mask of each arena, arena 0 first.
pub const BIT_MASKS: [u32; 5] = [0xF0000, 0xF000, 0xF00, 0xF0, 0xF];

/// Pirate `i` (1 to 4) set in every arena, pirate 1 first.
pub const PIR_IB: [u32; 4] = [0x88888, 0x44444, 0x22222, 0x11111];

/// Every outcome of a round: each pirate of each arena.
pub const ALL_PIRATES: u32 = 0xFFFFF;

/// A pirate index is 0 (no pick) or 1 to 4.
pub open spec fn valid_index(i: u8) -> bool {
    i <= 4
}

/// Five pirate indices, one per arena.
pub open spec fn valid_indices(b: [u8; 5]) -> bool {
    forall|a: int| 0 <= a < 5 ==> valid_index(#[trigger] b@[a])
}

/// A bet picks at least one pirate.
pub open spec fn is_bet_indices(b: [u8; 5]) -> bool {
    valid_indices(b) && exists|a: int| 0 <= a < 5 && #[trigger] b@[a] != 0
}

/// The bit of pirate `index` in `arena`, or 0 for no pick.
pub open spec fn pirate_bit(index: u8, arena: u8) -> u32 {
    if index == 0 {
        0
    } else {
        (1u32 << ((19 - ((index - 1) + arena * 4)) as u32)) as u32
    }
}

/// The binary of five pirate indices.
pub open spec fn seq_bin(b: Seq<u8>) -> u32 {
    pirate_bit(b[0], 0) | pirate_bit(b[1], 1) | pirate_bit(b[2], 2) | pirate_bit(b[3], 3)
        | pirate_bit(b[4], 4)
}

/// The binary of an array of five pirate indices.
pub open spec fn indices_bin(b: [u8; 5]) -> u32 {
    seq_bin(b@)
}

/// The four-bit group of `arena` in `bin`, pirate 1 as bit 3.
pub open spec fn nibble(bin: u32, arena: int) -> u32 {
    (bin >> ((16 - 4 * arena) as u32)) & 0xF
}

/// The pirate that a group stands for: the one of the lowest set bit, or 0.
pub open spec fn nibble_index(n: u32) -> u8 {
    if n & 1 != 0 {
        4
    } else if n & 2 != 0 {
        3
    } else if n & 4 != 0 {
        2
    } else if n & 8 != 0 {
        1
    } else {
        0
    }
}

/// The pirate index of each arena of `bin`.
pub open spec fn bin_indices(bin: u32) -> Seq<u8> {
    Seq::new(5, |a: int| nibble_index(nibble(bin, a)))
}

/// A binary that sets at most one pirate per arena and nothing above bit 19.
pub open spec fn is_pick_bin(bin: u32) -> bool {
    &&& bin <= ALL_PIRATES
    &&& forall|a: int|
        0 <= a < 5 ==> {
            let n = #[trigger] nibble(bin, a);
            n == 0 || n == 1 || n == 2 || n == 4 || n == 8
        }
}

/// A bet binary: at most one pirate per arena, at least one in all.
pub open spec fn is_bet_bin(bin: u32) -> bool {
    is_pick_bin(bin) && bin != 0
}

/// The binary of pirate `index` in `arena`; 0 when `index` is 0.
pub fn pirate_binary(index: u8, arena: u8) -> (r: u32)
    requires
        valid_index(index),
        index == 0 || arena <= 4,
    ensures
        r == pirate_bit(index, arena),
{
    if index == 0 {
        0
    } else {
        let shift: u32 = (19 - ((index - 1) + arena * 4)) as u32;
        1u32 << shift
    }
}

/// The binary of five pirate indices: the union of their pirate binaries.
pub fn pirates_binary(bets_indices: [u8; 5]) -> (r: u32)
    requires
        valid_indices(bets_indices),
    ensures
        r == indices_bin(bets_indices),
{
    assert(valid_index(bets_indices@[0]) && valid_index(bets_indices@[1]) && valid_index(
        bets_indices@[2],
    ) && valid_index(bets_indices@[3]) && valid_index(bets_indices@[4]));
    let mut r: u32 = 0;
    let mut a: usize = 0;
    while a < 5
        invariant
            a <= 5,
            valid_indices(bets_indices),
            a == 0 ==> r == 0,
            a == 1 ==> r == pirate_bit(bets_indices@[0], 0),
            a == 2 ==> r == pirate_bit(bets_indices@[0], 0) | pirate_bit(bets_indices@[1], 1),
            a == 3 ==> r == pirate_bit(bets_indices@[0], 0) | pirate_bit(bets_indices@[1], 1)
                | pirate_bit(bets_indices@[2], 2),
            a == 4 ==> r == pirate_bit(bets_indices@[0], 0) | pirate_bit(bets_indices@[1], 1)
                | pirate_bit(bets_indices@[2], 2) | pirate_bit(bets_indices@[3], 3),
            a == 5 ==> r == indices_bin(bets_indices),
        decreases 5 - a,
    {
        assert(valid_index(bets_indices@[a as int]));
        let p = pirate_binary(bets_indices[a], a as u8);
        proof {
            let x = r;
            if a == 0 {
                assert(0u32 | p == p) by (bit_vector);
            }
        }
        r = r | p;
        a = a + 1;
    }
    r
}

/// The pirate picked in each arena of `binary`: 0 where its group is empty,
/// else the pirate of the group's lowest set bit.
pub fn binary_to_indices(binary: u32) -> (r: [u8; 5])
    ensures
        r@ == bin_indices(binary),
{
    let mut r: [u8; 5] = [0u8; 5];
    let mut a: usize = 0;
    while a < 5
        invariant
            a <= 5,
            r@.len() == 5,
            forall|j: int| 0 <= j < a ==> r@[j] == nibble_index(nibble(binary, j)),
        decreases 5 - a,
    {
        let shift: u32 = (16 - 4 * a) as u32;
        let n: u32 = (binary >> shift) & 0xF;
        let idx: u8 = if n & 1 != 0 {
            4
        } else if n & 2 != 0 {
            3
        } else if n & 4 != 0 {
            2
        } else if n & 8 != 0 {
            1
        } else {
            0
        };
        r[a] = idx;
        a = a + 1;
    }
    assert(r@ =~= bin_indices(binary));
    r
}

/// The group that a pick of pirate `i` leaves in its arena.
pub open spec fn pick_nibble(i: u8) -> u32 {
    if i == 0 {
        0u32
    } else {
        (8u32 >> ((i - 1) as u32)) as u32
    }
}

proof fn lemma_bin_nibbles(i0: u8, i1: u8, i2: u8, i3: u8, i4: u8, bin: u32)
    by (bit_vector)
    requires
        i0 <= 4,
        i1 <= 4,
        i2 <= 4,
        i3 <= 4,
        i4 <= 4,
        bin == pirate_bit(i0, 0) | pirate_bit(i1, 1) | pirate_bit(i2, 2) | pirate_bit(i3, 3)
            | pirate_bit(i4, 4),
    ensures
        nibble(bin, 0) == pick_nibble(i0),
        nibble(bin, 1) == pick_nibble(i1),
        nibble(bin, 2) == pick_nibble(i2),
        nibble(bin, 3) == pick_nibble(i3),
        nibble(bin, 4) == pick_nibble(i4),
        bin <= ALL_PIRATES,
        bin == 0 <==> (i0 == 0 && i1 == 0 && i2 == 0 && i3 == 0 && i4 == 0),
{
}

/// Decoding the binary of valid indices gives the indices back.
pub proof fn lemma_indices_round_trip(b: [u8; 5])
    requires
        valid_indices(b),
    ensures
        bin_indices(indices_bin(b)) == b@,
        is_pick_bin(indices_bin(b)),
        indices_bin(b) == 0 <==> !is_bet_indices(b),
{
    lemma_seq_round_trip(b@);
    if !is_bet_indices(b) {
        assert(b@[0] == 0 && b@[1] == 0 && b@[2] == 0 && b@[3] == 0 && b@[4] == 0);
    }
}

/// Five valid pirate indices.
pub open spec fn valid_seq(b: Seq<u8>) -> bool {
    b.len() == 5 && forall|a: int| 0 <= a < 5 ==> valid_index(#[trigger] b[a])
}

/// Decoding the binary of five valid pirate indices gives them back.
pub proof fn lemma_seq_round_trip(b: Seq<u8>)
    requires
        valid_seq(b),
    ensures
        bin_indices(seq_bin(b)) == b,
        is_pick_bin(seq_bin(b)),
        seq_bin(b) == 0 <==> (forall|a: int| 0 <= a < 5 ==> b[a] == 0),
{
    let (i0, i1, i2, i3, i4) = (b[0], b[1], b[2], b[3], b[4]);
    assert(valid_index(i0) && valid_index(i1) && valid_index(i2) && valid_index(i3) && valid_index(i4));
    let bin = seq_bin(b);
    lemma_bin_nibbles(i0, i1, i2, i3, i4, bin);
    assert forall|a: int| 0 <= a < 5 implies nibble(bin, a) == pick_nibble(b[a]) by {
        if a == 0 {
        } else if a == 1 {
        } else if a == 2 {
        } else if a == 3 {
        } else {
        }
    }
    assert forall|a: int| 0 <= a < 5 implies nibble_index(nibble(bin, a)) == b[a] by {
        let i = b[a];
        assert(valid_index(i));
        assert(i <= 4 ==> nibble_index(pick_nibble(i)) == i) by (bit_vector);
    }
    assert forall|a: int| 0 <= a < 5 implies {
        let n = #[trigger] nibble(bin, a);
        n == 0 || n == 1 || n == 2 || n == 4 || n == 8
    } by {
        let i = b[a];
        assert(valid_index(i));
        assert(i <= 4 ==> {
            let n = pick_nibble(i);
            n == 0 || n == 1 || n == 2 || n == 4 || n == 8
        }) by (bit_vector);
    }
    assert(bin_indices(bin) =~= b);
    if bin == 0 {
        assert forall|a: int| 0 <= a < 5 implies b[a] == 0 by {
            if a == 0 {
            } else if a == 1 {
            } else if a == 2 {
            } else if a == 3 {
            } else {
            }
        }
    }
}

/// The binary of each entry of a list of pirate-index tuples.
pub fn bets_indices_to_bet_binaries(bets_indices: Vec<[u8; 5]>) -> (r: Vec<u32>)
    requires
        forall|k: int| 0 <= k < bets_indices@.len() ==> valid_indices(#[trigger] bets_indices@[k]),
    ensures
        r@.len() == bets_indices@.len(),
        forall|k: int| 0 <= k < r@.len() ==> #[trigger] r@[k] == indices_bin(bets_indices@[k]),
{
    let mut r: Vec<u32> = Vec::new();
    let mut k: usize = 0;
    while k < bets_indices.len()
        invariant
            k <= bets_indices@.len(),
            forall|t: int| 0 <= t < bets_indices@.len() ==> valid_indices(#[trigger] bets_indices@[t]),
            r@.len() == k,
            forall|t: int| 0 <= t < k ==> #[trigger] r@[t] == indices_bin(bets_indices@[t]),
        decreases bets_indices@.len() - k,
    {
        assert(valid_indices(bets_indices@[k as int]));
        r.push(pirates_binary(bets_indices[k]));
        k = k + 1;
    }
    r
}

/// The pirate indices of each entry of a list of binaries.
pub fn bet_binaries_to_bets_indices(binaries: &Vec<u32>) -> (r: Vec<[u8; 5]>)
    ensures
        r@.len() == binaries@.len(),
        forall|k: int| 0 <= k < r@.len() ==> (#[trigger] r@[k])@ == bin_indices(binaries@[k]),
{
    let mut r: Vec<[u8; 5]> = Vec::new();
    let mut k: usize = 0;
    while k < binaries.len()
        invariant
            k <= binaries@.len(),
            r@.len() == k,
            forall|t: int| 0 <= t < k ==> (#[trigger] r@[t])@ == bin_indices(binaries@[t]),
        decreases binaries@.len() - k,
    {
        r.push(binary_to_indices(binaries[k]));
        k = k + 1;
    }
    r
}

proof fn lemma_pick_nibbles(bin: u32)
    by (bit_vector)
    requires
        bin <= 0xFFFFF,
    ensures
        bin == (nibble(bin, 0) << 16) | (nibble(bin, 1) << 12) | (nibble(bin, 2) << 8) | (nibble(
            bin,
            3,
        ) << 4) | nibble(bin, 4),
{
}

proof fn lemma_pick_bit(n: u32, a: u8)
    requires
        n == 0 || n == 1 || n == 2 || n == 4 || n == 8,
        a <= 4,
    ensures
        valid_index(nibble_index(n)),
        nibble_index(n) == 0 <==> n == 0,
        pirate_bit(nibble_index(n), a) == (n << ((16 - 4 * a) as u32)) as u32,
{
    assert((n == 0 || n == 1 || n == 2 || n == 4 || n == 8) && a <= 4 ==> (valid_index(
        nibble_index(n),
    ) && (nibble_index(n) == 0 <==> n == 0) && pirate_bit(nibble_index(n), a) == (n << ((16 - 4
        * a) as u32)) as u32)) by (bit_vector);
}

/// Encoding the pirate indices that a binary picks gives the binary back,
/// where it picks at most one pirate per arena.
pub proof fn lemma_binary_round_trip(bin: u32)
    requires
        is_pick_bin(bin),
    ensures
        valid_seq(bin_indices(bin)),
        seq_bin(bin_indices(bin)) == bin,
        bin != 0 ==> exists|a: int| 0 <= a < 5 && #[trigger] bin_indices(bin)[a] != 0,
{
    let b = bin_indices(bin);
    let (n0, n1, n2, n3, n4) = (
        nibble(bin, 0),
        nibble(bin, 1),
        nibble(bin, 2),
        nibble(bin, 3),
        nibble(bin, 4),
    );
    lemma_pick_bit(n0, 0);
    lemma_pick_bit(n1, 1);
    lemma_pick_bit(n2, 2);
    lemma_pick_bit(n3, 3);
    lemma_pick_bit(n4, 4);
    lemma_pick_nibbles(bin);
    assert(b[0] == nibble_index(n0) && b[1] == nibble_index(n1) && b[2] == nibble_index(n2) && b[3]
        == nibble_index(n3) && b[4] == nibble_index(n4));
    let (q0, q1, q2, q3, q4) = (
        pirate_bit(b[0], 0),
        pirate_bit(b[1], 1),
        pirate_bit(b[2], 2),
        pirate_bit(b[3], 3),
        pirate_bit(b[4], 4),
    );
    assert(q0 == n0 << 16 && q1 == n1 << 12 && q2 == n2 << 8 && q3 == n3 << 4 && q4 == n4 << 0);
    assert(q0 | q1 | q2 | q3 | q4 == bin) by (bit_vector)
        requires
            bin == (n0 << 16) | (n1 << 12) | (n2 << 8) | (n3 << 4) | n4,
            q0 == n0 << 16 && q1 == n1 << 12 && q2 == n2 << 8 && q3 == n3 << 4 && q4 == n4 << 0,
    ;
    if bin != 0 {
        if n0 == 0 && n1 == 0 && n2 == 0 && n3 == 0 && n4 == 0 {
            assert(bin == 0) by (bit_vector)
                requires
                    bin == (n0 << 16) | (n1 << 12) | (n2 << 8) | (n3 << 4) | n4,
                    n0 == 0 && n1 == 0 && n2 == 0 && n3 == 0 && n4 == 0,
            ;
        }
        if n0 != 0 {
            assert(b[0] != 0);
        } else if n1 != 0 {
            assert(b[1] != 0);
        } else if n2 != 0 {
            assert(b[2] != 0);
        } else if n3 != 0 {
            assert(b[3] != 0);
        } else {
            assert(b[4] != 0);
        }
    }
}

} // verus!
