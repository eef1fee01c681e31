use neofoodclub::hash::{
    amounts_hash_to_bet_amounts, bet_amounts_to_amounts_hash, bets_hash_to_bet_binaries,
    bets_hash_to_bet_indices, bets_hash_to_bets_count, bets_hash_value,
};
use neofoodclub::math::{
    bet_binaries_to_bets_indices, bets_indices_to_bet_binaries, binary_to_indices, pirate_binary,
    pirates_binary, BET_AMOUNT_MAX, BET_AMOUNT_MIN, BIT_MASKS, PIR_IB,
};

#[test]
fn pirate_binary_of_third_pirate_in_arena_two() {
    assert_eq!(pirate_binary(3, 2), 0x200);
}

#[test]
fn pirate_binary_of_no_pick_is_zero() {
    for arena in 0..5u8 {
        assert_eq!(pirate_binary(0, arena), 0);
    }
    assert_eq!(pirate_binary(0, 200), 0);
}

#[test]
fn pirate_binary_first_and_last() {
    assert_eq!(pirate_binary(1, 0), 0x80000);
    assert_eq!(pirate_binary(4, 4), 0x1);
}

#[test]
fn pirates_binary_of_mixed_bet() {
    assert_eq!(pirates_binary([1, 2, 3, 4, 1]), 0x84218);
}

#[test]
fn binary_to_indices_of_mixed_bet() {
    assert_eq!(binary_to_indices(0x84218), [1, 2, 3, 4, 1]);
}

#[test]
fn binary_to_indices_of_empty_and_partial() {
    assert_eq!(binary_to_indices(0), [0, 0, 0, 0, 0]);
    assert_eq!(binary_to_indices(0x00401), [0, 0, 2, 0, 4]);
}

#[test]
fn indices_round_trip_over_all_bets() {
    for n in 0..3125u32 {
        let b = [
            ((n / 625) % 5) as u8,
            ((n / 125) % 5) as u8,
            ((n / 25) % 5) as u8,
            ((n / 5) % 5) as u8,
            (n % 5) as u8,
        ];
        assert_eq!(binary_to_indices(pirates_binary(b)), b);
    }
}

#[test]
fn constants_hold_their_values() {
    assert_eq!(BET_AMOUNT_MIN, 50);
    assert_eq!(BET_AMOUNT_MAX, 70304);
    assert_eq!(BIT_MASKS, [0xF0000, 0xF000, 0xF00, 0xF0, 0xF]);
    assert_eq!(PIR_IB, [0x88888, 0x44444, 0x22222, 0x11111]);
}

#[test]
fn list_conversions_between_indices_and_binaries() {
    let bets = vec![[1, 2, 3, 4, 1], [0, 0, 0, 0, 4]];
    let bins = bets_indices_to_bet_binaries(bets.clone());
    assert_eq!(bins, vec![0x84218, 0x1]);
    assert_eq!(bet_binaries_to_bets_indices(&bins), bets);
}

#[test]
fn bets_hash_of_single_pirate() {
    assert_eq!(bets_hash_value(vec![[1, 0, 0, 0, 0]]), "faa");
}

#[test]
fn bets_hash_decodes_dropping_padding_chunk() {
    assert_eq!(bets_hash_to_bet_indices("faa"), vec![[1, 0, 0, 0, 0]]);
}

#[test]
fn bets_hash_round_trip_of_a_portfolio() {
    let bets = vec![
        [1, 2, 3, 4, 1],
        [0, 0, 0, 0, 4],
        [4, 4, 4, 4, 4],
        [2, 0, 1, 0, 3],
    ];
    let h = bets_hash_value(bets.clone());
    assert_eq!(h.chars().count(), 10);
    assert_eq!(bets_hash_to_bet_indices(&h), bets);
    assert_eq!(bets_hash_to_bets_count(&h), 4);
    assert_eq!(
        bets_hash_to_bet_binaries(&h),
        bets.iter().map(|b| pirates_binary(*b)).collect::<Vec<u32>>()
    );
}

#[test]
fn bets_hash_letters_follow_pairs() {
    assert_eq!(bets_hash_value(vec![[4, 4, 4, 4, 4], [4, 4, 4, 4, 4]]), "yyyyy");
    assert_eq!(bets_hash_value(vec![]), "");
}

#[test]
fn bets_hash_drops_empty_groups() {
    assert_eq!(bets_hash_to_bet_indices("aaaaa"), Vec::<[u8; 5]>::new());
    assert_eq!(bets_hash_to_bets_count("aaaaafaa"), 1);
}

#[test]
fn amounts_hash_of_eight_thousand() {
    // 8000 + 70304 = 78304 = 28 * 52^2 + 49 * 52 + 44
    assert_eq!(bet_amounts_to_amounts_hash(&vec![Some(8000)]), "CXS");
}

#[test]
fn amounts_hash_of_missing_and_small_amounts() {
    // 70304 = 26 * 52^2 + 0 * 52 + 0
    assert_eq!(bet_amounts_to_amounts_hash(&vec![None]), "Aaa");
    assert_eq!(bet_amounts_to_amounts_hash(&vec![Some(49)]), "Aaa");
    assert_eq!(bet_amounts_to_amounts_hash(&vec![Some(50)]), "AaY");
}

#[test]
fn amounts_hash_round_trip_normalizes() {
    let amounts = vec![Some(8000), None, Some(10), Some(50), Some(70303)];
    let h = bet_amounts_to_amounts_hash(&amounts);
    assert_eq!(h.len(), 15);
    assert_eq!(
        amounts_hash_to_bet_amounts(&h),
        vec![Some(8000), Some(0), Some(0), Some(50), Some(70303)]
    );
}

#[test]
fn amounts_hash_below_offset_reads_as_missing() {
    assert_eq!(amounts_hash_to_bet_amounts("aaa"), vec![None]);
    assert_eq!(amounts_hash_to_bet_amounts("CXSAaa"), vec![Some(8000), Some(0)]);
}
