use neofoodclub::aggregate::{expand_ib_object, ib_mask, outcome_payouts, payout_tiers, winnings};
use neofoodclub::bets::{BetAmounts, Bets, BetsError};
use neofoodclub::builders::{
    bets_from_draws, bustproof_bets, favourite, max_ter_indices, select_top, tenbet_indices,
    units_indices, winning_binary, BuildError,
};
use neofoodclub::model::{odds_positive, Arenas, PartialPirate, Pirate};
use neofoodclub::modifier::{Modifier, ModifierError, CHARITY_CORNER, OPENING_ODDS, REVERSE};
use neofoodclub::portfolio::is_valid_bets_hash;
use neofoodclub::round::{OddsChange, Round, RoundData, RoundError};
use neofoodclub::table::{round_table, row_index, MAX_PAYOUT, ROW_COUNT};

fn all_two() -> [[u8; 5]; 5] {
    [[1, 2, 2, 2, 2]; 5]
}

fn data(current: [[u8; 5]; 5], winners: [u8; 5]) -> RoundData {
    RoundData {
        round: 8765,
        start: Some(1_700_000_000),
        timestamp: None,
        last_change: None,
        pirates: [
            [1, 2, 3, 4],
            [5, 6, 7, 8],
            [9, 10, 11, 12],
            [13, 14, 15, 16],
            [17, 18, 19, 20],
        ],
        current_odds: current,
        opening_odds: current,
        winners,
        foods: None,
        changes: Vec::new(),
    }
}

fn empty_modifier() -> Modifier {
    Modifier::new(0, None, None).unwrap()
}

#[test]
fn round_table_has_every_bet_once() {
    let odds = [
        [1, 2, 3, 4, 13],
        [1, 5, 6, 7, 8],
        [1, 9, 10, 11, 12],
        [1, 13, 13, 2, 2],
        [1, 3, 3, 3, 3],
    ];
    let t = round_table(&odds);
    assert_eq!(t.bins.len(), ROW_COUNT);
    assert_eq!(ROW_COUNT, 3124);
    let mut seen = std::collections::HashSet::new();
    for i in 0..ROW_COUNT {
        assert!(seen.insert(t.bins[i]));
        let o = t.odds[i] as u64;
        let m = t.maxbets[i] as u64;
        assert!(m * o >= MAX_PAYOUT as u64);
        assert!((m - 1) * o < MAX_PAYOUT as u64);
    }
    // first row is [0,0,0,0,1], last is [4,4,4,4,4]
    assert_eq!(t.indices[0], [0, 0, 0, 0, 1]);
    assert_eq!(t.bins[0], 0x8);
    assert_eq!(t.odds[0], 3);
    assert_eq!(t.maxbets[0], 333_334);
    assert_eq!(t.indices[3123], [4, 4, 4, 4, 4]);
    assert_eq!(t.odds[3123], 13 * 8 * 12 * 2 * 3);
}

#[test]
fn row_index_finds_rows() {
    assert_eq!(row_index([0, 0, 0, 0, 1]), 0);
    assert_eq!(row_index([1, 1, 1, 1, 1]), 780);
    assert_eq!(row_index([4, 4, 4, 4, 4]), 3123);
}

#[test]
fn single_full_bet_on_even_board_wins_one_outcome() {
    let payouts = outcome_payouts(&vec![[1, 1, 1, 1, 1]], &vec![32]);
    assert_eq!(payouts.len(), 1024);
    assert_eq!(payouts[0], 32);
    assert_eq!(payouts.iter().filter(|&&p| p == 32).count(), 1);
    assert_eq!(payouts.iter().filter(|&&p| p == 0).count(), 1023);
    assert_eq!(payout_tiers(&payouts), vec![0, 32]);
}

#[test]
fn payouts_add_over_winning_bets() {
    let bets = vec![[1, 0, 0, 0, 0], [1, 1, 0, 0, 0], [2, 0, 0, 0, 0]];
    let odds = vec![2, 4, 2];
    assert_eq!(winnings(&bets, &odds, &[1, 1, 3, 3, 3]), 6);
    assert_eq!(winnings(&bets, &odds, &[1, 2, 3, 3, 3]), 2);
    assert_eq!(winnings(&bets, &odds, &[3, 2, 3, 3, 3]), 0);
    let payouts = outcome_payouts(&bets, &odds);
    assert_eq!(payout_tiers(&payouts), vec![0, 2, 6]);
}

#[test]
fn ib_masks_group_bets() {
    assert_eq!(ib_mask([1, 0, 0, 0, 0]), 0x8FFFF);
    assert_eq!(ib_mask([1, 2, 3, 4, 1]), 0x84218);
    let groups = expand_ib_object(&vec![[1, 0, 0, 0, 0], [2, 0, 0, 0, 0], [1, 0, 0, 0, 0]], &vec![2, 3, 5]);
    assert_eq!(groups, vec![(0x8FFFF, 7), (0x4FFFF, 3)]);
}

#[test]
fn select_top_ranks_with_stable_ties() {
    let keys = vec![5, 9, 9, 1, 7];
    let all = vec![true; 5];
    assert_eq!(select_top(&keys, &all, 3, false), vec![1, 2, 4]);
    assert_eq!(select_top(&keys, &all, 2, true), vec![3, 0]);
    assert_eq!(select_top(&keys, &vec![true, false, true, false, false], 9, false), vec![2, 0]);
    assert_eq!(max_ter_indices(&keys, 10, false), vec![1, 2, 4, 0, 3]);
}

#[test]
fn units_and_tenbet_filters() {
    let keys = vec![1, 2, 3];
    let odds = vec![2, 20, 30];
    assert_eq!(units_indices(&keys, &odds, 20, 15, false), Some(vec![2, 1]));
    assert_eq!(units_indices(&keys, &odds, 31, 15, false), None);
    let bins = vec![0x80000, 0x88000, 0x48000];
    assert_eq!(tenbet_indices(&keys, &bins, 0x08000, 15, false), Ok(vec![2, 1]));
    assert_eq!(tenbet_indices(&keys, &bins, 0, 15, false), Err(BuildError::InvalidInput));
    assert_eq!(tenbet_indices(&keys, &bins, 0x88880, 15, false), Err(BuildError::InvalidInput));
    assert_eq!(tenbet_indices(&keys, &bins, 0xC0000, 15, false), Err(BuildError::InvalidInput));
}

#[test]
fn draws_keep_distinct_bets() {
    assert_eq!(bets_from_draws(&vec![0, 0, 1024, 1], 15, true), vec![0x88888, 0x88884]);
    assert_eq!(bets_from_draws(&vec![0, 3125, 1, 1, 2], 15, false), vec![0x8, 0x4]);
    assert_eq!(bets_from_draws(&vec![1, 2, 3], 2, false), vec![0x8, 0x4]);
}

#[test]
fn winning_binary_needs_every_winner() {
    assert_eq!(winning_binary(&[1, 2, 3, 4, 1]), Some(0x84218));
    assert_eq!(winning_binary(&[1, 2, 0, 4, 1]), None);
}

#[test]
fn positivity_and_favourites() {
    assert!(odds_positive([2, 2, 2, 2]));
    assert!(!odds_positive([13, 13, 13, 13]));
    assert!(!odds_positive([4, 4, 4, 4]));
    assert_eq!(favourite([5, 3, 3, 9]), 2);
}

#[test]
fn bustproof_over_one_positive_arena() {
    let mut odds = [[1, 13, 13, 13, 13]; 5];
    odds[2] = [1, 2, 3, 4, 5];
    let bets = bustproof_bets(&odds).unwrap();
    assert_eq!(bets, vec![[0, 0, 1, 0, 0], [0, 0, 2, 0, 0], [0, 0, 3, 0, 0], [0, 0, 4, 0, 0]]);
    assert_eq!(bustproof_bets(&[[1, 13, 13, 13, 13]; 5]), None);
}

#[test]
fn bustproof_over_three_positive_arenas_covers_everything() {
    let odds = [[1, 3, 2, 2, 2]; 5];
    let bets = bustproof_bets(&odds).unwrap();
    assert_eq!(bets.len(), 10);
    let payouts = outcome_payouts(&bets, &vec![1; 10]);
    assert!(payouts.iter().all(|&p| p > 0));
}

#[test]
fn modifier_flags_and_time() {
    let m = Modifier::new(OPENING_ODDS | REVERSE, None, Some("12:34:56")).unwrap();
    assert!(m.is_opening_odds());
    assert!(m.is_reverse());
    assert!(!m.is_charity_corner());
    assert!(!m.is_general());
    assert!(!m.is_empty());
    assert_eq!(m.custom_time, Some(45296));
    assert_eq!(m.custom_time(), Some("12:34:56".to_string()));
    assert_eq!(m.copy().value, m.value);
    assert!(Modifier::new(0, None, None).unwrap().is_empty());
}

#[test]
fn modifier_rejects_bad_time() {
    assert_eq!(Modifier::new(0, None, Some("25:00:00")).err(), Some(ModifierError::InvalidTime));
    assert_eq!(Modifier::new(0, None, Some("noon")).err(), Some(ModifierError::InvalidTime));
}

#[test]
fn modifier_custom_odds_lookup() {
    let m = Modifier::new(0, Some(vec![(3, 7), (3, 9)]), None).unwrap();
    assert_eq!(m.custom_odds_of(3), Some(7));
    assert_eq!(m.custom_odds_of(4), None);
}

#[test]
fn round_rejects_out_of_range_odds() {
    let mut odds = all_two();
    odds[1][3] = 14;
    assert_eq!(Round::new(data(odds, [0; 5]), None, empty_modifier()).err(), Some(RoundError::InvalidInput));
    let bad = Modifier::new(0, Some(vec![(1, 1)]), None).unwrap();
    assert!(Round::new(data(all_two(), [0; 5]), None, bad).is_err());
}

#[test]
fn round_applies_custom_odds_and_flags() {
    let m = Modifier::new(CHARITY_CORNER, Some(vec![(6, 9)]), None).unwrap();
    let round = Round::new(data(all_two(), [0; 5]), None, m).unwrap();
    assert_eq!(round.custom_odds()[1], [1, 2, 9, 2, 2]);
    assert!(round.modified());
    assert_eq!(round.max_amount_of_bets(), 10);
    assert!(!round.is_over());
    assert_eq!(round.winners_binary(), 0);
}

#[test]
fn round_reads_odds_at_custom_time() {
    let mut d = data(all_two(), [0; 5]);
    d.current_odds[0][1] = 5;
    // start 1_700_000_000 is 22:13:20 UTC, 14:13:20 NST
    d.changes = vec![
        OddsChange { t: 1_700_000_100, old: 2, new: 4, pirate: 1, arena: 0 },
        OddsChange { t: 1_700_010_000, old: 4, new: 5, pirate: 1, arena: 0 },
    ];
    let m = Modifier::new(0, None, Some("14:30:00")).unwrap();
    let round = Round::new(d.clone(), None, m).unwrap();
    assert_eq!(round.custom_odds()[0][1], 4);
    let round = Round::new(d, None, Modifier::new(OPENING_ODDS, None, None).unwrap()).unwrap();
    assert_eq!(round.custom_odds()[0][1], 2);
}

#[test]
fn round_builds_portfolios() {
    let round = Round::new(data(all_two(), [1, 1, 1, 1, 1]), Some(8000), empty_modifier()).unwrap();
    assert!(round.is_over());
    let b = round.make_bets_from_indices(vec![[1, 1, 1, 1, 1], [1, 0, 0, 0, 0], [2, 0, 0, 0, 0]]);
    assert_eq!(b.array_indices, vec![780, 624, 1249]);
    assert_eq!(round.get_win_units(&b), 34);
    // 8000 * 32 = 256000 and 8000 * 2 = 16000
    assert_eq!(round.get_win_np(&b), 272_000);
    assert_eq!(b.bet_amounts, Some(vec![Some(8000), Some(8000), Some(8000)]));
    assert_eq!(b.bets_hash(&round), "gggaakaa");
    assert_eq!(
        round.make_url(Some(&b), true),
        "https://neofood.club/?round=8765&b=gggaakaa&a=CXSCXSCXS&bet_amount=8000"
    );
    assert_eq!(round.make_url(None, false), "/?round=8765&bet_amount=8000");
    let g = round.make_winning_gambit_bets().unwrap();
    assert_eq!(g.len(), 15);
    assert!(round.make_bustproof_bets().unwrap().is_bustproof(&round));
    assert!(g.is_gambit(&round));
    assert!(!b.is_crazy(&round));
}

#[test]
fn round_hash_errors_and_amounts() {
    let round = Round::new(data(all_two(), [0; 5]), None, empty_modifier()).unwrap();
    assert_eq!(round.make_bets_from_hash("faz").err(), Some(BuildError::InvalidInput));
    assert!(!is_valid_bets_hash("Faa"));
    let mut b = round.make_bets_from_hash("faa").unwrap();
    assert_eq!(b.get_indices(&round), vec![[1, 0, 0, 0, 0]]);
    assert_eq!(b.bet_amounts, None);
    assert_eq!(b.set_bet_amounts(Some(BetAmounts::AmountHash("CX".to_string()))), Err(BetsError::InvalidInput));
    assert_eq!(b.set_bet_amounts(Some(BetAmounts::AmountHash("CXS".to_string()))), Ok(()));
    assert_eq!(b.bet_amounts, Some(vec![Some(8000)]));
    assert_eq!(b.set_bet_amounts(Some(BetAmounts::from_amount(60, 1))), Ok(()));
    // 60 + 70304 = 26 * 52^2 + 1 * 52 + 8
    assert_eq!(b.amounts_hash(), Some("Abi".to_string()));
    assert_eq!(round.get_win_units(&b), 0);
}

#[test]
fn crazy_and_random_from_draws() {
    let round = Round::new(data(all_two(), [0; 5]), Some(100), empty_modifier()).unwrap();
    let c = round.make_crazy_bets(&(0..40).collect());
    assert_eq!(c.len(), 15);
    assert!(c.is_crazy(&round));
    let r = round.make_random_bets(&(0..40).collect());
    assert_eq!(r.len(), 15);
    assert_eq!(r.array_indices[0], 0);
}

#[test]
fn arenas_lookups() {
    let d = data(all_two(), [2, 0, 0, 0, 0]);
    let arenas = Arenas::new(&d.pirates, &d.current_odds, &d.opening_odds, &d.winners, &d.foods);
    assert_eq!(arenas.get_pirate_by_id(7).unwrap().index, 3);
    assert_eq!(arenas.get_pirate_by_id(21), None);
    assert_eq!(arenas.get_pirates_from_binary(0x84218).iter().map(|p| p.id).collect::<Vec<u8>>(), vec![1, 6, 11, 16, 17]);
    assert_eq!(arenas.get_all_pirates_flat().len(), 20);
    assert_eq!(arenas.positives().len(), 5);
    let a = arenas.get_arena(0).unwrap();
    assert_eq!(a.name(), "Shipwreck");
    assert_eq!(a.winner_pirate().unwrap().id, 2);
    assert!(a.pirates[1].is_winner);
    assert_eq!(a.best().iter().map(|p| p.index).collect::<Vec<u8>>(), vec![1, 2, 3, 4]);
    assert_eq!(Pirate::new(3, 0, 3, 2, 2, false, None, None, None).binary(), 0x20000);
    assert_eq!(PartialPirate::new(5).id, 5);
    assert!(arenas.get_arena(5).is_none());
}

#[test]
fn guaranteed_win_needs_cover_and_profit() {
    let mut odds = [[1, 13, 13, 13, 13]; 5];
    odds[0] = [1, 2, 2, 2, 2];
    let round = Round::new(data(odds, [0; 5]), Some(100), empty_modifier()).unwrap();
    let b = round.make_bustproof_bets().unwrap();
    assert_eq!(b.len(), 4);
    // each outcome pays 100 * 2 = 200 against a stake of 400
    assert!(!round.is_guaranteed_win(&b));
    let mut single = round.make_bets_from_indices(vec![[1, 0, 0, 0, 0]]);
    assert!(!round.is_guaranteed_win(&single));
    single.bet_amounts = None;
    assert!(!round.is_guaranteed_win(&single));
}

#[test]
fn outdated_lock_after_a_day() {
    let round = Round::new(data(all_two(), [0; 5]), None, empty_modifier()).unwrap();
    assert!(!round.is_outdated_lock(1_700_000_000 + 3600));
    assert!(round.is_outdated_lock(1_700_000_000 + 86401));
    let over = Round::new(data(all_two(), [1, 1, 1, 1, 1]), None, empty_modifier()).unwrap();
    assert!(!over.is_outdated_lock(1_800_000_000));
}

#[test]
fn odds_change_names_its_pirate() {
    let c = OddsChange { t: 0, old: 2, new: 3, pirate: 2, arena: 3 };
    let d = data(all_two(), [0; 5]);
    assert_eq!(c.pirate_id(&d.pirates), 14);
    assert_eq!(c.pirate_index(), 2);
    assert_eq!(c.arena_index(), 3);
}

#[test]
fn arenas_pirates_by_ids() {
    let d = data(all_two(), [0; 5]);
    let arenas = Arenas::new(&d.pirates, &d.current_odds, &d.opening_odds, &d.winners, &d.foods);
    let ps = arenas.get_pirates_by_id(&vec![20, 99, 1]);
    assert_eq!(ps.iter().map(|p| p.id).collect::<Vec<u8>>(), vec![20, 1]);
    let all = arenas.get_all_pirates();
    assert_eq!(all.len(), 5);
    assert_eq!(all[4][3].id, 20);
    assert_eq!(arenas.pirate_ids()[2], [9, 10, 11, 12]);
    assert_eq!(arenas.get_arena(4).unwrap().name(), "Harpoon Harry's");
}

#[test]
fn portfolios_compare_as_sets_of_bets() {
    let a = Bets::new(vec![3, 1, 2]);
    assert!(a.same_bets(&Bets::new(vec![1, 2, 3])));
    assert!(!a.same_bets(&Bets::new(vec![1, 2, 2])));
    assert!(!a.same_bets(&Bets::new(vec![1, 2])));
}
