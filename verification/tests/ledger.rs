use mix_economy::economy::Economy;
use mix_economy::fixed::UNIT;

fn sum(e: &Economy) -> i128 {
    e.players.iter().map(|p| *p as i128).sum()
}

#[test]
fn new_gives_every_player_the_start_fortune() {
    let e = Economy::new(0, 200_000, 100);
    assert_eq!(e.players, vec![200_000i64; 100]);
    assert_eq!(e.tax, 0);
    assert_eq!(e.start_fortune, 200_000);
    assert_eq!(UNIT, 1_000_000);
}

#[test]
fn new_accepts_any_values_unchecked() {
    let e = Economy::new(-7, -3 * UNIT, 2);
    assert_eq!(e.players, vec![-3 * UNIT, -3 * UNIT]);
    assert_eq!(e.tax, -7);
    assert_eq!(e.start_fortune, -3 * UNIT);
}

#[test]
fn new_without_players_is_empty() {
    let e = Economy::new(100_000, 200_000, 0);
    assert!(e.players.is_empty());
}

#[test]
fn add_player_appends_the_start_fortune_and_returns_its_index() {
    let mut e = Economy::new(100_000, 200_000, 3);
    e.players[1] = 700_000;
    assert_eq!(e.add_player(), 3);
    assert_eq!(e.add_player(), 4);
    assert_eq!(e.players, vec![200_000, 700_000, 200_000, 200_000, 200_000]);
    assert_eq!(e.tax, 100_000);
    assert_eq!(e.start_fortune, 200_000);
}

#[test]
fn add_player_to_an_empty_economy_returns_zero() {
    let mut e = Economy::new(0, 5, 0);
    assert_eq!(e.add_player(), 0);
    assert_eq!(e.players, vec![5]);
}

#[test]
fn clone_copies_every_field() {
    let mut e = Economy::new(100_000, 200_000, 3);
    e.players[2] = 9;
    let c = e.clone();
    assert_eq!(c.players, e.players);
    assert_eq!(c.tax, e.tax);
    assert_eq!(c.start_fortune, e.start_fortune);
}

#[test]
fn min_max_of_an_empty_population_is_zero_zero() {
    let e = Economy::new(0, 200_000, 0);
    assert_eq!(e.min_max(), (0, 0));
}

#[test]
fn min_max_of_one_player_is_that_fortune_twice() {
    let e = Economy::new(0, -5, 1);
    assert_eq!(e.min_max(), (-5, -5));
}

#[test]
fn min_max_finds_both_ends() {
    let mut e = Economy::new(0, 200_000, 5);
    e.players = vec![300_000, -40, 2_500_000, 0, 2_499_999];
    assert_eq!(e.min_max(), (-40, 2_500_000));
}

#[test]
fn min_max_is_not_fooled_by_the_zero_fallback() {
    let mut e = Economy::new(0, 0, 2);
    e.players = vec![5, 7];
    assert_eq!(e.min_max(), (5, 7));
    e.players = vec![-5, -7];
    assert_eq!(e.min_max(), (-7, -5));
}

#[test]
fn transaction_moves_the_amount() {
    let mut e = Economy::new(0, 200_000, 3);
    assert_eq!(e.transaction(0, 1, 50_000), Ok(()));
    assert_eq!(e.players, vec![150_000, 250_000, 200_000]);
}

#[test]
fn transaction_conserves_the_total() {
    let mut e = Economy::new(0, 200_000, 4);
    e.players = vec![900_000, 10, 3_000_000, 777];
    let before = sum(&e);
    assert_eq!(e.transaction(2, 1, 1_234_567), Ok(()));
    assert_eq!(sum(&e), before);
    assert_eq!(e.players, vec![900_000, 1_234_577, 1_765_433, 777]);
}

#[test]
fn transaction_with_oneself_fails_and_changes_nothing() {
    let mut e = Economy::new(0, 200_000, 3);
    assert_eq!(e.transaction(1, 1, 10), Err(()));
    assert_eq!(e.transaction(1, 1, 0), Err(()));
    assert_eq!(e.transaction(1, 1, -10), Err(()));
    assert_eq!(e.players, vec![200_000, 200_000, 200_000]);
}

#[test]
fn transaction_with_oneself_fails_for_any_index() {
    let mut e = Economy::new(0, 200_000, 3);
    assert_eq!(e.transaction(3, 3, 10), Err(()));
    assert_eq!(e.transaction(usize::MAX, usize::MAX, -10), Err(()));
    assert_eq!(e.players, vec![200_000, 200_000, 200_000]);
    let mut empty = Economy::new(0, 200_000, 0);
    assert_eq!(empty.transaction(0, 0, 1), Err(()));
    assert!(empty.players.is_empty());
}

#[test]
fn transaction_that_empties_the_sender_fails() {
    let mut e = Economy::new(0, 200_000, 2);
    assert_eq!(e.transaction(0, 1, 200_000), Err(()));
    assert_eq!(e.players, vec![200_000, 200_000]);
}

#[test]
fn transaction_that_overdraws_the_sender_fails() {
    let mut e = Economy::new(0, 200_000, 2);
    assert_eq!(e.transaction(0, 1, 200_001), Err(()));
    assert_eq!(e.players, vec![200_000, 200_000]);
}

#[test]
fn transaction_may_leave_the_smallest_positive_balance() {
    let mut e = Economy::new(0, 200_000, 2);
    assert_eq!(e.transaction(0, 1, 199_999), Ok(()));
    assert_eq!(e.players, vec![1, 399_999]);
}

#[test]
fn transaction_of_a_negative_amount_moves_wealth_back() {
    let mut e = Economy::new(0, 200_000, 2);
    assert_eq!(e.transaction(0, 1, -50_000), Ok(()));
    assert_eq!(e.players, vec![250_000, 150_000]);
}

#[test]
fn transaction_of_a_negative_amount_may_leave_the_receiver_in_debt() {
    let mut e = Economy::new(0, 200_000, 2);
    assert_eq!(e.transaction(0, 1, -300_000), Ok(()));
    assert_eq!(e.players, vec![500_000, -100_000]);
}

#[test]
fn transaction_from_a_sender_in_debt_fails() {
    let mut e = Economy::new(0, 200_000, 2);
    e.players[0] = -5;
    assert_eq!(e.transaction(0, 1, 0), Err(()));
    assert_eq!(e.transaction(0, 1, -5), Err(()));
    assert_eq!(e.transaction(0, 1, -6), Ok(()));
    assert_eq!(e.players, vec![1, 199_994]);
}

#[test]
fn transaction_of_nothing_succeeds_for_a_sender_with_funds() {
    let mut e = Economy::new(0, 200_000, 2);
    assert_eq!(e.transaction(0, 1, 0), Ok(()));
    assert_eq!(e.players, vec![200_000, 200_000]);
}

#[test]
fn transaction_that_cannot_be_stored_fails() {
    let mut e = Economy::new(0, 200_000, 2);
    e.players[1] = i64::MAX;
    assert_eq!(e.transaction(0, 1, 1), Err(()));
    assert_eq!(e.players, vec![200_000, i64::MAX]);
    e.players = vec![i64::MAX, 0];
    assert_eq!(e.transaction(0, 1, -1), Err(()));
    assert_eq!(e.players, vec![i64::MAX, 0]);
    e.players = vec![5, i64::MIN];
    assert_eq!(e.transaction(0, 1, -1), Err(()));
    assert_eq!(e.players, vec![5, i64::MIN]);
    e.players = vec![i64::MAX, i64::MIN];
    assert_eq!(e.transaction(0, 1, i64::MAX - 1), Ok(()));
    assert_eq!(e.players, vec![1, -2]);
}

#[test]
fn transaction_leaves_tax_and_start_fortune_alone() {
    let mut e = Economy::new(123, 200_000, 2);
    assert_eq!(e.transaction(0, 1, 1), Ok(()));
    assert_eq!(e.transaction(0, 0, 1), Err(()));
    assert_eq!(e.tax, 123);
    assert_eq!(e.start_fortune, 200_000);
}

#[test]
fn replaying_the_same_calls_gives_the_same_fortunes() {
    let run = || {
        let mut e = Economy::new(300_000, 200_000, 6);
        e.players = vec![100_000, 500_000, 900_000, 1_500_000, 3_000_000, 200_000];
        let mut results = Vec::new();
        for round in 0..20usize {
            let from = (round * 7 + 3) % 6;
            let to = (round * 5 + 1) % 6;
            let amount = ((round as i64) * 37_001) % 400_000 - 50_000;
            results.push(e.transaction(from, to, amount).is_ok());
            if round % 3 == 2 {
                results.push(e.update().is_ok());
            }
        }
        (e.players, e.tax, e.start_fortune, results)
    };
    let first = run();
    let second = run();
    assert_eq!(first, second);
    assert!(first.3.iter().any(|ok| *ok));
}
