use mix_economy::economy::Economy;
use mix_economy::fixed::UNIT;
use mix_economy::gini::gini_of;
use mix_economy::limits::{fortunes_in_range, EconomyError, MAX_FORTUNE, MAX_PLAYERS};

fn economy_of(players: Vec<i64>) -> Economy {
    let mut e = Economy::new(0, 200_000, 0);
    e.players = players;
    e
}

#[test]
fn gini_of_equal_fortunes_is_exactly_zero() {
    assert_eq!(Economy::new(0, 200_000, 100).gini(), Ok(0));
    assert_eq!(Economy::new(0, 1, 1).gini(), Ok(0));
    assert_eq!(Economy::new(0, 3 * UNIT, 7).gini(), Ok(0));
    assert_eq!(Economy::new(0, -3 * UNIT, 7).gini(), Ok(0));
}

#[test]
fn gini_of_one_holding_everything_among_two_is_one_half() {
    assert_eq!(economy_of(vec![0, UNIT]).gini(), Ok(500_000));
    assert_eq!(economy_of(vec![1, 0]).gini(), Ok(500_000));
}

#[test]
fn gini_follows_the_mean_absolute_difference() {
    // Gaps over all ordered pairs sum to 20 units, the total is 10 units:
    // 20 / (2 * 4 * 10) is one quarter.
    assert_eq!(economy_of(vec![UNIT, 2 * UNIT, 3 * UNIT, 4 * UNIT]).gini(), Ok(250_000));
    assert_eq!(
        economy_of(vec![100_000, 500_000, 900_000, 1_500_000, 3_000_000]).gini(),
        Ok(453_333)
    );
}

#[test]
fn gini_does_not_depend_on_the_order_of_the_players() {
    let a = economy_of(vec![100_000, 500_000, 900_000, 1_500_000, 3_000_000]).gini();
    let b = economy_of(vec![3_000_000, 100_000, 1_500_000, 900_000, 500_000]).gini();
    assert_eq!(a, b);
}

#[test]
fn gini_rounds_down() {
    // 2 / 12 of a unit is 166666.67 millionths.
    assert_eq!(economy_of(vec![UNIT, 2 * UNIT]).gini(), Ok(166_666));
    // -2 / 12 of a unit is -166666.67 millionths.
    assert_eq!(economy_of(vec![-UNIT, -2 * UNIT]).gini(), Ok(-166_667));
}

#[test]
fn gini_of_negative_total_wealth_is_negative() {
    assert_eq!(economy_of(vec![-3 * UNIT, UNIT]).gini(), Ok(-UNIT));
}

#[test]
fn gini_approaches_one_when_one_player_holds_everything() {
    let mut players = vec![0i64; 1000];
    players[17] = 5 * UNIT;
    assert_eq!(economy_of(players).gini(), Ok(999_000));
}

#[test]
fn gini_stays_between_zero_and_one_for_non_negative_fortunes() {
    let mut seed: u64 = 12345;
    for n in 1..40usize {
        let mut players = Vec::new();
        for _ in 0..n {
            seed = seed.wrapping_mul(6364136223846793005).wrapping_add(1442695040888963407);
            players.push(((seed >> 33) % 5_000_000) as i64);
        }
        players[0] += 1;
        let g = economy_of(players).gini().unwrap();
        assert!(0 <= g && g <= UNIT);
    }
}

#[test]
fn gini_without_players_is_degenerate() {
    assert_eq!(Economy::new(0, 200_000, 0).gini(), Err(EconomyError::Degenerate));
}

#[test]
fn gini_without_wealth_is_degenerate() {
    assert_eq!(Economy::new(0, 0, 5).gini(), Err(EconomyError::Degenerate));
    assert_eq!(economy_of(vec![UNIT, -UNIT]).gini(), Err(EconomyError::Degenerate));
}

#[test]
fn gini_beyond_the_limits_is_out_of_range() {
    assert_eq!(economy_of(vec![MAX_FORTUNE + 1, 5]).gini(), Err(EconomyError::OutOfRange));
    assert_eq!(economy_of(vec![5, -MAX_FORTUNE - 1]).gini(), Err(EconomyError::OutOfRange));
    assert_eq!(economy_of(vec![0; MAX_PLAYERS + 1]).gini(), Err(EconomyError::OutOfRange));
    // Out of range comes before degenerate.
    assert_eq!(
        economy_of(vec![MAX_FORTUNE + 1, -MAX_FORTUNE - 1]).gini(),
        Err(EconomyError::OutOfRange)
    );
}

#[test]
fn gini_at_the_limits_is_computed() {
    assert_eq!(economy_of(vec![MAX_FORTUNE, 0]).gini(), Ok(500_000));
    assert_eq!(economy_of(vec![MAX_FORTUNE, MAX_FORTUNE]).gini(), Ok(0));
    assert_eq!(economy_of(vec![-MAX_FORTUNE, 0]).gini(), Ok(-500_000));
}

#[test]
fn gini_that_does_not_fit_is_out_of_range() {
    // Fifty players far above and fifty far below, with a total of one.
    let mut players = vec![MAX_FORTUNE; 50];
    players.extend(vec![-MAX_FORTUNE; 49]);
    players.push(1 - MAX_FORTUNE);
    assert_eq!(economy_of(players).gini(), Err(EconomyError::OutOfRange));
    // With two players the same figures still fit.
    let players = vec![MAX_FORTUNE, 1 - MAX_FORTUNE];
    assert_eq!(economy_of(players).gini(), Ok(999_999_999_999_500_000));
}

#[test]
fn gini_of_agrees_with_the_method() {
    let players = vec![100_000, 500_000, 900_000, 1_500_000, 3_000_000];
    assert_eq!(gini_of(&players), economy_of(players.clone()).gini());
    assert_eq!(gini_of(&Vec::new()), Err(EconomyError::Degenerate));
}

#[test]
fn fortunes_in_range_tells_the_limits() {
    assert!(fortunes_in_range(&vec![]));
    assert!(fortunes_in_range(&vec![MAX_FORTUNE, -MAX_FORTUNE, 0]));
    assert!(!fortunes_in_range(&vec![0, MAX_FORTUNE + 1]));
    assert!(!fortunes_in_range(&vec![-MAX_FORTUNE - 1]));
    assert!(fortunes_in_range(&vec![7; MAX_PLAYERS]));
    assert!(!fortunes_in_range(&vec![7; MAX_PLAYERS + 1]));
}
