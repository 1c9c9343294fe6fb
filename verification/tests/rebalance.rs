use lazy_rebalance::model::{Asset, Portfolio};
use lazy_rebalance::project::{dollar_string, percent_string, persist_rows, to_vec_display};
use lazy_rebalance::rational::{Rat, RebalanceError};
use lazy_rebalance::session::{cycle_next, cycle_previous, InputMode};
use lazy_rebalance::solver::lazy_rebalance;
use lazy_rebalance::text::{parse_amount, validate_amount};

fn rat(n: i64, d: i64) -> Rat {
    Rat::new(n, d).unwrap()
}

fn portfolio(entries: &[(&str, Rat, Rat)]) -> Portfolio {
    let mut p = Portfolio::new();
    for (name, target, value) in entries {
        p.push(Asset::new(name.to_string(), *target, *value)).unwrap();
    }
    p
}

#[test]
fn scenario_fully_covered() {
    // A{target 0.6, value 600}, B{target 0.4, value 400}, contribution 100.
    let p = portfolio(&[
        ("A", rat(6, 10), rat(600, 1)),
        ("B", rat(4, 10), rat(400, 1)),
    ]);
    let plan = lazy_rebalance(&rat(100, 1), &p).unwrap();
    assert_eq!(plan.get(0).buy_amount, rat(60, 1));
    assert_eq!(plan.get(1).buy_amount, rat(40, 1));
    // New fractions land exactly on the targets.
    assert_eq!(plan.get(0).new_fraction, rat(6, 10));
    assert_eq!(plan.get(1).new_fraction, rat(4, 10));
    assert!(!plan.degenerate_allocation);
}

#[test]
fn scenario_constrained_proportional() {
    // A{0.5, 700}, B{0.5, 300}, contribution 200: target 600 each,
    // deficit of B is 300 >= 200, so B takes the whole contribution.
    let p = portfolio(&[
        ("A", rat(5, 10), rat(700, 1)),
        ("B", rat(5, 10), rat(300, 1)),
    ]);
    let plan = lazy_rebalance(&rat(200, 1), &p).unwrap();
    assert_eq!(plan.get(0).buy_amount, rat(0, 1));
    assert_eq!(plan.get(1).buy_amount, rat(200, 1));
    assert_eq!(plan.get(0).target_value, rat(600, 1));
    assert_eq!(plan.get(1).target_value, rat(600, 1));
}

#[test]
fn scenario_leftover_under_full_targets() {
    // A{0.3, 200} alone, contribution 500: deficit 10, leftover 490
    // spread pro-rata over the only asset: 500 in total.
    let p = portfolio(&[("A", rat(3, 10), rat(200, 1))]);
    let plan = lazy_rebalance(&rat(500, 1), &p).unwrap();
    assert_eq!(plan.get(0).buy_amount, rat(500, 1));
    assert_eq!(plan.get(0).target_value, rat(210, 1));
    assert!(!plan.degenerate_allocation);
}

#[test]
fn conservation_on_three_assets() {
    let p = portfolio(&[
        ("A", rat(1, 2), rat(123, 100)),
        ("B", rat(1, 3), rat(456, 100)),
        ("C", rat(1, 6), rat(789, 100)),
    ]);
    let c = rat(1000, 100);
    let plan = lazy_rebalance(&c, &p).unwrap();
    let mut total = rat(0, 1);
    for i in 0..plan.len() {
        total = total.add(&plan.get(i).buy_amount).unwrap();
    }
    assert_eq!(total, c);
}

#[test]
fn buy_only_everywhere() {
    let p = portfolio(&[
        ("A", rat(9, 10), rat(5, 1)),
        ("B", rat(1, 10), rat(995, 1)),
    ]);
    let plan = lazy_rebalance(&rat(37, 2), &p).unwrap();
    for i in 0..plan.len() {
        assert!(!plan.get(i).buy_amount.is_neg());
    }
}

#[test]
fn no_overshoot_in_constrained_branch() {
    // Deficit of B is 300; contribution 200 stays below it.
    let p = portfolio(&[
        ("A", rat(5, 10), rat(700, 1)),
        ("B", rat(5, 10), rat(300, 1)),
    ]);
    let plan = lazy_rebalance(&rat(200, 1), &p).unwrap();
    assert!(plan.get(1).buy_amount.le(&rat(300, 1)));
}

#[test]
fn zero_contribution_is_idempotent() {
    let p = portfolio(&[
        ("A", rat(6, 10), rat(610, 1)),
        ("B", rat(4, 10), rat(390, 1)),
    ]);
    let plan = lazy_rebalance(&rat(0, 1), &p).unwrap();
    for i in 0..plan.len() {
        let e = plan.get(i);
        assert_eq!(e.buy_amount, rat(0, 1));
        assert_eq!(e.new_fraction, e.current_fraction);
    }
}

#[test]
fn determinism_two_solves_agree() {
    let p = portfolio(&[
        ("A", rat(2, 5), rat(17, 3)),
        ("B", rat(3, 5), rat(11, 7)),
    ]);
    let c = rat(355, 113);
    let p1 = lazy_rebalance(&c, &p).unwrap();
    let p2 = lazy_rebalance(&c, &p).unwrap();
    assert_eq!(p1.len(), p2.len());
    for i in 0..p1.len() {
        assert_eq!(p1.get(i).buy_amount, p2.get(i).buy_amount);
        assert_eq!(p1.get(i).new_fraction, p2.get(i).new_fraction);
        assert_eq!(p1.get(i).current_fraction, p2.get(i).current_fraction);
        assert_eq!(p1.get(i).target_value, p2.get(i).target_value);
    }
}

#[test]
fn degenerate_all_zero_targets() {
    // Every target fraction zero: the whole contribution goes to the
    // first asset and the plan is flagged.
    let p = portfolio(&[
        ("A", rat(0, 1), rat(10, 1)),
        ("B", rat(0, 1), rat(20, 1)),
    ]);
    let plan = lazy_rebalance(&rat(30, 1), &p).unwrap();
    assert!(plan.degenerate_allocation);
    assert_eq!(plan.get(0).buy_amount, rat(30, 1));
    assert_eq!(plan.get(1).buy_amount, rat(0, 1));
}

#[test]
fn negative_contribution_rejected() {
    let p = portfolio(&[("A", rat(1, 1), rat(10, 1))]);
    assert_eq!(
        lazy_rebalance(&rat(-1, 1), &p).unwrap_err(),
        RebalanceError::InvalidInput
    );
}

#[test]
fn zero_total_value_is_division_by_zero() {
    let p = portfolio(&[("A", rat(1, 1), rat(0, 1))]);
    assert_eq!(
        lazy_rebalance(&rat(5, 1), &p).unwrap_err(),
        RebalanceError::DivisionByZero
    );
    let empty = Portfolio::new();
    assert_eq!(
        lazy_rebalance(&rat(5, 1), &empty).unwrap_err(),
        RebalanceError::DivisionByZero
    );
}

#[test]
fn rational_arithmetic_is_exact() {
    let third = rat(1, 3);
    let sum = third.add(&third).unwrap().add(&third).unwrap();
    assert_eq!(sum, rat(1, 1));
    assert_eq!(rat(1, 2).mul(&rat(2, 3)).unwrap(), rat(1, 3));
    assert_eq!(rat(1, 2).sub(&rat(3, 4)).unwrap(), rat(-1, 4));
    assert_eq!(rat(1, 2).div(&rat(3, 4)).unwrap(), rat(2, 3));
    assert_eq!(rat(2, -4), rat(-1, 2));
    assert!(rat(1, 3).lt(&rat(34, 100)));
    assert_eq!(
        rat(1, 1).div(&rat(0, 5)).unwrap_err(),
        RebalanceError::DivisionByZero
    );
    assert_eq!(Rat::new(1, 0).unwrap_err(), RebalanceError::DivisionByZero);
}

#[test]
fn rational_overflow_is_reported() {
    let big = rat(i64::MAX, 1);
    assert_eq!(big.add(&big).unwrap_err(), RebalanceError::Overflow);
    assert_eq!(big.mul(&big).unwrap_err(), RebalanceError::Overflow);
}

#[test]
fn amount_validation_matches_the_pattern() {
    assert!(validate_amount("1000.00"));
    assert!(validate_amount("1000"));
    assert!(validate_amount("099"));
    assert!(!validate_amount("5"));
    assert!(!validate_amount("50"));
    assert!(!validate_amount("1000.0"));
    assert!(!validate_amount("10.555"));
    assert!(!validate_amount(".50"));
    assert!(!validate_amount("12a.00"));
    assert!(!validate_amount(""));
}

#[test]
fn amount_parsing_is_exact() {
    assert_eq!(parse_amount("1000.00").unwrap(), rat(1000, 1));
    assert_eq!(parse_amount("10.25").unwrap(), rat(41, 4));
    assert_eq!(parse_amount("007").unwrap(), rat(7, 1));
    assert_eq!(
        parse_amount("oops").unwrap_err(),
        RebalanceError::InvalidInput
    );
    assert_eq!(
        parse_amount("99999999999999999999.00").unwrap_err(),
        RebalanceError::Overflow
    );
}

#[test]
fn formatting_rounds_at_two_decimals() {
    assert_eq!(dollar_string(&rat(600, 1)), "$600.00");
    assert_eq!(dollar_string(&rat(1, 3)), "$0.33");
    assert_eq!(dollar_string(&rat(2, 3)), "$0.67");
    // A tie rounds away from zero.
    assert_eq!(dollar_string(&rat(1, 200)), "$0.01");
    assert_eq!(percent_string(&rat(6, 10)), "60.00%");
    assert_eq!(percent_string(&rat(1, 3)), "33.33%");
}

#[test]
fn display_rows_have_five_columns() {
    let p = portfolio(&[
        ("A", rat(6, 10), rat(600, 1)),
        ("B", rat(4, 10), rat(400, 1)),
    ]);
    let plan = lazy_rebalance(&rat(100, 1), &p).unwrap();
    let rows = to_vec_display(&plan);
    assert_eq!(rows.len(), 2);
    assert_eq!(
        rows[0],
        vec!["A", "60.00%", "60.00%", "$660.00", "$60.00"]
    );
    assert_eq!(
        rows[1],
        vec!["B", "40.00%", "40.00%", "$440.00", "$40.00"]
    );
}

#[test]
fn apply_persist_reload_round_trip() {
    // Apply a plan, write the snapshot rows, read them back: the values
    // agree to the cent.
    let mut p = portfolio(&[
        ("A", rat(6, 10), rat(600, 1)),
        ("B", rat(4, 10), rat(400, 1)),
    ]);
    let plan = lazy_rebalance(&rat(100, 1), &p).unwrap();
    p.apply_plan(&plan).unwrap();
    assert_eq!(p.get(0).value, rat(660, 1));
    assert_eq!(p.get(1).value, rat(440, 1));
    let rows = persist_rows(&p);
    assert_eq!(rows[0], ("A".to_string(), "$660.00".to_string()));
    for (i, (_, dollars)) in rows.iter().enumerate() {
        let reloaded = parse_amount(&dollars[1..]).unwrap();
        assert_eq!(reloaded, p.get(i).value);
    }
}

#[test]
fn join_targets_with_holdings() {
    // A target missing from the holdings starts at zero; a holding with
    // no target is left out.
    let targets = vec![
        ("A".to_string(), rat(60, 1)),
        ("B".to_string(), rat(40, 1)),
    ];
    let holdings = vec![
        ("A".to_string(), rat(600, 1)),
        ("C".to_string(), rat(10, 1)),
    ];
    let p = Portfolio::build_portfolio(&targets, &holdings).unwrap();
    assert_eq!(p.len(), 2);
    assert_eq!(p.get(0).name, "A");
    assert_eq!(p.get(0).target_fraction, rat(6, 10));
    assert_eq!(p.get(0).value, rat(600, 1));
    assert_eq!(p.get(1).name, "B");
    assert_eq!(p.get(1).value, rat(0, 1));
    assert!(p.find(&"C".to_string()).is_none());
}

#[test]
fn last_holdings_row_wins() {
    // A repeated ticker in the holdings keeps its last row, as rewriting
    // a map entry would.
    let targets = vec![("A".to_string(), rat(50, 1))];
    let holdings = vec![
        ("A".to_string(), rat(100, 1)),
        ("A".to_string(), rat(250, 1)),
    ];
    let p = Portfolio::build_portfolio(&targets, &holdings).unwrap();
    assert_eq!(p.get(0).value, rat(250, 1));
}

#[test]
fn update_asset_value_by_name() {
    let mut p = portfolio(&[("A", rat(1, 1), rat(5, 1))]);
    assert!(p.update_value(&"A".to_string(), rat(7, 1)));
    assert_eq!(p.get(0).value, rat(7, 1));
    assert!(!p.update_value(&"Z".to_string(), rat(9, 1)));
}

#[test]
fn duplicate_names_are_rejected() {
    let mut p = portfolio(&[("A", rat(1, 1), rat(5, 1))]);
    let again = Asset::new("A".to_string(), rat(1, 1), rat(6, 1));
    assert_eq!(p.push(again).unwrap_err(), RebalanceError::InvalidInput);
}

#[test]
fn total_value_sums_exactly() {
    let p = portfolio(&[
        ("A", rat(1, 2), rat(1, 3)),
        ("B", rat(1, 2), rat(1, 6)),
    ]);
    assert_eq!(p.total_value().unwrap(), rat(1, 2));
}

#[test]
fn selection_cycles_through_rows() {
    assert_eq!(cycle_next(None, 3), 0);
    assert_eq!(cycle_next(Some(0), 3), 1);
    assert_eq!(cycle_next(Some(2), 3), 0);
    assert_eq!(cycle_previous(None, 3), 0);
    assert_eq!(cycle_previous(Some(0), 3), 2);
    assert_eq!(cycle_previous(Some(2), 3), 1);
}

#[test]
fn input_modes_are_distinct() {
    let modes = [
        InputMode::Normal,
        InputMode::Editing,
        InputMode::Exec,
        InputMode::ErrorDisplay,
    ];
    for (i, a) in modes.iter().enumerate() {
        for (j, b) in modes.iter().enumerate() {
            assert_eq!(i == j, a == b);
        }
    }
}
