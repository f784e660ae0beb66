use gitcoin_allo_contracts::{Contribution, MatchingResults, QuadraticFundingEngine};

fn contribution(donor: &str, project_id: u32, amount: i128) -> Contribution {
    Contribution { donor: donor.as_bytes().to_vec(), project_id, amount }
}

fn entries(results: &MatchingResults) -> Vec<(u32, i128)> {
    (0..results.len()).map(|i| results.entry(i)).collect()
}

#[test]
fn test_single_project_single_donor() {
    let precision = 1_000_000_000;
    let engine = QuadraticFundingEngine::new(precision);

    let contributions = vec![contribution("GDONORRANDOM1", 1, 100)];

    let results = engine.calculate(contributions, 1000).unwrap();
    assert_eq!(results.len(), 1);
    let amount = results.get(1).unwrap();
    assert!(amount > 0);
}

#[test]
fn test_multiple_projects() {
    let precision = 1_000_000_000;
    let engine = QuadraticFundingEngine::new(precision);

    let contributions = vec![
        contribution("GDONORA", 1, 100),
        contribution("GDONORB", 1, 50),
        contribution("GDONORC", 2, 200),
    ];

    let results = engine.calculate(contributions, 1000).unwrap();
    let p1 = results.get(1).unwrap();
    let p2 = results.get(2).unwrap();
    assert!(p1 > p2);
}

#[test]
fn exact_amounts_for_two_projects() {
    let engine = QuadraticFundingEngine::new(1_000_000_000);
    let contributions = vec![
        contribution("GDONORA", 1, 100),
        contribution("GDONORB", 1, 50),
        contribution("GDONORC", 2, 200),
    ];
    let results = engine.calculate(contributions, 1000).unwrap();
    assert_eq!(entries(&results), vec![(1, 550), (2, 449)]);
}

#[test]
fn single_project_takes_the_whole_pool() {
    let engine = QuadraticFundingEngine::new(1_000_000_000);
    let results = engine.calculate(vec![contribution("GDONORA", 7, 100)], 1000).unwrap();
    assert_eq!(entries(&results), vec![(7, 1000)]);
}

#[test]
fn pool_is_never_overdrawn() {
    let engine = QuadraticFundingEngine::new(1_000_000_000);
    let contributions = vec![
        contribution("A", 1, 10),
        contribution("B", 1, 10),
        contribution("C", 1, 10),
        contribution("D", 2, 90),
        contribution("E", 3, 1),
    ];
    let results = engine.calculate(contributions, 1000).unwrap();
    let all = entries(&results);
    assert_eq!(all, vec![(1, 474), (2, 474), (3, 50)]);
    assert!(all.iter().all(|(_, a)| *a >= 0));
    assert!(all.iter().map(|(_, a)| *a).sum::<i128>() <= 1000);
}

#[test]
fn more_weight_never_gets_less() {
    let engine = QuadraticFundingEngine::new(1_000_000_000);
    // Project 2 has more distinct donors for the same total, hence more weight.
    let contributions = vec![
        contribution("A", 1, 100),
        contribution("A", 1, 100),
        contribution("A", 2, 100),
        contribution("B", 2, 100),
    ];
    let results = engine.calculate(contributions, 1000).unwrap();
    assert!(results.get(2).unwrap() >= results.get(1).unwrap());
}

#[test]
fn repeat_donor_is_counted_once() {
    let engine = QuadraticFundingEngine::new(1_000_000_000);
    let contributions = vec![
        contribution("A", 1, 100),
        contribution("A", 1, 100),
        contribution("A", 2, 100),
        contribution("B", 2, 100),
    ];
    let results = engine.calculate(contributions, 1000).unwrap();
    assert_eq!(entries(&results), vec![(1, 414), (2, 585)]);
}

#[test]
fn projects_appear_in_ascending_id() {
    let engine = QuadraticFundingEngine::new(1_000_000_000);
    let contributions = vec![contribution("A", 9, 100), contribution("B", 3, 100), contribution("C", 9, 1)];
    let results = engine.calculate(contributions, 100).unwrap();
    let ids: Vec<u32> = entries(&results).iter().map(|(pid, _)| *pid).collect();
    assert_eq!(ids, vec![3, 9]);
}

#[test]
fn splitting_a_gift_changes_nothing() {
    let engine = QuadraticFundingEngine::new(1_000_000_000);
    let whole = vec![contribution("A", 1, 150), contribution("B", 2, 40)];
    let split = vec![contribution("A", 1, 100), contribution("A", 1, 50), contribution("B", 2, 40)];
    let a = engine.calculate(whole, 900).unwrap();
    let b = engine.calculate(split, 900).unwrap();
    assert_eq!(entries(&a), entries(&b));
}

#[test]
fn no_contributions_gives_no_results() {
    let engine = QuadraticFundingEngine::new(1_000_000_000);
    let results = engine.calculate(Vec::new(), 1000).unwrap();
    assert_eq!(results.len(), 0);
    assert_eq!(results.get(1), None);
}

#[test]
fn get_of_a_project_without_contributions_is_none() {
    let engine = QuadraticFundingEngine::new(1_000_000_000);
    let results = engine.calculate(vec![contribution("A", 1, 100)], 1000).unwrap();
    assert_eq!(results.get(2), None);
}

#[test]
fn zero_weights_share_nothing() {
    let engine = QuadraticFundingEngine::new(1_000_000_000);
    let results = engine.calculate(vec![contribution("A", 1, 0)], 1000).unwrap();
    assert_eq!(entries(&results), vec![(1, 0)]);
}

#[test]
fn non_positive_precision_fails() {
    assert!(QuadraticFundingEngine::new(0).calculate(vec![contribution("A", 1, 100)], 1000).is_none());
    assert!(QuadraticFundingEngine::new(-5).calculate(Vec::new(), 1000).is_none());
}

#[test]
fn overflowing_amount_fails() {
    let engine = QuadraticFundingEngine::new(1_000_000_000);
    assert!(engine.calculate(vec![contribution("A", 1, i128::MAX / 10)], 1000).is_none());
}

#[test]
fn overflowing_pool_fails() {
    let engine = QuadraticFundingEngine::new(1_000_000_000);
    assert!(engine.calculate(vec![contribution("A", 1, 100)], i128::MAX / 10).is_none());
}

#[test]
fn negative_average_fails() {
    let engine = QuadraticFundingEngine::new(1_000_000_000);
    assert!(engine.calculate(vec![contribution("A", 1, -100)], 1000).is_none());
}

#[test]
fn order_of_contributions_does_not_matter() {
    let engine = QuadraticFundingEngine::new(1_000_000_000);
    let forward = vec![
        contribution("A", 1, 100),
        contribution("B", 2, 50),
        contribution("C", 1, 25),
        contribution("A", 3, 400),
    ];
    let mut swapped = vec![
        contribution("A", 1, 100),
        contribution("C", 1, 25),
        contribution("B", 2, 50),
        contribution("A", 3, 400),
    ];
    let a = engine.calculate(forward, 5000).unwrap();
    let b = engine.calculate(swapped.drain(..).rev().collect(), 5000).unwrap();
    assert_eq!(entries(&a), entries(&b));
}

#[test]
fn overflowing_payout_fails() {
    let engine = QuadraticFundingEngine::new(1_000_000_000);
    let pool = 100_000_000_000_000_000_000_000_000_000i128;
    assert!(engine.calculate(vec![contribution("A", 1, 100)], pool).is_none());
}

#[test]
fn entry_lists_project_and_amount() {
    let engine = QuadraticFundingEngine::new(1_000_000_000);
    let results = engine.calculate(vec![contribution("A", 4, 9)], 77).unwrap();
    assert_eq!(results.entry(0), (4, 77));
}
