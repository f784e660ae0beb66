use gitcoin_allo_contracts::{AlloProtocol, ProtocolError};

fn address(tag: &str) -> Vec<u8> {
    format!("G{:0>55}", tag).into_bytes()
}

#[test]
fn test_initialize() {
    let mut client = AlloProtocol::new();
    let admin = address("ADMIN");
    client.initialize(admin.clone());
    assert_eq!(client.admin(), Some(&admin));
    assert_eq!(client.matching_pool(), Some(0));
}

#[test]
fn test_register_project() {
    let mut client = AlloProtocol::new();
    client.initialize(address("ADMIN"));

    let owner = address("OWNER");
    let project_id = client
        .register_project(owner, "lodash".to_string(), "critical dependency".to_string())
        .unwrap();
    assert_eq!(project_id, 1);
}

#[test]
fn test_contribute_and_matching() {
    let mut client = AlloProtocol::new();
    client.initialize(address("ADMIN"));
    client.fund_matching_pool(10_000).unwrap();

    let project_id = client
        .register_project(address("OWNER"), "lodash".to_string(), "critical".to_string())
        .unwrap();

    client.contribute(address("DONOR1"), project_id, 50).unwrap();
    client.contribute(address("DONOR2"), project_id, 100).unwrap();

    let results = client.calculate_matching().unwrap();
    let match_amount = results.get(project_id).unwrap();
    assert!(match_amount > 0);
}

#[test]
fn test_multiple_projects_matching() {
    let mut client = AlloProtocol::new();
    client.initialize(address("ADMIN"));
    client.fund_matching_pool(100_000).unwrap();

    let p1 = client
        .register_project(address("OWNERA"), "project-a".to_string(), "desc a".to_string())
        .unwrap();
    let p2 = client
        .register_project(address("OWNERB"), "project-b".to_string(), "desc b".to_string())
        .unwrap();

    let donor = address("DONOR");
    client.contribute(donor.clone(), p1, 100).unwrap();
    client.contribute(donor, p2, 100).unwrap();

    let results = client.calculate_matching().unwrap();
    assert_eq!(results.len(), 2);
    let m1 = results.get(p1).unwrap();
    let m2 = results.get(p2).unwrap();
    assert!(m1 > 0);
    assert!(m2 > 0);
}

#[test]
fn projects_and_contributions_share_one_counter() {
    let mut client = AlloProtocol::new();
    let p1 = client.register_project(address("O"), "a".to_string(), "a".to_string()).unwrap();
    client.contribute(address("D"), p1, 5).unwrap();
    let p2 = client.register_project(address("O"), "b".to_string(), "b".to_string()).unwrap();
    assert_eq!((p1, p2), (1, 3));
    assert_eq!(client.contribution_count(), Some(3));
    assert_eq!(client.contribution(2).unwrap().amount, 5);
}

#[test]
fn contribution_index_records_latest_contribution() {
    let mut client = AlloProtocol::new();
    let p = client.register_project(address("O"), "a".to_string(), "a".to_string()).unwrap();
    client.contribute(address("D"), p, 5).unwrap();
    client.contribute(address("D"), p, 6).unwrap();
    let records = client.contribution_index_records();
    assert_eq!(records.last().unwrap(), &(p, address("D"), 3));
}

#[test]
fn contributing_to_unknown_project_is_refused() {
    let mut client = AlloProtocol::new();
    assert_eq!(client.contribute(address("D"), 4, 5), Err(ProtocolError::ProjectNotFound));
    assert_eq!(client.contribution_count(), None);
}

#[test]
fn matching_before_initialize_is_refused() {
    let mut client = AlloProtocol::new();
    assert!(matches!(client.calculate_matching(), Err(ProtocolError::NotInitialized)));
    assert!(matches!(client.distribute(1), Err(ProtocolError::NotInitialized)));
}

#[test]
fn failed_computation_is_reported() {
    let mut client = AlloProtocol::new();
    client.initialize(address("ADMIN"));
    let p = client.register_project(address("O"), "a".to_string(), "a".to_string()).unwrap();
    client.contribute(address("D"), p, -100).unwrap();
    assert!(matches!(client.calculate_matching(), Err(ProtocolError::CalculationFailed)));
    assert_eq!(client.matching_result(p), None);
}

#[test]
fn funding_overflow_is_refused() {
    let mut client = AlloProtocol::new();
    client.fund_matching_pool(i128::MAX).unwrap();
    assert_eq!(client.fund_matching_pool(1), Err(ProtocolError::Overflow));
    assert_eq!(client.matching_pool(), Some(i128::MAX));
}

#[test]
fn funding_adds_up() {
    let mut client = AlloProtocol::new();
    client.fund_matching_pool(700).unwrap();
    client.fund_matching_pool(-200).unwrap();
    assert_eq!(client.matching_pool(), Some(500));
}

#[test]
fn results_are_stored_and_readable() {
    let mut client = AlloProtocol::new();
    client.initialize(address("ADMIN"));
    client.fund_matching_pool(10_000).unwrap();
    let p = client.register_project(address("O"), "a".to_string(), "a".to_string()).unwrap();
    client.contribute(address("D1"), p, 50).unwrap();
    client.contribute(address("D2"), p, 100).unwrap();
    let results = client.calculate_matching().unwrap();
    assert_eq!(results.get(p), Some(10_000));
    assert_eq!(client.get_matching_result(p), 10_000);
    assert_eq!(client.get_matching_result(p + 100), 0);
}

#[test]
fn distribute_pays_the_owner_and_lowers_the_pool() {
    let mut client = AlloProtocol::new();
    client.initialize(address("ADMIN"));
    client.fund_matching_pool(100_000).unwrap();
    let p1 = client.register_project(address("OWNERA"), "a".to_string(), "a".to_string()).unwrap();
    let p2 = client.register_project(address("OWNERB"), "b".to_string(), "b".to_string()).unwrap();
    client.contribute(address("D"), p1, 100).unwrap();
    client.contribute(address("D"), p2, 100).unwrap();
    client.calculate_matching().unwrap();

    let payout = client.distribute(p1).unwrap().unwrap();
    assert_eq!(payout.recipient, address("OWNERA"));
    assert_eq!(payout.amount, 50_000);
    assert_eq!(client.matching_pool(), Some(50_000));
}

#[test]
fn distribute_without_a_result_pays_nothing() {
    let mut client = AlloProtocol::new();
    client.initialize(address("ADMIN"));
    client.fund_matching_pool(100).unwrap();
    let p = client.register_project(address("O"), "a".to_string(), "a".to_string()).unwrap();
    assert!(client.distribute(p).unwrap().is_none());
    assert_eq!(client.matching_pool(), Some(100));
}

#[test]
fn distribute_to_unknown_project_is_refused() {
    let mut client = AlloProtocol::new();
    client.initialize(address("ADMIN"));
    assert!(matches!(client.distribute(9), Err(ProtocolError::ProjectNotFound)));
}

#[test]
fn distribute_overflow_is_refused() {
    let mut client = AlloProtocol::new();
    client.initialize(address("ADMIN"));
    let p = client.register_project(address("O"), "a".to_string(), "a".to_string()).unwrap();
    client.restore_scalars(Some(address("ADMIN")), Some(i128::MIN), Some(1));
    client.restore_result(p, 5);
    assert!(matches!(client.distribute(p), Err(ProtocolError::Overflow)));
    assert_eq!(client.matching_pool(), Some(i128::MIN));
}

#[test]
fn get_project_returns_what_was_registered() {
    let mut client = AlloProtocol::new();
    let p = client.register_project(address("O"), "lodash".to_string(), "critical".to_string()).unwrap();
    let project = client.get_project(p).unwrap();
    assert_eq!(project.id, p);
    assert_eq!(project.owner, address("O"));
    assert_eq!(project.name, "lodash");
    assert_eq!(project.description, "critical");
    assert_eq!(project.match_multiplier, 0);
    assert!(matches!(client.get_project(p + 1), Err(ProtocolError::ProjectNotFound)));
}

#[test]
fn register_overflow_is_refused() {
    let mut client = AlloProtocol::new();
    client.restore_scalars(None, None, Some(u32::MAX));
    assert_eq!(
        client.register_project(address("O"), "a".to_string(), "a".to_string()),
        Err(ProtocolError::Overflow)
    );
}
