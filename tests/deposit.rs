use search::{AppState, Identity, SearchError, WithdrawStep};

fn test_principal_id(seed: u8) -> Identity {
    Identity { bytes: vec![seed + 10, 7, 7, 7, 7, 7, 7, 7, 7, 3] }
}

fn anonymous() -> Identity {
    Identity { bytes: vec![4] }
}

#[test]
fn anon_can_not_deposit() {
    let mut app = AppState::new();
    assert_eq!(app.deposit_cycles(&anonymous(), 100), Err(SearchError::AnonymousNotAllowed));
    assert_eq!(app.get_unstaked_cycles(&anonymous()), Err(SearchError::AnonymousNotAllowed));
}

#[test]
fn anon_can_not_withdraw() {
    let app = AppState::new();
    assert_eq!(app.prepare_withdraw_cycles(&anonymous(), 100), Err(SearchError::AnonymousNotAllowed));
    assert_eq!(app.begin_withdraw(&anonymous(), 100), Err(SearchError::AnonymousNotAllowed));
}

#[test]
fn deposits_add_up_per_account() {
    let mut app = AppState::new();
    assert_eq!(app.get_unstaked_cycles(&test_principal_id(0)), Ok(0));
    assert_eq!(app.deposit_cycles(&test_principal_id(0), 200), Ok(200));
    assert_eq!(app.deposit_cycles(&test_principal_id(0), 0), Ok(0));
    assert_eq!(app.deposit_cycles(&test_principal_id(1), 5), Ok(5));
    assert_eq!(app.deposit_cycles(&test_principal_id(0), 50), Ok(50));
    assert_eq!(app.get_unstaked_cycles(&test_principal_id(0)), Ok(250));
    assert_eq!(app.get_unstaked_cycles(&test_principal_id(1)), Ok(5));
}

#[test]
fn withdraw_reserves_at_most_the_balance() {
    let mut app = AppState::new();
    let id = test_principal_id(0);
    app.deposit_cycles(&id, 10).unwrap();
    assert_eq!(app.prepare_withdraw_cycles(&id, 50), Ok(10));
    assert_eq!(app.begin_withdraw(&id, 50), Ok(WithdrawStep::Transfer(10)));
    assert_eq!(app.end_withdraw(&id, 10, true), Ok(10));
    assert_eq!(app.get_unstaked_cycles(&id), Ok(0));
    // Nothing left: the next withdrawal is over at once.
    assert_eq!(app.begin_withdraw(&id, 50), Ok(WithdrawStep::Done(0)));
}

#[test]
fn withdraw_of_part_of_the_balance() {
    let mut app = AppState::new();
    let id = test_principal_id(0);
    app.deposit_cycles(&id, 100).unwrap();
    assert_eq!(app.begin_withdraw(&id, 30), Ok(WithdrawStep::Transfer(30)));
    assert_eq!(app.end_withdraw(&id, 30, true), Ok(30));
    assert_eq!(app.get_unstaked_cycles(&id), Ok(70));
}

#[test]
fn failed_transfer_keeps_the_balance() {
    let mut app = AppState::new();
    let id = test_principal_id(0);
    app.deposit_cycles(&id, 10).unwrap();
    assert_eq!(app.end_withdraw(&id, 10, false), Ok(0));
    assert_eq!(app.get_unstaked_cycles(&id), Ok(10));
}

#[test]
fn overlapping_withdrawals_floor_at_zero() {
    let mut app = AppState::new();
    let id = test_principal_id(0);
    app.deposit_cycles(&id, 10).unwrap();
    // Both see the same balance before either completes.
    assert_eq!(app.prepare_withdraw_cycles(&id, 10), Ok(10));
    assert_eq!(app.prepare_withdraw_cycles(&id, 10), Ok(10));
    app.finish_withdraw_cycles(&id, 10).unwrap();
    app.finish_withdraw_cycles(&id, 10).unwrap();
    assert_eq!(app.get_unstaked_cycles(&id), Ok(0));
}
