use search::{AppState, Identity, SearchError, Stake, StakeDelta, Website, WebsiteDescription};

fn test_principal_id(seed: u8) -> Identity {
    Identity { bytes: vec![seed + 10, 7, 7, 7, 7, 7, 7, 7, 7, 1] }
}

fn test_url(_seed: u8) -> String {
    String::from("")
}

fn test_website(seed: u8) -> Website {
    Website { owner: test_principal_id(seed), link: test_url(seed) }
}

fn test_website_description(seed: u8) -> WebsiteDescription {
    WebsiteDescription {
        name: format!("site {}", seed),
        link: test_url(seed),
        description: format!("all about site {}", seed),
    }
}

fn add(term: &str, value: i64) -> StakeDelta {
    StakeDelta::Add(Stake { term: String::from(term), value })
}

fn remove(term: &str, value: i64) -> StakeDelta {
    StakeDelta::Remove(Stake { term: String::from(term), value })
}

/// Gives `seed` an unstaked balance of `balance` after staking `stakes` on its website.
fn fund(app: &mut AppState, seed: u8, balance: u64, stakes: &[(&str, i64)]) {
    let id = test_principal_id(seed);
    let staked: i64 = stakes.iter().map(|s| s.1).sum();
    app.deposit_cycles(&id, balance + staked as u64).unwrap();
    if !stakes.is_empty() {
        let deltas = stakes.iter().map(|s| add(s.0, s.1)).collect();
        app.stake(&id, test_url(seed), deltas).unwrap();
    }
}

fn balance(app: &AppState, seed: u8) -> u64 {
    app.get_unstaked_cycles(&test_principal_id(seed)).unwrap()
}

#[test]
fn test_empty_unstaked_deposits() {
    let mut app = AppState::new();
    let r = app.stake(&test_principal_id(0), test_url(0), vec![add("test", 1)]);
    assert_eq!(r, Err(SearchError::InsufficientUnstakedBalance));
}

#[test]
fn test_one_staked_deposit_and_one_add_delta() {
    let mut app = AppState::new();
    fund(&mut app, 0, 1000, &[]);
    let stakes = app.stake(&test_principal_id(0), test_url(0), vec![add("test", 100)]).unwrap();

    assert_eq!(stakes.len(), 1);
    assert_eq!(balance(&app, 0), 900);
    let stake = stakes.get(0).cloned().unwrap_or_default();
    assert_eq!(stake.0, "test");
    assert_eq!(stake.1, 100);
}

#[test]
fn test_one_staked_deposit_and_one_remove_delta() {
    let mut app = AppState::new();
    fund(&mut app, 0, 200, &[("test", 800)]);
    app.set_description(&test_principal_id(0), test_website_description(0)).unwrap();
    let stakes = app.stake(&test_principal_id(0), test_url(0), vec![remove("test", 800)]).unwrap();

    assert_eq!(stakes.len(), 0);
    assert_eq!(balance(&app, 0), 1000);
}

#[test]
fn test_one_staked_deposit_and_add_and_remove_deltas() {
    let mut app = AppState::new();
    fund(&mut app, 0, 200, &[("test", 800)]);
    app.set_description(&test_principal_id(0), test_website_description(0)).unwrap();
    let stakes = app
        .stake(&test_principal_id(0), test_url(0), vec![remove("test", 800), add("term2", 1000)])
        .unwrap();

    assert_eq!(stakes.len(), 1);
    let stake = stakes.get(0).cloned().unwrap_or_default();
    assert_eq!(stake.0, "term2");
    assert_eq!(stake.1, 1000);
    assert_eq!(balance(&app, 0), 0);
}

#[test]
fn test_multiple_staked_deposit_and_add_and_remove_deltas() {
    let mut app = AppState::new();
    fund(&mut app, 0, 200, &[("test", 600), ("term2", 200)]);
    fund(&mut app, 1, 1000, &[("test", 200)]);
    fund(&mut app, 2, 500, &[("term2", 500)]);
    app.set_description(&test_principal_id(0), test_website_description(0)).unwrap();
    let stakes = app
        .stake(&test_principal_id(0), test_url(0), vec![remove("test", 600), add("term2", 800)])
        .unwrap();

    assert_eq!(stakes.len(), 1);
    let stake = stakes.get(0).cloned().unwrap_or_default();
    assert_eq!(stake.0, "term2");
    assert_eq!(stake.1, 1000);

    assert_eq!(balance(&app, 0), 0);
    assert_eq!(balance(&app, 1), 1000);
    assert_eq!(balance(&app, 2), 500);

    let staked_website_0 = app.get_stakes(&test_principal_id(0), &test_website(0)).unwrap();
    assert_eq!(staked_website_0.len(), 1);

    // The by-term index follows the by-website index.
    let term2_stakes = app.term_stakes(&String::from("term2"));
    assert_eq!(term2_stakes.len(), 2);
    assert_eq!(term2_stakes[0].1, 1000);
    assert_eq!(term2_stakes[0].0.owner, test_principal_id(0));
    assert_eq!(term2_stakes[1].1, 500);
    assert_eq!(term2_stakes[1].0.owner, test_principal_id(2));
}

#[test]
fn stake_add_moves_credits_from_balance() {
    let mut app = AppState::new();
    fund(&mut app, 0, 1000, &[]);
    let stakes = app.stake(&test_principal_id(0), String::from("site"), vec![add("x", 100)]).unwrap();
    assert_eq!(stakes, vec![(String::from("x"), 100)]);
    assert_eq!(balance(&app, 0), 900);
}

#[test]
fn stake_remove_all_clears_both_indices() {
    let mut app = AppState::new();
    fund(&mut app, 0, 200, &[("test", 800)]);
    let stakes = app.stake(&test_principal_id(0), test_url(0), vec![remove("test", 800)]).unwrap();
    assert!(stakes.is_empty());
    assert_eq!(balance(&app, 0), 1000);
    assert!(app.get_stakes(&test_principal_id(0), &test_website(0)).unwrap().is_empty());
    assert!(app.term_stakes(&String::from("test")).is_empty());
}

#[test]
fn stake_normalizes_terms() {
    let mut app = AppState::new();
    fund(&mut app, 0, 50, &[]);
    let stakes = app.stake(&test_principal_id(0), test_url(0), vec![add("  MiXed Case ", 20)]).unwrap();
    assert_eq!(stakes, vec![(String::from("mixed case"), 20)]);
    assert_eq!(app.term_stakes(&String::from("mixed case")).len(), 1);
}

#[test]
fn stake_same_term_twice_accumulates() {
    let mut app = AppState::new();
    fund(&mut app, 0, 50, &[]);
    let stakes = app
        .stake(&test_principal_id(0), test_url(0), vec![add("x", 20), add("X", 5)])
        .unwrap();
    assert_eq!(stakes, vec![(String::from("x"), 25)]);
    assert_eq!(balance(&app, 0), 25);
}

#[test]
fn stake_drops_non_positive_values() {
    let mut app = AppState::new();
    fund(&mut app, 0, 50, &[("x", 10)]);
    let stakes = app
        .stake(&test_principal_id(0), test_url(0), vec![add("y", 0), remove("x", -3), add("z", -1)])
        .unwrap();
    assert_eq!(stakes, vec![(String::from("x"), 10)]);
    assert_eq!(balance(&app, 0), 50);
}

#[test]
fn stake_remove_more_than_staked_fails() {
    let mut app = AppState::new();
    fund(&mut app, 0, 50, &[("x", 10)]);
    let r = app.stake(&test_principal_id(0), test_url(0), vec![remove("X", 11)]);
    assert_eq!(r, Err(SearchError::InsufficientStake(String::from("x"))));
    let r = app.stake(&test_principal_id(0), test_url(0), vec![remove("never", 1)]);
    assert_eq!(r, Err(SearchError::InsufficientStake(String::from("never"))));
}

#[test]
fn stake_add_more_than_available_fails() {
    let mut app = AppState::new();
    fund(&mut app, 0, 30, &[("x", 10)]);
    let r = app.stake(
        &test_principal_id(0),
        test_url(0),
        vec![add("a", 20), remove("x", 10), add("b", 21)],
    );
    assert_eq!(r, Err(SearchError::InsufficientAvailableCredits(String::from("b"))));
}

#[test]
fn failed_stake_changes_nothing() {
    let mut app = AppState::new();
    fund(&mut app, 0, 30, &[("x", 10), ("y", 5)]);
    fund(&mut app, 1, 7, &[("x", 3)]);
    let before_stakes = app.get_stakes(&test_principal_id(0), &test_website(0)).unwrap();
    let before_x = app.term_stakes(&String::from("x"));
    let r = app.stake(
        &test_principal_id(0),
        test_url(0),
        vec![remove("x", 10), add("z", 41), add("w", 1)],
    );
    assert_eq!(r, Err(SearchError::InsufficientAvailableCredits(String::from("z"))));
    assert_eq!(app.get_stakes(&test_principal_id(0), &test_website(0)).unwrap(), before_stakes);
    assert_eq!(app.term_stakes(&String::from("x")), before_x);
    assert!(app.term_stakes(&String::from("z")).is_empty());
    assert_eq!(balance(&app, 0), 30);
    assert_eq!(balance(&app, 1), 7);
}

#[test]
fn anonymous_caller_cannot_stake() {
    let mut app = AppState::new();
    let anon = Identity { bytes: vec![4] };
    let r = app.stake(&anon, String::from("site"), vec![add("x", 1)]);
    assert_eq!(r, Err(SearchError::AnonymousNotAllowed));
}

#[test]
fn only_the_owner_reads_stakes() {
    let mut app = AppState::new();
    fund(&mut app, 0, 5, &[("x", 10)]);
    let r = app.get_stakes(&test_principal_id(1), &test_website(0));
    assert_eq!(r, Err(SearchError::NotOwner));
    let r = app.get_stakes(&test_principal_id(0), &test_website(0)).unwrap();
    assert_eq!(r, vec![(String::from("x"), 10)]);
}

#[test]
fn indices_mirror_each_other_after_operations() {
    let mut app = AppState::new();
    fund(&mut app, 0, 100, &[("a", 10), ("b", 20)]);
    fund(&mut app, 1, 100, &[("b", 5), ("c", 7)]);
    app.stake(&test_principal_id(0), test_url(0), vec![remove("a", 10), add("c", 3)]).unwrap();
    app.retract_website(&test_principal_id(1), &test_url(1)).unwrap();
    for seed in 0..2u8 {
        let stakes = app.get_stakes(&test_principal_id(seed), &test_website(seed)).unwrap();
        for (term, amount) in &stakes {
            assert!(*amount > 0);
            let entries = app.term_stakes(term);
            let found: Vec<u64> =
                entries.iter().filter(|e| e.0 == test_website(seed)).map(|e| e.1).collect();
            assert_eq!(found, vec![*amount]);
        }
    }
    for term in ["a", "b", "c"] {
        for (website, amount) in app.term_stakes(&String::from(term)) {
            let stakes = app.get_stakes(&website.owner, &website).unwrap();
            assert!(stakes.contains(&(String::from(term), amount)));
        }
    }
    assert!(app.term_stakes(&String::from("a")).is_empty());
}

#[test]
fn credits_are_conserved_across_operations() {
    let mut app = AppState::new();
    let id = test_principal_id(0);
    app.deposit_cycles(&id, 100).unwrap();
    app.stake(&id, String::from("one"), vec![add("x", 30), add("y", 20)]).unwrap();
    app.stake(&id, String::from("two"), vec![add("x", 40)]).unwrap();
    app.stake(&id, String::from("one"), vec![remove("x", 30), add("z", 25)]).unwrap();
    let staked: u64 = ["one", "two"]
        .iter()
        .map(|l| {
            let w = Website { owner: id.clone(), link: String::from(*l) };
            app.get_stakes(&id, &w).unwrap().iter().map(|s| s.1).sum::<u64>()
        })
        .sum();
    assert_eq!(balance(&app, 0) + staked, 100);
    app.retract_website(&id, &String::from("one")).unwrap();
    assert_eq!(balance(&app, 0), 60);
}

#[test]
fn retracting_twice_credits_once() {
    let mut app = AppState::new();
    fund(&mut app, 0, 10, &[("x", 40)]);
    app.retract_website(&test_principal_id(0), &test_url(0)).unwrap();
    assert_eq!(balance(&app, 0), 50);
    app.retract_website(&test_principal_id(0), &test_url(0)).unwrap();
    assert_eq!(balance(&app, 0), 50);
    assert!(app.term_stakes(&String::from("x")).is_empty());
}
