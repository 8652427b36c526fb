use search::{AppState, Identity, SearchError, Stake, StakeDelta, Website, WebsiteDescription, SCORE_ONE};

fn test_principal_id(seed: u8) -> Identity {
    Identity { bytes: vec![seed + 10, 7, 7, 7, 7, 7, 7, 7, 7, 4] }
}

fn test_url(_seed: u8) -> String {
    String::from("")
}

fn test_website(seed: u8) -> Website {
    Website { owner: test_principal_id(seed), link: test_url(seed) }
}

fn test_website_name(seed: u8) -> String {
    format!("site {}", seed)
}

fn test_website_description(seed: u8) -> WebsiteDescription {
    WebsiteDescription {
        name: test_website_name(seed),
        link: test_url(seed),
        description: format!("all about site {}", seed),
    }
}

/// Describes website `seed` and stakes `stakes` on it.
fn listed(app: &mut AppState, seed: u8, stakes: &[(&str, u64)]) {
    let id = test_principal_id(seed);
    app.set_description(&id, test_website_description(seed)).unwrap();
    let needed: u64 = stakes.iter().map(|s| s.1).sum();
    app.deposit_cycles(&id, needed).unwrap();
    let deltas = stakes
        .iter()
        .map(|s| StakeDelta::Add(Stake { term: String::from(s.0), value: s.1 as i64 }))
        .collect();
    app.stake(&id, test_url(seed), deltas).unwrap();
}

fn names(result: &[WebsiteDescription]) -> Vec<String> {
    result.iter().map(|d| d.name.clone()).collect()
}

#[test]
fn test_single_term_ordering() {
    let mut app = AppState::new();
    listed(&mut app, 0, &[("Test", 1)]);
    listed(&mut app, 1, &[("Test", 2)]);
    listed(&mut app, 2, &[("Test", 3)]);
    listed(&mut app, 3, &[("Test", 4)]);

    // Check that a different term yields empty result
    let result = app.search(vec![String::from("Nottest")], 0, 100).unwrap();
    assert!(result.is_empty());

    // Check that with the correct term, the values are orderd in descending order
    let result = app.search(vec![String::from("Test")], 0, 100).unwrap();
    assert_eq!(result[0].name, test_website_name(3));
    assert_eq!(result[1].name, test_website_name(2));
    assert_eq!(result[2].name, test_website_name(1));
    assert_eq!(result[3].name, test_website_name(0));
}

#[test]
fn test_multi_term_ordering() {
    let mut app = AppState::new();
    listed(&mut app, 0, &[("Term1", 1)]);
    listed(&mut app, 1, &[("Term1", 1), ("Term2", 1)]);
    listed(&mut app, 2, &[("Term1", 1), ("Term2", 1), ("Term3", 1)]);
    listed(&mut app, 3, &[("Term1", 1), ("Term2", 1), ("Term3", 1), ("Term4", 1)]);

    let search_terms: Vec<String> =
        ["Term1", "Term2", "Term3", "Term4"].iter().map(|s| String::from(*s)).collect();
    let result = app.search(search_terms, 0, 100).unwrap();

    assert_eq!(result[0].name, test_website_name(3));
    assert_eq!(result[1].name, test_website_name(2));
    assert_eq!(result[2].name, test_website_name(1));
    assert_eq!(result[3].name, test_website_name(0));
}

#[test]
fn scores_are_shares_of_the_term() {
    let mut app = AppState::new();
    listed(&mut app, 1, &[("x", 1)]);
    listed(&mut app, 3, &[("x", 3)]);
    let ranked = app.rank(&vec![String::from("x")]);
    assert_eq!(ranked.len(), 2);
    assert_eq!(ranked[0], (test_website(3), SCORE_ONE / 4 * 3));
    assert_eq!(ranked[1], (test_website(1), SCORE_ONE / 4));
    let result = app.search(vec![String::from("x")], 0, 10).unwrap();
    assert_eq!(names(&result), vec![test_website_name(3), test_website_name(1)]);
}

#[test]
fn shares_add_up_over_terms() {
    let mut app = AppState::new();
    listed(&mut app, 0, &[("a", 1), ("b", 1)]);
    listed(&mut app, 1, &[("a", 3)]);
    // 0: 1/4 + 1 ; 1: 3/4
    let ranked = app.rank(&vec![String::from("a"), String::from("B ")]);
    assert_eq!(ranked[0], (test_website(0), SCORE_ONE / 4 + SCORE_ONE));
    assert_eq!(ranked[1], (test_website(1), SCORE_ONE / 4 * 3));
}

#[test]
fn equal_scores_keep_the_order_first_met() {
    let mut app = AppState::new();
    listed(&mut app, 5, &[("x", 2)]);
    listed(&mut app, 2, &[("x", 2)]);
    listed(&mut app, 7, &[("x", 2)]);
    let result = app.search(vec![String::from("x")], 0, 10).unwrap();
    assert_eq!(
        names(&result),
        vec![test_website_name(5), test_website_name(2), test_website_name(7)]
    );
}

#[test]
fn empty_query_finds_nothing() {
    let mut app = AppState::new();
    listed(&mut app, 0, &[("x", 2)]);
    assert_eq!(app.search(vec![], 0, 10), Ok(vec![]));
    assert!(app.rank(&vec![]).is_empty());
}

#[test]
fn zero_page_size_is_refused() {
    let mut app = AppState::new();
    listed(&mut app, 0, &[("x", 2)]);
    assert_eq!(app.search(vec![String::from("x")], 0, 0), Err(SearchError::InvalidPageSize));
}

#[test]
fn pages_split_the_ranking() {
    let mut app = AppState::new();
    listed(&mut app, 0, &[("x", 1)]);
    listed(&mut app, 1, &[("x", 2)]);
    listed(&mut app, 2, &[("x", 3)]);
    let q = || vec![String::from("x")];
    assert_eq!(names(&app.search(q(), 0, 2).unwrap()), vec![test_website_name(2), test_website_name(1)]);
    assert_eq!(names(&app.search(q(), 1, 2).unwrap()), vec![test_website_name(0)]);
    assert!(app.search(q(), 2, 2).unwrap().is_empty());
    assert!(app.search(q(), u64::MAX, u64::MAX).unwrap().is_empty());
}

#[test]
fn websites_without_description_are_skipped() {
    let mut app = AppState::new();
    listed(&mut app, 0, &[("x", 1)]);
    let id = test_principal_id(1);
    app.deposit_cycles(&id, 5).unwrap();
    app.stake(&id, String::from("undescribed"), vec![StakeDelta::Add(Stake { term: String::from("x"), value: 5 })])
        .unwrap();
    assert_eq!(app.rank(&vec![String::from("x")]).len(), 2);
    assert_eq!(names(&app.search(vec![String::from("x")], 0, 10).unwrap()), vec![test_website_name(0)]);
}

#[test]
fn seed_listings_are_searchable() {
    let mut app = AppState::new();
    app.init();
    let result = app.search(vec![String::from("search")], 0, 10).unwrap();
    assert_eq!(names(&result), vec![String::from("DeFind")]);
    let result = app.search(vec![String::from("Motoko")], 0, 10).unwrap();
    assert_eq!(result.len(), 2);
    assert_eq!(result[0].link, "https://anyuk-uiaaa-aaaah-aaduq-cai.ic0.app");
    // NNS Dapp holds 10 of the 38 units staked on "ic".
    let ranked = app.rank(&vec![String::from("IC")]);
    assert_eq!(ranked.len(), 6);
    assert_eq!(ranked[0].1, SCORE_ONE * 10 / 38);
}
