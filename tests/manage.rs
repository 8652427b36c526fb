use search::{AppState, Identity, SearchError, Stake, StakeDelta, Website, WebsiteDescription};

fn test_principal_id(seed: u8) -> Identity {
    Identity { bytes: vec![seed + 10, 7, 7, 7, 7, 7, 7, 7, 7, 2] }
}

fn test_url(_seed: u8) -> String {
    String::from("")
}

fn test_website_name(seed: u8) -> String {
    format!("site {}", seed)
}

fn test_website_description(seed: u8) -> WebsiteDescription {
    WebsiteDescription {
        name: test_website_name(seed),
        link: test_url(seed),
        description: format!("all about site {}", seed),
    }
}

fn stake_on(app: &mut AppState, seed: u8, term: &str, value: u64) {
    let id = test_principal_id(seed);
    app.deposit_cycles(&id, value).unwrap();
    app.stake(
        &id,
        test_url(seed),
        vec![StakeDelta::Add(Stake { term: String::from(term), value: value as i64 })],
    )
    .unwrap();
}

fn balance(app: &AppState, seed: u8) -> u64 {
    app.get_unstaked_cycles(&test_principal_id(seed)).unwrap()
}

#[test]
fn test_get_descriptions() {
    let mut app = AppState::new();
    app.set_description(&test_principal_id(0), test_website_description(0)).unwrap();
    let websites = app.get_websites(&test_principal_id(0)).unwrap();
    assert_eq!(websites.len(), 1);
    let websites_0 = websites.get(0).cloned().unwrap_or(WebsiteDescription {
        name: String::from("invalid"),
        link: String::from("invalid"),
        description: String::from("invalid"),
    });
    assert_eq!(websites_0.name, test_website_name(0));
    assert_eq!(websites_0.description, test_website_description(0).description);
    assert_eq!(websites_0.link, test_url(0));
}

#[test]
fn test_add_website_description() {
    let mut app = AppState::new();
    let principal = test_principal_id(0);
    let website_description = test_website_description(0);
    app.set_description(&principal, website_description.clone()).unwrap();

    let owned = app.get_websites(&principal).unwrap();
    assert!(!owned.is_empty());
    assert_eq!(owned[0].link, test_url(0));

    let found = owned.get(0).cloned().unwrap_or(test_website_description(1));
    assert_eq!(found.name, website_description.name);
    assert_eq!(found.link, website_description.link);
    assert_eq!(found.description, website_description.description);
}

#[test]
fn test_update_website_description() {
    let principal = test_principal_id(0);
    let mut website_description = test_website_description(0);
    website_description.description = String::from("test");
    let mut app = AppState::new();
    app.set_description(&principal, test_website_description(0)).unwrap();
    app.set_description(&principal, website_description.clone()).unwrap();

    let owned = app.get_websites(&principal).unwrap();
    assert!(!owned.is_empty());
    assert!(owned.len() == 1);
    assert_eq!(owned[0].link, test_url(0));

    let found = owned.get(0).cloned().unwrap_or(test_website_description(1));
    assert_eq!(found.name, website_description.name);
    assert_eq!(found.link, website_description.link);
    assert_eq!(found.description, "test");
}

#[test]
fn test_remove_website_only_one_website_no_stake() {
    let principal = test_principal_id(0);
    let mut app = AppState::new();
    app.set_description(&principal, test_website_description(0)).unwrap();
    app.remove_website(&principal, test_url(0)).unwrap();

    assert_eq!(app.description_count(), 0);
    assert!(app.get_websites(&principal).unwrap().is_empty());
}

#[test]
fn test_remove_website_only_one_website_with_stake() {
    let principal = test_principal_id(0);
    let mut app = AppState::new();
    app.set_description(&principal, test_website_description(0)).unwrap();
    stake_on(&mut app, 0, "test", 100);
    app.remove_website(&principal, test_url(0)).unwrap();

    assert_eq!(app.description_count(), 0);
    assert!(app.get_websites(&principal).unwrap().is_empty());
    assert_eq!(balance(&app, 0), 100);
}

#[test]
fn test_remove_website_multiple_websites_with_stake() {
    let principal = test_principal_id(0);
    let mut app = AppState::new();
    app.deposit_cycles(&principal, 900).unwrap();
    app.deposit_cycles(&test_principal_id(1), 2000).unwrap();
    app.deposit_cycles(&test_principal_id(2), 3000).unwrap();
    app.set_description(&principal, test_website_description(0)).unwrap();
    stake_on(&mut app, 0, "test", 100);
    stake_on(&mut app, 1, "test", 100);
    stake_on(&mut app, 2, "test", 100);
    app.remove_website(&principal, test_url(0)).unwrap();

    assert_eq!(app.description_count(), 0);
    assert!(app.get_websites(&principal).unwrap().is_empty());
    assert_eq!(balance(&app, 0), 1000);
    assert_eq!(balance(&app, 1), 2000);
    assert_eq!(balance(&app, 2), 3000);

    let staked_terms = app.term_stakes(&String::from("test"));
    assert!(!staked_terms.is_empty());
    assert_eq!(100, staked_terms[0].1);
    assert_eq!(test_principal_id(1), staked_terms[0].0.owner);
    assert_eq!(100, staked_terms[1].1);
    assert_eq!(test_principal_id(2), staked_terms[1].0.owner);
}

#[test]
fn removing_an_unknown_website_is_refused() {
    let mut app = AppState::new();
    stake_on(&mut app, 0, "test", 100);
    let r = app.remove_website(&test_principal_id(0), String::from("elsewhere"));
    assert_eq!(r, Err(SearchError::NotOwner));
    // Another principal's description is not the caller's to remove.
    app.set_description(&test_principal_id(1), test_website_description(1)).unwrap();
    let r = app.remove_website(&test_principal_id(0), test_url(1));
    assert_eq!(r, Err(SearchError::NotOwner));
    assert_eq!(app.description_count(), 1);
    assert_eq!(balance(&app, 0), 0);
}

#[test]
fn websites_are_listed_per_owner() {
    let mut app = AppState::new();
    let mut second = test_website_description(3);
    second.link = String::from("https://two.example");
    app.set_description(&test_principal_id(0), test_website_description(0)).unwrap();
    app.set_description(&test_principal_id(1), test_website_description(1)).unwrap();
    app.set_description(&test_principal_id(0), second.clone()).unwrap();
    let owned = app.get_websites(&test_principal_id(0)).unwrap();
    assert_eq!(owned, vec![test_website_description(0), second]);
    assert_eq!(app.get_websites(&test_principal_id(2)).unwrap(), vec![]);
    let anon = Identity { bytes: vec![4] };
    assert_eq!(app.get_websites(&anon), Err(SearchError::AnonymousNotAllowed));
    assert_eq!(
        app.set_description(&anon, test_website_description(5)),
        Err(SearchError::AnonymousNotAllowed)
    );
    let _ = Website { owner: anon, link: String::new() };
}
