use search::{normalize_term, parse_identity, principal_to_link, resolve_caller, AppState, Identity, SearchError};

#[test]
fn principal_to_link_wraps_the_text() {
    assert_eq!(principal_to_link("qoctq-giaaa-aaaaa-aaaea-cai"), "https://qoctq-giaaa-aaaaa-aaaea-cai.ic0.app");
    assert_eq!(principal_to_link(""), "https://.ic0.app");
}

#[test]
fn parse_identity_decodes_principals() {
    let anon = parse_identity("2vxsx-fae").unwrap();
    assert_eq!(anon.bytes, vec![4]);
    assert!(anon.is_anonymous());
    assert_eq!(parse_identity("aaaaa-aa").unwrap().bytes, Vec::<u8>::new());
    let canister = parse_identity("r7inp-6aaaa-aaaaa-aaabq-cai").unwrap();
    assert_eq!(canister.bytes.len(), 10);
    assert!(!canister.is_anonymous());
    assert_eq!(parse_identity("not a principal"), None);
}

#[test]
fn anonymous_callers_are_rejected() {
    let anon = Identity { bytes: vec![4] };
    assert_eq!(resolve_caller(&anon), Err(SearchError::AnonymousNotAllowed));
    let someone = Identity { bytes: vec![4, 4] };
    assert_eq!(resolve_caller(&someone), Ok(someone.clone()));
}

#[test]
fn terms_are_trimmed_and_lowercased() {
    assert_eq!(normalize_term(&String::from("  HeLLo World\t")), "hello world");
    assert_eq!(normalize_term(&String::from("ÄRGER")), "ärger");
    assert_eq!(normalize_term(&String::from("")), "");
}

#[test]
fn init_entry_skips_bad_controllers() {
    let mut app = AppState::new();
    let entered = app.init_entry("nope", "Name", "https://x", "desc", vec![(String::from("a"), 5)]);
    assert!(!entered);
    let entered = app.init_entry("2vxsx-fae", "Name", "https://x", "desc", vec![(String::from("a"), 5)]);
    assert!(!entered);
    assert_eq!(app.description_count(), 0);
    let entered = app.init_entry(
        "r7inp-6aaaa-aaaaa-aaabq-cai",
        "Name",
        "https://x",
        "desc",
        vec![(String::from("A"), 5), (String::from("b"), 7)],
    );
    assert!(entered);
    let owner = parse_identity("r7inp-6aaaa-aaaaa-aaabq-cai").unwrap();
    assert_eq!(app.get_unstaked_cycles(&owner), Ok(0));
    assert_eq!(app.get_websites(&owner).unwrap().len(), 1);
    assert_eq!(app.term_stakes(&String::from("a")).len(), 1);
}
