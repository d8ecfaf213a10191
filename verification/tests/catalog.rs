//! Behaviour of the catalog cache: lookups by id and by exact name, and
//! the canonical store URL.

use guildstore::catalog::{App, Apps};

fn cache() -> Apps {
    Apps::new(vec![
        App { id: 730, name: "Counter-Strike".to_string() },
        App { id: 440, name: "Team Fortress".to_string() },
        App { id: 731, name: "Counter-Strike".to_string() },
    ])
}

#[test]
fn url_renders_decimal_id() {
    let app = App { id: 730, name: "Counter-Strike".to_string() };
    assert_eq!(app.url(), "https://store.steampowered.com/app/730/");
    let zero = App { id: 0, name: String::new() };
    assert_eq!(zero.url(), "https://store.steampowered.com/app/0/");
}

#[test]
fn find_by_id_returns_first_match() {
    let apps = cache();
    let found = apps.find_by_id(440).expect("id present");
    assert_eq!(found.name, "Team Fortress");
    assert!(apps.find_by_id(999).is_err());
}

#[test]
fn find_by_name_is_exact_and_first() {
    let apps = cache();
    let found = apps.find_by_name("Counter-Strike").expect("name present");
    assert_eq!(found.id, 730);
    assert!(apps.find_by_name("counter-strike").is_err());
    assert!(apps.find_by_name("Dust").is_err());
}

#[test]
fn empty_cache_finds_nothing() {
    let apps = Apps::default();
    assert!(apps.is_empty());
    assert!(apps.find_by_id(1).is_err());
    assert!(apps.find_by_name("x").is_err());
}
