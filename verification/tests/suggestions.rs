//! Behaviour of the suggestion store: duplicate detection, owner-gated
//! removal, listing order, and the rendered listing.

use guildstore::catalog::App;
use guildstore::errors::SuggestError;
use guildstore::suggest::{GameSuggestions, Suggestion, TextSuggestion};

fn text(owner: u64, title: &str) -> Suggestion {
    Suggestion::PlainText(
        owner,
        TextSuggestion { title: title.to_string(), genre: None, url: None },
    )
}

fn steam(owner: u64, id: u32, name: &str) -> Suggestion {
    Suggestion::Steam(owner, App { id, name: name.to_string() })
}

#[test]
fn add_then_list() {
    let mut store = GameSuggestions::new();
    assert!(store.add(1, text(7, "Halo")).is_ok());
    assert!(store.add(1, steam(8, 730, "Counter-Strike")).is_ok());
    let listed = store.list(1);
    assert_eq!(listed.len(), 2);
    assert_eq!(listed[0].title(), "Halo");
    assert_eq!(listed[0].user(), 7);
    assert_eq!(listed[1].title(), "Counter-Strike");
    assert_eq!(listed[1].user(), 8);
}

#[test]
fn duplicate_title_rejected_case_insensitively() {
    let mut store = GameSuggestions::new();
    assert!(store.add(1, text(7, "Halo")).is_ok());
    let r = store.add(1, text(9, "  hAlO  "));
    assert_eq!(r, Err(SuggestError::DuplicateTitle));
    assert_eq!(store.list(1).len(), 1);
}

#[test]
fn duplicate_detected_across_variants() {
    let mut store = GameSuggestions::new();
    assert!(store.add(1, steam(7, 42, "Portal")).is_ok());
    let r = store.add(1, text(8, "portal"));
    assert_eq!(r, Err(SuggestError::DuplicateTitle));
    assert_eq!(store.list(1).len(), 1);
}

#[test]
fn same_title_allowed_in_other_guild() {
    let mut store = GameSuggestions::new();
    assert!(store.add(1, text(7, "Halo")).is_ok());
    assert!(store.add(2, text(7, "Halo")).is_ok());
    assert_eq!(store.list(1).len(), 1);
    assert_eq!(store.list(2).len(), 1);
}

#[test]
fn same_title_second_add_fails() {
    let mut store = GameSuggestions::new();
    let first = store.add(1, text(7, "Stellaris"));
    let second = store.add(1, text(8, "Stellaris"));
    assert!(first.is_ok());
    assert_eq!(second, Err(SuggestError::DuplicateTitle));
    assert_eq!(store.list(1).len(), 1);
}

#[test]
fn remove_by_owner_returns_record() {
    let mut store = GameSuggestions::new();
    assert!(store.add(1, text(7, "Halo")).is_ok());
    let removed = store.remove(1, 7, "halo").expect("owner removal must succeed");
    assert_eq!(removed.title(), "Halo");
    assert_eq!(removed.user(), 7);
    assert_eq!(store.list(1).len(), 0);
}

#[test]
fn remove_by_non_owner_rejected() {
    let mut store = GameSuggestions::new();
    assert!(store.add(1, text(7, "Halo")).is_ok());
    let r = store.remove(1, 8, "Halo");
    assert_eq!(r.err(), Some(SuggestError::NotOwner));
    let listed = store.list(1);
    assert_eq!(listed.len(), 1);
    assert_eq!(listed[0].title(), "Halo");
}

#[test]
fn remove_missing_title_not_found() {
    let mut store = GameSuggestions::new();
    assert!(store.add(1, text(7, "Halo")).is_ok());
    assert_eq!(store.remove(1, 7, "Doom").err(), Some(SuggestError::NotFound));
    assert_eq!(store.remove(2, 7, "Halo").err(), Some(SuggestError::NotFound));
    assert_eq!(store.list(1).len(), 1);
}

#[test]
fn remove_swaps_last_into_gap() {
    let mut store = GameSuggestions::new();
    assert!(store.add(1, text(7, "A")).is_ok());
    assert!(store.add(1, text(7, "B")).is_ok());
    assert!(store.add(1, text(7, "C")).is_ok());
    assert!(store.remove(1, 7, "A").is_ok());
    let listed = store.list(1);
    assert_eq!(listed.len(), 2);
    assert_eq!(listed[0].title(), "C");
    assert_eq!(listed[1].title(), "B");
}

#[test]
fn empty_guild_lists_nothing() {
    let store = GameSuggestions::new();
    assert_eq!(store.list(99).len(), 0);
    assert_eq!(store.render(99), "");
}

#[test]
fn render_formats_both_variants() {
    let mut store = GameSuggestions::new();
    assert!(store
        .add(
            1,
            Suggestion::PlainText(
                7,
                TextSuggestion {
                    title: "Halo".to_string(),
                    genre: Some("fps".to_string()),
                    url: Some("https://example.test/".to_string()),
                },
            ),
        )
        .is_ok());
    assert!(store.add(1, steam(8, 730, "Counter-Strike")).is_ok());
    let block = store.render(1);
    assert_eq!(
        block,
        "Title: Halo Genre: fpsUrl: https://example.test/\r\n\
         Steam: Counter-Strike - https://store.steampowered.com/app/730/\r\n"
    );
}

#[test]
fn describe_text_suggestion() {
    let t = TextSuggestion {
        title: "Halo".to_string(),
        genre: Some("fps".to_string()),
        url: None,
    };
    assert_eq!(t.describe(), "Title: Halo | Genre: fps");
}

#[test]
fn default_suggestion_is_empty_plain_text() {
    let s = Suggestion::default();
    assert_eq!(s.title(), "");
    assert_eq!(s.user(), 0);
}
