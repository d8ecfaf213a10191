//! Behaviour of the snapshot codec: round trips of both stores, rejection
//! of corrupt blobs, and the general command group built on it.

use guildstore::catalog::App;
use guildstore::errors::SnapshotError;
use guildstore::general::General;
use guildstore::players::PlayerContainer;
use guildstore::snapshot::{load_players, load_suggestions, save_players, save_suggestions};
use guildstore::suggest::{GameSuggestions, Suggestion, TextSuggestion};

fn sample_suggestions() -> GameSuggestions {
    let mut store = GameSuggestions::new();
    store
        .add(
            1,
            Suggestion::PlainText(
                7,
                TextSuggestion {
                    title: "Halo: no {quotes} needed, \"any\" chars\n".to_string(),
                    genre: Some("fps".to_string()),
                    url: None,
                },
            ),
        )
        .expect("fresh title");
    store
        .add(1, Suggestion::Steam(8, App { id: 730, name: "Counter-Strike".to_string() }))
        .expect("fresh title");
    store
        .add(2, Suggestion::PlainText(9, TextSuggestion {
            title: "Chess".to_string(),
            genre: None,
            url: Some("https://example.test/".to_string()),
        }))
        .expect("fresh title");
    store
}

fn sample_players() -> PlayerContainer {
    let mut store = PlayerContainer::new();
    store.upsert_external_id(1, 7, 100);
    store.upsert_external_id(1, 8, 200);
    store.upsert_external_id(2, 9, 300);
    store
}

#[test]
fn suggestions_round_trip() {
    let store = sample_suggestions();
    let blob = save_suggestions(&store);
    let loaded = load_suggestions(blob.as_str()).expect("own blob must parse");
    for guild in [1u64, 2, 3] {
        let before = store.list(guild);
        let after = loaded.list(guild);
        assert_eq!(before.len(), after.len());
        for (b, a) in before.iter().zip(after.iter()) {
            assert_eq!(b.title(), a.title());
            assert_eq!(b.user(), a.user());
        }
    }
}

#[test]
fn players_round_trip() {
    let store = sample_players();
    let blob = save_players(&store);
    let loaded = load_players(blob.as_str()).expect("own blob must parse");
    for (guild, owner, external) in [(1u64, 7u64, 100u64), (1, 8, 200), (2, 9, 300)] {
        let m = loaded.find_mapping(guild, owner).expect("mapping survives");
        assert_eq!(m.steam(), external);
    }
    assert!(loaded.find_mapping(3, 7).is_none());
}

#[test]
fn empty_stores_round_trip() {
    let blob = save_suggestions(&GameSuggestions::new());
    assert_eq!(blob, "suggestions:0[]");
    assert!(load_suggestions(blob.as_str()).is_ok());
    let blob = save_players(&PlayerContainer::new());
    assert_eq!(blob, "players:0[]");
    assert!(load_players(blob.as_str()).is_ok());
}

#[test]
fn blob_layout_is_self_describing() {
    let mut store = PlayerContainer::new();
    store.upsert_external_id(5, 7, 100);
    assert_eq!(save_players(&store), "players:1[guild:5:1[steam{owner:7,id:100}]]");
}

#[test]
fn corrupt_blobs_rejected() {
    for blob in [
        "",
        "nonsense",
        "players:1[guild:5:1[steam{owner:7,id:100}]]trailing",
        "suggestions:2[]",
        "suggestions:1[guild:1:1[plain{owner:x,title:4:Halo,genre:-,url:-}]]",
        "suggestions:1[guild:1:1[plain{owner:7,title:9:Halo,genre:-,url:-}]]",
    ] {
        assert_eq!(
            load_suggestions(blob).err(),
            Some(SnapshotError::CorruptSnapshot),
            "blob accepted: {blob}"
        );
    }
    assert_eq!(load_players("players:1[").err(), Some(SnapshotError::CorruptSnapshot));
}

#[test]
fn duplicate_titles_in_blob_are_corrupt() {
    let blob = "suggestions:1[guild:1:2[plain{owner:7,title:4:Halo,genre:-,url:-}\
                plain{owner:8,title:4:halo,genre:-,url:-}]]"
        .replace(" ", "");
    assert_eq!(
        load_suggestions(blob.as_str()).err(),
        Some(SnapshotError::CorruptSnapshot)
    );
}

#[test]
fn duplicate_owners_in_blob_are_corrupt() {
    let blob = "players:1[guild:1:2[steam{owner:7,id:100}steam{owner:7,id:200}]]";
    assert_eq!(load_players(blob).err(), Some(SnapshotError::CorruptSnapshot));
}

#[test]
fn title_that_mimics_codec_syntax_round_trips() {
    let mut store = GameSuggestions::new();
    store
        .add(1, Suggestion::PlainText(7, TextSuggestion {
            title: "5:ab],steam{owner:1,id:2}".to_string(),
            genre: None,
            url: None,
        }))
        .expect("fresh title");
    let blob = save_suggestions(&store);
    let loaded = load_suggestions(blob.as_str()).expect("length prefixes protect every char");
    assert_eq!(loaded.list(1)[0].title(), "5:ab],steam{owner:1,id:2}");
}

#[test]
fn non_ascii_title_round_trips() {
    let mut store = GameSuggestions::new();
    store
        .add(3, Suggestion::PlainText(7, TextSuggestion {
            title: "Äventyr på ön 🎮".to_string(),
            genre: Some("äventyr".to_string()),
            url: None,
        }))
        .expect("fresh title");
    let blob = save_suggestions(&store);
    let loaded = load_suggestions(blob.as_str()).expect("characters, not bytes, are counted");
    assert_eq!(loaded.list(3)[0].title(), "Äventyr på ön 🎮");
}

#[test]
fn general_save_produces_both_blobs() {
    let (sugg, players) = General::save(&sample_suggestions(), &sample_players());
    assert!(load_suggestions(sugg.as_str()).is_ok());
    assert!(load_players(players.as_str()).is_ok());
}

#[test]
fn general_ping() {
    assert_eq!(General::ping(), "Pong!");
}
