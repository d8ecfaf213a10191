//! Behaviour of the common-games query: intersection, caller resolution,
//! the error ladder, line formatting, and chunking.

use guildstore::catalog::{App, Apps};
use guildstore::errors::CommonGamesError;
use guildstore::games::{
    GuildMember, OwnedGame, OwnedGames, build_lines, chunk_lines, find_common, intersect_all,
    owned_game_eq, plan_common_games, resolve_callers,
};
use guildstore::players::PlayerContainer;

fn game(id: u32) -> OwnedGame {
    OwnedGame {
        appid: id,
        name: None,
        playtime_forever: 0,
        img_icon_url: None,
        img_logo_url: None,
        playtime_windows_forever: 0,
        playtime_mac_forever: 0,
        playtime_linux_forever: 0,
    }
}

fn named_game(id: u32, name: &str) -> OwnedGame {
    OwnedGame { name: Some(name.to_string()), ..game(id) }
}

fn list(ids: &[u32]) -> OwnedGames {
    let games: Vec<OwnedGame> = ids.iter().map(|id| game(*id)).collect();
    OwnedGames { game_count: games.len() as u32, games }
}

fn member(nick: Option<&str>, name: &str, id: u64) -> GuildMember {
    GuildMember { nick: nick.map(|n| n.to_string()), name: name.to_string(), id }
}

#[test]
fn owned_game_eq_compares_ids_only() {
    assert!(owned_game_eq(&named_game(10, "a"), &named_game(10, "b")));
    assert!(!owned_game_eq(&game(10), &game(11)));
}

#[test]
fn two_way_intersection() {
    let a = list(&[10, 20, 30]);
    let b = list(&[20, 30, 40]);
    let common = find_common(&a, &b);
    let ids: Vec<u32> = common.games.iter().map(|g| g.appid).collect();
    assert_eq!(ids, vec![20, 30]);
    assert_eq!(common.game_count, 2);
}

#[test]
fn three_way_intersection() {
    let lists = vec![list(&[10, 20, 30]), list(&[20, 30, 40]), list(&[30, 50])];
    let common = intersect_all(lists).expect("intersection is non-empty");
    let ids: Vec<u32> = common.games.iter().map(|g| g.appid).collect();
    assert_eq!(ids, vec![30]);
}

#[test]
fn no_lists_reported() {
    assert_eq!(
        intersect_all(Vec::new()).err(),
        Some(CommonGamesError::NoListsAvailable)
    );
}

#[test]
fn empty_intersection_reported() {
    let lists = vec![list(&[10, 20]), list(&[30, 40])];
    assert_eq!(
        intersect_all(lists).err(),
        Some(CommonGamesError::EmptyIntersection)
    );
}

#[test]
fn nickname_matches_before_primary_name() {
    let members = vec![
        member(Some("ace"), "alice", 1),
        member(None, "bob", 2),
        member(Some("bob"), "carol", 3),
    ];
    let requested = vec!["bob".to_string(), "ace".to_string(), "nobody".to_string()];
    let ids = resolve_callers(&members, &requested);
    assert_eq!(ids, vec![2, 1]);
}

#[test]
fn too_few_resolved_names() {
    let members = vec![member(None, "alice", 1)];
    let store = PlayerContainer::new();
    let requested = vec!["alice".to_string(), "nobody".to_string()];
    let r = plan_common_games(&store, 1, &members, &requested);
    assert_eq!(r.err(), Some(CommonGamesError::InsufficientNames));
}

#[test]
fn single_mapped_caller_is_insufficient() {
    let members = vec![member(None, "alice", 1), member(None, "bob", 2)];
    let mut store = PlayerContainer::new();
    store.upsert_external_id(1, 1, 100);
    let requested = vec!["alice".to_string(), "bob".to_string()];
    let r = plan_common_games(&store, 1, &members, &requested);
    assert_eq!(r.err(), Some(CommonGamesError::InsufficientMappings));
}

#[test]
fn plan_returns_external_ids_in_request_order() {
    let members = vec![member(None, "alice", 1), member(None, "bob", 2)];
    let mut store = PlayerContainer::new();
    store.upsert_external_id(1, 1, 100);
    store.upsert_external_id(1, 2, 200);
    let requested = vec!["bob".to_string(), "alice".to_string()];
    let ids = plan_common_games(&store, 1, &members, &requested).expect("two mapped callers");
    assert_eq!(ids, vec![200, 100]);
}

#[test]
fn lines_fall_back_to_catalog_then_placeholder() {
    let common = OwnedGames {
        game_count: 3,
        games: vec![named_game(10, "Cached"), game(20), game(30)],
    };
    let apps = Apps::new(vec![App { id: 20, name: "FromCatalog".to_string() }]);
    let lines = build_lines(&common, &apps);
    assert_eq!(lines[0], "Cached - https://store.steampowered.com/app/10/\r\n");
    assert_eq!(lines[1], "FromCatalog - https://store.steampowered.com/app/20/\r\n");
    assert_eq!(lines[2], "** NNF ** - https://store.steampowered.com/app/30/\r\n");
}

#[test]
fn chunking_splits_long_reports() {
    let line = "x".repeat(100);
    let lines: Vec<String> = (0..25).map(|_| line.clone()).collect();
    let chunks = chunk_lines(&lines, 1950);
    assert!(chunks.len() >= 2);
    for c in &chunks {
        assert!(c.len() <= 1950);
    }
    let joined: String = chunks.concat();
    let expected: String = lines.concat();
    assert_eq!(joined, expected);
}

#[test]
fn chunking_never_splits_a_line() {
    let lines = vec!["a".repeat(1000), "b".repeat(1000), "c".repeat(100)];
    let chunks = chunk_lines(&lines, 1950);
    assert_eq!(chunks.len(), 2);
    assert_eq!(chunks[0], "a".repeat(1000));
    assert_eq!(chunks[1], format!("{}{}", "b".repeat(1000), "c".repeat(100)));
}

#[test]
fn short_report_is_one_chunk() {
    let lines = vec!["one\r\n".to_string(), "two\r\n".to_string()];
    let chunks = chunk_lines(&lines, 1950);
    assert_eq!(chunks, vec!["one\r\ntwo\r\n".to_string()]);
}

#[test]
fn no_lines_no_chunks() {
    let chunks = chunk_lines(&Vec::new(), 1950);
    assert_eq!(chunks.len(), 0);
}
