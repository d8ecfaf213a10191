//! Behaviour of the player-mapping store: create, update in place,
//! idempotent upsert, and lookups by caller set.

use guildstore::players::{Player, PlayerContainer, UpsertOutcome};

#[test]
fn first_upsert_creates() {
    let mut store = PlayerContainer::new();
    assert_eq!(store.upsert_external_id(1, 7, 100), UpsertOutcome::Created);
    let found = store.find_mapping(1, 7).expect("mapping must exist");
    assert_eq!(found.discord(), 7);
    assert_eq!(found.steam(), 100);
}

#[test]
fn different_id_updates_in_place() {
    let mut store = PlayerContainer::new();
    assert_eq!(store.upsert_external_id(1, 7, 100), UpsertOutcome::Created);
    assert_eq!(store.upsert_external_id(1, 7, 200), UpsertOutcome::Updated);
    let found = store.find_mapping(1, 7).expect("mapping must exist");
    assert_eq!(found.steam(), 200);
    let all = store.external_ids_for(1, &vec![7]);
    assert_eq!(all.len(), 1);
}

#[test]
fn same_pair_twice_is_idempotent() {
    let mut store = PlayerContainer::new();
    assert_eq!(store.upsert_external_id(1, 7, 100), UpsertOutcome::Created);
    let before = store.external_ids_for(1, &vec![7]).len();
    assert_eq!(store.upsert_external_id(1, 7, 100), UpsertOutcome::Unchanged);
    let after = store.external_ids_for(1, &vec![7]).len();
    assert_eq!(before, after);
    assert_eq!(store.find_mapping(1, 7).expect("mapping must exist").steam(), 100);
}

#[test]
fn guilds_are_isolated() {
    let mut store = PlayerContainer::new();
    assert_eq!(store.upsert_external_id(1, 7, 100), UpsertOutcome::Created);
    assert_eq!(store.upsert_external_id(2, 7, 200), UpsertOutcome::Created);
    assert_eq!(store.find_mapping(1, 7).expect("guild one").steam(), 100);
    assert_eq!(store.find_mapping(2, 7).expect("guild two").steam(), 200);
}

#[test]
fn external_ids_for_filters_by_caller() {
    let mut store = PlayerContainer::new();
    store.upsert_external_id(1, 7, 100);
    store.upsert_external_id(1, 8, 200);
    store.upsert_external_id(1, 9, 300);
    let found = store.external_ids_for(1, &vec![9, 7, 42]);
    assert_eq!(found.len(), 2);
    assert_eq!(found[0].discord(), 9);
    assert_eq!(found[0].steam(), 300);
    assert_eq!(found[1].discord(), 7);
    assert_eq!(found[1].steam(), 100);
}

#[test]
fn lookup_in_empty_guild_finds_nothing() {
    let store = PlayerContainer::new();
    assert!(store.find_mapping(1, 7).is_none());
    assert_eq!(store.external_ids_for(1, &vec![7, 8]).len(), 0);
}

#[test]
fn player_accessors() {
    let p = Player::Steam(7, 100);
    assert_eq!(p.discord(), 7);
    assert_eq!(p.steam(), 100);
}
