use listing_cache::bptf::{
    contains_item, split_events, BackpackTF, EventsApplied, SnapshotCache, SnapshotReply,
};
use listing_cache::db::{Database, SnapshotUpdate, UpsertCount};
use listing_cache::event::{
    BPCurrencies, Event, EventItem, EventListing, EventListingDeletion, ListingKey, ListingValue,
};
use listing_cache::source::PricingError;
use listing_cache::types::{Item, Listing, ListingResponse, StrIntValue};

fn key(defindex: u64, instance: &str) -> ListingKey {
    ListingKey { defindex, instance: instance.to_string() }
}

fn event_item(name: &str, defindex: u32) -> EventItem {
    EventItem { id: StrIntValue::Int(1), original_id: None, name: name.to_string(), defindex }
}

fn update(id: &str, name: &str, defindex: u32, price: u64) -> Event {
    Event::ListingUpdate(EventListing {
        id: id.to_string(),
        steamid: "765".to_string(),
        appid: 440,
        details: None,
        currencies: BPCurrencies { metal: Some(price), keys: None },
        intent: "sell".to_string(),
        listed_at: 10,
        bumped_at: 20,
        count: 1,
        status: "active".to_string(),
        source: "user".to_string(),
        item: event_item(name, defindex),
        value: ListingValue { raw: price },
        user_agent: None,
    })
}

fn deletion(id: &str, name: &str, defindex: u32) -> Event {
    Event::ListingDelete(EventListingDeletion { id: id.to_string(), item: event_item(name, defindex) })
}

fn record(price: u64, id: Option<u64>) -> Listing {
    Listing {
        steamid: "765".to_string(),
        offers: 1,
        buyout: 1,
        details: String::new(),
        intent: "sell".to_string(),
        timestamp: 1000,
        price,
        item: Item {
            id,
            original_id: None,
            defindex: 513,
            level: None,
            quality: 6,
            inventory: None,
            quantity: None,
            origin: None,
            attributes: None,
        },
        bump: 1000,
        user_agent: None,
    }
}

fn snapshot(listings: Vec<Listing>) -> ListingResponse {
    ListingResponse { listings, created_at: 1000 }
}

fn ok_reply(listings: Vec<Listing>) -> SnapshotReply {
    SnapshotReply::Response { status: 200, body: Some(snapshot(listings)) }
}

fn marketplace() -> BackpackTF {
    BackpackTF::new("key".to_string(), "token".to_string(), Database::new())
}

fn items() -> Vec<String> {
    vec!["Team Captain".to_string(), "Rocket Launcher".to_string()]
}

#[test]
fn new_marketplace_keeps_what_it_was_given() {
    let mut db = Database::new();
    db.update_listings_from_snapshot(vec![record(10, Some(1))], "Team Captain");
    let bptf = BackpackTF::new("key".to_string(), "token".to_string(), db);
    assert_eq!(bptf.auth_key(), "key");
    assert_eq!(bptf.user_token(), "token");
    assert_eq!(bptf.database().len(), 1);
    assert!(bptf.should_fetch("Team Captain", 0));
}

#[test]
fn cache_blocks_within_the_cooldown() {
    let mut cache = SnapshotCache::new();
    let item = "Team Captain".to_string();
    assert_eq!(cache.last_fetch(&item), None);
    assert!(cache.should_fetch(&item, 1000));
    cache.record_fetch(item.clone(), 1000);
    assert_eq!(cache.last_fetch(&item), Some(1000));
    assert!(!cache.should_fetch(&item, 1000));
    assert!(!cache.should_fetch(&item, 1059));
    assert!(cache.should_fetch(&item, 1060));
    assert!(cache.should_fetch(&item, 5000));
}

#[test]
fn cache_blocks_when_the_clock_went_back() {
    let mut cache = SnapshotCache::new();
    let item = "Team Captain".to_string();
    cache.record_fetch(item.clone(), 1000);
    assert!(!cache.should_fetch(&item, 999));
    assert!(!cache.should_fetch(&item, 0));
}

#[test]
fn cache_is_by_item() {
    let mut cache = SnapshotCache::new();
    cache.record_fetch("Team Captain".to_string(), 1000);
    assert!(cache.should_fetch(&"Rocket Launcher".to_string(), 1001));
    cache.record_fetch("Rocket Launcher".to_string(), 1001);
    assert_eq!(cache.last_fetch(&"Team Captain".to_string()), Some(1000));
    assert_eq!(cache.last_fetch(&"Rocket Launcher".to_string()), Some(1001));
}

#[test]
fn record_fetch_overwrites() {
    let mut cache = SnapshotCache::new();
    let item = "Team Captain".to_string();
    cache.record_fetch(item.clone(), 1000);
    cache.record_fetch(item.clone(), 2000);
    assert_eq!(cache.last_fetch(&item), Some(2000));
    cache.record_fetch(item.clone(), 1500);
    assert_eq!(cache.last_fetch(&item), Some(1500));
}

#[test]
fn second_fetch_within_a_minute_is_already_cached_and_a_third_after_it_succeeds() {
    let mut bptf = marketplace();
    let first = bptf.get_snapshot("Team Captain", 1000, ok_reply(vec![record(10, Some(1))]));
    assert_eq!(first, Ok(snapshot(vec![record(10, Some(1))])));
    let second = bptf.get_snapshot("Team Captain", 1059, ok_reply(vec![record(11, Some(1))]));
    assert_eq!(second, Err(PricingError::IsAlreadyCached));
    let third = bptf.get_snapshot("Team Captain", 1060, ok_reply(vec![record(12, Some(1))]));
    assert_eq!(third, Ok(snapshot(vec![record(12, Some(1))])));
    let fourth = bptf.get_snapshot("Team Captain", 1119, ok_reply(vec![]));
    assert_eq!(fourth, Err(PricingError::IsAlreadyCached));
}

#[test]
fn already_cached_does_not_renew_the_cooldown() {
    let mut bptf = marketplace();
    bptf.get_snapshot("Team Captain", 1000, ok_reply(vec![])).unwrap();
    assert!(bptf.get_snapshot("Team Captain", 1030, ok_reply(vec![])).is_err());
    assert!(bptf.get_snapshot("Team Captain", 1060, ok_reply(vec![])).is_ok());
}

#[test]
fn server_failure_is_a_server_error() {
    let mut bptf = marketplace();
    for status in [500u16, 503, 599] {
        let reply = SnapshotReply::Response { status, body: None };
        assert_eq!(bptf.get_snapshot("Team Captain", 1000, reply), Err(PricingError::ServerError));
    }
    assert!(bptf.should_fetch("Team Captain", 1000));
}

#[test]
fn any_other_status_is_an_internal_error() {
    let mut bptf = marketplace();
    for status in [0u16, 199, 201, 204, 301, 404, 429, 499, 600, 999] {
        let reply = SnapshotReply::Response { status, body: Some(snapshot(vec![])) };
        assert_eq!(bptf.get_snapshot("Team Captain", 1000, reply), Err(PricingError::InternalError));
    }
    assert!(bptf.should_fetch("Team Captain", 1000));
}

#[test]
fn undecodable_body_is_an_internal_error_and_is_not_noted() {
    let mut bptf = marketplace();
    let reply = SnapshotReply::Response { status: 200, body: None };
    assert_eq!(bptf.get_snapshot("Team Captain", 1000, reply), Err(PricingError::InternalError));
    assert!(bptf.should_fetch("Team Captain", 1001));
}

#[test]
fn no_response_is_an_internal_error() {
    let mut bptf = marketplace();
    assert_eq!(
        bptf.get_snapshot("Team Captain", 1000, SnapshotReply::Unreachable),
        Err(PricingError::InternalError)
    );
    assert!(bptf.should_fetch("Team Captain", 1001));
}

#[test]
fn watch_snapshots_writes_the_listings() {
    let mut bptf = marketplace();
    let count = bptf.watch_snapshots(
        "Team Captain",
        1000,
        ok_reply(vec![record(10, Some(1)), record(11, None), record(12, Some(2))]),
    );
    assert_eq!(count, Ok(SnapshotUpdate { updated: 0, created: 2, dropped: 1 }));
    assert_eq!(bptf.database().len(), 2);
    assert_eq!(bptf.database().get(&key(513, "440_2")).unwrap().price, 12);
    assert!(!bptf.should_fetch("Team Captain", 1001));
}

#[test]
fn watch_snapshots_leaves_the_store_alone_on_an_error() {
    let mut bptf = marketplace();
    bptf.watch_snapshots("Team Captain", 1000, ok_reply(vec![record(10, Some(1))])).unwrap();
    let cached = bptf.watch_snapshots("Team Captain", 1010, ok_reply(vec![record(99, Some(1))]));
    assert_eq!(cached, Err(PricingError::IsAlreadyCached));
    let failed = bptf.watch_snapshots("Other", 1010, SnapshotReply::Response { status: 502, body: None });
    assert_eq!(failed, Err(PricingError::ServerError));
    assert_eq!(bptf.database().len(), 1);
    assert_eq!(bptf.database().get(&key(513, "440_1")).unwrap().price, 10);
}

#[test]
fn contains_item_compares_whole_names() {
    assert!(contains_item(&items(), &"Team Captain".to_string()));
    assert!(!contains_item(&items(), &"The".to_string()));
    assert!(!contains_item(&items(), &"team captain".to_string()));
    assert!(!contains_item(&vec![], &"Team Captain".to_string()));
}

#[test]
fn split_events_parts_by_kind_and_interest() {
    let (deletions, updates) = split_events(
        vec![
            update("440_1", "Team Captain", 513, 10),
            deletion("440_2", "Team Captain", 513),
            update("440_3", "Scattergun", 13, 10),
            deletion("440_4", "Scattergun", 13),
            update("440_5", "Rocket Launcher", 18, 10),
        ],
        &items(),
    );
    let deleted: Vec<String> = deletions.into_iter().map(|d| d.id).collect();
    let updated: Vec<String> = updates.into_iter().map(|u| u.id).collect();
    assert_eq!(deleted, vec!["440_2".to_string()]);
    assert_eq!(updated, vec!["440_1".to_string(), "440_5".to_string()]);
}

#[test]
fn message_applies_deletions_before_updates() {
    let mut bptf = marketplace();
    bptf.watch_websocket(&items(), Some(vec![update("440_1", "Team Captain", 513, 10)]));
    let applied = bptf.watch_websocket(
        &items(),
        Some(vec![update("440_1", "Team Captain", 513, 15), deletion("440_1", "Team Captain", 513)]),
    );
    assert_eq!(applied, EventsApplied { deleted: 1, written: UpsertCount { updated: 0, created: 1 } });
    assert_eq!(bptf.database().len(), 1);
    assert_eq!(bptf.database().get(&key(513, "440_1")).unwrap().price, 15);
}

#[test]
fn message_about_other_items_changes_nothing() {
    let mut bptf = marketplace();
    bptf.watch_websocket(&items(), Some(vec![update("440_1", "Team Captain", 513, 10)]));
    let applied = bptf.watch_websocket(
        &items(),
        Some(vec![update("440_9", "Scattergun", 13, 10), deletion("440_1", "Scattergun", 513)]),
    );
    assert_eq!(applied, EventsApplied { deleted: 0, written: UpsertCount { updated: 0, created: 0 } });
    assert_eq!(bptf.database().len(), 1);
}

#[test]
fn undecodable_message_is_dropped() {
    let mut bptf = marketplace();
    bptf.watch_websocket(&items(), Some(vec![update("440_1", "Team Captain", 513, 10)]));
    let applied = bptf.watch_websocket(&items(), None);
    assert_eq!(applied, EventsApplied { deleted: 0, written: UpsertCount { updated: 0, created: 0 } });
    assert_eq!(bptf.database().len(), 1);
    let applied = bptf.watch_websocket(&items(), Some(vec![deletion("440_1", "Team Captain", 513)]));
    assert_eq!(applied.deleted, 1);
    assert_eq!(bptf.database().len(), 0);
}

#[test]
fn empty_message_changes_nothing() {
    let mut bptf = marketplace();
    let applied = bptf.watch_websocket(&items(), Some(vec![]));
    assert_eq!(applied, EventsApplied { deleted: 0, written: UpsertCount { updated: 0, created: 0 } });
}

#[test]
fn event_and_snapshot_of_one_listing_share_the_entry() {
    let mut bptf = marketplace();
    bptf.watch_snapshots("Team Captain", 1000, ok_reply(vec![record(10, Some(7))])).unwrap();
    bptf.watch_websocket(&items(), Some(vec![update("440_7", "Team Captain", 513, 12)]));
    assert_eq!(bptf.database().len(), 1);
    assert_eq!(bptf.database().get(&key(513, "440_7")).unwrap().price, 12);
    bptf.watch_websocket(&items(), Some(vec![deletion("440_7", "Team Captain", 513)]));
    assert_eq!(bptf.database().len(), 0);
}

#[test]
fn record_fetch_on_the_marketplace() {
    let mut bptf = marketplace();
    bptf.record_fetch("Team Captain", 50);
    assert!(!bptf.should_fetch("Team Captain", 109));
    assert!(bptf.should_fetch("Team Captain", 110));
    assert!(bptf.should_fetch("Rocket Launcher", 51));
}

#[test]
fn marketplace_sweeps_its_store() {
    let mut bptf = marketplace();
    bptf.watch_snapshots("Team Captain", 1_000_000, ok_reply(vec![record(10, Some(1))])).unwrap();
    assert!(bptf.evict_stale(513, 1000 + 259_200, 259_200).is_empty());
    assert_eq!(bptf.get_item_listings(513, 1000 + 259_200).len(), 1);
    assert_eq!(bptf.scan_for_old_listings(1000 + 86_400), vec![]);
    assert_eq!(bptf.scan_for_old_listings(1000 + 86_401), vec![key(513, "440_1")]);
    assert_eq!(bptf.database().len(), 0);
    assert!(bptf.get_item_listings(513, 1000 + 259_200).is_empty());
}
