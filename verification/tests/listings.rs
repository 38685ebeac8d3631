use listing_cache::digest::md5_hex_of;
use listing_cache::event::{
    buy_instance_of, buy_instance_with, definition_key, sell_instance_of, BPCurrencies, EventItem,
    EventListing,
    EventListingDeletion, ListingKey, ListingValue, UniversalItem, UniversalListing,
};
use listing_cache::source::PricingError;
use listing_cache::types::{Intent, Item, Listing, StrIntValue, UserAgent};

fn item(id: Option<u64>, defindex: u64) -> Item {
    Item {
        id,
        original_id: None,
        defindex,
        level: None,
        quality: 6,
        inventory: None,
        quantity: None,
        origin: None,
        attributes: None,
    }
}

fn snapshot_listing(steamid: &str, intent: &str, price: u64, id: Option<u64>, defindex: u64) -> Listing {
    Listing {
        steamid: steamid.to_string(),
        offers: 1,
        buyout: 1,
        details: "details".to_string(),
        intent: intent.to_string(),
        timestamp: 1_700_000_000,
        price,
        item: item(id, defindex),
        bump: 1_700_000_500,
        user_agent: Some(UserAgent { last_pulse: 1_700_000_400, client: "bot".to_string() }),
    }
}

fn event_listing(id: &str, intent: &str, defindex: u32, item_id: StrIntValue) -> EventListing {
    EventListing {
        id: id.to_string(),
        steamid: "76561198000000001".to_string(),
        appid: 440,
        details: None,
        currencies: BPCurrencies { metal: Some(1255), keys: None },
        intent: intent.to_string(),
        listed_at: 1_700_000_000,
        bumped_at: 1_700_000_300,
        count: 1,
        status: "active".to_string(),
        source: "user".to_string(),
        item: EventItem {
            id: item_id,
            original_id: None,
            name: "Team Captain".to_string(),
            defindex,
        },
        value: ListingValue { raw: 1255 },
        user_agent: None,
    }
}

#[test]
fn intent_of_the_feed_words() {
    assert_eq!(Intent::from_word(&"sell".to_string()), Intent::Sell);
    assert_eq!(Intent::from_word(&"buy".to_string()), Intent::Buy);
}

#[test]
fn intent_of_any_other_word_is_buy() {
    assert_eq!(Intent::from_word(&"Sell".to_string()), Intent::Buy);
    assert_eq!(Intent::from_word(&"".to_string()), Intent::Buy);
}

#[test]
fn number_of_a_value_sent_as_text() {
    assert_eq!(StrIntValue::Str("15079428672".to_string()).to_u64(), Some(15079428672));
    assert_eq!(StrIntValue::Int(5).to_u64(), Some(5));
    assert_eq!(StrIntValue::Str("five".to_string()).to_u64(), None);
}

#[test]
fn sell_instance_names_the_item_copy() {
    assert_eq!(sell_instance_of(15079428672), "440_15079428672");
    assert_eq!(sell_instance_of(0), "440_0");
}

#[test]
fn buy_instance_names_the_account_and_the_item() {
    assert_eq!(
        buy_instance_of("76561198000000001", ""),
        "440_76561198000000001_d41d8cd98f00b204e9800998ecf8427e"
    );
    assert_eq!(
        buy_instance_of("76561198000000001", "Team Captain"),
        format!("440_76561198000000001_{}", md5_hex_of("Team Captain"))
    );
}

#[test]
fn storage_key_is_the_item_type_then_the_instance() {
    let key = ListingKey { defindex: 513, instance: "440_15079428672".to_string() };
    assert_eq!(key.storage_key(), "listing:513:440_15079428672");
}

#[test]
fn keys_are_the_same_by_both_parts() {
    let a = ListingKey { defindex: 513, instance: "440_1".to_string() };
    let b = ListingKey { defindex: 513, instance: "440_1".to_string() };
    let c = ListingKey { defindex: 514, instance: "440_1".to_string() };
    let d = ListingKey { defindex: 513, instance: "440_2".to_string() };
    assert!(a.same(&b));
    assert!(!a.same(&c));
    assert!(!a.same(&d));
}

#[test]
fn sell_record_of_a_snapshot_becomes_a_listing() {
    let listing =
        UniversalListing::from_snapshot(snapshot_listing("765", "sell", 1255, Some(42), 513), "Team Captain");
    assert_eq!(
        listing,
        Ok(UniversalListing {
            key: ListingKey { defindex: 513, instance: "440_42".to_string() },
            id: None,
            steamid: "765".to_string(),
            details: Some("details".to_string()),
            intent: Intent::Sell,
            price: 1255,
            bumped_at: 1_700_000_000,
            has_active_agent: true,
            item: UniversalItem { id: Some(42), defindex: 513 },
        })
    );
}

#[test]
fn buy_record_of_a_snapshot_becomes_a_listing() {
    let mut record = snapshot_listing("765", "buy", 1100, None, 513);
    record.user_agent = None;
    let listing = UniversalListing::from_snapshot(record, "Team Captain").unwrap();
    assert_eq!(listing.key.defindex, 513);
    assert_eq!(listing.key.instance, format!("440_765_{}", md5_hex_of("Team Captain")));
    assert_eq!(listing.intent, Intent::Buy);
    assert_eq!(listing.id, None);
    assert_eq!(listing.price, 1100);
    assert!(!listing.has_active_agent);
    assert_eq!(listing.item, UniversalItem { id: Some(0), defindex: 513 });
}

#[test]
fn sell_record_without_an_item_copy_is_refused() {
    let listing =
        UniversalListing::from_snapshot(snapshot_listing("765", "sell", 1255, None, 513), "Team Captain");
    assert_eq!(listing, Err(PricingError::InvalidIdentity));
}

#[test]
fn sell_records_of_different_copies_have_different_keys() {
    let a = UniversalListing::from_snapshot(snapshot_listing("765", "sell", 1, Some(1), 513), "x").unwrap();
    let b = UniversalListing::from_snapshot(snapshot_listing("765", "sell", 1, Some(2), 513), "x").unwrap();
    assert!(!a.key.same(&b.key));
}

#[test]
fn buy_records_of_one_account_for_one_item_have_one_key() {
    let a = UniversalListing::from_snapshot(snapshot_listing("765", "buy", 1, None, 513), "x").unwrap();
    let b = UniversalListing::from_snapshot(snapshot_listing("765", "buy", 2, Some(9), 513), "x").unwrap();
    let other_account =
        UniversalListing::from_snapshot(snapshot_listing("766", "buy", 1, None, 513), "x").unwrap();
    let other_item = UniversalListing::from_snapshot(snapshot_listing("765", "buy", 1, None, 513), "y").unwrap();
    assert!(a.key.same(&b.key));
    assert!(!a.key.same(&other_account.key));
    assert!(!a.key.same(&other_item.key));
}

#[test]
fn record_of_the_event_stream_becomes_a_listing() {
    let mut record = event_listing("440_42", "sell", 513, StrIntValue::Str("42".to_string()));
    record.details = Some("selling".to_string());
    record.user_agent = Some(UserAgent { last_pulse: 1, client: "bot".to_string() });
    assert_eq!(
        UniversalListing::from_event(record),
        UniversalListing {
            key: ListingKey { defindex: 513, instance: "440_42".to_string() },
            id: Some("440_42".to_string()),
            steamid: "76561198000000001".to_string(),
            details: Some("selling".to_string()),
            intent: Intent::Sell,
            price: 1255,
            bumped_at: 1_700_000_300,
            has_active_agent: true,
            item: UniversalItem { id: Some(42), defindex: 513 },
        }
    );
}

#[test]
fn event_record_with_an_unreadable_item_id_still_becomes_a_listing() {
    let record = event_listing("440_42", "buy", 513, StrIntValue::Str("n/a".to_string()));
    let listing = UniversalListing::from_event(record);
    assert_eq!(listing.item, UniversalItem { id: None, defindex: 513 });
    assert_eq!(listing.intent, Intent::Buy);
    assert!(!listing.has_active_agent);
}

#[test]
fn deletion_names_the_listing_by_item_type_and_feed_id() {
    let deletion = EventListingDeletion {
        id: "440_42".to_string(),
        item: EventItem {
            id: StrIntValue::Int(42),
            original_id: None,
            name: "Team Captain".to_string(),
            defindex: 513,
        },
    };
    assert_eq!(deletion.key(), ListingKey { defindex: 513, instance: "440_42".to_string() });
}

#[test]
fn clone_of_a_listing_is_the_listing() {
    let listing = UniversalListing::from_event(event_listing("440_1", "sell", 1, StrIntValue::Int(1)));
    assert_eq!(listing.clone(), listing);
}

#[test]
fn buy_instance_with_a_given_digest() {
    assert_eq!(buy_instance_with("765", "0123456789abcdef"), "440_765_0123456789abcdef");
    assert_eq!(buy_instance_with("", ""), "440__");
}

#[test]
fn definition_key_is_the_item_type() {
    assert_eq!(definition_key(513), "item:513");
    assert_eq!(definition_key(0), "item:0");
}

#[test]
fn event_record_converts_into_a_listing() {
    let record = event_listing("440_42", "sell", 513, StrIntValue::Int(42));
    let by_name = UniversalListing::from_event(record.clone());
    let by_trait: UniversalListing = record.into();
    assert_eq!(by_trait, by_name);
    assert_eq!(by_trait.key, ListingKey { defindex: 513, instance: "440_42".to_string() });
}
