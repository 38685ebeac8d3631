use listing_cache::types::{
    Intent, Item, ItemAttribute, Listing, ListingResponse, StrIntValue, UserAgent,
};

fn listing(intent: &str, price: u64, last_pulse: Option<u32>) -> Listing {
    Listing {
        steamid: "765".to_string(),
        offers: 1,
        buyout: 1,
        details: String::new(),
        intent: intent.to_string(),
        timestamp: 0,
        price,
        item: Item {
            id: Some(price),
            original_id: None,
            defindex: 513,
            level: None,
            quality: 6,
            inventory: None,
            quantity: None,
            origin: None,
            attributes: None,
        },
        bump: 0,
        user_agent: last_pulse.map(|last_pulse| UserAgent { last_pulse, client: "bot".to_string() }),
    }
}

fn with_attributes(price: u64, defindexes: Vec<Option<StrIntValue>>) -> Listing {
    let mut l = listing("sell", price, None);
    l.item.attributes = Some(
        defindexes.into_iter().map(|defindex| ItemAttribute { defindex, value: None, float_value: None }).collect(),
    );
    l
}

fn response(listings: Vec<Listing>) -> ListingResponse {
    ListingResponse { listings, created_at: 77 }
}

fn prices(response: &ListingResponse) -> Vec<u64> {
    response.listings.iter().map(|l| l.price).collect()
}

#[test]
fn filter_not_selling_keeps_sellers_in_order() {
    let mut r = response(vec![
        listing("sell", 3, None),
        listing("buy", 2, None),
        listing("sell", 1, None),
        listing("trade", 4, None),
    ]);
    r.filter_not_selling();
    assert_eq!(prices(&r), vec![3, 1]);
    assert_eq!(r.created_at, 77);
}

#[test]
fn filter_not_buying_keeps_buyers_in_order() {
    let mut r = response(vec![
        listing("sell", 3, None),
        listing("buy", 2, None),
        listing("trade", 4, None),
        listing("buy", 5, None),
    ]);
    r.filter_not_buying();
    assert_eq!(prices(&r), vec![2, 5]);
}

#[test]
fn keep_only_intent_of_an_empty_snapshot() {
    let mut r = response(vec![]);
    r.keep_only_intent(Intent::Sell);
    assert!(r.listings.is_empty());
}

#[test]
fn agent_seen_nineteen_minutes_ago_is_kept() {
    let now: u64 = 1_700_000_000;
    let mut r = response(vec![listing("sell", 1, Some((now - 19 * 60) as u32))]);
    r.filter_humans(now);
    assert_eq!(prices(&r), vec![1]);
}

#[test]
fn agent_seen_twenty_one_minutes_ago_is_rejected() {
    let now: u64 = 1_700_000_000;
    let mut r = response(vec![listing("sell", 1, Some((now - 21 * 60) as u32))]);
    r.filter_humans(now);
    assert!(r.listings.is_empty());
}

#[test]
fn agent_seen_exactly_the_window_ago_is_kept() {
    let now: u64 = 1_700_000_000;
    let mut r = response(vec![
        listing("sell", 1, Some((now - 20 * 60) as u32)),
        listing("sell", 2, Some((now - 20 * 60 - 1) as u32)),
    ]);
    r.filter_humans(now);
    assert_eq!(prices(&r), vec![1]);
}

#[test]
fn agent_seen_after_now_is_kept() {
    let mut r = response(vec![listing("sell", 1, Some(500))]);
    r.filter_humans(100);
    assert_eq!(prices(&r), vec![1]);
}

#[test]
fn filter_humans_drops_listings_without_an_agent() {
    let now: u64 = 1_700_000_000;
    let mut r = response(vec![
        listing("sell", 1, None),
        listing("sell", 2, Some(now as u32)),
        listing("buy", 3, None),
    ]);
    r.filter_humans(now);
    assert_eq!(prices(&r), vec![2]);
}

#[test]
fn reject_inactive_agents_can_keep_people() {
    let now: u64 = 10_000;
    let mut r = response(vec![
        listing("sell", 1, None),
        listing("sell", 2, Some(9_000)),
        listing("sell", 3, Some(1_000)),
    ]);
    r.reject_inactive_agents(now, 1200, true);
    assert_eq!(prices(&r), vec![1, 2]);
}

#[test]
fn reject_inactive_agents_takes_the_window_it_is_given() {
    let mut r = response(vec![listing("sell", 1, Some(90)), listing("sell", 2, Some(89))]);
    r.reject_inactive_agents(100, 10, false);
    assert_eq!(prices(&r), vec![1]);
}

#[test]
fn outliers_of_four_prices() {
    let mut r = response(vec![
        listing("sell", 10, None),
        listing("sell", 11, None),
        listing("sell", 9, None),
        listing("sell", 1000, None),
    ]);
    assert_eq!(r.twice_median_price(), 21);
    r.filter_outliers();
    assert_eq!(prices(&r), vec![10, 11, 9]);
}

#[test]
fn median_of_an_odd_number_of_prices_is_the_middle_one() {
    let r = response(vec![listing("sell", 30, None), listing("sell", 10, None), listing("sell", 20, None)]);
    assert_eq!(r.twice_median_price(), 40);
}

#[test]
fn median_of_one_price() {
    let mut r = response(vec![listing("sell", 7, None)]);
    assert_eq!(r.twice_median_price(), 14);
    r.filter_outliers();
    assert_eq!(prices(&r), vec![7]);
}

#[test]
fn median_of_the_largest_prices_does_not_overflow() {
    let mut r = response(vec![listing("sell", u64::MAX, None), listing("sell", u64::MAX, None)]);
    assert_eq!(r.twice_median_price(), 2 * (u64::MAX as u128));
    r.filter_outliers();
    assert_eq!(r.listings.len(), 2);
}

#[test]
fn outlier_band_includes_its_bounds() {
    // median 100: the band is from 83.33 to 120
    let mut r = response(vec![
        listing("sell", 83, None),
        listing("sell", 84, None),
        listing("sell", 100, None),
        listing("sell", 120, None),
        listing("sell", 121, None),
    ]);
    r.filter_outliers();
    assert_eq!(prices(&r), vec![84, 100, 120]);
}

#[test]
fn outlier_band_of_another_tolerance() {
    // median 100, tolerance 2: the band is from 50 to 200
    let mut r = response(vec![
        listing("sell", 49, None),
        listing("sell", 50, None),
        listing("sell", 100, None),
        listing("sell", 200, None),
        listing("sell", 201, None),
    ]);
    r.reject_outliers(2, 1);
    assert_eq!(prices(&r), vec![50, 100, 200]);
}

#[test]
fn average_is_the_mean_rounded_down() {
    let r = response(vec![listing("sell", 10, None), listing("sell", 11, None), listing("sell", 9, None)]);
    assert_eq!(r.get_average(), 10);
    let r = response(vec![listing("sell", 1, None), listing("sell", 2, None)]);
    assert_eq!(r.get_average(), 1);
    let r = response(vec![listing("sell", 1255, None)]);
    assert_eq!(r.get_average(), 1255);
}

#[test]
fn average_of_the_largest_prices_does_not_overflow() {
    let r = response(vec![
        listing("sell", u64::MAX, None),
        listing("sell", u64::MAX, None),
        listing("sell", u64::MAX - 3, None),
    ]);
    assert_eq!(r.get_average(), u64::MAX - 1);
}

#[test]
fn listings_with_a_named_attribute_are_removed() {
    let mut r = response(vec![
        with_attributes(1, vec![Some(StrIntValue::Int(2025))]),
        with_attributes(2, vec![Some(StrIntValue::Int(142)), Some(StrIntValue::Str("2025".to_string()))]),
        with_attributes(3, vec![Some(StrIntValue::Int(142))]),
        with_attributes(4, vec![]),
        listing("sell", 5, None),
        with_attributes(6, vec![Some(StrIntValue::Str("paint".to_string()))]),
    ]);
    r.dont_have_attributes(&vec![2025, 2027]);
    assert_eq!(prices(&r), vec![3, 4, 5, 6]);
}

#[test]
fn attribute_without_a_type_counts_as_any_named_one() {
    let mut r = response(vec![with_attributes(1, vec![None]), with_attributes(2, vec![Some(StrIntValue::Int(1))])]);
    r.dont_have_attributes(&vec![2025]);
    assert_eq!(prices(&r), vec![2]);
}

#[test]
fn no_named_attribute_removes_nothing() {
    let mut r = response(vec![with_attributes(1, vec![None]), with_attributes(2, vec![Some(StrIntValue::Int(1))])]);
    r.dont_have_attributes(&vec![]);
    assert_eq!(prices(&r), vec![1, 2]);
}

#[test]
fn lowest_seller_is_the_first_of_the_cheapest() {
    let mut cheap_second = listing("sell", 5, None);
    cheap_second.steamid = "second".to_string();
    let r = response(vec![
        listing("buy", 1, None),
        listing("sell", 9, None),
        listing("sell", 5, None),
        cheap_second,
    ]);
    assert_eq!(r.lowest_seller(), Some(2));
    let lowest = r.get_lowest_seller().unwrap();
    assert_eq!(lowest.price, 5);
    assert_eq!(lowest.steamid, "765");
}

#[test]
fn lowest_seller_of_no_seller() {
    let r = response(vec![listing("buy", 1, None)]);
    assert_eq!(r.lowest_seller(), None);
    assert_eq!(r.get_lowest_seller(), None);
    assert_eq!(response(vec![]).lowest_seller(), None);
}

#[test]
fn get_listings_hands_out_the_listings() {
    let r = response(vec![listing("buy", 1, None), listing("sell", 2, None)]);
    let listings = r.get_listings();
    assert_eq!(listings.len(), 2);
    assert_eq!(listings[1].price, 2);
}

#[test]
fn filters_compose() {
    let now: u64 = 100_000;
    let mut r = response(vec![
        listing("sell", 10, Some(99_900)),
        listing("buy", 10, Some(99_900)),
        listing("sell", 11, None),
        listing("sell", 12, Some(99_000)),
        listing("sell", 500, Some(99_000)),
        listing("sell", 9, Some(1)),
    ]);
    r.filter_not_selling();
    r.filter_humans(now);
    r.filter_outliers();
    assert_eq!(prices(&r), vec![10, 12]);
    assert_eq!(r.get_average(), 11);
}

#[test]
fn filters_chain() {
    let now: u64 = 100_000;
    let mut r = response(vec![
        listing("sell", 10, Some(99_900)),
        listing("buy", 10, Some(99_900)),
        listing("sell", 11, None),
        listing("sell", 12, Some(99_000)),
        listing("sell", 500, Some(99_000)),
    ]);
    let average = r.filter_not_selling().filter_humans(now).filter_outliers().get_average();
    assert_eq!(average, 11);
    assert_eq!(prices(&r), vec![10, 12]);
    assert_eq!(r.keep_only_intent(Intent::Buy).listings.len(), 0);
}
