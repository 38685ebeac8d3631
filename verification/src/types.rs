//! Records of the snapshot feed, as they arrive.

use vstd::prelude::*;

use vstd::relations::{sorted_by, total_ordering};
use vstd::seq_lib::*;
use vstd::string::*;

use crate::text::{parse_decimal, parse_u64};

verus! {

/// Whether a listing offers an item or asks for one.
#[derive(Debug, Clone, Copy, PartialEq, Eq, Structural)]
pub enum Intent {
    Sell,
    Buy,
}

/// The word by which the feeds mark a sell listing.
pub open spec fn sell_word() -> Seq<char> {
    seq!['s', 'e', 'l', 'l']
}

/// The word by which the feeds mark a buy listing.
pub open spec fn buy_word() -> Seq<char> {
    seq!['b', 'u', 'y']
}

/// Whether `intent` is the word for a sell listing.
pub fn is_sell_word(intent: &String) -> (r: bool)
    ensures
        r == (intent@ == sell_word()),
{
    proof {
        reveal_strlit("sell");
    }
    let word = String::from_str("sell");
    assert(word@ =~= sell_word());
    *intent == word
}

/// Whether `intent` is the word for a buy listing.
pub fn is_buy_word(intent: &String) -> (r: bool)
    ensures
        r == (intent@ == buy_word()),
{
    proof {
        reveal_strlit("buy");
    }
    let word = String::from_str("buy");
    assert(word@ =~= buy_word());
    *intent == word
}

impl Intent {
    /// The intent that a feed's word stands for. A record that is not marked
    /// as a sell listing is an offer to buy.
    pub open spec fn of_word(word: Seq<char>) -> Intent {
        if word == sell_word() {
            Intent::Sell
        } else {
            Intent::Buy
        }
    }

    /// Reads the intent of a record.
    pub fn from_word(word: &String) -> (r: Intent)
        ensures
            r == Intent::of_word(word@),
    {
        if is_sell_word(word) {
            Intent::Sell
        } else {
            Intent::Buy
        }
    }
}

/// A number that the feed may send as a number or as text.
#[derive(Debug, Clone, PartialEq, Eq)]
pub enum StrIntValue {
    Str(String),
    Int(u64),
}

impl StrIntValue {
    /// The number that the value denotes, if it denotes one that fits in 64 bits.
    pub open spec fn number(&self) -> Option<u64> {
        match self {
            StrIntValue::Int(i) => Some(*i),
            StrIntValue::Str(s) => match parse_decimal(s@) {
                Some(n) if n <= u64::MAX => Some(n as u64),
                _ => None,
            },
        }
    }

    /// Reads the value as a number.
    pub fn to_u64(&self) -> (r: Option<u64>)
        ensures
            r == self.number(),
    {
        match self {
            StrIntValue::Int(i) => Some(*i),
            StrIntValue::Str(s) => parse_u64(s.as_str()),
        }
    }
}

/// Liveness metadata of the automated agent behind a listing.
#[derive(Debug, Clone, PartialEq, Eq)]
pub struct UserAgent {
    /// When the agent was last seen, in seconds since the epoch.
    pub last_pulse: u32,
    pub client: String,
}

#[derive(Debug, Clone, PartialEq, Eq)]
pub struct ItemAttribute {
    pub defindex: Option<StrIntValue>,
    pub value: Option<StrIntValue>,
    pub float_value: Option<StrIntValue>,
}

/// The item that a listing offers or asks for.
#[derive(Debug, Clone, PartialEq, Eq)]
pub struct Item {
    /// The id of the concrete item copy; a buy offer has none.
    pub id: Option<u64>,
    pub original_id: Option<u64>,
    /// The item type.
    pub defindex: u64,
    pub level: Option<u8>,
    pub quality: u32,
    pub inventory: Option<u32>,
    pub quantity: Option<StrIntValue>,
    pub origin: Option<u32>,
    pub attributes: Option<Vec<ItemAttribute>>,
}

/// One listing of a snapshot.
#[derive(Debug, Clone, PartialEq, Eq)]
pub struct Listing {
    /// The account that made the listing.
    pub steamid: String,
    pub offers: u32,
    pub buyout: i32,
    pub details: String,
    /// `"sell"` or `"buy"`.
    pub intent: String,
    pub timestamp: u32,
    /// The price, in the smallest unit that the feed quotes.
    pub price: u64,
    pub item: Item,
    pub bump: u32,
    pub user_agent: Option<UserAgent>,
}

/// The answer of the snapshot endpoint for one item.
#[derive(Debug, Clone, PartialEq, Eq)]
pub struct ListingResponse {
    pub listings: Vec<Listing>,
    pub created_at: u32,
}

/// How long after its last sign of life an automated agent still counts as
/// live, in seconds: twenty minutes.
pub const AGENT_WINDOW: u64 = 1200;

/// Whether a listing is marked as a sell listing.
pub open spec fn is_selling(listing: Listing) -> bool {
    listing.intent@ == sell_word()
}

/// Whether a listing is marked as a buy listing.
pub open spec fn is_buying(listing: Listing) -> bool {
    listing.intent@ == buy_word()
}

/// Whether a listing is marked with the word for `intent`.
pub open spec fn has_intent(listing: Listing, intent: Intent) -> bool {
    match intent {
        Intent::Sell => is_selling(listing),
        Intent::Buy => is_buying(listing),
    }
}

/// Whether an agent last seen at `last_pulse` counts as live at `now`: it was
/// seen no more than `window` before.
pub open spec fn is_live(last_pulse: u32, now: u64, window: u64) -> bool {
    now - last_pulse <= window
}

/// Whether a listing passes for one of a live agent at `now`. A listing
/// without liveness metadata is taken to be a person's, and passes only
/// where `keep_humans` says so.
pub open spec fn passes_agent_check(
    listing: Listing,
    now: u64,
    window: u64,
    keep_humans: bool,
) -> bool {
    match listing.user_agent {
        Some(agent) => is_live(agent.last_pulse, now, window),
        None => keep_humans,
    }
}

/// The prices of listings, in order.
pub open spec fn prices_of(listings: Seq<Listing>) -> Seq<u64> {
    Seq::new(listings.len(), |i: int| listings[i].price)
}

/// The order of prices.
pub open spec fn price_leq() -> spec_fn(u64, u64) -> bool {
    |a: u64, b: u64| a <= b
}

/// Twice the median of `prices`: the sum of the two middle prices in
/// ascending order, which for an odd number of prices are one and the same.
pub open spec fn twice_median(prices: Seq<u64>) -> int
    recommends
        prices.len() > 0,
{
    let sorted = prices.sort_by(price_leq());
    sorted[(prices.len() - 1) / 2] + sorted[prices.len() as int / 2]
}

/// Whether `price` lies within the band around the median whose bounds are
/// the median divided by and multiplied by `num / den`.
pub open spec fn within_band(price: u64, twice_median: int, num: u32, den: u32) -> bool {
    2 * price * num >= twice_median * den && 2 * price * den <= twice_median * num
}

/// The sum of prices.
pub open spec fn total_price(prices: Seq<u64>) -> int
    decreases prices.len(),
{
    if prices.len() == 0 {
        0
    } else {
        total_price(prices.drop_last()) + prices.last()
    }
}

/// Whether an attribute is one of `wanted`. An attribute that names no
/// type counts as any wanted one.
pub open spec fn attribute_hits(attribute: ItemAttribute, wanted: Seq<u64>) -> bool {
    wanted.len() > 0 && match attribute.defindex {
        None => true,
        Some(defindex) => match defindex.number() {
            Some(n) => wanted.contains(n),
            None => false,
        },
    }
}

/// Whether the item of a listing has one of the attributes `wanted`.
pub open spec fn has_attribute(listing: Listing, wanted: Seq<u64>) -> bool {
    match listing.item.attributes {
        Some(attributes) => exists|i: int|
            0 <= i < attributes.len() && attribute_hits(#[trigger] attributes[i], wanted),
        None => false,
    }
}

/// Whether `listing` is the sell listing with the lowest price among
/// `listings`, and the first of those where several have that price.
pub open spec fn is_lowest_seller(listings: Seq<Listing>, at: int) -> bool {
    &&& 0 <= at < listings.len()
    &&& is_selling(listings[at])
    &&& forall|i: int|
        0 <= i < listings.len() && is_selling(#[trigger] listings[i]) ==> listings[at].price
            <= listings[i].price
    &&& forall|i: int|
        0 <= i < at && is_selling(#[trigger] listings[i]) ==> listings[at].price
            < listings[i].price
}

/// The entries of `s` that `keep` marks, in order.
pub open spec fn marked<T>(s: Seq<T>, keep: Seq<bool>) -> Seq<T>
    recommends
        s.len() == keep.len(),
    decreases s.len(),
{
    if s.len() == 0 {
        Seq::empty()
    } else {
        let front = marked(s.drop_last(), keep.drop_last());
        if keep.last() {
            front.push(s.last())
        } else {
            front
        }
    }
}

/// Marking entries by a predicate keeps what the predicate filters.
pub proof fn lemma_marked_is_filter<T>(s: Seq<T>, keep: Seq<bool>, pred: spec_fn(T) -> bool)
    requires
        s.len() == keep.len(),
        forall|i: int| 0 <= i < s.len() ==> keep[i] == pred(#[trigger] s[i]),
    ensures
        marked(s, keep) == s.filter(pred),
    decreases s.len(),
{
    reveal(Seq::filter);
    if s.len() > 0 {
        lemma_marked_is_filter(s.drop_last(), keep.drop_last(), pred);
    }
}

/// Keeps the entries that `keep` marks, in order.
fn retain_marked<T>(entries: Vec<T>, keep: &Vec<bool>) -> (kept: Vec<T>)
    requires
        entries.len() == keep.len(),
    ensures
        kept@ == marked(entries@, keep@),
{
    let ghost orig = entries@;
    let mut kept: Vec<T> = Vec::new();
    let mut i: usize = 0;
    assert(orig.subrange(0, 0) =~= Seq::<T>::empty());
    assert(keep@.subrange(0, 0) =~= Seq::<bool>::empty());
    for entry in it: entries.into_iter()
        invariant
            it.seq() == orig,
            orig.len() == keep.len(),
            i == it.index(),
            kept@ == marked(
                orig.subrange(0, it.index() as int),
                keep@.subrange(0, it.index() as int),
            ),
    {
        proof {
            let j = it.index() as int;
            assert(orig.subrange(0, j + 1).drop_last() =~= orig.subrange(0, j));
            assert(keep@.subrange(0, j + 1).drop_last() =~= keep@.subrange(0, j));
        }
        if keep[i] {
            kept.push(entry);
        }
        i += 1;
    }
    assert(orig.subrange(0, orig.len() as int) =~= orig);
    assert(keep@.subrange(0, orig.len() as int) =~= keep@);
    kept
}

/// The prices in ascending order.
fn sorted_prices(listings: &Vec<Listing>) -> (sorted: Vec<u64>)
    ensures
        sorted@ == prices_of(listings@).sort_by(price_leq()),
        sorted.len() == listings.len(),
{
    let ghost prices = prices_of(listings@);
    let mut sorted: Vec<u64> = Vec::new();
    let mut i: usize = 0;
    assert(prices.subrange(0, 0) =~= sorted@);
    while i < listings.len()
        invariant
            i <= listings.len(),
            prices == prices_of(listings@),
            sorted.len() == i,
            sorted_by(sorted@, price_leq()),
            sorted@.to_multiset() == prices.subrange(0, i as int).to_multiset(),
        decreases listings.len() - i,
    {
        let price: u64 = listings[i].price;
        let mut at: usize = 0;
        while at < sorted.len() && sorted[at] <= price
            invariant
                at <= sorted.len(),
                forall|k: int| 0 <= k < at ==> sorted[k] <= price,
            decreases sorted.len() - at,
        {
            at += 1;
        }
        proof {
            let before = sorted@;
            let after = before.insert(at as int, price);
            assert(sorted_by(after, price_leq())) by {
                assert forall|a: int, b: int| 0 <= a < b < after.len() implies price_leq()(
                    after[a],
                    after[b],
                ) by {
                    let a0 = if a < at { a } else { a - 1 };
                    let b0 = if b < at { b } else { b - 1 };
                    if a != at && b != at {
                        assert(price_leq()(before[a0], before[b0]));
                    } else if a == at {
                        assert(price_leq()(before[at as int], before[b0]) || b0 == at);
                    }
                }
            }
            assert(prices.subrange(0, i + 1) =~= prices.subrange(0, i as int).push(price));
            to_multiset_insert(before, at as int, price);
            to_multiset_build(prices.subrange(0, i as int), price);
        }
        sorted.insert(at, price);
        i += 1;
    }
    proof {
        assert(prices.subrange(0, i as int) =~= prices);
        lemma_price_order();
        prices.lemma_sort_by_ensures(price_leq());
        lemma_sorted_unique(sorted@, prices.sort_by(price_leq()), price_leq());
    }
    sorted
}

/// Prices are totally ordered.
pub proof fn lemma_price_order()
    ensures
        total_ordering(price_leq()),
{
}

/// Twice the median of prices is the sum of the two middle prices of any
/// ascending arrangement of them.
pub proof fn lemma_twice_median(prices: Seq<u64>, sorted: Seq<u64>)
    requires
        sorted_by(sorted, price_leq()),
        sorted.to_multiset() == prices.to_multiset(),
    ensures
        sorted.len() == prices.len(),
        twice_median(prices) == sorted[(prices.len() - 1) / 2] + sorted[prices.len() as int / 2],
{
    to_multiset_len(sorted);
    to_multiset_len(prices);
    lemma_price_order();
    prices.lemma_sort_by_ensures(price_leq());
    lemma_sorted_unique(sorted, prices.sort_by(price_leq()), price_leq());
}

impl ListingResponse {
    /// Keeps the listings that `keep` marks, in order.
    fn retain(&mut self, keep: &Vec<bool>)
        requires
            old(self).listings.len() == keep.len(),
        ensures
            final(self).listings@ == marked(old(self).listings@, keep@),
            final(self).created_at == old(self).created_at,
    {
        let mut listings: Vec<Listing> = Vec::new();
        core::mem::swap(&mut self.listings, &mut listings);
        self.listings = retain_marked(listings, keep);
    }

    /// Removes the listings that are not marked with the word for `intent`.
    pub fn keep_only_intent(&mut self, intent: Intent) -> (r: &mut Self)
        ensures
            r.listings@ == old(self).listings@.filter(
                |listing: Listing| has_intent(listing, intent),
            ),
            r.created_at == old(self).created_at,
            *final(self) == *final(r),
    {
        let mut keep: Vec<bool> = Vec::new();
        let mut i: usize = 0;
        while i < self.listings.len()
            invariant
                i <= self.listings.len(),
                keep.len() == i,
                forall|k: int|
                    0 <= k < i ==> keep[k] == has_intent(#[trigger] self.listings[k], intent),
            decreases self.listings.len() - i,
        {
            let matches = match intent {
                Intent::Sell => is_sell_word(&self.listings[i].intent),
                Intent::Buy => is_buy_word(&self.listings[i].intent),
            };
            keep.push(matches);
            i += 1;
        }
        proof {
            lemma_marked_is_filter(
                self.listings@,
                keep@,
                |listing: Listing| has_intent(listing, intent),
            );
        }
        self.retain(&keep);
        self
    }

    /// Removes the listings that do not sell the item.
    pub fn filter_not_selling(&mut self) -> (r: &mut Self)
        ensures
            r.listings@ == old(self).listings@.filter(
                |listing: Listing| has_intent(listing, Intent::Sell),
            ),
            r.created_at == old(self).created_at,
            *final(self) == *final(r),
    {
        self.keep_only_intent(Intent::Sell);
        self
    }

    /// Removes the listings that do not ask for the item.
    pub fn filter_not_buying(&mut self) -> (r: &mut Self)
        ensures
            r.listings@ == old(self).listings@.filter(
                |listing: Listing| has_intent(listing, Intent::Buy),
            ),
            r.created_at == old(self).created_at,
            *final(self) == *final(r),
    {
        self.keep_only_intent(Intent::Buy);
        self
    }

    /// Removes the listings of agents that were last seen more than `window`
    /// before `now`. Listings without liveness metadata stay where
    /// `keep_humans` is set, and go where it is not.
    pub fn reject_inactive_agents(&mut self, now: u64, window: u64, keep_humans: bool) -> (r: &mut Self)
        ensures
            r.listings@ == old(self).listings@.filter(
                |listing: Listing| passes_agent_check(listing, now, window, keep_humans),
            ),
            r.created_at == old(self).created_at,
            *final(self) == *final(r),
    {
        let mut keep: Vec<bool> = Vec::new();
        let mut i: usize = 0;
        while i < self.listings.len()
            invariant
                i <= self.listings.len(),
                keep.len() == i,
                forall|k: int|
                    0 <= k < i ==> keep[k] == passes_agent_check(
                        #[trigger] self.listings[k],
                        now,
                        window,
                        keep_humans,
                    ),
            decreases self.listings.len() - i,
        {
            let passes = match &self.listings[i].user_agent {
                Some(agent) => now <= agent.last_pulse as u64 || now - agent.last_pulse as u64
                    <= window,
                None => keep_humans,
            };
            keep.push(passes);
            i += 1;
        }
        proof {
            lemma_marked_is_filter(
                self.listings@,
                keep@,
                |listing: Listing| passes_agent_check(listing, now, window, keep_humans),
            );
        }
        self.retain(&keep);
        self
    }

    /// Removes the listings of people and of agents that were last seen more
    /// than twenty minutes before `now`.
    pub fn filter_humans(&mut self, now: u64) -> (r: &mut Self)
        ensures
            r.listings@ == old(self).listings@.filter(
                |listing: Listing| passes_agent_check(listing, now, AGENT_WINDOW, false),
            ),
            r.created_at == old(self).created_at,
            *final(self) == *final(r),
    {
        self.reject_inactive_agents(now, AGENT_WINDOW, false);
        self
    }

    /// Twice the median price of the listings.
    pub fn twice_median_price(&self) -> (m: u128)
        requires
            self.listings.len() > 0,
        ensures
            m == twice_median(prices_of(self.listings@)),
            m <= 2 * u64::MAX,
    {
        let sorted = sorted_prices(&self.listings);
        let n: usize = sorted.len();
        sorted[(n - 1) / 2] as u128 + sorted[n / 2] as u128
    }

    /// Removes the listings whose price lies outside the band around the
    /// median price from the median divided by `num / den` to the median
    /// multiplied by it.
    pub fn reject_outliers(&mut self, num: u32, den: u32) -> (r: &mut Self)
        requires
            old(self).listings.len() > 0,
        ensures
            r.listings@ == old(self).listings@.filter(
                |listing: Listing|
                    within_band(
                        listing.price,
                        twice_median(prices_of(old(self).listings@)),
                        num,
                        den,
                    ),
            ),
            r.created_at == old(self).created_at,
            *final(self) == *final(r),
    {
        let median2: u128 = self.twice_median_price();
        let ghost m = twice_median(prices_of(self.listings@));
        assert(median2 * den <= 2 * 0xffff_ffff_ffff_ffff * 0xffff_ffff) by (nonlinear_arith)
            requires
                0 <= median2 <= 2 * 0xffff_ffff_ffff_ffff,
                den <= 0xffff_ffff,
        ;
        assert(median2 * num <= 2 * 0xffff_ffff_ffff_ffff * 0xffff_ffff) by (nonlinear_arith)
            requires
                0 <= median2 <= 2 * 0xffff_ffff_ffff_ffff,
                num <= 0xffff_ffff,
        ;
        let low: u128 = median2 * (den as u128);
        let high: u128 = median2 * (num as u128);
        let mut keep: Vec<bool> = Vec::new();
        let mut i: usize = 0;
        while i < self.listings.len()
            invariant
                i <= self.listings.len(),
                keep.len() == i,
                median2 == m,
                low == m * den,
                high == m * num,
                forall|k: int|
                    0 <= k < i ==> keep[k] == within_band(
                        (#[trigger] self.listings[k]).price,
                        m,
                        num,
                        den,
                    ),
            decreases self.listings.len() - i,
        {
            let price: u128 = self.listings[i].price as u128;
            assert(2 * price * num <= 2 * 0xffff_ffff_ffff_ffff * 0xffff_ffff) by (nonlinear_arith)
                requires
                    price <= 0xffff_ffff_ffff_ffff,
                    num <= 0xffff_ffff,
            ;
            assert(2 * price * den <= 2 * 0xffff_ffff_ffff_ffff * 0xffff_ffff) by (nonlinear_arith)
                requires
                    price <= 0xffff_ffff_ffff_ffff,
                    den <= 0xffff_ffff,
            ;
            let inside = 2 * price * (num as u128) >= low && 2 * price * (den as u128) <= high;
            keep.push(inside);
            i += 1;
        }
        proof {
            lemma_marked_is_filter(
                self.listings@,
                keep@,
                |listing: Listing| within_band(listing.price, m, num, den),
            );
        }
        self.retain(&keep);
        self
    }

    /// Removes the listings whose price is below the median price divided by
    /// 1.2 or above the median price multiplied by 1.2.
    pub fn filter_outliers(&mut self) -> (r: &mut Self)
        requires
            old(self).listings.len() > 0,
        ensures
            r.listings@ == old(self).listings@.filter(
                |listing: Listing|
                    within_band(listing.price, twice_median(prices_of(old(self).listings@)), 6, 5),
            ),
            r.created_at == old(self).created_at,
            *final(self) == *final(r),
    {
        self.reject_outliers(6, 5);
        self
    }

    /// The mean price of the listings, rounded down.
    pub fn get_average(&self) -> (mean: u64)
        requires
            self.listings.len() > 0,
        ensures
            mean == total_price(prices_of(self.listings@)) / (self.listings.len() as int),
    {
        let ghost prices = prices_of(self.listings@);
        let mut sum: u128 = 0;
        let mut i: usize = 0;
        assert(prices.subrange(0, 0) =~= Seq::<u64>::empty());
        while i < self.listings.len()
            invariant
                i <= self.listings.len(),
                prices == prices_of(self.listings@),
                sum == total_price(prices.subrange(0, i as int)),
                sum <= i * 0xffff_ffff_ffff_ffff,
            decreases self.listings.len() - i,
        {
            proof {
                assert(prices.subrange(0, i + 1).drop_last() =~= prices.subrange(0, i as int));
                assert(i * 0xffff_ffff_ffff_ffff + 0xffff_ffff_ffff_ffff <= 0xffff_ffff_ffff_ffff
                    * 0xffff_ffff_ffff_ffff + 0xffff_ffff_ffff_ffff) by (nonlinear_arith)
                    requires
                        i <= 0xffff_ffff_ffff_ffff,
                ;
            }
            sum = sum + self.listings[i].price as u128;
            i += 1;
        }
        assert(prices.subrange(0, i as int) =~= prices);
        let n: u128 = self.listings.len() as u128;
        assert(sum / n <= 0xffff_ffff_ffff_ffff) by (nonlinear_arith)
            requires
                n > 0,
                sum <= n * 0xffff_ffff_ffff_ffff,
        ;
        (sum / n) as u64
    }

    /// Removes the listings whose item has one of the attributes `attributes`,
    /// given by their types. A listing without attribute data stays.
    pub fn dont_have_attributes(&mut self, attributes: &Vec<u64>)
        ensures
            final(self).listings@ == old(self).listings@.filter(
                |listing: Listing| !has_attribute(listing, attributes@),
            ),
            final(self).created_at == old(self).created_at,
    {
        let mut keep: Vec<bool> = Vec::new();
        let mut i: usize = 0;
        while i < self.listings.len()
            invariant
                i <= self.listings.len(),
                keep.len() == i,
                forall|k: int|
                    0 <= k < i ==> keep[k] == !has_attribute(
                        #[trigger] self.listings[k],
                        attributes@,
                    ),
            decreases self.listings.len() - i,
        {
            let hit = item_has_attribute(&self.listings[i], attributes);
            keep.push(!hit);
            i += 1;
        }
        proof {
            lemma_marked_is_filter(
                self.listings@,
                keep@,
                |listing: Listing| !has_attribute(listing, attributes@),
            );
        }
        self.retain(&keep);
    }

    /// Where the sell listing with the lowest price stands: the first of
    /// them where several have that price. `None` where nothing is for sale.
    pub fn lowest_seller(&self) -> (r: Option<usize>)
        ensures
            match r {
                Some(at) => is_lowest_seller(self.listings@, at as int),
                None => forall|i: int|
                    0 <= i < self.listings.len() ==> !is_selling(#[trigger] self.listings[i]),
            },
    {
        let mut best: Option<usize> = None;
        let mut i: usize = 0;
        while i < self.listings.len()
            invariant
                i <= self.listings.len(),
                match best {
                    Some(at) => is_lowest_seller(self.listings@.subrange(0, i as int), at as int),
                    None => forall|k: int| 0 <= k < i ==> !is_selling(#[trigger] self.listings[k]),
                },
            decreases self.listings.len() - i,
        {
            let ghost before = self.listings@.subrange(0, i as int);
            let ghost after = self.listings@.subrange(0, i + 1);
            assert(forall|k: int| 0 <= k < i ==> before[k] == after[k]);
            if is_sell_word(&self.listings[i].intent) {
                let better = match best {
                    Some(at) => self.listings[i].price < self.listings[at].price,
                    None => true,
                };
                if better {
                    best = Some(i);
                }
            }
            i += 1;
        }
        assert(self.listings@.subrange(0, i as int) =~= self.listings@);
        best
    }

    /// The sell listing with the lowest price, or `None` where nothing is
    /// for sale.
    pub fn get_lowest_seller(self) -> (r: Option<Listing>)
        ensures
            match r {
                Some(listing) => exists|at: int|
                    is_lowest_seller(self.listings@, at) && self.listings[at] == listing,
                None => forall|i: int|
                    0 <= i < self.listings.len() ==> !is_selling(#[trigger] self.listings[i]),
            },
    {
        match self.lowest_seller() {
            Some(at) => {
                let mut listings = self.listings;
                let listing = listings.swap_remove(at);
                Some(listing)
            },
            None => None,
        }
    }

    /// The listings of the snapshot.
    pub fn get_listings(self) -> (r: Vec<Listing>)
        ensures
            r == self.listings,
    {
        self.listings
    }
}

/// Whether the value is one of `wanted`.
fn contains_number(wanted: &Vec<u64>, value: u64) -> (r: bool)
    ensures
        r == wanted@.contains(value),
{
    let mut i: usize = 0;
    while i < wanted.len()
        invariant
            i <= wanted.len(),
            forall|k: int| 0 <= k < i ==> wanted[k] != value,
        decreases wanted.len() - i,
    {
        if wanted[i] == value {
            return true;
        }
        i += 1;
    }
    false
}

/// Whether the item of `listing` has one of the attributes `wanted`.
fn item_has_attribute(listing: &Listing, wanted: &Vec<u64>) -> (r: bool)
    ensures
        r == has_attribute(*listing, wanted@),
{
    match &listing.item.attributes {
        None => false,
        Some(attributes) => {
            let mut i: usize = 0;
            while i < attributes.len()
                invariant
                    i <= attributes.len(),
                    listing.item.attributes == Some(*attributes),
                    forall|k: int|
                        0 <= k < i ==> !attribute_hits(#[trigger] attributes[k], wanted@),
                decreases attributes.len() - i,
            {
                let hits = wanted.len() > 0 && match &attributes[i].defindex {
                    None => true,
                    Some(defindex) => match defindex.to_u64() {
                        Some(n) => contains_number(wanted, n),
                        None => false,
                    },
                };
                if hits {
                    assert(attribute_hits(attributes[i as int], wanted@));
                    assert(listing.item.attributes matches Some(a) && a == *attributes);
                    return true;
                }
                i += 1;
            }
            false
        },
    }
}

} // verus!
