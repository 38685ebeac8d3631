//! Records of the event stream, and the one canonical listing that records of
//! either feed are turned into before they reach the store.

use vstd::prelude::*;
use vstd::string::*;

use crate::digest::{md5_hex, md5_hex_of};
use crate::source::PricingError;
use crate::text::{decimal, lemma_decimal_injective, lemma_decimal_is_digits, u64_to_decimal};
use crate::types::{Intent, Listing, StrIntValue, UserAgent};

verus! {

/// One event of the stream.
#[derive(Debug, Clone, PartialEq, Eq)]
pub enum Event {
    /// A listing was created or changed.
    ListingUpdate(EventListing),
    /// A listing was withdrawn.
    ListingDelete(EventListingDeletion),
}

/// The payload of a listing update.
#[derive(Debug, Clone, PartialEq, Eq)]
pub struct EventListing {
    /// The id that the feed gives the listing.
    pub id: String,
    pub steamid: String,
    pub appid: u32,
    pub details: Option<String>,
    pub currencies: BPCurrencies,
    /// `"sell"` or `"buy"`.
    pub intent: String,
    pub listed_at: u32,
    pub bumped_at: u32,
    pub count: u32,
    pub status: String,
    pub source: String,
    pub item: EventItem,
    pub value: ListingValue,
    pub user_agent: Option<UserAgent>,
}

/// The price of a listing as one number, in the smallest unit that the feed quotes.
#[derive(Debug, Clone, Copy, PartialEq, Eq)]
pub struct ListingValue {
    pub raw: u64,
}

/// The payload of a listing deletion.
#[derive(Debug, Clone, PartialEq, Eq)]
pub struct EventListingDeletion {
    pub id: String,
    pub item: EventItem,
}

/// A price by currency, each in its smallest unit.
#[derive(Debug, Clone, Copy, PartialEq, Eq)]
pub struct BPCurrencies {
    pub metal: Option<u64>,
    pub keys: Option<u64>,
}

#[derive(Debug, Clone, PartialEq, Eq)]
pub struct EventItem {
    pub id: StrIntValue,
    pub original_id: Option<StrIntValue>,
    pub name: String,
    pub defindex: u32,
}

/// What precedes the instance part of every listing id of the marketplace.
pub open spec fn app_prefix() -> Seq<char> {
    seq!['4', '4', '0', '_']
}

/// What precedes the item type in the address of a stored listing.
pub open spec fn storage_prefix() -> Seq<char> {
    seq!['l', 'i', 's', 't', 'i', 'n', 'g', ':']
}

/// The instance part of the identity of a sell listing: it names the item copy.
pub open spec fn sell_instance(item_id: u64) -> Seq<char> {
    app_prefix() + decimal(item_id as nat)
}

/// The instance part of the identity of a buy offer: it names the account and
/// the item that was asked about, so that all offers of one account for one
/// item are the same listing.
pub open spec fn buy_instance(steamid: Seq<char>, item: Seq<char>) -> Seq<char> {
    app_prefix() + steamid + seq!['_'] + md5_hex(item)
}

/// The identity of a listing in the store.
#[derive(Debug, PartialEq, Eq)]
pub struct ListingKey {
    /// The item type.
    pub defindex: u64,
    /// What tells the listing from others of the same item type.
    pub instance: String,
}

impl View for ListingKey {
    type V = (u64, Seq<char>);

    open spec fn view(&self) -> (u64, Seq<char>) {
        (self.defindex, self.instance@)
    }
}

impl Clone for ListingKey {
    fn clone(&self) -> (r: Self)
        ensures
            r == *self,
    {
        ListingKey { defindex: self.defindex, instance: self.instance.clone() }
    }
}

impl ListingKey {
    /// Whether two keys name the same listing.
    pub fn same(&self, other: &ListingKey) -> (r: bool)
        ensures
            r == (self@ == other@),
    {
        self.defindex == other.defindex && self.instance == other.instance
    }

    /// The address of the listing in a persisted store.
    pub open spec fn storage_key_of(key: (u64, Seq<char>)) -> Seq<char> {
        storage_prefix() + decimal(key.0 as nat) + seq![':'] + key.1
    }

    /// Writes the address under which the listing is persisted: the item type,
    /// then the instance.
    pub fn storage_key(&self) -> (r: String)
        ensures
            r@ == Self::storage_key_of(self@),
    {
        proof {
            reveal_strlit("listing:");
            reveal_strlit(":");
        }
        let mut r = String::from_str("listing:");
        assert(r@ =~= storage_prefix());
        let number = u64_to_decimal(self.defindex);
        r.append(number.as_str());
        r.append(":");
        r.append(self.instance.as_str());
        assert(r@ =~= Self::storage_key_of(self@));
        r
    }
}

/// Different identities are persisted under different addresses.
pub proof fn lemma_storage_key_injective(a: (u64, Seq<char>), b: (u64, Seq<char>))
    requires
        ListingKey::storage_key_of(a) == ListingKey::storage_key_of(b),
    ensures
        a == b,
{
    let p = storage_prefix().len() as int;
    let x = decimal(a.0 as nat);
    let y = decimal(b.0 as nat);
    let ka = ListingKey::storage_key_of(a);
    let kb = ListingKey::storage_key_of(b);
    assert(ka.len() == p + x.len() + 1 + a.1.len());
    assert(kb.len() == p + y.len() + 1 + b.1.len());
    assert(forall|i: int| 0 <= i < x.len() ==> ka[p + i] == x[i]);
    assert(forall|i: int| 0 <= i < y.len() ==> kb[p + i] == y[i]);
    assert(ka[p + x.len()] == ':');
    assert(kb[p + y.len()] == ':');
    if x.len() < y.len() {
        lemma_decimal_is_digits(b.0 as nat, x.len() as int);
        assert(kb[p + x.len()] == y[x.len() as int]);
    } else if y.len() < x.len() {
        lemma_decimal_is_digits(a.0 as nat, y.len() as int);
        assert(ka[p + y.len()] == x[y.len() as int]);
    } else {
        assert(x =~= y) by {
            assert forall|i: int| 0 <= i < x.len() implies x[i] == y[i] by {
                assert(ka[p + i] == kb[p + i]);
            }
        }
        lemma_decimal_injective(a.0 as nat, b.0 as nat);
        assert(a.1 =~= b.1) by {
            assert forall|i: int| 0 <= i < a.1.len() implies a.1[i] == b.1[i] by {
                assert(ka[p + x.len() + 1 + i] == a.1[i]);
                assert(kb[p + y.len() + 1 + i] == b.1[i]);
            }
        }
    }
}

/// What precedes the item type in the address of a stored item definition.
pub open spec fn definition_prefix() -> Seq<char> {
    seq!['i', 't', 'e', 'm', ':']
}

/// The address under which the name of an item type is persisted.
pub open spec fn definition_key_of(defindex: u32) -> Seq<char> {
    definition_prefix() + decimal(defindex as nat)
}

/// Writes the address under which the name of the item type `defindex` is
/// persisted.
pub fn definition_key(defindex: u32) -> (r: String)
    ensures
        r@ == definition_key_of(defindex),
{
    proof {
        reveal_strlit("item:");
    }
    let mut r = String::from_str("item:");
    assert(r@ =~= definition_prefix());
    let number = u64_to_decimal(defindex as u64);
    r.append(number.as_str());
    r
}

/// Writes the instance part of the identity of a sell listing.
pub fn sell_instance_of(item_id: u64) -> (r: String)
    ensures
        r@ == sell_instance(item_id),
{
    proof {
        reveal_strlit("440_");
    }
    let mut r = String::from_str("440_");
    assert(r@ =~= app_prefix());
    let number = u64_to_decimal(item_id);
    r.append(number.as_str());
    r
}

/// Writes the instance part of the identity of a buy offer of `steamid` for
/// an item whose name has the digest `digest`, in hexadecimal.
pub fn buy_instance_with(steamid: &str, digest: &str) -> (r: String)
    ensures
        r@ == app_prefix() + steamid@ + seq!['_'] + digest@,
{
    proof {
        reveal_strlit("440_");
        reveal_strlit("_");
    }
    let mut r = String::from_str("440_");
    assert(r@ =~= app_prefix());
    r.append(steamid);
    r.append("_");
    r.append(digest);
    assert(r@ =~= app_prefix() + steamid@ + seq!['_'] + digest@);
    r
}

/// Writes the instance part of the identity of a buy offer of `steamid` for
/// the item that was asked about as `item`.
pub fn buy_instance_of(steamid: &str, item: &str) -> (r: String)
    ensures
        r@ == buy_instance(steamid@, item@),
{
    let hex = md5_hex_of(item);
    buy_instance_with(steamid, hex.as_str())
}

/// The item of a canonical listing.
#[derive(Debug, Clone, Copy, PartialEq, Eq, Structural)]
pub struct UniversalItem {
    pub id: Option<u64>,
    pub defindex: u64,
}

/// The canonical listing: what a record of either feed becomes, and what the
/// store holds.
#[derive(Debug, PartialEq, Eq)]
pub struct UniversalListing {
    /// The identity under which the store holds the listing.
    pub key: ListingKey,
    /// The id that the event stream gives the listing; none for a listing
    /// that a snapshot brought.
    pub id: Option<String>,
    /// The account that made the listing.
    pub steamid: String,
    pub details: Option<String>,
    pub intent: Intent,
    /// The price, in the smallest unit that the feeds quote.
    pub price: u64,
    /// When the listing was last bumped, in seconds since the epoch.
    pub bumped_at: u32,
    /// Whether the record carried liveness metadata of an automated agent.
    pub has_active_agent: bool,
    pub item: UniversalItem,
}

/// The text of an optional string.
pub open spec fn opt_text(s: Option<String>) -> Option<Seq<char>> {
    match s {
        Some(s) => Some(s@),
        None => None,
    }
}

/// A canonical listing as a plain value.
pub struct ListingView {
    pub key: (u64, Seq<char>),
    pub id: Option<Seq<char>>,
    pub steamid: Seq<char>,
    pub details: Option<Seq<char>>,
    pub intent: Intent,
    pub price: u64,
    pub bumped_at: u32,
    pub has_active_agent: bool,
    pub item: UniversalItem,
}

impl View for UniversalListing {
    type V = ListingView;

    open spec fn view(&self) -> ListingView {
        ListingView {
            key: self.key@,
            id: opt_text(self.id),
            steamid: self.steamid@,
            details: opt_text(self.details),
            intent: self.intent,
            price: self.price,
            bumped_at: self.bumped_at,
            has_active_agent: self.has_active_agent,
            item: self.item,
        }
    }
}

impl Clone for UniversalListing {
    fn clone(&self) -> (r: Self)
        ensures
            r == *self,
    {
        UniversalListing {
            key: self.key.clone(),
            id: self.id.clone(),
            steamid: self.steamid.clone(),
            details: self.details.clone(),
            intent: self.intent,
            price: self.price,
            bumped_at: self.bumped_at,
            has_active_agent: self.has_active_agent,
            item: self.item,
        }
    }
}

impl EventListingDeletion {
    /// The identity of the listing that the event withdraws: the item type and
    /// the feed's id of the listing.
    pub open spec fn key_of(&self) -> (u64, Seq<char>) {
        (self.item.defindex as u64, self.id@)
    }

    /// The identity of the listing that the event withdraws.
    pub fn key(&self) -> (r: ListingKey)
        ensures
            r@ == self.key_of(),
    {
        ListingKey { defindex: self.item.defindex as u64, instance: self.id.clone() }
    }
}

impl UniversalListing {
    /// The canonical listing of a record of the event stream, as a plain value.
    pub open spec fn of_event(listing: EventListing) -> ListingView {
        Self::event_listing(listing)@
    }

    /// The identity of a snapshot record for the item asked about as `item`,
    /// or `None` for a sell listing that names no item copy.
    pub open spec fn snapshot_key(listing: Listing, item: Seq<char>) -> Option<(u64, Seq<char>)> {
        match Intent::of_word(listing.intent@) {
            Intent::Sell => match listing.item.id {
                Some(id) => Some((listing.item.defindex, sell_instance(id))),
                None => None,
            },
            Intent::Buy => Some((listing.item.defindex, buy_instance(listing.steamid@, item))),
        }
    }

    /// The canonical listing of a snapshot record for the item asked about
    /// as `item`. A sell listing that names no item copy has no identity and
    /// is refused.
    pub open spec fn of_snapshot(listing: Listing, item: Seq<char>) -> Result<
        ListingView,
        PricingError,
    > {
        match Self::snapshot_key(listing, item) {
            None => Err(PricingError::InvalidIdentity),
            Some(key) => Ok(
                ListingView {
                    key,
                    id: None,
                    steamid: listing.steamid@,
                    details: Some(listing.details@),
                    intent: Intent::of_word(listing.intent@),
                    price: listing.price,
                    bumped_at: listing.timestamp,
                    has_active_agent: listing.user_agent is Some,
                    item: UniversalItem {
                        id: Some(
                            match listing.item.id {
                                Some(id) => id,
                                None => 0,
                            },
                        ),
                        defindex: listing.item.defindex,
                    },
                },
            ),
        }
    }

    /// The canonical listing of a record of the event stream. Its identity is
    /// the item type with the feed's own id of the listing.
    pub open spec fn event_listing(listing: EventListing) -> UniversalListing {
        UniversalListing {
            key: ListingKey { defindex: listing.item.defindex as u64, instance: listing.id },
            id: Some(listing.id),
            steamid: listing.steamid,
            details: listing.details,
            intent: Intent::of_word(listing.intent@),
            price: listing.value.raw,
            bumped_at: listing.bumped_at,
            has_active_agent: listing.user_agent is Some,
            item: UniversalItem {
                id: listing.item.id.number(),
                defindex: listing.item.defindex as u64,
            },
        }
    }

    /// Turns a record of the event stream into the canonical listing.
    pub fn from_event(listing: EventListing) -> (r: UniversalListing)
        ensures
            r == Self::event_listing(listing),
            r@ == Self::of_event(listing),
    {
        let intent = Intent::from_word(&listing.intent);
        let item_id = listing.item.id.to_u64();
        let defindex: u64 = listing.item.defindex as u64;
        let has_active_agent = listing.user_agent.is_some();
        UniversalListing {
            key: ListingKey { defindex, instance: listing.id.clone() },
            id: Some(listing.id),
            steamid: listing.steamid,
            details: listing.details,
            intent,
            price: listing.value.raw,
            bumped_at: listing.bumped_at,
            has_active_agent,
            item: UniversalItem { id: item_id, defindex },
        }
    }

    /// Turns a snapshot record for the item asked about as `item` into the
    /// canonical listing, or refuses it with `InvalidIdentity`.
    pub fn from_snapshot(listing: Listing, item: &str) -> (r: Result<
        UniversalListing,
        PricingError,
    >)
        ensures
            match Self::of_snapshot(listing, item@) {
                Ok(v) => r matches Ok(l) && l@ == v,
                Err(e) => r == Err::<UniversalListing, PricingError>(e),
            },
    {
        let intent = Intent::from_word(&listing.intent);
        let instance = match intent {
            Intent::Sell => match listing.item.id {
                Some(id) => sell_instance_of(id),
                None => {
                    return Err(PricingError::InvalidIdentity);
                },
            },
            Intent::Buy => buy_instance_of(listing.steamid.as_str(), item),
        };
        let has_active_agent = listing.user_agent.is_some();
        let item_id: u64 = match listing.item.id {
            Some(id) => id,
            None => 0,
        };
        Ok(
            UniversalListing {
                key: ListingKey { defindex: listing.item.defindex, instance },
                id: None,
                steamid: listing.steamid,
                details: Some(listing.details),
                intent,
                price: listing.price,
                bumped_at: listing.timestamp,
                has_active_agent,
                item: UniversalItem { id: Some(item_id), defindex: listing.item.defindex },
            },
        )
    }
}

impl From<EventListing> for UniversalListing {
    /// Turns a record of the event stream into the canonical listing.
    fn from(listing: EventListing) -> (r: UniversalListing) {
        UniversalListing::from_event(listing)
    }
}

impl vstd::std_specs::convert::FromSpecImpl<EventListing> for UniversalListing {
    open spec fn obeys_from_spec() -> bool {
        true
    }

    open spec fn from_spec(listing: EventListing) -> UniversalListing {
        UniversalListing::event_listing(listing)
    }
}

/// Sell listings of different item copies have different identities, whatever
/// their item type.
pub proof fn lemma_sell_keys_distinct(a: Listing, b: Listing, item: Seq<char>)
    requires
        Intent::of_word(a.intent@) == Intent::Sell,
        Intent::of_word(b.intent@) == Intent::Sell,
        a.item.id is Some,
        b.item.id is Some,
        a.item.id != b.item.id,
    ensures
        UniversalListing::snapshot_key(a, item) is Some,
        UniversalListing::snapshot_key(b, item) is Some,
        UniversalListing::snapshot_key(a, item) != UniversalListing::snapshot_key(b, item),
{
    let x = a.item.id->0;
    let y = b.item.id->0;
    if sell_instance(x) == sell_instance(y) {
        let p = app_prefix();
        assert(decimal(x as nat) =~= sell_instance(x).subrange(p.len() as int, sell_instance(x).len() as int));
        assert(decimal(y as nat) =~= sell_instance(y).subrange(p.len() as int, sell_instance(y).len() as int));
        lemma_decimal_injective(x as nat, y as nat);
    }
}

/// Buy offers of one account for one item type, found by asking about the
/// same item, have the same identity.
pub proof fn lemma_buy_keys_equal(a: Listing, b: Listing, item: Seq<char>)
    requires
        Intent::of_word(a.intent@) == Intent::Buy,
        Intent::of_word(b.intent@) == Intent::Buy,
        a.steamid@ == b.steamid@,
        a.item.defindex == b.item.defindex,
    ensures
        UniversalListing::snapshot_key(a, item) is Some,
        UniversalListing::snapshot_key(a, item) == UniversalListing::snapshot_key(b, item),
{
}

} // verus!
