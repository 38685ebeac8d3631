//! The two feeds of the marketplace: what to do with the answer to a snapshot
//! request, and what to do with a message of the event stream.

use vstd::prelude::*;

use crate::db::{
    after_deletes, after_sweep, after_upserts, created_by, event_views, lemma_after_upserts,
    lemma_last_write_exists, lists_item_type, names_evicted, removed_by, snapshot_views, Database,
    KeyView, SnapshotUpdate, UpsertCount, READ_TTL, SWEEP_TTL,
};
use crate::event::{
    Event, EventListing, EventListingDeletion, ListingKey, ListingView, UniversalListing,
};
use crate::source::PricingError;
use crate::types::ListingResponse;

verus! {

/// How long after a snapshot of an item no other is fetched, in seconds.
pub const COOLDOWN: u64 = 60;

/// When an item was last fetched.
struct CacheEntry {
    item: String,
    fetched_at: u64,
}

/// Whether no two entries are for the same item.
spec fn distinct_items(entries: Seq<CacheEntry>) -> bool {
    forall|i: int, j: int|
        0 <= i < j < entries.len() ==> (#[trigger] entries[i]).item@ != (#[trigger] entries[j]).item@
}

/// Whether some entry is for `item`.
spec fn has_item(entries: Seq<CacheEntry>, item: Seq<char>) -> bool {
    exists|i: int| 0 <= i < entries.len() && (#[trigger] entries[i]).item@ == item
}

/// The place of an entry for `item`.
spec fn place_of_item(entries: Seq<CacheEntry>, item: Seq<char>) -> int {
    choose|i: int| 0 <= i < entries.len() && (#[trigger] entries[i]).item@ == item
}

/// The entries as a map from item to the time of its last fetch.
spec fn as_times(entries: Seq<CacheEntry>) -> Map<Seq<char>, u64> {
    Map::new(
        |item: Seq<char>| has_item(entries, item),
        |item: Seq<char>| entries[place_of_item(entries, item)].fetched_at,
    )
}

/// Every entry is found in the map under its item.
proof fn lemma_as_times_entry(entries: Seq<CacheEntry>, i: int)
    requires
        distinct_items(entries),
        0 <= i < entries.len(),
    ensures
        as_times(entries).contains_key(entries[i].item@),
        as_times(entries)[entries[i].item@] == entries[i].fetched_at,
{
    let item = entries[i].item@;
    assert(has_item(entries, item));
    let p = place_of_item(entries, item);
    if p < i {
        assert(entries[p].item@ != entries[i].item@);
    } else if i < p {
        assert(entries[i].item@ != entries[p].item@);
    }
}

/// Putting an entry in place of another for the same item, or behind all
/// others where there is none for its item, records its time under its item.
proof fn lemma_as_times_record(entries: Seq<CacheEntry>, at: int, entry: CacheEntry)
    requires
        distinct_items(entries),
        0 <= at <= entries.len(),
        at < entries.len() ==> entries[at].item@ == entry.item@,
        at == entries.len() ==> !has_item(entries, entry.item@),
    ensures
        ({
            let after = if at < entries.len() {
                entries.update(at, entry)
            } else {
                entries.push(entry)
            };
            &&& distinct_items(after)
            &&& as_times(after) == as_times(entries).insert(entry.item@, entry.fetched_at)
        }),
{
    let after = if at < entries.len() {
        entries.update(at, entry)
    } else {
        entries.push(entry)
    };
    assert(distinct_items(after)) by {
        assert forall|a: int, b: int| 0 <= a < b < after.len() implies (#[trigger] after[a]).item@
            != (#[trigger] after[b]).item@ by {
            if b < entries.len() {
                assert(entries[a].item@ != entries[b].item@);
            } else {
                assert(entries[a].item@ == after[a].item@);
            }
        }
    }
    let m = as_times(entries).insert(entry.item@, entry.fetched_at);
    assert forall|item: Seq<char>| as_times(after).contains_key(item) <==> m.contains_key(
        item,
    ) by {
        if has_item(after, item) {
            let p = place_of_item(after, item);
            if p != at {
                assert(entries[p].item@ == item);
            }
        }
        if has_item(entries, item) {
            let p = place_of_item(entries, item);
            assert(after[p].item@ == item);
        }
        if item == entry.item@ {
            assert(after[at].item@ == item);
        }
    }
    assert forall|item: Seq<char>| as_times(after).contains_key(item) implies as_times(after)[item]
        == m[item] by {
        let p = place_of_item(after, item);
        lemma_as_times_entry(after, p);
        if p != at {
            assert(entries[p].item@ == item);
            lemma_as_times_entry(entries, p);
            if at < entries.len() {
                if at < p {
                    assert(entries[at].item@ != entries[p].item@);
                } else {
                    assert(entries[p].item@ != entries[at].item@);
                }
            }
        }
    }
    assert(as_times(after) =~= m);
}

/// Whether a snapshot of `item` may be fetched at `now`: not if one was
/// fetched less than the cooldown ago.
pub open spec fn may_fetch(fetched: Map<Seq<char>, u64>, item: Seq<char>, now: u64) -> bool {
    !(fetched.contains_key(item) && now - fetched[item] < COOLDOWN)
}

/// After a snapshot of an item was fetched, no other may be fetched until the
/// cooldown has passed, and one may be from then on.
pub proof fn lemma_cooldown(fetched: Map<Seq<char>, u64>, item: Seq<char>, first: u64, later: u64)
    requires
        first <= later,
    ensures
        may_fetch(fetched.insert(item, first), item, later) <==> later - first >= COOLDOWN,
{
}

/// When each item was last fetched. Entries are never removed.
pub struct SnapshotCache {
    entries: Vec<CacheEntry>,
}

impl View for SnapshotCache {
    type V = Map<Seq<char>, u64>;

    /// The time of the last fetch by item.
    closed spec fn view(&self) -> Map<Seq<char>, u64> {
        as_times(self.entries@)
    }
}

impl SnapshotCache {
    #[verifier::type_invariant]
    spec fn well_formed(self) -> bool {
        distinct_items(self.entries@)
    }

    /// A cache that knows of no fetch.
    pub fn new() -> (cache: SnapshotCache)
        ensures
            cache@ == Map::<Seq<char>, u64>::empty(),
    {
        let cache = SnapshotCache { entries: Vec::new() };
        assert(cache@ =~= Map::<Seq<char>, u64>::empty());
        cache
    }

    /// Where the entry for `item` is held.
    fn find(&self, item: &String) -> (r: usize)
        ensures
            r <= self.entries.len(),
            r < self.entries.len() ==> self.entries[r as int].item@ == item@,
            r == self.entries.len() ==> !has_item(self.entries@, item@),
    {
        let mut i: usize = 0;
        while i < self.entries.len()
            invariant
                i <= self.entries.len(),
                forall|k: int| 0 <= k < i ==> (#[trigger] self.entries[k]).item@ != item@,
            decreases self.entries.len() - i,
        {
            if self.entries[i].item == *item {
                return i;
            }
            i += 1;
        }
        i
    }

    /// When `item` was last fetched, if it ever was.
    pub fn last_fetch(&self, item: &String) -> (r: Option<u64>)
        ensures
            match r {
                Some(at) => self@.contains_key(item@) && self@[item@] == at,
                None => !self@.contains_key(item@),
            },
    {
        proof {
            use_type_invariant(self);
        }
        let i = self.find(item);
        if i < self.entries.len() {
            proof {
                lemma_as_times_entry(self.entries@, i as int);
            }
            Some(self.entries[i].fetched_at)
        } else {
            None
        }
    }

    /// Whether a snapshot of `item` may be fetched at `now`.
    pub fn should_fetch(&self, item: &String, now: u64) -> (r: bool)
        ensures
            r == may_fetch(self@, item@, now),
    {
        match self.last_fetch(item) {
            Some(at) => !(now < at || now - at < COOLDOWN),
            None => true,
        }
    }

    /// Notes that `item` was fetched at `now`, over whatever was noted before.
    pub fn record_fetch(&mut self, item: String, now: u64)
        ensures
            final(self)@ == old(self)@.insert(item@, now),
    {
        proof {
            use_type_invariant(&*self);
        }
        let i = self.find(&item);
        let entry = CacheEntry { item, fetched_at: now };
        let mut entries: Vec<CacheEntry> = Vec::new();
        core::mem::swap(&mut self.entries, &mut entries);
        proof {
            lemma_as_times_record(entries@, i as int, entry);
        }
        if i < entries.len() {
            entries.set(i, entry);
        } else {
            entries.push(entry);
        }
        self.entries = entries;
    }
}

/// What came of a snapshot request.
pub enum SnapshotReply {
    /// The request could not be sent, or no response came.
    Unreachable,
    /// A response came, with this status and, where it could be decoded,
    /// this body.
    Response { status: u16, body: Option<ListingResponse> },
}

/// What a reply to a snapshot request amounts to: a server-side failure
/// status is `ServerError`; no response, any other status but 200, or a body
/// that could not be decoded is `InternalError`.
pub open spec fn classify(reply: SnapshotReply) -> Result<ListingResponse, PricingError> {
    match reply {
        SnapshotReply::Unreachable => Err(PricingError::InternalError),
        SnapshotReply::Response { status, body } => if 500 <= status < 600 {
            Err(PricingError::ServerError)
        } else if status != 200 {
            Err(PricingError::InternalError)
        } else {
            match body {
                Some(body) => Ok(body),
                None => Err(PricingError::InternalError),
            }
        },
    }
}

/// The answer to a snapshot request for `item` made at `now`, given when each
/// item was last fetched and what came of the request: within the cooldown of
/// an earlier snapshot `IsAlreadyCached`, otherwise what the reply amounts to.
pub open spec fn snapshot_answer(
    fetched: Map<Seq<char>, u64>,
    item: Seq<char>,
    now: u64,
    reply: SnapshotReply,
) -> Result<ListingResponse, PricingError> {
    if may_fetch(fetched, item, now) {
        classify(reply)
    } else {
        Err(PricingError::IsAlreadyCached)
    }
}

/// When each item was last fetched, after a snapshot request for `item` made
/// at `now`: only a request that brought a snapshot is noted.
pub open spec fn fetched_after(
    fetched: Map<Seq<char>, u64>,
    item: Seq<char>,
    now: u64,
    reply: SnapshotReply,
) -> Map<Seq<char>, u64> {
    if snapshot_answer(fetched, item, now, reply) is Ok {
        fetched.insert(item, now)
    } else {
        fetched
    }
}

/// Of three requests for one item, the first of which brought a snapshot: a
/// second one within the cooldown is answered `IsAlreadyCached` and leaves no
/// trace, and a third one after the cooldown is answered by what its reply
/// amounts to.
pub proof fn lemma_fetch_within_and_after_cooldown(
    fetched: Map<Seq<char>, u64>,
    item: Seq<char>,
    first: u64,
    second: u64,
    third: u64,
    first_reply: SnapshotReply,
    second_reply: SnapshotReply,
    third_reply: SnapshotReply,
)
    requires
        snapshot_answer(fetched, item, first, first_reply) is Ok,
        first <= second < first + COOLDOWN,
        first + COOLDOWN <= third,
    ensures
        ({
            let after_first = fetched_after(fetched, item, first, first_reply);
            let after_second = fetched_after(after_first, item, second, second_reply);
            &&& snapshot_answer(after_first, item, second, second_reply) == Err::<
                ListingResponse,
                PricingError,
            >(PricingError::IsAlreadyCached)
            &&& after_second == after_first
            &&& snapshot_answer(after_second, item, third, third_reply) == classify(third_reply)
        }),
{
}

/// Whether one of `items` is `name`.
pub open spec fn is_wanted(items: Seq<String>, name: Seq<char>) -> bool {
    exists|i: int| 0 <= i < items.len() && (#[trigger] items[i])@ == name
}

/// The listing updates among `events` whose item is one of `items`, in order.
pub open spec fn wanted_updates(events: Seq<Event>, items: Seq<String>) -> Seq<EventListing>
    decreases events.len(),
{
    if events.len() == 0 {
        Seq::empty()
    } else {
        let front = wanted_updates(events.drop_last(), items);
        match events.last() {
            Event::ListingUpdate(listing) if is_wanted(items, listing.item.name@) => front.push(
                listing,
            ),
            _ => front,
        }
    }
}

/// The listing deletions among `events` whose item is one of `items`, in order.
pub open spec fn wanted_deletions(events: Seq<Event>, items: Seq<String>) -> Seq<
    EventListingDeletion,
>
    decreases events.len(),
{
    if events.len() == 0 {
        Seq::empty()
    } else {
        let front = wanted_deletions(events.drop_last(), items);
        match events.last() {
            Event::ListingDelete(deletion) if is_wanted(items, deletion.item.name@) => front.push(
                deletion,
            ),
            _ => front,
        }
    }
}

/// The store after one message of the event stream: first every deletion of
/// the message is applied, then every update, so that a listing which one
/// message both deletes and updates is there afterwards.
pub open spec fn after_events(
    m: Map<KeyView, ListingView>,
    events: Seq<Event>,
    items: Seq<String>,
) -> Map<KeyView, ListingView> {
    after_upserts(
        after_deletes(m, wanted_deletions(events, items)),
        event_views(wanted_updates(events, items)),
    )
}

/// Every wanted update among the events is among the wanted updates.
proof fn lemma_wanted_update_kept(events: Seq<Event>, items: Seq<String>, i: int)
    requires
        0 <= i < events.len(),
        events[i] matches Event::ListingUpdate(listing) && is_wanted(items, listing.item.name@),
    ensures
        exists|j: int|
            0 <= j < wanted_updates(events, items).len() && Event::ListingUpdate(
                #[trigger] wanted_updates(events, items)[j],
            ) == events[i],
    decreases events.len(),
{
    let all = wanted_updates(events, items);
    let front = wanted_updates(events.drop_last(), items);
    if i < events.len() - 1 {
        lemma_wanted_update_kept(events.drop_last(), items, i);
        let j = choose|j: int|
            0 <= j < front.len() && Event::ListingUpdate(#[trigger] front[j]) == events[i];
        assert(all[j] == front[j]);
    } else {
        assert(Event::ListingUpdate(all[all.len() - 1]) == events[i]);
    }
}

/// A listing that one message updates is in the store after the message,
/// whether or not the message also deletes it.
pub proof fn lemma_update_survives_message(
    m: Map<KeyView, ListingView>,
    events: Seq<Event>,
    items: Seq<String>,
    i: int,
)
    requires
        0 <= i < events.len(),
        events[i] matches Event::ListingUpdate(listing) && is_wanted(items, listing.item.name@),
    ensures
        events[i] matches Event::ListingUpdate(listing) && after_events(
            m,
            events,
            items,
        ).contains_key(UniversalListing::of_event(listing).key),
{
    let listing = events[i]->ListingUpdate_0;
    lemma_wanted_update_kept(events, items, i);
    let updates = wanted_updates(events, items);
    let j = choose|j: int|
        0 <= j < updates.len() && Event::ListingUpdate(#[trigger] updates[j]) == events[i];
    let views = event_views(updates);
    assert(views[j] == UniversalListing::of_event(listing));
    lemma_last_write_exists(views, j);
    lemma_after_upserts(
        after_deletes(m, wanted_deletions(events, items)),
        views,
        UniversalListing::of_event(listing).key,
    );
}

/// Whether one of `items` is `name`.
pub fn contains_item(items: &Vec<String>, name: &String) -> (r: bool)
    ensures
        r == is_wanted(items@, name@),
{
    let mut i: usize = 0;
    while i < items.len()
        invariant
            i <= items.len(),
            forall|k: int| 0 <= k < i ==> (#[trigger] items[k])@ != name@,
        decreases items.len() - i,
    {
        if items[i] == *name {
            return true;
        }
        i += 1;
    }
    false
}

/// Parts the events of one message by kind and leaves out those whose item
/// is none of `items`.
pub fn split_events(events: Vec<Event>, items: &Vec<String>) -> (r: (
    Vec<EventListingDeletion>,
    Vec<EventListing>,
))
    ensures
        r.0@ == wanted_deletions(events@, items@),
        r.1@ == wanted_updates(events@, items@),
{
    let ghost orig = events@;
    let mut deletions: Vec<EventListingDeletion> = Vec::new();
    let mut updates: Vec<EventListing> = Vec::new();
    assert(orig.subrange(0, 0) =~= Seq::<Event>::empty());
    for event in it: events.into_iter()
        invariant
            it.seq() == orig,
            deletions@ == wanted_deletions(orig.subrange(0, it.index() as int), items@),
            updates@ == wanted_updates(orig.subrange(0, it.index() as int), items@),
    {
        proof {
            let j = it.index() as int;
            let next = orig.subrange(0, j + 1);
            assert(next.drop_last() =~= orig.subrange(0, j));
            assert(next.last() == event);
        }
        match event {
            Event::ListingUpdate(listing) => {
                if contains_item(items, &listing.item.name) {
                    updates.push(listing);
                }
            },
            Event::ListingDelete(deletion) => {
                if contains_item(items, &deletion.item.name) {
                    deletions.push(deletion);
                }
            },
        }
    }
    assert(orig.subrange(0, orig.len() as int) =~= orig);
    (deletions, updates)
}

/// What one message of the event stream did to the store.
#[derive(Debug, Clone, Copy, PartialEq, Eq, Structural)]
pub struct EventsApplied {
    /// Deletions that found their listing.
    pub deleted: usize,
    /// Updates that changed a listing, and updates that added one.
    pub written: UpsertCount,
}

/// The marketplace as this library sees it: the listing store, and the times
/// of the last snapshot of each item.
pub struct BackpackTF {
    auth_key: String,
    user_token: String,
    db: Database,
    snapshot_cache: SnapshotCache,
}

impl BackpackTF {
    /// The listings of the store by identity.
    pub closed spec fn store(&self) -> Map<KeyView, ListingView> {
        self.db@
    }

    /// The time of the last snapshot by item.
    pub closed spec fn fetched(&self) -> Map<Seq<char>, u64> {
        self.snapshot_cache@
    }

    /// The key that authorises requests, and the token that names the user.
    pub closed spec fn credentials(&self) -> (Seq<char>, Seq<char>) {
        (self.auth_key@, self.user_token@)
    }

    /// A marketplace over the store `database`, with no snapshot fetched yet.
    pub fn new(auth_key: String, user_token: String, database: Database) -> (r: BackpackTF)
        ensures
            r.store() == database@,
            r.fetched() == Map::<Seq<char>, u64>::empty(),
            r.credentials() == (auth_key@, user_token@),
    {
        BackpackTF { auth_key, user_token, db: database, snapshot_cache: SnapshotCache::new() }
    }

    /// The key that authorises requests.
    pub fn auth_key(&self) -> (r: &String)
        ensures
            r@ == self.credentials().0,
    {
        &self.auth_key
    }

    /// The token that names the user in requests.
    pub fn user_token(&self) -> (r: &String)
        ensures
            r@ == self.credentials().1,
    {
        &self.user_token
    }

    /// The listing store.
    pub fn database(&self) -> (db: &Database)
        ensures
            db@ == self.store(),
    {
        &self.db
    }

    /// Whether a snapshot of `item` may be fetched at `now`.
    pub fn should_fetch(&self, item: &str, now: u64) -> (r: bool)
        ensures
            r == may_fetch(self.fetched(), item@, now),
    {
        let name = item.to_owned();
        self.snapshot_cache.should_fetch(&name, now)
    }

    /// Notes that a snapshot of `item` was fetched at `now`.
    pub fn record_fetch(&mut self, item: &str, now: u64)
        ensures
            final(self).fetched() == old(self).fetched().insert(item@, now),
            final(self).store() == old(self).store(),
            final(self).credentials() == old(self).credentials(),
    {
        self.snapshot_cache.record_fetch(item.to_owned(), now);
    }

    /// Takes the reply to a snapshot request for `item` made at `now`.
    ///
    /// Within the cooldown of an earlier snapshot of the item the answer is
    /// `IsAlreadyCached`, whatever the reply. Otherwise it is what the reply
    /// amounts to, and a reply that holds a snapshot is noted as the item's
    /// last fetch. The store is not touched.
    pub fn get_snapshot(&mut self, item: &str, now: u64, reply: SnapshotReply) -> (r: Result<
        ListingResponse,
        PricingError,
    >)
        ensures
            final(self).store() == old(self).store(),
            final(self).credentials() == old(self).credentials(),
            r == snapshot_answer(old(self).fetched(), item@, now, reply),
            final(self).fetched() == fetched_after(old(self).fetched(), item@, now, reply),
    {
        if !self.should_fetch(item, now) {
            return Err(PricingError::IsAlreadyCached);
        }
        match reply {
            SnapshotReply::Unreachable => Err(PricingError::InternalError),
            SnapshotReply::Response { status, body } => {
                if status >= 500 && status < 600 {
                    return Err(PricingError::ServerError);
                }
                if status != 200 {
                    return Err(PricingError::InternalError);
                }
                match body {
                    Some(body) => {
                        self.record_fetch(item, now);
                        Ok(body)
                    },
                    None => Err(PricingError::InternalError),
                }
            },
        }
    }

    /// Takes the reply to a snapshot request for `item` made at `now` and,
    /// where it holds a snapshot, writes its listings to the store. Listings
    /// that the store holds and the snapshot lacks stay.
    pub fn watch_snapshots(&mut self, item: &str, now: u64, reply: SnapshotReply) -> (r: Result<
        SnapshotUpdate,
        PricingError,
    >)
        ensures
            final(self).credentials() == old(self).credentials(),
            final(self).fetched() == fetched_after(old(self).fetched(), item@, now, reply),
            ({
                match snapshot_answer(old(self).fetched(), item@, now, reply) {
                    Ok(snapshot) => {
                        let written = snapshot_views(snapshot.listings@, item@);
                        &&& final(self).store() == after_upserts(old(self).store(), written)
                        &&& r matches Ok(count)
                        &&& count.created == created_by(old(self).store(), written)
                        &&& count.updated + count.created == written.len()
                        &&& count.updated + count.created + count.dropped
                            == snapshot.listings.len()
                    },
                    Err(e) => {
                        &&& final(self).store() == old(self).store()
                        &&& r == Err::<SnapshotUpdate, PricingError>(e)
                    },
                }
            }),
    {
        match self.get_snapshot(item, now, reply) {
            Ok(snapshot) => Ok(self.db.update_listings_from_snapshot(snapshot.listings, item)),
            Err(e) => Err(e),
        }
    }

    /// Takes one message of the event stream: `None` for a message that could
    /// not be decoded, which is dropped. Of the events of a message, those
    /// whose item is none of `items` are left out; then every deletion is
    /// applied, then every update.
    pub fn watch_websocket(&mut self, items: &Vec<String>, message: Option<Vec<Event>>) -> (r:
        EventsApplied)
        ensures
            final(self).fetched() == old(self).fetched(),
            final(self).credentials() == old(self).credentials(),
            match message {
                None => final(self).store() == old(self).store() && r == (EventsApplied {
                    deleted: 0,
                    written: UpsertCount { updated: 0, created: 0 },
                }),
                Some(events) => {
                    let deletions = wanted_deletions(events@, items@);
                    let updates = event_views(wanted_updates(events@, items@));
                    let between = after_deletes(old(self).store(), deletions);
                    &&& final(self).store() == after_events(old(self).store(), events@, items@)
                    &&& r.deleted == removed_by(old(self).store(), deletions)
                    &&& r.written.created == created_by(between, updates)
                    &&& r.written.updated + r.written.created == updates.len()
                },
            },
    {
        match message {
            None => EventsApplied { deleted: 0, written: UpsertCount { updated: 0, created: 0 } },
            Some(events) => {
                let (deletions, updates) = split_events(events, items);
                let deleted = self.db.handle_delete_events(deletions);
                let written = self.db.update_listings_from_websocket(updates);
                EventsApplied { deleted, written }
            },
        }
    }
    /// Removes every listing of item type `defindex` that is older than `ttl`
    /// at `now`. Returns the identities of the listings that were removed.
    pub fn evict_stale(&mut self, defindex: u64, now: u64, ttl: u64) -> (gone: Vec<ListingKey>)
        ensures
            final(self).store() == after_sweep(old(self).store(), Some(defindex), now, ttl),
            names_evicted(gone@, old(self).store(), Some(defindex), now, ttl),
            final(self).fetched() == old(self).fetched(),
            final(self).credentials() == old(self).credentials(),
    {
        self.db.evict_stale(defindex, now, ttl)
    }

    /// Removes every listing, of whatever item type, that was not bumped
    /// within the last day. Returns the identities of the listings that were
    /// removed.
    pub fn scan_for_old_listings(&mut self, now: u64) -> (gone: Vec<ListingKey>)
        ensures
            final(self).store() == after_sweep(old(self).store(), None, now, SWEEP_TTL),
            names_evicted(gone@, old(self).store(), None, now, SWEEP_TTL),
            final(self).fetched() == old(self).fetched(),
            final(self).credentials() == old(self).credentials(),
    {
        self.db.scan_for_old_listings(now)
    }

    /// The listings of item type `defindex` that were bumped within the last
    /// three days; older ones are removed from the store.
    pub fn get_item_listings(&mut self, defindex: u32, now: u64) -> (result: Vec<UniversalListing>)
        ensures
            final(self).store() == after_sweep(
                old(self).store(),
                Some(defindex as u64),
                now,
                READ_TTL,
            ),
            lists_item_type(result@, final(self).store(), defindex as u64),
            final(self).fetched() == old(self).fetched(),
            final(self).credentials() == old(self).credentials(),
    {
        self.db.get_item_listings(defindex, now)
    }
}

} // verus!
