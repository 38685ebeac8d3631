//! The listing store: one canonical listing per identity, overwritten by the
//! last write, removed by deletion or by age.

use vstd::prelude::*;

use crate::event::{
    lemma_buy_keys_equal, lemma_sell_keys_distinct, EventListing, EventListingDeletion, ListingKey,
    ListingView, UniversalListing,
};
use crate::types::{Intent, Listing};

verus! {

/// How long a listing lives without a bump when the whole store is swept: a day.
pub const SWEEP_TTL: u64 = 86400;

/// How long a listing lives without a bump when the listings of one item type
/// are read: three days.
pub const READ_TTL: u64 = 259200;

/// The identity of a listing as a plain value: the item type and the instance.
pub type KeyView = (u64, Seq<char>);

/// Whether no two entries have the same identity.
pub open spec fn distinct_keys(entries: Seq<UniversalListing>) -> bool {
    forall|i: int, j: int|
        0 <= i < j < entries.len() ==> (#[trigger] entries[i]).key@ != (#[trigger] entries[j]).key@
}

/// Whether some entry has the identity `key`.
pub open spec fn has_key(entries: Seq<UniversalListing>, key: KeyView) -> bool {
    exists|i: int| 0 <= i < entries.len() && (#[trigger] entries[i]).key@ == key
}

/// The place of an entry with the identity `key`.
spec fn place_of(entries: Seq<UniversalListing>, key: KeyView) -> int {
    choose|i: int| 0 <= i < entries.len() && (#[trigger] entries[i]).key@ == key
}

/// The entries as a map from identity to listing.
spec fn as_map(entries: Seq<UniversalListing>) -> Map<KeyView, ListingView> {
    Map::new(|key: KeyView| has_key(entries, key), |key: KeyView| entries[place_of(entries, key)]@)
}

/// Every entry is found in the map under its identity.
proof fn lemma_as_map_entry(entries: Seq<UniversalListing>, i: int)
    requires
        distinct_keys(entries),
        0 <= i < entries.len(),
    ensures
        as_map(entries).contains_key(entries[i].key@),
        as_map(entries)[entries[i].key@] == entries[i]@,
{
    let key = entries[i].key@;
    assert(has_key(entries, key));
    let p = place_of(entries, key);
    assert(0 <= p < entries.len() && entries[p].key@ == key);
    if p < i {
        assert(entries[p].key@ != entries[i].key@);
    } else if i < p {
        assert(entries[i].key@ != entries[p].key@);
    }
}

/// Adding an entry with a new identity inserts it into the map.
proof fn lemma_as_map_push(entries: Seq<UniversalListing>, listing: UniversalListing)
    requires
        distinct_keys(entries),
        !has_key(entries, listing.key@),
    ensures
        distinct_keys(entries.push(listing)),
        as_map(entries.push(listing)) == as_map(entries).insert(listing.key@, listing@),
{
    let after = entries.push(listing);
    assert(distinct_keys(after)) by {
        assert forall|i: int, j: int| 0 <= i < j < after.len() implies (#[trigger] after[i]).key@
            != (#[trigger] after[j]).key@ by {
            if j < entries.len() {
                assert(entries[i].key@ != entries[j].key@);
            } else {
                assert(entries[i].key@ != listing.key@);
            }
        }
    }
    let m = as_map(entries).insert(listing.key@, listing@);
    assert forall|key: KeyView| as_map(after).contains_key(key) <==> m.contains_key(key) by {
        if has_key(after, key) {
            let i = place_of(after, key);
            if i < entries.len() {
                assert(entries[i].key@ == key);
            }
        }
        if has_key(entries, key) {
            let i = place_of(entries, key);
            assert(after[i].key@ == key);
        }
        if key == listing.key@ {
            assert(after[entries.len() as int].key@ == key);
        }
    }
    assert forall|key: KeyView| as_map(after).contains_key(key) implies as_map(after)[key]
        == m[key] by {
        let i = place_of(after, key);
        lemma_as_map_entry(after, i);
        if i < entries.len() {
            assert(entries[i].key@ == key);
            lemma_as_map_entry(entries, i);
        }
    }
    assert(as_map(after) =~= m);
}

/// Replacing an entry by one of the same identity overwrites it in the map.
proof fn lemma_as_map_update(entries: Seq<UniversalListing>, i: int, listing: UniversalListing)
    requires
        distinct_keys(entries),
        0 <= i < entries.len(),
        entries[i].key@ == listing.key@,
    ensures
        distinct_keys(entries.update(i, listing)),
        as_map(entries.update(i, listing)) == as_map(entries).insert(listing.key@, listing@),
{
    let after = entries.update(i, listing);
    assert(distinct_keys(after)) by {
        assert forall|a: int, b: int| 0 <= a < b < after.len() implies (#[trigger] after[a]).key@
            != (#[trigger] after[b]).key@ by {
            assert(entries[a].key@ != entries[b].key@);
        }
    }
    let m = as_map(entries).insert(listing.key@, listing@);
    assert forall|key: KeyView| as_map(after).contains_key(key) <==> m.contains_key(key) by {
        if has_key(after, key) {
            let p = place_of(after, key);
            assert(entries[p].key@ == key);
        }
        if has_key(entries, key) {
            let p = place_of(entries, key);
            assert(after[p].key@ == key);
        }
        if key == listing.key@ {
            assert(after[i].key@ == key);
        }
    }
    assert forall|key: KeyView| as_map(after).contains_key(key) implies as_map(after)[key]
        == m[key] by {
        let p = place_of(after, key);
        lemma_as_map_entry(after, p);
        if p != i {
            assert(entries[p].key@ == key);
            lemma_as_map_entry(entries, p);
            assert(entries[i].key@ != entries[p].key@) by {
                if i < p {
                    assert(entries[i].key@ != entries[p].key@);
                } else {
                    assert(entries[p].key@ != entries[i].key@);
                }
            }
        }
    }
    assert(as_map(after) =~= m);
}

/// Taking an entry out removes its identity from the map.
proof fn lemma_as_map_remove(entries: Seq<UniversalListing>, i: int)
    requires
        distinct_keys(entries),
        0 <= i < entries.len(),
    ensures
        distinct_keys(entries.remove(i)),
        as_map(entries.remove(i)) == as_map(entries).remove(entries[i].key@),
{
    let after = entries.remove(i);
    let gone = entries[i].key@;
    assert(distinct_keys(after)) by {
        assert forall|a: int, b: int| 0 <= a < b < after.len() implies (#[trigger] after[a]).key@
            != (#[trigger] after[b]).key@ by {
            let a0 = if a < i { a } else { a + 1 };
            let b0 = if b < i { b } else { b + 1 };
            assert(entries[a0].key@ != entries[b0].key@);
        }
    }
    let m = as_map(entries).remove(gone);
    assert forall|key: KeyView| as_map(after).contains_key(key) <==> m.contains_key(key) by {
        if has_key(after, key) {
            let p = place_of(after, key);
            let p0 = if p < i { p } else { p + 1 };
            assert(entries[p0].key@ == key);
            if p0 < i {
                assert(entries[p0].key@ != entries[i].key@);
            } else {
                assert(entries[i].key@ != entries[p0].key@);
            }
        }
        if has_key(entries, key) && key != gone {
            let p = place_of(entries, key);
            let p1 = if p < i { p } else { p - 1 };
            assert(after[p1].key@ == key);
        }
    }
    assert forall|key: KeyView| as_map(after).contains_key(key) implies as_map(after)[key]
        == m[key] by {
        let p = place_of(after, key);
        lemma_as_map_entry(after, p);
        let p0 = if p < i { p } else { p + 1 };
        assert(entries[p0].key@ == key);
        lemma_as_map_entry(entries, p0);
    }
    assert(as_map(after) =~= m);
}

/// Whether a listing last bumped at `bumped_at` is older than `ttl` at `now`.
pub open spec fn is_stale(bumped_at: u32, now: u64, ttl: u64) -> bool {
    bumped_at + ttl < now
}

/// Whether a sweep at `now` removes the listing `listing` held under `key`:
/// it is older than `ttl` and, where the sweep is for one item type only, of
/// that type.
pub open spec fn doomed(
    key: KeyView,
    listing: ListingView,
    only: Option<u64>,
    now: u64,
    ttl: u64,
) -> bool {
    (only matches Some(defindex) ==> key.0 == defindex) && is_stale(listing.bumped_at, now, ttl)
}

/// What a sweep at `now` leaves of the listings `m`.
pub open spec fn after_sweep(
    m: Map<KeyView, ListingView>,
    only: Option<u64>,
    now: u64,
    ttl: u64,
) -> Map<KeyView, ListingView> {
    Map::new(
        |key: KeyView| m.contains_key(key) && !doomed(key, m[key], only, now, ttl),
        |key: KeyView| m[key],
    )
}

/// Whether `gone` names what a sweep at `now` removes from the listings `m`:
/// every listing that the sweep removes, once, and no other.
pub open spec fn names_evicted(
    gone: Seq<ListingKey>,
    m: Map<KeyView, ListingView>,
    only: Option<u64>,
    now: u64,
    ttl: u64,
) -> bool {
    &&& forall|i: int, j: int|
        0 <= i < j < gone.len() ==> (#[trigger] gone[i])@ != (#[trigger] gone[j])@
    &&& forall|i: int|
        0 <= i < gone.len() ==> m.contains_key((#[trigger] gone[i])@) && doomed(
            gone[i]@,
            m[gone[i]@],
            only,
            now,
            ttl,
        )
    &&& forall|key: KeyView| #[trigger]
        m.contains_key(key) && doomed(key, m[key], only, now, ttl) ==> exists|i: int|
            0 <= i < gone.len() && (#[trigger] gone[i])@ == key
}

/// Whether `result` lists the listings of item type `defindex` in `m`: each of
/// them once, as the store holds it, and nothing else.
pub open spec fn lists_item_type(
    result: Seq<UniversalListing>,
    m: Map<KeyView, ListingView>,
    defindex: u64,
) -> bool {
    &&& distinct_keys(result)
    &&& forall|i: int|
        0 <= i < result.len() ==> {
            &&& (#[trigger] result[i]).key@.0 == defindex
            &&& m.contains_key(result[i].key@)
            &&& m[result[i].key@] == result[i]@
        }
    &&& forall|key: KeyView| #[trigger]
        m.contains_key(key) && key.0 == defindex ==> has_key(result, key)
}

/// A store without two entries of one identity holds as many listings as entries.
proof fn lemma_as_map_len(entries: Seq<UniversalListing>)
    requires
        distinct_keys(entries),
    ensures
        as_map(entries).dom().finite(),
        as_map(entries).dom().len() == entries.len(),
    decreases entries.len(),
{
    if entries.len() == 0 {
        assert(as_map(entries).dom() =~= Set::<KeyView>::empty());
    } else {
        let front = entries.drop_last();
        let last = entries.last();
        assert(distinct_keys(front)) by {
            assert forall|i: int, j: int| 0 <= i < j < front.len() implies (#[trigger] front[i]).key@
                != (#[trigger] front[j]).key@ by {
                assert(entries[i].key@ != entries[j].key@);
            }
        }
        assert(!has_key(front, last.key@)) by {
            if has_key(front, last.key@) {
                let i = place_of(front, last.key@);
                assert(entries[i].key@ != entries[entries.len() - 1].key@);
            }
        }
        lemma_as_map_len(front);
        lemma_as_map_push(front, last);
        assert(front.push(last) =~= entries);
        assert(as_map(entries).dom() =~= as_map(front).dom().insert(last.key@));
    }
}

/// The listings `m` after the events `events` have each removed the listing
/// they name, in order.
pub open spec fn after_deletes(
    m: Map<KeyView, ListingView>,
    events: Seq<EventListingDeletion>,
) -> Map<KeyView, ListingView>
    decreases events.len(),
{
    if events.len() == 0 {
        m
    } else {
        after_deletes(m, events.drop_last()).remove(events.last().key_of())
    }
}

/// How many of the events `events` found the listing they name in the store.
pub open spec fn removed_by(m: Map<KeyView, ListingView>, events: Seq<EventListingDeletion>) -> nat
    decreases events.len(),
{
    if events.len() == 0 {
        0
    } else {
        let before = after_deletes(m, events.drop_last());
        let found: nat = if before.contains_key(events.last().key_of()) {
            1
        } else {
            0
        };
        removed_by(m, events.drop_last()) + found
    }
}

/// The listings `m` after the listings `listings` have each been written
/// under its identity, in order: where two have the same identity, the later
/// one stays.
pub open spec fn after_upserts(
    m: Map<KeyView, ListingView>,
    listings: Seq<ListingView>,
) -> Map<KeyView, ListingView>
    decreases listings.len(),
{
    if listings.len() == 0 {
        m
    } else {
        after_upserts(m, listings.drop_last()).insert(listings.last().key, listings.last())
    }
}

/// How many of the listings `listings` had an identity that the store did not
/// hold when they were written.
pub open spec fn created_by(m: Map<KeyView, ListingView>, listings: Seq<ListingView>) -> nat
    decreases listings.len(),
{
    if listings.len() == 0 {
        0
    } else {
        let before = after_upserts(m, listings.drop_last());
        let fresh: nat = if before.contains_key(listings.last().key) {
            0
        } else {
            1
        };
        created_by(m, listings.drop_last()) + fresh
    }
}

/// The canonical listings of records of the event stream, in order.
pub open spec fn event_views(listings: Seq<EventListing>) -> Seq<ListingView> {
    Seq::new(listings.len(), |i: int| UniversalListing::of_event(listings[i]))
}

/// The canonical listings of the records of a snapshot for the item asked
/// about as `item`, in order, without the records that have no identity.
pub open spec fn snapshot_views(listings: Seq<Listing>, item: Seq<char>) -> Seq<ListingView>
    decreases listings.len(),
{
    if listings.len() == 0 {
        Seq::empty()
    } else {
        let front = snapshot_views(listings.drop_last(), item);
        match UniversalListing::of_snapshot(listings.last(), item) {
            Ok(listing) => front.push(listing),
            Err(_) => front,
        }
    }
}

/// Whether one of the events `events` names the listing `key`.
pub open spec fn deletes_key(events: Seq<EventListingDeletion>, key: KeyView) -> bool {
    exists|i: int| 0 <= i < events.len() && (#[trigger] events[i]).key_of() == key
}

/// The last of the listings `listings` that has the identity `key`.
pub open spec fn last_write(listings: Seq<ListingView>, key: KeyView) -> Option<ListingView>
    decreases listings.len(),
{
    if listings.len() == 0 {
        None
    } else if listings.last().key == key {
        Some(listings.last())
    } else {
        last_write(listings.drop_last(), key)
    }
}

/// Deletions remove exactly the listings that they name, and leave the
/// others as they are.
pub proof fn lemma_after_deletes(
    m: Map<KeyView, ListingView>,
    events: Seq<EventListingDeletion>,
    key: KeyView,
)
    ensures
        after_deletes(m, events).contains_key(key) <==> m.contains_key(key) && !deletes_key(
            events,
            key,
        ),
        after_deletes(m, events).contains_key(key) ==> after_deletes(m, events)[key] == m[key],
    decreases events.len(),
{
    if events.len() > 0 {
        let front = events.drop_last();
        lemma_after_deletes(m, front, key);
        if deletes_key(front, key) {
            let i = choose|i: int| 0 <= i < front.len() && (#[trigger] front[i]).key_of() == key;
            assert(events[i].key_of() == key);
        }
        if events.last().key_of() == key {
            assert(events[events.len() - 1].key_of() == key);
        }
        if deletes_key(events, key) {
            let i = choose|i: int| 0 <= i < events.len() && (#[trigger] events[i]).key_of() == key;
            if i < front.len() {
                assert(front[i].key_of() == key);
            }
        }
    }
}

/// After writes, the store holds under each identity the last listing
/// written under it, or what it held before where none was.
pub proof fn lemma_after_upserts(
    m: Map<KeyView, ListingView>,
    listings: Seq<ListingView>,
    key: KeyView,
)
    ensures
        match last_write(listings, key) {
            Some(listing) => after_upserts(m, listings).contains_key(key) && after_upserts(
                m,
                listings,
            )[key] == listing,
            None => (after_upserts(m, listings).contains_key(key) <==> m.contains_key(key)) && (
            m.contains_key(key) ==> after_upserts(m, listings)[key] == m[key]),
        },
    decreases listings.len(),
{
    if listings.len() > 0 {
        lemma_after_upserts(m, listings.drop_last(), key);
    }
}

/// A listing that was written is the last write under its identity, or a
/// later one is.
pub proof fn lemma_last_write_exists(listings: Seq<ListingView>, i: int)
    requires
        0 <= i < listings.len(),
    ensures
        last_write(listings, listings[i].key) is Some,
    decreases listings.len(),
{
    if i < listings.len() - 1 && listings.last().key != listings[i].key {
        lemma_last_write_exists(listings.drop_last(), i);
    }
}

/// A listing that was written is found by a query of its item type as it
/// was written, as long as its age at the query is no more than the time to
/// live. Where its age is more, the query removes it: it is neither in the
/// result nor in the store, nor in what any later query of the store finds.
pub proof fn lemma_upsert_then_query(
    m: Map<KeyView, ListingView>,
    listing: ListingView,
    now: u64,
    ttl: u64,
    result: Seq<UniversalListing>,
    later: u64,
    later_ttl: u64,
)
    requires
        lists_item_type(
            result,
            after_sweep(m.insert(listing.key, listing), Some(listing.key.0), now, ttl),
            listing.key.0,
        ),
    ensures
        ({
            let left = after_sweep(m.insert(listing.key, listing), Some(listing.key.0), now, ttl);
            let again = after_sweep(left, Some(listing.key.0), later, later_ttl);
            &&& now - listing.bumped_at <= ttl ==> {
                &&& left.contains_key(listing.key)
                &&& left[listing.key] == listing
                &&& exists|i: int| 0 <= i < result.len() && (#[trigger] result[i])@ == listing
            }
            &&& now - listing.bumped_at > ttl ==> {
                &&& !left.contains_key(listing.key)
                &&& !has_key(result, listing.key)
                &&& !again.contains_key(listing.key)
            }
        }),
{
    let left = after_sweep(m.insert(listing.key, listing), Some(listing.key.0), now, ttl);
    if now - listing.bumped_at <= ttl {
        assert(left.contains_key(listing.key) && listing.key.0 == listing.key.0);
        assert(has_key(result, listing.key));
        let i = place_of(result, listing.key);
        assert(result[i]@ == listing);
    } else {
        if has_key(result, listing.key) {
            let i = place_of(result, listing.key);
            assert(left.contains_key(result[i].key@));
        }
    }
}

/// A listing that was deleted is not found by a query of its item type.
pub proof fn lemma_delete_then_query(
    m: Map<KeyView, ListingView>,
    key: KeyView,
    now: u64,
    ttl: u64,
    result: Seq<UniversalListing>,
)
    requires
        lists_item_type(result, after_sweep(m.remove(key), Some(key.0), now, ttl), key.0),
    ensures
        !after_sweep(m.remove(key), Some(key.0), now, ttl).contains_key(key),
        !has_key(result, key),
{
    if has_key(result, key) {
        let i = place_of(result, key);
        assert(after_sweep(m.remove(key), Some(key.0), now, ttl).contains_key(result[i].key@));
    }
}

/// Two writes under one identity, in whatever order they arrive, leave one
/// listing under it: the one that arrived last. The store holds no more
/// listings than after the first write.
pub proof fn lemma_last_write_wins(
    m: Map<KeyView, ListingView>,
    first: ListingView,
    second: ListingView,
)
    requires
        first.key == second.key,
        m.dom().finite(),
    ensures
        after_upserts(m, seq![first, second]) == m.insert(second.key, second),
        after_upserts(m, seq![first, second])[first.key] == second,
        after_upserts(m, seq![first, second]).dom().len() == after_upserts(
            m,
            seq![first],
        ).dom().len(),
{
    let both = seq![first, second];
    let one = seq![first];
    assert(both.drop_last() =~= one);
    assert(one.drop_last() =~= Seq::<ListingView>::empty());
    assert(after_upserts(m, one.drop_last()) == m);
    assert(after_upserts(m, one) == m.insert(first.key, first));
    assert(after_upserts(m, both) =~= m.insert(second.key, second));
    assert(after_upserts(m, both).dom() =~= after_upserts(m, one).dom());
}

/// Two sell records of a snapshot that name different item copies become two
/// listings of the store, each as it was written.
pub proof fn lemma_two_sells_two_entries(
    m: Map<KeyView, ListingView>,
    a: Listing,
    b: Listing,
    item: Seq<char>,
)
    requires
        Intent::of_word(a.intent@) == Intent::Sell,
        Intent::of_word(b.intent@) == Intent::Sell,
        a.item.id is Some,
        b.item.id is Some,
        a.item.id != b.item.id,
    ensures
        ({
            let after = after_upserts(m, snapshot_views(seq![a, b], item));
            let first = UniversalListing::of_snapshot(a, item);
            let second = UniversalListing::of_snapshot(b, item);
            &&& first matches Ok(first)
            &&& second matches Ok(second)
            &&& first.key != second.key
            &&& after.contains_key(first.key)
            &&& after.contains_key(second.key)
            &&& after[first.key] == first
            &&& after[second.key] == second
        }),
{
    lemma_sell_keys_distinct(a, b, item);
    let first = UniversalListing::of_snapshot(a, item)->Ok_0;
    let second = UniversalListing::of_snapshot(b, item)->Ok_0;
    let both = seq![a, b];
    let one = seq![a];
    assert(both.drop_last() =~= one);
    assert(one.drop_last() =~= Seq::<Listing>::empty());
    assert(snapshot_views(one.drop_last(), item) =~= Seq::<ListingView>::empty());
    assert(snapshot_views(one, item) =~= seq![first]);
    assert(snapshot_views(both, item) =~= seq![first, second]);
    let views = seq![first, second];
    assert(views.drop_last() =~= seq![first]);
    assert(seq![first].drop_last() =~= Seq::<ListingView>::empty());
    assert(after_upserts(m, seq![first].drop_last()) == m);
    assert(after_upserts(m, seq![first]) == m.insert(first.key, first));
}

/// Two buy records of a snapshot from one account for one item type become
/// one listing of the store: the later record.
pub proof fn lemma_two_buys_one_entry(
    m: Map<KeyView, ListingView>,
    a: Listing,
    b: Listing,
    item: Seq<char>,
)
    requires
        Intent::of_word(a.intent@) == Intent::Buy,
        Intent::of_word(b.intent@) == Intent::Buy,
        a.steamid@ == b.steamid@,
        a.item.defindex == b.item.defindex,
    ensures
        ({
            let after = after_upserts(m, snapshot_views(seq![a, b], item));
            let first = UniversalListing::of_snapshot(a, item);
            let second = UniversalListing::of_snapshot(b, item);
            &&& first matches Ok(first)
            &&& second matches Ok(second)
            &&& first.key == second.key
            &&& after == m.insert(second.key, second)
        }),
{
    lemma_buy_keys_equal(a, b, item);
    let first = UniversalListing::of_snapshot(a, item)->Ok_0;
    let second = UniversalListing::of_snapshot(b, item)->Ok_0;
    let both = seq![a, b];
    let one = seq![a];
    assert(both.drop_last() =~= one);
    assert(one.drop_last() =~= Seq::<Listing>::empty());
    assert(snapshot_views(one.drop_last(), item) =~= Seq::<ListingView>::empty());
    assert(snapshot_views(one, item) =~= seq![first]);
    assert(snapshot_views(both, item) =~= seq![first, second]);
    let views = seq![first, second];
    assert(views.drop_last() =~= seq![first]);
    assert(seq![first].drop_last() =~= Seq::<ListingView>::empty());
    assert(after_upserts(m, seq![first].drop_last()) == m);
    assert(after_upserts(m, seq![first]) == m.insert(first.key, first));
    assert(after_upserts(m, views) =~= m.insert(second.key, second));
}

/// How many listings a batch of writes changed and how many it added.
#[derive(Debug, Clone, Copy, PartialEq, Eq, Structural)]
pub struct UpsertCount {
    /// Writes over a listing that the store held.
    pub updated: usize,
    /// Writes of a listing that the store did not hold.
    pub created: usize,
}

/// What a snapshot did to the store.
#[derive(Debug, Clone, Copy, PartialEq, Eq, Structural)]
pub struct SnapshotUpdate {
    /// Writes over a listing that the store held.
    pub updated: usize,
    /// Writes of a listing that the store did not hold.
    pub created: usize,
    /// Records without an identity, which were left out.
    pub dropped: usize,
}

/// The listings as plain values, in order.
pub open spec fn views_of(listings: Seq<UniversalListing>) -> Seq<ListingView> {
    Seq::new(listings.len(), |i: int| listings[i]@)
}

/// Turns records of the event stream into canonical listings, in order.
pub fn event_listings(records: Vec<EventListing>) -> (listings: Vec<UniversalListing>)
    ensures
        views_of(listings@) == event_views(records@),
{
    let ghost orig = records@;
    let mut listings: Vec<UniversalListing> = Vec::new();
    for record in it: records.into_iter()
        invariant
            it.seq() == orig,
            listings.len() == it.index(),
            forall|k: int|
                0 <= k < listings.len() ==> (#[trigger] listings[k])@ == UniversalListing::of_event(
                    orig[k],
                ),
    {
        listings.push(UniversalListing::from_event(record));
    }
    assert(views_of(listings@) =~= event_views(orig));
    listings
}

/// Turns the records of a snapshot for the item asked about as `item` into
/// canonical listings, in order, and leaves out the records that have no
/// identity.
pub fn snapshot_listings(records: Vec<Listing>, item: &str) -> (listings: Vec<UniversalListing>)
    ensures
        views_of(listings@) == snapshot_views(records@, item@),
{
    let ghost orig = records@;
    let mut listings: Vec<UniversalListing> = Vec::new();
    assert(orig.subrange(0, 0) =~= Seq::<Listing>::empty());
    assert(views_of(listings@) =~= Seq::<ListingView>::empty());
    for record in it: records.into_iter()
        invariant
            it.seq() == orig,
            views_of(listings@) == snapshot_views(orig.subrange(0, it.index() as int), item@),
    {
        proof {
            let j = it.index() as int;
            let next = orig.subrange(0, j + 1);
            assert(next.drop_last() =~= orig.subrange(0, j));
            assert(next.last() == record);
        }
        let ghost before = listings@;
        match UniversalListing::from_snapshot(record, item) {
            Ok(listing) => {
                listings.push(listing);
                assert(views_of(listings@) =~= views_of(before).push(listing@));
            },
            Err(_) => {},
        }
    }
    assert(orig.subrange(0, orig.len() as int) =~= orig);
    listings
}

/// The store of canonical listings.
pub struct Database {
    entries: Vec<UniversalListing>,
}

impl View for Database {
    type V = Map<KeyView, ListingView>;

    /// The listings of the store by identity.
    closed spec fn view(&self) -> Map<KeyView, ListingView> {
        as_map(self.entries@)
    }
}

impl Default for Database {
    /// An empty store.
    fn default() -> (db: Database)
        ensures
            db@ == Map::<KeyView, ListingView>::empty(),
    {
        Database::new()
    }
}

impl Database {
    #[verifier::type_invariant]
    spec fn well_formed(self) -> bool {
        distinct_keys(self.entries@)
    }

    /// An empty store.
    pub fn new() -> (db: Database)
        ensures
            db@ == Map::<KeyView, ListingView>::empty(),
    {
        let db = Database { entries: Vec::new() };
        assert(db@ =~= Map::<KeyView, ListingView>::empty());
        db
    }

    /// Moves the entries out and leaves the store empty.
    fn take_entries(&mut self) -> (entries: Vec<UniversalListing>)
        ensures
            entries@ == old(self).entries@,
            final(self).entries@ == Seq::<UniversalListing>::empty(),
    {
        let mut entries: Vec<UniversalListing> = Vec::new();
        core::mem::swap(&mut self.entries, &mut entries);
        entries
    }

    /// Where the listing with the identity `key` is held.
    fn find(&self, key: &ListingKey) -> (r: Option<usize>)
        ensures
            match r {
                Some(i) => i < self.entries.len() && self.entries[i as int].key@ == key@,
                None => !has_key(self.entries@, key@),
            },
    {
        let mut i: usize = 0;
        while i < self.entries.len()
            invariant
                i <= self.entries.len(),
                forall|k: int| 0 <= k < i ==> (#[trigger] self.entries[k]).key@ != key@,
            decreases self.entries.len() - i,
        {
            if self.entries[i].key.same(key) {
                return Some(i);
            }
            i += 1;
        }
        None
    }

    /// Whether the store holds a listing with the identity `key`.
    pub fn contains(&self, key: &ListingKey) -> (r: bool)
        ensures
            r == self@.contains_key(key@),
    {
        self.find(key).is_some()
    }

    /// The listing with the identity `key`, if the store holds one.
    pub fn get(&self, key: &ListingKey) -> (r: Option<UniversalListing>)
        ensures
            match r {
                Some(listing) => self@.contains_key(key@) && listing@ == self@[key@]
                    && listing.key@ == key@,
                None => !self@.contains_key(key@),
            },
    {
        proof {
            use_type_invariant(self);
        }
        match self.find(key) {
            Some(i) => {
                proof {
                    lemma_as_map_entry(self.entries@, i as int);
                }
                Some(self.entries[i].clone())
            },
            None => None,
        }
    }

    /// Writes `listing` under its identity, over whatever was there. Returns
    /// whether a listing was there before.
    pub fn upsert(&mut self, listing: UniversalListing) -> (existed: bool)
        ensures
            final(self)@ == old(self)@.insert(listing.key@, listing@),
            existed == old(self)@.contains_key(listing.key@),
    {
        proof {
            use_type_invariant(&*self);
        }
        let found = self.find(&listing.key);
        let mut entries = self.take_entries();
        let existed = match found {
            Some(i) => {
                proof {
                    lemma_as_map_update(entries@, i as int, listing);
                }
                entries.set(i, listing);
                true
            },
            None => {
                proof {
                    lemma_as_map_push(entries@, listing);
                }
                entries.push(listing);
                false
            },
        };
        self.entries = entries;
        existed
    }

    /// Removes the listing with the identity `key`. Returns whether there was
    /// one; deleting what is not there changes nothing.
    pub fn delete(&mut self, key: &ListingKey) -> (existed: bool)
        ensures
            final(self)@ == old(self)@.remove(key@),
            existed == old(self)@.contains_key(key@),
    {
        proof {
            use_type_invariant(&*self);
        }
        match self.find(key) {
            Some(i) => {
                let mut entries = self.take_entries();
                proof {
                    lemma_as_map_remove(entries@, i as int);
                }
                entries.remove(i);
                self.entries = entries;
                true
            },
            None => {
                assert(self@.remove(key@) =~= self@);
                false
            },
        }
    }
    /// How many listings the store holds.
    pub fn len(&self) -> (n: usize)
        ensures
            self@.dom().finite(),
            n == self@.dom().len(),
    {
        proof {
            use_type_invariant(self);
            lemma_as_map_len(self.entries@);
        }
        self.entries.len()
    }

    /// Removes what is older than `ttl` at `now`: of every item type, or of
    /// the item type `only`. Returns the identities of what was removed.
    fn sweep(&mut self, only: Option<u64>, now: u64, ttl: u64) -> (gone: Vec<ListingKey>)
        ensures
            final(self)@ == after_sweep(old(self)@, only, now, ttl),
            names_evicted(gone@, old(self)@, only, now, ttl),
            old(self)@.dom().finite(),
            final(self)@.dom().finite(),
            gone.len() == old(self)@.dom().len() - final(self)@.dom().len(),
    {
        proof {
            use_type_invariant(&*self);
            lemma_as_map_len(self.entries@);
        }
        let entries = self.take_entries();
        let ghost orig = entries@;
        assert(orig.len() == entries.len());
        let mut kept: Vec<UniversalListing> = Vec::new();
        let mut gone: Vec<ListingKey> = Vec::new();
        let ghost mut from: Seq<int> = Seq::empty();
        for entry in it: entries.into_iter()
            invariant
                it.seq() == orig,
                orig.len() <= usize::MAX,
                distinct_keys(orig),
                distinct_keys(kept@),
                kept.len() + gone.len() == it.index(),
                from.len() == gone.len(),
                forall|x: int|
                    0 <= x < kept.len() ==> !doomed(
                        (#[trigger] kept[x]).key@,
                        kept[x]@,
                        only,
                        now,
                        ttl,
                    ) && exists|y: int| 0 <= y < it.index() && #[trigger] orig[y] == kept[x],
                forall|y: int|
                    0 <= y < it.index() && !doomed(
                        (#[trigger] orig[y]).key@,
                        orig[y]@,
                        only,
                        now,
                        ttl,
                    ) ==> has_key(kept@, orig[y].key@),
                forall|x: int|
                    0 <= x < gone.len() ==> 0 <= #[trigger] from[x] < it.index() && gone[x]@
                        == orig[from[x]].key@ && doomed(
                        orig[from[x]].key@,
                        orig[from[x]]@,
                        only,
                        now,
                        ttl,
                    ),
                forall|x: int, y: int| 0 <= x < y < from.len() ==> from[x] < from[y],
                forall|y: int|
                    0 <= y < it.index() && doomed(
                        (#[trigger] orig[y]).key@,
                        orig[y]@,
                        only,
                        now,
                        ttl,
                    ) ==> exists|x: int| 0 <= x < from.len() && #[trigger] from[x] == y,
        {
            let ghost j = it.index() as int;
            let of_type = match only {
                Some(defindex) => entry.key.defindex == defindex,
                None => true,
            };
            let stale = now > ttl && (entry.bumped_at as u64) < now - ttl;
            if of_type && stale {
                proof {
                    let before = from;
                    from = from.push(j);
                    assert forall|y: int|
                        0 <= y < j + 1 && doomed(
                            (#[trigger] orig[y]).key@,
                            orig[y]@,
                            only,
                            now,
                            ttl,
                        ) implies exists|x: int| 0 <= x < from.len() && #[trigger] from[x] == y by {
                        if y < j {
                            let x = choose|x: int| 0 <= x < before.len() && #[trigger] before[x] == y;
                            assert(from[x] == y);
                        } else {
                            assert(from[before.len() as int] == y);
                        }
                    }
                }
                gone.push(entry.key);
            } else {
                proof {
                    assert(!has_key(kept@, entry.key@)) by {
                        if has_key(kept@, entry.key@) {
                            let x = place_of(kept@, entry.key@);
                            let y = choose|y: int| 0 <= y < j && #[trigger] orig[y] == kept[x];
                            assert(orig[y].key@ != orig[j].key@);
                        }
                    }
                    lemma_as_map_push(kept@, entry);
                    let after = kept@.push(entry);
                    assert forall|y: int|
                        0 <= y < j + 1 && !doomed(
                            (#[trigger] orig[y]).key@,
                            orig[y]@,
                            only,
                            now,
                            ttl,
                        ) implies has_key(after, orig[y].key@) by {
                        if y < j {
                            let x = place_of(kept@, orig[y].key@);
                            assert(after[x].key@ == orig[y].key@);
                        } else {
                            assert(after[kept.len() as int].key@ == orig[y].key@);
                        }
                    }
                    assert forall|x: int| 0 <= x < after.len() implies !doomed(
                        (#[trigger] after[x]).key@,
                        after[x]@,
                        only,
                        now,
                        ttl,
                    ) && exists|y: int| 0 <= y < j + 1 && #[trigger] orig[y] == after[x] by {
                        if x < kept.len() {
                            let y = choose|y: int| 0 <= y < j && #[trigger] orig[y] == kept[x];
                            assert(orig[y] == after[x]);
                        } else {
                            assert(orig[j] == after[x]);
                        }
                    }
                }
                kept.push(entry);
            }
        }
        proof {
            let m = as_map(orig);
            let left = after_sweep(m, only, now, ttl);
            assert forall|key: KeyView| as_map(kept@).contains_key(key) implies left.contains_key(
                key,
            ) && left[key] == as_map(kept@)[key] by {
                let x = place_of(kept@, key);
                lemma_as_map_entry(kept@, x);
                let y = choose|y: int| 0 <= y < orig.len() && #[trigger] orig[y] == kept@[x];
                lemma_as_map_entry(orig, y);
            }
            assert forall|key: KeyView| left.contains_key(key) implies as_map(kept@).contains_key(
                key,
            ) by {
                let y = place_of(orig, key);
                lemma_as_map_entry(orig, y);
            }
            assert(as_map(kept@) =~= left);
            lemma_as_map_len(kept@);
            assert forall|a: int, b: int| 0 <= a < b < gone.len() implies (#[trigger] gone[a])@ != (
            #[trigger] gone[b])@ by {
                assert(orig[from[a]].key@ != orig[from[b]].key@);
            }
            assert forall|i: int| 0 <= i < gone.len() implies m.contains_key((#[trigger] gone[i])@)
                && doomed(gone[i]@, m[gone[i]@], only, now, ttl) by {
                lemma_as_map_entry(orig, from[i]);
            }
            assert forall|key: KeyView| #[trigger]
                m.contains_key(key) && doomed(key, m[key], only, now, ttl) implies exists|i: int|
                0 <= i < gone.len() && (#[trigger] gone[i])@ == key by {
                let y = place_of(orig, key);
                lemma_as_map_entry(orig, y);
                let x = choose|x: int| 0 <= x < from.len() && #[trigger] from[x] == y;
                assert(gone[x]@ == key);
            }
        }
        self.entries = kept;
        gone
    }

    /// Removes every listing of item type `defindex` that is older than `ttl`
    /// at `now`, and leaves every other listing as it is. Returns the
    /// identities of the listings that were removed.
    pub fn evict_stale(&mut self, defindex: u64, now: u64, ttl: u64) -> (gone: Vec<ListingKey>)
        ensures
            final(self)@ == after_sweep(old(self)@, Some(defindex), now, ttl),
            names_evicted(gone@, old(self)@, Some(defindex), now, ttl),
            old(self)@.dom().finite(),
            final(self)@.dom().finite(),
            gone.len() == old(self)@.dom().len() - final(self)@.dom().len(),
    {
        self.sweep(Some(defindex), now, ttl)
    }

    /// The listings of item type `defindex`, in no particular order. Reads only.
    pub fn listings_of(&self, defindex: u64) -> (result: Vec<UniversalListing>)
        ensures
            lists_item_type(result@, self@, defindex),
    {
        proof {
            use_type_invariant(self);
        }
        let mut result: Vec<UniversalListing> = Vec::new();
        let ghost mut from: Seq<int> = Seq::empty();
        let mut i: usize = 0;
        while i < self.entries.len()
            invariant
                i <= self.entries.len(),
                distinct_keys(self.entries@),
                from.len() == result.len(),
                forall|x: int|
                    0 <= x < result.len() ==> 0 <= #[trigger] from[x] < i && result[x]
                        == self.entries[from[x]] && result[x].key.defindex == defindex,
                forall|x: int, y: int| 0 <= x < y < from.len() ==> from[x] < from[y],
                forall|k: int|
                    0 <= k < i && (#[trigger] self.entries[k]).key.defindex == defindex
                        ==> has_key(result@, self.entries[k].key@),
            decreases self.entries.len() - i,
        {
            if self.entries[i].key.defindex == defindex {
                let listing = self.entries[i].clone();
                proof {
                    let after = result@.push(listing);
                    assert forall|k: int|
                        0 <= k < i + 1 && (#[trigger] self.entries[k]).key.defindex
                            == defindex implies has_key(after, self.entries[k].key@) by {
                        if k < i {
                            let x = place_of(result@, self.entries[k].key@);
                            assert(after[x].key@ == self.entries[k].key@);
                        } else {
                            assert(after[result.len() as int].key@ == self.entries[k].key@);
                        }
                    }
                    from = from.push(i as int);
                }
                result.push(listing);
            }
            i += 1;
        }
        proof {
            let entries = self.entries@;
            assert(distinct_keys(result@)) by {
                assert forall|x: int, y: int| 0 <= x < y < result.len() implies (
                #[trigger] result[x]).key@ != (#[trigger] result[y]).key@ by {
                    assert(entries[from[x]].key@ != entries[from[y]].key@);
                }
            }
            assert forall|x: int| 0 <= x < result.len() implies {
                &&& (#[trigger] result[x]).key@.0 == defindex
                &&& self@.contains_key(result[x].key@)
                &&& self@[result[x].key@] == result[x]@
            } by {
                lemma_as_map_entry(entries, from[x]);
            }
            assert forall|key: KeyView| #[trigger]
                self@.contains_key(key) && key.0 == defindex implies has_key(result@, key) by {
                let k = place_of(entries, key);
                assert(entries[k].key.defindex == defindex);
            }
        }
        result
    }

    /// The listings of item type `defindex` that are not older than `ttl` at
    /// `now`. Those that are older are removed from the store before the rest
    /// is returned: a query is not read-only.
    pub fn query_by_item_type(&mut self, defindex: u64, now: u64, ttl: u64) -> (result: Vec<
        UniversalListing,
    >)
        ensures
            final(self)@ == after_sweep(old(self)@, Some(defindex), now, ttl),
            lists_item_type(result@, final(self)@, defindex),
    {
        self.sweep(Some(defindex), now, ttl);
        self.listings_of(defindex)
    }

    /// The listings of item type `defindex` that were bumped within the last
    /// three days; older ones are removed from the store.
    pub fn get_item_listings(&mut self, defindex: u32, now: u64) -> (result: Vec<UniversalListing>)
        ensures
            final(self)@ == after_sweep(old(self)@, Some(defindex as u64), now, READ_TTL),
            lists_item_type(result@, final(self)@, defindex as u64),
    {
        self.query_by_item_type(defindex as u64, now, READ_TTL)
    }

    /// Removes every listing, of whatever item type, that was not bumped
    /// within the last day. Returns the identities of the listings that were
    /// removed.
    pub fn scan_for_old_listings(&mut self, now: u64) -> (gone: Vec<ListingKey>)
        ensures
            final(self)@ == after_sweep(old(self)@, None, now, SWEEP_TTL),
            names_evicted(gone@, old(self)@, None, now, SWEEP_TTL),
            old(self)@.dom().finite(),
            final(self)@.dom().finite(),
            gone.len() == old(self)@.dom().len() - final(self)@.dom().len(),
    {
        self.sweep(None, now, SWEEP_TTL)
    }

    /// Applies deletion events in order. Returns how many of them found the
    /// listing they name.
    pub fn handle_delete_events(&mut self, listings: Vec<EventListingDeletion>) -> (deleted: usize)
        ensures
            final(self)@ == after_deletes(old(self)@, listings@),
            deleted == removed_by(old(self)@, listings@),
    {
        let ghost m0 = self@;
        let ghost orig = listings@;
        assert(orig.len() == listings.len());
        let mut deleted: usize = 0;
        assert(orig.subrange(0, 0) =~= Seq::<EventListingDeletion>::empty());
        for event in it: listings.into_iter()
            invariant
                it.seq() == orig,
                orig.len() <= usize::MAX,
                self@ == after_deletes(m0, orig.subrange(0, it.index() as int)),
                deleted == removed_by(m0, orig.subrange(0, it.index() as int)),
                deleted <= it.index(),
        {
            proof {
                let j = it.index() as int;
                let next = orig.subrange(0, j + 1);
                assert(next.drop_last() =~= orig.subrange(0, j));
                assert(next.last() == event);
            }
            let key = event.key();
            if self.delete(&key) {
                deleted += 1;
            }
        }
        assert(orig.subrange(0, orig.len() as int) =~= orig);
        deleted
    }

    /// Writes records of the event stream, each as its canonical listing, in
    /// order. Returns how many of them changed a listing and how many added one.
    pub fn update_listings_from_websocket(&mut self, listings: Vec<EventListing>) -> (count:
        UpsertCount)
        ensures
            final(self)@ == after_upserts(old(self)@, event_views(listings@)),
            count.created == created_by(old(self)@, event_views(listings@)),
            count.updated + count.created == listings.len(),
    {
        let ghost m0 = self@;
        let ghost orig = listings@;
        let ghost views = event_views(orig);
        assert(orig.len() == listings.len());
        let mut count = UpsertCount { updated: 0, created: 0 };
        assert(views.subrange(0, 0) =~= Seq::<ListingView>::empty());
        for record in it: listings.into_iter()
            invariant
                it.seq() == orig,
                orig.len() <= usize::MAX,
                views == event_views(orig),
                self@ == after_upserts(m0, views.subrange(0, it.index() as int)),
                count.created == created_by(m0, views.subrange(0, it.index() as int)),
                count.updated + count.created == it.index(),
        {
            proof {
                let j = it.index() as int;
                let next = views.subrange(0, j + 1);
                assert(next.drop_last() =~= views.subrange(0, j));
                assert(next.last() == UniversalListing::of_event(record));
            }
            let listing = UniversalListing::from_event(record);
            if self.upsert(listing) {
                count.updated += 1;
            } else {
                count.created += 1;
            }
        }
        assert(views.subrange(0, orig.len() as int) =~= views);
        count
    }

    /// Writes records of the event stream, each as its canonical listing, in
    /// order.
    pub fn store_listings(&mut self, listings: Vec<EventListing>)
        ensures
            final(self)@ == after_upserts(old(self)@, event_views(listings@)),
    {
        self.update_listings_from_websocket(listings);
    }

    /// Writes the records of a snapshot for the item asked about as `item`,
    /// each as its canonical listing, in order. A record without an identity
    /// is left out, and the records after it are still written.
    pub fn update_listings_from_snapshot(&mut self, listings: Vec<Listing>, item: &str) -> (count:
        SnapshotUpdate)
        ensures
            final(self)@ == after_upserts(old(self)@, snapshot_views(listings@, item@)),
            count.created == created_by(old(self)@, snapshot_views(listings@, item@)),
            count.updated + count.created == snapshot_views(listings@, item@).len(),
            count.updated + count.created + count.dropped == listings.len(),
    {
        let ghost m0 = self@;
        let ghost orig = listings@;
        assert(orig.len() == listings.len());
        let mut count = SnapshotUpdate { updated: 0, created: 0, dropped: 0 };
        assert(orig.subrange(0, 0) =~= Seq::<Listing>::empty());
        for record in it: listings.into_iter()
            invariant
                it.seq() == orig,
                orig.len() <= usize::MAX,
                self@ == after_upserts(m0, snapshot_views(orig.subrange(0, it.index() as int), item@)),
                count.created == created_by(
                    m0,
                    snapshot_views(orig.subrange(0, it.index() as int), item@),
                ),
                count.updated + count.created == snapshot_views(
                    orig.subrange(0, it.index() as int),
                    item@,
                ).len(),
                count.updated + count.created + count.dropped == it.index(),
        {
            proof {
                let j = it.index() as int;
                let next = orig.subrange(0, j + 1);
                assert(next.drop_last() =~= orig.subrange(0, j));
                assert(next.last() == record);
                let front = snapshot_views(orig.subrange(0, j), item@);
                if let Ok(v) = UniversalListing::of_snapshot(record, item@) {
                    assert(front.push(v).drop_last() =~= front);
                }
            }
            match UniversalListing::from_snapshot(record, item) {
                Ok(listing) => {
                    if self.upsert(listing) {
                        count.updated += 1;
                    } else {
                        count.created += 1;
                    }
                },
                Err(_) => {
                    count.dropped += 1;
                },
            }
        }
        assert(orig.subrange(0, orig.len() as int) =~= orig);
        count
    }
}

} // verus!
