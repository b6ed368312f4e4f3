//! What the tracking store holds, as a mathematical value, and the laws of
//! tracking and purging.

use crate::persistence::content_hash;
use crate::posts::FileRecord;
use crate::utils::{all_slug_chars, is_slug_char, slug_of};
use vstd::prelude::*;

verus! {

/// The mathematical value of a `PersistentFileInfo`.
pub struct TrackedEntry {
    pub title: Seq<char>,
    pub content_hash: Seq<char>,
    pub updated_at: u64,
    pub created_at: u64,
}

/// A category and a slug: the name of one tracked document.
pub struct TrackingKey {
    pub category: Seq<char>,
    pub slug: Seq<char>,
}

/// An entry with its key, as the tracking file holds them.
pub struct StoredEntry {
    pub key: TrackingKey,
    pub entry: TrackedEntry,
}

impl TrackedEntry {
    /// The entry of a document seen for the first time at `now`.
    pub open spec fn fresh(title: Seq<char>, content_hash: Seq<char>, now: u64) -> TrackedEntry {
        TrackedEntry { title, content_hash, updated_at: now, created_at: now }
    }

    /// The entry after the document was seen again at `now` with the given
    /// digest: touched only when the digest differs from the stored one.
    pub open spec fn refreshed(self, content_hash: Seq<char>, now: u64) -> TrackedEntry {
        if self.content_hash == content_hash {
            self
        } else {
            TrackedEntry { content_hash, updated_at: now, ..self }
        }
    }

    /// Creation does not come after the last change.
    pub open spec fn ordered(self) -> bool {
        self.created_at <= self.updated_at
    }
}

/// The mathematical value of a `TrackingInfo`: the entries by key, the
/// keys in the order in which they were first tracked, and the keys seen
/// during the current run.
pub struct TrackingStore {
    pub order: Seq<TrackingKey>,
    pub entries: Map<TrackingKey, TrackedEntry>,
    pub seen: Set<TrackingKey>,
}

impl TrackingStore {
    /// The store that tracks nothing.
    pub open spec fn empty() -> TrackingStore {
        TrackingStore { order: Seq::empty(), entries: Map::empty(), seen: Set::empty() }
    }

    /// Each key is listed once, the listed keys are those with an entry, and
    /// only keys with an entry were seen.
    pub open spec fn valid(self) -> bool {
        &&& self.order.no_duplicates()
        &&& forall|key: TrackingKey| self.entries.dom().contains(key) <==> self.order.contains(key)
        &&& self.seen.subset_of(self.entries.dom())
    }

    /// The entry that stands under `key` once it was resolved at `now`.
    pub open spec fn resolved_entry(
        self,
        key: TrackingKey,
        title: Seq<char>,
        content_hash: Seq<char>,
        now: u64,
    ) -> TrackedEntry {
        if self.entries.dom().contains(key) {
            self.entries[key].refreshed(content_hash, now)
        } else {
            TrackedEntry::fresh(title, content_hash, now)
        }
    }

    /// The store after `key`, not yet seen in this run, was resolved at `now`.
    pub open spec fn resolve(
        self,
        key: TrackingKey,
        title: Seq<char>,
        content_hash: Seq<char>,
        now: u64,
    ) -> TrackingStore {
        TrackingStore {
            order: if self.entries.dom().contains(key) {
                self.order
            } else {
                self.order.push(key)
            },
            entries: self.entries.insert(
                key,
                self.resolved_entry(key, title, content_hash, now),
            ),
            seen: self.seen.insert(key),
        }
    }

    /// The store without the entries that were not seen in this run.
    pub open spec fn purge(self) -> TrackingStore {
        TrackingStore {
            order: self.order.filter(|key: TrackingKey| self.seen.contains(key)),
            entries: self.entries.restrict(self.seen),
            seen: self.seen,
        }
    }

    /// Whether a document cannot be tracked any more in this run, its key
    /// having been seen already.
    pub open spec fn refuses(self, record: FileRecord) -> bool {
        self.seen.contains(tracking_key(record))
    }

    /// The same store at the start of the next run: nothing seen yet.
    pub open spec fn next_run(self) -> TrackingStore {
        TrackingStore { seen: Set::empty(), ..self }
    }

    /// The store after the document `record` was tracked at `now`.
    pub open spec fn track(self, record: FileRecord, now: u64) -> TrackingStore {
        self.resolve(tracking_key(record), record.title, content_hash(record.content), now)
    }

    /// When the document `record`, tracked at `now`, was created and when it
    /// last changed.
    pub open spec fn stamps(self, record: FileRecord, now: u64) -> (u64, u64) {
        let entry = self.resolved_entry(
            tracking_key(record),
            record.title,
            content_hash(record.content),
            now,
        );
        (entry.created_at, entry.updated_at)
    }

    /// The store after an entry of an earlier run was put back under a key
    /// that had none.
    pub open spec fn restore(self, key: TrackingKey, entry: TrackedEntry) -> TrackingStore {
        TrackingStore {
            order: self.order.push(key),
            entries: self.entries.insert(key, entry),
            seen: self.seen,
        }
    }

    /// The store that a tracking file gives when it is read: its entries
    /// in their order, none of them seen. A key that occurs a second time
    /// is a fault, and the first such key is the one named.
    pub open spec fn load(stored: Seq<StoredEntry>) -> Result<TrackingStore, TrackingKey>
        decreases stored.len(),
    {
        if stored.len() == 0 {
            Ok(TrackingStore::empty())
        } else {
            match TrackingStore::load(stored.drop_last()) {
                Ok(store) => if store.entries.dom().contains(stored.last().key) {
                    Err(stored.last().key)
                } else {
                    Ok(store.restore(stored.last().key, stored.last().entry))
                },
                Err(key) => Err(key),
            }
        }
    }

    /// What is written to the tracking file: every entry with its key, in
    /// the order of the store.
    pub open spec fn stored(self) -> Seq<StoredEntry> {
        self.order.map_values(|key: TrackingKey| StoredEntry { key, entry: self.entries[key] })
    }

    /// The categories, each once, in the order in which they first occur.
    pub open spec fn categories(self) -> Seq<Seq<char>> {
        distinct(self.order.map_values(|key: TrackingKey| key.category))
    }

    /// The keys of one category, in the order of the store.
    pub open spec fn category_keys(self, category: Seq<char>) -> Seq<TrackingKey> {
        self.order.filter(|key: TrackingKey| key.category == category)
    }

    /// The entries of one category, in the order of the store.
    pub open spec fn category_entries(self, category: Seq<char>) -> Seq<TrackedEntry> {
        self.category_keys(category).map_values(|key: TrackingKey| self.entries[key])
    }

    /// No entry was created after it was last changed.
    pub open spec fn timestamps_ordered(self) -> bool {
        forall|key: TrackingKey| #[trigger]
            self.entries.dom().contains(key) ==> self.entries[key].ordered()
    }
}

/// The key under which a document is tracked: the slug of its directory
/// and the slug of its title.
pub open spec fn tracking_key(record: FileRecord) -> TrackingKey {
    TrackingKey { category: slug_of(record.dir), slug: slug_of(record.title) }
}

/// A key written as one text: category, a colon, slug.
pub open spec fn joined_key(key: TrackingKey) -> Seq<char> {
    key.category + seq![':'] + key.slug
}

/// The elements of a list, each once, in the order in which they first
/// occur.
pub open spec fn distinct<A>(list: Seq<A>) -> Seq<A>
    decreases list.len(),
{
    if list.len() == 0 {
        list
    } else {
        let head = distinct(list.drop_last());
        if head.contains(list.last()) {
            head
        } else {
            head.push(list.last())
        }
    }
}

/// Once a document was tracked, the store refuses every document of the
/// same directory and title for the rest of the run.
pub proof fn lemma_second_resolve_refused(
    store: TrackingStore,
    first: FileRecord,
    second: FileRecord,
    now: u64,
)
    requires
        first.dir == second.dir,
        first.title == second.title,
    ensures
        store.track(first, now).refuses(second),
{
}

/// A document that is tracked again with the content it had keeps both its
/// time of creation and its time of change, and its entry stays as it was.
pub proof fn lemma_unchanged_content_keeps_stamps(
    store: TrackingStore,
    record: FileRecord,
    now: u64,
)
    requires
        store.entries.dom().contains(tracking_key(record)),
        store.entries[tracking_key(record)].content_hash == content_hash(record.content),
    ensures
        store.stamps(record, now) == (
            store.entries[tracking_key(record)].created_at,
            store.entries[tracking_key(record)].updated_at,
        ),
        store.track(record, now).entries[tracking_key(record)] == store.entries[tracking_key(
            record,
        )],
{
}

/// A document that is tracked again with a content of another digest keeps
/// its time of creation, gets `now` as its time of change, and the new
/// digest is remembered.
pub proof fn lemma_changed_content_advances(store: TrackingStore, record: FileRecord, now: u64)
    requires
        store.entries.dom().contains(tracking_key(record)),
        store.entries[tracking_key(record)].content_hash != content_hash(record.content),
    ensures
        store.stamps(record, now) == (store.entries[tracking_key(record)].created_at, now),
        store.track(record, now).entries[tracking_key(record)] == (TrackedEntry {
            content_hash: content_hash(record.content),
            updated_at: now,
            ..store.entries[tracking_key(record)]
        }),
{
}

/// A document that the store does not know is entered as created and
/// changed at `now`, at the end of the order.
pub proof fn lemma_new_document_created(store: TrackingStore, record: FileRecord, now: u64)
    requires
        !store.entries.dom().contains(tracking_key(record)),
    ensures
        store.stamps(record, now) == (now, now),
        store.track(record, now).entries[tracking_key(record)] == TrackedEntry::fresh(
            record.title,
            content_hash(record.content),
            now,
        ),
        store.track(record, now).order == store.order.push(tracking_key(record)),
{
}

/// Tracking one document leaves the entry of every other key as it was.
pub proof fn lemma_track_leaves_others(
    store: TrackingStore,
    record: FileRecord,
    now: u64,
    other: TrackingKey,
)
    requires
        other != tracking_key(record),
    ensures
        store.track(record, now).entries.dom().contains(other) == store.entries.dom().contains(
            other,
        ),
        store.entries.dom().contains(other) ==> store.track(record, now).entries[other]
            == store.entries[other],
        store.track(record, now).seen.contains(other) == store.seen.contains(other),
{
}

/// Tracking a document keeps a valid store valid.
pub proof fn lemma_track_valid(store: TrackingStore, record: FileRecord, now: u64)
    requires
        store.valid(),
    ensures
        store.track(record, now).valid(),
{
    let key = tracking_key(record);
    let after = store.track(record, now);
    if store.entries.dom().contains(key) {
        assert(after.order == store.order);
    } else {
        assert(!store.order.contains(key));
        assert forall|i: int, j: int|
            0 <= i < after.order.len() && 0 <= j < after.order.len() && i != j implies after.order[i]
            != after.order[j] by {
            if i < store.order.len() {
                assert(store.order.contains(store.order[i]));
            }
            if j < store.order.len() {
                assert(store.order.contains(store.order[j]));
            }
        }
    }
    assert forall|other: TrackingKey| after.entries.dom().contains(other) <==> after.order.contains(
        other,
    ) by {
        if after.order.contains(other) {
            let i = choose|i: int| 0 <= i < after.order.len() && after.order[i] == other;
            if i < store.order.len() {
                assert(store.order.contains(other));
            }
        }
        if after.entries.dom().contains(other) {
            if other == key {
                if store.entries.dom().contains(key) {
                    assert(store.order.contains(key));
                } else {
                    assert(after.order[store.order.len() as int] == key);
                }
            } else {
                assert(store.order.contains(other));
                let i = choose|i: int| 0 <= i < store.order.len() && store.order[i] == other;
                assert(after.order[i] == other);
            }
        }
    }
}

/// After the purge an entry stands under a key exactly when the key was
/// seen in this run, and every entry that is left is as it was.
pub proof fn lemma_purge_keeps_seen(store: TrackingStore, key: TrackingKey)
    requires
        store.valid(),
    ensures
        store.purge().entries.dom().contains(key) == store.seen.contains(key),
        store.purge().order.contains(key) == store.seen.contains(key),
        store.seen.contains(key) ==> store.purge().entries[key] == store.entries[key],
{
    let keep = |key: TrackingKey| store.seen.contains(key);
    if store.purge().order.contains(key) {
        store.order.lemma_filter_contains_rev(keep, key);
        let i = choose|i: int| 0 <= i < store.purge().order.len() && store.purge().order[i] == key;
        store.order.lemma_filter_pred(keep, i);
    }
    if store.seen.contains(key) {
        assert(store.entries.dom().contains(key));
        assert(store.order.contains(key));
        let i = choose|i: int| 0 <= i < store.order.len() && store.order[i] == key;
        store.order.lemma_filter_contains(keep, i);
    }
}

/// A key that was not seen in this run has no entry after the purge.
pub proof fn lemma_purge_removes_unseen(store: TrackingStore, key: TrackingKey)
    requires
        !store.seen.contains(key),
    ensures
        !store.purge().entries.dom().contains(key),
{
}

/// The purge keeps a valid store valid.
pub proof fn lemma_purge_valid(store: TrackingStore)
    requires
        store.valid(),
    ensures
        store.purge().valid(),
{
    let keep = |key: TrackingKey| store.seen.contains(key);
    lemma_filter_no_duplicates(store.order, keep);
    assert forall|key: TrackingKey| store.purge().entries.dom().contains(key)
        <==> store.purge().order.contains(key) by {
        lemma_purge_keeps_seen(store, key);
    }
}

/// Creation never comes after the last change: tracking keeps this true of
/// every entry, as long as the run does not take place before the
/// creation of a document whose content it finds changed.
pub proof fn lemma_track_keeps_timestamps_ordered(
    store: TrackingStore,
    record: FileRecord,
    now: u64,
)
    requires
        store.timestamps_ordered(),
        store.entries.dom().contains(tracking_key(record)) ==> store.entries[tracking_key(
            record,
        )].created_at <= now,
    ensures
        store.track(record, now).timestamps_ordered(),
{
    let after = store.track(record, now);
    assert forall|key: TrackingKey| #[trigger]
        after.entries.dom().contains(key) implies after.entries[key].ordered() by {
        if key != tracking_key(record) {
            assert(store.entries.dom().contains(key));
        } else if store.entries.dom().contains(key) {
            assert(store.entries[key].ordered());
        }
    }
}

/// The purge leaves creation before the last change in every entry.
pub proof fn lemma_purge_keeps_timestamps_ordered(store: TrackingStore)
    requires
        store.timestamps_ordered(),
    ensures
        store.purge().timestamps_ordered(),
{
    assert forall|key: TrackingKey| #[trigger]
        store.purge().entries.dom().contains(key) implies store.purge().entries[key].ordered() by {
        assert(store.entries.dom().contains(key));
    }
}

/// An entry is left as it was exactly when the document comes with the
/// content it had: the time of change moves if and only if the digest
/// differs from the stored one.
pub proof fn lemma_entry_changes_with_content(store: TrackingStore, record: FileRecord, now: u64)
    requires
        store.entries.dom().contains(tracking_key(record)),
    ensures
        store.track(record, now).entries[tracking_key(record)] == store.entries[tracking_key(
            record,
        )] <==> store.entries[tracking_key(record)].content_hash == content_hash(record.content),
{
}

/// At the start of the next run the store holds what it held, and refuses
/// no document.
pub proof fn lemma_next_run(store: TrackingStore, record: FileRecord)
    ensures
        store.next_run().order == store.order,
        store.next_run().entries == store.entries,
        !store.next_run().refuses(record),
        store.valid() ==> store.next_run().valid(),
{
}

/// An element is among the distinct elements of a list exactly when it is
/// in the list.
pub proof fn lemma_distinct_contains<A>(list: Seq<A>, item: A)
    ensures
        distinct(list).contains(item) <==> list.contains(item),
    decreases list.len(),
{
    if list.len() > 0 {
        let init = list.drop_last();
        let head = distinct(init);
        lemma_distinct_contains(init, item);
        if list.contains(item) {
            let i = choose|i: int| 0 <= i < list.len() && list[i] == item;
            if i < init.len() {
                assert(init[i] == item);
                let j = choose|j: int| 0 <= j < head.len() && head[j] == item;
                assert(distinct(list)[j] == item);
            } else if head.contains(item) {
                let j = choose|j: int| 0 <= j < head.len() && head[j] == item;
                assert(distinct(list)[j] == item);
            } else {
                assert(distinct(list)[head.len() as int] == item);
            }
        }
        if distinct(list).contains(item) {
            let j = choose|j: int| 0 <= j < distinct(list).len() && distinct(list)[j] == item;
            if j < head.len() {
                assert(head[j] == item);
                let i = choose|i: int| 0 <= i < init.len() && init[i] == item;
                assert(list[i] == item);
            } else {
                assert(list[list.len() - 1] == item);
            }
        }
    }
}

/// No element occurs twice among the distinct elements of a list.
pub proof fn lemma_distinct_no_duplicates<A>(list: Seq<A>)
    ensures
        distinct(list).no_duplicates(),
    decreases list.len(),
{
    if list.len() > 0 {
        let head = distinct(list.drop_last());
        lemma_distinct_no_duplicates(list.drop_last());
        if !head.contains(list.last()) {
            assert forall|i: int, j: int|
                0 <= i < distinct(list).len() && 0 <= j < distinct(list).len() && i
                    != j implies distinct(list)[i] != distinct(list)[j] by {
                if i < head.len() {
                    assert(head.contains(head[i]));
                }
                if j < head.len() {
                    assert(head.contains(head[j]));
                }
            }
        }
    }
}

/// The categories of a store are those of its keys, each once.
pub proof fn lemma_categories(store: TrackingStore, category: Seq<char>)
    ensures
        store.categories().no_duplicates(),
        store.categories().contains(category) <==> exists|i: int|
            0 <= i < store.order.len() && (#[trigger] store.order[i]).category == category,
{
    let dirs = store.order.map_values(|key: TrackingKey| key.category);
    lemma_distinct_no_duplicates(dirs);
    lemma_distinct_contains(dirs, category);
    if dirs.contains(category) {
        let i = choose|i: int| 0 <= i < dirs.len() && dirs[i] == category;
        assert(store.order[i].category == category);
    }
    if exists|i: int|
        0 <= i < store.order.len() && (#[trigger] store.order[i]).category == category {
        let i = choose|i: int|
            0 <= i < store.order.len() && (#[trigger] store.order[i]).category == category;
        assert(dirs[i] == category);
    }
}

/// A document that comes back in the next run with the content it had is
/// accepted and keeps both its times.
pub proof fn lemma_unchanged_across_runs(
    store: TrackingStore,
    record: FileRecord,
    first_run: u64,
    second_run: u64,
)
    ensures
        ({
            let next = store.track(record, first_run).purge().next_run();
            &&& !next.refuses(record)
            &&& next.stamps(record, second_run) == store.stamps(record, first_run)
            &&& next.track(record, second_run).entries[tracking_key(record)]
                == next.entries[tracking_key(record)]
        }),
{
}

/// A document that comes back in the next run with a content of another
/// digest is accepted, keeps its time of creation and gets the time of
/// that run as its time of change.
pub proof fn lemma_changed_across_runs(
    store: TrackingStore,
    before: FileRecord,
    after: FileRecord,
    first_run: u64,
    second_run: u64,
)
    requires
        before.dir == after.dir,
        before.title == after.title,
        content_hash(before.content) != content_hash(after.content),
    ensures
        ({
            let next = store.track(before, first_run).purge().next_run();
            &&& !next.refuses(after)
            &&& next.stamps(after, second_run) == (
                store.stamps(before, first_run).0,
                second_run,
            )
        }),
{
}

/// A document that does not come back in the next run has no entry once
/// that run has purged the store.
pub proof fn lemma_removed_across_runs(store: TrackingStore, record: FileRecord, first_run: u64)
    ensures
        !store.track(record, first_run).purge().next_run().purge().entries.dom().contains(
            tracking_key(record),
        ),
{
}

/// The first entries of what a valid store writes give, when they are read,
/// the first entries of the store.
proof fn lemma_load_prefix(store: TrackingStore, n: int)
    requires
        store.valid(),
        0 <= n <= store.order.len(),
    ensures
        TrackingStore::load(store.stored().take(n)) == Ok::<TrackingStore, TrackingKey>(
            TrackingStore {
                order: store.order.take(n),
                entries: store.entries.restrict(store.order.take(n).to_set()),
                seen: Set::empty(),
            },
        ),
    decreases n,
{
    let stored = store.stored();
    if n == 0 {
        assert(stored.take(0) =~= Seq::empty());
        assert(store.order.take(0) =~= Seq::empty());
        assert(store.entries.restrict(store.order.take(0).to_set()) =~= Map::empty());
    } else {
        lemma_load_prefix(store, n - 1);
        assert(stored.take(n).drop_last() =~= stored.take(n - 1));
        assert(stored.take(n).last() == stored[n - 1]);
        let key = store.order[n - 1];
        let before = store.order.take(n - 1);
        assert(!before.to_set().contains(key)) by {
            if before.contains(key) {
                let i = choose|i: int| 0 <= i < before.len() && before[i] == key;
                assert(store.order[i] == store.order[n - 1]);
            }
        }
        assert(store.order.contains(key));
        assert(store.order.take(n) =~= before.push(key));
        assert(store.order.take(n).to_set() =~= before.to_set().insert(key)) by {
            assert forall|other: TrackingKey|
                store.order.take(n).to_set().contains(other) <==> before.to_set().insert(
                    key,
                ).contains(other) by {
                if store.order.take(n).contains(other) {
                    let i = choose|i: int|
                        0 <= i < store.order.take(n).len() && store.order.take(n)[i] == other;
                    if i < n - 1 {
                        assert(before[i] == other);
                    }
                }
                if before.contains(other) {
                    let i = choose|i: int| 0 <= i < before.len() && before[i] == other;
                    assert(store.order.take(n)[i] == other);
                }
                if other == key {
                    assert(store.order.take(n)[n - 1] == key);
                }
            }
        }
        assert(store.entries.restrict(store.order.take(n).to_set()) =~= store.entries.restrict(
            before.to_set(),
        ).insert(key, store.entries[key]));
    }
}

/// What a valid store writes gives, when it is read, the store at the start
/// of the next run.
pub proof fn lemma_load_stored(store: TrackingStore)
    requires
        store.valid(),
    ensures
        TrackingStore::load(store.stored()) == Ok::<TrackingStore, TrackingKey>(store.next_run()),
{
    lemma_load_prefix(store, store.order.len() as int);
    assert(store.stored().take(store.order.len() as int) =~= store.stored());
    assert(store.order.take(store.order.len() as int) =~= store.order);
    assert(store.entries.restrict(store.order.to_set()) =~= store.entries) by {
        assert forall|key: TrackingKey| store.entries.dom().contains(key) implies #[trigger]
            store.order.to_set().contains(key) by {
            assert(store.order.contains(key));
        }
    }
}

/// Two keys made of slug characters are written as the same text only when
/// they are the same key: the colon cannot occur in a slug.
pub proof fn lemma_joined_key_injective(first: TrackingKey, second: TrackingKey)
    requires
        all_slug_chars(first.category),
        all_slug_chars(second.category),
        joined_key(first) == joined_key(second),
    ensures
        first == second,
{
    let a = joined_key(first);
    let b = joined_key(second);
    let n = first.category.len() as int;
    let m = second.category.len() as int;
    assert(a[n] == ':');
    assert(b[m] == ':');
    if n < m {
        assert(b[n] == second.category[n]);
        assert(is_slug_char(second.category[n]));
    }
    if m < n {
        assert(a[m] == first.category[m]);
        assert(is_slug_char(first.category[m]));
    }
    assert(first.category =~= a.subrange(0, n));
    assert(second.category =~= b.subrange(0, m));
    assert(first.slug =~= a.subrange(n + 1, a.len() as int));
    assert(second.slug =~= b.subrange(m + 1, b.len() as int));
}

/// Filtering a list without repetitions leaves one without repetitions.
pub proof fn lemma_filter_no_duplicates<A>(list: Seq<A>, keep: spec_fn(A) -> bool)
    requires
        list.no_duplicates(),
    ensures
        list.filter(keep).no_duplicates(),
    decreases list.len(),
{
    reveal(Seq::filter);
    if list.len() > 0 {
        let init = list.drop_last();
        lemma_filter_no_duplicates(init, keep);
        if keep(list.last()) {
            if init.filter(keep).contains(list.last()) {
                init.lemma_filter_contains_rev(keep, list.last());
                let i = choose|i: int| 0 <= i < init.len() && init[i] == list.last();
                assert(list[i] == list[list.len() - 1]);
            }
        }
    }
}

} // verus!
