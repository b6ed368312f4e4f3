//! The tracking store: which document was first seen when, and when its
//! content last changed, kept from one run to the next.

use crate::posts::{FileData, FileRecord};
use crate::store::{
    distinct, joined_key, lemma_filter_no_duplicates, tracking_key, StoredEntry, TrackedEntry,
    TrackingKey, TrackingStore,
};
use crate::text::texts;
use crate::utils::format_safe_text;
use vstd::prelude::*;

verus! {

/// The number of characters of every content digest.
pub const HASH_WIDTH: usize = 44;

/// The SHA-256 digest of a sequence of bytes.
pub uninterp spec fn sha256(data: Seq<u8>) -> Seq<u8>;

/// The standard, padded base64 encoding of a sequence of bytes.
pub uninterp spec fn base64_standard(data: Seq<u8>) -> Seq<char>;

/// The digest under which a content is remembered: the base64 form of the
/// SHA-256 digest of its UTF-8 bytes.
pub open spec fn content_hash(content: Seq<char>) -> Seq<char> {
    base64_standard(sha256(vstd::utf8::encode_utf8(content)))
}

/// The digest of a content depends on the content alone: equal contents
/// have equal digests, in this run and in any other.
pub proof fn lemma_hash_stable(first: Seq<char>, second: Seq<char>)
    requires
        first == second,
    ensures
        content_hash(first) == content_hash(second),
{
}

/// `Digest::digest` of `sha2::Sha256`. Claimed: the digest depends on the
/// bytes alone and is 32 bytes long.
#[verifier::external_body]
fn sha256_digest(data: &[u8]) -> (digest: Vec<u8>)
    ensures
        digest@ == sha256(data@),
        digest@.len() == 32,
{
    <sha2::Sha256 as sha2::Digest>::digest(data).to_vec()
}

/// `Engine::encode` of `base64::engine::general_purpose::STANDARD`. Claimed:
/// the text depends on the bytes alone and has four characters for every
/// three bytes begun. Left out: lengths whose encoded length does not fit in
/// `usize`, on which the call panics.
#[verifier::external_body]
fn base64_encode(data: &[u8]) -> (text: String)
    requires
        (data@.len() / 3) * 4 + 4 <= usize::MAX,
    ensures
        text@ == base64_standard(data@),
        text@.len() == 4 * ((data@.len() + 2) / 3),
{
    base64::Engine::encode(&base64::engine::general_purpose::STANDARD, data)
}

/// The digest of a content, as the store remembers it.
pub fn hash_text(text: &str) -> (hash: String)
    ensures
        hash@ == content_hash(text@),
        hash@.len() == HASH_WIDTH,
{
    let digest = sha256_digest(text.as_bytes());
    base64_encode(digest.as_slice())
}

/// `std::time::SystemTime`, a point in time as the system clock counts it.
/// Nothing is known of what a value holds.
#[verifier::external_type_specification]
#[verifier::external_body]
pub struct ExSystemTime(std::time::SystemTime);

/// `std::time::SystemTimeError`, with which `SystemTime::duration_since`
/// answers for a time that lies before the one it is measured from.
#[verifier::external_type_specification]
#[verifier::external_body]
pub struct ExSystemTimeError(std::time::SystemTimeError);

/// `SystemTime::now` of the standard library. Nothing is claimed of the
/// time it returns.
pub assume_specification[ std::time::SystemTime::now ]() -> (now: std::time::SystemTime);

/// `SystemTime::duration_since` of the standard library. Nothing is claimed
/// of its result.
pub assume_specification[ std::time::SystemTime::duration_since ](
    time: &std::time::SystemTime,
    earlier: std::time::SystemTime,
) -> (elapsed: Result<std::time::Duration, std::time::SystemTimeError>);

/// `Duration::as_secs` of the standard library. Nothing is claimed of its
/// result.
pub assume_specification[ std::time::Duration::as_secs ](
    duration: &std::time::Duration,
) -> (seconds: u64);

/// The start of the Unix epoch: the constant `std::time::UNIX_EPOCH` of
/// the standard library. Nothing is claimed of it.
#[verifier::external_body]
fn unix_epoch() -> (epoch: std::time::SystemTime) {
    std::time::UNIX_EPOCH
}

/// The whole seconds from the Unix epoch to `time`, or `None` for a time
/// before the epoch.
///
/// A `SystemTime` shows nothing of itself to the verifier, and both the
/// distance from the epoch and its seconds come from the standard library:
/// nothing is promised of the result. What is done with a time is stated
/// where the time is taken as a number, in [`TrackingInfo::track_file_at`].
pub fn system_time_to_timestamp(time: std::time::SystemTime) -> (seconds: Option<u64>) {
    match time.duration_since(unix_epoch()) {
        Ok(elapsed) => Some(elapsed.as_secs()),
        Err(_) => None,
    }
}

/// The current time in seconds since the Unix epoch, or `None` when the
/// system clock stands before the epoch.
///
/// The result is what the system clock shows at the moment of the call: two
/// calls may differ, and nothing is promised of either.
pub fn get_timestamp() -> (seconds: Option<u64>) {
    system_time_to_timestamp(std::time::SystemTime::now())
}

/// What is remembered of one document.
pub struct PersistentFileInfo {
    /// The title as written, before it was made safe.
    pub title: String,
    /// The digest of the content, in printable form.
    pub content_hash: String,
    /// When the content last changed, in seconds since the Unix epoch.
    pub updated_at: u64,
    /// When the document was first seen, in seconds since the Unix epoch.
    pub created_at: u64,
}

impl View for PersistentFileInfo {
    type V = TrackedEntry;

    open spec fn view(&self) -> TrackedEntry {
        TrackedEntry {
            title: self.title@,
            content_hash: self.content_hash@,
            updated_at: self.updated_at,
            created_at: self.created_at,
        }
    }
}

impl Clone for PersistentFileInfo {
    fn clone(&self) -> (copy: Self)
        ensures
            copy@ == self@,
    {
        PersistentFileInfo {
            title: self.title.clone(),
            content_hash: self.content_hash.clone(),
            updated_at: self.updated_at,
            created_at: self.created_at,
        }
    }
}

/// The values of a list of entries.
pub open spec fn entries_of(list: Seq<PersistentFileInfo>) -> Seq<TrackedEntry> {
    list.map_values(|info: PersistentFileInfo| info@)
}

/// Why a document could not be tracked.
pub enum TrackError {
    /// A document with the same category and slug was already tracked in
    /// this run.
    DuplicateKey { category: String, slug: String },
    /// The system clock stands before the Unix epoch.
    ClockBeforeEpoch,
}

/// One tracked document as the store holds it.
struct TrackedFile {
    dir_key: String,
    file_key: String,
    seen: bool,
    info: PersistentFileInfo,
}

impl TrackedFile {
    spec fn key(self) -> TrackingKey {
        TrackingKey { category: self.dir_key@, slug: self.file_key@ }
    }
}

spec fn keys_of(files: Seq<TrackedFile>) -> Seq<TrackingKey> {
    files.map_values(|file: TrackedFile| file.key())
}

spec fn store_of(files: Seq<TrackedFile>) -> TrackingStore {
    TrackingStore {
        order: keys_of(files),
        entries: Map::new(
            |key: TrackingKey| keys_of(files).contains(key),
            |key: TrackingKey| files[keys_of(files).index_of(key)].info@,
        ),
        seen: Set::new(
            |key: TrackingKey|
                exists|i: int| 0 <= i < files.len() && #[trigger] files[i].key() == key && files[i].seen,
        ),
    }
}

/// In a list without repeated keys, a key is found where it stands.
proof fn lemma_index_of_key(files: Seq<TrackedFile>, i: int)
    requires
        keys_of(files).no_duplicates(),
        0 <= i < files.len(),
    ensures
        keys_of(files).contains(files[i].key()),
        keys_of(files).index_of(files[i].key()) == i,
        store_of(files).entries.dom().contains(files[i].key()),
        store_of(files).entries[files[i].key()] == files[i].info@,
{
    let keys = keys_of(files);
    assert(keys[i] == files[i].key());
    let j = keys.index_of(files[i].key());
    assert(0 <= j < keys.len() && keys[j] == files[i].key());
}

proof fn lemma_store_valid(files: Seq<TrackedFile>)
    requires
        keys_of(files).no_duplicates(),
    ensures
        store_of(files).valid(),
{
    let store = store_of(files);
    assert forall|key: TrackingKey| store.seen.contains(key) implies store.entries.dom().contains(
        key,
    ) by {
        let i = choose|i: int| 0 <= i < files.len() && #[trigger] files[i].key() == key && files[i].seen;
        lemma_index_of_key(files, i);
    }
}

/// Adding a file under a key that is not held yet.
proof fn lemma_push_file(files: Seq<TrackedFile>, file: TrackedFile)
    requires
        keys_of(files).no_duplicates(),
        !keys_of(files).contains(file.key()),
        file.seen,
    ensures
        keys_of(files.push(file)).no_duplicates(),
        store_of(files.push(file)).order == store_of(files).order.push(file.key()),
        store_of(files.push(file)).entries == store_of(files).entries.insert(file.key(), file.info@),
        store_of(files.push(file)).seen == store_of(files).seen.insert(file.key()),
{
    let after = files.push(file);
    assert(keys_of(after) =~= keys_of(files).push(file.key()));
    assert(keys_of(after).no_duplicates());
    assert forall|key: TrackingKey| #[trigger]
        store_of(after).entries.dom().contains(key) implies store_of(after).entries[key]
        == store_of(files).entries.insert(file.key(), file.info@)[key] by {
        let j = keys_of(after).index_of(key);
        assert(0 <= j < after.len() && keys_of(after)[j] == key);
        lemma_index_of_key(after, j);
        if j < files.len() {
            assert(keys_of(files)[j] == key);
            lemma_index_of_key(files, j);
        }
    }
    assert forall|key: TrackingKey|
        store_of(files).entries.insert(file.key(), file.info@).dom().contains(key)
        implies #[trigger] store_of(after).entries.dom().contains(key) by {
        if key == file.key() {
            assert(keys_of(after)[files.len() as int] == key);
        } else {
            let j = keys_of(files).index_of(key);
            assert(keys_of(after)[j] == key);
        }
    }
    assert(store_of(after).entries =~= store_of(files).entries.insert(file.key(), file.info@));
    assert forall|key: TrackingKey|
        store_of(after).seen.contains(key) <==> store_of(files).seen.insert(file.key()).contains(
            key,
        ) by {
        if store_of(after).seen.contains(key) {
            let i = choose|i: int| 0 <= i < after.len() && #[trigger] after[i].key() == key && after[i].seen;
            if i < files.len() {
                assert(files[i].key() == key && files[i].seen);
            }
        }
        if store_of(files).seen.insert(file.key()).contains(key) {
            if key == file.key() {
                assert(after[files.len() as int].key() == key && after[files.len() as int].seen);
            } else {
                let i = choose|i: int| 0 <= i < files.len() && #[trigger] files[i].key() == key && files[i].seen;
                assert(after[i].key() == key && after[i].seen);
            }
        }
    }
    assert(store_of(after).seen =~= store_of(files).seen.insert(file.key()));
}

/// Replacing the file that stands at `i` by one with the same key that was
/// seen.
proof fn lemma_update_file(files: Seq<TrackedFile>, i: int, file: TrackedFile)
    requires
        keys_of(files).no_duplicates(),
        0 <= i < files.len(),
        file.key() == files[i].key(),
        file.seen,
    ensures
        keys_of(files.update(i, file)) == keys_of(files),
        store_of(files.update(i, file)).order == store_of(files).order,
        store_of(files.update(i, file)).entries == store_of(files).entries.insert(
            file.key(),
            file.info@,
        ),
        store_of(files.update(i, file)).seen == store_of(files).seen.insert(file.key()),
{
    let after = files.update(i, file);
    assert(keys_of(after) =~= keys_of(files));
    assert forall|key: TrackingKey| #[trigger]
        store_of(after).entries.dom().contains(key) implies store_of(after).entries[key]
        == store_of(files).entries.insert(file.key(), file.info@)[key] by {
        let j = keys_of(after).index_of(key);
        assert(0 <= j < after.len() && keys_of(after)[j] == key);
        lemma_index_of_key(after, j);
        lemma_index_of_key(files, j);
        lemma_index_of_key(files, i);
    }
    lemma_index_of_key(files, i);
    assert(store_of(after).entries =~= store_of(files).entries.insert(file.key(), file.info@));
    assert forall|key: TrackingKey|
        store_of(after).seen.contains(key) <==> store_of(files).seen.insert(file.key()).contains(
            key,
        ) by {
        if store_of(after).seen.contains(key) {
            let j = choose|j: int| 0 <= j < after.len() && #[trigger] after[j].key() == key && after[j].seen;
            if j != i {
                assert(files[j].key() == key && files[j].seen);
            }
        }
        if store_of(files).seen.insert(file.key()).contains(key) {
            if key == file.key() {
                assert(after[i].key() == key && after[i].seen);
            } else {
                let j = choose|j: int| 0 <= j < files.len() && #[trigger] files[j].key() == key && files[j].seen;
                assert(after[j].key() == key && after[j].seen);
            }
        }
    }
    assert(store_of(after).seen =~= store_of(files).seen.insert(file.key()));
}

/// The files that were seen, in their order.
spec fn seen_files(files: Seq<TrackedFile>) -> Seq<TrackedFile> {
    files.filter(|file: TrackedFile| file.seen)
}

/// Keeping the seen files keeps exactly the keys that a set holds, when the
/// set holds the keys of the seen files and no other key of the list.
proof fn lemma_seen_keys(files: Seq<TrackedFile>, seen: Set<TrackingKey>)
    requires
        forall|i: int|
            0 <= i < files.len() ==> (seen.contains(#[trigger] files[i].key()) <==> files[i].seen),
    ensures
        keys_of(seen_files(files)) == keys_of(files).filter(|key: TrackingKey| seen.contains(key)),
    decreases files.len(),
{
    reveal(Seq::filter);
    if files.len() > 0 {
        let init = files.drop_last();
        let last = files.last();
        assert forall|i: int| 0 <= i < init.len() implies (seen.contains(#[trigger] init[i].key())
            <==> init[i].seen) by {
            assert(init[i] == files[i]);
        }
        lemma_seen_keys(init, seen);
        assert(keys_of(files).drop_last() =~= keys_of(init));
        assert(keys_of(files).last() == last.key());
        assert(seen.contains(files[files.len() - 1].key()) <==> last.seen);
        if last.seen {
            assert(keys_of(seen_files(init).push(last)) =~= keys_of(seen_files(init)).push(
                last.key(),
            ));
        }
    } else {
        assert(keys_of(seen_files(files)) =~= Seq::empty());
    }
}

/// Every kept file stands in the list, and every seen file is kept.
proof fn lemma_seen_files_members(files: Seq<TrackedFile>)
    ensures
        forall|j: int|
            0 <= j < seen_files(files).len() ==> (#[trigger] seen_files(files)[j]).seen
                && files.contains(seen_files(files)[j]),
        forall|i: int|
            0 <= i < files.len() && files[i].seen ==> seen_files(files).contains(
                #[trigger] files[i],
            ),
{
    let pred = |file: TrackedFile| file.seen;
    assert forall|j: int| 0 <= j < seen_files(files).len() implies (#[trigger] seen_files(
        files,
    )[j]).seen && files.contains(seen_files(files)[j]) by {
        files.lemma_filter_pred(pred, j);
        assert(files.filter(pred).contains(files.filter(pred)[j]));
        files.lemma_filter_contains_rev(pred, files.filter(pred)[j]);
    }
    assert forall|i: int| 0 <= i < files.len() && files[i].seen implies seen_files(
        files,
    ).contains(#[trigger] files[i]) by {
        files.lemma_filter_contains(pred, i);
    }
}

/// Dropping the files that were not seen purges the store.
proof fn lemma_purge(files: Seq<TrackedFile>)
    requires
        keys_of(files).no_duplicates(),
    ensures
        keys_of(seen_files(files)).no_duplicates(),
        store_of(seen_files(files)) == store_of(files).purge(),
{
    let store = store_of(files);
    let kept = seen_files(files);
    assert forall|i: int| 0 <= i < files.len() implies (store.seen.contains(
        #[trigger] files[i].key(),
    ) <==> files[i].seen) by {
        if store.seen.contains(files[i].key()) {
            let j = choose|j: int|
                0 <= j < files.len() && #[trigger] files[j].key() == files[i].key()
                    && files[j].seen;
            lemma_index_of_key(files, i);
            lemma_index_of_key(files, j);
        }
    }
    lemma_seen_keys(files, store.seen);
    let keep = |key: TrackingKey| store.seen.contains(key);
    assert(keys_of(kept) == keys_of(files).filter(keep));
    lemma_filter_no_duplicates(keys_of(files), keep);
    lemma_seen_files_members(files);
    assert forall|key: TrackingKey|
        store_of(kept).entries.dom().contains(key) <==> store.entries.restrict(
            store.seen,
        ).dom().contains(key) by {
        if store_of(kept).entries.dom().contains(key) {
            let j = keys_of(kept).index_of(key);
            assert(0 <= j < kept.len() && keys_of(kept)[j] == key);
            assert(kept[j].seen && files.contains(kept[j]));
            let i = choose|i: int| 0 <= i < files.len() && files[i] == kept[j];
            assert(files[i].key() == key);
            lemma_index_of_key(files, i);
        }
        if store.entries.restrict(store.seen).dom().contains(key) {
            let i = choose|i: int|
                0 <= i < files.len() && #[trigger] files[i].key() == key && files[i].seen;
            assert(kept.contains(files[i]));
            let j = choose|j: int| 0 <= j < kept.len() && kept[j] == files[i];
            assert(keys_of(kept)[j] == key);
        }
    }
    assert forall|key: TrackingKey| #[trigger]
        store_of(kept).entries.dom().contains(key) implies store_of(kept).entries[key]
        == store.entries.restrict(store.seen)[key] by {
        let j = keys_of(kept).index_of(key);
        assert(0 <= j < kept.len() && keys_of(kept)[j] == key);
        lemma_index_of_key(kept, j);
        assert(files.contains(kept[j]));
        let i = choose|i: int| 0 <= i < files.len() && files[i] == kept[j];
        lemma_index_of_key(files, i);
    }
    assert(store_of(kept).entries =~= store.entries.restrict(store.seen));
    assert forall|key: TrackingKey| store_of(kept).seen.contains(key) <==> store.seen.contains(
        key,
    ) by {
        if store_of(kept).seen.contains(key) {
            let j = choose|j: int|
                0 <= j < kept.len() && #[trigger] kept[j].key() == key && kept[j].seen;
            assert(files.contains(kept[j]));
            let i = choose|i: int| 0 <= i < files.len() && files[i] == kept[j];
            assert(files[i].key() == key && files[i].seen);
        }
        if store.seen.contains(key) {
            let i = choose|i: int|
                0 <= i < files.len() && #[trigger] files[i].key() == key && files[i].seen;
            assert(kept.contains(files[i]));
            let j = choose|j: int| 0 <= j < kept.len() && kept[j] == files[i];
            assert(kept[j].key() == key && kept[j].seen);
        }
    }
    assert(store_of(kept).seen =~= store.seen);
}

/// Adding a file of an earlier run under a key that is not held yet.
proof fn lemma_restore_file(files: Seq<TrackedFile>, file: TrackedFile)
    requires
        keys_of(files).no_duplicates(),
        !keys_of(files).contains(file.key()),
        !file.seen,
    ensures
        keys_of(files.push(file)).no_duplicates(),
        store_of(files.push(file)) == store_of(files).restore(file.key(), file.info@),
{
    let after = files.push(file);
    let seen_file = TrackedFile { seen: true, ..file };
    assert(keys_of(after) =~= keys_of(files).push(file.key()));
    assert(keys_of(after) =~= keys_of(files.push(seen_file)));
    lemma_push_file(files, seen_file);
    assert(store_of(after).entries =~= store_of(files.push(seen_file)).entries) by {
        assert forall|key: TrackingKey| #[trigger]
            store_of(after).entries.dom().contains(key) implies store_of(after).entries[key]
            == store_of(files.push(seen_file)).entries[key] by {
            let j = keys_of(after).index_of(key);
            assert(0 <= j < after.len() && keys_of(after)[j] == key);
            lemma_index_of_key(after, j);
            lemma_index_of_key(files.push(seen_file), j);
        }
    }
    assert forall|key: TrackingKey| store_of(after).seen.contains(key) <==> store_of(
        files,
    ).seen.contains(key) by {
        if store_of(after).seen.contains(key) {
            let i = choose|i: int|
                0 <= i < after.len() && #[trigger] after[i].key() == key && after[i].seen;
            assert(files[i].key() == key && files[i].seen);
        }
        if store_of(files).seen.contains(key) {
            let i = choose|i: int|
                0 <= i < files.len() && #[trigger] files[i].key() == key && files[i].seen;
            assert(after[i].key() == key && after[i].seen);
        }
    }
    assert(store_of(after).seen =~= store_of(files).seen);
}

/// Lists of files that agree in keys, entries and marks stand for the same
/// store.
proof fn lemma_same_store(first: Seq<TrackedFile>, second: Seq<TrackedFile>)
    requires
        first.len() == second.len(),
        forall|i: int|
            0 <= i < first.len() ==> (#[trigger] first[i]).key() == second[i].key()
                && first[i].info@ == second[i].info@ && first[i].seen == second[i].seen,
    ensures
        keys_of(first) == keys_of(second),
        store_of(first) == store_of(second),
{
    assert(keys_of(first) =~= keys_of(second));
    assert forall|key: TrackingKey| #[trigger]
        store_of(first).entries.dom().contains(key) implies store_of(first).entries[key]
        == store_of(second).entries[key] by {
        let j = keys_of(first).index_of(key);
        assert(0 <= j < first.len() && keys_of(first)[j] == key);
        assert(first[j].info@ == second[j].info@);
    }
    assert(store_of(first).entries =~= store_of(second).entries);
    assert forall|key: TrackingKey| store_of(first).seen.contains(key) <==> store_of(
        second,
    ).seen.contains(key) by {
        if store_of(first).seen.contains(key) {
            let i = choose|i: int|
                0 <= i < first.len() && #[trigger] first[i].key() == key && first[i].seen;
            assert(second[i].key() == key && second[i].seen);
        }
        if store_of(second).seen.contains(key) {
            let i = choose|i: int|
                0 <= i < second.len() && #[trigger] second[i].key() == key && second[i].seen;
            assert(first[i].key() == key && first[i].seen);
        }
    }
    assert(store_of(first).seen =~= store_of(second).seen);
}

/// The marks of a list of files taken off.
spec fn unmarked(files: Seq<TrackedFile>) -> Seq<TrackedFile> {
    files.map_values(|file: TrackedFile| TrackedFile { seen: false, ..file })
}

/// Taking the marks off starts the next run.
proof fn lemma_unmarked(files: Seq<TrackedFile>)
    ensures
        keys_of(unmarked(files)) == keys_of(files),
        store_of(unmarked(files)) == store_of(files).next_run(),
{
    let after = unmarked(files);
    assert(keys_of(after) =~= keys_of(files));
    assert forall|key: TrackingKey| #[trigger]
        store_of(after).entries.dom().contains(key) implies store_of(after).entries[key]
        == store_of(files).entries[key] by {
        let j = keys_of(after).index_of(key);
        assert(0 <= j < after.len() && keys_of(after)[j] == key);
        assert(after[j].info@ == files[j].info@);
    }
    assert(store_of(after).entries =~= store_of(files).entries);
    assert(store_of(after).seen =~= Set::empty());
}

/// The tracking store.
pub struct TrackingInfo {
    files: Vec<TrackedFile>,
}

impl View for TrackingInfo {
    type V = TrackingStore;

    closed spec fn view(&self) -> TrackingStore {
        store_of(self.files@)
    }
}

impl TrackingInfo {
    /// The invariant of the store: no key is held twice.
    pub closed spec fn wf(&self) -> bool {
        keys_of(self.files@).no_duplicates()
    }

    /// A well-formed store has a valid value.
    pub proof fn lemma_valid(&self)
        requires
            self.wf(),
        ensures
            self@.valid(),
    {
        lemma_store_valid(self.files@);
    }

    /// A store that tracks nothing.
    pub fn new() -> (store: Self)
        ensures
            store.wf(),
            store@ == TrackingStore::empty(),
    {
        let store = TrackingInfo { files: Vec::new() };
        proof {
            assert(store@.order =~= Seq::empty());
            assert(store@.entries =~= Map::empty());
            assert(store@.seen =~= Set::empty());
        }
        store
    }

    /// Where the entry of a key stands, if the store has one.
    fn position(&self, dir_key: &String, file_key: &String) -> (found: Option<usize>)
        requires
            self.wf(),
        ensures
            match found {
                Some(i) => i < self.files.len() && self.files[i as int].key() == (TrackingKey {
                    category: dir_key@,
                    slug: file_key@,
                }),
                None => !self@.entries.dom().contains(
                    TrackingKey { category: dir_key@, slug: file_key@ },
                ),
            },
    {
        let ghost key = TrackingKey { category: dir_key@, slug: file_key@ };
        let mut i: usize = 0;
        while i < self.files.len()
            invariant
                i <= self.files.len(),
                key == (TrackingKey { category: dir_key@, slug: file_key@ }),
                forall|j: int| 0 <= j < i ==> #[trigger] self.files[j].key() != key,
            decreases self.files.len() - i,
        {
            if self.files[i].dir_key == *dir_key && self.files[i].file_key == *file_key {
                return Some(i);
            }
            i += 1;
        }
        proof {
            let keys = keys_of(self.files@);
            if keys.contains(key) {
                let j = choose|j: int| 0 <= j < keys.len() && keys[j] == key;
                assert(self.files[j].key() == key);
            }
        }
        None
    }

    /// Starts the next run: the entries stay, and none counts as seen.
    pub fn begin_run(&mut self)
        requires
            old(self).wf(),
        ensures
            final(self).wf(),
            final(self)@ == old(self)@.next_run(),
    {
        let ghost before = self.files@;
        let mut i: usize = 0;
        while i < self.files.len()
            invariant
                i <= self.files.len(),
                self.files@.len() == before.len(),
                forall|k: int| 0 <= k < i ==> #[trigger] self.files@[k] == unmarked(before)[k],
                forall|k: int| i <= k < before.len() ==> #[trigger] self.files@[k] == before[k],
            decreases self.files.len() - i,
        {
            self.files[i].seen = false;
            i += 1;
        }
        proof {
            assert(self.files@ =~= unmarked(before));
            lemma_unmarked(before);
        }
    }

    /// A copy of the store.
    pub fn duplicate(&self) -> (copy: Self)
        ensures
            copy@ == self@,
            self.wf() ==> copy.wf(),
    {
        let mut files: Vec<TrackedFile> = Vec::new();
        let mut i: usize = 0;
        while i < self.files.len()
            invariant
                i <= self.files.len(),
                files@.len() == i,
                forall|k: int|
                    0 <= k < i ==> (#[trigger] files@[k]).key() == self.files@[k].key()
                        && files@[k].info@ == self.files@[k].info@ && files@[k].seen
                        == self.files@[k].seen,
            decreases self.files.len() - i,
        {
            files.push(
                TrackedFile {
                    dir_key: self.files[i].dir_key.clone(),
                    file_key: self.files[i].file_key.clone(),
                    seen: self.files[i].seen,
                    info: self.files[i].info.clone(),
                },
            );
            i += 1;
        }
        proof {
            lemma_same_store(files@, self.files@);
        }
        TrackingInfo { files }
    }

    /// Removes every entry whose key was not seen in this run.
    pub fn purge_untracked(&mut self)
        requires
            old(self).wf(),
        ensures
            final(self).wf(),
            final(self)@ == old(self)@.purge(),
    {
        let ghost before = self.files@;
        let ghost mut done: int = 0;
        let mut i: usize = 0;
        proof {
            reveal(Seq::filter);
            assert(before.take(0) =~= Seq::empty());
            assert(before.skip(0) =~= before);
        }
        while i < self.files.len()
            invariant
                0 <= done <= before.len(),
                i == seen_files(before.take(done)).len(),
                self.files@ == seen_files(before.take(done)) + before.skip(done),
            decreases before.len() - done,
        {
            proof {
                reveal(Seq::filter);
                assert(before.take(done + 1).drop_last() =~= before.take(done));
                assert(self.files@[i as int] == before[done]);
            }
            if self.files[i].seen {
                proof {
                    assert(self.files@ =~= seen_files(before.take(done + 1)) + before.skip(done + 1));
                }
                i += 1;
            } else {
                self.files.remove(i);
                proof {
                    assert(self.files@ =~= seen_files(before.take(done + 1)) + before.skip(done + 1));
                }
            }
            proof {
                done = done + 1;
            }
        }
        proof {
            assert(done == before.len());
            assert(before.take(done) =~= before);
            assert(self.files@ =~= seen_files(before));
            lemma_purge(before);
        }
    }

    /// Resolves one document of the current run from its key, its title, the
    /// digest of its content and the time of the run, and returns when it
    /// was created and when it last changed.
    pub fn resolve(
        &mut self,
        dir_key: String,
        file_key: String,
        title: String,
        content_hash: String,
        now: u64,
    ) -> (stamps: Result<(u64, u64), TrackError>)
        requires
            old(self).wf(),
        ensures
            final(self).wf(),
            ({
                let key = TrackingKey { category: dir_key@, slug: file_key@ };
                let entry = old(self)@.resolved_entry(key, title@, content_hash@, now);
                if old(self)@.seen.contains(key) {
                    &&& stamps matches Err(TrackError::DuplicateKey { category, slug })
                    &&& category@ == dir_key@
                    &&& slug@ == file_key@
                    &&& final(self)@ == old(self)@
                } else {
                    &&& stamps == Ok::<(u64, u64), TrackError>((entry.created_at, entry.updated_at))
                    &&& final(self)@ == old(self)@.resolve(key, title@, content_hash@, now)
                }
            }),
    {
        let ghost key = TrackingKey { category: dir_key@, slug: file_key@ };
        let ghost before = self.files@;
        match self.position(&dir_key, &file_key) {
            None => {
                let file = TrackedFile {
                    dir_key,
                    file_key,
                    seen: true,
                    info: PersistentFileInfo {
                        title,
                        content_hash,
                        updated_at: now,
                        created_at: now,
                    },
                };
                self.files.push(file);
                proof {
                    lemma_store_valid(before);
                    lemma_push_file(before, file);
                }
                Ok((now, now))
            },
            Some(i) => {
                proof {
                    lemma_index_of_key(before, i as int);
                }
                if self.files[i].seen {
                    proof {
                        assert(before[i as int].key() == key && before[i as int].seen);
                    }
                    return Err(TrackError::DuplicateKey { category: dir_key, slug: file_key });
                }
                proof {
                    if store_of(before).seen.contains(key) {
                        let j = choose|j: int|
                            0 <= j < before.len() && #[trigger] before[j].key() == key
                                && before[j].seen;
                        lemma_index_of_key(before, j);
                    }
                }
                self.files[i].seen = true;
                if self.files[i].info.content_hash != content_hash {
                    self.files[i].info.content_hash = content_hash;
                    self.files[i].info.updated_at = now;
                }
                proof {
                    assert(self.files@ =~= before.update(i as int, self.files@[i as int]));
                    lemma_update_file(before, i as int, self.files@[i as int]);
                }
                Ok((self.files[i].info.created_at, self.files[i].info.updated_at))
            },
        }
    }
}

/// One entry with its key, as it is written to and read from the tracking
/// file.
pub struct TrackingRecord {
    pub dir_key: String,
    pub file_key: String,
    pub info: PersistentFileInfo,
}

impl View for TrackingRecord {
    type V = StoredEntry;

    open spec fn view(&self) -> StoredEntry {
        StoredEntry {
            key: TrackingKey { category: self.dir_key@, slug: self.file_key@ },
            entry: self.info@,
        }
    }
}

/// The values of a list of records.
pub open spec fn stored_of(records: Seq<TrackingRecord>) -> Seq<StoredEntry> {
    records.map_values(|record: TrackingRecord| record@)
}

/// Why a tracking file could not be taken for a store.
pub enum LoadError {
    /// The file holds two entries under one key.
    RepeatedKey { category: String, slug: String },
}

/// The categories of a list of files, one for each file.
spec fn dirs_of(files: Seq<TrackedFile>) -> Seq<Seq<char>> {
    keys_of(files).map_values(|key: TrackingKey| key.category)
}

/// The entries of the files of one category, in their order.
spec fn entries_in(files: Seq<TrackedFile>, category: Seq<char>) -> Seq<TrackedEntry> {
    files.filter(|file: TrackedFile| file.dir_key@ == category).map_values(
        |file: TrackedFile| file.info@,
    )
}

/// The first `n` files hold, under one category, the entries that the store
/// lists for the first `n` keys.
proof fn lemma_entries_in_prefix(files: Seq<TrackedFile>, category: Seq<char>, n: int)
    requires
        keys_of(files).no_duplicates(),
        0 <= n <= files.len(),
    ensures
        entries_in(files.take(n), category) == keys_of(files).take(n).filter(
            |key: TrackingKey| key.category == category,
        ).map_values(|key: TrackingKey| store_of(files).entries[key]),
    decreases n,
{
    reveal(Seq::filter);
    let by_file = |file: TrackedFile| file.dir_key@ == category;
    let by_key = |key: TrackingKey| key.category == category;
    let info = |file: TrackedFile| file.info@;
    let entry = |key: TrackingKey| store_of(files).entries[key];
    if n > 0 {
        lemma_entries_in_prefix(files, category, n - 1);
        lemma_index_of_key(files, n - 1);
        assert(files.take(n).drop_last() =~= files.take(n - 1));
        assert(keys_of(files).take(n).drop_last() =~= keys_of(files).take(n - 1));
        assert(keys_of(files).take(n).last() == files[n - 1].key());
        assert(files.take(n).last() == files[n - 1]);
        if by_file(files[n - 1]) {
            assert(files.take(n - 1).filter(by_file).push(files[n - 1]).map_values(info)
                =~= files.take(n - 1).filter(by_file).map_values(info).push(files[n - 1].info@));
            assert(keys_of(files).take(n - 1).filter(by_key).push(files[n - 1].key()).map_values(
                entry,
            ) =~= keys_of(files).take(n - 1).filter(by_key).map_values(entry).push(
                files[n - 1].info@,
            ));
        }
    } else {
        assert(entries_in(files.take(n), category) =~= Seq::empty());
        assert(keys_of(files).take(n).filter(by_key).map_values(entry) =~= Seq::empty());
    }
}

impl TrackingInfo {
    /// The number of entries.
    pub fn len(&self) -> (n: usize)
        ensures
            n == self@.order.len(),
    {
        self.files.len()
    }

    /// The entry that stands under a key, if there is one.
    pub fn get(&self, dir_key: &String, file_key: &String) -> (found: Option<PersistentFileInfo>)
        requires
            self.wf(),
        ensures
            ({
                let key = TrackingKey { category: dir_key@, slug: file_key@ };
                match found {
                    Some(info) => self@.entries.dom().contains(key) && info@ == self@.entries[key],
                    None => !self@.entries.dom().contains(key),
                }
            }),
    {
        match self.position(dir_key, file_key) {
            Some(i) => {
                proof {
                    lemma_index_of_key(self.files@, i as int);
                }
                Some(self.files[i].info.clone())
            },
            None => None,
        }
    }

    /// Whether a key was seen in this run.
    pub fn was_seen(&self, dir_key: &String, file_key: &String) -> (seen: bool)
        requires
            self.wf(),
        ensures
            seen == self@.seen.contains(TrackingKey { category: dir_key@, slug: file_key@ }),
    {
        let ghost key = TrackingKey { category: dir_key@, slug: file_key@ };
        match self.position(dir_key, file_key) {
            Some(i) => {
                proof {
                    if store_of(self.files@).seen.contains(key) {
                        let j = choose|j: int|
                            0 <= j < self.files@.len() && #[trigger] self.files@[j].key() == key
                                && self.files@[j].seen;
                        lemma_index_of_key(self.files@, j);
                        lemma_index_of_key(self.files@, i as int);
                    }
                }
                self.files[i].seen
            },
            None => {
                proof {
                    lemma_store_valid(self.files@);
                }
                false
            },
        }
    }

    /// Puts back an entry of an earlier run. Returns `false`, and leaves the
    /// store as it is, when the key already has an entry.
    pub fn restore(&mut self, dir_key: String, file_key: String, info: PersistentFileInfo) -> (done:
        bool)
        requires
            old(self).wf(),
        ensures
            final(self).wf(),
            ({
                let key = TrackingKey { category: dir_key@, slug: file_key@ };
                &&& done == !old(self)@.entries.dom().contains(key)
                &&& done ==> final(self)@ == old(self)@.restore(key, info@)
                &&& !done ==> final(self)@ == old(self)@
            }),
    {
        let ghost before = self.files@;
        match self.position(&dir_key, &file_key) {
            Some(i) => {
                proof {
                    lemma_index_of_key(before, i as int);
                }
                false
            },
            None => {
                let file = TrackedFile { dir_key, file_key, seen: false, info };
                self.files.push(file);
                proof {
                    lemma_restore_file(before, file);
                }
                true
            },
        }
    }

    /// The store that the records of a tracking file give: its entries in
    /// their order, none of them seen. Fails at the first record whose key
    /// an earlier record has.
    pub fn load(records: &Vec<TrackingRecord>) -> (loaded: Result<TrackingInfo, LoadError>)
        ensures
            match TrackingStore::load(stored_of(records@)) {
                Ok(store) => loaded matches Ok(info) && info.wf() && info@ == store,
                Err(key) => {
                    &&& loaded matches Err(LoadError::RepeatedKey { category, slug })
                    &&& category@ == key.category
                    &&& slug@ == key.slug
                },
            },
    {
        let mut info = TrackingInfo::new();
        let ghost stored = stored_of(records@);
        let mut i: usize = 0;
        proof {
            assert(stored.take(0) =~= Seq::empty());
        }
        while i < records.len()
            invariant
                i <= records.len(),
                stored == stored_of(records@),
                info.wf(),
                TrackingStore::load(stored.take(i as int)) == Ok::<TrackingStore, TrackingKey>(
                    info@,
                ),
            decreases records.len() - i,
        {
            proof {
                assert(stored.take(i + 1).drop_last() =~= stored.take(i as int));
                assert(stored.take(i + 1).last() == records@[i as int]@);
            }
            let dir_key = records[i].dir_key.clone();
            let file_key = records[i].file_key.clone();
            if !info.restore(dir_key, file_key, records[i].info.clone()) {
                proof {
                    lemma_load_fault(stored, i as int + 1);
                }
                return Err(
                    LoadError::RepeatedKey {
                        category: records[i].dir_key.clone(),
                        slug: records[i].file_key.clone(),
                    },
                );
            }
            i += 1;
        }
        proof {
            assert(stored.take(i as int) =~= stored);
        }
        Ok(info)
    }

    /// What is to be written to the tracking file: every entry with its
    /// key, in the order of the store.
    pub fn records(&self) -> (list: Vec<TrackingRecord>)
        requires
            self.wf(),
        ensures
            stored_of(list@) == self@.stored(),
    {
        let mut list: Vec<TrackingRecord> = Vec::new();
        let mut i: usize = 0;
        while i < self.files.len()
            invariant
                self.wf(),
                i <= self.files.len(),
                list@.len() == i,
                forall|j: int| 0 <= j < i ==> (#[trigger] list@[j])@ == self@.stored()[j],
            decreases self.files.len() - i,
        {
            proof {
                lemma_index_of_key(self.files@, i as int);
            }
            list.push(
                TrackingRecord {
                    dir_key: self.files[i].dir_key.clone(),
                    file_key: self.files[i].file_key.clone(),
                    info: self.files[i].info.clone(),
                },
            );
            i += 1;
        }
        proof {
            assert(stored_of(list@) =~= self@.stored());
        }
        list
    }
}

/// A fault among the first records of a file is the fault of the whole
/// file.
proof fn lemma_load_fault(stored: Seq<StoredEntry>, n: int)
    requires
        0 <= n <= stored.len(),
        TrackingStore::load(stored.take(n)) is Err,
    ensures
        TrackingStore::load(stored) == TrackingStore::load(stored.take(n)),
    decreases stored.len() - n,
{
    if n < stored.len() {
        assert(stored.take(n + 1).drop_last() =~= stored.take(n));
        lemma_load_fault(stored, n + 1);
    } else {
        assert(stored.take(n) =~= stored);
    }
}

/// Joins a category and a slug into one text, with a colon between them.
fn join_key(dir_key: &str, file_key: &str) -> (key: String)
    ensures
        key@ == joined_key(TrackingKey { category: dir_key@, slug: file_key@ }),
{
    let mut key = String::from_str(dir_key);
    key.push(':');
    key.append(file_key);
    proof {
        assert(key@ =~= dir_key@ + seq![':'] + file_key@);
    }
    key
}

/// The distinct categories of the first `n + 1` files, from those of the
/// first `n`.
proof fn lemma_distinct_step(dirs: Seq<Seq<char>>, n: int)
    requires
        0 <= n < dirs.len(),
    ensures
        distinct(dirs.take(n + 1)) == if distinct(dirs.take(n)).contains(dirs[n]) {
            distinct(dirs.take(n))
        } else {
            distinct(dirs.take(n)).push(dirs[n])
        },
{
    assert(dirs.take(n + 1).drop_last() =~= dirs.take(n));
    assert(dirs.take(n + 1).last() == dirs[n]);
}

impl TrackingInfo {
    /// The text under which a document is named in messages: the slug of
    /// its directory, a colon, the slug of its title.
    pub fn format_tracking_key(dir: &str, title: &str) -> (key: String)
        ensures
            key@ == joined_key(
                tracking_key(FileRecord { dir: dir@, title: title@, content: Seq::empty() }),
            ),
    {
        let safe_dir = format_safe_text(dir);
        let safe_title = format_safe_text(title);
        join_key(safe_dir.as_str(), safe_title.as_str())
    }

    /// Tracks one document of the run that takes place at `now`: a new
    /// document is entered as created and changed at `now`; a known one
    /// keeps its creation time, and its time of change too unless its
    /// content has a new digest, which then replaces the old one with `now`
    /// as the time of change. A document whose key was already seen in this
    /// run is refused and the store stays as it is.
    pub fn track_file_at(&mut self, file_data: &FileData, now: u64) -> (stamps: Result<
        (u64, u64),
        TrackError,
    >)
        requires
            old(self).wf(),
        ensures
            final(self).wf(),
            ({
                let key = tracking_key(file_data@);
                if old(self)@.refuses(file_data@) {
                    &&& stamps matches Err(TrackError::DuplicateKey { category, slug })
                    &&& category@ == key.category
                    &&& slug@ == key.slug
                    &&& final(self)@ == old(self)@
                } else {
                    &&& stamps == Ok::<(u64, u64), TrackError>(old(self)@.stamps(file_data@, now))
                    &&& final(self)@ == old(self)@.track(file_data@, now)
                }
            }),
    {
        let dir_key = format_safe_text(file_data.dir.as_str());
        let file_key = format_safe_text(file_data.title.as_str());
        let content_hash = hash_text(file_data.content.as_str());
        self.resolve(dir_key, file_key, file_data.title.clone(), content_hash, now)
    }

    /// Tracks one document at the time the system clock shows. The key is
    /// tested first: a document whose key was already seen is refused
    /// whatever the clock shows.
    pub fn track_file(&mut self, file_data: &FileData) -> (stamps: Result<(u64, u64), TrackError>)
        requires
            old(self).wf(),
        ensures
            final(self).wf(),
            ({
                let key = tracking_key(file_data@);
                let before = old(self)@;
                let after = final(self)@;
                match stamps {
                    Ok(pair) => {
                        &&& !before.refuses(file_data@)
                        &&& exists|now: u64|
                            pair == before.stamps(file_data@, now) && after == #[trigger] before.track(
                                file_data@,
                                now,
                            )
                    },
                    Err(TrackError::DuplicateKey { category, slug }) => {
                        &&& before.refuses(file_data@)
                        &&& category@ == key.category
                        &&& slug@ == key.slug
                        &&& after == before
                    },
                    Err(TrackError::ClockBeforeEpoch) => !before.refuses(file_data@) && after == before,
                }
            }),
    {
        let dir_key = format_safe_text(file_data.dir.as_str());
        let file_key = format_safe_text(file_data.title.as_str());
        if self.was_seen(&dir_key, &file_key) {
            return Err(TrackError::DuplicateKey { category: dir_key, slug: file_key });
        }
        match get_timestamp() {
            None => Err(TrackError::ClockBeforeEpoch),
            Some(now) => {
                let content_hash = hash_text(file_data.content.as_str());
                let stamps = self.resolve(
                    dir_key,
                    file_key,
                    file_data.title.clone(),
                    content_hash,
                    now,
                );
                proof {
                    assert(self@ == old(self)@.track(file_data@, now));
                }
                stamps
            },
        }
    }

    /// The categories of the store, each once, in the order in which they
    /// first occur.
    pub fn categories(&self) -> (list: Vec<String>)
        ensures
            texts(list@) == self@.categories(),
    {
        let mut list: Vec<String> = Vec::new();
        let ghost dirs = dirs_of(self.files@);
        let mut i: usize = 0;
        while i < self.files.len()
            invariant
                i <= self.files.len(),
                dirs == dirs_of(self.files@),
                texts(list@) == distinct(dirs.take(i as int)),
            decreases self.files.len() - i,
        {
            let mut known = false;
            let mut j: usize = 0;
            while j < list.len()
                invariant
                    i < self.files.len(),
                    j <= list.len(),
                    known == exists|k: int| 0 <= k < j && texts(list@)[k] == self.files[i as int].dir_key@,
                decreases list.len() - j,
            {
                if list[j] == self.files[i].dir_key {
                    known = true;
                    assert(texts(list@)[j as int] == self.files[i as int].dir_key@);
                }
                j += 1;
            }
            proof {
                lemma_distinct_step(dirs, i as int);
                assert(dirs[i as int] == self.files[i as int].dir_key@);
                assert(known == texts(list@).contains(dirs[i as int]));
            }
            if !known {
                let ghost before = list@;
                list.push(self.files[i].dir_key.clone());
                proof {
                    assert(texts(list@) =~= texts(before).push(dirs[i as int]));
                }
            }
            i += 1;
        }
        proof {
            assert(dirs.take(i as int) =~= dirs);
        }
        list
    }

    /// The entries of one category, in the order of the store.
    pub fn category_files(&self, category: &String) -> (list: Vec<PersistentFileInfo>)
        requires
            self.wf(),
        ensures
            entries_of(list@) == self@.category_entries(category@),
    {
        let mut list: Vec<PersistentFileInfo> = Vec::new();
        let mut i: usize = 0;
        proof {
            reveal(Seq::filter);
            assert(entries_in(self.files@.take(0), category@) =~= Seq::empty());
        }
        while i < self.files.len()
            invariant
                i <= self.files.len(),
                entries_of(list@) == entries_in(self.files@.take(i as int), category@),
            decreases self.files.len() - i,
        {
            proof {
                reveal(Seq::filter);
                assert(self.files@.take(i + 1).drop_last() =~= self.files@.take(i as int));
                assert(self.files@.take(i + 1).last() == self.files@[i as int]);
            }
            if self.files[i].dir_key == *category {
                let ghost before = list@;
                list.push(self.files[i].info.clone());
                proof {
                    let held = |file: TrackedFile| file.dir_key@ == category@;
                    assert(entries_of(list@) =~= entries_of(before).push(self.files@[i as int].info@));
                    assert(self.files@.take(i as int).filter(held).push(
                        self.files@[i as int],
                    ).map_values(|file: TrackedFile| file.info@) =~= self.files@.take(
                        i as int,
                    ).filter(held).map_values(|file: TrackedFile| file.info@).push(
                        self.files@[i as int].info@,
                    ));
                }
            }
            i += 1;
        }
        proof {
            assert(self.files@.take(i as int) =~= self.files@);
            assert(keys_of(self.files@).take(i as int) =~= keys_of(self.files@));
            lemma_entries_in_prefix(self.files@, category@, i as int);
        }
        list
    }

    /// A walk over the categories of the store.
    pub fn into_iter(&self) -> (iter: TrackingInfoIter<'_>)
        requires
            self.wf(),
        ensures
            iter.wf(),
            iter.store() == self@,
            iter.position() == 0,
    {
        TrackingInfoIter::new(self)
    }
}

/// A walk over the categories of a store, in the order in which they first
/// occur, each with its entries.
pub struct TrackingInfoIter<'a> {
    tracking_info: &'a TrackingInfo,
    categories: Vec<String>,
    position: usize,
}

impl<'a> TrackingInfoIter<'a> {
    /// The store that is walked.
    pub closed spec fn store(&self) -> TrackingStore {
        self.tracking_info@
    }

    /// The number of categories handed out so far.
    pub closed spec fn position(&self) -> nat {
        self.position as nat
    }

    /// The invariant of the walk.
    pub closed spec fn wf(&self) -> bool {
        &&& self.tracking_info.wf()
        &&& texts(self.categories@) == self.tracking_info@.categories()
        &&& self.position <= self.categories.len()
    }

    /// Starts a walk at the first category.
    pub fn new(tracking_info: &'a TrackingInfo) -> (iter: Self)
        requires
            tracking_info.wf(),
        ensures
            iter.wf(),
            iter.store() == tracking_info@,
            iter.position() == 0,
    {
        TrackingInfoIter { tracking_info, categories: tracking_info.categories(), position: 0 }
    }

    /// The next category with its entries in the order of the store, or
    /// `None` when every category was handed out.
    pub fn next(&mut self) -> (item: Option<(String, Vec<PersistentFileInfo>)>)
        requires
            old(self).wf(),
        ensures
            final(self).wf(),
            final(self).store() == old(self).store(),
            ({
                let categories = old(self).store().categories();
                match item {
                    Some((category, files)) => {
                        &&& old(self).position() < categories.len()
                        &&& category@ == categories[old(self).position() as int]
                        &&& entries_of(files@) == old(self).store().category_entries(category@)
                        &&& final(self).position() == old(self).position() + 1
                    },
                    None => {
                        &&& old(self).position() == categories.len()
                        &&& final(self).position() == old(self).position()
                    },
                }
            }),
    {
        if self.position < self.categories.len() {
            assert(texts(self.categories@).len() == self.categories@.len());
            let category = self.categories[self.position].clone();
            assert(category@ == texts(self.categories@)[self.position as int]);
            let files = self.tracking_info.category_files(&category);
            self.position = self.position + 1;
            Some((category, files))
        } else {
            assert(texts(self.categories@).len() == self.categories@.len());
            None
        }
    }
}

} // verus!
