//! Documents as they are read from the input directory, the scan that
//! tracks them, and the pages rendered from them.

use crate::config::Config;
use crate::persistence::{TrackError, TrackingInfo};
use crate::store::{tracking_key, TrackingKey, TrackingStore};
use crate::text::text_of;
use crate::utils::{date_text, format_datetime, format_safe_text, has_date_text, slug_of};
use vstd::prelude::*;

verus! {

/// One markdown document of the current run.
pub struct FileData {
    /// The name of the directory the document lies in.
    pub dir: String,
    /// The file name without its extension.
    pub title: String,
    /// The text of the document, as read.
    pub content: String,
}

/// The mathematical value of a [`FileData`].
pub struct FileRecord {
    pub dir: Seq<char>,
    pub title: Seq<char>,
    pub content: Seq<char>,
}

impl View for FileData {
    type V = FileRecord;

    open spec fn view(&self) -> FileRecord {
        FileRecord { dir: self.dir@, title: self.title@, content: self.content@ }
    }
}

impl Clone for FileData {
    fn clone(&self) -> (copy: Self)
        ensures
            copy@ == self@,
    {
        FileData {
            dir: self.dir.clone(),
            title: self.title.clone(),
            content: self.content.clone(),
        }
    }
}

/// What the file system says of one path.
pub struct ScannedPath {
    /// Whether the path leads to a regular file.
    pub is_file: bool,
    /// Whether the path leads to a directory.
    pub is_dir: bool,
    /// The name of the directory that holds the path, if it has one that is
    /// valid text.
    pub parent_name: Option<String>,
    /// The last part of the path without its extension, if it has one that
    /// is valid text.
    pub file_stem: Option<String>,
    /// What follows the last dot of the last part of the path, if anything.
    pub extension: Option<String>,
}

/// Whether a file or directory with the given extension is a markdown
/// document: a regular file whose extension is `md`.
pub open spec fn is_markdown(is_file: bool, extension: Option<Seq<char>>) -> bool {
    is_file && extension == Some("md"@)
}

/// Whether a path leads to a markdown document: a regular file whose
/// extension is `md`.
pub fn path_is_md(path: &ScannedPath) -> (is_md: bool)
    ensures
        is_md == is_markdown(path.is_file, text_of(path.extension)),
{
    if !path.is_file {
        return false;
    }
    match &path.extension {
        Some(extension) => {
            let wanted = String::from_str("md");
            *extension == wanted
        },
        None => false,
    }
}

/// The text of the error for a document without a directory name.
pub open spec fn no_parent_message() -> Seq<char> {
    "Failed to get parent directory name"@
}

/// The text of the error for a document without a title.
pub open spec fn no_title_message() -> Seq<char> {
    "Failed to parse file title"@
}

/// The document at a path, from what was read there: its directory is the
/// parent of the path and its title the stem. Fails, in this order, for a
/// path without parent name, for one without stem, and with the message of
/// the read when the content could not be read.
pub fn read_file(path: &ScannedPath, content: Result<String, String>) -> (file: Result<
    FileData,
    String,
>)
    ensures
        match file {
            Ok(data) => {
                &&& path.parent_name matches Some(dir)
                &&& path.file_stem matches Some(title)
                &&& content matches Ok(text)
                &&& data@ == (FileRecord { dir: dir@, title: title@, content: text@ })
            },
            Err(message) => {
                if path.parent_name is None {
                    message@ == no_parent_message()
                } else if path.file_stem is None {
                    message@ == no_title_message()
                } else {
                    content matches Err(reason) && message@ == reason@
                }
            },
        },
{
    let dir = match &path.parent_name {
        Some(name) => name.clone(),
        None => {
            return Err(String::from_str("Failed to get parent directory name"));
        },
    };
    let title = match &path.file_stem {
        Some(stem) => stem.clone(),
        None => {
            return Err(String::from_str("Failed to parse file title"));
        },
    };
    match content {
        Ok(text) => Ok(FileData { dir, title, content: text }),
        Err(reason) => Err(reason),
    }
}

/// The HTML that a markdown text is rendered to.
pub uninterp spec fn rendered_html(markdown: Seq<char>) -> Seq<char>;

/// Renders markdown to HTML.
///
/// `Parser::new` and `html::push_html` of `pulldown_cmark`. Claimed: the
/// HTML depends on the markdown text alone.
#[verifier::external_body]
pub fn convert_md_to_html(md: &str) -> (html: String)
    ensures
        html@ == rendered_html(md@),
{
    let mut html_content = String::new();
    let parser = pulldown_cmark::Parser::new(md);
    pulldown_cmark::html::push_html(&mut html_content, parser);
    html_content
}

/// The name of the file of a post.
pub open spec fn post_file_name(title: Seq<char>) -> Seq<char> {
    slug_of(title) + ".html"@
}

/// Where a rendered post goes, below the output directory.
pub struct PostPath {
    /// The directory, or `None` for the output directory itself.
    pub dir: Option<String>,
    /// The name of the file.
    pub file_name: String,
}

/// The mathematical value of a [`PostPath`].
pub struct PostPlace {
    pub dir: Option<Seq<char>>,
    pub file_name: Seq<char>,
}

impl View for PostPath {
    type V = PostPlace;

    open spec fn view(&self) -> PostPlace {
        PostPlace {
            dir: match self.dir {
                Some(dir) => Some(dir@),
                None => None,
            },
            file_name: self.file_name@,
        }
    }
}

/// Where the post of a document goes: into the directory of the document,
/// under the slug of its title.
pub fn format_output_path(info: &FileData) -> (path: PostPath)
    ensures
        path@ == (PostPlace { dir: Some(info@.dir), file_name: post_file_name(info@.title) }),
{
    let safe_title = format_safe_text(info.title.as_str());
    PostPath { dir: Some(info.dir.clone()), file_name: safe_title.concat(".html") }
}

/// The line of a post that tells when it was last updated.
pub open spec fn last_updated_line(date: Seq<char>) -> Seq<char> {
    r#"<p class="last-updated"><i>last updated: "#@ + date + "<i></p>"@
}

/// The page of a post: its title, the HTML of its content and the date of
/// its last update.
pub open spec fn post_page(
    title: Seq<char>,
    html_content: Seq<char>,
    date: Seq<char>,
) -> Seq<char> {
    r#"
<!DOCTYPE html>
<html lang="en">
    <head>
        <meta name="viewport" content="width=device-width, initial-scale=1.0">
        <meta charset="UTF-8">
        <title>"#@ + title + r#"</title>
    </head>
    <body class="post">
        "#@ + html_content + r#"
        "#@ + last_updated_line(date) + r#"
    </body>
</html>
"#@
}

/// Puts the page of a post together from its title, the HTML of its
/// content and the date of its last update.
pub fn assemble_post(title: &str, html_content: &str, date: &str) -> (page: String)
    ensures
        page@ == post_page(title@, html_content@, date@),
{
    let mut page = String::from_str(
        r#"
<!DOCTYPE html>
<html lang="en">
    <head>
        <meta name="viewport" content="width=device-width, initial-scale=1.0">
        <meta charset="UTF-8">
        <title>"#,
    );
    page.append(title);
    page.append(
        r#"</title>
    </head>
    <body class="post">
        "#,
    );
    page.append(html_content);
    page.append(r#"
        "#);
    let ghost before = page@;
    page.append(r#"<p class="last-updated"><i>last updated: "#);
    page.append(date);
    page.append("<i></p>");
    proof {
        assert(page@ =~= before + last_updated_line(date@));
    }
    page.append(
        r#"
    </body>
</html>
"#,
    );
    page
}

/// Renders the page of a document that was last updated at `last_updated`,
/// with the date as a clock `utc_offset_seconds` east of UTC shows it.
/// `None` when that time has no date text.
pub fn compile_full_html(info: &FileData, last_updated: u64, utc_offset_seconds: i32) -> (page:
    Option<String>)
    ensures
        page is Some <==> has_date_text(last_updated, utc_offset_seconds),
        page matches Some(text) ==> text@ == post_page(
            info@.title,
            rendered_html(info@.content),
            date_text(last_updated as int, utc_offset_seconds as int),
        ),
{
    let html_content = convert_md_to_html(info.content.as_str());
    match format_datetime(last_updated, utc_offset_seconds) {
        Some(date) => Some(
            assemble_post(info.title.as_str(), html_content.as_str(), date.as_str()),
        ),
        None => None,
    }
}

/// What lies directly in the input directory.
pub enum SiteEntry {
    /// A markdown document.
    Document(FileData),
    /// A sub-directory, with the markdown documents that lie directly in
    /// it.
    Directory { name: String, documents: Vec<FileData> },
}

/// The mathematical value of a [`SiteEntry`].
pub enum SiteItem {
    Document(FileRecord),
    Directory { name: Seq<char>, documents: Seq<FileRecord> },
}

/// The values of a list of documents.
pub open spec fn records_of(documents: Seq<FileData>) -> Seq<FileRecord> {
    documents.map_values(|data: FileData| data@)
}

impl View for SiteEntry {
    type V = SiteItem;

    open spec fn view(&self) -> SiteItem {
        match self {
            SiteEntry::Document(data) => SiteItem::Document(data@),
            SiteEntry::Directory { name, documents } => SiteItem::Directory {
                name: name@,
                documents: records_of(documents@),
            },
        }
    }
}

/// The values of a list of entries.
pub open spec fn items_of(entries: Seq<SiteEntry>) -> Seq<SiteItem> {
    entries.map_values(|entry: SiteEntry| entry@)
}

/// A post that is to be rendered: where it goes, the document it is made
/// of, and when the document was last updated.
pub struct PlannedPost {
    pub path: PostPath,
    pub data: FileData,
    pub last_updated: u64,
}

/// The mathematical value of a [`PlannedPost`].
pub struct PostSheet {
    pub place: PostPlace,
    pub record: FileRecord,
    pub last_updated: u64,
}

impl View for PlannedPost {
    type V = PostSheet;

    open spec fn view(&self) -> PostSheet {
        PostSheet { place: self.path@, record: self.data@, last_updated: self.last_updated }
    }
}

/// The values of a list of planned posts.
pub open spec fn sheets_of(posts: Seq<PlannedPost>) -> Seq<PostSheet> {
    posts.map_values(|post: PlannedPost| post@)
}

/// Why a scan was given up.
pub enum ScanError {
    /// The input directory is there and cannot be read.
    UnreadableInput { reason: String },
    /// A second markdown document lies directly in the input directory.
    MultipleRootDocuments,
    /// A sub-directory bears the name that is kept for the index pages.
    ReservedDirectory { name: String },
    /// Two documents of the run have the same category and slug.
    DuplicateDocument { category: String, slug: String },
}

/// The mathematical value of a [`ScanError`].
pub enum ScanFault {
    UnreadableInput { reason: Seq<char> },
    MultipleRootDocuments,
    ReservedDirectory { name: Seq<char> },
    DuplicateDocument { key: TrackingKey },
}

impl View for ScanError {
    type V = ScanFault;

    open spec fn view(&self) -> ScanFault {
        match self {
            ScanError::UnreadableInput { reason } => ScanFault::UnreadableInput {
                reason: reason@,
            },
            ScanError::MultipleRootDocuments => ScanFault::MultipleRootDocuments,
            ScanError::ReservedDirectory { name } => ScanFault::ReservedDirectory { name: name@ },
            ScanError::DuplicateDocument { category, slug } => ScanFault::DuplicateDocument {
                key: TrackingKey { category: category@, slug: slug@ },
            },
        }
    }
}

/// What reading the input directory gave.
pub enum InputRead {
    /// There is no input directory.
    Missing,
    /// The input directory is there and could not be read.
    Unreadable { reason: String },
    /// What lies in the input directory.
    Found { entries: Vec<SiteEntry> },
}

/// The entries to scan: those that were found, none where there is no
/// input directory. An input directory that could not be read is a fault.
pub fn scanned_entries(read: InputRead) -> (entries: Result<Vec<SiteEntry>, ScanError>)
    ensures
        match read {
            InputRead::Missing => entries matches Ok(list) && list@.len() == 0,
            InputRead::Unreadable { reason } => entries matches Err(
                ScanError::UnreadableInput { reason: told },
            ) && told@ == reason@,
            InputRead::Found { entries: found } => entries matches Ok(list) && list == found,
        },
{
    match read {
        InputRead::Missing => Ok(Vec::new()),
        InputRead::Unreadable { reason } => Err(ScanError::UnreadableInput { reason }),
        InputRead::Found { entries } => Ok(entries),
    }
}

/// How far a scan has come.
pub struct ScanState {
    /// Whether a document was found directly in the input directory.
    pub found_root: bool,
    /// The tracking store.
    pub store: TrackingStore,
    /// The posts planned so far.
    pub posts: Seq<PostSheet>,
    /// The number of directories that gave a post, the input directory
    /// among them.
    pub sub_dirs: nat,
}

impl ScanState {
    /// The state before the first entry.
    pub open spec fn start(store: TrackingStore) -> ScanState {
        ScanState { found_root: false, store, posts: Seq::empty(), sub_dirs: 0 }
    }

    /// The state after one document of a sub-directory: the document is
    /// tracked at `now`, and its post is planned with the time of its last
    /// change. A document that the store refuses ends the scan.
    pub open spec fn document(self, record: FileRecord, now: u64) -> Result<ScanState, ScanFault> {
        if self.store.refuses(record) {
            Err(ScanFault::DuplicateDocument { key: tracking_key(record) })
        } else {
            Ok(
                ScanState {
                    store: self.store.track(record, now),
                    posts: self.posts.push(
                        PostSheet {
                            place: PostPlace {
                                dir: Some(record.dir),
                                file_name: post_file_name(record.title),
                            },
                            record,
                            last_updated: self.store.stamps(record, now).1,
                        },
                    ),
                    ..self
                },
            )
        }
    }

    /// The state after the documents of a sub-directory, one after another.
    pub open spec fn documents(self, records: Seq<FileRecord>, now: u64) -> Result<
        ScanState,
        ScanFault,
    >
        decreases records.len(),
    {
        if records.len() == 0 {
            Ok(self)
        } else {
            match self.documents(records.drop_last(), now) {
                Ok(state) => state.document(records.last(), now),
                Err(fault) => Err(fault),
            }
        }
    }

    /// The state after one entry of the input directory. A document there
    /// becomes the front page, is not tracked and counts as updated at
    /// `now`; a second one ends the scan. A sub-directory may not bear the
    /// name of the index pages; its documents are tracked in their order.
    pub open spec fn entry(self, item: SiteItem, index_name: Seq<char>, now: u64) -> Result<
        ScanState,
        ScanFault,
    > {
        match item {
            SiteItem::Document(record) => if self.found_root {
                Err(ScanFault::MultipleRootDocuments)
            } else {
                Ok(
                    ScanState {
                        found_root: true,
                        posts: self.posts.push(
                            PostSheet {
                                place: PostPlace { dir: None, file_name: "index.html"@ },
                                record,
                                last_updated: now,
                            },
                        ),
                        sub_dirs: self.sub_dirs + 1,
                        ..self
                    },
                )
            },
            SiteItem::Directory { name, documents } => if name == index_name {
                Err(ScanFault::ReservedDirectory { name })
            } else {
                match self.documents(documents, now) {
                    Ok(state) => Ok(
                        ScanState {
                            sub_dirs: if documents.len() > 0 {
                                state.sub_dirs + 1
                            } else {
                                state.sub_dirs
                            },
                            ..state
                        },
                    ),
                    Err(fault) => Err(fault),
                }
            },
        }
    }

    /// The state after the entries of the input directory, one after
    /// another.
    pub open spec fn entries(self, items: Seq<SiteItem>, index_name: Seq<char>, now: u64) -> Result<
        ScanState,
        ScanFault,
    >
        decreases items.len(),
    {
        if items.len() == 0 {
            Ok(self)
        } else {
            match self.entries(items.drop_last(), index_name, now) {
                Ok(state) => state.entry(items.last(), index_name, now),
                Err(fault) => Err(fault),
            }
        }
    }
}

/// The documents of a sub-directory leave untouched what the scan knows
/// of the input directory itself.
pub proof fn lemma_documents_keep_root(state: ScanState, records: Seq<FileRecord>, now: u64)
    ensures
        state.documents(records, now) matches Ok(after) ==> after.found_root == state.found_root
            && after.sub_dirs == state.sub_dirs,
    decreases records.len(),
{
    if records.len() > 0 {
        lemma_documents_keep_root(state, records.drop_last(), now);
    }
}

/// A scan that got through remembers whether it met a document in the
/// input directory.
pub proof fn lemma_scan_remembers_root(
    state: ScanState,
    items: Seq<SiteItem>,
    index_name: Seq<char>,
    now: u64,
    at: int,
)
    requires
        0 <= at < items.len(),
        items[at] is Document,
    ensures
        state.entries(items, index_name, now) matches Ok(after) ==> after.found_root,
    decreases items.len(),
{
    let init = items.drop_last();
    if at < init.len() {
        assert(init[at] == items[at]);
        lemma_scan_remembers_root(state, init, index_name, now, at);
    }
    match state.entries(init, index_name, now) {
        Ok(before) => {
            match items.last() {
                SiteItem::Directory { name, documents } => {
                    lemma_documents_keep_root(before, documents, now);
                },
                SiteItem::Document(record) => {},
            }
        },
        Err(fault) => {},
    }
}

/// No scan gets through an input directory in which two documents lie.
pub proof fn lemma_two_root_documents_fail(
    state: ScanState,
    items: Seq<SiteItem>,
    index_name: Seq<char>,
    now: u64,
    first: int,
    second: int,
)
    requires
        0 <= first < second < items.len(),
        items[first] is Document,
        items[second] is Document,
    ensures
        state.entries(items, index_name, now) is Err,
    decreases items.len(),
{
    let init = items.drop_last();
    if second < init.len() {
        assert(init[first] == items[first] && init[second] == items[second]);
        lemma_two_root_documents_fail(state, init, index_name, now, first, second);
    } else {
        assert(init[first] == items[first]);
        lemma_scan_remembers_root(state, init, index_name, now, first);
    }
}

/// No scan gets through an input directory with a sub-directory that bears
/// the name of the index pages.
pub proof fn lemma_reserved_directory_fails(
    state: ScanState,
    items: Seq<SiteItem>,
    index_name: Seq<char>,
    now: u64,
    at: int,
)
    requires
        0 <= at < items.len(),
        items[at] matches SiteItem::Directory { name, .. } && name == index_name,
    ensures
        state.entries(items, index_name, now) is Err,
    decreases items.len(),
{
    let init = items.drop_last();
    if at < init.len() {
        assert(init[at] == items[at]);
        lemma_reserved_directory_fails(state, init, index_name, now, at);
    }
}

/// What a scan plans: the posts to render, in the order of the scan, and
/// the number of directories that gave one.
pub struct PostPlan {
    pub posts: Vec<PlannedPost>,
    pub sub_dir_count: usize,
}

/// Tracks the documents of one sub-directory and plans their posts.
fn track_documents(
    documents: &Vec<FileData>,
    tracking_info: &mut TrackingInfo,
    posts: &mut Vec<PlannedPost>,
    now: u64,
    Ghost(state): Ghost<ScanState>,
) -> (done: Result<Ghost<ScanState>, ScanError>)
    requires
        old(tracking_info).wf(),
        state.store == old(tracking_info)@,
        state.posts == sheets_of(old(posts)@),
    ensures
        final(tracking_info).wf(),
        match done {
            Ok(after) => {
                &&& state.documents(records_of(documents@), now) == Ok::<ScanState, ScanFault>(
                    after@,
                )
                &&& after@.store == final(tracking_info)@
                &&& after@.posts == sheets_of(final(posts)@)
                &&& after@.found_root == state.found_root
                &&& after@.sub_dirs == state.sub_dirs
            },
            Err(error) => state.documents(records_of(documents@), now) == Err::<
                ScanState,
                ScanFault,
            >(error@),
        },
{
    let ghost records = records_of(documents@);
    let ghost mut current = state;
    let mut i: usize = 0;
    proof {
        assert(records.take(0) =~= Seq::empty());
    }
    while i < documents.len()
        invariant
            i <= documents.len(),
            records == records_of(documents@),
            tracking_info.wf(),
            state.documents(records.take(i as int), now) == Ok::<ScanState, ScanFault>(current),
            current.store == tracking_info@,
            current.posts == sheets_of(posts@),
            current.found_root == state.found_root,
            current.sub_dirs == state.sub_dirs,
        decreases documents.len() - i,
    {
        let data = &documents[i];
        proof {
            assert(records.take(i + 1).drop_last() =~= records.take(i as int));
            assert(records.take(i + 1).last() == data@);
        }
        match tracking_info.track_file_at(data, now) {
            Ok(stamps) => {
                let ghost before = posts@;
                let post = PlannedPost {
                    path: format_output_path(data),
                    data: data.clone(),
                    last_updated: stamps.1,
                };
                posts.push(post);
                proof {
                    current = current.document(data@, now)->Ok_0;
                    assert(sheets_of(posts@) =~= sheets_of(before).push(post@));
                }
            },
            Err(TrackError::DuplicateKey { category, slug }) => {
                proof {
                    lemma_documents_fault(state, records, i as int + 1, now);
                }
                return Err(ScanError::DuplicateDocument { category, slug });
            },
            Err(TrackError::ClockBeforeEpoch) => {
                return vstd::pervasive::unreached();
            },
        }
        i += 1;
    }
    proof {
        assert(records.take(i as int) =~= records);
    }
    Ok(Ghost(current))
}

/// A fault among the first documents of a directory is the fault of the
/// whole directory.
proof fn lemma_documents_fault(state: ScanState, records: Seq<FileRecord>, n: int, now: u64)
    requires
        0 <= n <= records.len(),
        state.documents(records.take(n), now) is Err,
    ensures
        state.documents(records, now) == state.documents(records.take(n), now),
    decreases records.len() - n,
{
    if n < records.len() {
        assert(records.take(n + 1).drop_last() =~= records.take(n));
        lemma_documents_fault(state, records, n + 1, now);
    } else {
        assert(records.take(n) =~= records);
    }
}

/// A fault among the first entries is the fault of the whole scan.
proof fn lemma_entries_fault(
    state: ScanState,
    items: Seq<SiteItem>,
    n: int,
    index_name: Seq<char>,
    now: u64,
)
    requires
        0 <= n <= items.len(),
        state.entries(items.take(n), index_name, now) is Err,
    ensures
        state.entries(items, index_name, now) == state.entries(items.take(n), index_name, now),
    decreases items.len() - n,
{
    if n < items.len() {
        assert(items.take(n + 1).drop_last() =~= items.take(n));
        lemma_entries_fault(state, items, n + 1, index_name, now);
    } else {
        assert(items.take(n) =~= items);
    }
}

/// Tracks the documents of the entries and plans their posts, up to the
/// first fault.
fn scan_entries(
    config: &Config,
    entries: &Vec<SiteEntry>,
    tracking_info: &mut TrackingInfo,
    now: u64,
) -> (plan: Result<PostPlan, ScanError>)
    requires
        old(tracking_info).wf(),
    ensures
        final(tracking_info).wf(),
        match ScanState::start(old(tracking_info)@).entries(
            items_of(entries@),
            config@.pages_index_name,
            now,
        ) {
            Ok(state) => {
                &&& plan matches Ok(planned)
                &&& sheets_of(planned.posts@) == state.posts
                &&& planned.sub_dir_count == state.sub_dirs
                &&& final(tracking_info)@ == state.store
            },
            Err(fault) => plan matches Err(error) && error@ == fault,
        },
{
    let ghost start = ScanState::start(tracking_info@);
    let ghost items = items_of(entries@);
    let ghost index_name = config@.pages_index_name;
    let ghost mut current = start;
    let mut posts: Vec<PlannedPost> = Vec::new();
    let mut sub_dir_count: usize = 0;
    let mut found_root_file = false;
    let mut i: usize = 0;
    proof {
        assert(items.take(0) =~= Seq::empty());
        assert(sheets_of(posts@) =~= Seq::empty());
    }
    while i < entries.len()
        invariant
            i <= entries.len(),
            items == items_of(entries@),
            index_name == config@.pages_index_name,
            start == ScanState::start(old(tracking_info)@),
            tracking_info.wf(),
            start.entries(items.take(i as int), index_name, now) == Ok::<ScanState, ScanFault>(
                current,
            ),
            current.store == tracking_info@,
            current.posts == sheets_of(posts@),
            current.found_root == found_root_file,
            current.sub_dirs == sub_dir_count,
            sub_dir_count <= i,
        decreases entries.len() - i,
    {
        proof {
            assert(items.take(i + 1).drop_last() =~= items.take(i as int));
            assert(items.take(i + 1).last() == entries@[i as int]@);
        }
        match &entries[i] {
            SiteEntry::Document(data) => {
                assert(entries@[i as int]@ == SiteItem::Document(data@));
                if found_root_file {
                    proof {
                        assert(start.entries(items.take(i + 1), index_name, now)
                            == current.entry(items.take(i + 1).last(), index_name, now));
                        lemma_entries_fault(start, items, i as int + 1, index_name, now);
                    }
                    return Err(ScanError::MultipleRootDocuments);
                }
                found_root_file = true;
                let ghost before = posts@;
                let post = PlannedPost {
                    path: PostPath { dir: None, file_name: String::from_str("index.html") },
                    data: data.clone(),
                    last_updated: now,
                };
                posts.push(post);
                sub_dir_count = sub_dir_count + 1;
                proof {
                    current = current.entry(entries@[i as int]@, index_name, now)->Ok_0;
                    assert(sheets_of(posts@) =~= sheets_of(before).push(post@));
                }
            },
            SiteEntry::Directory { name, documents } => {
                assert(entries@[i as int]@ == (SiteItem::Directory {
                    name: name@,
                    documents: records_of(documents@),
                }));
                if *name == config.pages_index_name {
                    proof {
                        assert(start.entries(items.take(i + 1), index_name, now)
                            == current.entry(items.take(i + 1).last(), index_name, now));
                        lemma_entries_fault(start, items, i as int + 1, index_name, now);
                    }
                    return Err(ScanError::ReservedDirectory { name: name.clone() });
                }
                match track_documents(documents, tracking_info, &mut posts, now, Ghost(current)) {
                    Ok(after) => {
                        if documents.len() > 0 {
                            sub_dir_count = sub_dir_count + 1;
                        }
                        proof {
                            current = current.entry(entries@[i as int]@, index_name, now)->Ok_0;
                        }
                    },
                    Err(error) => {
                        proof {
                            assert(start.entries(items.take(i + 1), index_name, now)
                            == current.entry(items.take(i + 1).last(), index_name, now));
                            lemma_entries_fault(start, items, i as int + 1, index_name, now);
                        }
                        return Err(error);
                    },
                }
            },
        }
        i += 1;
    }
    proof {
        assert(items.take(i as int) =~= items);
    }
    Ok(PostPlan { posts, sub_dir_count })
}

/// Scans what lies in the input directory, for the run that takes place at
/// `now`: tracks every document of every sub-directory, plans a post for
/// each and one for the front page, and purges the store of what the run
/// did not see.
///
/// The scan is given up at the first entry that is a second document in
/// the input directory, a sub-directory with the name of the index pages,
/// or a document whose key was already seen in this run. The store is then
/// left as it was before the scan.
pub fn generate_posts(
    config: &Config,
    entries: &Vec<SiteEntry>,
    tracking_info: &mut TrackingInfo,
    now: u64,
) -> (plan: Result<PostPlan, ScanError>)
    requires
        old(tracking_info).wf(),
    ensures
        final(tracking_info).wf(),
        match ScanState::start(old(tracking_info)@).entries(
            items_of(entries@),
            config@.pages_index_name,
            now,
        ) {
            Ok(state) => {
                &&& plan matches Ok(planned)
                &&& sheets_of(planned.posts@) == state.posts
                &&& planned.sub_dir_count == state.sub_dirs
                &&& final(tracking_info)@ == state.store.purge()
            },
            Err(fault) => {
                &&& plan matches Err(error)
                &&& error@ == fault
                &&& final(tracking_info)@ == old(tracking_info)@
            },
        },
{
    let mut scanned = tracking_info.duplicate();
    match scan_entries(config, entries, &mut scanned, now) {
        Ok(planned) => {
            scanned.purge_untracked();
            *tracking_info = scanned;
            Ok(planned)
        },
        Err(error) => Err(error),
    }
}

/// A post as it is to be written.
pub struct RenderedPost {
    pub path: PostPath,
    pub html: String,
}

/// Renders a planned post, with the date of its last update as a clock
/// `utc_offset_seconds` east of UTC shows it. `None` when that time has no
/// date text.
pub fn render_post(post: &PlannedPost, utc_offset_seconds: i32) -> (rendered: Option<RenderedPost>)
    ensures
        rendered is Some <==> has_date_text(post.last_updated, utc_offset_seconds),
        rendered matches Some(page) ==> page.path@ == post.path@ && page.html@ == post_page(
            post.data@.title,
            rendered_html(post.data@.content),
            date_text(post.last_updated as int, utc_offset_seconds as int),
        ),
{
    match compile_full_html(&post.data, post.last_updated, utc_offset_seconds) {
        Some(html) => Some(
            RenderedPost {
                path: PostPath {
                    dir: match &post.path.dir {
                        Some(dir) => Some(dir.clone()),
                        None => None,
                    },
                    file_name: post.path.file_name.clone(),
                },
                html,
            },
        ),
        None => None,
    }
}

} // verus!
