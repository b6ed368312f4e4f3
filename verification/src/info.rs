//! The article book: one list of articles in one directory, each with the
//! times of its creation and of its last change, and an index of the
//! articles met in the current run.

use crate::persistence::{content_hash, get_timestamp, hash_text};
use crate::posts::ScannedPath;
use crate::sorting::{
    is_insertion_point, is_sorted_by, is_total_order, lemma_insert_at_point,
    lemma_sorted_by_is_sorted, lemma_sorted_by_keeps_items, lemma_text_le_total,
    lemma_text_le_transitive, sorted_by, text_comes_first, text_le,
};
use crate::text::{text_of, texts};
use crate::utils::{format_safe_filename, safe_filename_of};
use vstd::prelude::*;

verus! {

/// What is remembered of one article.
pub struct ArticleInfo {
    /// The name of the file, without extension.
    pub original_filename: String,
    /// The safe name derived from it, without extension.
    pub safe_filename: String,
    /// When the article was first seen, in seconds since the Unix epoch.
    pub created_at: u64,
    /// When its content last changed, in seconds since the Unix epoch.
    pub updated_at: u64,
    /// The digest of its content; empty until the content was read.
    pub content_hash: String,
    /// Its tags.
    pub tags: Vec<String>,
}

/// The mathematical value of an [`ArticleInfo`].
pub struct ArticleRecord {
    pub original_filename: Seq<char>,
    pub safe_filename: Seq<char>,
    pub created_at: u64,
    pub updated_at: u64,
    pub content_hash: Seq<char>,
    pub tags: Seq<Seq<char>>,
}

impl View for ArticleInfo {
    type V = ArticleRecord;

    open spec fn view(&self) -> ArticleRecord {
        ArticleRecord {
            original_filename: self.original_filename@,
            safe_filename: self.safe_filename@,
            created_at: self.created_at,
            updated_at: self.updated_at,
            content_hash: self.content_hash@,
            tags: texts(self.tags@),
        }
    }
}

/// A copy of a list of texts.
pub fn clone_texts(list: &Vec<String>) -> (copy: Vec<String>)
    ensures
        texts(copy@) == texts(list@),
{
    let mut copy: Vec<String> = Vec::new();
    let mut i: usize = 0;
    while i < list.len()
        invariant
            i <= list.len(),
            copy@.len() == i,
            forall|k: int| 0 <= k < i ==> (#[trigger] copy@[k])@ == list@[k]@,
        decreases list.len() - i,
    {
        copy.push(list[i].clone());
        i += 1;
    }
    proof {
        assert(texts(copy@) =~= texts(list@));
    }
    copy
}

impl Clone for ArticleInfo {
    fn clone(&self) -> (copy: Self)
        ensures
            copy@ == self@,
    {
        ArticleInfo {
            original_filename: self.original_filename.clone(),
            safe_filename: self.safe_filename.clone(),
            created_at: self.created_at,
            updated_at: self.updated_at,
            content_hash: self.content_hash.clone(),
            tags: clone_texts(&self.tags),
        }
    }
}

/// The values of a list of articles.
pub open spec fn records_of(articles: Seq<ArticleInfo>) -> Seq<ArticleRecord> {
    articles.map_values(|article: ArticleInfo| article@)
}

/// The articles as they are kept in the tracking file.
pub struct InfoFile {
    pub articles: Vec<ArticleInfo>,
}

impl InfoFile {
    /// A file without articles.
    pub fn new() -> (file: Self)
        ensures
            file.articles@.len() == 0,
    {
        InfoFile { articles: Vec::new() }
    }
}

/// What the site shows of one article.
pub struct PublicArticleInfo {
    pub original_title: String,
    pub safe_title: String,
    pub created_at: u64,
    pub tags: Vec<String>,
}

/// The mathematical value of a [`PublicArticleInfo`].
pub struct PublicArticleRecord {
    pub original_title: Seq<char>,
    pub safe_title: Seq<char>,
    pub created_at: u64,
    pub tags: Seq<Seq<char>>,
}

impl View for PublicArticleInfo {
    type V = PublicArticleRecord;

    open spec fn view(&self) -> PublicArticleRecord {
        PublicArticleRecord {
            original_title: self.original_title@,
            safe_title: self.safe_title@,
            created_at: self.created_at,
            tags: texts(self.tags@),
        }
    }
}

impl ArticleRecord {
    /// What the site shows of the article.
    pub open spec fn public(self) -> PublicArticleRecord {
        PublicArticleRecord {
            original_title: self.original_filename,
            safe_title: self.safe_filename,
            created_at: self.created_at,
            tags: self.tags,
        }
    }

    /// The record of an article first seen at `now`, whose content was not
    /// read yet.
    pub open spec fn fresh(name: Seq<char>, safe: Seq<char>, now: u64) -> ArticleRecord {
        ArticleRecord {
            original_filename: name,
            safe_filename: safe,
            created_at: now,
            updated_at: now,
            content_hash: Seq::empty(),
            tags: Seq::empty(),
        }
    }

    /// The record after the content was read at `now` and found to have the
    /// digest `hash`: touched only when the digest is new, and the time of
    /// change moved only when the clock could be read.
    pub open spec fn refreshed(self, hash: Seq<char>, now: Option<u64>) -> ArticleRecord {
        if self.content_hash == hash {
            self
        } else {
            ArticleRecord {
                content_hash: hash,
                updated_at: match now {
                    Some(time) => time,
                    None => self.updated_at,
                },
                ..self
            }
        }
    }
}

impl PublicArticleInfo {
    /// What the site shows of an article.
    pub fn from(article: &ArticleInfo) -> (shown: Self)
        ensures
            shown@ == article@.public(),
    {
        PublicArticleInfo {
            original_title: article.original_filename.clone(),
            safe_title: article.safe_filename.clone(),
            created_at: article.created_at,
            tags: clone_texts(&article.tags),
        }
    }
}

/// The values of a list of shown articles.
pub open spec fn public_records_of(articles: Seq<PublicArticleInfo>) -> Seq<PublicArticleRecord> {
    articles.map_values(|article: PublicArticleInfo| article@)
}

/// What the site shows of the whole book: the articles, and the state of a
/// search that has not begun.
pub struct PublicInfoFile {
    pub page_num: u32,
    pub search_term: String,
    pub articles: Vec<PublicArticleInfo>,
    pub results: Vec<PublicArticleInfo>,
}

impl PublicInfoFile {
    /// What the site shows of the articles of a file.
    pub fn from(info_file: &InfoFile) -> (shown: Self)
        ensures
            shown.page_num == 0,
            shown.search_term@.len() == 0,
            shown.results@.len() == 0,
            public_records_of(shown.articles@) == records_of(info_file.articles@).map_values(
                |article: ArticleRecord| article.public(),
            ),
    {
        let mut articles: Vec<PublicArticleInfo> = Vec::new();
        let mut i: usize = 0;
        while i < info_file.articles.len()
            invariant
                i <= info_file.articles.len(),
                articles@.len() == i,
                forall|k: int|
                    0 <= k < i ==> (#[trigger] articles@[k])@ == info_file.articles@[k]@.public(),
            decreases info_file.articles.len() - i,
        {
            articles.push(PublicArticleInfo::from(&info_file.articles[i]));
            i += 1;
        }
        proof {
            assert(public_records_of(articles@) =~= records_of(info_file.articles@).map_values(
                |article: ArticleRecord| article.public(),
            ));
        }
        PublicInfoFile { articles, page_num: 0, search_term: String::new(), results: Vec::new() }
    }
}

/// The mathematical value of an [`InfoWrangler`]: the articles in their
/// order, and for each safe name met in this run the place where its
/// article stood when it was met.
pub struct ArticleBook {
    pub articles: Seq<ArticleRecord>,
    pub lookup: Map<Seq<char>, usize>,
}

/// The place of the first article with a safe name, if there is one.
pub open spec fn place_of(articles: Seq<ArticleRecord>, safe: Seq<char>) -> Option<int>
    decreases articles.len(),
{
    if articles.len() == 0 {
        None
    } else {
        match place_of(articles.drop_last(), safe) {
            Some(place) => Some(place),
            None => if articles.last().safe_filename == safe {
                Some(articles.len() - 1)
            } else {
                None
            },
        }
    }
}

/// The order by time of creation, earliest first.
pub open spec fn by_creation() -> spec_fn(ArticleRecord, ArticleRecord) -> bool {
    |first: ArticleRecord, second: ArticleRecord| first.created_at <= second.created_at
}

/// The order by name.
pub open spec fn by_name() -> spec_fn(ArticleRecord, ArticleRecord) -> bool {
    |first: ArticleRecord, second: ArticleRecord|
        text_le(first.original_filename, second.original_filename)
}

/// Sorted by creation, no article is followed by one created earlier, and
/// the list holds what it held.
pub proof fn lemma_sorted_by_creation(articles: Seq<ArticleRecord>)
    ensures
        is_sorted_by(sorted_by(articles, by_creation()), by_creation()),
        sorted_by(articles, by_creation()).to_multiset() == articles.to_multiset(),
{
    assert(is_total_order(by_creation()));
    lemma_sorted_by_is_sorted(articles, by_creation());
    lemma_sorted_by_keeps_items(articles, by_creation());
}

/// Sorted by name, no article is followed by one whose name comes before
/// its own, and the list holds what it held.
pub proof fn lemma_sorted_by_name(articles: Seq<ArticleRecord>)
    ensures
        is_sorted_by(sorted_by(articles, by_name()), by_name()),
        sorted_by(articles, by_name()).to_multiset() == articles.to_multiset(),
{
    let stays = by_name();
    assert forall|a: ArticleRecord, b: ArticleRecord| #[trigger] stays(a, b) || #[trigger] stays(
        b,
        a,
    ) by {
        lemma_text_le_total(a.original_filename, b.original_filename);
    }
    assert forall|a: ArticleRecord, b: ArticleRecord, c: ArticleRecord| #[trigger]
        stays(a, b) && #[trigger] stays(b, c) implies stays(a, c) by {
        lemma_text_le_transitive(a.original_filename, b.original_filename, c.original_filename);
    }
    lemma_sorted_by_is_sorted(articles, stays);
    lemma_sorted_by_keeps_items(articles, stays);
}

/// Why an article could not be entered.
pub enum InfoError {
    /// Two files of the run have the same safe name.
    DuplicateSafeFilename { safe_filename: String },
}

impl ArticleBook {
    /// The book without articles.
    pub open spec fn empty() -> ArticleBook {
        ArticleBook { articles: Seq::empty(), lookup: Map::empty() }
    }

    /// Every place the index names lies within the list.
    pub open spec fn valid(self) -> bool {
        forall|safe: Seq<char>| #[trigger]
            self.lookup.dom().contains(safe) ==> self.lookup[safe] < self.articles.len()
    }

    /// The safe name under which a file is entered, if it has one.
    pub open spec fn safe_name(stem: Option<Seq<char>>) -> Option<Seq<char>> {
        match stem {
            Some(name) => safe_filename_of(name),
            None => None,
        }
    }

    /// Whether a file cannot be entered, its safe name being that of an
    /// article already met in this run.
    pub open spec fn refuses(self, stem: Option<Seq<char>>) -> bool {
        match ArticleBook::safe_name(stem) {
            Some(safe) => place_of(self.articles, safe) is Some && self.lookup.dom().contains(safe),
            None => false,
        }
    }

    /// The book after a file that it does not refuse was entered at `now`.
    /// A file without safe name changes nothing; an article of that safe
    /// name is indexed; a new article is added at the end and indexed,
    /// provided the clock could be read.
    pub open spec fn upsert(self, stem: Option<Seq<char>>, now: Option<u64>) -> ArticleBook {
        match ArticleBook::safe_name(stem) {
            None => self,
            Some(safe) => match place_of(self.articles, safe) {
                Some(place) => ArticleBook {
                    lookup: self.lookup.insert(safe, place as usize),
                    ..self
                },
                None => match now {
                    None => self,
                    Some(time) => ArticleBook {
                        articles: self.articles.push(ArticleRecord::fresh(stem->0, safe, time)),
                        lookup: self.lookup.insert(safe, self.articles.len() as usize),
                    },
                },
            },
        }
    }

    /// The place the index names for a file, if it names one.
    pub open spec fn indexed(self, stem: Option<Seq<char>>) -> Option<usize> {
        match ArticleBook::safe_name(stem) {
            Some(safe) => if self.lookup.dom().contains(safe) {
                Some(self.lookup[safe])
            } else {
                None
            },
            None => None,
        }
    }

    /// The article the index names for a file, if it names one within the
    /// list.
    pub open spec fn article(self, stem: Option<Seq<char>>) -> Option<ArticleRecord> {
        match self.indexed(stem) {
            Some(place) => if place < self.articles.len() {
                Some(self.articles[place as int])
            } else {
                None
            },
            None => None,
        }
    }

    /// The book after the content of a file was read at `now`: the article
    /// the index names for the file is refreshed with the digest of the
    /// content.
    pub open spec fn update_content(
        self,
        stem: Option<Seq<char>>,
        content: Seq<char>,
        now: Option<u64>,
    ) -> ArticleBook {
        match self.article(stem) {
            Some(article) => ArticleBook {
                articles: self.articles.update(
                    self.indexed(stem)->0 as int,
                    article.refreshed(content_hash(content), now),
                ),
                ..self
            },
            None => self,
        }
    }
}

/// One line of the index: a safe name and a place in the list.
struct LookupEntry {
    key: String,
    index: usize,
}

spec fn lookup_keys(entries: Seq<LookupEntry>) -> Seq<Seq<char>> {
    entries.map_values(|entry: LookupEntry| entry.key@)
}

spec fn lookup_of(entries: Seq<LookupEntry>) -> Map<Seq<char>, usize> {
    Map::new(
        |key: Seq<char>| lookup_keys(entries).contains(key),
        |key: Seq<char>| entries[lookup_keys(entries).index_of(key)].index,
    )
}

/// In an index without repeated names, a name is found where it stands.
proof fn lemma_lookup_at(entries: Seq<LookupEntry>, i: int)
    requires
        lookup_keys(entries).no_duplicates(),
        0 <= i < entries.len(),
    ensures
        lookup_of(entries).dom().contains(entries[i].key@),
        lookup_of(entries)[entries[i].key@] == entries[i].index,
{
    let keys = lookup_keys(entries);
    assert(keys[i] == entries[i].key@);
    let j = keys.index_of(entries[i].key@);
    assert(0 <= j < keys.len() && keys[j] == entries[i].key@);
}

/// Adding a line under a name that the index does not hold.
proof fn lemma_lookup_push(entries: Seq<LookupEntry>, entry: LookupEntry)
    requires
        lookup_keys(entries).no_duplicates(),
        !lookup_keys(entries).contains(entry.key@),
    ensures
        lookup_keys(entries.push(entry)).no_duplicates(),
        lookup_of(entries.push(entry)) == lookup_of(entries).insert(entry.key@, entry.index),
{
    let after = entries.push(entry);
    assert(lookup_keys(after) =~= lookup_keys(entries).push(entry.key@));
    assert forall|key: Seq<char>| #[trigger]
        lookup_of(after).dom().contains(key) implies lookup_of(after)[key] == lookup_of(
        entries,
    ).insert(entry.key@, entry.index)[key] by {
        let j = lookup_keys(after).index_of(key);
        assert(0 <= j < after.len() && lookup_keys(after)[j] == key);
        lemma_lookup_at(after, j);
        if j < entries.len() {
            assert(lookup_keys(entries)[j] == key);
            lemma_lookup_at(entries, j);
        }
    }
    assert forall|key: Seq<char>|
        lookup_of(entries).insert(entry.key@, entry.index).dom().contains(key)
        implies #[trigger] lookup_of(after).dom().contains(key) by {
        if key == entry.key@ {
            assert(lookup_keys(after)[entries.len() as int] == key);
        } else {
            let j = lookup_keys(entries).index_of(key);
            assert(lookup_keys(after)[j] == key);
        }
    }
    assert(lookup_of(after) =~= lookup_of(entries).insert(entry.key@, entry.index));
}

/// The article book.
pub struct InfoWrangler {
    info_file: InfoFile,
    lookup: Vec<LookupEntry>,
}

impl View for InfoWrangler {
    type V = ArticleBook;

    closed spec fn view(&self) -> ArticleBook {
        ArticleBook {
            articles: records_of(self.info_file.articles@),
            lookup: lookup_of(self.lookup@),
        }
    }
}

impl InfoWrangler {
    /// The invariant of the book: the index holds no name twice and names
    /// no place outside the list.
    pub closed spec fn wf(&self) -> bool {
        &&& lookup_keys(self.lookup@).no_duplicates()
        &&& forall|i: int|
            0 <= i < self.lookup@.len() ==> (#[trigger] self.lookup@[i]).index
                < self.info_file.articles@.len()
    }

    /// A well-formed book has a valid value.
    pub proof fn lemma_valid(&self)
        requires
            self.wf(),
        ensures
            self@.valid(),
    {
        assert forall|safe: Seq<char>| #[trigger]
            self@.lookup.dom().contains(safe) implies self@.lookup[safe]
            < self@.articles.len() by {
            let j = lookup_keys(self.lookup@).index_of(safe);
            assert(0 <= j < self.lookup@.len() && lookup_keys(self.lookup@)[j] == safe);
            lemma_lookup_at(self.lookup@, j);
        }
    }

    /// A book without articles.
    pub fn new() -> (book: Self)
        ensures
            book.wf(),
            book@ == ArticleBook::empty(),
    {
        let book = InfoWrangler { info_file: InfoFile::new(), lookup: Vec::new() };
        proof {
            assert(book@.articles =~= Seq::empty());
            assert(book@.lookup =~= Map::empty());
        }
        book
    }

    /// The book of the articles that were read from the tracking file, or
    /// an empty one when there was no file. No article counts as met.
    pub fn init(stored: Option<InfoFile>) -> (book: Self)
        ensures
            book.wf(),
            book@.lookup == Map::<Seq<char>, usize>::empty(),
            book@.articles == match stored {
                Some(file) => records_of(file.articles@),
                None => Seq::empty(),
            },
    {
        match stored {
            Some(info_file) => {
                let book = InfoWrangler { info_file, lookup: Vec::new() };
                proof {
                    assert(book@.lookup =~= Map::empty());
                }
                book
            },
            None => InfoWrangler::new(),
        }
    }

    /// What the site shows of the book.
    pub fn get_public_info(&self) -> (shown: PublicInfoFile)
        ensures
            shown.page_num == 0,
            shown.search_term@.len() == 0,
            shown.results@.len() == 0,
            public_records_of(shown.articles@) == self@.articles.map_values(
                |article: ArticleRecord| article.public(),
            ),
    {
        PublicInfoFile::from(&self.info_file)
    }

    /// Where the index holds a name, if it does.
    fn lookup_position(&self, key: &String) -> (found: Option<usize>)
        requires
            self.wf(),
        ensures
            match found {
                Some(i) => i < self.lookup@.len() && self.lookup@[i as int].key@ == key@
                    && self@.lookup.dom().contains(key@) && self@.lookup[key@]
                    == self.lookup@[i as int].index,
                None => !self@.lookup.dom().contains(key@),
            },
    {
        let mut i: usize = 0;
        while i < self.lookup.len()
            invariant
                self.wf(),
                i <= self.lookup.len(),
                forall|j: int| 0 <= j < i ==> (#[trigger] self.lookup@[j]).key@ != key@,
            decreases self.lookup.len() - i,
        {
            if self.lookup[i].key == *key {
                proof {
                    lemma_lookup_at(self.lookup@, i as int);
                }
                return Some(i);
            }
            i += 1;
        }
        proof {
            let keys = lookup_keys(self.lookup@);
            if keys.contains(key@) {
                let j = choose|j: int| 0 <= j < keys.len() && keys[j] == key@;
                assert(self.lookup@[j].key@ == key@);
            }
        }
        None
    }

    /// The place of the first article with a safe name, if there is one.
    fn find_article(&self, safe: &String) -> (found: Option<usize>)
        ensures
            match found {
                Some(i) => place_of(self@.articles, safe@) == Some(i as int)
                    && i < self.info_file.articles@.len(),
                None => place_of(self@.articles, safe@) is None,
            },
    {
        let ghost articles = records_of(self.info_file.articles@);
        let mut i: usize = 0;
        proof {
            assert(articles.take(0) =~= Seq::empty());
        }
        while i < self.info_file.articles.len()
            invariant
                i <= self.info_file.articles.len(),
                articles == records_of(self.info_file.articles@),
                articles == self@.articles,
                place_of(articles.take(i as int), safe@) is None,
            decreases self.info_file.articles.len() - i,
        {
            proof {
                assert(articles.take(i + 1).drop_last() =~= articles.take(i as int));
                assert(articles.take(i + 1).last() == self.info_file.articles@[i as int]@);
            }
            if self.info_file.articles[i].safe_filename == *safe {
                proof {
                    lemma_place_found(articles, safe@, i as int + 1);
                }
                return Some(i);
            }
            i += 1;
        }
        proof {
            assert(articles.take(i as int) =~= articles);
        }
        None
    }

    /// Enters the file at `path` for the run that takes place at `now`,
    /// which is `None` when the clock could not be read. A file whose safe
    /// name is that of an article already met in this run is refused.
    pub fn upsert_at(&mut self, path: &ScannedPath, now: Option<u64>) -> (done: Result<
        (),
        InfoError,
    >)
        requires
            old(self).wf(),
        ensures
            final(self).wf(),
            if old(self)@.refuses(text_of(path.file_stem)) {
                &&& done matches Err(InfoError::DuplicateSafeFilename { safe_filename })
                &&& Some(safe_filename@) == ArticleBook::safe_name(text_of(path.file_stem))
                &&& final(self)@ == old(self)@
            } else {
                &&& done is Ok
                &&& final(self)@ == old(self)@.upsert(text_of(path.file_stem), now)
            },
    {
        let original_filename = match &path.file_stem {
            Some(name) => name.clone(),
            None => {
                return Ok(());
            },
        };
        let safe_filename = match format_safe_filename(original_filename.as_str()) {
            Some(name) => name,
            None => {
                return Ok(());
            },
        };
        let ghost before = self.lookup@;
        match self.find_article(&safe_filename) {
            Some(i) => {
                match self.lookup_position(&safe_filename) {
                    Some(_) => Err(InfoError::DuplicateSafeFilename { safe_filename }),
                    None => {
                        let entry = LookupEntry { key: safe_filename, index: i };
                        self.lookup.push(entry);
                        proof {
                            lemma_lookup_push(before, entry);
                        }
                        Ok(())
                    },
                }
            },
            None => {
                let time = match now {
                    Some(time) => time,
                    None => {
                        return Ok(());
                    },
                };
                let ghost articles = self.info_file.articles@;
                let place = self.info_file.articles.len();
                let new_article = ArticleInfo {
                    original_filename,
                    safe_filename: safe_filename.clone(),
                    created_at: time,
                    updated_at: time,
                    content_hash: String::new(),
                    tags: Vec::new(),
                };
                proof {
                    assert(new_article@.tags =~= Seq::empty());
                    assert(new_article@ == ArticleRecord::fresh(
                        path.file_stem->0@,
                        safe_filename@,
                        time,
                    ));
                }
                match self.lookup_position(&safe_filename) {
                    Some(at) => {
                        self.info_file.articles.push(new_article);
                        self.lookup[at].index = place;
                        proof {
                            let entry = self.lookup@[at as int];
                            assert(self.lookup@ =~= before.update(at as int, entry));
                            lemma_lookup_update(before, at as int, entry);
                            assert(records_of(self.info_file.articles@) =~= records_of(
                                articles,
                            ).push(new_article@));
                        }
                    },
                    None => {
                        self.info_file.articles.push(new_article);
                        let entry = LookupEntry { key: safe_filename, index: place };
                        self.lookup.push(entry);
                        proof {
                            lemma_lookup_push(before, entry);
                            assert(records_of(self.info_file.articles@) =~= records_of(
                                articles,
                            ).push(new_article@));
                        }
                    },
                }
                Ok(())
            },
        }
    }

    /// Enters the file at `path` at the time the system clock shows.
    pub fn upsert(&mut self, path: &ScannedPath) -> (done: Result<(), InfoError>)
        requires
            old(self).wf(),
        ensures
            final(self).wf(),
            if old(self)@.refuses(text_of(path.file_stem)) {
                &&& done matches Err(InfoError::DuplicateSafeFilename { safe_filename })
                &&& Some(safe_filename@) == ArticleBook::safe_name(text_of(path.file_stem))
                &&& final(self)@ == old(self)@
            } else {
                &&& done is Ok
                &&& exists|now: Option<u64>|
                    final(self)@ == #[trigger] old(self)@.upsert(text_of(path.file_stem), now)
            },
    {
        let now = get_timestamp();
        let done = self.upsert_at(path, now);
        proof {
            if !old(self)@.refuses(text_of(path.file_stem)) {
                assert(self@ == old(self)@.upsert(text_of(path.file_stem), now));
            }
        }
        done
    }

    /// The place the index names for the file at `path`, if it names one.
    fn indexed(&self, path: &ScannedPath) -> (place: Option<usize>)
        requires
            self.wf(),
        ensures
            place == self@.indexed(text_of(path.file_stem)),
            place matches Some(i) ==> i < self.info_file.articles@.len(),
    {
        let original_filename = match &path.file_stem {
            Some(name) => name,
            None => {
                return None;
            },
        };
        let safe_filename = match format_safe_filename(original_filename.as_str()) {
            Some(name) => name,
            None => {
                return None;
            },
        };
        match self.lookup_position(&safe_filename) {
            Some(at) => Some(self.lookup[at].index),
            None => None,
        }
    }

    /// Takes note of the content of the file at `path`, read at `now`,
    /// which is `None` when the clock could not be read: when the digest
    /// of the content is new, it is remembered and the time of change
    /// becomes `now`.
    pub fn update_content_at(&mut self, path: &ScannedPath, content: &str, now: Option<u64>)
        requires
            old(self).wf(),
        ensures
            final(self).wf(),
            final(self)@ == old(self)@.update_content(text_of(path.file_stem), content@, now),
    {
        let index = match self.indexed(path) {
            Some(index) => index,
            None => {
                return ;
            },
        };
        let content_hash = hash_text(content);
        let ghost articles = self.info_file.articles@;
        if self.info_file.articles[index].content_hash != content_hash {
            self.info_file.articles[index].content_hash = content_hash;
            match now {
                Some(time) => {
                    self.info_file.articles[index].updated_at = time;
                },
                None => {},
            }
        }
        proof {
            assert(records_of(self.info_file.articles@) =~= records_of(articles).update(
                index as int,
                articles[index as int]@.refreshed(content_hash@, now),
            ));
        }
    }

    /// Takes note of the content of the file at `path` at the time the
    /// system clock shows.
    pub fn update_content(&mut self, path: &ScannedPath, content: &str)
        requires
            old(self).wf(),
        ensures
            final(self).wf(),
            exists|now: Option<u64>|
                final(self)@ == #[trigger] old(self)@.update_content(
                    text_of(path.file_stem),
                    content@,
                    now,
                ),
    {
        let now = get_timestamp();
        self.update_content_at(path, content, now);
        proof {
            assert(self@ == old(self)@.update_content(text_of(path.file_stem), content@, now));
        }
    }

    /// The article the index names for the file at `path`.
    pub fn get_article(&self, path: &ScannedPath) -> (found: Option<&ArticleInfo>)
        requires
            self.wf(),
        ensures
            match found {
                Some(article) => Some(article@) == self@.article(text_of(path.file_stem)),
                None => self@.article(text_of(path.file_stem)) is None,
            },
    {
        match self.indexed(path) {
            Some(index) => Some(&self.info_file.articles[index]),
            None => None,
        }
    }

    /// The articles in their order.
    pub fn articles(&self) -> (list: &Vec<ArticleInfo>)
        ensures
            records_of(list@) == self@.articles,
    {
        &self.info_file.articles
    }

    /// Sorts the articles by their time of creation, earliest first.
    /// Articles created at the same time keep their order. The index is
    /// not touched: it names places, not articles.
    pub fn sort_created_at(&mut self)
        requires
            old(self).wf(),
        ensures
            final(self).wf(),
            final(self)@.lookup == old(self)@.lookup,
            final(self)@.articles == sorted_by(old(self)@.articles, by_creation()),
    {
        let ghost stays = by_creation();
        let ghost before = records_of(self.info_file.articles@);
        let mut sorted: Vec<ArticleInfo> = Vec::new();
        let mut i: usize = 0;
        proof {
            assert(before.take(0) =~= Seq::empty());
            assert(records_of(sorted@) =~= Seq::empty());
        }
        while i < self.info_file.articles.len()
            invariant
                stays == by_creation(),
                self.wf(),
                self.lookup@ == old(self).lookup@,
                self.info_file.articles@ == old(self).info_file.articles@,
                before == records_of(self.info_file.articles@),
                i <= self.info_file.articles.len(),
                sorted@.len() == i,
                records_of(sorted@) == sorted_by(before.take(i as int), stays),
            decreases self.info_file.articles.len() - i,
        {
            let article = self.info_file.articles[i].clone();
            let mut at: usize = sorted.len();
            while at > 0 && sorted[at - 1].created_at > article.created_at
                invariant
                    stays == by_creation(),
                    at <= sorted@.len(),
                    forall|k: int|
                        at <= k < sorted@.len() ==> !stays(
                            #[trigger] records_of(sorted@)[k],
                            article@,
                        ),
                decreases at,
            {
                at -= 1;
                assert(records_of(sorted@)[at as int] == sorted@[at as int]@);
            }
            proof {
                let held = records_of(sorted@);
                if at > 0 {
                    assert(held[at - 1] == sorted@[at - 1]@);
                }
                assert(is_insertion_point(held, article@, stays, at as int));
                lemma_insert_at_point(held, article@, stays, at as int);
                assert(before.take(i + 1).drop_last() =~= before.take(i as int));
                assert(before.take(i + 1).last() == article@);
                assert(records_of(sorted@.insert(at as int, article)) =~= held.insert(
                    at as int,
                    article@,
                ));
            }
            sorted.insert(at, article);
            i += 1;
        }
        proof {
            assert(before.take(i as int) =~= before);
        }
        self.info_file.articles = sorted;
    }

    /// Sorts the articles by their name. Articles of the same name keep
    /// their order. The index is not touched: it names places, not
    /// articles.
    pub fn sort_alphabetical(&mut self)
        requires
            old(self).wf(),
        ensures
            final(self).wf(),
            final(self)@.lookup == old(self)@.lookup,
            final(self)@.articles == sorted_by(old(self)@.articles, by_name()),
    {
        let ghost stays = by_name();
        let ghost before = records_of(self.info_file.articles@);
        let mut sorted: Vec<ArticleInfo> = Vec::new();
        let mut i: usize = 0;
        proof {
            assert(before.take(0) =~= Seq::empty());
            assert(records_of(sorted@) =~= Seq::empty());
        }
        while i < self.info_file.articles.len()
            invariant
                stays == by_name(),
                self.wf(),
                self.lookup@ == old(self).lookup@,
                self.info_file.articles@ == old(self).info_file.articles@,
                before == records_of(self.info_file.articles@),
                i <= self.info_file.articles.len(),
                sorted@.len() == i,
                records_of(sorted@) == sorted_by(before.take(i as int), stays),
            decreases self.info_file.articles.len() - i,
        {
            let article = self.info_file.articles[i].clone();
            let mut at: usize = sorted.len();
            while at > 0 && !text_comes_first(
                sorted[at - 1].original_filename.as_str(),
                article.original_filename.as_str(),
            )
                invariant
                    stays == by_name(),
                    at <= sorted@.len(),
                    forall|k: int|
                        at <= k < sorted@.len() ==> !stays(
                            #[trigger] records_of(sorted@)[k],
                            article@,
                        ),
                decreases at,
            {
                at -= 1;
                assert(records_of(sorted@)[at as int] == sorted@[at as int]@);
            }
            proof {
                let held = records_of(sorted@);
                if at > 0 {
                    assert(held[at - 1] == sorted@[at - 1]@);
                }
                assert(is_insertion_point(held, article@, stays, at as int));
                lemma_insert_at_point(held, article@, stays, at as int);
                assert(before.take(i + 1).drop_last() =~= before.take(i as int));
                assert(before.take(i + 1).last() == article@);
                assert(records_of(sorted@.insert(at as int, article)) =~= held.insert(
                    at as int,
                    article@,
                ));
            }
            sorted.insert(at, article);
            i += 1;
        }
        proof {
            assert(before.take(i as int) =~= before);
        }
        self.info_file.articles = sorted;
    }

    /// Sorts the articles by name and hands out what is to be written to
    /// the tracking file.
    pub fn save(&mut self) -> (file: InfoFile)
        requires
            old(self).wf(),
        ensures
            final(self).wf(),
            final(self)@.lookup == old(self)@.lookup,
            final(self)@.articles == sorted_by(old(self)@.articles, by_name()),
            records_of(file.articles@) == final(self)@.articles,
    {
        self.sort_alphabetical();
        let mut articles: Vec<ArticleInfo> = Vec::new();
        let mut i: usize = 0;
        while i < self.info_file.articles.len()
            invariant
                i <= self.info_file.articles.len(),
                articles@.len() == i,
                forall|k: int|
                    0 <= k < i ==> (#[trigger] articles@[k])@ == self.info_file.articles@[k]@,
            decreases self.info_file.articles.len() - i,
        {
            articles.push(self.info_file.articles[i].clone());
            i += 1;
        }
        proof {
            assert(records_of(articles@) =~= records_of(self.info_file.articles@));
        }
        InfoFile { articles }
    }
}

/// An article found among the first of a list is the first of the whole
/// list.
proof fn lemma_place_found(articles: Seq<ArticleRecord>, safe: Seq<char>, n: int)
    requires
        0 <= n <= articles.len(),
        place_of(articles.take(n), safe) is Some,
    ensures
        place_of(articles, safe) == place_of(articles.take(n), safe),
    decreases articles.len() - n,
{
    if n < articles.len() {
        assert(articles.take(n + 1).drop_last() =~= articles.take(n));
        lemma_place_found(articles, safe, n + 1);
    } else {
        assert(articles.take(n) =~= articles);
    }
}

/// Changing the place that a line of the index names.
proof fn lemma_lookup_update(entries: Seq<LookupEntry>, i: int, entry: LookupEntry)
    requires
        lookup_keys(entries).no_duplicates(),
        0 <= i < entries.len(),
        entry.key@ == entries[i].key@,
    ensures
        lookup_keys(entries.update(i, entry)) == lookup_keys(entries),
        lookup_of(entries.update(i, entry)) == lookup_of(entries).insert(entry.key@, entry.index),
{
    let after = entries.update(i, entry);
    assert(lookup_keys(after) =~= lookup_keys(entries));
    lemma_lookup_at(entries, i);
    assert forall|key: Seq<char>| #[trigger]
        lookup_of(after).dom().contains(key) implies lookup_of(after)[key] == lookup_of(
        entries,
    ).insert(entry.key@, entry.index)[key] by {
        let j = lookup_keys(after).index_of(key);
        assert(0 <= j < after.len() && lookup_keys(after)[j] == key);
        lemma_lookup_at(after, j);
        lemma_lookup_at(entries, j);
        assert(lookup_keys(entries)[i] == entry.key@);
        assert(lookup_keys(entries)[j] == key);
        if j != i {
            assert(after[j] == entries[j]);
            assert(key != entry.key@);
        }
    }
    assert(lookup_of(after) =~= lookup_of(entries).insert(entry.key@, entry.index));
}

} // verus!
