//! The index pages of a category: its posts, the most recently changed
//! first, in pages of a fixed size with links from each page to its
//! neighbours.

use crate::config::{Config, Settings};
use crate::persistence::{entries_of, PersistentFileInfo, TrackingInfo};
use crate::store::{TrackedEntry, TrackingStore};
use crate::sorting::{is_descending, lemma_sorted_by_recency, sort_by_recency, sorted_by_recency};
use crate::text::{decimal, push_decimal};
use crate::utils::{format_safe_text, slug_of};
use vstd::prelude::*;

verus! {

/// What every index page begins with.
pub open spec fn page_header() -> Seq<char> {
    r#"
<!DOCTYPE html>
<html lang="en">
    <head>
        <meta name="viewport" content="width=device-width, initial-scale=1.0">
        <meta charset="UTF-8">
        <title>blag</title>
    </head>
    <body class="page">
"#@
}

/// What every index page ends with.
pub open spec fn page_footer() -> Seq<char> {
    r#"
    </body>
</html>
"#@
}

/// The address of a post.
pub open spec fn post_href(repo_name: Seq<char>, safe_dir: Seq<char>, title: Seq<char>) -> Seq<
    char,
> {
    "/"@ + repo_name + "/"@ + safe_dir + "/"@ + slug_of(title) + ".html"@
}

/// The line of an index page that links to one post.
pub open spec fn post_line(repo_name: Seq<char>, safe_dir: Seq<char>, title: Seq<char>) -> Seq<
    char,
> {
    r#"<p><a href=""#@ + post_href(repo_name, safe_dir, title) + r#"">"#@ + title + "</a></p>"@
        + "\n"@
}

/// The lines of the posts of one page, in their order.
pub open spec fn post_lines(
    repo_name: Seq<char>,
    safe_dir: Seq<char>,
    titles: Seq<Seq<char>>,
) -> Seq<
    char,
>
    decreases titles.len(),
{
    if titles.len() == 0 {
        Seq::empty()
    } else {
        post_lines(repo_name, safe_dir, titles.drop_last()) + post_line(
            repo_name,
            safe_dir,
            titles.last(),
        )
    }
}

/// The number in the name of the file of a page: pages count from zero,
/// their files from one.
pub open spec fn file_number(page: nat) -> nat {
    page + 1
}

/// The page before a page, if there is one.
pub open spec fn previous_page(current: nat) -> Option<nat> {
    if current > 0 {
        Some((current - 1) as nat)
    } else {
        None
    }
}

/// The page after a page, if there is one.
pub open spec fn next_page(current: nat, total: nat) -> Option<nat> {
    if current + 1 < total {
        Some(current + 1)
    } else {
        None
    }
}

/// The address of an index page.
pub open spec fn page_href(settings: Settings, safe_dir: Seq<char>, page: nat) -> Seq<char> {
    "/"@ + settings.repo_name + "/"@ + settings.pages_index_name + "/"@ + safe_dir + "/"@ + decimal(
        file_number(page),
    ) + ".html"@
}

/// The link to the page before, or the words alone on the first page.
pub open spec fn previous_link(settings: Settings, safe_dir: Seq<char>, current: nat) -> Seq<char> {
    match previous_page(current) {
        Some(page) => r#"<a href=""#@ + page_href(settings, safe_dir, page)
            + r#"">previous page</a>"#@,
        None => "<span>previous page</span>"@,
    }
}

/// The link to the page after, or the words alone on the last page.
pub open spec fn next_link(
    settings: Settings,
    safe_dir: Seq<char>,
    current: nat,
    total: nat,
) -> Seq<
    char,
> {
    match next_page(current, total) {
        Some(page) => r#"<a href=""#@ + page_href(settings, safe_dir, page)
            + r#"">next page</a>"#@,
        None => "<span>next page</span>"@,
    }
}

/// The link to the project, which every page carries.
pub open spec fn project_link(github_link: Seq<char>) -> Seq<char> {
    r#"<a href=""#@ + github_link + r#"">github</a>"#@
}

/// The navigation of page `current` of `total`.
pub open spec fn navigation(
    settings: Settings,
    safe_dir: Seq<char>,
    current: nat,
    total: nat,
) -> Seq<
    char,
> {
    "<nav>"@ + "<span>navigation: </span>"@ + previous_link(settings, safe_dir, current)
        + "<span>, </span>"@ + project_link(settings.github_link) + "<span>, </span>"@ + next_link(
        settings,
        safe_dir,
        current,
        total,
    ) + "</nav>"@
}

/// A whole index page.
pub open spec fn page_html(
    settings: Settings,
    safe_dir: Seq<char>,
    titles: Seq<Seq<char>>,
    current: nat,
    total: nat,
) -> Seq<char> {
    page_header() + post_lines(settings.repo_name, safe_dir, titles) + navigation(
        settings,
        safe_dir,
        current,
        total,
    ) + page_footer()
}

/// The mathematical value of a [`PageBuffer`].
pub struct PageDraft {
    pub settings: Settings,
    pub safe_dir: Seq<char>,
    pub content: Seq<char>,
}

impl PageDraft {
    /// The draft with `text` added at its end.
    pub open spec fn with(self, text: Seq<char>) -> PageDraft {
        PageDraft { content: self.content + text, ..self }
    }
}

/// The text of an index page while it is written.
pub struct PageBuffer<'a> {
    config: &'a Config,
    safe_dir: String,
    content: String,
}

impl<'a> View for PageBuffer<'a> {
    type V = PageDraft;

    closed spec fn view(&self) -> PageDraft {
        PageDraft { settings: self.config@, safe_dir: self.safe_dir@, content: self.content@ }
    }
}

impl<'a> PageBuffer<'a> {
    /// An empty page for the category `safe_dir`.
    pub fn new(config: &'a Config, safe_dir: &str) -> (buffer: Self)
        ensures
            buffer@ == (PageDraft {
                settings: config@,
                safe_dir: safe_dir@,
                content: Seq::empty(),
            }),
    {
        PageBuffer { config, safe_dir: String::from_str(safe_dir), content: String::new() }
    }

    /// Adds the beginning of a page.
    pub fn write_header(&mut self)
        ensures
            final(self)@ == old(self)@.with(page_header()),
    {
        self.content.append(
            r#"
<!DOCTYPE html>
<html lang="en">
    <head>
        <meta name="viewport" content="width=device-width, initial-scale=1.0">
        <meta charset="UTF-8">
        <title>blag</title>
    </head>
    <body class="page">
"#,
        );
    }

    /// Adds the end of a page.
    pub fn write_footer(&mut self)
        ensures
            final(self)@ == old(self)@.with(page_footer()),
    {
        self.content.append(
            r#"
    </body>
</html>
"#,
        );
    }

    /// Adds the line that links to the post with the given title.
    pub fn add_post(&mut self, title: &str)
        ensures
            final(self)@ == old(self)@.with(
                post_line(old(self)@.settings.repo_name, old(self)@.safe_dir, title@),
            ),
    {
        let safe_title = format_safe_text(title);
        let ghost before = self.content@;
        self.content.append(r#"<p><a href=""#);
        self.content.append("/");
        self.content.append(self.config.repo_name.as_str());
        self.content.append("/");
        self.content.append(self.safe_dir.as_str());
        self.content.append("/");
        self.content.append(safe_title.as_str());
        self.content.append(".html");
        self.content.append(r#"">"#);
        self.content.append(title);
        self.content.append("</a></p>");
        self.content.append("\n");
        proof {
            assert(self.content@ =~= before + post_line(
                self.config@.repo_name,
                self.safe_dir@,
                title@,
            ));
        }
    }

    /// Adds the address of the index page `page` of this category.
    fn add_page_href(&mut self, page: usize)
        requires
            page < usize::MAX,
        ensures
            final(self)@ == old(self)@.with(
                page_href(old(self)@.settings, old(self)@.safe_dir, page as nat),
            ),
    {
        let ghost before = self.content@;
        self.content.append("/");
        self.content.append(self.config.repo_name.as_str());
        self.content.append("/");
        self.content.append(self.config.pages_index_name.as_str());
        self.content.append("/");
        self.content.append(self.safe_dir.as_str());
        self.content.append("/");
        push_decimal(&mut self.content, page + 1);
        self.content.append(".html");
        proof {
            assert(self.content@ =~= before + page_href(
                self.config@,
                self.safe_dir@,
                page as nat,
            ));
        }
    }

    /// Adds the link to the page before `current_page`, or the words alone
    /// on the first page.
    fn add_previous_link(&mut self, current_page: usize)
        ensures
            final(self)@ == old(self)@.with(
                previous_link(old(self)@.settings, old(self)@.safe_dir, current_page as nat),
            ),
    {
        let ghost before = self.content@;
        if current_page > 0 {
            self.content.append(r#"<a href=""#);
            self.add_page_href(current_page - 1);
            self.content.append(r#"">previous page</a>"#);
        } else {
            self.content.append("<span>previous page</span>");
        }
        proof {
            assert(self.content@ =~= before + previous_link(
                self.config@,
                self.safe_dir@,
                current_page as nat,
            ));
        }
    }

    /// Adds the link to the page after `current_page`, or the words alone
    /// on the last page.
    fn add_next_link(&mut self, current_page: usize, total_pages: usize)
        ensures
            final(self)@ == old(self)@.with(
                next_link(
                    old(self)@.settings,
                    old(self)@.safe_dir,
                    current_page as nat,
                    total_pages as nat,
                ),
            ),
    {
        let ghost before = self.content@;
        if current_page < total_pages && current_page + 1 < total_pages {
            self.content.append(r#"<a href=""#);
            self.add_page_href(current_page + 1);
            self.content.append(r#"">next page</a>"#);
        } else {
            self.content.append("<span>next page</span>");
        }
        proof {
            assert(self.content@ =~= before + next_link(
                self.config@,
                self.safe_dir@,
                current_page as nat,
                total_pages as nat,
            ));
        }
    }

    /// Adds the link to the project.
    fn add_project_link(&mut self)
        ensures
            final(self)@ == old(self)@.with(project_link(old(self)@.settings.github_link)),
    {
        let ghost before = self.content@;
        self.content.append(r#"<a href=""#);
        self.content.append(self.config.github_link.as_str());
        self.content.append(r#"">github</a>"#);
        proof {
            assert(self.content@ =~= before + project_link(self.config@.github_link));
        }
    }

    /// Adds the navigation of page `current_page` of `total_pages`: a link
    /// to the page before unless this is the first, the project link, and a
    /// link to the page after unless this is the last.
    pub fn add_navigation(&mut self, current_page: usize, total_pages: usize)
        ensures
            final(self)@ == old(self)@.with(
                navigation(
                    old(self)@.settings,
                    old(self)@.safe_dir,
                    current_page as nat,
                    total_pages as nat,
                ),
            ),
    {
        let ghost before = self.content@;
        self.content.append("<nav>");
        self.content.append("<span>navigation: </span>");
        self.add_previous_link(current_page);
        self.content.append("<span>, </span>");
        self.add_project_link();
        self.content.append("<span>, </span>");
        self.add_next_link(current_page, total_pages);
        self.content.append("</nav>");
        proof {
            assert(self.content@ =~= before + navigation(
                self.config@,
                self.safe_dir@,
                current_page as nat,
                total_pages as nat,
            ));
        }
    }

    /// Hands out the text written so far and starts an empty page.
    pub fn consume(&mut self) -> (content: String)
        ensures
            content@ == old(self)@.content,
            final(self)@ == (PageDraft { content: Seq::empty(), ..old(self)@ }),
    {
        let mut content = String::new();
        std::mem::swap(&mut self.content, &mut content);
        content
    }
}

/// One index page as it is to be written: the category it belongs to, the
/// number in the name of its file, and its text.
pub struct PageFile {
    pub category: String,
    pub number: usize,
    pub html: String,
}

/// The mathematical value of a [`PageFile`].
pub struct PageSheet {
    pub category: Seq<char>,
    pub number: nat,
    pub html: Seq<char>,
}

impl View for PageFile {
    type V = PageSheet;

    open spec fn view(&self) -> PageSheet {
        PageSheet { category: self.category@, number: self.number as nat, html: self.html@ }
    }
}

/// The values of a list of pages.
pub open spec fn sheets_of(pages: Seq<PageFile>) -> Seq<PageSheet> {
    pages.map_values(|page: PageFile| page@)
}

/// The titles of a list of entries.
pub open spec fn titles_of(entries: Seq<TrackedEntry>) -> Seq<Seq<char>> {
    entries.map_values(|entry: TrackedEntry| entry.title)
}

/// The smaller of two numbers.
pub open spec fn least(a: int, b: int) -> int {
    if a <= b {
        a
    } else {
        b
    }
}

/// The number of pages that `entries` entries fill, `page_size` to a page:
/// the quotient rounded up.
pub open spec fn page_count(entries: nat, page_size: nat) -> nat {
    if page_size == 0 {
        0
    } else {
        ((entries + page_size - 1) / (page_size as int)) as nat
    }
}

/// The part of a list that page `page` shows.
pub open spec fn page_items<A>(list: Seq<A>, page_size: nat, page: nat) -> Seq<A> {
    list.subrange(
        least((page * page_size) as int, list.len() as int),
        least(((page + 1) * page_size) as int, list.len() as int),
    )
}

/// The first `pages` pages of a list laid end to end.
pub open spec fn pages_joined<A>(list: Seq<A>, page_size: nat, pages: nat) -> Seq<A>
    decreases pages,
{
    if pages == 0 {
        Seq::empty()
    } else {
        pages_joined(list, page_size, (pages - 1) as nat) + page_items(
            list,
            page_size,
            (pages - 1) as nat,
        )
    }
}

/// Page `page` of the listing `sorted` of a category.
pub open spec fn category_page(
    settings: Settings,
    category: Seq<char>,
    sorted: Seq<TrackedEntry>,
    page: nat,
) -> PageSheet {
    PageSheet {
        category,
        number: file_number(page),
        html: page_html(
            settings,
            category,
            titles_of(page_items(sorted, settings.posts_per_page as nat, page)),
            page,
            page_count(sorted.len(), settings.posts_per_page as nat),
        ),
    }
}

/// The pages of the listing `sorted` of a category, in their order.
pub open spec fn category_pages(
    settings: Settings,
    category: Seq<char>,
    sorted: Seq<TrackedEntry>,
) -> Seq<
    PageSheet,
> {
    Seq::new(
        page_count(sorted.len(), settings.posts_per_page as nat),
        |page: int| category_page(settings, category, sorted, page as nat),
    )
}

/// The index pages of the given categories of a store: category after
/// category, the entries of each sorted by their last change, latest first.
pub open spec fn site_pages(
    settings: Settings,
    store: TrackingStore,
    categories: Seq<Seq<char>>,
) -> Seq<
    PageSheet,
>
    decreases categories.len(),
{
    if categories.len() == 0 {
        Seq::empty()
    } else {
        site_pages(settings, store, categories.drop_last()) + category_pages(
            settings,
            categories.last(),
            sorted_by_recency(store.category_entries(categories.last())),
        )
    }
}

/// The number of pages is the number of entries divided by the page size,
/// rounded up: the pages before the last are full, and the last is not
/// empty.
pub proof fn lemma_page_count_is_ceiling(entries: nat, page_size: nat)
    requires
        page_size > 0,
    ensures
        page_count(entries, page_size) * page_size >= entries,
        entries > 0 ==> (page_count(entries, page_size) - 1) * page_size < entries,
        entries == 0 ==> page_count(entries, page_size) == 0,
{
    let x = (entries + page_size - 1) as int;
    let d = page_size as int;
    vstd::arithmetic::div_mod::lemma_fundamental_div_mod(x, d);
    vstd::arithmetic::div_mod::lemma_mod_bound(x, d);
    vstd::arithmetic::div_mod::lemma_div_pos_is_pos(x, d);
    assert(d * (x / d) == (x / d) * d) by (nonlinear_arith);
    assert(((x / d) - 1) * d == (x / d) * d - d) by (nonlinear_arith);
    if entries == 0 {
        vstd::arithmetic::div_mod::lemma_basic_div(x, d);
    }
}

/// Every page but the last starts inside the list.
pub proof fn lemma_page_starts_inside(entries: nat, page_size: nat, page: nat)
    requires
        page_size > 0,
        page < page_count(entries, page_size),
    ensures
        page * page_size < entries,
{
    lemma_page_count_is_ceiling(entries, page_size);
    let count = page_count(entries, page_size) as int;
    let p = page as int;
    let d = page_size as int;
    assert(p * d <= (count - 1) * d) by (nonlinear_arith)
        requires
            p <= count - 1,
            d > 0,
    ;
}

/// The first page has no page before it, the last page none after it, and
/// every other page has both.
pub proof fn lemma_neighbours(current: nat, total: nat)
    requires
        current < total,
    ensures
        previous_page(current) is None <==> current == 0,
        next_page(current, total) is None <==> current == total - 1,
        current > 0 ==> previous_page(current) == Some((current - 1) as nat),
        current < total - 1 ==> next_page(current, total) == Some(current + 1),
{
}

/// The first `pages` pages of a list hold its first entries, in order.
pub proof fn lemma_pages_joined<A>(list: Seq<A>, page_size: nat, pages: nat)
    requires
        page_size > 0,
    ensures
        pages_joined(list, page_size, pages) == list.take(
            least((pages * page_size) as int, list.len() as int),
        ),
    decreases pages,
{
    if pages == 0 {
        assert(0 * page_size == 0) by (nonlinear_arith);
        assert(list.take(0) =~= Seq::empty());
    } else {
        let before = (pages - 1) as nat;
        lemma_pages_joined(list, page_size, before);
        assert((before + 1) * page_size == before * page_size + page_size) by (nonlinear_arith);
        assert(before * page_size >= 0) by (nonlinear_arith);
        assert(pages_joined(list, page_size, pages) =~= list.take(
            least((pages * page_size) as int, list.len() as int),
        ));
    }
}

/// Laid end to end, the pages of a list are the list: every entry stands on
/// exactly one page, and the order is kept.
pub proof fn lemma_pages_hold_every_entry_once<A>(list: Seq<A>, page_size: nat)
    requires
        page_size > 0,
    ensures
        pages_joined(list, page_size, page_count(list.len(), page_size)) == list,
{
    lemma_pages_joined(list, page_size, page_count(list.len(), page_size));
    lemma_page_count_is_ceiling(list.len(), page_size);
    assert(list.take(list.len() as int) =~= list);
}

/// The listing of a category: its entries sorted by their last change,
/// latest first, each entry on exactly one page; as many pages as the
/// entries fill, the first without a page before it and the last without a
/// page after it.
pub proof fn lemma_category_listing(settings: Settings, store: TrackingStore, category: Seq<char>)
    requires
        settings.posts_per_page > 0,
    ensures
        ({
            let entries = store.category_entries(category);
            let sorted = sorted_by_recency(entries);
            let size = settings.posts_per_page as nat;
            let pages = category_pages(settings, category, sorted);
            &&& is_descending(sorted)
            &&& sorted.to_multiset() == entries.to_multiset()
            &&& pages.len() == page_count(entries.len(), size)
            &&& pages.len() * size >= entries.len()
            &&& entries.len() > 0 ==> (pages.len() - 1) * size < entries.len()
            &&& pages_joined(sorted, size, pages.len()) == sorted
            &&& forall|page: int|
                0 <= page < pages.len() ==> #[trigger] pages[page] == category_page(
                    settings,
                    category,
                    sorted,
                    page as nat,
                )
            &&& pages.len() > 0 ==> previous_page(0) is None && next_page(
                (pages.len() - 1) as nat,
                pages.len(),
            ) is None
        }),
{
    let entries = store.category_entries(category);
    let sorted = sorted_by_recency(entries);
    let size = settings.posts_per_page as nat;
    lemma_sorted_by_recency(entries);
    lemma_page_count_is_ceiling(entries.len(), size);
    lemma_pages_hold_every_entry_once(sorted, size);
}

/// The number of pages that `entries` entries fill.
pub fn count_pages(entries: usize, page_size: usize) -> (pages: usize)
    requires
        page_size > 0,
    ensures
        pages == page_count(entries as nat, page_size as nat),
{
    if entries == 0 {
        proof {
            lemma_page_count_is_ceiling(0, page_size as nat);
        }
        0
    } else {
        proof {
            vstd::arithmetic::div_mod::lemma_div_plus_one((entries - 1) as int, page_size as int);
        }
        (entries - 1) / page_size + 1
    }
}

/// Writes the index pages of one category from its listing, which is taken
/// in the order given.
pub fn paginate(config: &Config, category: &str, files: &Vec<PersistentFileInfo>) -> (pages: Vec<
    PageFile,
>)
    requires
        config.posts_per_page > 0,
    ensures
        sheets_of(pages@) == category_pages(config@, category@, entries_of(files@)),
{
    let size = config.posts_per_page;
    let total = count_pages(files.len(), size);
    let ghost sorted = entries_of(files@);
    let mut buffer = PageBuffer::new(config, category);
    let mut pages: Vec<PageFile> = Vec::new();
    let mut page: usize = 0;
    let mut start: usize = 0;
    proof {
        assert(0 * size == 0) by (nonlinear_arith);
    }
    while page < total
        invariant
            size == config.posts_per_page,
            size > 0,
            sorted == entries_of(files@),
            total == page_count(files@.len(), size as nat),
            page <= total,
            start == least((page * size) as int, files@.len() as int),
            buffer@ == (PageDraft {
                settings: config@,
                safe_dir: category@,
                content: Seq::empty(),
            }),
            pages@.len() == page,
            forall|k: int|
                0 <= k < page ==> (#[trigger] pages@[k])@ == category_page(
                    config@,
                    category@,
                    sorted,
                    k as nat,
                ),
        decreases total - page,
    {
        proof {
            lemma_page_starts_inside(files@.len(), size as nat, page as nat);
            assert((page + 1) * size == page * size + size) by (nonlinear_arith);
        }
        let end = if files.len() - start > size {
            start + size
        } else {
            files.len()
        };
        let ghost items = page_items(sorted, size as nat, page as nat);
        proof {
            assert(items =~= sorted.subrange(start as int, end as int));
        }
        buffer.write_header();
        let mut k: usize = start;
        proof {
            assert(titles_of(items).take(0) =~= Seq::empty());
            assert(buffer@.content =~= page_header() + post_lines(
                config@.repo_name,
                category@,
                titles_of(items).take(0),
            ));
        }
        while k < end
            invariant
                start <= k <= end <= files@.len(),
                sorted == entries_of(files@),
                items == sorted.subrange(start as int, end as int),
                buffer@ == (PageDraft {
                    settings: config@,
                    safe_dir: category@,
                    content: page_header() + post_lines(
                        config@.repo_name,
                        category@,
                        titles_of(items).take(k - start),
                    ),
                }),
            decreases end - k,
        {
            let ghost done = titles_of(items).take(k - start);
            let ghost more = titles_of(items).take(k - start + 1);
            buffer.add_post(files[k].title.as_str());
            proof {
                assert(more.drop_last() =~= done);
                assert(more.last() == files@[k as int].title@);
                assert(buffer@.content =~= page_header() + post_lines(
                    config@.repo_name,
                    category@,
                    more,
                ));
            }
            k += 1;
        }
        proof {
            assert(titles_of(items).take(end - start) =~= titles_of(items));
        }
        buffer.add_navigation(page, total);
        buffer.write_footer();
        let html = buffer.consume();
        proof {
            assert(html@ =~= page_html(
                config@,
                category@,
                titles_of(items),
                page as nat,
                total as nat,
            ));
        }
        pages.push(PageFile { category: String::from_str(category), number: page + 1, html });
        start = end;
        page += 1;
    }
    proof {
        assert(sheets_of(pages@) =~= category_pages(config@, category@, sorted));
    }
    pages
}

/// Writes the index pages of every category of the store: the entries of
/// each category sorted by their last change, latest first, and cut into
/// pages of the configured size.
pub fn generate_pages(config: &Config, tracking_info: &TrackingInfo) -> (pages: Vec<PageFile>)
    requires
        config.posts_per_page > 0,
        tracking_info.wf(),
    ensures
        sheets_of(pages@) == site_pages(
            config@,
            tracking_info@,
            tracking_info@.categories(),
        ),
{
    let mut pages: Vec<PageFile> = Vec::new();
    let mut walk = tracking_info.into_iter();
    let ghost categories = tracking_info@.categories();
    proof {
        assert(categories.take(0) =~= Seq::empty());
        assert(sheets_of(pages@) =~= Seq::empty());
    }
    loop
        invariant
            config.posts_per_page > 0,
            walk.wf(),
            walk.store() == tracking_info@,
            categories == tracking_info@.categories(),
            walk.position() <= categories.len(),
            sheets_of(pages@) == site_pages(
                config@,
                tracking_info@,
                categories.take(walk.position() as int),
            ),
        ensures
            walk.position() == categories.len(),
            sheets_of(pages@) == site_pages(
                config@,
                tracking_info@,
                categories.take(walk.position() as int),
            ),
        decreases categories.len() - walk.position(),
    {
        let ghost position = walk.position() as int;
        match walk.next() {
            None => {
                break ;
            },
            Some((sub_dir, posts)) => {
                let files = sort_by_recency(posts);
                let mut sheets = paginate(config, sub_dir.as_str(), &files);
                let ghost before = pages@;
                let ghost added = sheets@;
                pages.append(&mut sheets);
                proof {
                    assert(categories.take(position + 1).drop_last() =~= categories.take(position));
                    assert(categories.take(position + 1).last() == sub_dir@);
                    assert(sheets_of(before + added) =~= sheets_of(before) + sheets_of(added));
                }
            },
        }
    }
    proof {
        assert(categories.take(categories.len() as int) =~= categories);
    }
    pages
}

} // verus!
