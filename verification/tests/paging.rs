use blag::config::Config;
use blag::pages::{count_pages, generate_pages, paginate, PageBuffer};
use blag::persistence::{PersistentFileInfo, TrackingInfo};
use blag::posts::FileData;
use blag::sorting::sort_by_recency;

const HEADER: &str = "\n<!DOCTYPE html>\n<html lang=\"en\">\n    <head>\n        <meta name=\"viewport\" content=\"width=device-width, initial-scale=1.0\">\n        <meta charset=\"UTF-8\">\n        <title>blag</title>\n    </head>\n    <body class=\"page\">\n";
const FOOTER: &str = "\n    </body>\n</html>\n";

fn config(per_page: &str) -> Config {
    Config::init(
        Some("site".to_string()),
        Some("https://example.org/project".to_string()),
        None,
        None,
        None,
        Some(per_page.to_string()),
        Some("index".to_string()),
    )
}

fn entry(title: &str, updated_at: u64) -> PersistentFileInfo {
    PersistentFileInfo {
        title: title.to_string(),
        content_hash: String::new(),
        updated_at,
        created_at: 0,
    }
}

fn titles(list: &[PersistentFileInfo]) -> Vec<String> {
    list.iter().map(|info| info.title.clone()).collect()
}

#[test]
fn header_and_footer_are_written_as_they_are() {
    let config = config("50");
    let mut buffer = PageBuffer::new(&config, "notes");
    buffer.write_header();
    assert_eq!(buffer.consume(), HEADER);
    buffer.write_footer();
    assert_eq!(buffer.consume(), FOOTER);
}

#[test]
fn consume_empties_the_buffer() {
    let config = config("50");
    let mut buffer = PageBuffer::new(&config, "notes");
    assert_eq!(buffer.consume(), "");
    buffer.write_header();
    buffer.write_footer();
    assert_eq!(buffer.consume(), format!("{}{}", HEADER, FOOTER));
    assert_eq!(buffer.consume(), "");
}

#[test]
fn post_line_links_to_the_slug_and_shows_the_title() {
    let config = config("50");
    let mut buffer = PageBuffer::new(&config, "notes");
    buffer.add_post("Hello World");
    assert_eq!(
        buffer.consume(),
        "<p><a href=\"/site/notes/hello_world.html\">Hello World</a></p>\n"
    );
}

#[test]
fn navigation_of_the_only_page_has_no_neighbours() {
    let config = config("50");
    let mut buffer = PageBuffer::new(&config, "notes");
    buffer.add_navigation(0, 1);
    assert_eq!(
        buffer.consume(),
        "<nav><span>navigation: </span><span>previous page</span><span>, </span><a href=\"https://example.org/project\">github</a><span>, </span><span>next page</span></nav>"
    );
}

#[test]
fn navigation_of_the_first_page_has_next_only() {
    let config = config("50");
    let mut buffer = PageBuffer::new(&config, "notes");
    buffer.add_navigation(0, 3);
    assert_eq!(
        buffer.consume(),
        "<nav><span>navigation: </span><span>previous page</span><span>, </span><a href=\"https://example.org/project\">github</a><span>, </span><a href=\"/site/index/notes/2.html\">next page</a></nav>"
    );
}

#[test]
fn navigation_of_a_middle_page_has_both() {
    let config = config("50");
    let mut buffer = PageBuffer::new(&config, "notes");
    buffer.add_navigation(1, 3);
    assert_eq!(
        buffer.consume(),
        "<nav><span>navigation: </span><a href=\"/site/index/notes/1.html\">previous page</a><span>, </span><a href=\"https://example.org/project\">github</a><span>, </span><a href=\"/site/index/notes/3.html\">next page</a></nav>"
    );
}

#[test]
fn navigation_of_the_last_page_has_previous_only() {
    let config = config("50");
    let mut buffer = PageBuffer::new(&config, "notes");
    buffer.add_navigation(2, 3);
    assert_eq!(
        buffer.consume(),
        "<nav><span>navigation: </span><a href=\"/site/index/notes/2.html\">previous page</a><span>, </span><a href=\"https://example.org/project\">github</a><span>, </span><span>next page</span></nav>"
    );
}

#[test]
fn navigation_writes_numbers_of_several_digits() {
    let config = config("50");
    let mut buffer = PageBuffer::new(&config, "notes");
    buffer.add_navigation(1099, 1200);
    let text = buffer.consume();
    assert!(text.contains("<a href=\"/site/index/notes/1099.html\">previous page</a>"));
    assert!(text.contains("<a href=\"/site/index/notes/1101.html\">next page</a>"));
}

#[test]
fn navigation_at_the_largest_page_number_does_not_overflow() {
    let config = config("50");
    let mut buffer = PageBuffer::new(&config, "notes");
    buffer.add_navigation(usize::MAX, usize::MAX);
    let text = buffer.consume();
    assert!(text.contains(&format!("/{}.html\">previous page</a>", usize::MAX)));
    assert!(text.ends_with("<span>next page</span></nav>"));
}

#[test]
fn page_count_is_the_quotient_rounded_up() {
    assert_eq!(count_pages(0, 50), 0);
    assert_eq!(count_pages(1, 50), 1);
    assert_eq!(count_pages(50, 50), 1);
    assert_eq!(count_pages(51, 50), 2);
    assert_eq!(count_pages(100, 50), 2);
    assert_eq!(count_pages(125, 50), 3);
    assert_eq!(count_pages(7, 1), 7);
    assert_eq!(count_pages(usize::MAX, 1), usize::MAX);
    assert_eq!(count_pages(usize::MAX, usize::MAX), 1);
    assert_eq!(count_pages(5, usize::MAX), 1);
}

#[test]
fn sorting_puts_the_latest_change_first() {
    let sorted = sort_by_recency(vec![entry("a", 10), entry("b", 30), entry("c", 20)]);
    assert_eq!(titles(&sorted), vec!["b", "c", "a"]);
}

#[test]
fn sorting_keeps_the_order_of_equal_times() {
    let sorted = sort_by_recency(vec![
        entry("a", 5),
        entry("b", 9),
        entry("c", 5),
        entry("d", 9),
        entry("e", 5),
    ]);
    assert_eq!(titles(&sorted), vec!["b", "d", "a", "c", "e"]);
}

#[test]
fn sorting_nothing_gives_nothing() {
    assert!(sort_by_recency(Vec::new()).is_empty());
}

#[test]
fn no_entries_give_no_pages() {
    let config = config("50");
    assert!(paginate(&config, "notes", &Vec::new()).is_empty());
    assert!(generate_pages(&config, &TrackingInfo::new()).is_empty());
}

#[test]
fn a_page_is_header_posts_navigation_footer() {
    let config = config("2");
    let pages = paginate(&config, "notes", &vec![entry("One", 3), entry("Two", 2), entry("Three", 1)]);
    assert_eq!(pages.len(), 2);
    assert_eq!(pages[0].category, "notes");
    assert_eq!(pages[0].number, 1);
    assert_eq!(
        pages[0].html,
        format!(
            "{}{}{}{}{}",
            HEADER,
            "<p><a href=\"/site/notes/one.html\">One</a></p>\n",
            "<p><a href=\"/site/notes/two.html\">Two</a></p>\n",
            "<nav><span>navigation: </span><span>previous page</span><span>, </span><a href=\"https://example.org/project\">github</a><span>, </span><a href=\"/site/index/notes/2.html\">next page</a></nav>",
            FOOTER
        )
    );
    assert_eq!(pages[1].number, 2);
    assert_eq!(
        pages[1].html,
        format!(
            "{}{}{}{}",
            HEADER,
            "<p><a href=\"/site/notes/three.html\">Three</a></p>\n",
            "<nav><span>navigation: </span><a href=\"/site/index/notes/1.html\">previous page</a><span>, </span><a href=\"https://example.org/project\">github</a><span>, </span><span>next page</span></nav>",
            FOOTER
        )
    );
}

#[test]
fn scenario_125_documents_in_pages_of_50() {
    let config = config("50");
    let mut store = TrackingInfo::new();
    for i in 0..125u64 {
        let file = FileData {
            dir: "notes".to_string(),
            title: format!("doc {}", i),
            content: format!("content {}", i),
        };
        assert!(store.track_file_at(&file, 1000 + i).is_ok());
    }
    store.purge_untracked();
    let pages = generate_pages(&config, &store);
    assert_eq!(pages.len(), 3);
    let numbers: Vec<usize> = pages.iter().map(|page| page.number).collect();
    assert_eq!(numbers, vec![1, 2, 3]);

    let previous = |n: usize| format!("<a href=\"/site/index/notes/{}.html\">previous page</a>", n);
    let next = |n: usize| format!("<a href=\"/site/index/notes/{}.html\">next page</a>", n);
    assert!(pages[0].html.contains("<span>previous page</span>"));
    assert!(pages[0].html.contains(&next(2)));
    assert!(pages[1].html.contains(&previous(1)));
    assert!(pages[1].html.contains(&next(3)));
    assert!(pages[2].html.contains(&previous(2)));
    assert!(pages[2].html.contains("<span>next page</span>"));

    let mut listed: Vec<String> = Vec::new();
    let mut per_page: Vec<usize> = Vec::new();
    for page in &pages {
        let mut count = 0;
        for line in page.html.lines() {
            if let Some(rest) = line.strip_prefix("<p><a href=\"/site/notes/") {
                listed.push(rest.split(".html").next().unwrap().to_string());
                count += 1;
            }
        }
        per_page.push(count);
    }
    assert_eq!(per_page, vec![50, 50, 25]);
    let expected: Vec<String> = (0..125u64).rev().map(|i| format!("doc_{}", i)).collect();
    assert_eq!(listed, expected);
}

#[test]
fn pages_are_the_same_for_the_same_input() {
    let config = config("3");
    let mut store = TrackingInfo::new();
    for (dir, title, at) in
        [("b", "x", 5u64), ("a", "y", 5), ("b", "z", 7), ("a", "w", 5), ("b", "v", 6), ("b", "u", 1)]
    {
        let file = FileData { dir: dir.to_string(), title: title.to_string(), content: String::new() };
        assert!(store.track_file_at(&file, at).is_ok());
    }
    let first: Vec<(String, usize, String)> = generate_pages(&config, &store)
        .into_iter()
        .map(|page| (page.category, page.number, page.html))
        .collect();
    let second: Vec<(String, usize, String)> = generate_pages(&config, &store)
        .into_iter()
        .map(|page| (page.category, page.number, page.html))
        .collect();
    assert_eq!(first, second);
    let order: Vec<(String, usize)> =
        first.iter().map(|(category, number, _)| (category.clone(), *number)).collect();
    assert_eq!(
        order,
        vec![("b".to_string(), 1), ("b".to_string(), 2), ("a".to_string(), 1)]
    );
    assert!(first[0].2.find("z.html").unwrap() < first[0].2.find("v.html").unwrap());
    assert!(first[0].2.find("v.html").unwrap() < first[0].2.find("x.html").unwrap());
    assert!(first[1].2.contains("u.html"));
    assert!(first[2].2.find("y.html").unwrap() < first[2].2.find("w.html").unwrap());
}

#[test]
fn page_size_of_one_gives_a_page_for_each_entry() {
    let config = config("1");
    let pages = paginate(&config, "n", &vec![entry("a", 2), entry("b", 1)]);
    assert_eq!(pages.len(), 2);
    assert!(pages[0].html.contains("a.html"));
    assert!(!pages[0].html.contains("b.html"));
    assert!(pages[1].html.contains("b.html"));
}
