use blag::articles::Articles;
use blag::info::{
    clone_texts, ArticleInfo, InfoError, InfoFile, InfoWrangler, PublicArticleInfo,
    PublicInfoFile,
};
use blag::persistence::hash_text;
use blag::posts::ScannedPath;
use blag::sorting::{chars_of, text_comes_first};
use blag::utils::format_safe_filename;

fn file(stem: &str) -> ScannedPath {
    ScannedPath {
        is_file: true,
        is_dir: false,
        parent_name: Some("articles".to_string()),
        file_stem: Some(stem.to_string()),
        extension: Some("md".to_string()),
    }
}

fn nameless() -> ScannedPath {
    ScannedPath { is_file: true, is_dir: false, parent_name: None, file_stem: None, extension: None }
}

fn article(name: &str, created_at: u64, updated_at: u64, hash: &str, tags: &[&str]) -> ArticleInfo {
    ArticleInfo {
        original_filename: name.to_string(),
        safe_filename: format_safe_filename(name).unwrap_or_default(),
        created_at,
        updated_at,
        content_hash: hash.to_string(),
        tags: tags.iter().map(|tag| tag.to_string()).collect(),
    }
}

fn names(book: &InfoWrangler) -> Vec<String> {
    book.articles().iter().map(|article| article.original_filename.clone()).collect()
}

fn article_page(name: &str, html: &str, tags: &str, date: &str) -> String {
    format!(
        "<!DOCTYPE html>\n<html lang=\"en\">\n    <head>\n        <meta name=\"viewport\" content=\"width=device-width, initial-scale=1.0\">\n        <meta charset=\"UTF-8\">\n        <title>{}</title>\n        <style>\n            table {{\n                border-collapse: collapse;\n                width: 100%;\n            }}\n            th, td {{\n                border: 1px solid #ddd;\n                text-align: right;\n                padding: 8px; /* Adds spacing between columns */\n            }}\n        </style>\n    </head>\n    <body>\n        <div style=\"max-width:800px;margin-left:auto;margin-right:auto;\">\n            {}\n            {}\n            <p class=\"last-updated\"><i>last updated</i>: {}</p>\n        </div>\n    </body>\n</html>\n",
        name, html, tags, date
    )
}

#[test]
fn safe_filename_is_the_slug_unless_it_is_empty() {
    assert_eq!(format_safe_filename("Hello World"), Some("hello_world".to_string()));
    assert_eq!(format_safe_filename(""), None);
    assert_eq!(format_safe_filename("#%&"), None);
    assert_eq!(format_safe_filename("."), Some("-".to_string()));
}

#[test]
fn texts_are_compared_character_by_character() {
    for (first, second) in [
        ("", ""),
        ("", "a"),
        ("a", ""),
        ("a", "b"),
        ("b", "a"),
        ("abc", "abd"),
        ("abc", "ab"),
        ("ab", "abc"),
        ("Zebra", "apple"),
        ("\u{e9}", "z"),
        ("z", "\u{e9}"),
        ("\u{1f600}", "\u{ffff}"),
        ("same", "same"),
    ] {
        assert_eq!(text_comes_first(first, second), first <= second, "{:?} {:?}", first, second);
    }
    assert_eq!(chars_of("a\u{e9}\u{1f600}"), vec!['a', '\u{e9}', '\u{1f600}']);
}

#[test]
fn a_copy_of_texts_is_equal() {
    let list = vec!["a".to_string(), String::new(), "c d".to_string()];
    assert_eq!(clone_texts(&list), list);
    assert!(clone_texts(&Vec::new()).is_empty());
}

#[test]
fn a_new_book_is_empty() {
    let book = InfoWrangler::new();
    assert!(book.articles().is_empty());
    assert!(book.get_article(&file("a")).is_none());
    assert!(InfoFile::new().articles.is_empty());
    let absent = InfoWrangler::init(None);
    assert!(absent.articles().is_empty());
}

#[test]
fn a_book_starts_from_what_was_stored() {
    let stored = InfoFile { articles: vec![article("B", 2, 2, "", &[]), article("A", 1, 1, "", &[])] };
    let book = InfoWrangler::init(Some(stored));
    assert_eq!(names(&book), vec!["B", "A"]);
    assert!(book.get_article(&file("A")).is_none());
}

#[test]
fn a_new_file_is_entered_at_the_time_of_the_run() {
    let mut book = InfoWrangler::new();
    assert!(book.upsert_at(&file("Hello World"), Some(100)).is_ok());
    let found = book.get_article(&file("Hello World")).unwrap();
    assert_eq!(found.original_filename, "Hello World");
    assert_eq!(found.safe_filename, "hello_world");
    assert_eq!((found.created_at, found.updated_at), (100, 100));
    assert_eq!(found.content_hash, "");
    assert!(found.tags.is_empty());
    assert_eq!(book.articles().len(), 1);
}

#[test]
fn a_known_file_is_met_and_not_entered_again() {
    let stored = InfoFile { articles: vec![article("Hello World", 5, 9, "h", &["x"])] };
    let mut book = InfoWrangler::init(Some(stored));
    assert!(book.upsert_at(&file("hello world"), Some(100)).is_ok());
    assert_eq!(book.articles().len(), 1);
    let found = book.get_article(&file("Hello World")).unwrap();
    assert_eq!(found.original_filename, "Hello World");
    assert_eq!((found.created_at, found.updated_at), (5, 9));
}

#[test]
fn a_file_without_a_name_or_safe_name_changes_nothing() {
    let mut book = InfoWrangler::new();
    assert!(book.upsert_at(&nameless(), Some(1)).is_ok());
    assert!(book.upsert_at(&file("###"), Some(1)).is_ok());
    assert!(book.upsert_at(&file(""), Some(1)).is_ok());
    assert!(book.articles().is_empty());
    book.update_content_at(&nameless(), "text", Some(2));
    assert!(book.get_article(&nameless()).is_none());
}

#[test]
fn a_new_file_is_not_entered_without_a_clock() {
    let mut book = InfoWrangler::new();
    assert!(book.upsert_at(&file("a"), None).is_ok());
    assert!(book.articles().is_empty());
    assert!(book.get_article(&file("a")).is_none());
}

#[test]
fn two_files_with_one_safe_name_are_a_duplicate() {
    let mut book = InfoWrangler::new();
    assert!(book.upsert_at(&file("Hello World"), Some(1)).is_ok());
    match book.upsert_at(&file("hello_world"), Some(2)) {
        Err(InfoError::DuplicateSafeFilename { safe_filename }) => {
            assert_eq!(safe_filename, "hello_world")
        }
        Ok(()) => panic!("the second file must be refused"),
    }
    assert_eq!(book.articles().len(), 1);
    let stored = InfoFile { articles: vec![article("a", 1, 1, "", &[])] };
    let mut book = InfoWrangler::init(Some(stored));
    assert!(book.upsert_at(&file("a"), Some(3)).is_ok());
    assert!(book.upsert_at(&file("A"), Some(3)).is_err());
}

#[test]
fn new_content_moves_the_time_of_change() {
    let mut book = InfoWrangler::new();
    assert!(book.upsert_at(&file("a"), Some(10)).is_ok());
    book.update_content_at(&file("a"), "first", Some(20));
    let found = book.get_article(&file("a")).unwrap();
    assert_eq!(found.content_hash, hash_text("first"));
    assert_eq!((found.created_at, found.updated_at), (10, 20));
    book.update_content_at(&file("a"), "first", Some(30));
    let found = book.get_article(&file("a")).unwrap();
    assert_eq!((found.created_at, found.updated_at), (10, 20));
    book.update_content_at(&file("a"), "second", None);
    let found = book.get_article(&file("a")).unwrap();
    assert_eq!(found.content_hash, hash_text("second"));
    assert_eq!((found.created_at, found.updated_at), (10, 20));
    book.update_content_at(&file("a"), "third", Some(40));
    assert_eq!(book.get_article(&file("a")).unwrap().updated_at, 40);
}

#[test]
fn content_of_a_file_that_was_not_met_is_ignored() {
    let stored = InfoFile { articles: vec![article("a", 1, 1, "old", &[])] };
    let mut book = InfoWrangler::init(Some(stored));
    book.update_content_at(&file("a"), "new", Some(9));
    assert_eq!(book.articles()[0].content_hash, "old");
    assert_eq!(book.articles()[0].updated_at, 1);
}

#[test]
fn the_book_reads_the_clock_when_no_time_is_given() {
    let mut book = InfoWrangler::new();
    assert!(book.upsert(&file("a")).is_ok());
    let created = book.get_article(&file("a")).unwrap().created_at;
    assert!(created > 1_600_000_000);
    book.update_content(&file("a"), "text");
    let found = book.get_article(&file("a")).unwrap();
    assert_eq!(found.content_hash, hash_text("text"));
    assert!(found.updated_at >= created);
    assert!(book.upsert(&file("A")).is_err());
}

#[test]
fn sorting_by_creation_is_stable() {
    let stored = InfoFile {
        articles: vec![
            article("d", 3, 3, "", &[]),
            article("a", 1, 1, "", &[]),
            article("c", 3, 3, "", &[]),
            article("b", 2, 2, "", &[]),
            article("e", 1, 1, "", &[]),
        ],
    };
    let mut book = InfoWrangler::init(Some(stored));
    book.sort_created_at();
    assert_eq!(names(&book), vec!["a", "e", "b", "d", "c"]);
}

#[test]
fn sorting_by_name_follows_the_order_of_characters() {
    let stored = InfoFile {
        articles: vec![
            article("pear", 1, 1, "", &[]),
            article("Zebra", 2, 2, "", &[]),
            article("apple", 3, 3, "", &[]),
            article("pea", 4, 4, "", &[]),
            article("apple", 5, 5, "", &[]),
            article("", 6, 6, "", &[]),
        ],
    };
    let mut book = InfoWrangler::init(Some(stored));
    book.sort_alphabetical();
    assert_eq!(names(&book), vec!["", "Zebra", "apple", "apple", "pea", "pear"]);
    let created: Vec<u64> = book.articles().iter().map(|article| article.created_at).collect();
    assert_eq!(created, vec![6, 2, 3, 5, 4, 1]);
}

#[test]
fn the_index_names_places_and_not_articles() {
    let mut book = InfoWrangler::new();
    assert!(book.upsert_at(&file("b"), Some(1)).is_ok());
    assert!(book.upsert_at(&file("a"), Some(2)).is_ok());
    assert_eq!(book.get_article(&file("b")).unwrap().original_filename, "b");
    book.sort_alphabetical();
    assert_eq!(names(&book), vec!["a", "b"]);
    assert_eq!(book.get_article(&file("b")).unwrap().original_filename, "a");
}

#[test]
fn saving_sorts_by_name_and_hands_out_the_articles() {
    let mut book = InfoWrangler::new();
    for (name, at) in [("c", 1u64), ("a", 2), ("b", 3)] {
        assert!(book.upsert_at(&file(name), Some(at)).is_ok());
    }
    let written = book.save();
    let saved: Vec<(String, u64)> = written
        .articles
        .iter()
        .map(|article| (article.original_filename.clone(), article.created_at))
        .collect();
    assert_eq!(saved, vec![("a".to_string(), 2), ("b".to_string(), 3), ("c".to_string(), 1)]);
    assert_eq!(names(&book), vec!["a", "b", "c"]);
}

#[test]
fn the_site_is_shown_names_times_and_tags() {
    let shown = PublicArticleInfo::from(&article("Hello World", 7, 9, "secret", &["x", "y"]));
    assert_eq!(shown.original_title, "Hello World");
    assert_eq!(shown.safe_title, "hello_world");
    assert_eq!(shown.created_at, 7);
    assert_eq!(shown.tags, vec!["x".to_string(), "y".to_string()]);

    let stored = InfoFile { articles: vec![article("B", 2, 2, "", &["t"]), article("A", 1, 1, "", &[])] };
    let listed = PublicInfoFile::from(&stored);
    assert_eq!(listed.page_num, 0);
    assert_eq!(listed.search_term, "");
    assert!(listed.results.is_empty());
    assert_eq!(listed.articles.len(), 2);
    assert_eq!(listed.articles[0].original_title, "B");
    assert_eq!(listed.articles[0].tags, vec!["t".to_string()]);
    assert_eq!(listed.articles[1].safe_title, "a");

    let book = InfoWrangler::init(Some(stored));
    let public = book.get_public_info();
    assert_eq!(public.articles.len(), 2);
    assert_eq!(public.articles[1].original_title, "A");
    assert_eq!(public.page_num, 0);
}

#[test]
fn an_article_page_without_tags() {
    let info = article("Hello", 0, 1_710_504_000, "", &[]);
    assert_eq!(
        Articles::compile_full_html(&info, "<p>hi</p>\n", 0),
        article_page("Hello", "<p>hi</p>\n", "", "March 15, 2024")
    );
}

#[test]
fn an_article_page_with_tags() {
    let one = article("Hello", 0, 0, "", &["rust"]);
    assert_eq!(
        Articles::compile_full_html(&one, "", 0),
        article_page(
            "Hello",
            "",
            "<p class=\"tags\"><i>tags</i>: <span class=\"tag\">rust</span></p>",
            "January  1, 1970"
        )
    );
    let three = article("Hello", 0, 0, "", &["a", "b c", ""]);
    assert_eq!(
        Articles::compile_full_html(&three, "x", 0),
        article_page(
            "Hello",
            "x",
            "<p class=\"tags\"><i>tags</i>: <span class=\"tag\">a</span> <span class=\"tag\">b c</span> <span class=\"tag\"></span></p>",
            "January  1, 1970"
        )
    );
}

#[test]
fn an_article_page_without_a_date() {
    let info = article("Late", 0, u64::MAX, "", &[]);
    assert_eq!(Articles::compile_full_html(&info, "", 0), article_page("Late", "", "", "unknown"));
    let info = article("Far", 0, 0, "", &[]);
    assert_eq!(Articles::compile_full_html(&info, "", 90_000), article_page("Far", "", "", "unknown"));
}

#[test]
fn an_article_page_is_put_together_from_its_parts() {
    assert_eq!(
        Articles::assemble("N", "H", &vec!["t".to_string()], "D"),
        article_page("N", "H", "<p class=\"tags\"><i>tags</i>: <span class=\"tag\">t</span></p>", "D")
    );
}

#[test]
fn processing_an_article_notes_its_content_and_renders_it() {
    let mut book = InfoWrangler::new();
    assert!(book.upsert_at(&file("Hello World"), Some(0)).is_ok());
    let rendered =
        Articles::process(&file("Hello World"), "# Hi\n", &mut book, Some(86_400), 0).unwrap();
    assert_eq!(rendered.file_name, "hello_world.html");
    assert_eq!(rendered.html, article_page("Hello World", "<h1>Hi</h1>\n", "", "January  2, 1970"));
    let found = book.get_article(&file("Hello World")).unwrap();
    assert_eq!(found.content_hash, hash_text("# Hi\n"));
    assert_eq!((found.created_at, found.updated_at), (0, 86_400));
}

#[test]
fn processing_an_article_that_was_not_met_renders_nothing() {
    let mut book = InfoWrangler::new();
    assert!(Articles::process(&file("a"), "text", &mut book, Some(1), 0).is_none());
    assert!(book.articles().is_empty());
}
