use blag::config::Config;
use blag::persistence::{hash_text, PersistentFileInfo, TrackingInfo};
use blag::posts::{
    assemble_post, compile_full_html, convert_md_to_html, format_output_path, generate_posts,
    path_is_md, read_file, render_post, scanned_entries, FileData, InputRead, PlannedPost,
    PostPath, ScanError, ScannedPath, SiteEntry,
};

fn settings() -> Config {
    Config::init(None, None, None, None, None, None, None)
}

fn document(dir: &str, title: &str, content: &str) -> FileData {
    FileData { dir: dir.to_string(), title: title.to_string(), content: content.to_string() }
}

fn directory(name: &str, titles: &[(&str, &str)]) -> SiteEntry {
    SiteEntry::Directory {
        name: name.to_string(),
        documents: titles.iter().map(|(title, content)| document(name, title, content)).collect(),
    }
}

fn path(is_file: bool, parent: Option<&str>, stem: Option<&str>, extension: Option<&str>) -> ScannedPath {
    ScannedPath {
        is_file,
        is_dir: !is_file,
        parent_name: parent.map(|text| text.to_string()),
        file_stem: stem.map(|text| text.to_string()),
        extension: extension.map(|text| text.to_string()),
    }
}

fn page(title: &str, html: &str, date: &str) -> String {
    format!(
        "\n<!DOCTYPE html>\n<html lang=\"en\">\n    <head>\n        <meta name=\"viewport\" content=\"width=device-width, initial-scale=1.0\">\n        <meta charset=\"UTF-8\">\n        <title>{}</title>\n    </head>\n    <body class=\"post\">\n        {}\n        <p class=\"last-updated\"><i>last updated: {}<i></p>\n    </body>\n</html>\n",
        title, html, date
    )
}

#[test]
fn markdown_files_are_regular_files_ending_in_md() {
    assert!(path_is_md(&path(true, Some("notes"), Some("a"), Some("md"))));
    assert!(!path_is_md(&path(false, Some("notes"), Some("a"), Some("md"))));
    assert!(!path_is_md(&path(true, Some("notes"), Some("a"), Some("MD"))));
    assert!(!path_is_md(&path(true, Some("notes"), Some("a"), Some("markdown"))));
    assert!(!path_is_md(&path(true, Some("notes"), Some("a"), Some(""))));
    assert!(!path_is_md(&path(true, Some("notes"), Some(".md"), None)));
}

#[test]
fn a_read_document_takes_its_names_from_the_path() {
    let file = read_file(
        &path(true, Some("notes"), Some("Hello World"), Some("md")),
        Ok("# hi".to_string()),
    )
    .unwrap();
    assert_eq!(file.dir, "notes");
    assert_eq!(file.title, "Hello World");
    assert_eq!(file.content, "# hi");
}

#[test]
fn a_document_needs_a_parent_a_title_and_a_content() {
    let content = || Ok("text".to_string());
    let no_parent = read_file(&path(true, None, Some("a"), Some("md")), content());
    assert_eq!(no_parent.err().unwrap(), "Failed to get parent directory name");
    let no_stem = read_file(&path(true, Some("notes"), None, Some("md")), content());
    assert_eq!(no_stem.err().unwrap(), "Failed to parse file title");
    let neither = read_file(&path(true, None, None, None), Err("unreadable".to_string()));
    assert_eq!(neither.err().unwrap(), "Failed to get parent directory name");
    let unread = read_file(
        &path(true, Some("notes"), Some("a"), Some("md")),
        Err("permission denied".to_string()),
    );
    assert_eq!(unread.err().unwrap(), "permission denied");
}

#[test]
fn markdown_is_rendered_to_html() {
    assert_eq!(convert_md_to_html("# Title\n\nsome *text*\n"), "<h1>Title</h1>\n<p>some <em>text</em></p>\n");
    assert_eq!(convert_md_to_html(""), "");
    assert_eq!(convert_md_to_html("* a\n* b\n"), "<ul>\n<li>a</li>\n<li>b</li>\n</ul>\n");
}

#[test]
fn malformed_markdown_is_rendered_as_it_stands() {
    assert_eq!(convert_md_to_html("[broken](link\n"), "<p>[broken](link</p>\n");
    assert_eq!(convert_md_to_html("**open\n"), "<p>**open</p>\n");
}

#[test]
fn a_post_goes_into_its_directory_under_its_slug() {
    let place = format_output_path(&document("My Notes", "Hello World", ""));
    assert_eq!(place.dir, Some("My Notes".to_string()));
    assert_eq!(place.file_name, "hello_world.html");
}

#[test]
fn a_post_is_put_together_from_title_content_and_date() {
    assert_eq!(
        assemble_post("Hello", "<p>hi</p>\n", "March 15, 2024"),
        page("Hello", "<p>hi</p>\n", "March 15, 2024")
    );
    assert_eq!(assemble_post("", "", ""), page("", "", ""));
}

#[test]
fn a_post_is_compiled_from_a_document() {
    let file = document("notes", "Hello World", "# Hello\n");
    assert_eq!(
        compile_full_html(&file, 1_710_504_000, 0),
        Some(page("Hello World", "<h1>Hello</h1>\n", "March 15, 2024"))
    );
    assert_eq!(
        compile_full_html(&file, 1_704_065_400, 3600),
        Some(page("Hello World", "<h1>Hello</h1>\n", "January  1, 2024"))
    );
}

#[test]
fn a_post_without_a_date_is_not_compiled() {
    let file = document("notes", "Hello World", "# Hello\n");
    assert_eq!(compile_full_html(&file, u64::MAX, 0), None);
    assert_eq!(compile_full_html(&file, 0, 86_400), None);
}

#[test]
fn an_empty_input_directory_plans_nothing() {
    let mut store = TrackingInfo::new();
    let plan = match generate_posts(&settings(), &Vec::new(), &mut store, 10) {
        Ok(plan) => plan,
        Err(_) => panic!("nothing can go wrong with nothing"),
    };
    assert!(plan.posts.is_empty());
    assert_eq!(plan.sub_dir_count, 0);
    assert_eq!(store.len(), 0);
}

#[test]
fn a_scan_tracks_and_plans_every_document() {
    let mut store = TrackingInfo::new();
    let entries = vec![
        directory("notes", &[("Hello World", "one"), ("Second", "two")]),
        SiteEntry::Document(document("site", "Front", "welcome")),
        directory("empty", &[]),
        directory("essays", &[("On Things", "three")]),
    ];
    let plan = match generate_posts(&settings(), &entries, &mut store, 500) {
        Ok(plan) => plan,
        Err(_) => panic!("the scan must succeed"),
    };
    assert_eq!(plan.sub_dir_count, 3);
    let places: Vec<(Option<String>, String, u64)> = plan
        .posts
        .iter()
        .map(|post| (post.path.dir.clone(), post.path.file_name.clone(), post.last_updated))
        .collect();
    assert_eq!(
        places,
        vec![
            (Some("notes".to_string()), "hello_world.html".to_string(), 500),
            (Some("notes".to_string()), "second.html".to_string(), 500),
            (None, "index.html".to_string(), 500),
            (Some("essays".to_string()), "on_things.html".to_string(), 500),
        ]
    );
    assert_eq!(plan.posts[2].data.title, "Front");
    assert_eq!(plan.posts[2].data.content, "welcome");
    assert_eq!(store.len(), 3);
    assert_eq!(store.categories(), vec!["notes".to_string(), "essays".to_string()]);
    assert!(store.get(&"site".to_string(), &"front".to_string()).is_none());
}

#[test]
fn a_scan_plans_with_the_time_of_the_last_change() {
    let mut old = TrackingInfo::new();
    for (title, content, at) in [("Same", "a", 100u64), ("Edited", "b", 200), ("Removed", "c", 300)] {
        let info = PersistentFileInfo {
            title: title.to_string(),
            content_hash: hash_text(content),
            updated_at: at,
            created_at: at - 50,
        };
        assert!(old.restore("notes".to_string(), title.to_lowercase(), info));
    }
    let entries = vec![directory("notes", &[("Same", "a"), ("Edited", "b2"), ("Added", "d")])];
    let plan = match generate_posts(&settings(), &entries, &mut old, 1000) {
        Ok(plan) => plan,
        Err(_) => panic!("the scan must succeed"),
    };
    let updated: Vec<u64> = plan.posts.iter().map(|post| post.last_updated).collect();
    assert_eq!(updated, vec![100, 1000, 1000]);
    assert_eq!(old.len(), 3);
    assert!(old.get(&"notes".to_string(), &"removed".to_string()).is_none());
    let same = old.get(&"notes".to_string(), &"same".to_string()).unwrap();
    assert_eq!((same.created_at, same.updated_at), (50, 100));
    let edited = old.get(&"notes".to_string(), &"edited".to_string()).unwrap();
    assert_eq!((edited.created_at, edited.updated_at), (150, 1000));
    assert_eq!(edited.content_hash, hash_text("b2"));
    let added = old.get(&"notes".to_string(), &"added".to_string()).unwrap();
    assert_eq!((added.created_at, added.updated_at), (1000, 1000));
}

#[test]
fn a_second_document_in_the_input_directory_ends_the_scan() {
    let mut store = TrackingInfo::new();
    let entries = vec![
        SiteEntry::Document(document("site", "One", "")),
        directory("notes", &[("a", "")]),
        SiteEntry::Document(document("site", "Two", "")),
    ];
    assert!(matches!(
        generate_posts(&settings(), &entries, &mut store, 1),
        Err(ScanError::MultipleRootDocuments)
    ));
}

#[test]
fn a_directory_named_like_the_index_ends_the_scan() {
    let mut store = TrackingInfo::new();
    let entries = vec![directory("notes", &[("a", "")]), directory("pages", &[])];
    match generate_posts(&settings(), &entries, &mut store, 1) {
        Err(ScanError::ReservedDirectory { name }) => assert_eq!(name, "pages"),
        _ => panic!("the directory must be refused"),
    }
}

#[test]
fn two_documents_with_one_key_end_the_scan() {
    let mut store = TrackingInfo::new();
    let entries = vec![directory("notes", &[("Hello World", "a"), ("hello world", "b")])];
    match generate_posts(&settings(), &entries, &mut store, 1) {
        Err(ScanError::DuplicateDocument { category, slug }) => {
            assert_eq!(category, "notes");
            assert_eq!(slug, "hello_world");
        }
        _ => panic!("the second document must be refused"),
    }
}

#[test]
fn the_first_fault_is_the_one_reported() {
    let mut store = TrackingInfo::new();
    let entries = vec![
        directory("notes", &[("a", ""), ("A", "")]),
        directory("pages", &[]),
    ];
    assert!(matches!(
        generate_posts(&settings(), &entries, &mut store, 1),
        Err(ScanError::DuplicateDocument { .. })
    ));
    let mut store = TrackingInfo::new();
    let entries = vec![
        directory("pages", &[("a", ""), ("A", "")]),
    ];
    assert!(matches!(
        generate_posts(&settings(), &entries, &mut store, 1),
        Err(ScanError::ReservedDirectory { .. })
    ));
}

#[test]
fn a_planned_post_is_rendered_where_it_was_planned() {
    let post = PlannedPost {
        path: PostPath { dir: Some("notes".to_string()), file_name: "hello.html".to_string() },
        data: document("notes", "Hello", "text\n"),
        last_updated: 0,
    };
    let rendered = render_post(&post, 0).unwrap();
    assert_eq!(rendered.path.dir, Some("notes".to_string()));
    assert_eq!(rendered.path.file_name, "hello.html");
    assert_eq!(rendered.html, page("Hello", "<p>text</p>\n", "January  1, 1970"));
    assert!(render_post(&post, 100_000).is_none());
    let front = PlannedPost {
        path: PostPath { dir: None, file_name: "index.html".to_string() },
        data: document("site", "Front", ""),
        last_updated: 86_400,
    };
    let rendered = render_post(&front, 0).unwrap();
    assert_eq!(rendered.path.dir, None);
    assert_eq!(rendered.html, page("Front", "", "January  2, 1970"));
}

#[test]
fn a_scan_that_is_given_up_leaves_the_store_as_it_was() {
    let mut store = TrackingInfo::new();
    let info = PersistentFileInfo {
        title: "Old".to_string(),
        content_hash: hash_text("x"),
        updated_at: 2,
        created_at: 1,
    };
    assert!(store.restore("notes".to_string(), "old".to_string(), info));
    let entries = vec![
        directory("notes", &[("Old", "changed"), ("New", "n")]),
        directory("pages", &[]),
    ];
    assert!(generate_posts(&settings(), &entries, &mut store, 99).is_err());
    assert_eq!(store.len(), 1);
    let old = store.get(&"notes".to_string(), &"old".to_string()).unwrap();
    assert_eq!((old.created_at, old.updated_at), (1, 2));
    assert_eq!(old.content_hash, hash_text("x"));
    assert!(!store.was_seen(&"notes".to_string(), &"old".to_string()));
}

#[test]
fn documents_are_tracked_under_their_own_directory() {
    let mut store = TrackingInfo::new();
    let entries = vec![SiteEntry::Directory {
        name: "outer".to_string(),
        documents: vec![document("inner", "A", "")],
    }];
    let plan = match generate_posts(&settings(), &entries, &mut store, 1) {
        Ok(plan) => plan,
        Err(_) => panic!("the scan must succeed"),
    };
    assert_eq!(plan.posts[0].path.dir, Some("inner".to_string()));
    assert!(store.get(&"inner".to_string(), &"a".to_string()).is_some());
}

#[test]
fn a_missing_input_directory_holds_nothing() {
    match scanned_entries(InputRead::Missing) {
        Ok(entries) => assert!(entries.is_empty()),
        Err(_) => panic!("a missing input directory is no fault"),
    }
}

#[test]
fn an_unreadable_input_directory_is_a_fault() {
    match scanned_entries(InputRead::Unreadable { reason: "permission denied".to_string() }) {
        Err(ScanError::UnreadableInput { reason }) => assert_eq!(reason, "permission denied"),
        _ => panic!("an unreadable input directory is a fault"),
    }
}

#[test]
fn what_was_found_is_what_is_scanned() {
    let found = vec![directory("notes", &[("a", "1")]), SiteEntry::Document(document("s", "f", ""))];
    match scanned_entries(InputRead::Found { entries: found }) {
        Ok(entries) => {
            assert_eq!(entries.len(), 2);
            assert!(matches!(&entries[0], SiteEntry::Directory { name, documents } if name == "notes" && documents.len() == 1));
            assert!(matches!(&entries[1], SiteEntry::Document(data) if data.title == "f"));
        }
        Err(_) => panic!("what was found is no fault"),
    }
}
