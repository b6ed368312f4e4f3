use blag::config::{parse_number, Config, DEFAULT_POSTS_PER_PAGE};

fn some(text: &str) -> Option<String> {
    Some(text.to_string())
}

#[test]
fn every_setting_has_a_default() {
    let config = Config::init(None, None, None, None, None, None, None);
    assert_eq!(config.repo_name, "blag");
    assert_eq!(config.github_link, "https://github.com/cruncha-cruncha/");
    assert_eq!(config.input_path, "../site");
    assert_eq!(config.output_path, "../blag");
    assert_eq!(config.tracking_file_path, "./blag_info.json");
    assert_eq!(config.posts_per_page, 50);
    assert_eq!(config.posts_per_page, DEFAULT_POSTS_PER_PAGE);
    assert_eq!(config.pages_index_name, "pages");
}

#[test]
fn given_settings_are_taken() {
    let config = Config::init(
        some("garden"),
        some("https://example.org/"),
        some("./in"),
        some("./out"),
        some("./track.json"),
        some("20"),
        some("page-index"),
    );
    assert_eq!(config.repo_name, "garden");
    assert_eq!(config.github_link, "https://example.org/");
    assert_eq!(config.input_path, "./in");
    assert_eq!(config.output_path, "./out");
    assert_eq!(config.tracking_file_path, "./track.json");
    assert_eq!(config.posts_per_page, 20);
    assert_eq!(config.pages_index_name, "page-index");
}

#[test]
fn output_directory_follows_the_name_of_the_site() {
    let named = Config::init(some("garden"), None, None, None, None, None, None);
    assert_eq!(named.output_path, "../garden");
    let unnamed = Config::init(some(""), None, None, None, None, None, None);
    assert_eq!(unnamed.repo_name, "");
    assert_eq!(unnamed.output_path, "../build");
}

#[test]
fn page_size_falls_back_to_the_default() {
    for text in ["", "0", "000", "abc", "-5", "5 ", " 5", "5.0", "+", "99999999999999999999999999"] {
        let config = Config::init(None, None, None, None, None, some(text), None);
        assert_eq!(config.posts_per_page, 50, "for {:?}", text);
    }
}

#[test]
fn page_size_is_read_in_decimal() {
    for (text, value) in [("1", 1usize), ("7", 7), ("+7", 7), ("007", 7), ("125", 125)] {
        let config = Config::init(None, None, None, None, None, some(text), None);
        assert_eq!(config.posts_per_page, value);
    }
}

#[test]
fn numbers_are_parsed_like_the_standard_library_parses_them() {
    let max = usize::MAX.to_string();
    let over = format!("{}0", usize::MAX);
    let mut next = max.clone().into_bytes();
    // usize::MAX ends in 5 on 32 and 64 bit machines: one above ends in 6.
    *next.last_mut().unwrap() += 1;
    let next = String::from_utf8(next).unwrap();
    for text in [
        "", "0", "1", "+0", "+1", "++1", "1+", "-1", "12a", "a12", "0012", max.as_str(),
        over.as_str(), next.as_str(), "\u{661}\u{662}", "1_000", "0x10",
    ] {
        assert_eq!(parse_number(text), text.parse::<usize>().ok(), "for {:?}", text);
    }
    assert_eq!(parse_number(&max), Some(usize::MAX));
    assert_eq!(parse_number(&next), None);
}
