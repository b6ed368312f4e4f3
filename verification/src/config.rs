//! The settings of a run, each with the value it takes when none is given.

use crate::text::text_of;
use vstd::prelude::*;

verus! {

/// The page size used when none is given, or when the one given is not a
/// positive number.
pub const DEFAULT_POSTS_PER_PAGE: usize = 50;

/// The settings of a run.
pub struct Config {
    /// Where the markdown files are.
    pub input_path: String,
    /// Where the rendered files go.
    pub output_path: String,
    /// Where the tracking file is.
    pub tracking_file_path: String,
    /// How many posts one index page lists. Always positive when the value
    /// comes from [`Config::init`].
    pub posts_per_page: usize,
    /// The name of the directory of the index pages.
    pub pages_index_name: String,
    /// Where the project link of every index page leads.
    pub github_link: String,
    /// The name under which the site is served; the first part of every
    /// link.
    pub repo_name: String,
}

/// The mathematical value of a [`Config`].
pub struct Settings {
    pub input_path: Seq<char>,
    pub output_path: Seq<char>,
    pub tracking_file_path: Seq<char>,
    pub posts_per_page: usize,
    pub pages_index_name: Seq<char>,
    pub github_link: Seq<char>,
    pub repo_name: Seq<char>,
}

impl View for Config {
    type V = Settings;

    open spec fn view(&self) -> Settings {
        Settings {
            input_path: self.input_path@,
            output_path: self.output_path@,
            tracking_file_path: self.tracking_file_path@,
            posts_per_page: self.posts_per_page,
            pages_index_name: self.pages_index_name@,
            github_link: self.github_link@,
            repo_name: self.repo_name@,
        }
    }
}

/// The value of a decimal digit.
pub open spec fn digit_value(c: char) -> nat {
    if c == '1' {
        1
    } else if c == '2' {
        2
    } else if c == '3' {
        3
    } else if c == '4' {
        4
    } else if c == '5' {
        5
    } else if c == '6' {
        6
    } else if c == '7' {
        7
    } else if c == '8' {
        8
    } else if c == '9' {
        9
    } else {
        0
    }
}

/// True when every character is one of `0`-`9`.
pub open spec fn all_digits(text: Seq<char>) -> bool {
    forall|i: int| 0 <= i < text.len() ==> '0' <= #[trigger] text[i] <= '9'
}

/// The number that a sequence of decimal digits writes.
pub open spec fn digits_value(digits: Seq<char>) -> nat
    decreases digits.len(),
{
    if digits.len() == 0 {
        0
    } else {
        digits_value(digits.drop_last()) * 10 + digit_value(digits.last())
    }
}

/// The number that a text writes: decimal digits, at least one, after an
/// optional `+`. `None` for any other text.
pub open spec fn parsed_number(text: Seq<char>) -> Option<nat> {
    let digits = if text.len() > 0 && text[0] == '+' {
        text.skip(1)
    } else {
        text
    };
    if digits.len() > 0 && all_digits(digits) {
        Some(digits_value(digits))
    } else {
        None
    }
}

/// The page size that a setting asks for: the number it writes when that is
/// positive and fits the machine, or else the default.
pub open spec fn page_size_of(setting: Option<Seq<char>>) -> usize {
    match setting {
        Some(text) => match parsed_number(text) {
            Some(n) => if 0 < n <= usize::MAX {
                n as usize
            } else {
                DEFAULT_POSTS_PER_PAGE
            },
            None => DEFAULT_POSTS_PER_PAGE,
        },
        None => DEFAULT_POSTS_PER_PAGE,
    }
}

/// A setting, or the default where it is absent.
pub open spec fn or_default(setting: Option<Seq<char>>, default: Seq<char>) -> Seq<char> {
    match setting {
        Some(text) => text,
        None => default,
    }
}

/// Where the rendered files go when no output directory is given: beside
/// the working directory, under the name of the site.
pub open spec fn fallback_output_dir(repo_name: Seq<char>) -> Seq<char> {
    if repo_name.len() == 0 {
        "../build"@
    } else {
        "../"@ + repo_name
    }
}

impl Settings {
    /// The settings that a set of optional values gives.
    pub open spec fn from_values(
        repo_name: Option<Seq<char>>,
        github_link: Option<Seq<char>>,
        input_dir: Option<Seq<char>>,
        output_dir: Option<Seq<char>>,
        tracking_file: Option<Seq<char>>,
        per_page: Option<Seq<char>>,
        pages_index_name: Option<Seq<char>>,
    ) -> Settings {
        let name = or_default(repo_name, "blag"@);
        Settings {
            input_path: or_default(input_dir, "../site"@),
            output_path: or_default(output_dir, fallback_output_dir(name)),
            tracking_file_path: or_default(tracking_file, "./blag_info.json"@),
            posts_per_page: page_size_of(per_page),
            pages_index_name: or_default(pages_index_name, "pages"@),
            github_link: or_default(github_link, "https://github.com/cruncha-cruncha/"@),
            repo_name: name,
        }
    }
}

/// The value of a longer sequence of digits is not below that of its
/// beginning.
proof fn lemma_digits_value_grows(digits: Seq<char>, n: int)
    requires
        0 <= n <= digits.len(),
    ensures
        digits_value(digits.take(n)) <= digits_value(digits),
    decreases digits.len() - n,
{
    if n < digits.len() {
        lemma_digits_value_grows(digits, n + 1);
        assert(digits.take(n + 1).drop_last() =~= digits.take(n));
    } else {
        assert(digits.take(n) =~= digits);
    }
}

fn digit_of(c: char) -> (value: Option<usize>)
    ensures
        value is Some <==> '0' <= c <= '9',
        value matches Some(v) ==> v == digit_value(c) && v < 10,
{
    if c == '0' {
        Some(0)
    } else if c == '1' {
        Some(1)
    } else if c == '2' {
        Some(2)
    } else if c == '3' {
        Some(3)
    } else if c == '4' {
        Some(4)
    } else if c == '5' {
        Some(5)
    } else if c == '6' {
        Some(6)
    } else if c == '7' {
        Some(7)
    } else if c == '8' {
        Some(8)
    } else if c == '9' {
        Some(9)
    } else {
        None
    }
}

/// Reads a number written in decimal, with an optional `+` before it.
/// `None` when the text writes no number or one that does not fit.
pub fn parse_number(text: &str) -> (number: Option<usize>)
    ensures
        number == match parsed_number(text@) {
            Some(n) => if n <= usize::MAX {
                Some(n as usize)
            } else {
                None
            },
            None => None,
        },
{
    let ghost digits = if text@.len() > 0 && text@[0] == '+' {
        text@.skip(1)
    } else {
        text@
    };
    let ghost offset: int = text@.len() - digits.len();
    let mut value: usize = 0;
    let ghost mut count: int = 0;
    let mut any = false;
    let mut first = true;
    for c in it: text.chars()
        invariant
            it.seq() == text@,
            digits == (if text@.len() > 0 && text@[0] == '+' {
                text@.skip(1)
            } else {
                text@
            }),
            offset == text@.len() - digits.len(),
            first == (it.index() == 0),
            first ==> count == 0,
            !first ==> count == it.index() - offset,
            0 <= count <= digits.len(),
            any == (count > 0),
            all_digits(digits.take(count)),
            value == digits_value(digits.take(count)),
    {
        if first && c == '+' {
            proof {
                assert(text@[0] == '+');
                assert(digits.take(0) =~= Seq::empty());
            }
        } else {
            proof {
                assert(digits[count] == c);
                assert(digits.take(count + 1).drop_last() =~= digits.take(count));
                assert(digits.take(count + 1).last() == c);
            }
            match digit_of(c) {
                None => {
                    return None;
                },
                Some(d) => {
                    if value > (usize::MAX - d) / 10 {
                        proof {
                            lemma_digits_value_grows(digits, count + 1);
                            if all_digits(digits) {
                                assert(digits_value(digits) > usize::MAX);
                            }
                        }
                        return None;
                    }
                    value = value * 10 + d;
                    any = true;
                    proof {
                        count = count + 1;
                    }
                },
            }
        }
        first = false;
    }
    proof {
        assert(digits.take(count) =~= digits);
    }
    if any {
        Some(value)
    } else {
        None
    }
}

fn text_or(setting: Option<String>, default: &str) -> (text: String)
    ensures
        text@ == or_default(text_of(setting), default@),
{
    match setting {
        Some(text) => text,
        None => String::from_str(default),
    }
}

impl Config {
    /// The settings of a run, from the values that were given: the name of
    /// the site, the project link, the input directory, the output
    /// directory, the tracking file, the page size and the name of the
    /// index directory. Each one that is absent takes its default.
    pub fn init(
        repo_name: Option<String>,
        github_link: Option<String>,
        input_dir: Option<String>,
        output_dir: Option<String>,
        tracking_file: Option<String>,
        per_page: Option<String>,
        pages_index_name: Option<String>,
    ) -> (config: Config)
        ensures
            config@ == Settings::from_values(
                text_of(repo_name),
                text_of(github_link),
                text_of(input_dir),
                text_of(output_dir),
                text_of(tracking_file),
                text_of(per_page),
                text_of(pages_index_name),
            ),
            config.posts_per_page > 0,
    {
        let repo_name = text_or(repo_name, "blag");
        let github_link = text_or(github_link, "https://github.com/cruncha-cruncha/");
        let input_path = text_or(input_dir, "../site");
        let output_path = match output_dir {
            Some(dir) => dir,
            None => {
                if repo_name.as_str().unicode_len() == 0 {
                    String::from_str("../build")
                } else {
                    String::from_str("../").concat(repo_name.as_str())
                }
            },
        };
        let tracking_file_path = text_or(tracking_file, "./blag_info.json");
        let posts_per_page = match per_page {
            Some(text) => match parse_number(text.as_str()) {
                Some(n) => if n > 0 {
                    n
                } else {
                    DEFAULT_POSTS_PER_PAGE
                },
                None => DEFAULT_POSTS_PER_PAGE,
            },
            None => DEFAULT_POSTS_PER_PAGE,
        };
        let pages_index_name = text_or(pages_index_name, "pages");
        Config {
            input_path,
            output_path,
            tracking_file_path,
            posts_per_page,
            pages_index_name,
            github_link,
            repo_name,
        }
    }
}

} // verus!
