//! The page of an article of the article book.

use crate::info::{ArticleInfo, InfoWrangler};
use crate::posts::{convert_md_to_html, rendered_html, ScannedPath};
use crate::text::{text_of, texts};
use crate::utils::{date_text, format_datetime, has_date_text};
use vstd::prelude::*;

verus! {

/// The tags of an article, each in a span of its own, with a blank between
/// two of them.
pub open spec fn tag_spans(tags: Seq<Seq<char>>) -> Seq<char>
    decreases tags.len(),
{
    if tags.len() == 0 {
        Seq::empty()
    } else if tags.len() == 1 {
        r#"<span class="tag">"#@ + tags[0] + "</span>"@
    } else {
        tag_spans(tags.drop_last()) + " "@ + r#"<span class="tag">"#@ + tags.last() + "</span>"@
    }
}

/// The line of the tags of an article; nothing for an article without
/// tags.
pub open spec fn tags_line(tags: Seq<Seq<char>>) -> Seq<char> {
    if tags.len() == 0 {
        Seq::empty()
    } else {
        r#"<p class="tags"><i>tags</i>: "#@ + tag_spans(tags) + "</p>"@
    }
}

/// The date of the last change of an article as its page shows it:
/// `unknown` for a time without date text.
pub open spec fn shown_date(updated_at: u64, utc_offset_seconds: i32) -> Seq<char> {
    if has_date_text(updated_at, utc_offset_seconds) {
        date_text(updated_at as int, utc_offset_seconds as int)
    } else {
        "unknown"@
    }
}

/// The line that tells when an article was last updated.
pub open spec fn article_updated_line(date: Seq<char>) -> Seq<char> {
    r#"<p class="last-updated"><i>last updated</i>: "#@ + date + "</p>"@
}

/// The page of an article: its name, the HTML of its content, its tags and
/// the date of its last change.
pub open spec fn article_page(
    name: Seq<char>,
    html_content: Seq<char>,
    tags: Seq<Seq<char>>,
    date: Seq<char>,
) -> Seq<char> {
    r#"<!DOCTYPE html>
<html lang="en">
    <head>
        <meta name="viewport" content="width=device-width, initial-scale=1.0">
        <meta charset="UTF-8">
        <title>"#@ + name + r#"</title>
        <style>
            table {
                border-collapse: collapse;
                width: 100%;
            }
            th, td {
                border: 1px solid #ddd;
                text-align: right;
                padding: 8px; /* Adds spacing between columns */
            }
        </style>
    </head>
    <body>
        <div style="max-width:800px;margin-left:auto;margin-right:auto;">
            "#@ + html_content + r#"
            "#@ + tags_line(tags) + r#"
            "#@ + article_updated_line(date) + r#"
        </div>
    </body>
</html>
"#@
}

/// An article as it is to be written: the name of its file and its text.
pub struct RenderedArticle {
    pub file_name: String,
    pub html: String,
}

/// The pages of the articles.
pub struct Articles {}

impl Articles {
    /// Writes the spans of a list of tags.
    fn write_tag_spans(tags: &Vec<String>) -> (spans: String)
        ensures
            spans@ == tag_spans(texts(tags@)),
    {
        let mut spans = String::new();
        let ghost all = texts(tags@);
        let mut i: usize = 0;
        proof {
            assert(all.take(0) =~= Seq::empty());
        }
        while i < tags.len()
            invariant
                i <= tags.len(),
                all == texts(tags@),
                spans@ == tag_spans(all.take(i as int)),
            decreases tags.len() - i,
        {
            let ghost before = spans@;
            proof {
                assert(all.take(i + 1).drop_last() =~= all.take(i as int));
                assert(all.take(i + 1).last() == tags@[i as int]@);
                assert(all.take(i + 1)[0] == all[0]);
            }
            if i > 0 {
                spans.append(" ");
            }
            spans.append(r#"<span class="tag">"#);
            spans.append(tags[i].as_str());
            spans.append("</span>");
            proof {
                if i > 0 {
                    assert(spans@ =~= before + " "@ + r#"<span class="tag">"#@ + tags@[i as int]@
                        + "</span>"@);
                } else {
                    assert(before =~= Seq::empty());
                    assert(spans@ =~= r#"<span class="tag">"#@ + tags@[i as int]@ + "</span>"@);
                }
            }
            i += 1;
        }
        proof {
            assert(all.take(i as int) =~= all);
        }
        spans
    }

    /// Puts the page of an article together from its name, the HTML of its
    /// content, its tags and the date of its last change.
    pub fn assemble(name: &str, html_content: &str, tags: &Vec<String>, date: &str) -> (page:
        String)
        ensures
            page@ == article_page(name@, html_content@, texts(tags@), date@),
    {
        let mut page = String::from_str(
            r#"<!DOCTYPE html>
<html lang="en">
    <head>
        <meta name="viewport" content="width=device-width, initial-scale=1.0">
        <meta charset="UTF-8">
        <title>"#,
        );
        page.append(name);
        page.append(
            r#"</title>
        <style>
            table {
                border-collapse: collapse;
                width: 100%;
            }
            th, td {
                border: 1px solid #ddd;
                text-align: right;
                padding: 8px; /* Adds spacing between columns */
            }
        </style>
    </head>
    <body>
        <div style="max-width:800px;margin-left:auto;margin-right:auto;">
            "#,
        );
        page.append(html_content);
        page.append(r#"
            "#);
        let ghost start = page@;
        if tags.len() > 0 {
            let spans = Articles::write_tag_spans(tags);
            page.append(r#"<p class="tags"><i>tags</i>: "#);
            page.append(spans.as_str());
            page.append("</p>");
        }
        proof {
            assert(page@ =~= start + tags_line(texts(tags@)));
        }
        page.append(r#"
            "#);
        let ghost mid = page@;
        page.append(r#"<p class="last-updated"><i>last updated</i>: "#);
        page.append(date);
        page.append("</p>");
        proof {
            assert(page@ =~= mid + article_updated_line(date@));
        }
        page.append(
            r#"
        </div>
    </body>
</html>
"#,
        );
        page
    }

    /// Renders the page of an article around the HTML of its content, with
    /// the date of its last change as a clock `utc_offset_seconds` east of
    /// UTC shows it.
    pub fn compile_full_html(
        article_info: &ArticleInfo,
        html_content: &str,
        utc_offset_seconds: i32,
    ) -> (page: String)
        ensures
            page@ == article_page(
                article_info@.original_filename,
                html_content@,
                article_info@.tags,
                shown_date(article_info.updated_at, utc_offset_seconds),
            ),
    {
        let last_updated = match format_datetime(article_info.updated_at, utc_offset_seconds) {
            Some(date) => date,
            None => String::from_str("unknown"),
        };
        Articles::assemble(
            article_info.original_filename.as_str(),
            html_content,
            &article_info.tags,
            last_updated.as_str(),
        )
    }

    /// Takes note of the content of the article at `path`, read at `now`,
    /// and renders its page. `None`, after the note was taken, when the
    /// book has not met the article in this run.
    pub fn process(
        path: &ScannedPath,
        content: &str,
        info_wrangler: &mut InfoWrangler,
        now: Option<u64>,
        utc_offset_seconds: i32,
    ) -> (rendered: Option<RenderedArticle>)
        requires
            old(info_wrangler).wf(),
        ensures
            final(info_wrangler).wf(),
            final(info_wrangler)@ == old(info_wrangler)@.update_content(
                text_of(path.file_stem),
                content@,
                now,
            ),
            match final(info_wrangler)@.article(text_of(path.file_stem)) {
                Some(article) => {
                    &&& rendered matches Some(page)
                    &&& page.file_name@ == article.safe_filename + ".html"@
                    &&& page.html@ == article_page(
                        article.original_filename,
                        rendered_html(content@),
                        article.tags,
                        shown_date(article.updated_at, utc_offset_seconds),
                    )
                },
                None => rendered is None,
            },
    {
        info_wrangler.update_content_at(path, content, now);
        let html_content = convert_md_to_html(content);
        match info_wrangler.get_article(path) {
            Some(article_info) => {
                let html = Articles::compile_full_html(
                    article_info,
                    html_content.as_str(),
                    utc_offset_seconds,
                );
                let file_name = article_info.safe_filename.clone().concat(".html");
                Some(RenderedArticle { file_name, html })
            },
            None => None,
        }
    }
}

} // verus!
