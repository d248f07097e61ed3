use blog::frontmatter::FrontMatterParseError;
use blog::markdown::{Markdown, MarkdownParseError};

const FM: &str = "title: \"Rust Blog\"\ndate: 2025-11-03\nslug: \"rust-blog\"\ntags: [\"rust\"]\ndescription: \"D.\"\n";

#[test]
fn markdown_post_is_split_and_rendered() {
    let content = format!("  \n---\n{}---\n\n# Hello\n\nSome *text*.\n\n", FM);
    let md = Markdown::new(&content).unwrap();
    assert_eq!(md.front_matter.title, "Rust Blog");
    assert_eq!(md.front_matter.tags, vec!["rust"]);
    assert_eq!(md.html, "<h1>Hello</h1>\n<p>Some <em>text</em>.</p>");
}

#[test]
fn markdown_body_is_rendered_by_the_markdown_crate() {
    let content = format!("---\n{}---\nplain", FM);
    assert_eq!(Markdown::new(&content).unwrap().html, "<p>plain</p>");
    let content = format!("---\n{}---", FM);
    assert_eq!(Markdown::new(&content).unwrap().html, "");
}

#[test]
fn markdown_without_front_matter_is_refused() {
    assert!(matches!(
        Markdown::new("# Title\n---\n"),
        Err(MarkdownParseError::InvalidFrontMatter)
    ));
    let unclosed = format!("---\n{}# body", FM);
    assert!(matches!(Markdown::new(&unclosed), Err(MarkdownParseError::InvalidFrontMatter)));
}

#[test]
fn markdown_front_matter_errors_pass_through() {
    let content = "---\ntitle: x\n---\nbody";
    match Markdown::new(content) {
        Err(MarkdownParseError::FrontMatterParseError(FrontMatterParseError::MissingKeys(keys))) => {
            assert_eq!(keys, vec!["date", "slug", "tags", "description"])
        }
        other => panic!("unexpected {:?}", other),
    }
}
