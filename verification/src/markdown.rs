//! Markdown posts: a front matter block between `---` lines, then the body,
//! which is rendered to HTML by the `markdown` crate.
use crate::date::valid_day;
use crate::fields::{named_error, parse_block};
use crate::frontmatter::{FrontMatter, FrontMatterParseError};
use crate::text::{
    copy_range, dashes, dashes_at, find_dashes, find_dashes_in, has_dashes_at, lemma_dashes_chars,
    lemma_dashes_prefix, lemma_dashes_skip, lemma_find_first, lemma_find_none, lemma_find_some,
    lemma_trim_end_concat, lemma_trim_of_trim_end, starts_with_dashes, str_chars,
    string_from_chars, trim, trim_chars, trim_end, trim_start,
};
use vstd::prelude::*;

verus! {

/// Declares std's `std::io::Error`, which a `MarkdownParseError` carries
/// when the post file cannot be read; nothing is claimed of its values.
#[verifier::external_type_specification]
#[verifier::external_body]
pub struct ExIoError(std::io::Error);

/// What the `markdown` crate's `to_html` renders a markdown text to.
pub uninterp spec fn markdown_to_html(text: Seq<char>) -> Seq<char>;

/// Calls `markdown::to_html` (CommonMark with default options, which never
/// fails). The contract claims only that the HTML is a function of the
/// text, named `markdown_to_html`; what HTML that is is left to the crate.
#[verifier::external_body]
fn render_html(text: &str) -> (html: String)
    ensures
        html@ == markdown_to_html(text@),
{
    markdown::to_html(text)
}

/// A markdown post: its front matter and its body as HTML.
#[derive(Debug)]
pub struct Markdown {
    pub front_matter: FrontMatter,
    pub html: String,
}

/// Why a markdown post is refused.
#[derive(Debug)]
pub enum MarkdownParseError {
    /// The trimmed text does not start with `---`, or no `---` closes the
    /// front matter.
    InvalidFrontMatter,
    /// The front matter is refused.
    FrontMatterParseError(FrontMatterParseError),
    /// The file could not be read.
    IoError(std::io::Error),
}

/// The front matter text and the trimmed body of a post, or `None` when the
/// trimmed text does not start with `---` or has no closing `---`.
pub open spec fn document_parts(content: Seq<char>) -> Option<(Seq<char>, Seq<char>)> {
    let t = trim(content);
    if !starts_with_dashes(t) {
        None
    } else {
        let rest = t.skip(3);
        match find_dashes(rest) {
            None => None,
            Some(p) => Some((rest.take(p), trim(rest.skip(p + 3)))),
        }
    }
}

/// The post can be read without a panic: its front matter, if it has one,
/// has no malformed line and no tags value that cannot be cut.
pub open spec fn markdown_in_bounds(content: Seq<char>) -> bool {
    document_parts(content) matches Some((fm, _)) ==> parse_block(fm) is Some
}

/// `r` is what reading the post `content` gives.
pub open spec fn markdown_reports(r: Result<Markdown, MarkdownParseError>, content: Seq<char>) -> bool {
    match document_parts(content) {
        None => r matches Err(MarkdownParseError::InvalidFrontMatter),
        Some((fm, body)) => match parse_block(fm).unwrap() {
            Ok(v) => r matches Ok(md) && md.front_matter@ == v && md.html@ == markdown_to_html(body),
            Err(fe) => r matches Err(MarkdownParseError::FrontMatterParseError(e)) && e@
                == named_error(fe),
        },
    }
}

impl Markdown {
    /// Reads a markdown post from its text: the trimmed text must start
    /// with `---`; the front matter runs to the next `---`; the rest,
    /// trimmed, is the body, rendered to HTML.
    pub fn new(content: &str) -> (r: Result<Markdown, MarkdownParseError>)
        requires
            markdown_in_bounds(content@),
        ensures
            markdown_reports(r, content@),
            r matches Ok(md) ==> valid_day(md.front_matter.date),
    {
        let chars = str_chars(content);
        let t = trim_chars(&chars);
        if !has_dashes_at(&t, 0) {
            return Err(MarkdownParseError::InvalidFrontMatter);
        }
        let rest = copy_range(&t, 3, t.len());
        assert(rest@ == t@.skip(3));
        let end_pos = match find_dashes_in(&rest) {
            Some(p) => p,
            None => {
                return Err(MarkdownParseError::InvalidFrontMatter);
            },
        };
        let front_matter_content = copy_range(&rest, 0, end_pos);
        let body = trim_chars(&copy_range(&rest, end_pos + 3, rest.len()));
        assert(front_matter_content@ == rest@.take(end_pos as int));
        let fm_text = string_from_chars(&front_matter_content);
        let front_matter = match FrontMatter::try_new(fm_text.as_str()) {
            Some(Ok(fm)) => fm,
            Some(Err(e)) => {
                return Err(MarkdownParseError::FrontMatterParseError(e));
            },
            None => {
                assert(false);
                return Err(MarkdownParseError::InvalidFrontMatter);
            },
        };
        let body_text = string_from_chars(&body);
        let html = render_html(body_text.as_str());
        Ok(Markdown { front_matter, html })
    }

    /// As `new`, but `None` for the posts on which `new` may not be called
    /// (a front matter with a malformed line or a tags value that cannot be
    /// cut).
    pub fn try_new(content: &str) -> (r: Option<Result<Markdown, MarkdownParseError>>)
        ensures
            r is None <==> !markdown_in_bounds(content@),
            r matches Some(res) ==> markdown_reports(res, content@),
            r matches Some(Ok(md)) ==> valid_day(md.front_matter.date),
    {
        let chars = str_chars(content);
        let t = trim_chars(&chars);
        if has_dashes_at(&t, 0) {
            let rest = copy_range(&t, 3, t.len());
            assert(rest@ == t@.skip(3));
            if let Some(end_pos) = find_dashes_in(&rest) {
                let front_matter_content = copy_range(&rest, 0, end_pos);
                assert(front_matter_content@ == rest@.take(end_pos as int));
                let fm_text = string_from_chars(&front_matter_content);
                if FrontMatter::try_new(fm_text.as_str()).is_none() {
                    return None;
                }
            }
        }
        Some(Markdown::new(content))
    }
}


/// A post written as `---`, a front matter text, `---` and a body is read
/// as that front matter and that body, trimmed, when the front matter text
/// holds no `---` and does not end with `-`.
#[verifier::rlimit(40)]
pub proof fn lemma_document_parts(fm: Seq<char>, body: Seq<char>)
    requires
        find_dashes(fm) is None,
        fm.len() == 0 || fm.last() != '-',
    ensures
        document_parts(dashes() + fm + dashes() + body) == Some((fm, trim(body))),
{
    let a = dashes() + fm + dashes();
    let content = a + body;
    assert(content[0] == '-');
    assert(trim_start(content) == content);
    assert(a.last() == '-');
    lemma_trim_end_concat(a, body);
    let t = a + trim_end(body);
    assert(trim(content) == t);
    assert(t.subrange(0, 3) == dashes());
    let rest = t.skip(3);
    assert(rest == fm + dashes() + trim_end(body));
    let k = fm.len() as int;
    assert(rest.subrange(k, k + 3) == dashes());
    assert forall|j: int| 0 <= j < k implies !dashes_at(rest, j) by {
        if j + 3 <= k {
            lemma_dashes_prefix(fm, dashes() + trim_end(body), j);
            assert(rest == fm + (dashes() + trim_end(body)));
            lemma_find_none(fm, 0, j);
        } else if dashes_at(rest, j) {
            lemma_dashes_chars(rest, j);
            assert(rest[k - 1] == fm.last());
        }
    }
    lemma_find_first(rest, 0, k);
    assert(rest.take(k) == fm);
    assert(rest.skip(k + 3) == trim_end(body));
    lemma_trim_of_trim_end(body);
}


/// Where a post's parts lie: a post whose trimmed text does not start with
/// `---` is refused; otherwise the front matter is the text after that
/// `---` up to the next `---`, which holds no `---` of its own, and the body
/// is what follows the closing `---`, trimmed; with no closing `---` the
/// post is refused.
pub proof fn lemma_document_place(content: Seq<char>)
    ensures
        !starts_with_dashes(trim(content)) ==> document_parts(content) is None,
        document_parts(content) matches Some((fm, body)) ==> {
            &&& trim(content).len() >= fm.len() + 6
            &&& trim(content) == dashes() + fm + dashes() + trim(content).skip(fm.len() as int + 6)
            &&& body == trim(trim(content).skip(fm.len() as int + 6))
            &&& forall|j: int| 3 <= j < fm.len() + 3 ==> !dashes_at(trim(content), j)
        },
        starts_with_dashes(trim(content)) && document_parts(content) is None ==> forall|j: int|
            3 <= j ==> !dashes_at(trim(content), j),
{
    let t = trim(content);
    if starts_with_dashes(t) {
        let rest = t.skip(3);
        match find_dashes(rest) {
            Some(p) => {
                lemma_find_some(rest, 0, p);
                lemma_dashes_skip(t, 3, p);
                assert forall|j: int| 3 <= j < p + 3 implies !dashes_at(t, j) by {
                    lemma_dashes_skip(t, 3, j - 3);
                }
                assert(rest.skip(p + 3) == t.skip(p + 6));
                assert(t.subrange(0, 3) == dashes());
                assert(t.subrange(p + 3, p + 6) == dashes());
                assert(t =~= dashes() + rest.take(p) + dashes() + t.skip(p + 6));
            },
            None => {
                assert forall|j: int| 3 <= j implies !dashes_at(t, j) by {
                    lemma_find_none(rest, 0, j - 3);
                    lemma_dashes_skip(t, 3, j - 3);
                }
            },
        }
    }
}

} // verus!
