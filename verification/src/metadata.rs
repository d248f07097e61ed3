//! The metadata of a blog post, read from the block that heads its file.
use crate::date::{valid_day, CalendarDate};
use crate::fields::{
    field_names, key_views, named_error, named_result, parse_block, parse_fields, result_view,
    initial_parser, FieldError, Fields, FieldsView, KeyErrorView,
};
use crate::text::{
    copy_range, dashes, dashes_at, find_dashes, find_dashes_in, has_dashes_at, is_ascii_char,
    lemma_dashes_chars, lemma_dashes_prefix, lemma_dashes_skip, lemma_find_first, lemma_find_none,
    lemma_find_some,
    starts_with_dashes, str_chars, string_from_chars,
};
use vstd::prelude::*;

verus! {

/// The metadata of a blog post.
#[derive(Debug)]
pub struct Metadata {
    pub title: String,
    pub date: CalendarDate,
    pub slug: String,
    pub tags: Vec<String>,
    pub description: String,
}

impl View for Metadata {
    type V = FieldsView;

    open spec fn view(&self) -> FieldsView {
        FieldsView {
            title: self.title@,
            date: self.date,
            slug: self.slug@,
            tags: crate::text::string_views(self.tags@),
            description: self.description@,
        }
    }
}

impl Default for Metadata {
    /// Empty texts, no tags, and the date 1970-01-01 (chrono's default date).
    fn default() -> (r: Metadata)
        ensures
            r@ == initial_parser().values,
    {
        let r = Metadata {
            title: String::new(),
            date: CalendarDate { year: 1970, month: 1, day: 1 },
            slug: String::new(),
            tags: Vec::new(),
            description: String::new(),
        };
        assert(r@.tags =~= Seq::<Seq<char>>::empty());
        r
    }
}

/// Why a metadata block is refused.
#[derive(Debug)]
pub enum MetadataParseError {
    /// Triggered when a required metadata field (like `title` or `date`) is missing.
    MissingKey(&'static str),
    /// Triggered when multiple required fields are missing at once.
    MissingKeys(Vec<&'static str>),
    /// Triggered when there is a duplicate key in the metadata.
    DuplicateKey(&'static str),
    /// Triggered when the date format is invalid.
    InvalidDateTime,
}

impl View for MetadataParseError {
    type V = KeyErrorView;

    open spec fn view(&self) -> KeyErrorView {
        match self {
            MetadataParseError::MissingKey(k) => KeyErrorView::MissingKey(k@),
            MetadataParseError::MissingKeys(ks) => KeyErrorView::MissingKeys(key_views(ks@)),
            MetadataParseError::DuplicateKey(k) => KeyErrorView::DuplicateKey(k@),
            MetadataParseError::InvalidDateTime => KeyErrorView::InvalidDateTime,
        }
    }
}

/// The outcome of a parse, as values or an error given by keys.
pub open spec fn metadata_result(r: Result<Metadata, MetadataParseError>) -> Result<FieldsView, KeyErrorView> {
    match r {
        Ok(m) => Ok(m@),
        Err(e) => Err(e@),
    }
}

impl MetadataParseError {
    fn from_field_error(e: FieldError) -> (r: MetadataParseError)
        ensures
            r@ == named_error(e@),
    {
        match e {
            FieldError::MissingKey(f) => MetadataParseError::MissingKey(f.name()),
            FieldError::MissingKeys(fs) => MetadataParseError::MissingKeys(field_names(&fs)),
            FieldError::DuplicateKey(f) => MetadataParseError::DuplicateKey(f.name()),
            FieldError::InvalidDateTime => MetadataParseError::InvalidDateTime,
        }
    }
}

impl Metadata {
    fn from_outcome(o: Result<Fields, FieldError>) -> (r: Result<Metadata, MetadataParseError>)
        requires
            o matches Ok(f) ==> valid_day(f.date),
        ensures
            metadata_result(r) == named_result(result_view(o)),
            r matches Ok(m) ==> valid_day(m.date),
    {
        match o {
            Ok(f) => Ok(Metadata {
                title: f.title,
                date: f.date,
                slug: f.slug,
                tags: f.tags,
                description: f.description,
            }),
            Err(e) => Err(MetadataParseError::from_field_error(e)),
        }
    }

    /// Parses a metadata block of `key: value` lines. Each of `title`,
    /// `date` (`YYYY-MM-DD`), `slug`, `tags` (`["a", "b"]`) and
    /// `description` must be given once; blank lines and lines that start
    /// with `#` are skipped; double quotes are removed from the values.
    ///
    /// The block must not hold, before the first refused line, a line
    /// without a colon, a line with another key, or a tags value whose first
    /// or last character is not one byte long: no outcome is defined for
    /// those, and `try_new` answers `None` for them.
    pub fn new(raw: &str) -> (r: Result<Metadata, MetadataParseError>)
        requires
            parse_block(raw@) is Some,
        ensures
            metadata_result(r) == named_result(parse_block(raw@).unwrap()),
            r matches Ok(m) ==> valid_day(m.date),
    {
        match parse_fields(raw) {
            Some(o) => Self::from_outcome(o),
            None => {
                assert(false);
                Err(MetadataParseError::InvalidDateTime)
            },
        }
    }

    /// As `new`, but `None` for the blocks on which `new` may not be called.
    pub fn try_new(raw: &str) -> (r: Option<Result<Metadata, MetadataParseError>>)
        ensures
            r is None <==> parse_block(raw@) is None,
            r matches Some(res) ==> metadata_result(res) == named_result(parse_block(raw@).unwrap()),
            r matches Some(Ok(m)) ==> valid_day(m.date),
    {
        if parse_fields(raw).is_some() {
            Some(Self::new(raw))
        } else {
            None
        }
    }
}


/// The file's metadata block can be cut out without a panic: after the
/// opening `---` comes a one-byte character, and the closing `---`, if
/// there is one, comes after at least one character, the last of which is
/// one byte long.
pub open spec fn block_in_bounds(content: Seq<char>) -> bool {
    starts_with_dashes(content) ==> (content.len() >= 4 && is_ascii_char(content[3]) && (find_dashes(
        content.skip(4),
    ) matches Some(p) ==> p >= 1 && is_ascii_char(content.skip(4)[p - 1])))
}

/// The metadata block of a post file: when the file starts with `---`, the
/// text from its fifth character up to the next `---`, without the one
/// character just before that `---` (the line feed that ends the block).
pub open spec fn metadata_block_spec(content: Seq<char>) -> Option<Seq<char>> {
    if !starts_with_dashes(content) {
        None
    } else {
        match find_dashes(content.skip(4)) {
            None => None,
            Some(p) => Some(content.skip(4).take(p - 1)),
        }
    }
}

pub open spec fn opt_string_view(r: Option<String>) -> Option<Seq<char>> {
    match r {
        Some(s) => Some(s@),
        None => None,
    }
}

/// Cuts the metadata block out of the text of a post file.
pub fn metadata_block(content: &str) -> (r: Option<String>)
    requires
        block_in_bounds(content@),
    ensures
        opt_string_view(r) == metadata_block_spec(content@),
{
    let chars = str_chars(content);
    if !has_dashes_at(&chars, 0) {
        return None;
    }
    let tail = copy_range(&chars, 4, chars.len());
    assert(tail@ == content@.skip(4));
    match find_dashes_in(&tail) {
        None => None,
        Some(p) => {
            let block = copy_range(&tail, 0, p - 1);
            assert(block@ == tail@.take(p - 1));
            Some(string_from_chars(&block))
        },
    }
}

/// As `metadata_block`, but `None` for the texts on which it may not be
/// called.
pub fn try_metadata_block(content: &str) -> (r: Option<Option<String>>)
    ensures
        r is None <==> !block_in_bounds(content@),
        r matches Some(b) ==> opt_string_view(b) == metadata_block_spec(content@),
{
    let chars = str_chars(content);
    if has_dashes_at(&chars, 0) {
        if chars.len() < 4 || chars[3] > '\u{7F}' {
            return None;
        }
        let tail = copy_range(&chars, 4, chars.len());
        assert(tail@ == content@.skip(4));
        if let Some(p) = find_dashes_in(&tail) {
            if p < 1 || tail[p - 1] > '\u{7F}' {
                return None;
            }
        }
    }
    Some(metadata_block(content))
}


/// A post file written as `---`, a line feed, a block, a line feed, `---`
/// and the rest has that block as its metadata block, when the block holds
/// no `---`; cutting it out does not panic.
pub proof fn lemma_metadata_block(block: Seq<char>, rest: Seq<char>)
    requires
        find_dashes(block) is None,
    ensures
        block_in_bounds(dashes() + seq!['\n'] + block + seq!['\n'] + dashes() + rest),
        metadata_block_spec(dashes() + seq!['\n'] + block + seq!['\n'] + dashes() + rest) == Some(
            block,
        ),
{
    let content = dashes() + seq!['\n'] + block + seq!['\n'] + dashes() + rest;
    assert(content.subrange(0, 3) == dashes());
    assert(content[3] == '\n');
    let tail = content.skip(4);
    let k = block.len() as int;
    assert(tail == block + (seq!['\n'] + dashes() + rest));
    assert(tail[k] == '\n');
    assert(tail.subrange(k + 1, k + 4) == dashes());
    assert forall|j: int| 0 <= j < k + 1 implies !dashes_at(tail, j) by {
        if j + 3 <= k {
            lemma_dashes_prefix(block, seq!['\n'] + dashes() + rest, j);
            lemma_find_none(block, 0, j);
        } else if dashes_at(tail, j) {
            lemma_dashes_chars(tail, j);
        }
    }
    lemma_find_first(tail, 0, k + 1);
    assert(tail.take(k) == block);
}


/// Where a post file's metadata block lies: a file that does not start
/// with `---` has none; otherwise the block is the text from the fifth
/// character up to one character before the first `---` that starts there
/// or later, and no `---` starts in between; with no such `---` there is no
/// block.
pub proof fn lemma_metadata_block_place(content: Seq<char>)
    requires
        block_in_bounds(content),
    ensures
        !starts_with_dashes(content) ==> metadata_block_spec(content) is None,
        metadata_block_spec(content) matches Some(b) ==> {
            &&& starts_with_dashes(content)
            &&& content.len() >= b.len() + 8
            &&& b == content.subrange(4, 4 + b.len() as int)
            &&& dashes_at(content, 5 + b.len() as int)
            &&& forall|j: int| 4 <= j < 5 + b.len() ==> !dashes_at(content, j)
        },
        starts_with_dashes(content) && metadata_block_spec(content) is None ==> forall|j: int|
            4 <= j ==> !dashes_at(content, j),
{
    if starts_with_dashes(content) {
        let tail = content.skip(4);
        match find_dashes(tail) {
            Some(p) => {
                lemma_find_some(tail, 0, p);
                lemma_dashes_skip(content, 4, p);
                assert forall|j: int| 4 <= j < 4 + p implies !dashes_at(content, j) by {
                    lemma_dashes_skip(content, 4, j - 4);
                }
                assert(tail.take(p - 1) == content.subrange(4, 4 + p - 1));
            },
            None => {
                assert forall|j: int| 4 <= j implies !dashes_at(content, j) by {
                    lemma_find_none(tail, 0, j - 4);
                    lemma_dashes_skip(content, 4, j - 4);
                }
            },
        }
    }
}

} // verus!
