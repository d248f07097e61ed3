//! The front matter of a markdown post: the block between the `---` lines.
use crate::date::{valid_day, CalendarDate};
use crate::fields::{
    field_names, key_views, named_error, named_result, parse_block, parse_fields, result_view,
    initial_parser, FieldError, Fields, FieldsView, KeyErrorView,
};
use vstd::prelude::*;

verus! {

/// The front matter of a markdown post.
#[derive(Debug)]
pub struct FrontMatter {
    pub title: String,
    pub date: CalendarDate,
    pub slug: String,
    pub tags: Vec<String>,
    pub description: String,
}

impl View for FrontMatter {
    type V = FieldsView;

    open spec fn view(&self) -> FieldsView {
        FieldsView {
            title: self.title@,
            date: self.date,
            slug: self.slug@,
            tags: crate::text::string_views(self.tags@),
            description: self.description@,
        }
    }
}

impl Default for FrontMatter {
    /// Empty texts, no tags, and the date 1970-01-01 (chrono's default date).
    fn default() -> (r: FrontMatter)
        ensures
            r@ == initial_parser().values,
    {
        let r = FrontMatter {
            title: String::new(),
            date: CalendarDate { year: 1970, month: 1, day: 1 },
            slug: String::new(),
            tags: Vec::new(),
            description: String::new(),
        };
        assert(r@.tags =~= Seq::<Seq<char>>::empty());
        r
    }
}

/// Why a FrontMatter block is refused.
#[derive(Debug)]
pub enum FrontMatterParseError {
    /// Triggered when a required FrontMatter field (like `title` or `date`) is missing.
    MissingKey(&'static str),
    /// Triggered when multiple required fields are missing at once.
    MissingKeys(Vec<&'static str>),
    /// Triggered when there is a duplicate key in the FrontMatter.
    DuplicateKey(&'static str),
    /// Triggered when the date format is invalid.
    InvalidDateTime,
}

impl View for FrontMatterParseError {
    type V = KeyErrorView;

    open spec fn view(&self) -> KeyErrorView {
        match self {
            FrontMatterParseError::MissingKey(k) => KeyErrorView::MissingKey(k@),
            FrontMatterParseError::MissingKeys(ks) => KeyErrorView::MissingKeys(key_views(ks@)),
            FrontMatterParseError::DuplicateKey(k) => KeyErrorView::DuplicateKey(k@),
            FrontMatterParseError::InvalidDateTime => KeyErrorView::InvalidDateTime,
        }
    }
}

/// The outcome of a parse, as values or an error given by keys.
pub open spec fn front_matter_result(r: Result<FrontMatter, FrontMatterParseError>) -> Result<FieldsView, KeyErrorView> {
    match r {
        Ok(m) => Ok(m@),
        Err(e) => Err(e@),
    }
}

impl FrontMatterParseError {
    fn from_field_error(e: FieldError) -> (r: FrontMatterParseError)
        ensures
            r@ == named_error(e@),
    {
        match e {
            FieldError::MissingKey(f) => FrontMatterParseError::MissingKey(f.name()),
            FieldError::MissingKeys(fs) => FrontMatterParseError::MissingKeys(field_names(&fs)),
            FieldError::DuplicateKey(f) => FrontMatterParseError::DuplicateKey(f.name()),
            FieldError::InvalidDateTime => FrontMatterParseError::InvalidDateTime,
        }
    }
}

impl FrontMatter {
    fn from_outcome(o: Result<Fields, FieldError>) -> (r: Result<FrontMatter, FrontMatterParseError>)
        requires
            o matches Ok(f) ==> valid_day(f.date),
        ensures
            front_matter_result(r) == named_result(result_view(o)),
            r matches Ok(m) ==> valid_day(m.date),
    {
        match o {
            Ok(f) => Ok(FrontMatter {
                title: f.title,
                date: f.date,
                slug: f.slug,
                tags: f.tags,
                description: f.description,
            }),
            Err(e) => Err(FrontMatterParseError::from_field_error(e)),
        }
    }

    /// Parses a FrontMatter block of `key: value` lines. Each of `title`,
    /// `date` (`YYYY-MM-DD`), `slug`, `tags` (`["a", "b"]`) and
    /// `description` must be given once; blank lines and lines that start
    /// with `#` are skipped; double quotes are removed from the values.
    ///
    /// The block must not hold, before the first refused line, a line
    /// without a colon, a line with another key, or a tags value whose first
    /// or last character is not one byte long: no outcome is defined for
    /// those, and `try_new` answers `None` for them.
    pub fn new(raw: &str) -> (r: Result<FrontMatter, FrontMatterParseError>)
        requires
            parse_block(raw@) is Some,
        ensures
            front_matter_result(r) == named_result(parse_block(raw@).unwrap()),
            r matches Ok(m) ==> valid_day(m.date),
    {
        match parse_fields(raw) {
            Some(o) => Self::from_outcome(o),
            None => {
                assert(false);
                Err(FrontMatterParseError::InvalidDateTime)
            },
        }
    }

    /// As `new`, but `None` for the blocks on which `new` may not be called.
    pub fn try_new(raw: &str) -> (r: Option<Result<FrontMatter, FrontMatterParseError>>)
        ensures
            r is None <==> parse_block(raw@) is None,
            r matches Some(res) ==> front_matter_result(res) == named_result(parse_block(raw@).unwrap()),
            r matches Some(Ok(m)) ==> valid_day(m.date),
    {
        if parse_fields(raw).is_some() {
            Some(Self::new(raw))
        } else {
            None
        }
    }
}

} // verus!
