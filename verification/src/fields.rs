//! The metadata block of a blog post: `key: value` lines that give each of
//! the five fields `title`, `date`, `slug`, `tags` and `description` once.
//! Blank lines and lines that start with `#` are skipped.
use crate::date::{iso_date, parse_iso_date, valid_day, CalendarDate};
use crate::text::{
    chars_eq, copy_range, is_ascii_char, is_ws, lemma_split_concat, lemma_split_nonempty,
    lemma_split_without_sep, lemma_unquote_concat, lemma_unquote_plain, lines, split, split_chars,
    str_chars, string_from_chars, string_views, trim, trim_chars, trim_end, trim_start, unquote,
    unquote_chars, views, ws_only, lemma_trim_padded, lemma_trim_decompose, lemma_trim_start_concat,
    lemma_trim_start_ws, lemma_split_append_ws, lemma_split_prepend_ws, lemma_trim_fixed,
};
use vstd::prelude::*;

verus! {

/// One of the five required keys of a metadata block.
#[derive(Clone, Copy, Debug, PartialEq, Eq, Structural)]
pub enum Field {
    Title,
    Date,
    Slug,
    Tags,
    Description,
}

/// The key under which a field is written.
pub open spec fn field_name(f: Field) -> Seq<char> {
    match f {
        Field::Title => seq!['t', 'i', 't', 'l', 'e'],
        Field::Date => seq!['d', 'a', 't', 'e'],
        Field::Slug => seq!['s', 'l', 'u', 'g'],
        Field::Tags => seq!['t', 'a', 'g', 's'],
        Field::Description => seq!['d', 'e', 's', 'c', 'r', 'i', 'p', 't', 'i', 'o', 'n'],
    }
}

/// The field written under a key, if the key is one of the five.
pub open spec fn field_named(key: Seq<char>) -> Option<Field> {
    if key == field_name(Field::Title) {
        Some(Field::Title)
    } else if key == field_name(Field::Date) {
        Some(Field::Date)
    } else if key == field_name(Field::Slug) {
        Some(Field::Slug)
    } else if key == field_name(Field::Tags) {
        Some(Field::Tags)
    } else if key == field_name(Field::Description) {
        Some(Field::Description)
    } else {
        None
    }
}

/// The five fields in the order in which missing ones are reported.
pub open spec fn all_fields() -> Seq<Field> {
    seq![Field::Title, Field::Date, Field::Slug, Field::Tags, Field::Description]
}

impl Field {
    /// The key under which the field is written.
    pub fn name(&self) -> (r: &'static str)
        ensures
            r@ == field_name(*self),
    {
        match self {
            Field::Title => {
                proof {
                    reveal_strlit("title");
                }
                assert("title"@ =~= field_name(Field::Title));
                "title"
            },
            Field::Date => {
                proof {
                    reveal_strlit("date");
                }
                assert("date"@ =~= field_name(Field::Date));
                "date"
            },
            Field::Slug => {
                proof {
                    reveal_strlit("slug");
                }
                assert("slug"@ =~= field_name(Field::Slug));
                "slug"
            },
            Field::Tags => {
                proof {
                    reveal_strlit("tags");
                }
                assert("tags"@ =~= field_name(Field::Tags));
                "tags"
            },
            Field::Description => {
                proof {
                    reveal_strlit("description");
                }
                assert("description"@ =~= field_name(Field::Description));
                "description"
            },
        }
    }

    /// The field written under `key`, if any.
    pub fn from_key(key: &[char]) -> (r: Option<Field>)
        ensures
            r == field_named(key@),
    {
        let title = str_chars(Field::Title.name());
        let date = str_chars(Field::Date.name());
        let slug = str_chars(Field::Slug.name());
        let tags = str_chars(Field::Tags.name());
        let description = str_chars(Field::Description.name());
        if chars_eq(key, &title) {
            Some(Field::Title)
        } else if chars_eq(key, &date) {
            Some(Field::Date)
        } else if chars_eq(key, &slug) {
            Some(Field::Slug)
        } else if chars_eq(key, &tags) {
            Some(Field::Tags)
        } else if chars_eq(key, &description) {
            Some(Field::Description)
        } else {
            None
        }
    }
}


/// The values of a metadata block.
#[derive(Debug)]
pub struct Fields {
    pub title: String,
    pub date: CalendarDate,
    pub slug: String,
    pub tags: Vec<String>,
    pub description: String,
}

/// The values of a metadata block as texts.
#[verifier::ext_equal]
pub struct FieldsView {
    pub title: Seq<char>,
    pub date: CalendarDate,
    pub slug: Seq<char>,
    pub tags: Seq<Seq<char>>,
    pub description: Seq<char>,
}

impl View for Fields {
    type V = FieldsView;

    open spec fn view(&self) -> FieldsView {
        FieldsView {
            title: self.title@,
            date: self.date,
            slug: self.slug@,
            tags: string_views(self.tags@),
            description: self.description@,
        }
    }
}

/// Why a metadata block is refused.
#[derive(Debug)]
pub enum FieldError {
    /// Exactly one field has no line.
    MissingKey(Field),
    /// Two or more fields have no line; they are listed in the order
    /// title, date, slug, tags, description.
    MissingKeys(Vec<Field>),
    /// A second line gives a field that an earlier line gave.
    DuplicateKey(Field),
    /// The date is not a `YYYY-MM-DD` date.
    InvalidDateTime,
}

pub enum FieldErrorView {
    MissingKey(Field),
    MissingKeys(Seq<Field>),
    DuplicateKey(Field),
    InvalidDateTime,
}

impl View for FieldError {
    type V = FieldErrorView;

    open spec fn view(&self) -> FieldErrorView {
        match self {
            FieldError::MissingKey(f) => FieldErrorView::MissingKey(*f),
            FieldError::MissingKeys(fs) => FieldErrorView::MissingKeys(fs@),
            FieldError::DuplicateKey(f) => FieldErrorView::DuplicateKey(*f),
            FieldError::InvalidDateTime => FieldErrorView::InvalidDateTime,
        }
    }
}

/// An error with each field given by its key.
pub enum KeyErrorView {
    MissingKey(Seq<char>),
    MissingKeys(Seq<Seq<char>>),
    DuplicateKey(Seq<char>),
    InvalidDateTime,
}

/// The error with its fields replaced by their keys.
pub open spec fn named_error(e: FieldErrorView) -> KeyErrorView {
    match e {
        FieldErrorView::MissingKey(f) => KeyErrorView::MissingKey(field_name(f)),
        FieldErrorView::MissingKeys(fs) => KeyErrorView::MissingKeys(
            fs.map_values(|f: Field| field_name(f)),
        ),
        FieldErrorView::DuplicateKey(f) => KeyErrorView::DuplicateKey(field_name(f)),
        FieldErrorView::InvalidDateTime => KeyErrorView::InvalidDateTime,
    }
}

pub open spec fn result_view(r: Result<Fields, FieldError>) -> Result<FieldsView, FieldErrorView> {
    match r {
        Ok(v) => Ok(v@),
        Err(e) => Err(e@),
    }
}

/// The fields of `s` other than `f`, in order.
pub open spec fn without(s: Seq<Field>, f: Field) -> Seq<Field>
    decreases s.len(),
{
    if s.len() == 0 {
        s
    } else if s.last() == f {
        without(s.drop_last(), f)
    } else {
        without(s.drop_last(), f).push(s.last())
    }
}

/// The tags value can be cut to the text between its first and last
/// character: both are one byte long.
pub open spec fn tags_in_bounds(v: Seq<char>) -> bool {
    v.len() >= 2 && is_ascii_char(v[0]) && is_ascii_char(v.last())
}

/// The tags of a value such as `["rust", "axum"]`: the text between the
/// first and the last character, cut at each comma, each piece without
/// double quotes and then trimmed.
pub open spec fn tag_list(v: Seq<char>) -> Seq<Seq<char>> {
    split(v.subrange(1, v.len() - 1), ',').map_values(|p: Seq<char>| trim(unquote(p)))
}

/// The state of a parse: the fields that no line has given yet, in order,
/// and the values given so far.
pub struct ParserView {
    pub missing: Seq<Field>,
    pub values: FieldsView,
}

/// The date that a metadata value holds before any date line is read.
pub open spec fn epoch() -> CalendarDate {
    CalendarDate { year: 1970, month: 1, day: 1 }
}

/// No line read: every field missing, every value empty.
pub open spec fn initial_parser() -> ParserView {
    ParserView {
        missing: all_fields(),
        values: FieldsView {
            title: Seq::empty(),
            date: epoch(),
            slug: Seq::empty(),
            tags: Seq::empty(),
            description: Seq::empty(),
        },
    }
}

/// Records that `f` is given, with the new values; refused when an earlier
/// line gave `f`.
pub open spec fn take_field(st: ParserView, f: Field, values: FieldsView) -> Result<
    ParserView,
    FieldErrorView,
> {
    if st.missing.contains(f) {
        Ok(ParserView { missing: without(st.missing, f), values })
    } else {
        Err(FieldErrorView::DuplicateKey(f))
    }
}

/// The state after the line `f: v`, where `date` is what the date text `v`
/// reads as; `None` where the tags value cannot be cut (it has fewer than
/// two characters, or its first or last is more than one byte long).
pub open spec fn apply_entry_spec(
    st: ParserView,
    f: Field,
    v: Seq<char>,
    date: Option<CalendarDate>,
) -> Option<Result<ParserView, FieldErrorView>> {
    let vals = st.values;
    match f {
        Field::Title => Some(take_field(st, f, FieldsView { title: unquote(v), ..vals })),
        Field::Date => match date {
            None => Some(Err(FieldErrorView::InvalidDateTime)),
            Some(d) => Some(take_field(st, f, FieldsView { date: d, ..vals })),
        },
        Field::Slug => Some(take_field(st, f, FieldsView { slug: unquote(v), ..vals })),
        Field::Tags => if tags_in_bounds(v) {
            Some(take_field(st, f, FieldsView { tags: tag_list(v), ..vals }))
        } else {
            None
        },
        Field::Description => Some(
            take_field(st, f, FieldsView { description: unquote(v), ..vals }),
        ),
    }
}

/// The outcome of the whole block once every line is read.
pub open spec fn finish_spec(st: ParserView) -> Result<FieldsView, FieldErrorView> {
    if st.missing.len() == 0 {
        Ok(st.values)
    } else if st.missing.len() == 1 {
        Err(FieldErrorView::MissingKey(st.missing[0]))
    } else {
        Err(FieldErrorView::MissingKeys(st.missing))
    }
}

/// What a call of `apply_entry` reports, with the parser it leaves.
pub open spec fn step_view(r: Option<Result<(), FieldError>>, after: ParserView) -> Option<
    Result<ParserView, FieldErrorView>,
> {
    match r {
        None => None,
        Some(Ok(())) => Some(Ok(after)),
        Some(Err(e)) => Some(Err(e@)),
    }
}

/// A metadata block read so far.
pub struct FieldParser {
    missing: Vec<Field>,
    values: Fields,
}

impl View for FieldParser {
    type V = ParserView;

    closed spec fn view(&self) -> ParserView {
        ParserView { missing: self.missing@, values: self.values@ }
    }
}

fn contains_field(s: &Vec<Field>, f: Field) -> (r: bool)
    ensures
        r == s@.contains(f),
{
    let mut i: usize = 0;
    while i < s.len()
        invariant
            i <= s@.len(),
            forall|j: int| 0 <= j < i ==> s@[j] != f,
        decreases s.len() - i,
    {
        if s[i] == f {
            assert(s@[i as int] == f);
            return true;
        }
        i = i + 1;
    }
    false
}

fn without_field(s: &Vec<Field>, f: Field) -> (r: Vec<Field>)
    ensures
        r@ == without(s@, f),
{
    let mut r: Vec<Field> = Vec::new();
    let mut i: usize = 0;
    assert(s@.take(0) == Seq::<Field>::empty());
    while i < s.len()
        invariant
            i <= s@.len(),
            r@ == without(s@.take(i as int), f),
        decreases s.len() - i,
    {
        assert(s@.take(i + 1).drop_last() == s@.take(i as int));
        if s[i] != f {
            r.push(s[i]);
        }
        i = i + 1;
    }
    assert(s@.take(i as int) == s@);
    r
}

/// The tags of a tags value.
pub fn tag_values(v: &[char]) -> (r: Vec<String>)
    requires
        tags_in_bounds(v@),
    ensures
        string_views(r@) == tag_list(v@),
{
    let inner = copy_range(v, 1, v.len() - 1);
    let pieces = split_chars(&inner, ',');
    let ghost want = tag_list(v@);
    let mut r: Vec<String> = Vec::new();
    let mut i: usize = 0;
    while i < pieces.len()
        invariant
            i <= pieces@.len(),
            views(pieces@) == split(v@.subrange(1, v@.len() - 1), ','),
            want == tag_list(v@),
            string_views(r@) == want.take(i as int),
        decreases pieces.len() - i,
    {
        let t = trim_chars(&unquote_chars(&pieces[i]));
        let s = string_from_chars(&t);
        let ghost old_r = r@;
        r.push(s);
        assert(views(pieces@)[i as int] == pieces@[i as int]@);
        assert(string_views(r@) =~= string_views(old_r).push(s@));
        assert(want.take(i + 1) =~= want.take(i as int).push(want[i as int]));
        i = i + 1;
    }
    assert(want.take(i as int) =~= want);
    r
}

impl FieldParser {
    /// A parser that has read no line.
    pub fn new() -> (p: FieldParser)
        ensures
            p@ == initial_parser(),
    {
        let missing = vec![Field::Title, Field::Date, Field::Slug, Field::Tags, Field::Description];
        let p = FieldParser {
            missing,
            values: Fields {
                title: String::new(),
                date: CalendarDate { year: 1970, month: 1, day: 1 },
                slug: String::new(),
                tags: Vec::new(),
                description: String::new(),
            },
        };
        assert(p@.values.tags =~= Seq::<Seq<char>>::empty());
        assert(p@.missing =~= all_fields());
        p
    }

    fn take(&mut self, f: Field) -> (r: Result<(), FieldError>)
        ensures
            old(self)@.missing.contains(f) ==> (r is Ok && final(self)@ == (ParserView {
                missing: without(old(self)@.missing, f),
                values: old(self)@.values,
            })),
            !old(self)@.missing.contains(f) ==> (r == Err::<(), FieldError>(
                FieldError::DuplicateKey(f),
            ) && final(self)@ == old(self)@),
    {
        if contains_field(&self.missing, f) {
            self.missing = without_field(&self.missing, f);
            Ok(())
        } else {
            Err(FieldError::DuplicateKey(f))
        }
    }

    /// Reads the line `field: value`, where `date` is what chrono reads
    /// the value as (consulted for the date field alone).
    pub fn apply_entry(&mut self, field: Field, value: &[char], date: Option<CalendarDate>) -> (r:
        Option<Result<(), FieldError>>)
        ensures
            step_view(r, final(self)@) == apply_entry_spec(old(self)@, field, value@, date),
            !(r matches Some(Ok(_))) ==> final(self)@ == old(self)@,
    {
        match field {
            Field::Title => {
                let v = string_from_chars(&unquote_chars(value));
                match self.take(field) {
                    Ok(()) => {
                        self.values.title = v;
                        Some(Ok(()))
                    },
                    Err(e) => Some(Err(e)),
                }
            },
            Field::Date => match date {
                None => Some(Err(FieldError::InvalidDateTime)),
                Some(d) => match self.take(field) {
                    Ok(()) => {
                        self.values.date = d;
                        Some(Ok(()))
                    },
                    Err(e) => Some(Err(e)),
                },
            },
            Field::Slug => {
                let v = string_from_chars(&unquote_chars(value));
                match self.take(field) {
                    Ok(()) => {
                        self.values.slug = v;
                        Some(Ok(()))
                    },
                    Err(e) => Some(Err(e)),
                }
            },
            Field::Tags => {
                if value.len() < 2 || value[0] > '\u{7F}' || value[value.len() - 1] > '\u{7F}' {
                    return None;
                }
                let v = tag_values(value);
                match self.take(field) {
                    Ok(()) => {
                        self.values.tags = v;
                        Some(Ok(()))
                    },
                    Err(e) => Some(Err(e)),
                }
            },
            Field::Description => {
                let v = string_from_chars(&unquote_chars(value));
                match self.take(field) {
                    Ok(()) => {
                        self.values.description = v;
                        Some(Ok(()))
                    },
                    Err(e) => Some(Err(e)),
                }
            },
        }
    }

    /// The values read, or why the block is refused.
    pub fn finish(self) -> (r: Result<Fields, FieldError>)
        ensures
            result_view(r) == finish_spec(self@),
    {
        if self.missing.len() == 0 {
            Ok(self.values)
        } else if self.missing.len() == 1 {
            Err(FieldError::MissingKey(self.missing[0]))
        } else {
            Err(FieldError::MissingKeys(self.missing))
        }
    }
}


/// What a line of a metadata block is.
pub enum LineShape {
    /// Blank, or a comment starting with `#`, once trimmed.
    Skipped,
    /// `key: value` with one of the five keys; the value is the trimmed text
    /// between the first colon and the next one (or the end).
    Entry(Field, Seq<char>),
    /// No colon, or a key that is none of the five: a line that no block
    /// may hold.
    Malformed,
}

pub open spec fn line_shape(line: Seq<char>) -> LineShape {
    let t = trim(line);
    if t.len() == 0 || t[0] == '#' {
        LineShape::Skipped
    } else {
        let parts = split(t, ':');
        if parts.len() < 2 {
            LineShape::Malformed
        } else {
            match field_named(trim(parts[0])) {
                Some(f) => LineShape::Entry(f, trim(parts[1])),
                None => LineShape::Malformed,
            }
        }
    }
}

/// A line of a metadata block, read.
pub enum LineKind {
    Skipped,
    Entry(Field, Vec<char>),
    Malformed,
}

impl View for LineKind {
    type V = LineShape;

    open spec fn view(&self) -> LineShape {
        match self {
            LineKind::Skipped => LineShape::Skipped,
            LineKind::Entry(f, v) => LineShape::Entry(*f, v@),
            LineKind::Malformed => LineShape::Malformed,
        }
    }
}

/// What a line of a metadata block is.
pub fn classify_line(line: &[char]) -> (r: LineKind)
    ensures
        r@ == line_shape(line@),
{
    let t = trim_chars(line);
    if t.len() == 0 || t[0] == '#' {
        return LineKind::Skipped;
    }
    let parts = split_chars(&t, ':');
    if parts.len() < 2 {
        return LineKind::Malformed;
    }
    let key = trim_chars(&parts[0]);
    assert(views(parts@)[0] == parts@[0]@);
    assert(views(parts@)[1] == parts@[1]@);
    match Field::from_key(&key) {
        Some(f) => LineKind::Entry(f, trim_chars(&parts[1])),
        None => LineKind::Malformed,
    }
}

/// The date that the value of an entry reads as, for a date entry.
pub open spec fn entry_date(f: Field, v: Seq<char>) -> Option<CalendarDate> {
    if f == Field::Date {
        iso_date(v)
    } else {
        None
    }
}

/// The outcome of reading `lines` from the state `st`: `None` where a line
/// is malformed or a tags value cannot be cut, else the values or the
/// first error.
pub open spec fn run_lines(lines: Seq<Seq<char>>, st: ParserView) -> Option<
    Result<FieldsView, FieldErrorView>,
>
    decreases lines.len(),
{
    if lines.len() == 0 {
        Some(finish_spec(st))
    } else {
        match line_shape(lines[0]) {
            LineShape::Skipped => run_lines(lines.drop_first(), st),
            LineShape::Malformed => None,
            LineShape::Entry(f, v) => match apply_entry_spec(st, f, v, entry_date(f, v)) {
                None => None,
                Some(Err(e)) => Some(Err(e)),
                Some(Ok(next)) => run_lines(lines.drop_first(), next),
            },
        }
    }
}

/// The outcome of reading the metadata block `raw`.
pub open spec fn parse_block(raw: Seq<char>) -> Option<Result<FieldsView, FieldErrorView>> {
    run_lines(lines(raw), initial_parser())
}

pub open spec fn opt_result_view(r: Option<Result<Fields, FieldError>>) -> Option<
    Result<FieldsView, FieldErrorView>,
> {
    match r {
        None => None,
        Some(r) => Some(result_view(r)),
    }
}

/// Reads a metadata block: its values, or why it is refused; `None` where
/// a line is malformed or a tags value cannot be cut.
pub fn parse_fields(raw: &str) -> (r: Option<Result<Fields, FieldError>>)
    ensures
        opt_result_view(r) == parse_block(raw@),
        r matches Some(Ok(f)) ==> valid_day(f.date),
{
    let chars = str_chars(raw);
    let pieces = split_chars(&chars, '\n');
    proof {
        lemma_split_nonempty(chars@, '\n');
    }
    let last = pieces.len() - 1;
    assert(views(pieces@)[last as int] == pieces@[last as int]@);
    let n = if pieces[last].len() == 0 {
        last
    } else {
        pieces.len()
    };
    let ghost ls = lines(raw@);
    assert(ls =~= views(pieces@).take(n as int));
    let mut parser = FieldParser::new();
    let mut i: usize = 0;
    assert(ls.skip(0) == ls);
    while i < n
        invariant
            i <= n <= pieces@.len(),
            ls == views(pieces@).take(n as int),
            parse_block(raw@) == run_lines(ls.skip(i as int), parser@),
            valid_day(parser@.values.date),
        decreases n - i,
    {
        assert(ls.skip(i as int).drop_first() == ls.skip(i + 1));
        assert(ls.skip(i as int)[0] == pieces@[i as int]@);
        match classify_line(&pieces[i]) {
            LineKind::Skipped => {},
            LineKind::Malformed => {
                return None;
            },
            LineKind::Entry(f, v) => {
                let date = if f == Field::Date {
                    parse_iso_date(string_from_chars(&v).as_str())
                } else {
                    None
                };
                match parser.apply_entry(f, &v, date) {
                    None => {
                        return None;
                    },
                    Some(Err(e)) => {
                        return Some(Err(e));
                    },
                    Some(Ok(())) => {},
                }
            },
        }
        i = i + 1;
    }
    Some(parser.finish())
}


/// The keys of the given fields, in order.
pub open spec fn key_views(keys: Seq<&'static str>) -> Seq<Seq<char>> {
    keys.map_values(|k: &'static str| k@)
}

/// The keys under which the given fields are written, in order.
pub fn field_names(fields: &Vec<Field>) -> (r: Vec<&'static str>)
    ensures
        key_views(r@) == fields@.map_values(|f: Field| field_name(f)),
{
    let mut r: Vec<&'static str> = Vec::new();
    let mut i: usize = 0;
    while i < fields.len()
        invariant
            i <= fields@.len(),
            key_views(r@) == fields@.take(i as int).map_values(|f: Field| field_name(f)),
        decreases fields.len() - i,
    {
        let k = fields[i].name();
        let ghost old_r = r@;
        r.push(k);
        assert(key_views(r@) =~= key_views(old_r).push(k@));
        assert(fields@.take(i + 1) == fields@.take(i as int).push(fields@[i as int]));
        assert(key_views(r@) =~= fields@.take(i + 1).map_values(|f: Field| field_name(f)));
        i = i + 1;
    }
    assert(fields@.take(i as int) == fields@);
    r
}

/// The outcome of a block with each field in an error given by its key.
pub open spec fn named_result(o: Result<FieldsView, FieldErrorView>) -> Result<FieldsView, KeyErrorView> {
    match o {
        Ok(v) => Ok(v),
        Err(e) => Err(named_error(e)),
    }
}


/// The value of the first entry line for `f`, if any.
pub open spec fn first_entry(ls: Seq<Seq<char>>, f: Field) -> Option<Seq<char>>
    decreases ls.len(),
{
    if ls.len() == 0 {
        None
    } else {
        match line_shape(ls[0]) {
            LineShape::Entry(g, v) => if g == f {
                Some(v)
            } else {
                first_entry(ls.drop_first(), f)
            },
            _ => first_entry(ls.drop_first(), f),
        }
    }
}

/// How many entry lines give `f`.
pub open spec fn entry_count(ls: Seq<Seq<char>>, f: Field) -> nat
    decreases ls.len(),
{
    if ls.len() == 0 {
        0
    } else {
        let rest = entry_count(ls.drop_first(), f);
        match line_shape(ls[0]) {
            LineShape::Entry(g, _) => if g == f {
                rest + 1
            } else {
                rest
            },
            _ => rest,
        }
    }
}

/// The line reads without error on its own: it is skipped, or an entry
/// whose date reads as a date and whose tags value can be cut.
pub open spec fn line_readable(line: Seq<char>) -> bool {
    match line_shape(line) {
        LineShape::Skipped => true,
        LineShape::Malformed => false,
        LineShape::Entry(f, v) => (f == Field::Date ==> iso_date(v) is Some) && (f == Field::Tags
            ==> tags_in_bounds(v)),
    }
}

/// Every line reads on its own and no field is given twice.
pub open spec fn clean_lines(ls: Seq<Seq<char>>) -> bool {
    &&& forall|i: int| 0 <= i < ls.len() ==> #[trigger] line_readable(ls[i])
    &&& forall|f: Field| #[trigger] entry_count(ls, f) <= 1
}

/// The value that the entry `f: v` sets.
pub open spec fn set_value(vals: FieldsView, f: Field, v: Seq<char>) -> FieldsView {
    match f {
        Field::Title => FieldsView { title: unquote(v), ..vals },
        Field::Date => FieldsView { date: iso_date(v).unwrap(), ..vals },
        Field::Slug => FieldsView { slug: unquote(v), ..vals },
        Field::Tags => FieldsView { tags: tag_list(v), ..vals },
        Field::Description => FieldsView { description: unquote(v), ..vals },
    }
}

/// The values after every entry of `ls` is set, in order.
pub open spec fn given_values(ls: Seq<Seq<char>>, vals: FieldsView) -> FieldsView
    decreases ls.len(),
{
    if ls.len() == 0 {
        vals
    } else {
        match line_shape(ls[0]) {
            LineShape::Entry(f, v) => given_values(ls.drop_first(), set_value(vals, f, v)),
            _ => given_values(ls.drop_first(), vals),
        }
    }
}

/// The fields of `m` for which `ls` has no entry, in order.
pub open spec fn not_given(m: Seq<Field>, ls: Seq<Seq<char>>) -> Seq<Field>
    decreases m.len(),
{
    if m.len() == 0 {
        m
    } else if first_entry(ls, m.last()) is Some {
        not_given(m.drop_last(), ls)
    } else {
        not_given(m.drop_last(), ls).push(m.last())
    }
}

proof fn lemma_without_contains(m: Seq<Field>, f: Field, g: Field)
    ensures
        without(m, f).contains(g) <==> (m.contains(g) && g != f),
    decreases m.len(),
{
    if m.len() > 0 {
        let init = m.drop_last();
        let w = without(init, f);
        lemma_without_contains(init, f, g);
        assert(m == init.push(m.last()));
        if init.contains(g) {
            let j = choose|j: int| 0 <= j < init.len() && init[j] == g;
            assert(m[j] == g);
        }
        if m.contains(g) && g != m.last() {
            let j = choose|j: int| 0 <= j < m.len() && m[j] == g;
            assert(init[j] == g);
        }
        if m.last() != f {
            if without(m, f).contains(g) {
                let j = choose|j: int| 0 <= j < w.len() + 1 && without(m, f)[j] == g;
                if j < w.len() {
                    assert(w[j] == g);
                }
            }
            if w.contains(g) {
                let j = choose|j: int| 0 <= j < w.len() && w[j] == g;
                assert(without(m, f)[j] == g);
            }
            assert(without(m, f)[w.len() as int] == m.last());
        }
    }
}

proof fn lemma_not_given_step(m: Seq<Field>, ls: Seq<Seq<char>>, f: Field, v: Seq<char>)
    requires
        ls.len() > 0,
        line_shape(ls[0]) == LineShape::Entry(f, v),
    ensures
        not_given(without(m, f), ls.drop_first()) == not_given(m, ls),
    decreases m.len(),
{
    if m.len() > 0 {
        lemma_not_given_step(m.drop_last(), ls, f, v);
        if m.last() != f {
            assert(without(m, f).drop_last() == without(m.drop_last(), f));
        }
    }
}

proof fn lemma_not_given_skip(m: Seq<Field>, ls: Seq<Seq<char>>)
    requires
        ls.len() > 0,
        line_shape(ls[0]) !is Entry,
    ensures
        not_given(m, ls.drop_first()) == not_given(m, ls),
    decreases m.len(),
{
    if m.len() > 0 {
        lemma_not_given_skip(m.drop_last(), ls);
    }
}

proof fn lemma_clean_tail(ls: Seq<Seq<char>>)
    requires
        ls.len() > 0,
        clean_lines(ls),
    ensures
        clean_lines(ls.drop_first()),
        line_readable(ls[0]),
{
    assert(line_readable(ls[0]));
    assert forall|i: int| 0 <= i < ls.drop_first().len() implies #[trigger] line_readable(
        ls.drop_first()[i],
    ) by {
        assert(line_readable(ls[i + 1]));
    }
    assert forall|f: Field| #[trigger] entry_count(ls.drop_first(), f) <= 1 by {
        assert(entry_count(ls, f) <= 1);
    }
}

/// Reading a clean prefix `pre` whose fields are all still missing moves
/// the parser to the state that records them.
proof fn lemma_clean_prefix(pre: Seq<Seq<char>>, rest: Seq<Seq<char>>, st: ParserView)
    requires
        clean_lines(pre),
        forall|f: Field| #[trigger] first_entry(pre, f) is Some ==> st.missing.contains(f),
    ensures
        run_lines(pre + rest, st) == run_lines(
            rest,
            ParserView {
                missing: not_given(st.missing, pre),
                values: given_values(pre, st.values),
            },
        ),
    decreases pre.len(),
{
    if pre.len() == 0 {
        assert(pre + rest == rest);
        assert(not_given(st.missing, pre) == st.missing) by {
            lemma_not_given_none(st.missing, pre);
        }
    } else {
        lemma_clean_tail(pre);
        let tail = pre.drop_first();
        assert((pre + rest).drop_first() == tail + rest);
        assert((pre + rest)[0] == pre[0]);
        match line_shape(pre[0]) {
            LineShape::Entry(f, v) => {
                assert(first_entry(pre, f) is Some);
                assert(entry_count(pre, f) <= 1);
                lemma_count_zero_no_entry(tail, f);
                let st2 = ParserView {
                    missing: without(st.missing, f),
                    values: set_value(st.values, f, v),
                };
                assert forall|g: Field| #[trigger] first_entry(tail, g) is Some implies st2.missing.contains(
                    g,
                ) by {
                    assert(g != f);
                    assert(first_entry(pre, g) == first_entry(tail, g));
                    lemma_without_contains(st.missing, f, g);
                }
                assert(apply_entry_spec(st, f, v, entry_date(f, v)) == Some(
                    Ok::<ParserView, FieldErrorView>(st2),
                ));
                lemma_clean_prefix(tail, rest, st2);
                lemma_not_given_step(st.missing, pre, f, v);
            },
            _ => {
                assert forall|g: Field| #[trigger] first_entry(tail, g) is Some implies st.missing.contains(
                    g,
                ) by {
                    assert(first_entry(pre, g) == first_entry(tail, g));
                }
                lemma_clean_prefix(tail, rest, st);
                lemma_not_given_skip(st.missing, pre);
            },
        }
    }
}

proof fn lemma_not_given_none(m: Seq<Field>, ls: Seq<Seq<char>>)
    requires
        ls.len() == 0,
    ensures
        not_given(m, ls) == m,
    decreases m.len(),
{
    if m.len() > 0 {
        lemma_not_given_none(m.drop_last(), ls);
        assert(m.drop_last().push(m.last()) == m);
    }
}

proof fn lemma_count_zero_no_entry(ls: Seq<Seq<char>>, f: Field)
    ensures
        entry_count(ls, f) == 0 <==> first_entry(ls, f) is None,
    decreases ls.len(),
{
    if ls.len() > 0 {
        lemma_count_zero_no_entry(ls.drop_first(), f);
    }
}


/// The value a field holds once `ls` is read: that of its entry, if `ls`
/// has one, else the value in `vals`.
pub open spec fn recorded_values(ls: Seq<Seq<char>>, vals: FieldsView) -> FieldsView {
    FieldsView {
        title: match first_entry(ls, Field::Title) {
            Some(v) => unquote(v),
            None => vals.title,
        },
        date: match first_entry(ls, Field::Date) {
            Some(v) => iso_date(v).unwrap(),
            None => vals.date,
        },
        slug: match first_entry(ls, Field::Slug) {
            Some(v) => unquote(v),
            None => vals.slug,
        },
        tags: match first_entry(ls, Field::Tags) {
            Some(v) => tag_list(v),
            None => vals.tags,
        },
        description: match first_entry(ls, Field::Description) {
            Some(v) => unquote(v),
            None => vals.description,
        },
    }
}

proof fn lemma_given_values(ls: Seq<Seq<char>>, vals: FieldsView)
    requires
        clean_lines(ls),
    ensures
        given_values(ls, vals) == recorded_values(ls, vals),
    decreases ls.len(),
{
    if ls.len() > 0 {
        lemma_clean_tail(ls);
        let tail = ls.drop_first();
        match line_shape(ls[0]) {
            LineShape::Entry(f, v) => {
                assert(entry_count(ls, f) <= 1);
                lemma_count_zero_no_entry(tail, f);
                lemma_given_values(tail, set_value(vals, f, v));
            },
            _ => {
                lemma_given_values(tail, vals);
            },
        }
    }
}

proof fn lemma_not_given_contains(m: Seq<Field>, ls: Seq<Seq<char>>, f: Field)
    ensures
        not_given(m, ls).contains(f) <==> (m.contains(f) && first_entry(ls, f) is None),
    decreases m.len(),
{
    if m.len() > 0 {
        lemma_not_given_contains(m.drop_last(), ls, f);
        let n = not_given(m.drop_last(), ls);
        assert(m == m.drop_last().push(m.last()));
        if m.drop_last().contains(f) {
            let j = choose|j: int| 0 <= j < m.drop_last().len() && m.drop_last()[j] == f;
            assert(m[j] == f);
        }
        if m.contains(f) && f != m.last() {
            let j = choose|j: int| 0 <= j < m.len() && m[j] == f;
            assert(m.drop_last()[j] == f);
        }
        if first_entry(ls, m.last()) is None {
            assert(not_given(m, ls) == n.push(m.last()));
            if n.contains(f) {
                let j = choose|j: int| 0 <= j < n.len() && n[j] == f;
                assert(not_given(m, ls)[j] == f);
            }
            if not_given(m, ls).contains(f) && f != m.last() {
                let j = choose|j: int| 0 <= j < n.len() + 1 && not_given(m, ls)[j] == f;
                assert(j < n.len());
                assert(n[j] == f);
            }
            assert(not_given(m, ls)[n.len() as int] == m.last());
        }
    }
}

proof fn lemma_all_fields_contains(f: Field)
    ensures
        all_fields().contains(f),
{
    match f {
        Field::Title => assert(all_fields()[0] == f),
        Field::Date => assert(all_fields()[1] == f),
        Field::Slug => assert(all_fields()[2] == f),
        Field::Tags => assert(all_fields()[3] == f),
        Field::Description => assert(all_fields()[4] == f),
    }
}

proof fn lemma_clean_from_start(pre: Seq<Seq<char>>, rest: Seq<Seq<char>>)
    requires
        clean_lines(pre),
    ensures
        run_lines(pre + rest, initial_parser()) == run_lines(
            rest,
            ParserView {
                missing: not_given(all_fields(), pre),
                values: recorded_values(pre, initial_parser().values),
            },
        ),
{
    assert forall|f: Field| #[trigger] first_entry(pre, f) is Some implies initial_parser().missing.contains(f) by {
        lemma_all_fields_contains(f);
    }
    lemma_clean_prefix(pre, rest, initial_parser());
    lemma_given_values(pre, initial_parser().values);
}

/// Blank lines and comment lines are ignored: a line that trims to nothing
/// or starts with `#` can stand anywhere in a block without changing what
/// the block reads as.
pub proof fn lemma_skipped_line_ignored(ls: Seq<Seq<char>>, i: int, line: Seq<char>, st: ParserView)
    requires
        0 <= i <= ls.len(),
        line_shape(line) == LineShape::Skipped,
    ensures
        run_lines(ls.insert(i, line), st) == run_lines(ls, st),
    decreases i,
{
    if i == 0 {
        assert(ls.insert(0, line).drop_first() == ls);
    } else {
        assert(ls.insert(i, line)[0] == ls[0]);
        assert(ls.insert(i, line).drop_first() == ls.drop_first().insert(i - 1, line));
        match line_shape(ls[0]) {
            LineShape::Skipped => {
                lemma_skipped_line_ignored(ls.drop_first(), i - 1, line, st);
            },
            LineShape::Malformed => {},
            LineShape::Entry(f, v) => {
                match apply_entry_spec(st, f, v, entry_date(f, v)) {
                    Some(Ok(next)) => {
                        lemma_skipped_line_ignored(ls.drop_first(), i - 1, line, next);
                    },
                    _ => {},
                }
            },
        }
    }
}

/// A block whose lines all read on their own and which gives no field
/// twice is answered by what is missing: with the value of each field's
/// line when all five are given; else with exactly the fields that have no
/// line, in the order title, date, slug, tags, description, as
/// `MissingKey` when one is missing and `MissingKeys` when several are.
pub proof fn lemma_clean_block(ls: Seq<Seq<char>>)
    requires
        clean_lines(ls),
    ensures
        run_lines(ls, initial_parser()) == Some(
            finish_spec(
                ParserView {
                    missing: not_given(all_fields(), ls),
                    values: recorded_values(ls, initial_parser().values),
                },
            ),
        ),
        forall|f: Field| #[trigger]
            not_given(all_fields(), ls).contains(f) <==> first_entry(ls, f) is None,
{
    lemma_clean_from_start(ls, Seq::empty());
    assert(ls + Seq::<Seq<char>>::empty() == ls);
    assert forall|f: Field| #[trigger]
        not_given(all_fields(), ls).contains(f) <==> first_entry(ls, f) is None by {
        lemma_not_given_contains(all_fields(), ls, f);
        lemma_all_fields_contains(f);
    }
}

/// What a complete block is read as: when its lines all read on their own
/// and it gives every field once, each field holds the value of its line:
/// title, slug and description without double quotes, the date as chrono
/// reads it, the tags cut at commas.
pub proof fn lemma_complete_block(ls: Seq<Seq<char>>)
    requires
        clean_lines(ls),
        forall|f: Field| #[trigger] first_entry(ls, f) is Some,
    ensures
        run_lines(ls, initial_parser()) == Some(
            Ok::<FieldsView, FieldErrorView>(
                FieldsView {
                    title: unquote(first_entry(ls, Field::Title).unwrap()),
                    date: iso_date(first_entry(ls, Field::Date).unwrap()).unwrap(),
                    slug: unquote(first_entry(ls, Field::Slug).unwrap()),
                    tags: tag_list(first_entry(ls, Field::Tags).unwrap()),
                    description: unquote(first_entry(ls, Field::Description).unwrap()),
                },
            ),
        ),
{
    lemma_clean_block(ls);
    let m = not_given(all_fields(), ls);
    if m.len() > 0 {
        assert(m.contains(m[0]));
        assert(first_entry(ls, m[0]) is Some);
    }
    assert(first_entry(ls, Field::Title) is Some);
    assert(first_entry(ls, Field::Date) is Some);
    assert(first_entry(ls, Field::Slug) is Some);
    assert(first_entry(ls, Field::Tags) is Some);
    assert(first_entry(ls, Field::Description) is Some);
}

/// A line that gives a field again is answered with `DuplicateKey` for
/// that field, when the lines before it read cleanly and the line itself
/// reads on its own.
pub proof fn lemma_duplicate_key(
    pre: Seq<Seq<char>>,
    line: Seq<char>,
    post: Seq<Seq<char>>,
    f: Field,
    v: Seq<char>,
)
    requires
        clean_lines(pre),
        line_shape(line) == LineShape::Entry(f, v),
        line_readable(line),
        first_entry(pre, f) is Some,
    ensures
        run_lines(pre + (seq![line] + post), initial_parser()) == Some(
            Err::<FieldsView, FieldErrorView>(FieldErrorView::DuplicateKey(f)),
        ),
{
    lemma_clean_from_start(pre, seq![line] + post);
    lemma_not_given_contains(all_fields(), pre, f);
    assert((seq![line] + post)[0] == line);
}

/// A date line whose value chrono does not read as a `YYYY-MM-DD` date is
/// answered with `InvalidDateTime`, when the lines before it read cleanly,
/// whether or not an earlier line gave the date.
pub proof fn lemma_invalid_date(pre: Seq<Seq<char>>, line: Seq<char>, post: Seq<Seq<char>>, v: Seq<char>)
    requires
        clean_lines(pre),
        line_shape(line) == LineShape::Entry(Field::Date, v),
        iso_date(v) is None,
    ensures
        run_lines(pre + (seq![line] + post), initial_parser()) == Some(
            Err::<FieldsView, FieldErrorView>(FieldErrorView::InvalidDateTime),
        ),
{
    lemma_clean_from_start(pre, seq![line] + post);
    assert((seq![line] + post)[0] == line);
}


/// A tag in double quotes.
pub open spec fn quoted(name: Seq<char>) -> Seq<char> {
    seq!['"'] + name + seq!['"']
}

/// Tags in double quotes, separated by `, `.
pub open spec fn joined_tags(names: Seq<Seq<char>>) -> Seq<char>
    decreases names.len(),
{
    if names.len() == 0 {
        Seq::empty()
    } else if names.len() == 1 {
        quoted(names[0])
    } else {
        joined_tags(names.drop_last()) + seq![',', ' '] + quoted(names.last())
    }
}

/// A tags value as posts write it: `["rust", "axum"]`.
pub open spec fn tags_text(names: Seq<Seq<char>>) -> Seq<char> {
    seq!['['] + joined_tags(names) + seq![']']
}

/// A tag that holds no double quote and no comma, and neither starts nor
/// ends with whitespace.
pub open spec fn plain_tag(name: Seq<char>) -> bool {
    &&& forall|i: int| 0 <= i < name.len() ==> name[i] != '"' && name[i] != ','
    &&& name.len() > 0 ==> !is_ws(name[0]) && !is_ws(name.last())
}

/// The pieces that cutting joined tags at commas gives.
pub open spec fn tag_pieces(names: Seq<Seq<char>>) -> Seq<Seq<char>> {
    Seq::new(
        names.len(),
        |i: int|
            if i == 0 {
                quoted(names[0])
            } else {
                seq![' '] + quoted(names[i])
            },
    )
}

proof fn lemma_quoted_no_comma(name: Seq<char>)
    requires
        plain_tag(name),
    ensures
        forall|i: int| 0 <= i < quoted(name).len() ==> quoted(name)[i] != ',',
        forall|i: int| 0 <= i < (seq![' '] + quoted(name)).len() ==> (seq![' '] + quoted(name))[i] != ',',
{
    assert forall|i: int| 0 <= i < quoted(name).len() implies quoted(name)[i] != ',' by {
        if 0 < i < quoted(name).len() - 1 {
            assert(quoted(name)[i] == name[i - 1]);
        }
    }
    assert forall|i: int| 0 <= i < (seq![' '] + quoted(name)).len() implies (seq![' '] + quoted(
        name,
    ))[i] != ',' by {
        if i > 0 {
            assert((seq![' '] + quoted(name))[i] == quoted(name)[i - 1]);
        }
    }
}

proof fn lemma_split_joined(names: Seq<Seq<char>>)
    requires
        names.len() >= 1,
        forall|i: int| 0 <= i < names.len() ==> #[trigger] plain_tag(names[i]),
    ensures
        split(joined_tags(names), ',') == tag_pieces(names),
    decreases names.len(),
{
    if names.len() == 1 {
        assert(plain_tag(names[0]));
        lemma_quoted_no_comma(names[0]);
        lemma_split_without_sep(quoted(names[0]), ',');
        assert(tag_pieces(names) =~= seq![quoted(names[0])]);
    } else {
        let init = names.drop_last();
        assert forall|i: int| 0 <= i < init.len() implies #[trigger] plain_tag(init[i]) by {
            assert(plain_tag(names[i]));
        }
        lemma_split_joined(init);
        let last = seq![' '] + quoted(names.last());
        assert(plain_tag(names[names.len() - 1]));
        lemma_quoted_no_comma(names.last());
        lemma_split_without_sep(last, ',');
        assert(joined_tags(names) == joined_tags(init) + seq![','] + last);
        lemma_split_concat(joined_tags(init), last, ',');
        assert(tag_pieces(names) =~= tag_pieces(init) + seq![last]);
    }
}

proof fn lemma_read_piece(name: Seq<char>, lead: bool)
    requires
        plain_tag(name),
    ensures
        trim(unquote(if lead { seq![' '] + quoted(name) } else { quoted(name) })) == name,
{
    lemma_unquote_plain(name);
    lemma_unquote_concat(seq!['"'], name);
    lemma_unquote_concat(seq!['"'] + name, seq!['"']);
    let e = Seq::<char>::empty();
    assert(unquote(e) == e);
    assert(unquote(seq!['"']) == e) by {
        assert(seq!['"'].drop_last() == e);
        assert(seq!['"'].last() == '"');
    }
    assert(unquote(quoted(name)) == name);
    assert(unquote(seq![' ']) == seq![' ']) by {
        assert(seq![' '].drop_last() == e);
        assert(seq![' '].last() == ' ');
        assert(e.push(' ') == seq![' ']);
    }
    lemma_unquote_concat(seq![' '], quoted(name));
    assert(unquote(seq![' '] + quoted(name)) == seq![' '] + name);
    assert((seq![' '] + name).drop_first() == name);
    assert(trim_start(name) == name);
    assert(trim_end(name) == name);
}

/// Tags written as a list, `["a", "b", ...]`, read back as the same tags,
/// when there is at least one and none holds a double quote or a comma or
/// starts or ends with whitespace. (No tag at all, `[]`, reads as one
/// empty tag.)
pub proof fn lemma_tags_roundtrip(names: Seq<Seq<char>>)
    requires
        names.len() >= 1,
        forall|i: int| 0 <= i < names.len() ==> #[trigger] plain_tag(names[i]),
    ensures
        tags_in_bounds(tags_text(names)),
        tag_list(tags_text(names)) == names,
{
    let t = tags_text(names);
    assert(t[0] == '[');
    assert(t.last() == ']');
    assert(t.subrange(1, t.len() - 1) == joined_tags(names));
    lemma_split_joined(names);
    let pieces = tag_pieces(names);
    assert forall|i: int| #![trigger names[i]] 0 <= i < names.len() implies pieces.map_values(
        |p: Seq<char>| trim(unquote(p)),
    )[i] == names[i] by {
        assert(plain_tag(names[i]));
        lemma_read_piece(names[i], i != 0);
    }
    assert(pieces.map_values(|p: Seq<char>| trim(unquote(p))) =~= names);
}


/// Reading a block that is accepted reads every line on its own, gives no
/// field twice, and gives only fields that were missing.
proof fn lemma_ok_clean(ls: Seq<Seq<char>>, st: ParserView)
    requires
        run_lines(ls, st) matches Some(Ok(_)),
    ensures
        clean_lines(ls),
        forall|f: Field| #[trigger] first_entry(ls, f) is Some ==> st.missing.contains(f),
    decreases ls.len(),
{
    if ls.len() > 0 {
        let tail = ls.drop_first();
        match line_shape(ls[0]) {
            LineShape::Entry(f, v) => {
                let next = apply_entry_spec(st, f, v, entry_date(f, v)).unwrap()->Ok_0;
                lemma_ok_clean(tail, next);
                assert(st.missing.contains(f));
                assert(next.missing == without(st.missing, f));
                lemma_without_contains(st.missing, f, f);
                lemma_count_zero_no_entry(tail, f);
                assert forall|g: Field| #[trigger] first_entry(ls, g) is Some implies st.missing.contains(
                    g,
                ) by {
                    if g != f {
                        assert(first_entry(ls, g) == first_entry(tail, g));
                        assert(next.missing.contains(g));
                        lemma_without_contains(st.missing, f, g);
                    }
                }
                assert forall|i: int| 0 <= i < ls.len() implies #[trigger] line_readable(ls[i]) by {
                    if i > 0 {
                        assert(line_readable(tail[i - 1]));
                    }
                }
                assert forall|g: Field| #[trigger] entry_count(ls, g) <= 1 by {
                    assert(entry_count(tail, g) <= 1);
                }
            },
            _ => {
                lemma_ok_clean(tail, st);
                assert forall|g: Field| #[trigger] first_entry(ls, g) is Some implies st.missing.contains(
                    g,
                ) by {
                    assert(first_entry(ls, g) == first_entry(tail, g));
                }
                assert forall|i: int| 0 <= i < ls.len() implies #[trigger] line_readable(ls[i]) by {
                    if i > 0 {
                        assert(line_readable(tail[i - 1]));
                    }
                }
                assert forall|g: Field| #[trigger] entry_count(ls, g) <= 1 by {
                    assert(entry_count(tail, g) <= 1);
                }
            },
        }
    }
}

/// The entry of a line counts once.
pub open spec fn entry_of(line: Seq<char>, f: Field) -> nat {
    match line_shape(line) {
        LineShape::Entry(g, _) => if g == f {
            1
        } else {
            0
        },
        _ => 0,
    }
}

proof fn lemma_count_remove(ls: Seq<Seq<char>>, j: int, f: Field)
    requires
        0 <= j < ls.len(),
    ensures
        entry_count(ls, f) == entry_count(ls.remove(j), f) + entry_of(ls[j], f),
    decreases j,
{
    if j == 0 {
        assert(ls.remove(0) == ls.drop_first());
    } else {
        assert(ls.remove(j).drop_first() == ls.drop_first().remove(j - 1));
        assert(ls.remove(j)[0] == ls[0]);
        lemma_count_remove(ls.drop_first(), j - 1, f);
    }
}

proof fn lemma_count_reordered(ls: Seq<Seq<char>>, ls2: Seq<Seq<char>>, f: Field)
    requires
        ls2.to_multiset() == ls.to_multiset(),
    ensures
        entry_count(ls2, f) == entry_count(ls, f),
    decreases ls2.len(),
{
    broadcast use vstd::seq_lib::group_to_multiset_ensures;

    if ls2.len() == 0 {
        assert(ls.to_multiset().len() == 0);
        assert(ls.len() == 0);
    } else {
        let x = ls2[0];
        assert(ls2.contains(x));
        assert(ls.to_multiset().count(x) > 0);
        assert(ls.contains(x));
        let j = choose|j: int| 0 <= j < ls.len() && ls[j] == x;
        assert(ls2.remove(0) == ls2.drop_first());
        assert(ls.remove(j).to_multiset() == ls2.drop_first().to_multiset());
        lemma_count_reordered(ls.remove(j), ls2.drop_first(), f);
        lemma_count_remove(ls, j, f);
    }
}

proof fn lemma_entry_found(ls: Seq<Seq<char>>, i: int, f: Field, w: Seq<char>)
    requires
        0 <= i < ls.len(),
        line_shape(ls[i]) == LineShape::Entry(f, w),
    ensures
        first_entry(ls, f) is Some,
        entry_count(ls, f) == 1 ==> first_entry(ls, f) == Some(w),
    decreases i,
{
    if i > 0 {
        let tail = ls.drop_first();
        assert(tail[i - 1] == ls[i]);
        lemma_entry_found(tail, i - 1, f, w);
        lemma_count_zero_no_entry(tail, f);
    }
}

proof fn lemma_entry_source(ls: Seq<Seq<char>>, f: Field, w: Seq<char>) -> (i: int)
    requires
        first_entry(ls, f) == Some(w),
    ensures
        0 <= i < ls.len(),
        line_shape(ls[i]) == LineShape::Entry(f, w),
    decreases ls.len(),
{
    match line_shape(ls[0]) {
        LineShape::Entry(g, v) => if g == f {
            0
        } else {
            let k = lemma_entry_source(ls.drop_first(), f, w);
            k + 1
        },
        _ => {
            let k = lemma_entry_source(ls.drop_first(), f, w);
            k + 1
        },
    }
}

/// The order of the lines of an accepted block does not matter: the same
/// lines in any other order are read as the same values.
pub proof fn lemma_reordered_block(ls: Seq<Seq<char>>, ls2: Seq<Seq<char>>)
    requires
        run_lines(ls, initial_parser()) matches Some(Ok(_)),
        ls2.to_multiset() == ls.to_multiset(),
    ensures
        run_lines(ls2, initial_parser()) == run_lines(ls, initial_parser()),
{
    broadcast use vstd::seq_lib::group_to_multiset_ensures;

    lemma_ok_clean(ls, initial_parser());
    lemma_clean_block(ls);
    let m = not_given(all_fields(), ls);
    if m.len() > 0 {
        assert(m.contains(m[0]));
    }
    assert forall|f: Field| #[trigger] first_entry(ls, f) is Some by {
        if first_entry(ls, f) is None {
            assert(m.contains(f));
        }
    }
    assert forall|i: int| 0 <= i < ls2.len() implies #[trigger] line_readable(ls2[i]) by {
        assert(ls2.contains(ls2[i]));
        assert(ls.to_multiset().count(ls2[i]) > 0);
        assert(ls.contains(ls2[i]));
        let j = choose|j: int| 0 <= j < ls.len() && ls[j] == ls2[i];
        assert(line_readable(ls[j]));
    }
    assert forall|f: Field| #[trigger] entry_count(ls2, f) <= 1 by {
        lemma_count_reordered(ls, ls2, f);
        assert(entry_count(ls, f) <= 1);
    }
    assert forall|f: Field| #[trigger] first_entry(ls2, f) == first_entry(ls, f) by {
        assert(first_entry(ls, f) is Some);
        let w = first_entry(ls, f).unwrap();
        let i = lemma_entry_source(ls, f, w);
        assert(ls.contains(ls[i]));
        assert(ls2.to_multiset().count(ls[i]) > 0);
        assert(ls2.contains(ls[i]));
        let j = choose|j: int| 0 <= j < ls2.len() && ls2[j] == ls[i];
        lemma_count_reordered(ls, ls2, f);
        assert(entry_count(ls, f) <= 1);
        lemma_count_zero_no_entry(ls, f);
        lemma_entry_found(ls2, j, f, w);
    }
    assert(clean_lines(ls2));
    lemma_complete_block(ls);
    lemma_complete_block(ls2);
}


/// Two lists of pieces agree once each piece is trimmed.
pub open spec fn pieces_match(p: Seq<Seq<char>>, q: Seq<Seq<char>>) -> bool {
    p.len() == q.len() && forall|i: int| 0 <= i < p.len() ==> trim(#[trigger] p[i]) == trim(q[i])
}

proof fn lemma_pieces_match_trans(p: Seq<Seq<char>>, q: Seq<Seq<char>>, r: Seq<Seq<char>>)
    requires
        pieces_match(p, q),
        pieces_match(q, r),
    ensures
        pieces_match(p, r),
{
    assert forall|i: int| 0 <= i < p.len() implies trim(#[trigger] p[i]) == trim(r[i]) by {
        assert(trim(p[i]) == trim(q[i]));
        assert(trim(q[i]) == trim(r[i]));
    }
}

proof fn lemma_empty_ws()
    ensures
        ws_only(Seq::<char>::empty()),
{
}

/// Cutting a text with whitespace around it gives the pieces of the text,
/// up to whitespace at their ends.
proof fn lemma_split_padded(w1: Seq<char>, x: Seq<char>, w2: Seq<char>)
    requires
        ws_only(w1),
        ws_only(w2),
    ensures
        pieces_match(split(w1 + x + w2, ':'), split(x, ':')),
{
    let e = Seq::<char>::empty();
    lemma_split_nonempty(x, ':');
    lemma_split_nonempty(x + w2, ':');
    lemma_split_append_ws(x, w2, ':');
    lemma_split_prepend_ws(w1, x + w2, ':');
    assert(w1 + x + w2 == w1 + (x + w2));
    let q = split(x, ':');
    let p2 = split(x + w2, ':');
    let p1 = split(w1 + x + w2, ':');
    assert forall|i: int| 0 <= i < p1.len() implies trim(#[trigger] p1[i]) == trim(q[i]) by {
        if i == 0 && i == q.len() - 1 {
            assert(p1[i] == w1 + (q[i] + w2));
            lemma_trim_padded(w1, q[i] + w2, e);
            assert(w1 + (q[i] + w2) + e == w1 + (q[i] + w2));
            lemma_trim_padded(e, q[i], w2);
            assert(e + q[i] + w2 == q[i] + w2);
        } else if i == 0 {
            assert(p1[i] == w1 + q[i]);
            lemma_trim_padded(w1, q[i], e);
            assert(w1 + q[i] + e == w1 + q[i]);
        } else if i == q.len() - 1 {
            assert(p1[i] == q[i] + w2);
            lemma_trim_padded(e, q[i], w2);
            assert(e + q[i] + w2 == q[i] + w2);
        }
    }
}

/// The pieces of a line and of its trimmed text agree.
proof fn lemma_split_trimmed(l: Seq<char>)
    ensures
        pieces_match(split(trim(l), ':'), split(l, ':')),
{
    let (u1, u2) = lemma_trim_decompose(l);
    lemma_split_padded(u1, trim(l), u2);
    assert forall|i: int| 0 <= i < split(l, ':').len() implies trim(
        #[trigger] split(trim(l), ':')[i],
    ) == trim(split(l, ':')[i]) by {
        assert(trim(split(l, ':')[i]) == trim(split(trim(l), ':')[i]));
    }
}

/// A line with a non-whitespace character trims to a nonempty text whose
/// first character is the first non-whitespace one.
proof fn lemma_trim_first(l: Seq<char>, i: int)
    requires
        0 <= i < l.len(),
        !is_ws(l[i]),
    ensures
        trim(l).len() > 0,
        trim_start(l).len() > 0,
        trim(l)[0] == trim_start(l)[0],
{
    let (u1, u2) = lemma_trim_decompose(l);
    if trim(l).len() == 0 {
        if i < u1.len() {
            assert(l[i] == u1[i]);
        } else {
            assert(l[i] == u2[i - u1.len()]);
        }
    }
    lemma_trim_start_concat(Seq::<char>::empty(), l);
    assert(Seq::<char>::empty() + l == l);
    if trim_start(l).len() == 0 {
        assert(trim(l) == trim_end(trim_start(l)));
    }
    crate::text::lemma_trim_end_prefix(trim_start(l));
}

proof fn lemma_same_shape(l1: Seq<char>, l2: Seq<char>)
    requires
        trim(l1).len() == 0 <==> trim(l2).len() == 0,
        trim(l1).len() > 0 ==> trim(l1)[0] == trim(l2)[0],
        pieces_match(split(l1, ':'), split(l2, ':')),
    ensures
        line_shape(l1) == line_shape(l2),
{
    lemma_split_trimmed(l1);
    lemma_split_trimmed(l2);
    lemma_pieces_match_trans(split(trim(l1), ':'), split(l1, ':'), split(l2, ':'));
    assert(pieces_match(split(l2, ':'), split(trim(l2), ':')));
    lemma_pieces_match_trans(split(trim(l1), ':'), split(l2, ':'), split(trim(l2), ':'));
    let p = split(trim(l1), ':');
    let q = split(trim(l2), ':');
    if p.len() >= 2 {
        assert(trim(p[0]) == trim(q[0]));
        assert(trim(p[1]) == trim(q[1]));
    }
}

/// Whitespace added at the start or the end of a line does not change what
/// the line is.
pub proof fn lemma_padded_line(w1: Seq<char>, line: Seq<char>, w2: Seq<char>)
    requires
        ws_only(w1),
        ws_only(w2),
    ensures
        line_shape(w1 + line + w2) == line_shape(line),
{
    lemma_trim_padded(w1, line, w2);
}

/// Whitespace added just before or just after a colon does not change
/// what the line is.
pub proof fn lemma_padded_colon(a: Seq<char>, w1: Seq<char>, w2: Seq<char>, b: Seq<char>)
    requires
        ws_only(w1),
        ws_only(w2),
    ensures
        line_shape(a + w1 + seq![':'] + w2 + b) == line_shape(a + seq![':'] + b),
{
    let l1 = a + w1 + seq![':'] + w2 + b;
    let l2 = a + seq![':'] + b;
    let e = Seq::<char>::empty();
    // the pieces agree
    assert(l1 == (a + w1) + seq![':'] + (w2 + b));
    crate::text::lemma_split_concat(a + w1, w2 + b, ':');
    crate::text::lemma_split_concat(a, b, ':');
    lemma_split_padded(e, a, w1);
    assert(e + a + w1 == a + w1);
    lemma_split_padded(w2, b, e);
    assert(w2 + b + e == w2 + b);
    let pa = split(a + w1, ':');
    let qa = split(a, ':');
    let pb = split(w2 + b, ':');
    let qb = split(b, ':');
    assert forall|i: int| 0 <= i < (pa + pb).len() implies trim(#[trigger] (pa + pb)[i]) == trim(
        (qa + qb)[i],
    ) by {
        if i < pa.len() {
            assert(trim(pa[i]) == trim(qa[i]));
        } else {
            assert(trim(pb[i - pa.len()]) == trim(qb[i - pa.len()]));
        }
    }
    // both trim to texts that start alike
    let k1: int = (a.len() + w1.len()) as int;
    assert(l1[k1] == ':');
    assert(l2[a.len() as int] == ':');
    lemma_trim_first(l1, k1);
    lemma_trim_first(l2, a.len() as int);
    assert(l1 == a + (w1 + seq![':'] + w2 + b));
    assert(l2 == a + (seq![':'] + b));
    lemma_trim_start_concat(a, w1 + seq![':'] + w2 + b);
    lemma_trim_start_concat(a, seq![':'] + b);
    if trim_start(a).len() == 0 {
        lemma_trim_start_concat(w1, seq![':'] + w2 + b);
        assert(w1 + seq![':'] + w2 + b == w1 + (seq![':'] + w2 + b));
        lemma_trim_start_ws(w1);
        assert((seq![':'] + w2 + b)[0] == ':');
        assert((seq![':'] + b)[0] == ':');
    }
    lemma_same_shape(l1, l2);
}

/// The lines joined by line feeds.
pub open spec fn join_lines(ls: Seq<Seq<char>>) -> Seq<char>
    decreases ls.len(),
{
    if ls.len() == 0 {
        Seq::empty()
    } else if ls.len() == 1 {
        ls[0]
    } else {
        join_lines(ls.drop_last()) + seq!['\n'] + ls.last()
    }
}

/// No line holds a line feed.
pub open spec fn single_lines(ls: Seq<Seq<char>>) -> bool {
    forall|i: int, j: int| 0 <= i < ls.len() && 0 <= j < ls[i].len() ==> #[trigger] ls[i][j] != '\n'
}

proof fn lemma_split_join(ls: Seq<Seq<char>>)
    requires
        ls.len() >= 1,
        single_lines(ls),
    ensures
        split(join_lines(ls), '\n') == ls,
    decreases ls.len(),
{
    let last = ls[ls.len() - 1];
    assert forall|j: int| 0 <= j < last.len() implies last[j] != '\n' by {
        assert(ls[ls.len() - 1][j] != '\n');
    }
    lemma_split_without_sep(last, '\n');
    if ls.len() == 1 {
        assert(seq![ls[0]] =~= ls);
    } else {
        let init = ls.drop_last();
        assert forall|i: int, j: int| 0 <= i < init.len() && 0 <= j < init[i].len() implies #[trigger] init[i][j]
            != '\n' by {
            assert(ls[i][j] != '\n');
        }
        lemma_split_join(init);
        crate::text::lemma_split_concat(join_lines(init), ls.last(), '\n');
        assert(init + seq![ls.last()] =~= ls);
    }
}

/// A text made of lines is read as those lines.
pub proof fn lemma_parse_joined(ls: Seq<Seq<char>>)
    requires
        single_lines(ls),
    ensures
        parse_block(join_lines(ls)) == run_lines(ls, initial_parser()),
{
    if ls.len() == 0 {
        assert(split(Seq::<char>::empty(), '\n') =~= seq![Seq::<char>::empty()]);
        assert(lines(join_lines(ls)) =~= ls);
    } else {
        lemma_split_join(ls);
        let last = ls.last();
        if last.len() == 0 {
            assert(trim(last) =~= last);
            lemma_skipped_line_ignored(ls.drop_last(), ls.len() - 1, last, initial_parser());
            assert(ls.drop_last().insert(ls.len() - 1, last) =~= ls);
        }
    }
}

/// The shapes of the lines that are not skipped, in order.
pub open spec fn kept_shapes(ls: Seq<Seq<char>>) -> Seq<LineShape>
    decreases ls.len(),
{
    if ls.len() == 0 {
        Seq::empty()
    } else if line_shape(ls[0]) == LineShape::Skipped {
        kept_shapes(ls.drop_first())
    } else {
        seq![line_shape(ls[0])] + kept_shapes(ls.drop_first())
    }
}

/// Two sequences of lines whose lines, once skipped lines are left out,
/// have the same shapes one by one are read alike.
pub proof fn lemma_same_entries(ls: Seq<Seq<char>>, ls2: Seq<Seq<char>>, st: ParserView)
    requires
        kept_shapes(ls) == kept_shapes(ls2),
    ensures
        run_lines(ls, st) == run_lines(ls2, st),
    decreases ls.len() + ls2.len(),
{
    if ls.len() > 0 && line_shape(ls[0]) == LineShape::Skipped {
        lemma_same_entries(ls.drop_first(), ls2, st);
    } else if ls2.len() > 0 && line_shape(ls2[0]) == LineShape::Skipped {
        lemma_same_entries(ls, ls2.drop_first(), st);
    } else if ls.len() == 0 {
        if ls2.len() > 0 {
            assert(kept_shapes(ls2).len() > 0);
        }
    } else {
        assert(kept_shapes(ls).len() > 0);
        assert(ls2.len() > 0);
        assert(kept_shapes(ls)[0] == line_shape(ls[0]));
        assert(kept_shapes(ls2)[0] == line_shape(ls2[0]));
        assert(kept_shapes(ls.drop_first()) =~= kept_shapes(ls).drop_first());
        assert(kept_shapes(ls2.drop_first()) =~= kept_shapes(ls2).drop_first());
        match line_shape(ls[0]) {
            LineShape::Entry(f, v) => {
                match apply_entry_spec(st, f, v, entry_date(f, v)) {
                    Some(Ok(next)) => {
                        lemma_same_entries(ls.drop_first(), ls2.drop_first(), next);
                    },
                    _ => {},
                }
            },
            _ => {},
        }
    }
}

/// The layout of a block's text does not matter: texts whose lines, once
/// blank lines and comment lines are left out, are the same one by one up
/// to whitespace at the line ends and around colons (lines of the same
/// shape: see `lemma_padded_line` and `lemma_padded_colon`) are read alike,
/// including as unreadable.
pub proof fn lemma_layout_ignored(ls: Seq<Seq<char>>, ls2: Seq<Seq<char>>)
    requires
        single_lines(ls),
        single_lines(ls2),
        kept_shapes(ls) == kept_shapes(ls2),
    ensures
        parse_block(join_lines(ls)) == parse_block(join_lines(ls2)),
{
    lemma_parse_joined(ls);
    lemma_parse_joined(ls2);
    lemma_same_entries(ls, ls2, initial_parser());
}

/// The lines of an accepted block's text, in any other order, are read as
/// the same values.
pub proof fn lemma_reordered_text(ls: Seq<Seq<char>>, ls2: Seq<Seq<char>>)
    requires
        single_lines(ls),
        single_lines(ls2),
        parse_block(join_lines(ls)) matches Some(Ok(_)),
        ls2.to_multiset() == ls.to_multiset(),
    ensures
        parse_block(join_lines(ls2)) == parse_block(join_lines(ls)),
{
    lemma_parse_joined(ls);
    lemma_parse_joined(ls2);
    lemma_reordered_block(ls, ls2);
}


proof fn lemma_kept_concat(a: Seq<Seq<char>>, b: Seq<Seq<char>>)
    ensures
        kept_shapes(a + b) == kept_shapes(a) + kept_shapes(b),
    decreases a.len(),
{
    if a.len() == 0 {
        assert(a + b == b);
        assert(kept_shapes(a) + kept_shapes(b) =~= kept_shapes(b));
    } else {
        assert((a + b)[0] == a[0]);
        assert((a + b).drop_first() == a.drop_first() + b);
        lemma_kept_concat(a.drop_first(), b);
        if line_shape(a[0]) != LineShape::Skipped {
            assert(seq![line_shape(a[0])] + (kept_shapes(a.drop_first()) + kept_shapes(b)) =~= (seq![
                line_shape(a[0]),
            ] + kept_shapes(a.drop_first())) + kept_shapes(b));
        }
    }
}

proof fn lemma_single_concat(a: Seq<Seq<char>>, b: Seq<Seq<char>>)
    requires
        single_lines(a),
        single_lines(b),
    ensures
        single_lines(a + b),
{
    assert forall|i: int, j: int| 0 <= i < (a + b).len() && 0 <= j < (a + b)[i].len() implies #[trigger] (a
        + b)[i][j] != '\n' by {
        if i < a.len() {
            assert(a[i][j] != '\n');
        } else {
            assert(b[i - a.len()][j] != '\n');
        }
    }
}

proof fn lemma_single_one(line: Seq<char>)
    requires
        forall|j: int| 0 <= j < line.len() ==> line[j] != '\n',
    ensures
        single_lines(seq![line]),
{
    assert forall|i: int, j: int| 0 <= i < seq![line].len() && 0 <= j < seq![line][i].len() implies #[trigger] seq![
        line,
    ][i][j] != '\n' by {
        assert(seq![line][i] == line);
    }
}

/// One edit of a block's text keeps what the text reads as: a line replaced
/// by one of the same shape, such as the same line with whitespace added or
/// removed at its ends or around a colon (`lemma_padded_line`,
/// `lemma_padded_colon`). Any number of such edits, one after another,
/// keep it too.
pub proof fn lemma_line_replaced(
    pre: Seq<Seq<char>>,
    line: Seq<char>,
    line2: Seq<char>,
    post: Seq<Seq<char>>,
)
    requires
        single_lines(pre),
        single_lines(post),
        forall|j: int| 0 <= j < line.len() ==> line[j] != '\n',
        forall|j: int| 0 <= j < line2.len() ==> line2[j] != '\n',
        line_shape(line) == line_shape(line2),
    ensures
        parse_block(join_lines(pre + seq![line] + post)) == parse_block(
            join_lines(pre + seq![line2] + post),
        ),
{
    lemma_single_one(line);
    lemma_single_one(line2);
    lemma_single_concat(pre, seq![line]);
    lemma_single_concat(pre + seq![line], post);
    lemma_single_concat(pre, seq![line2]);
    lemma_single_concat(pre + seq![line2], post);
    lemma_kept_concat(pre, seq![line]);
    lemma_kept_concat(pre + seq![line], post);
    lemma_kept_concat(pre, seq![line2]);
    lemma_kept_concat(pre + seq![line2], post);
    assert(seq![line].drop_first() =~= Seq::<Seq<char>>::empty());
    assert(seq![line2].drop_first() =~= Seq::<Seq<char>>::empty());
    assert(kept_shapes(seq![line]) == kept_shapes(seq![line2]));
    lemma_layout_ignored(pre + seq![line] + post, pre + seq![line2] + post);
}

/// One edit of a block's text keeps what the text reads as: a blank line,
/// or a line whose trimmed text starts with `#`, removed (or, read the other
/// way, added).
pub proof fn lemma_skipped_line_removed(pre: Seq<Seq<char>>, line: Seq<char>, post: Seq<Seq<char>>)
    requires
        single_lines(pre),
        single_lines(post),
        forall|j: int| 0 <= j < line.len() ==> line[j] != '\n',
        line_shape(line) == LineShape::Skipped,
    ensures
        parse_block(join_lines(pre + seq![line] + post)) == parse_block(join_lines(pre + post)),
{
    lemma_single_one(line);
    lemma_single_concat(pre, seq![line]);
    lemma_single_concat(pre + seq![line], post);
    lemma_single_concat(pre, post);
    lemma_kept_concat(pre, seq![line]);
    lemma_kept_concat(pre + seq![line], post);
    lemma_kept_concat(pre, post);
    assert(seq![line].drop_first() =~= Seq::<Seq<char>>::empty());
    assert(seq![line][0] == line);
    assert(kept_shapes(Seq::<Seq<char>>::empty()) == Seq::<LineShape>::empty());
    assert(kept_shapes(seq![line]) =~= Seq::<LineShape>::empty());
    assert(kept_shapes(pre) + Seq::<LineShape>::empty() == kept_shapes(pre));
    lemma_layout_ignored(pre + seq![line] + post, pre + post);
}


/// Which fields a clean block is missing decides its error: none missing,
/// the values; exactly one field `f` with no line, `MissingKey(f)`; two or
/// more, `MissingKeys` with every field that has no line, in the order
/// title, date, slug, tags, description.
pub proof fn lemma_missing_fields(ls: Seq<Seq<char>>)
    requires
        clean_lines(ls),
    ensures
        (forall|f: Field| #[trigger] first_entry(ls, f) is Some) ==> run_lines(
            ls,
            initial_parser(),
        ) matches Some(Ok(_)),
        forall|f: Field| #[trigger]
            not_given(all_fields(), ls).contains(f) <==> first_entry(ls, f) is None,
        not_given(all_fields(), ls).len() == 1 ==> run_lines(ls, initial_parser()) == Some(
            Err::<FieldsView, FieldErrorView>(
                FieldErrorView::MissingKey(not_given(all_fields(), ls)[0]),
            ),
        ),
        not_given(all_fields(), ls).len() >= 2 ==> run_lines(ls, initial_parser()) == Some(
            Err::<FieldsView, FieldErrorView>(
                FieldErrorView::MissingKeys(not_given(all_fields(), ls)),
            ),
        ),
{
    lemma_clean_block(ls);
    let m = not_given(all_fields(), ls);
    if forall|f: Field| #[trigger] first_entry(ls, f) is Some {
        if m.len() > 0 {
            assert(m.contains(m[0]));
            assert(first_entry(ls, m[0]) is Some);
        }
    }
}

/// The fields with no line, listed in field order: `not_given` keeps the
/// order of the fields it is given and leaves out exactly those with a line.
pub proof fn lemma_not_given_order(m: Seq<Field>, ls: Seq<Seq<char>>)
    ensures
        not_given(m, ls) == m.filter(|f: Field| first_entry(ls, f) is None),
    decreases m.len(),
{
    reveal_with_fuel(Seq::filter, 1);
    if m.len() > 0 {
        lemma_not_given_order(m.drop_last(), ls);
    }
}

proof fn lemma_name_no_colon(f: Field)
    ensures
        forall|i: int| 0 <= i < field_name(f).len() ==> field_name(f)[i] != ':',
        field_name(f).len() > 0,
        !is_ws(field_name(f)[0]),
        field_name(f)[0] != '#',
        !is_ws(field_name(f).last()),
        field_named(field_name(f)) == Some(f),
{
    let t = field_name(Field::Title);
    let d = field_name(Field::Date);
    let s = field_name(Field::Slug);
    let g = field_name(Field::Tags);
    let e = field_name(Field::Description);
    assert(t.len() == 5 && d.len() == 4 && s.len() == 4 && g.len() == 4 && e.len() == 11);
    assert(d[0] == 'd' && s[0] == 's' && g[0] == 't');
    assert(d != s && d != g && s != g);
    assert(t != d && t != s && t != g && t != e);
    assert(d != e && s != e && g != e);
}

/// A line `key: value` with one of the five keys gives that field the
/// value, whatever characters (such as `#`) the value holds and even when it
/// is empty: the line is written as the key and the value, with whitespace
/// (none or some) at the line's ends and on each side of the colon; the
/// value holds no colon and neither starts nor ends with whitespace.
pub proof fn lemma_entry_line(
    f: Field,
    v: Seq<char>,
    w1: Seq<char>,
    w2: Seq<char>,
    w3: Seq<char>,
    w4: Seq<char>,
)
    requires
        ws_only(w1),
        ws_only(w2),
        ws_only(w3),
        ws_only(w4),
        forall|i: int| 0 <= i < v.len() ==> v[i] != ':',
        v.len() > 0 ==> !is_ws(v[0]) && !is_ws(v.last()),
    ensures
        line_shape(w1 + field_name(f) + w2 + seq![':'] + w3 + v + w4) == LineShape::Entry(f, v),
{
    let k = field_name(f);
    lemma_name_no_colon(f);
    let inner = k + w2 + seq![':'] + w3 + v;
    assert(w1 + k + w2 + seq![':'] + w3 + v + w4 == w1 + inner + w4);
    lemma_padded_line(w1, inner, w4);
    lemma_padded_colon(k, w2, w3, v);
    let l = k + seq![':'] + v;
    assert(l[0] == k[0]);
    if v.len() > 0 {
        assert(l.last() == v.last());
    } else {
        assert(l.last() == ':');
    }
    lemma_trim_fixed(l);
    crate::text::lemma_split_concat(k, v, ':');
    lemma_split_without_sep(k, ':');
    lemma_split_without_sep(v, ':');
    let parts = split(l, ':');
    assert(parts =~= seq![k, v]);
    lemma_trim_fixed(k);
    if v.len() > 0 {
        lemma_trim_fixed(v);
    } else {
        assert(trim(v) == v);
    }
}

/// A line is skipped exactly when its trimmed text is empty or starts
/// with `#`; any other line whose key (the trimmed text before its first
/// colon) is one of the five is an entry for that field.
pub proof fn lemma_skipped_exactly(l: Seq<char>)
    ensures
        (line_shape(l) == LineShape::Skipped) <==> (trim(l).len() == 0 || trim(l)[0] == '#'),
        !(trim(l).len() == 0 || trim(l)[0] == '#') && split(l, ':').len() >= 2 && field_named(
            trim(split(l, ':')[0]),
        ) is Some ==> (line_shape(l) matches LineShape::Entry(g, _) && Some(g) == field_named(
            trim(split(l, ':')[0]),
        )),
{
    lemma_split_trimmed(l);
    let p = split(trim(l), ':');
    let q = split(l, ':');
    if q.len() >= 2 {
        assert(trim(p[0]) == trim(q[0]));
    }
}


/// Double quotes anywhere in a tags value are ignored: the value reads as
/// the same tags once every quote between its brackets is removed (so
/// whitespace just inside the quotes of a tag is trimmed away too).
pub proof fn lemma_tags_ignore_quotes(x: Seq<char>, open: char, close: char)
    requires
        is_ascii_char(open),
        is_ascii_char(close),
    ensures
        tags_in_bounds(seq![open] + x + seq![close]),
        tags_in_bounds(seq![open] + unquote(x) + seq![close]),
        tag_list(seq![open] + unquote(x) + seq![close]) == tag_list(seq![open] + x + seq![close]),
{
    let v1 = seq![open] + x + seq![close];
    let v2 = seq![open] + unquote(x) + seq![close];
    assert(v1[0] == open && v1.last() == close);
    assert(v2[0] == open && v2.last() == close);
    assert(v1.subrange(1, v1.len() - 1) == x);
    assert(v2.subrange(1, v2.len() - 1) == unquote(x));
    crate::text::lemma_split_unquote(x, ',');
    let p = split(x, ',');
    assert forall|i: int| 0 <= i < p.len() implies #[trigger] trim(unquote(unquote(p[i]))) == trim(
        unquote(p[i]),
    ) by {
        crate::text::lemma_unquote_removes(p[i]);
    }
    assert(tag_list(v2) =~= tag_list(v1));
}

} // verus!
