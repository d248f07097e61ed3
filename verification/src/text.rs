//! Character-level text operations: whitespace, trimming and splitting,
//! each specified over `Seq<char>` and implemented on slices of `char`.
use vstd::prelude::*;

verus! {

/// Unicode `White_Space`, the property that `char::is_whitespace` tests.
pub open spec fn is_ws(c: char) -> bool {
    ||| c == '\t' || c == '\n' || c == '\u{0B}' || c == '\u{0C}' || c == '\r' || c == ' '
    ||| c == '\u{85}' || c == '\u{A0}' || c == '\u{1680}'
    ||| ('\u{2000}' <= c && c <= '\u{200A}')
    ||| c == '\u{2028}' || c == '\u{2029}' || c == '\u{202F}' || c == '\u{205F}' || c == '\u{3000}'
}

/// The text without its leading whitespace.
pub open spec fn trim_start(s: Seq<char>) -> Seq<char>
    decreases s.len(),
{
    if s.len() > 0 && is_ws(s[0]) {
        trim_start(s.drop_first())
    } else {
        s
    }
}

/// The text without its trailing whitespace.
pub open spec fn trim_end(s: Seq<char>) -> Seq<char>
    decreases s.len(),
{
    if s.len() > 0 && is_ws(s.last()) {
        trim_end(s.drop_last())
    } else {
        s
    }
}

/// The text without leading and trailing whitespace (`str::trim`).
pub open spec fn trim(s: Seq<char>) -> Seq<char> {
    trim_end(trim_start(s))
}

pub fn is_whitespace(c: char) -> (r: bool)
    ensures
        r == is_ws(c),
{
    c == '\t' || c == '\n' || c == '\u{0B}' || c == '\u{0C}' || c == '\r' || c == ' '
        || c == '\u{85}' || c == '\u{A0}' || c == '\u{1680}' || ('\u{2000}' <= c && c
        <= '\u{200A}') || c == '\u{2028}' || c == '\u{2029}' || c == '\u{202F}' || c
        == '\u{205F}' || c == '\u{3000}'
}

/// A copy of `s[from..to]`.
pub fn copy_range(s: &[char], from: usize, to: usize) -> (r: Vec<char>)
    requires
        from <= to <= s@.len(),
    ensures
        r@ == s@.subrange(from as int, to as int),
{
    let mut r: Vec<char> = Vec::new();
    let mut i = from;
    while i < to
        invariant
            from <= i <= to <= s@.len(),
            r@ == s@.subrange(from as int, i as int),
        decreases to - i,
    {
        r.push(s[i]);
        i = i + 1;
    }
    r
}

pub fn trim_chars(s: &[char]) -> (r: Vec<char>)
    ensures
        r@ == trim(s@),
{
    let n = s.len();
    let mut a: usize = 0;
    assert(s@.skip(0) == s@);
    while a < n && is_whitespace(s[a])
        invariant
            a <= n == s@.len(),
            trim_start(s@) == trim_start(s@.skip(a as int)),
        decreases n - a,
    {
        assert(s@.skip(a as int).drop_first() == s@.skip(a + 1));
        a = a + 1;
    }
    let ghost t = s@.skip(a as int);
    assert(trim_start(t) == t);
    let mut b: usize = n;
    while b > a && is_whitespace(s[b - 1])
        invariant
            a <= b <= n == s@.len(),
            t == s@.skip(a as int),
            trim_end(t) == trim_end(s@.subrange(a as int, b as int)),
        decreases b - a,
    {
        assert(s@.subrange(a as int, b as int).drop_last() == s@.subrange(a as int, b - 1));
        b = b - 1;
    }
    assert(s@.subrange(a as int, n as int) == t);
    copy_range(s, a, b)
}


/// The pieces of `s` between occurrences of `sep` (`str::split` with a
/// `char` pattern): always at least one piece, empty pieces kept.
pub open spec fn split(s: Seq<char>, sep: char) -> Seq<Seq<char>>
    decreases s.len(),
{
    if s.len() == 0 {
        seq![Seq::<char>::empty()]
    } else {
        let p = split(s.drop_last(), sep);
        if s.last() == sep {
            p.push(Seq::<char>::empty())
        } else {
            p.update(p.len() - 1, p.last().push(s.last()))
        }
    }
}

pub proof fn lemma_split_nonempty(s: Seq<char>, sep: char)
    ensures
        split(s, sep).len() >= 1,
    decreases s.len(),
{
    if s.len() > 0 {
        lemma_split_nonempty(s.drop_last(), sep);
    }
}

/// The texts held by a sequence of character vectors.
pub open spec fn views(v: Seq<Vec<char>>) -> Seq<Seq<char>> {
    v.map_values(|x: Vec<char>| x@)
}

/// The lines of a text (`str::lines`, up to the carriage return before a
/// line feed, which stays at the end of its line): the pieces between line
/// feeds, without the empty piece after a final line feed.
pub open spec fn lines(s: Seq<char>) -> Seq<Seq<char>> {
    let p = split(s, '\n');
    if p.last().len() == 0 {
        p.drop_last()
    } else {
        p
    }
}

/// The characters of a string slice.
pub fn str_chars(s: &str) -> (r: Vec<char>)
    ensures
        r@ == s@,
{
    broadcast use vstd::string::group_string_axioms;
    let mut r: Vec<char> = Vec::new();
    for c in it: s.chars()
        invariant
            r@ == it.seq().take(it.index()),
            it.seq() == s@,
    {
        assert(it.seq().take(it.index() + 1) == it.seq().take(it.index()).push(c));
        r.push(c);
    }
    r
}

pub fn chars_eq(a: &[char], b: &[char]) -> (r: bool)
    ensures
        r == (a@ == b@),
{
    if a.len() != b.len() {
        return false;
    }
    let mut i: usize = 0;
    while i < a.len()
        invariant
            i <= a@.len() == b@.len(),
            a@.take(i as int) == b@.take(i as int),
        decreases a.len() - i,
    {
        if a[i] != b[i] {
            assert(a@[i as int] != b@[i as int]);
            return false;
        }
        assert(a@.take(i + 1) == a@.take(i as int).push(a@[i as int]));
        assert(b@.take(i + 1) == b@.take(i as int).push(b@[i as int]));
        i = i + 1;
    }
    assert(a@.take(i as int) == a@);
    assert(b@.take(i as int) == b@);
    true
}

pub fn split_chars(s: &[char], sep: char) -> (r: Vec<Vec<char>>)
    ensures
        views(r@) == split(s@, sep),
{
    let mut pieces: Vec<Vec<char>> = Vec::new();
    let mut cur: Vec<char> = Vec::new();
    let mut i: usize = 0;
    assert(s@.take(0) == Seq::<char>::empty());
    assert(views(pieces@).push(cur@) == split(s@.take(0), sep));
    while i < s.len()
        invariant
            i <= s@.len(),
            views(pieces@).push(cur@) == split(s@.take(i as int), sep),
        decreases s.len() - i,
    {
        let c = s[i];
        assert(s@.take(i + 1).drop_last() == s@.take(i as int));
        if c == sep {
            let ghost old_pieces = pieces@;
            pieces.push(cur);
            cur = Vec::new();
            assert(views(pieces@) == views(old_pieces).push(pieces@.last()@));
        } else {
            cur.push(c);
        }
        assert(views(pieces@).push(cur@) =~= split(s@.take(i + 1), sep));
        i = i + 1;
    }
    assert(s@.take(i as int) == s@);
    let ghost old_pieces = pieces@;
    pieces.push(cur);
    assert(views(pieces@) =~= views(old_pieces).push(pieces@.last()@));
    pieces
}


/// The text with every double quote removed (`str::replace("\"", "")`).
pub open spec fn unquote(s: Seq<char>) -> Seq<char>
    decreases s.len(),
{
    if s.len() == 0 {
        s
    } else if s.last() == '"' {
        unquote(s.drop_last())
    } else {
        unquote(s.drop_last()).push(s.last())
    }
}

pub fn unquote_chars(s: &[char]) -> (r: Vec<char>)
    ensures
        r@ == unquote(s@),
{
    let mut r: Vec<char> = Vec::new();
    let mut i: usize = 0;
    assert(s@.take(0) == Seq::<char>::empty());
    while i < s.len()
        invariant
            i <= s@.len(),
            r@ == unquote(s@.take(i as int)),
        decreases s.len() - i,
    {
        assert(s@.take(i + 1).drop_last() == s@.take(i as int));
        if s[i] != '"' {
            r.push(s[i]);
        }
        i = i + 1;
    }
    assert(s@.take(i as int) == s@);
    r
}

/// A character that UTF-8 encodes in one byte.
pub open spec fn is_ascii_char(c: char) -> bool {
    c <= '\u{7F}'
}

/// The string that holds exactly the given characters.
///
/// Calls std's `String::from_iter`; the contract claims that the string
/// collected from the characters holds them in order.
#[verifier::external_body]
pub fn string_from_chars(chars: &[char]) -> (s: String)
    ensures
        s@ == chars@,
{
    String::from_iter(chars)
}

/// The texts held by a sequence of strings.
pub open spec fn string_views(v: Seq<String>) -> Seq<Seq<char>> {
    v.map_values(|x: String| x@)
}


/// The marker `---` that opens and closes a metadata block.
pub open spec fn dashes() -> Seq<char> {
    seq!['-', '-', '-']
}

/// `---` starts at index `i` of `s`.
pub open spec fn dashes_at(s: Seq<char>, i: int) -> bool {
    0 <= i && i + 3 <= s.len() && s.subrange(i, i + 3) == dashes()
}

/// The text starts with `---`.
pub open spec fn starts_with_dashes(s: Seq<char>) -> bool {
    dashes_at(s, 0)
}

/// The first index at or after `i` where `---` starts.
pub open spec fn find_dashes_from(s: Seq<char>, i: int) -> Option<int>
    decreases s.len() - i,
{
    if i < 0 || i + 3 > s.len() {
        None
    } else if dashes_at(s, i) {
        Some(i)
    } else {
        find_dashes_from(s, i + 1)
    }
}

/// The first index where `---` starts (`str::find("---")`, counted in
/// characters).
pub open spec fn find_dashes(s: Seq<char>) -> Option<int> {
    find_dashes_from(s, 0)
}

pub fn has_dashes_at(s: &[char], i: usize) -> (r: bool)
    ensures
        r == dashes_at(s@, i as int),
{
    if i <= s.len() && 3 <= s.len() - i {
        let r = s[i] == '-' && s[i + 1] == '-' && s[i + 2] == '-';
        assert(r ==> s@.subrange(i as int, i + 3) =~= dashes());
        assert(s@.subrange(i as int, i + 3) == dashes() ==> s@.subrange(i as int, i + 3)[0] == '-'
            && s@.subrange(i as int, i + 3)[1] == '-' && s@.subrange(i as int, i + 3)[2] == '-');
        r
    } else {
        false
    }
}

pub fn find_dashes_in(s: &[char]) -> (r: Option<usize>)
    ensures
        r matches Some(i) ==> find_dashes(s@) == Some(i as int) && dashes_at(s@, i as int),
        r is None ==> find_dashes(s@) is None,
{
    let mut i: usize = 0;
    while i < s.len()
        invariant
            i <= s@.len(),
            find_dashes(s@) == find_dashes_from(s@, i as int),
        decreases s.len() - i,
    {
        if has_dashes_at(s, i) {
            return Some(i);
        }
        i = i + 1;
    }
    None
}


proof fn lemma_trim_drop_trailing_ws(b: Seq<char>)
    requires
        b.len() > 0,
        is_ws(b.last()),
    ensures
        trim_end(trim_start(b.drop_last())) == trim_end(trim_start(b)),
    decreases b.len(),
{
    if b.len() == 1 {
        assert(b.drop_last().len() == 0);
        assert(b.drop_first().len() == 0);
        assert(b[0] == b.last());
        assert(trim_start(b.drop_first()) == b.drop_first());
        assert(trim_start(b) == b.drop_first());
        assert(trim_start(b.drop_last()) == b.drop_last());
    } else if is_ws(b[0]) {
        assert(b.drop_last()[0] == b[0]);
        assert(b.drop_last().drop_first() == b.drop_first().drop_last());
        lemma_trim_drop_trailing_ws(b.drop_first());
    } else {
        assert(b.drop_last()[0] == b[0]);
        assert(trim_start(b) == b);
        assert(trim_start(b.drop_last()) == b.drop_last());
    }
}

/// Trimming after dropping trailing whitespace is trimming.
pub proof fn lemma_trim_of_trim_end(b: Seq<char>)
    ensures
        trim(trim_end(b)) == trim(b),
    decreases b.len(),
{
    if b.len() > 0 && is_ws(b.last()) {
        lemma_trim_of_trim_end(b.drop_last());
        lemma_trim_drop_trailing_ws(b);
    }
}

/// Trailing whitespace after a text that ends in a non-space is dropped
/// from what follows it alone.
pub proof fn lemma_trim_end_concat(a: Seq<char>, b: Seq<char>)
    requires
        a.len() > 0,
        !is_ws(a.last()),
    ensures
        trim_end(a + b) == a + trim_end(b),
    decreases b.len(),
{
    if b.len() == 0 {
        assert(a + b == a);
        assert(a + trim_end(b) == a);
    } else {
        assert((a + b).last() == b.last());
        assert((a + b).drop_last() == a + b.drop_last());
        lemma_trim_end_concat(a, b.drop_last());
    }
}

pub proof fn lemma_dashes_chars(s: Seq<char>, j: int)
    requires
        dashes_at(s, j),
    ensures
        s[j] == '-' && s[j + 1] == '-' && s[j + 2] == '-',
{
    assert(s.subrange(j, j + 3)[0] == s[j]);
    assert(s.subrange(j, j + 3)[1] == s[j + 1]);
    assert(s.subrange(j, j + 3)[2] == s[j + 2]);
}

/// When `find_dashes_from` finds nothing from `i`, no `---` starts there or later.
pub proof fn lemma_find_none(s: Seq<char>, i: int, j: int)
    requires
        0 <= i <= j,
        find_dashes_from(s, i) is None,
    ensures
        !dashes_at(s, j),
    decreases j - i,
{
    if i + 3 <= s.len() && i < j {
        lemma_find_none(s, i + 1, j);
    }
}

/// The first `---` at or after `i` is the one at `k` when none starts
/// between `i` and `k`.
pub proof fn lemma_find_first(s: Seq<char>, i: int, k: int)
    requires
        0 <= i <= k,
        dashes_at(s, k),
        forall|j: int| i <= j < k ==> !dashes_at(s, j),
    ensures
        find_dashes_from(s, i) == Some(k),
    decreases k - i,
{
    if i < k {
        lemma_find_first(s, i + 1, k);
    }
}

/// A `---` that starts in `a` and ends in `a` is one of `a + b`.
pub proof fn lemma_dashes_prefix(a: Seq<char>, b: Seq<char>, j: int)
    requires
        0 <= j,
        j + 3 <= a.len(),
    ensures
        dashes_at(a + b, j) == dashes_at(a, j),
{
    assert((a + b).subrange(j, j + 3) == a.subrange(j, j + 3));
}


/// Cutting at a separator that joins two texts cuts each of them.
pub proof fn lemma_split_concat(x: Seq<char>, y: Seq<char>, sep: char)
    ensures
        split(x + seq![sep] + y, sep) == split(x, sep) + split(y, sep),
    decreases y.len(),
{
    lemma_split_nonempty(x, sep);
    if y.len() == 0 {
        assert(x + seq![sep] + y == (x + seq![sep]));
        assert((x + seq![sep]).drop_last() == x);
        assert(split(x, sep) + split(y, sep) =~= split(x, sep).push(Seq::<char>::empty()));
    } else {
        let z = x + seq![sep] + y;
        assert(z.drop_last() == x + seq![sep] + y.drop_last());
        assert(z.last() == y.last());
        lemma_split_concat(x, y.drop_last(), sep);
        lemma_split_nonempty(y.drop_last(), sep);
        let p = split(x, sep);
        let q = split(y.drop_last(), sep);
        if y.last() == sep {
            assert((p + q).push(Seq::<char>::empty()) =~= p + q.push(Seq::<char>::empty()));
        } else {
            assert((p + q).update((p + q).len() - 1, (p + q).last().push(y.last())) =~= p + q.update(
                q.len() - 1,
                q.last().push(y.last()),
            ));
        }
    }
}

/// A text without the separator is one piece.
pub proof fn lemma_split_without_sep(y: Seq<char>, sep: char)
    requires
        forall|i: int| 0 <= i < y.len() ==> y[i] != sep,
    ensures
        split(y, sep) == seq![y],
    decreases y.len(),
{
    if y.len() == 0 {
        assert(y =~= Seq::<char>::empty());
    } else {
        let z = y.drop_last();
        assert forall|i: int| 0 <= i < z.len() implies z[i] != sep by {
            assert(z[i] == y[i]);
        }
        lemma_split_without_sep(z, sep);
        assert(y.last() == y[y.len() - 1]);
        assert(z.push(y.last()) =~= y);
        assert(seq![z].update(0, z.push(y.last())) =~= seq![y]);
    }
}

/// Removing quotes from two texts joined removes them from each.
pub proof fn lemma_unquote_concat(a: Seq<char>, b: Seq<char>)
    ensures
        unquote(a + b) == unquote(a) + unquote(b),
    decreases b.len(),
{
    if b.len() == 0 {
        assert(a + b == a);
        assert(unquote(a) + unquote(b) == unquote(a));
    } else {
        assert((a + b).drop_last() == a + b.drop_last());
        assert((a + b).last() == b.last());
        lemma_unquote_concat(a, b.drop_last());
        if b.last() != '"' {
            assert(unquote(a) + unquote(b.drop_last()).push(b.last()) =~= (unquote(a) + unquote(
                b.drop_last(),
            )).push(b.last()));
        }
    }
}

/// A text without double quotes is unchanged by removing them.
pub proof fn lemma_unquote_plain(a: Seq<char>)
    requires
        forall|i: int| 0 <= i < a.len() ==> a[i] != '"',
    ensures
        unquote(a) == a,
    decreases a.len(),
{
    if a.len() > 0 {
        lemma_unquote_plain(a.drop_last());
        assert(a.last() == a[a.len() - 1]);
        assert(a.drop_last().push(a.last()) == a);
    }
}


/// Every character is whitespace.
pub open spec fn ws_only(w: Seq<char>) -> bool {
    forall|i: int| 0 <= i < w.len() ==> is_ws(#[trigger] w[i])
}

pub proof fn lemma_trim_start_ws(w: Seq<char>)
    requires
        ws_only(w),
    ensures
        trim_start(w) == Seq::<char>::empty(),
    decreases w.len(),
{
    if w.len() > 0 {
        assert(is_ws(w[0]));
        assert forall|i: int| 0 <= i < w.drop_first().len() implies is_ws(
            #[trigger] w.drop_first()[i],
        ) by {
            assert(is_ws(w[i + 1]));
        }
        lemma_trim_start_ws(w.drop_first());
    } else {
        assert(w =~= Seq::<char>::empty());
    }
}

/// Leading whitespace of a joined text: that of the first part, unless the
/// first part is all whitespace.
pub proof fn lemma_trim_start_concat(p: Seq<char>, q: Seq<char>)
    ensures
        trim_start(p + q) == if trim_start(p).len() > 0 {
            trim_start(p) + q
        } else {
            trim_start(q)
        },
    decreases p.len(),
{
    if p.len() == 0 {
        assert(p + q == q);
    } else {
        assert((p + q)[0] == p[0]);
        if is_ws(p[0]) {
            assert((p + q).drop_first() == p.drop_first() + q);
            lemma_trim_start_concat(p.drop_first(), q);
        }
    }
}

proof fn lemma_trim_end_ws(x: Seq<char>, w: Seq<char>)
    requires
        ws_only(w),
    ensures
        trim_end(x + w) == trim_end(x),
    decreases w.len(),
{
    if w.len() == 0 {
        assert(x + w == x);
    } else {
        assert((x + w).last() == w.last());
        assert(is_ws(w[w.len() - 1]));
        assert((x + w).drop_last() == x + w.drop_last());
        assert forall|i: int| 0 <= i < w.drop_last().len() implies is_ws(
            #[trigger] w.drop_last()[i],
        ) by {
            assert(is_ws(w[i]));
        }
        lemma_trim_end_ws(x, w.drop_last());
    }
}

/// Whitespace added around a text is trimmed away.
pub proof fn lemma_trim_padded(w1: Seq<char>, x: Seq<char>, w2: Seq<char>)
    requires
        ws_only(w1),
        ws_only(w2),
    ensures
        trim(w1 + x + w2) == trim(x),
{
    lemma_trim_start_ws(w1);
    assert(w1 + x + w2 == w1 + (x + w2));
    lemma_trim_start_concat(w1, x + w2);
    lemma_trim_start_concat(x, w2);
    if trim_start(x).len() > 0 {
        lemma_trim_end_ws(trim_start(x), w2);
    } else {
        lemma_trim_start_ws(w2);
    }
}

proof fn lemma_trim_start_skip(s: Seq<char>)
    ensures
        trim_start(s).len() <= s.len(),
        trim_start(s) == s.skip(s.len() - trim_start(s).len()),
        ws_only(s.take(s.len() - trim_start(s).len())),
    decreases s.len(),
{
    if s.len() > 0 && is_ws(s[0]) {
        let t = s.drop_first();
        lemma_trim_start_skip(t);
        let k = t.len() - trim_start(t).len();
        assert(t.skip(k) == s.skip(k + 1));
        assert forall|i: int| 0 <= i < k + 1 implies is_ws(#[trigger] s.take(k + 1)[i]) by {
            if i > 0 {
                assert(s.take(k + 1)[i] == t.take(k)[i - 1]);
            }
        }
    } else {
        assert(s.skip(0) == s);
    }
}

pub proof fn lemma_trim_end_prefix(s: Seq<char>)
    ensures
        trim_end(s).len() <= s.len(),
        trim_end(s) == s.take(trim_end(s).len() as int),
{
    lemma_trim_end_take(s);
}

proof fn lemma_trim_end_take(s: Seq<char>)
    ensures
        trim_end(s).len() <= s.len(),
        trim_end(s) == s.take(trim_end(s).len() as int),
        ws_only(s.skip(trim_end(s).len() as int)),
    decreases s.len(),
{
    if s.len() > 0 && is_ws(s.last()) {
        let t = s.drop_last();
        lemma_trim_end_take(t);
        let m = trim_end(t).len() as int;
        assert(t.take(m) == s.take(m));
        assert forall|i: int| 0 <= i < s.len() - m implies is_ws(#[trigger] s.skip(m)[i]) by {
            if i < t.len() - m {
                assert(s.skip(m)[i] == t.skip(m)[i]);
            } else {
                assert(s.skip(m)[i] == s.last());
            }
        }
    } else {
        assert(s.take(s.len() as int) == s);
    }
}

/// A text is its trimmed text with whitespace around it.
pub proof fn lemma_trim_decompose(s: Seq<char>) -> (r: (Seq<char>, Seq<char>))
    ensures
        ws_only(r.0),
        ws_only(r.1),
        s == r.0 + trim(s) + r.1,
{
    lemma_trim_start_skip(s);
    let k = s.len() - trim_start(s).len();
    let u = trim_start(s);
    lemma_trim_end_take(u);
    let m = trim_end(u).len() as int;
    assert(s == s.take(k) + trim(s) + u.skip(m));
    (s.take(k), u.skip(m))
}

/// Whitespace added at the end of a text lands in its last piece.
pub proof fn lemma_split_append_ws(x: Seq<char>, w: Seq<char>, sep: char)
    requires
        ws_only(w),
        !is_ws(sep),
    ensures
        split(x + w, sep) == split(x, sep).update(
            split(x, sep).len() - 1,
            split(x, sep).last() + w,
        ),
    decreases w.len(),
{
    lemma_split_nonempty(x, sep);
    let q = split(x, sep);
    if w.len() == 0 {
        assert(x + w == x);
        assert(q.update(q.len() - 1, q.last() + w) =~= q);
    } else {
        let w0 = w.drop_last();
        assert forall|i: int| 0 <= i < w0.len() implies is_ws(#[trigger] w0[i]) by {
            assert(is_ws(w[i]));
        }
        lemma_split_append_ws(x, w0, sep);
        assert(is_ws(w[w.len() - 1]));
        assert((x + w).drop_last() == x + w0);
        assert((x + w).last() == w.last());
        assert((q.last() + w0).push(w.last()) =~= q.last() + w);
        assert(q.update(q.len() - 1, q.last() + w0).update(q.len() - 1, (q.last() + w0).push(w.last()))
            =~= q.update(q.len() - 1, q.last() + w));
    }
}

/// Whitespace added at the start of a text lands in its first piece.
pub proof fn lemma_split_prepend_ws(w: Seq<char>, x: Seq<char>, sep: char)
    requires
        ws_only(w),
        !is_ws(sep),
    ensures
        split(w + x, sep) == split(x, sep).update(0, w + split(x, sep)[0]),
    decreases x.len(),
{
    lemma_split_nonempty(x, sep);
    if x.len() == 0 {
        assert(w + x == w);
        assert forall|i: int| 0 <= i < w.len() implies w[i] != sep by {
            assert(is_ws(w[i]));
        }
        lemma_split_without_sep(w, sep);
        assert(split(x, sep).update(0, w + split(x, sep)[0]) =~= seq![w]);
    } else {
        let x0 = x.drop_last();
        lemma_split_prepend_ws(w, x0, sep);
        lemma_split_nonempty(x0, sep);
        let q = split(x0, sep);
        assert((w + x).drop_last() == w + x0);
        assert((w + x).last() == x.last());
        let p = q.update(0, w + q[0]);
        if x.last() == sep {
            assert(p.push(Seq::<char>::empty()) =~= q.push(Seq::<char>::empty()).update(0, w + q[0]));
        } else {
            let c = x.last();
            if q.len() == 1 {
                assert((w + q[0]).push(c) =~= w + q[0].push(c));
                assert(p.update(p.len() - 1, p.last().push(c)) =~= q.update(
                    q.len() - 1,
                    q.last().push(c),
                ).update(0, w + q.update(q.len() - 1, q.last().push(c))[0]));
            } else {
                assert(p.update(p.len() - 1, p.last().push(c)) =~= q.update(
                    q.len() - 1,
                    q.last().push(c),
                ).update(0, w + q.update(q.len() - 1, q.last().push(c))[0]));
            }
        }
    }
}


/// What `find_dashes_from` finds is the first `---` at or after `i`.
pub proof fn lemma_find_some(s: Seq<char>, i: int, k: int)
    requires
        find_dashes_from(s, i) == Some(k),
    ensures
        0 <= i <= k,
        dashes_at(s, k),
        forall|j: int| i <= j < k ==> !dashes_at(s, j),
    decreases s.len() - i,
{
    if !dashes_at(s, i) {
        lemma_find_some(s, i + 1, k);
    }
}

/// A text that starts and ends with non-whitespace is its own trimmed text.
pub proof fn lemma_trim_fixed(s: Seq<char>)
    requires
        s.len() > 0,
        !is_ws(s[0]),
        !is_ws(s.last()),
    ensures
        trim(s) == s,
{
    assert(trim_start(s) == s);
}

/// `---` starts at `j` of the text after its first `n` characters exactly
/// when it starts at `j + n` of the text.
pub proof fn lemma_dashes_skip(s: Seq<char>, n: int, j: int)
    requires
        0 <= n <= s.len(),
        0 <= j,
    ensures
        dashes_at(s.skip(n), j) == dashes_at(s, j + n),
{
    if j + 3 <= s.len() - n {
        assert(s.skip(n).subrange(j, j + 3) == s.subrange(j + n, j + n + 3));
    }
}


/// Removing quotes leaves no quote, keeps every other character in order,
/// and removes a lone quote entirely.
pub proof fn lemma_unquote_removes(s: Seq<char>)
    ensures
        forall|i: int| 0 <= i < unquote(s).len() ==> unquote(s)[i] != '"',
        unquote(seq!['"']) == Seq::<char>::empty(),
        unquote(unquote(s)) == unquote(s),
    decreases s.len(),
{
    let e = Seq::<char>::empty();
    assert(unquote(e) == e);
    assert(seq!['"'].drop_last() == e);
    assert(seq!['"'].last() == '"');
    if s.len() > 0 {
        lemma_unquote_removes(s.drop_last());
        let u = unquote(s.drop_last());
        if s.last() != '"' {
            assert forall|i: int| 0 <= i < unquote(s).len() implies unquote(s)[i] != '"' by {
                if i < u.len() {
                    assert(unquote(s)[i] == u[i]);
                }
            }
        }
    }
    lemma_unquote_plain_of(unquote(s));
}

proof fn lemma_unquote_plain_of(s: Seq<char>)
    requires
        forall|i: int| 0 <= i < s.len() ==> s[i] != '"',
    ensures
        unquote(s) == s,
{
    lemma_unquote_plain(s);
}

/// Removing quotes and then cutting at a separator other than a quote is
/// cutting and then removing quotes from each piece.
pub proof fn lemma_split_unquote(x: Seq<char>, sep: char)
    requires
        sep != '"',
    ensures
        split(unquote(x), sep) == split(x, sep).map_values(|p: Seq<char>| unquote(p)),
    decreases x.len(),
{
    let e = Seq::<char>::empty();
    if x.len() == 0 {
        assert(unquote(x) == x);
        assert(unquote(e) == e);
        assert(split(x, sep).map_values(|p: Seq<char>| unquote(p)) =~= seq![e]);
    } else {
        let x0 = x.drop_last();
        let c = x.last();
        lemma_split_unquote(x0, sep);
        lemma_split_nonempty(x0, sep);
        let q = split(x0, sep);
        if c == '"' {
            assert(unquote(x) == unquote(x0));
            assert(q.last().push(c).drop_last() == q.last());
            assert(q.last().push(c).last() == c);
            assert(unquote(q.last().push(c)) == unquote(q.last()));
            assert(split(x, sep).map_values(|p: Seq<char>| unquote(p)) =~= q.map_values(
                |p: Seq<char>| unquote(p),
            ));
        } else {
            assert(unquote(x) == unquote(x0).push(c));
            assert(unquote(x).drop_last() == unquote(x0));
            assert(unquote(x).last() == c);
            assert(unquote(e) == e);
            if c == sep {
                assert(split(x, sep).map_values(|p: Seq<char>| unquote(p)) =~= q.map_values(
                    |p: Seq<char>| unquote(p),
                ).push(e));
            } else {
                assert(q.last().push(c).drop_last() == q.last());
                assert(q.last().push(c).last() == c);
                assert(unquote(q.last().push(c)) == unquote(q.last()).push(c));
                assert(split(x, sep).map_values(|p: Seq<char>| unquote(p)) =~= q.map_values(
                    |p: Seq<char>| unquote(p),
                ).update(q.len() - 1, unquote(q.last()).push(c)));
            }
        }
    }
}

} // verus!
