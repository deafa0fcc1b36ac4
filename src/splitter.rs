//! Splitting of delimited symbol names into fields, where a field may be
//! double quoted and then carries backslash escapes.

use vstd::prelude::*;
use vstd::string::*;

verus! {

/// The `unescaper` crate's error, carried through unread.
#[verifier::external_type_specification]
#[verifier::external_body]
pub struct ExUnescapeError(unescaper::Error);

/// What unescaping a text yields: the unescaped text, or `None` where an
/// escape sequence is malformed.
pub uninterp spec fn unescape_of(s: Seq<char>) -> Option<Seq<char>>;

/// Relies on `unescaper::unescape`: its result is a function of the input
/// alone, and a text without a backslash is copied unchanged.
#[verifier::external_body]
fn unescape_text(s: &str) -> (r: Result<String, unescaper::Error>)
    ensures
        r is Ok <==> unescape_of(s@) is Some,
        r is Ok ==> r->Ok_0@ == unescape_of(s@)->Some_0,
        !s@.contains('\\') ==> r is Ok && r->Ok_0@ == s@,
{
    unescaper::unescape(s)
}

/// Why a symbol name could not be split.
#[derive(Debug)]
pub enum SplitSegmentError {
    /// The delimiter is not an ASCII character.
    NonAsciiDelim,
    /// A quoted field has no closing quote.
    UnbalancedQuotes,
    /// A closing quote is followed by something other than the delimiter.
    PartiallyQuotedField,
    /// A quoted field holds a malformed escape sequence.
    UnescapeError { source: unescaper::Error },
}

/// The kinds of [`SplitSegmentError`], without their payload.
#[derive(Debug, Clone, Copy, PartialEq, Eq, Structural)]
pub enum SplitErrorKind {
    NonAsciiDelim,
    UnbalancedQuotes,
    PartiallyQuotedField,
    UnescapeError,
}

impl SplitSegmentError {
    pub open spec fn kind(&self) -> SplitErrorKind {
        match self {
            SplitSegmentError::NonAsciiDelim => SplitErrorKind::NonAsciiDelim,
            SplitSegmentError::UnbalancedQuotes => SplitErrorKind::UnbalancedQuotes,
            SplitSegmentError::PartiallyQuotedField => SplitErrorKind::PartiallyQuotedField,
            SplitSegmentError::UnescapeError { .. } => SplitErrorKind::UnescapeError,
        }
    }
}

pub open spec fn is_ascii_char(c: char) -> bool {
    (c as u32) < 128
}

/// Number of consecutive backslashes that end just before index `i`,
/// not counting index 0 (which opens a quoted field).
pub open spec fn backslash_run(s: Seq<char>, i: int) -> nat
    decreases i,
{
    if 1 < i && i <= s.len() && s[i - 1] == '\\' {
        1 + backslash_run(s, i - 1)
    } else {
        0
    }
}

/// A quote that is preceded by an even number of backslashes.
pub open spec fn is_closing_quote(s: Seq<char>, q: int) -> bool {
    0 <= q < s.len() && s[q] == '"' && backslash_run(s, q) % 2 == 0
}

/// The first closing quote at or after `i`.
pub open spec fn closing_quote_from(s: Seq<char>, i: int) -> Option<int>
    decreases s.len() - i,
{
    if i < 0 || i >= s.len() {
        None
    } else if is_closing_quote(s, i) {
        Some(i)
    } else {
        closing_quote_from(s, i + 1)
    }
}

/// The first index at or after `i` that holds `d`, or the length.
pub open spec fn next_delim(s: Seq<char>, d: char, i: int) -> int
    decreases s.len() - i,
{
    if i < 0 || i >= s.len() {
        s.len() as int
    } else if s[i] == d {
        i
    } else {
        next_delim(s, d, i + 1)
    }
}

/// One field split off the front of `s`, and what follows its delimiter
/// (`None` where the field was the last one).
pub open spec fn split_once_spec(s: Seq<char>, d: char) -> Result<
    (Seq<char>, Option<Seq<char>>),
    SplitErrorKind,
> {
    if !is_ascii_char(d) {
        Err(SplitErrorKind::NonAsciiDelim)
    } else if s.len() == 0 {
        Ok((Seq::empty(), None))
    } else if s[0] != '"' {
        let end = next_delim(s, d, 0);
        let rest = if end == s.len() {
            None
        } else {
            Some(s.subrange(end + 1, s.len() as int))
        };
        Ok((s.subrange(0, end), rest))
    } else {
        match closing_quote_from(s, 1) {
            None => Err(SplitErrorKind::UnbalancedQuotes),
            Some(q) => if q + 1 < s.len() && s[q + 1] != d {
                Err(SplitErrorKind::PartiallyQuotedField)
            } else {
                match unescape_of(s.subrange(1, q)) {
                    None => Err(SplitErrorKind::UnescapeError),
                    Some(v) => {
                        let rest = if q + 1 == s.len() {
                            None
                        } else {
                            Some(s.subrange(q + 2, s.len() as int))
                        };
                        Ok((v, rest))
                    },
                }
            },
        }
    }
}

/// All fields of `s`, split on `d`.
pub open spec fn split_spec(s: Seq<char>, d: char) -> Result<Seq<Seq<char>>, SplitErrorKind>
    decreases s.len(),
{
    match split_once_spec(s, d) {
        Err(e) => Err(e),
        Ok((field, None)) => Ok(seq![field]),
        Ok((field, Some(rest))) => if rest.len() < s.len() {
            match split_spec(rest, d) {
                Err(e) => Err(e),
                Ok(fields) => Ok(seq![field] + fields),
            }
        } else {
            Ok(seq![field])
        },
    }
}

proof fn lemma_next_delim_bounds(s: Seq<char>, d: char, i: int)
    requires
        0 <= i <= s.len(),
    ensures
        i <= next_delim(s, d, i) <= s.len(),
        next_delim(s, d, i) < s.len() ==> s[next_delim(s, d, i)] == d,
    decreases s.len() - i,
{
    if i < s.len() && s[i] != d {
        lemma_next_delim_bounds(s, d, i + 1);
    }
}

proof fn lemma_closing_quote_bounds(s: Seq<char>, i: int)
    requires
        0 <= i,
    ensures
        closing_quote_from(s, i) matches Some(q) ==> i <= q < s.len() && is_closing_quote(s, q),
    decreases s.len() - i,
{
    if i < s.len() && !is_closing_quote(s, i) {
        lemma_closing_quote_bounds(s, i + 1);
    }
}

/// Finds the first closing quote of `s` at or after `start`.
fn find_closing_quote(s: &str, start: usize) -> (r: Option<usize>)
    requires
        1 <= start,
    ensures
        r matches Some(q) ==> closing_quote_from(s@, start as int) == Some(q as int),
        r is None ==> closing_quote_from(s@, start as int) is None,
{
    let n = s.unicode_len();
    let mut q = start;
    while q < n
        invariant
            1 <= start <= q,
            n == s@.len(),
            closing_quote_from(s@, start as int) == closing_quote_from(s@, q as int),
        decreases n - q,
    {
        if s.get_char(q) == '"' {
            let mut i = q;
            let mut escaped = false;
            while i > 1 && s.get_char(i - 1) == '\\'
                invariant
                    1 <= i <= q < n,
                    n == s@.len(),
                    backslash_run(s@, q as int) == (q - i) + backslash_run(s@, i as int),
                    escaped == ((q - i) % 2 == 1),
                decreases i,
            {
                escaped = !escaped;
                i -= 1;
            }
            assert(backslash_run(s@, i as int) == 0);
            if !escaped {
                return Some(q);
            }
        }
        q += 1;
    }
    None
}

pub open spec fn opt_str_view(o: Option<&str>) -> Option<Seq<char>> {
    match o {
        Some(x) => Some(x@),
        None => None,
    }
}

proof fn lemma_split_once_shrinks(s: Seq<char>, d: char)
    ensures
        split_once_spec(s, d) matches Ok((_, Some(rest))) ==> rest.len() < s.len(),
{
    if s.len() > 0 {
        lemma_next_delim_bounds(s, d, 0);
        lemma_closing_quote_bounds(s, 1);
    }
}

/// Splits one field off the front of `string`. The second component is what
/// follows the field's delimiter, or `None` where the field ran to the end.
/// A quoted field comes back unescaped and without its quotes.
pub fn split_segment_once<'a>(string: &'a str, delim: char) -> (r: Result<
    (String, Option<&'a str>),
    SplitSegmentError,
>)
    ensures
        r matches Ok((field, rest)) ==> split_once_spec(string@, delim) == Ok::<
            (Seq<char>, Option<Seq<char>>),
            SplitErrorKind,
        >((field@, opt_str_view(rest))),
        r matches Err(e) ==> split_once_spec(string@, delim) == Err::<
            (Seq<char>, Option<Seq<char>>),
            SplitErrorKind,
        >(e.kind()),
{
    if (delim as u32) >= 128 {
        return Err(SplitSegmentError::NonAsciiDelim);
    }
    let n = string.unicode_len();
    if n == 0 {
        return Ok((String::new(), None));
    }
    if string.get_char(0) != '"' {
        let mut end: usize = 0;
        while end < n && string.get_char(end) != delim
            invariant
                end <= n,
                n == string@.len(),
                next_delim(string@, delim, 0) == next_delim(string@, delim, end as int),
            decreases n - end,
        {
            end += 1;
        }
        let field = string.substring_char(0, end).to_owned();
        let rest = if end == n {
            None
        } else {
            Some(string.substring_char(end + 1, n))
        };
        Ok((field, rest))
    } else {
        let q = match find_closing_quote(string, 1) {
            None => {
                return Err(SplitSegmentError::UnbalancedQuotes);
            },
            Some(q) => q,
        };
        proof {
            lemma_closing_quote_bounds(string@, 1);
        }
        if q + 1 < n && string.get_char(q + 1) != delim {
            return Err(SplitSegmentError::PartiallyQuotedField);
        }
        let inner = string.substring_char(1, q);
        let rest = if q + 1 == n {
            None
        } else {
            Some(string.substring_char(q + 2, n))
        };
        match unescape_text(inner) {
            Ok(field) => Ok((field, rest)),
            Err(e) => Err(SplitSegmentError::UnescapeError { source: e }),
        }
    }
}

/// Splits `string` on `delim` into all of its fields, in order. The empty
/// string is one empty field, and a trailing delimiter gives a trailing empty
/// field.
pub fn split_segments(string: &str, delim: char) -> (r: Result<Vec<String>, SplitSegmentError>)
    ensures
        r matches Ok(fields) ==> split_spec(string@, delim) == Ok::<
            Seq<Seq<char>>,
            SplitErrorKind,
        >(fields.deep_view()),
        r matches Err(e) ==> split_spec(string@, delim) == Err::<Seq<Seq<char>>, SplitErrorKind>(
            e.kind(),
        ),
{
    let mut cur: Option<&str> = Some(string);
    let mut result: Vec<String> = Vec::new();
    while cur.is_some()
        invariant
            cur matches Some(c) ==> split_spec(string@, delim) == match split_spec(c@, delim) {
                Ok(f) => Ok(result.deep_view() + f),
                Err(e) => Err(e),
            },
            cur is None ==> split_spec(string@, delim) == Ok::<Seq<Seq<char>>, SplitErrorKind>(
                result.deep_view(),
            ),
        decreases
                match cur {
                    Some(c) => c@.len() + 1,
                    None => 0,
                },
    {
        let c = cur.unwrap();
        proof {
            lemma_split_once_shrinks(c@, delim);
        }
        let (field, rest) = split_segment_once(c, delim)?;
        let ghost before = result.deep_view();
        result.push(field);
        proof {
            assert(result.deep_view() =~= before.push(field@));
            match rest {
                Some(r) => {
                    match split_spec(r@, delim) {
                        Ok(f) => {
                            assert(result.deep_view() + f =~= before + (seq![field@] + f));
                        },
                        Err(_) => {},
                    }
                },
                None => {
                    assert(result.deep_view() =~= before + seq![field@]);
                },
            }
        }
        cur = rest;
    }
    Ok(result)
}

} // verus!
