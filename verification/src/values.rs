//! Reading boot config values: one value, and a comma-separated list of them.

use crate::error::{completes, result_view, BootConfigError, ErrorView};
use crate::text::{
    byte_slice, char_index_at_byte, char_is_whitespace, chars_of, find_char_index_at_byte,
    is_white_space, string_of, trim, trim_bounds,
};
use crate::validate::{check_value, is_valid_value};
use vstd::prelude::*;

verus! {

/// A quote character: `'` or `"`.
pub open spec fn is_quote(c: char) -> bool {
    c == '\'' || c == '"'
}

/// The characters that only a quoted value may hold.
pub open spec fn needs_quotes(c: char) -> bool {
    c == '\'' || c == '"' || c == '\n' || c == ',' || c == ';' || c == '#' || c == '}'
}

/// `t` starts and ends with the same kind of quote, two quote characters at
/// least.
pub open spec fn is_quoted(t: Seq<char>) -> bool {
    &&& t.len() >= 2
    &&& ((t[0] == '"' && t.last() == '"') || (t[0] == '\'' && t.last() == '\''))
}

/// Every character of `t` is ASCII, and, unless `t` is quoted, none needs quotes.
pub open spec fn value_chars_allowed(t: Seq<char>) -> bool {
    forall|i: int|
        0 <= i < t.len() ==> #[trigger] t[i] <= '\x7f' && (is_quoted(t) || !needs_quotes(t[i]))
}

/// The value that `input` denotes: the text trimmed, with its quotes removed
/// if it is quoted; refused if a character is not allowed (a lone quote is
/// not a quoted value, so it is refused too), or if the value is not a boot
/// config value.
pub open spec fn spec_parse_value(input: Seq<char>) -> Result<Seq<char>, ErrorView> {
    let t = trim(input);
    if !value_chars_allowed(t) {
        Err(ErrorView::InvalidBootConfigValue(t))
    } else {
        let s = if is_quoted(t) {
            t.subrange(1, t.len() - 1)
        } else {
            t
        };
        if is_valid_value(s) {
            Ok(s)
        } else {
            Err(ErrorView::ParseBootConfigValue(s))
        }
    }
}

fn needs_quotes_char(c: char) -> (r: bool)
    ensures
        r == needs_quotes(c),
{
    c == '\'' || c == '"' || c == '\n' || c == ',' || c == ';' || c == '#' || c == '}'
}

/// Reads the value that `s[lo..hi]` denotes.
pub fn parse_value_at(s: &Vec<char>, lo: usize, hi: usize) -> (r: Result<String, BootConfigError>)
    requires
        lo <= hi <= s.len(),
    ensures
        result_view(r) == spec_parse_value(s@.subrange(lo as int, hi as int)),
{
    let (a, b) = trim_bounds(s, lo, hi);
    let ghost t = s@.subrange(a as int, b as int);
    let quoted = b - a >= 2 && ((s[a] == '"' && s[b - 1] == '"') || (s[a] == '\'' && s[b - 1]
        == '\''));
    assert(quoted == is_quoted(t));
    let mut i = a;
    while i < b
        invariant
            a <= i <= b <= s.len(),
            t == s@.subrange(a as int, b as int),
            t == trim(s@.subrange(lo as int, hi as int)),
            quoted == is_quoted(t),
            forall|j: int|
                a <= j < i ==> #[trigger] s@[j] <= '\x7f' && (quoted || !needs_quotes(s@[j])),
        decreases b - i,
    {
        let c = s[i];
        if !(c <= '\x7f' && (quoted || !needs_quotes_char(c))) {
            assert(t[i - a] == c);
            assert(!value_chars_allowed(t));
            return Err(BootConfigError::InvalidBootConfigValue { input: string_of(s, a, b) });
        }
        i = i + 1;
    }
    assert forall|j: int| 0 <= j < t.len() implies #[trigger] t[j] <= '\x7f' && (is_quoted(t)
        || !needs_quotes(t[j])) by {
        assert(t[j] == s@[a + j]);
    }
    let (x, y) = if quoted {
        (a + 1, b - 1)
    } else {
        (a, b)
    };
    assert(s@.subrange(x as int, y as int) =~= (if is_quoted(t) {
        t.subrange(1, t.len() - 1)
    } else {
        t
    }));
    if check_value(s, x, y) {
        Ok(string_of(s, x, y))
    } else {
        Err(BootConfigError::ParseBootConfigValue { input: string_of(s, x, y) })
    }
}

/// Reads the value that `input` denotes (what `spec_parse_value` says).
pub fn parse_value(input: &str) -> (r: Result<String, BootConfigError>)
    ensures
        result_view(r) == spec_parse_value(input@),
{
    let s = chars_of(input);
    assert(s@.subrange(0, s@.len() as int) =~= input@);
    parse_value_at(&s, 0, s.len())
}

/// Where the reading of a value list stands after some characters: the open
/// quote, if any; whether a delimiter must come next; the index where the
/// current element starts; the elements read so far.
pub struct ScanState {
    pub quote: Option<char>,
    pub expect_delimiter: bool,
    pub start: int,
    pub elements: Seq<Seq<char>>,
}

/// The state before any character is read.
pub open spec fn scan_start() -> ScanState {
    ScanState { quote: None, expect_delimiter: false, start: 0, elements: Seq::empty() }
}

/// Reads character `c`, at index `i` of the trimmed list `t`, into `st`.
/// After a closing quote only white space or a comma may come. A quote opens
/// a quoted stretch, which only the same kind of quote closes. A comma
/// outside quotes ends an element: the element is `input` (the list as
/// given, not trimmed) sliced from `start` to `i`, these indices being taken
/// as UTF-8 byte offsets into `input`, and it is read as a value. For a list
/// given trimmed, of ASCII characters, the offsets are the positions in `t`.
pub open spec fn scan_step(input: Seq<char>, t: Seq<char>, st: ScanState, i: int, c: char) -> Result<
    ScanState,
    ErrorView,
> {
    if st.expect_delimiter && !is_white_space(c) && c != ',' {
        Err(ErrorView::ExpectedArrayComma(input))
    } else if is_quote(c) {
        match st.quote {
            Some(q) => if q == c {
                Ok(ScanState { quote: None, expect_delimiter: true, ..st })
            } else {
                Ok(st)
            },
            None => Ok(ScanState { quote: Some(c), ..st }),
        }
    } else if c == ',' && st.quote is None {
        match byte_slice(input, st.start, i) {
            None => Err(ErrorView::SliceInsideCharacter),
            Some(piece) => match spec_parse_value(piece) {
                Err(err) => Err(err),
                Ok(v) => Ok(
                    ScanState {
                        quote: st.quote,
                        expect_delimiter: false,
                        start: i + 1,
                        elements: st.elements.push(v),
                    },
                ),
            },
        }
    } else {
        Ok(st)
    }
}

/// After the last character: an open quote is an error; `input` sliced from
/// byte offset `start` to its end is the last element, unless it is empty or
/// a lone comma.
pub open spec fn scan_finish(input: Seq<char>, t: Seq<char>, st: ScanState) -> Result<
    Seq<Seq<char>>,
    ErrorView,
> {
    if st.quote is Some {
        Err(ErrorView::UnbalancedQuotes(input))
    } else {
        match char_index_at_byte(input, st.start) {
            None => Err(ErrorView::SliceInsideCharacter),
            Some(a) => {
                let rest = input.subrange(a, input.len() as int);
                let last = if rest == seq![','] {
                    Seq::<char>::empty()
                } else {
                    rest
                };
                if last.len() == 0 {
                    Ok(st.elements)
                } else {
                    match spec_parse_value(last) {
                        Err(err) => Err(err),
                        Ok(v) => Ok(st.elements.push(v)),
                    }
                }
            },
        }
    }
}

/// Reads the characters of `t` from index `k` on, from state `st`.
pub open spec fn scan_from(input: Seq<char>, t: Seq<char>, k: int, st: ScanState) -> Result<
    Seq<Seq<char>>,
    ErrorView,
>
    decreases t.len() - k,
{
    if k < 0 || k >= t.len() {
        scan_finish(input, t, st)
    } else {
        match scan_step(input, t, st, k, t[k]) {
            Err(err) => Err(err),
            Ok(next) => scan_from(input, t, k + 1, next),
        }
    }
}

/// The values of the comma-separated list `input`, once trimmed; quoted
/// values may hold commas.
#[verifier::opaque]
pub open spec fn spec_parse_values(input: Seq<char>) -> Result<Seq<Seq<char>>, ErrorView> {
    scan_from(input, trim(input), 0, scan_start())
}

/// The view of an executable list of values.
pub open spec fn values_view(r: Result<Vec<String>, BootConfigError>) -> Result<
    Seq<Seq<char>>,
    ErrorView,
> {
    match r {
        Ok(v) => Ok(v.deep_view()),
        Err(e) => Err(e@),
    }
}

/// The view of an executable list of values that is `None` where the
/// reading stopped at a slice inside a character.
pub open spec fn opt_values_view(r: Option<Result<Vec<String>, BootConfigError>>) -> Result<
    Seq<Seq<char>>,
    ErrorView,
> {
    match r {
        Some(r) => values_view(r),
        None => Err(ErrorView::SliceInsideCharacter),
    }
}

/// Reads the list of values that the characters `input` form; `None` where
/// the reading would slice `input` inside a character.
pub fn parse_values_in(input: &Vec<char>) -> (r: Option<Result<Vec<String>, BootConfigError>>)
    ensures
        opt_values_view(r) == spec_parse_values(input@),
{
    let n = input.len();
    let (a, b) = trim_bounds(input, 0, n);
    assert(input@.subrange(0, n as int) =~= input@);
    let ghost t = input@.subrange(a as int, b as int);
    let mut quote: Option<char> = None;
    let mut expect_delimiter = false;
    let mut start: usize = 0;
    let mut elements: Vec<String> = Vec::new();
    let mut k: usize = 0;
    assert(elements.deep_view() =~= Seq::<Seq<char>>::empty());
    reveal(spec_parse_values);
    while k < b - a
        invariant
            a <= b <= n == input.len(),
            input@.subrange(0, n as int) == input@,
            t == input@.subrange(a as int, b as int),
            t == trim(input@),
            start <= k <= b - a,
            spec_parse_values(input@) == scan_from(
                input@,
                t,
                k as int,
                ScanState {
                    quote: quote,
                    expect_delimiter: expect_delimiter,
                    start: start as int,
                    elements: elements.deep_view(),
                },
            ),
        decreases b - a - k,
    {
        let c = input[a + k];
        assert(t[k as int] == c);
        if expect_delimiter && !char_is_whitespace(c) && c != ',' {
            return Some(
                Err(BootConfigError::ExpectedArrayComma { input: string_of(input, 0, n) }),
            );
        }
        if c == '\'' || c == '"' {
            match quote {
                Some(q) => {
                    if q == c {
                        quote = None;
                        expect_delimiter = true;
                    }
                },
                None => {
                    quote = Some(c);
                },
            }
        } else if c == ',' && quote.is_none() {
            // The element is `input[start..k]`, the two taken as byte offsets.
            let (x, y) = match (find_char_index_at_byte(input, start), find_char_index_at_byte(input, k)) {
                (Some(x), Some(y)) => if x <= y {
                    (x, y)
                } else {
                    return None;
                },
                _ => {
                    return None;
                },
            };
            match parse_value_at(input, x, y) {
                Err(e) => {
                    return Some(Err(e));
                },
                Ok(v) => {
                    let ghost old_elements = elements.deep_view();
                    elements.push(v);
                    assert(elements.deep_view() =~= old_elements.push(v@));
                    start = k + 1;
                    expect_delimiter = false;
                },
            }
        }
        k = k + 1;
    }
    if quote.is_some() {
        return Some(Err(BootConfigError::UnbalancedQuotes { input: string_of(input, 0, n) }));
    }
    let x = match find_char_index_at_byte(input, start) {
        Some(x) => x,
        None => {
            return None;
        },
    };
    if n - x == 1 && input[x] == ',' {
        assert(input@.subrange(x as int, n as int) =~= seq![',']);
        return Some(Ok(elements));
    }
    assert(input@.subrange(x as int, n as int) != seq![',']) by {
        if n - x == 1 {
            assert(input@.subrange(x as int, n as int)[0] != seq![','][0]);
        } else {
            assert(input@.subrange(x as int, n as int).len() != seq![','].len());
        }
    }
    if x == n {
        return Some(Ok(elements));
    }
    match parse_value_at(input, x, n) {
        Err(e) => Some(Err(e)),
        Ok(v) => {
            let ghost old_elements = elements.deep_view();
            elements.push(v);
            assert(elements.deep_view() =~= old_elements.push(v@));
            Some(Ok(elements))
        },
    }
}

/// Reads the comma-separated list of values `input`. Elements are cut at
/// byte offsets (see `scan_step`); an input on which such a cut falls inside
/// a character is left out (`try_parse_boot_config_values` reports it).
pub fn parse_boot_config_values(input: &str) -> (r: Result<Vec<String>, BootConfigError>)
    requires
        completes(spec_parse_values(input@)),
    ensures
        values_view(r) == spec_parse_values(input@),
{
    match try_parse_boot_config_values(input) {
        Some(r) => r,
        None => {
            assert(false);
            Ok(Vec::new())
        },
    }
}

/// Reads the comma-separated list of values `input`; `None` where a cut
/// falls inside a character.
pub fn try_parse_boot_config_values(input: &str) -> (r: Option<Result<Vec<String>, BootConfigError>>)
    ensures
        opt_values_view(r) == spec_parse_values(input@),
{
    let chars = chars_of(input);
    parse_values_in(&chars)
}

} // verus!
