//! A value list without quotes, read directly: its comma-separated pieces,
//! each read as a value.

use crate::error::ErrorView;
use crate::text::{char_index_at_byte, index_of, lemma_ascii_byte_offsets, lemma_index_of, trim};
use crate::validate::is_valid_value;
use crate::values::{
    is_quote, is_quoted, needs_quotes, scan_finish, scan_from, scan_step, spec_parse_value,
    spec_parse_values, value_chars_allowed, ScanState,
};
use vstd::prelude::*;

verus! {

/// The pieces of `t` between its commas, each read as a value, in order; an
/// empty piece at the end is no value. The first piece that is refused
/// gives the error.
pub open spec fn read_pieces(t: Seq<char>) -> Result<Seq<Seq<char>>, ErrorView>
    decreases t.len(),
{
    let i = index_of(t, ',') as int;
    if i >= t.len() {
        if t.len() == 0 {
            Ok(Seq::empty())
        } else {
            match spec_parse_value(t) {
                Err(e) => Err(e),
                Ok(v) => Ok(seq![v]),
            }
        }
    } else {
        proof {
            lemma_index_of(t, ',');
        }
        match spec_parse_value(t.take(i)) {
            Err(e) => Err(e),
            Ok(v) => match read_pieces(t.skip(i + 1)) {
                Err(e) => Err(e),
                Ok(vs) => Ok(seq![v] + vs),
            },
        }
    }
}

/// What `r` reads, following the values `done`.
pub open spec fn after(done: Seq<Seq<char>>, r: Result<Seq<Seq<char>>, ErrorView>) -> Result<
    Seq<Seq<char>>,
    ErrorView,
> {
    match r {
        Err(e) => Err(e),
        Ok(vs) => Ok(done + vs),
    }
}

/// A list of ASCII characters without quotes, free of commas from `start`
/// to `k`, reads from `k` on as its pieces from `start` on.
proof fn lemma_scan_unquoted(t: Seq<char>, k: int, start: int, done: Seq<Seq<char>>)
    requires
        0 <= start <= k <= t.len(),
        forall|i: int| 0 <= i < t.len() ==> (#[trigger] t[i] as u32) < 0x80 && !is_quote(t[i]),
        forall|i: int| start <= i < k ==> #[trigger] t[i] != ',',
    ensures
        scan_from(
            t,
            t,
            k,
            ScanState { quote: None, expect_delimiter: false, start: start, elements: done },
        ) == after(done, read_pieces(t.skip(start))),
    decreases t.len() - k,
{
    let st = ScanState { quote: None, expect_delimiter: false, start: start, elements: done };
    let s = t.skip(start);
    lemma_index_of(s, ',');
    lemma_ascii_byte_offsets(t, start);
    if k == t.len() {
        assert(index_of(s, ',') == s.len()) by {
            if index_of(s, ',') < s.len() {
                assert(s[index_of(s, ',') as int] == t[start + index_of(s, ',')]);
            }
        }
        assert(char_index_at_byte(t, start) == Some(start));
        assert(t.subrange(start, t.len() as int) =~= s);
        assert(s != seq![',']) by {
            if s.len() == 1 {
                assert(s[0] == t[start]);
            }
        }
        match spec_parse_value(s) {
            Ok(v) => {
                assert(done.push(v) =~= done + seq![v]);
            },
            Err(_) => {},
        }
        if s.len() == 0 {
            assert(done + Seq::<Seq<char>>::empty() =~= done);
        }
        assert(scan_from(t, t, k, st) == scan_finish(t, t, st));
    } else if t[k] != ',' {
        assert(scan_step(t, t, st, k, t[k]) == Ok::<ScanState, ErrorView>(st));
        lemma_scan_unquoted(t, k + 1, start, done);
    } else {
        assert(index_of(s, ',') == k - start) by {
            assert(s[k - start] == t[k]);
            if index_of(s, ',') < k - start {
                assert(s[index_of(s, ',') as int] == t[start + index_of(s, ',')]);
            }
        }
        lemma_ascii_byte_offsets(t, k);
        assert(t.subrange(start, k) =~= s.take(k - start));
        assert(s.skip(k - start + 1) =~= t.skip(k + 1));
        match spec_parse_value(s.take(k - start)) {
            Err(e) => {
                assert(scan_step(t, t, st, k, t[k]) == Err::<ScanState, ErrorView>(e));
            },
            Ok(v) => {
                let next = ScanState {
                    quote: None,
                    expect_delimiter: false,
                    start: k + 1,
                    elements: done.push(v),
                };
                assert(scan_step(t, t, st, k, t[k]) == Ok::<ScanState, ErrorView>(next));
                lemma_scan_unquoted(t, k + 1, k + 1, done.push(v));
                match read_pieces(t.skip(k + 1)) {
                    Ok(vs) => {
                        assert(done.push(v) + vs =~= done + (seq![v] + vs));
                    },
                    Err(_) => {},
                }
            },
        }
    }
}

/// A value list of ASCII characters without quotes, given trimmed, reads as
/// its comma-separated pieces, each read as a value in order, an empty piece
/// at the end being no value.
pub proof fn law_unquoted_list_reads_as_its_pieces(t: Seq<char>)
    requires
        crate::text::trim(t) == t,
        forall|i: int| 0 <= i < t.len() ==> (#[trigger] t[i] as u32) < 0x80 && !is_quote(t[i]),
    ensures
        spec_parse_values(t) == read_pieces(t),
{
    reveal(spec_parse_values);
    assert(t.skip(0) =~= t);
    lemma_scan_unquoted(t, 0, 0, Seq::empty());
    match read_pieces(t) {
        Ok(vs) => {
            assert(Seq::<Seq<char>>::empty() + vs =~= vs);
        },
        Err(_) => {},
    }
}

/// A plain value: at most 1024 printable ASCII characters, none of them a
/// quote, a comma, a semicolon, `#` or `}`, and the text as given, with no
/// white space around it, reads as itself.
pub proof fn law_plain_value_reads_as_itself(input: Seq<char>)
    requires
        trim(input).len() <= 1024,
        forall|i: int|
            0 <= i < trim(input).len() ==> {
                let c = #[trigger] trim(input)[i];
                &&& ' ' <= c <= '~'
                &&& c != '\'' && c != '"' && c != ',' && c != ';' && c != '#' && c != '}'
            },
    ensures
        spec_parse_value(input) == Ok::<Seq<char>, ErrorView>(trim(input)),
{
    let t = trim(input);
    assert(!is_quoted(t)) by {
        if t.len() >= 2 {
            assert(t[0] != '"' && t[0] != '\'');
        }
    }
    assert(value_chars_allowed(t));
    assert(is_valid_value(t));
}

/// A quoted value: the text, trimmed, is a value of at most 1024 printable
/// ASCII characters between two quotes of the same kind, and reads as that
/// value, without the quotes.
pub proof fn law_quoted_value_reads_without_quotes(input: Seq<char>, q: char, v: Seq<char>)
    requires
        q == '"' || q == '\'',
        trim(input) == seq![q] + v + seq![q],
        v.len() <= 1024,
        forall|i: int| 0 <= i < v.len() ==> ' ' <= #[trigger] v[i] <= '~',
    ensures
        spec_parse_value(input) == Ok::<Seq<char>, ErrorView>(v),
{
    let t = trim(input);
    assert(is_quoted(t));
    assert forall|i: int| 0 <= i < t.len() implies #[trigger] t[i] <= '\x7f' by {
        if 0 < i < t.len() - 1 {
            assert(t[i] == v[i - 1]);
        }
    }
    assert(value_chars_allowed(t));
    assert(t.subrange(1, t.len() - 1) =~= v);
    assert(is_valid_value(v));
}

/// A value that is not quoted and holds a quote, a newline, a comma, a
/// semicolon, `#` or `}`, or that holds a non-ASCII character, is refused as
/// an invalid value, with the trimmed text.
pub proof fn law_unquoted_reserved_character_is_refused(input: Seq<char>, i: int)
    requires
        0 <= i < trim(input).len(),
        ({
            let t = trim(input);
            let c = t[i];
            ||| c > '\x7f'
            ||| !(t.len() >= 2 && t[0] == t.last() && (t[0] == '"' || t[0] == '\''))
                && (c == '\'' || c == '"' || c == '\n' || c == ',' || c == ';' || c == '#'
                || c == '}')
        }),
    ensures
        spec_parse_value(input) == Err::<Seq<char>, ErrorView>(
            ErrorView::InvalidBootConfigValue(trim(input)),
        ),
{
    let t = trim(input);
    assert(!(#[trigger] t[i] <= '\x7f' && (is_quoted(t) || !needs_quotes(t[i]))));
}

} // verus!
