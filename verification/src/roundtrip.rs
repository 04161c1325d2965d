//! Reading back a written value list gives the values that were written.

use crate::render::{entry_text, quote_for, value_list_from, value_list_text, value_piece};
use crate::text::{is_white_space, lemma_ascii_byte_offsets, leading_ws, trailing_ws, trim, trim_start};
use crate::validate::{is_printable_ascii, is_valid_value};
use crate::values::{
    is_quoted, scan_finish, scan_from, scan_step, spec_parse_value, spec_parse_values,
    value_chars_allowed, ScanState,
};
use vstd::prelude::*;

verus! {

/// A value that can be written and read back: a boot config value that does
/// not hold both kinds of quote.
pub open spec fn writable_value(v: Seq<char>) -> bool {
    is_valid_value(v) && !(v.contains('"') && v.contains('\''))
}

/// Every value of the list can be written and read back.
pub open spec fn writable_values(vs: Seq<Seq<char>>) -> bool {
    forall|j: int| 0 <= j < vs.len() ==> writable_value(#[trigger] vs[j])
}

/// Where value `m` starts in the written list.
pub open spec fn piece_start(vs: Seq<Seq<char>>, m: int) -> int {
    value_list_text(vs).len() - value_list_from(vs, m).len()
}

proof fn lemma_suffix(vs: Seq<Seq<char>>, m: int)
    requires
        0 <= m <= vs.len(),
    ensures
        0 <= piece_start(vs, m) <= value_list_text(vs).len(),
        value_list_text(vs).subrange(piece_start(vs, m), value_list_text(vs).len() as int)
            == value_list_from(vs, m),
    decreases m,
{
    let u = value_list_text(vs);
    if m == 0 {
        assert(u.subrange(0, u.len() as int) =~= u);
    } else {
        lemma_suffix(vs, m - 1);
        let prev = value_list_from(vs, m - 1);
        let p = value_piece(vs, m - 1);
        assert(prev == p + value_list_from(vs, m));
        assert(u.subrange(piece_start(vs, m), u.len() as int) =~= prev.skip(p.len() as int));
        assert(prev.skip(p.len() as int) =~= value_list_from(vs, m));
    }
}

/// The characters of value `m` as written, within the whole list.
proof fn lemma_piece_at(vs: Seq<Seq<char>>, m: int)
    requires
        0 <= m < vs.len(),
    ensures
        piece_start(vs, m + 1) == piece_start(vs, m) + value_piece(vs, m).len(),
        forall|j: int|
            0 <= j < value_piece(vs, m).len() ==> value_list_text(vs)[piece_start(vs, m) + j]
                == #[trigger] value_piece(vs, m)[j],
{
    lemma_suffix(vs, m);
    let u = value_list_text(vs);
    let p = value_piece(vs, m);
    assert(value_list_from(vs, m) == p + value_list_from(vs, m + 1));
    assert forall|j: int| 0 <= j < p.len() implies u[piece_start(vs, m) + j] == #[trigger] p[j] by {
        assert(u.subrange(piece_start(vs, m), u.len() as int)[j] == u[piece_start(vs, m) + j]);
    }
}

/// A written value, without the character before its first space or
/// quote, reads back as the value.
proof fn lemma_parse_written_value(v: Seq<char>, x: Seq<char>, lead: bool)
    requires
        writable_value(v),
        x == (if lead {
            seq![' ']
        } else {
            Seq::<char>::empty()
        }) + seq![quote_for(v)] + v + seq![quote_for(v)],
    ensures
        spec_parse_value(x) == Ok::<Seq<char>, crate::error::ErrorView>(v),
{
    let q = quote_for(v);
    let w = seq![q] + v + seq![q];
    assert(!is_white_space(q));
    if lead {
        assert(x.drop_first() =~= w);
        assert(leading_ws(x) == 1 + leading_ws(x.drop_first()));
    } else {
        assert(x =~= w);
    }
    assert(leading_ws(w) == 0);
    assert(trim_start(x) =~= w);
    assert(w.last() == q);
    assert(trailing_ws(w) == 0);
    assert(trim(x) =~= w);
    assert(is_quoted(w));
    assert forall|i: int| 0 <= i < w.len() implies #[trigger] w[i] <= '\x7f' && (is_quoted(w)
        || !crate::values::needs_quotes(w[i])) by {
        if 1 <= i < w.len() - 1 {
            assert(w[i] == v[i - 1]);
            assert(is_printable_ascii(v[i - 1]));
        }
    }
    assert(value_chars_allowed(w));
    assert(w.subrange(1, w.len() - 1) =~= v);
}

/// Inside a quoted value, the reading only moves on.
proof fn lemma_scan_quoted(t: Seq<char>, j: int, b: int, st: ScanState)
    requires
        0 <= j <= b <= t.len(),
        st.quote matches Some(q) && forall|i: int| j <= i < b ==> #[trigger] t[i] != q,
        !st.expect_delimiter,
    ensures
        scan_from(t, t, j, st) == scan_from(t, t, b, st),
    decreases b - j,
{
    if j < b {
        assert(scan_step(t, t, st, j, t[j]) == Ok::<ScanState, crate::error::ErrorView>(st));
        lemma_scan_quoted(t, j + 1, b, st);
    }
}

/// The characters of value `m` as written: an optional comma, a space, the
/// quote, the value, the quote.
proof fn lemma_piece_chars(vs: Seq<Seq<char>>, m: int)
    requires
        0 <= m < vs.len(),
    ensures
        ({
            let p = value_piece(vs, m);
            let v = vs[m];
            let q = quote_for(v);
            let off: int = if m > 0 {
                1
            } else {
                0
            };
            &&& p.len() == off + 3 + v.len()
            &&& m > 0 ==> p[0] == ','
            &&& p[off] == ' '
            &&& p[off + 1] == q
            &&& forall|i: int| 0 <= i < v.len() ==> p[off + 2 + i] == #[trigger] v[i]
            &&& p[off + 2 + v.len()] == q
        }),
{
    let p = value_piece(vs, m);
    let v = vs[m];
    let off: int = if m > 0 {
        1
    } else {
        0
    };
    assert forall|i: int| 0 <= i < v.len() implies p[off + 2 + i] == #[trigger] v[i] by {
    }
}

/// Facts on the written list `t` (after its leading space) around value `m`.
proof fn lemma_list_layout(vs: Seq<Seq<char>>, m: int)
    requires
        writable_values(vs),
        0 <= m < vs.len(),
    ensures
        ({
            let t = value_list_text(vs).skip(1);
            let v = vs[m];
            let q = quote_for(v);
            let ps = piece_start(vs, m);
            let qp = ps + if m > 0 {
                1int
            } else {
                0int
            };
            let close = qp + 1 + v.len();
            &&& 0 <= ps <= qp < close < t.len()
            &&& t[qp] == q
            &&& t[close] == q
            &&& forall|i: int| qp + 1 <= i < close ==> #[trigger] t[i] != q
            &&& t.subrange(ps, close + 1) == value_piece(vs, m).skip(1)
            &&& piece_start(vs, m + 1) == close + 2
            &&& m + 1 == vs.len() ==> t.len() == close + 1
            &&& m + 1 < vs.len() ==> close + 2 < t.len() && t[close + 1] == ',' && t[close + 2]
                == ' '
        }),
{
    let u = value_list_text(vs);
    let t = u.skip(1);
    let n = vs.len() as int;
    let v = vs[m];
    assert(writable_value(vs[m]));
    let q = quote_for(v);
    let off: int = if m > 0 {
        1
    } else {
        0
    };
    let ps = piece_start(vs, m);
    let qp = ps + off;
    let p = value_piece(vs, m);
    let close = qp + 1 + v.len();
    lemma_piece_at(vs, m);
    lemma_piece_chars(vs, m);
    lemma_suffix(vs, m);
    lemma_suffix(vs, m + 1);
    assert(p.len() == off + 3 + v.len());
    assert(ps + p.len() <= u.len());
    assert(t[qp] == u[ps + off + 1]);
    assert(t[close] == u[ps + off + 2 + v.len()]);
    assert forall|i: int| qp + 1 <= i < close implies #[trigger] t[i] != q by {
        assert(t[i] == u[ps + (i - ps + 1)]);
        assert(p[off + 2 + (i - qp - 1)] == v[i - qp - 1]);
        if q == '"' {
            assert(!v.contains('"'));
        } else {
            assert(v.contains('"'));
            assert(!v.contains('\''));
        }
    }
    assert(t.subrange(ps, close + 1) =~= p.skip(1)) by {
        assert forall|i: int| 0 <= i < p.len() - 1 implies t.subrange(ps, close + 1)[i] == p.skip(
            1,
        )[i] by {
            assert(t[ps + i] == u[ps + i + 1]);
        }
    }
    if m + 1 == n {
        assert(value_list_from(vs, n) =~= Seq::<char>::empty());
    } else {
        lemma_piece_at(vs, m + 1);
        lemma_piece_chars(vs, m + 1);
        lemma_suffix(vs, m + 2);
        let next = piece_start(vs, m + 1);
        assert(t[close + 1] == u[next + 0]);
        assert(t[close + 2] == u[next + 1]);
    }
}

proof fn lemma_scan_list(vs: Seq<Seq<char>>, m: int)
    requires
        writable_values(vs),
        0 <= m < vs.len(),
        forall|i: int|
            0 <= i < piece_start(vs, m) ==> (#[trigger] value_list_text(vs).skip(1)[i] as u32)
                < 0x80,
    ensures
        ({
            let t = value_list_text(vs).skip(1);
            let qp = piece_start(vs, m) + if m > 0 {
                1int
            } else {
                0int
            };
            scan_from(
                t,
                t,
                qp,
                ScanState {
                    quote: None,
                    expect_delimiter: false,
                    start: piece_start(vs, m),
                    elements: vs.take(m),
                },
            ) == Ok::<Seq<Seq<char>>, crate::error::ErrorView>(vs)
        }),
    decreases vs.len() - m,
{
    let t = value_list_text(vs).skip(1);
    let n = vs.len() as int;
    let v = vs[m];
    assert(writable_value(vs[m]));
    let q = quote_for(v);
    let ps = piece_start(vs, m);
    let qp = ps + if m > 0 {
        1int
    } else {
        0int
    };
    let close = qp + 1 + v.len();
    lemma_list_layout(vs, m);
    let st0 = ScanState { quote: None, expect_delimiter: false, start: ps, elements: vs.take(m) };
    let st1 = ScanState { quote: Some(q), ..st0 };
    assert(scan_from(t, t, qp, st0) == scan_from(t, t, qp + 1, st1));
    lemma_scan_quoted(t, qp + 1, close, st1);
    let st2 = ScanState { quote: None, expect_delimiter: true, ..st0 };
    assert(scan_from(t, t, close, st1) == scan_from(t, t, close + 1, st2));
    let seg = t.subrange(ps, close + 1);
    lemma_piece_chars(vs, m);
    assert(value_piece(vs, m).skip(1) =~= (if m > 0 {
        seq![' ']
    } else {
        Seq::<char>::empty()
    }) + seq![q] + v + seq![q]);
    lemma_parse_written_value(v, seg, m > 0);
    let lead = if m > 0 {
        seq![' ']
    } else {
        Seq::<char>::empty()
    };
    assert(seg == lead + seq![q] + v + seq![q]);
    assert forall|i: int| 0 <= i < close + 1 implies (#[trigger] t[i] as u32) < 0x80 by {
        if i >= ps {
            assert(t[i] == seg[i - ps]);
            let j = i - ps - lead.len() - 1;
            if 0 <= j < v.len() {
                assert(seg[i - ps] == v[j]);
                assert(is_printable_ascii(v[j]));
            }
        }
    }
    lemma_ascii_byte_offsets(t, ps);
    assert(vs.take(m).push(v) =~= vs.take(m + 1));
    if m + 1 == n {
        assert(seg != seq![',']) by {
            assert(seg.len() != 1);
        }
        assert(vs.take(m + 1) =~= vs);
        assert(scan_from(t, t, close + 1, st2) == scan_finish(t, t, st2));
    } else {
        let st3 = ScanState {
            quote: None,
            expect_delimiter: false,
            start: close + 2,
            elements: vs.take(m + 1),
        };
        lemma_ascii_byte_offsets(t, close + 1);
        assert(t.subrange(ps, close + 1) == seg);
        assert(scan_step(t, t, st2, close + 1, t[close + 1]) == Ok::<
            ScanState,
            crate::error::ErrorView,
        >(st3));
        assert(scan_from(t, t, close + 1, st2) == scan_from(t, t, close + 2, st3));
        assert(scan_from(t, t, close + 2, st3) == scan_from(t, t, close + 3, st3));
        assert forall|i: int| 0 <= i < close + 2 implies (#[trigger] t[i] as u32) < 0x80 by {
        }
        lemma_scan_list(vs, m + 1);
    }
}

/// A list of values written as the renderer writes it reads back, once
/// trimmed as the reader trims it, as the same list.
pub proof fn law_written_values_read_back(vs: Seq<Seq<char>>)
    requires
        writable_values(vs),
    ensures
        spec_parse_values(trim(value_list_text(vs))) == Ok::<
            Seq<Seq<char>>,
            crate::error::ErrorView,
        >(vs),
{
    reveal(spec_parse_values);
    let u = value_list_text(vs);
    if vs.len() == 0 {
        assert(u =~= Seq::<char>::empty());
        assert(trim(u) =~= Seq::<char>::empty());
        assert(Seq::<char>::empty().subrange(0, 0) =~= Seq::<char>::empty());
        assert(vs =~= Seq::<Seq<char>>::empty());
        assert(trim(trim(u)) =~= Seq::<char>::empty());
    } else {
        let n = vs.len() as int;
        lemma_piece_at(vs, 0);
        lemma_piece_at(vs, n - 1);
        lemma_suffix(vs, n);
        assert(value_list_from(vs, n) =~= Seq::<char>::empty());
        let v0 = vs[0];
        let vl = vs[n - 1];
        assert(u[0] == ' ');
        assert(u[1] == quote_for(v0));
        assert(leading_ws(u) == 1 + leading_ws(u.drop_first()));
        assert(u.drop_first() =~= u.skip(1));
        assert(!is_white_space(u.skip(1)[0]));
        let p = value_piece(vs, n - 1);
        assert(u[u.len() - 1] == p[p.len() - 1]);
        assert(u.skip(1).last() == quote_for(vl));
        assert(trailing_ws(u.skip(1)) == 0);
        assert(trim(u) =~= u.skip(1));
        assert(leading_ws(u.skip(1)) == 0);
        assert(trim(u.skip(1)) =~= u.skip(1));
        assert(vs.take(0) =~= Seq::<Seq<char>>::empty());
        lemma_scan_list(vs, 0);
    }
}

/// A written parameter line: an entry with values is written as two spaces,
/// its key, ` =` and then its value list, which reads back as its values;
/// an entry without values is written as its key alone.
pub proof fn law_written_entry_line(key: Seq<char>, vs: Seq<Seq<char>>)
    requires
        writable_values(vs),
    ensures
        vs.len() > 0 ==> ({
            let line = entry_text((key, vs));
            let n = key.len() as int + 4;
            &&& n < line.len()
            &&& line.take(n) == seq![' ', ' '] + key + seq![' ', '=']
            &&& line.last() == '\n'
            &&& spec_parse_values(trim(line.subrange(n, line.len() - 1))) == Ok::<
                Seq<Seq<char>>,
                crate::error::ErrorView,
            >(vs)
        }),
        vs.len() == 0 ==> entry_text((key, vs)) == seq![' ', ' '] + key + seq!['\n'],
{
    let line = entry_text((key, vs));
    if vs.len() > 0 {
        let u = value_list_text(vs);
        lemma_piece_at(vs, 0);
        assert(u.len() > 0);
        assert(line =~= seq![' ', ' '] + key + seq![' ', '='] + u + seq!['\n']);
        assert(line.take(key.len() as int + 4) =~= seq![' ', ' '] + key + seq![' ', '=']);
        assert(line.subrange(key.len() as int + 4, line.len() - 1) =~= u);
        law_written_values_read_back(vs);
    } else {
        assert(entry_text((key, vs)) =~= seq![' ', ' '] + key + seq!['\n']);
    }
}

} // verus!
