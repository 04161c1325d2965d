//! Comment lines in a boot config text change nothing that is read from it.

use crate::document::{doc_from, line_at, line_end, line_step, spec_parse_boot_config, DocState};
use crate::error::ErrorView;
use crate::text::{
    index_of, is_white_space, leading_ws, lemma_index_of, lemma_leading_ws_bound,
    lemma_trailing_ws_bound, starts_with, trailing_ws, trim, trim_start,
};
use vstd::prelude::*;

verus! {

/// `c` is one comment line: no newline, and its first non-blank character is `#`.
pub open spec fn is_comment_line(c: Seq<char>) -> bool {
    !c.contains('\n') && starts_with(trim_start(c), seq!['#'])
}

/// Reading on after `r`: the lines of `rest` from the state `r` reached.
pub open spec fn then_read(r: Result<DocState, ErrorView>, rest: Seq<char>) -> Result<
    DocState,
    ErrorView,
> {
    match r {
        Ok(st) => doc_from(rest, 0, st),
        Err(e) => Err(e),
    }
}

proof fn lemma_leading_ws_exact(s: Seq<char>, k: int)
    requires
        0 <= k <= s.len(),
        forall|i: int| 0 <= i < k ==> is_white_space(#[trigger] s[i]),
        k == s.len() || !is_white_space(s[k]),
    ensures
        leading_ws(s) == k,
    decreases k,
{
    if k > 0 {
        let d = s.drop_first();
        assert forall|i: int| 0 <= i < k - 1 implies is_white_space(#[trigger] d[i]) by {
            assert(d[i] == s[i + 1]);
            assert(is_white_space(s[i + 1]));
        }
        assert(is_white_space(s[0]));
        lemma_leading_ws_exact(d, k - 1);
    }
}

pub(crate) proof fn lemma_index_of_concat(x: Seq<char>, y: Seq<char>, ch: char)
    ensures
        index_of(x + y, ch) == if index_of(x, ch) < x.len() {
            index_of(x, ch)
        } else {
            x.len() + index_of(y, ch)
        },
    decreases x.len(),
{
    lemma_index_of(x, ch);
    if x.len() == 0 {
        assert(x + y =~= y);
    } else if x[0] != ch {
        assert((x + y).drop_first() =~= x.drop_first() + y);
        lemma_index_of_concat(x.drop_first(), y, ch);
    }
}

proof fn lemma_no_newline(c: Seq<char>)
    requires
        !c.contains('\n'),
    ensures
        index_of(c, '\n') == c.len(),
{
    lemma_index_of(c, '\n');
    if index_of(c, '\n') < c.len() {
        assert(c[index_of(c, '\n') as int] == '\n');
    }
}

/// Reading from position `p` of `t` only looks at `t` from `p` on.
proof fn lemma_doc_suffix(t: Seq<char>, p: int, st: DocState)
    requires
        0 <= p <= t.len(),
    ensures
        doc_from(t, p, st) == doc_from(t.skip(p), 0, st),
    decreases t.len() - p,
{
    let u = t.skip(p);
    if p < t.len() {
        lemma_index_of(t.subrange(p, t.len() as int), '\n');
        assert(u.subrange(0, u.len() as int) =~= t.subrange(p, t.len() as int));
        let e = line_end(t, p);
        assert(line_end(u, 0) == e - p);
        assert(u.subrange(0, e - p) =~= t.subrange(p, e));
        assert(line_at(u, 0) == line_at(t, p));
        match line_step(st, line_at(t, p)) {
            Ok(next) => {
                if e < t.len() {
                    lemma_doc_suffix(t, e + 1, next);
                    lemma_doc_suffix(u, e - p + 1, next);
                    assert(u.skip(e - p + 1) =~= t.skip(e + 1));
                }
            },
            Err(_) => {},
        }
    }
}

/// Reading `a + rest`, where `a` ends with a newline, reads the lines of `a`
/// and then those of `rest`.
proof fn lemma_doc_concat(a: Seq<char>, rest: Seq<char>, p: int, st: DocState)
    requires
        a.len() > 0 && a.last() == '\n',
        0 <= p <= a.len(),
    ensures
        doc_from(a + rest, p, st) == then_read(doc_from(a, p, st), rest),
    decreases a.len() - p,
{
    let t = a + rest;
    if p == a.len() {
        lemma_doc_suffix(t, p, st);
        assert(t.skip(p) =~= rest);
    } else {
        let x = a.subrange(p, a.len() as int);
        lemma_index_of(x, '\n');
        assert(x[x.len() - 1] == '\n');
        assert(t.subrange(p, t.len() as int) =~= x + rest);
        lemma_index_of_concat(x, rest, '\n');
        let e = line_end(a, p);
        assert(line_end(t, p) == e);
        assert(e < a.len());
        assert(t.subrange(p, e) =~= a.subrange(p, e));
        assert(line_at(t, p) == line_at(a, p));
        match line_step(st, line_at(a, p)) {
            Ok(next) => {
                lemma_doc_concat(a, rest, e + 1, next);
            },
            Err(_) => {},
        }
    }
}

/// Without its carriage return at the end, a comment line is still one.
proof fn lemma_comment_without_cr(c: Seq<char>)
    requires
        is_comment_line(c),
        c.len() > 0,
    ensures
        c.last() == '\r' ==> is_comment_line(c.drop_last()),
{
    if c.last() == '\r' {
        lemma_leading_ws_bound(c);
        let lw = leading_ws(c) as int;
        assert(trim_start(c).take(1)[0] == '#');
        assert(c[lw] == '#');
        assert(lw < c.len() - 1);
        let d = c.drop_last();
        assert forall|i: int| 0 <= i < lw implies is_white_space(#[trigger] d[i]) by {
            assert(d[i] == c[i]);
        }
        lemma_leading_ws_exact(d, lw);
        assert(trim_start(d).take(1) =~= seq!['#']);
        assert(!d.contains('\n')) by {
            if d.contains('\n') {
                let i = choose|i: int| 0 <= i < d.len() && d[i] == '\n';
                assert(c[i] == '\n');
            }
        }
    }
}

/// A comment line followed by a newline is passed over.
proof fn lemma_skip_comment(c: Seq<char>, rest: Seq<char>, st: DocState)
    requires
        is_comment_line(c),
    ensures
        doc_from(c + seq!['\n'] + rest, 0, st) == doc_from(rest, 0, st),
{
    let t = c + seq!['\n'] + rest;
    lemma_no_newline(c);
    assert(t.subrange(0, t.len() as int) =~= c + (seq!['\n'] + rest));
    lemma_index_of_concat(c, seq!['\n'] + rest, '\n');
    assert(line_end(t, 0) == c.len());
    assert(t.subrange(0, c.len() as int) =~= c);
    if c.len() > 0 {
        lemma_comment_without_cr(c);
    }
    assert(line_step(st, line_at(t, 0)) == Ok::<DocState, ErrorView>(st));
    lemma_doc_suffix(t, c.len() + 1int, st);
    assert(t.skip(c.len() + 1int) =~= rest);
}

pub(crate) proof fn lemma_trim_ends(b: Seq<char>)
    ensures
        trim(b).len() > 0 ==> !is_white_space(trim(b)[0]) && !is_white_space(trim(b).last()),
{
    let s = trim_start(b);
    lemma_leading_ws_bound(b);
    lemma_trailing_ws_bound(s);
    if trim(b).len() > 0 {
        assert(trim(b)[0] == s[0]);
        assert(s[0] == b[leading_ws(b) as int]);
        assert(trim(b).last() == s[s.len() - trailing_ws(s) - 1]);
    }
}

pub(crate) proof fn lemma_trim_of_trimmed(s: Seq<char>)
    requires
        s.len() > 0,
        !is_white_space(s[0]),
        !is_white_space(s.last()),
    ensures
        trim(s) == s,
{
    assert(leading_ws(s) == 0);
    assert(s.skip(0) =~= s);
    assert(trailing_ws(s) == 0);
    assert(s.take(s.len() as int) =~= s);
}

/// A comment line read alone leaves the state as it is.
proof fn lemma_lone_comment(x: Seq<char>, st: DocState)
    requires
        is_comment_line(x),
    ensures
        doc_from(x, 0, st) == Ok::<DocState, ErrorView>(st),
{
    if x.len() > 0 {
        lemma_no_newline(x);
        assert(x.subrange(0, x.len() as int) =~= x);
        assert(line_end(x, 0) == x.len());
        assert(line_at(x, 0) =~= x);
        assert(line_step(st, line_at(x, 0)) == Ok::<DocState, ErrorView>(st));
        assert(doc_from(x, x.len() + 1int, st) == Ok::<DocState, ErrorView>(st));
    }
}

proof fn lemma_trailing_ws_exact(s: Seq<char>, k: int)
    requires
        0 <= k <= s.len(),
        forall|i: int| s.len() - k <= i < s.len() ==> is_white_space(#[trigger] s[i]),
        k == s.len() || !is_white_space(s[s.len() - k - 1]),
    ensures
        trailing_ws(s) == k,
    decreases k,
{
    if k > 0 {
        let d = s.drop_last();
        assert forall|i: int| d.len() - (k - 1) <= i < d.len() implies is_white_space(
            #[trigger] d[i],
        ) by {
            assert(d[i] == s[i]);
        }
        assert(is_white_space(s[s.len() - 1]));
        if k - 1 < d.len() {
            assert(d[d.len() - (k - 1) - 1] == s[s.len() - k - 1]);
        }
        lemma_trailing_ws_exact(d, k - 1);
    }
}

/// A trimmed text read with a newline after it reads the same.
proof fn lemma_doc_trailing_newline(t: Seq<char>, p: int, st: DocState)
    requires
        t.len() > 0,
        !is_white_space(t.last()),
        0 <= p < t.len(),
    ensures
        doc_from(t + seq!['\n'], p, st) == doc_from(t, p, st),
    decreases t.len() - p,
{
    let t2 = t + seq!['\n'];
    let x = t.subrange(p, t.len() as int);
    lemma_index_of(x, '\n');
    assert(t2.subrange(p, t2.len() as int) =~= x + seq!['\n']);
    lemma_index_of_concat(x, seq!['\n'], '\n');
    let e = line_end(t, p);
    assert(line_end(t2, p) == e);
    assert(t2.subrange(p, e) =~= t.subrange(p, e));
    if e == t.len() {
        assert(t.subrange(p, e).last() == t.last());
    }
    assert(line_at(t2, p) == line_at(t, p));
    match line_step(st, line_at(t, p)) {
        Ok(next) => {
            assert(doc_from(t2, p, st) == doc_from(t2, e + 1, next));
            assert(doc_from(t, p, st) == doc_from(t, e + 1, next));
            if e < t.len() {
                assert(t[e] == '\n');
                lemma_doc_trailing_newline(t, e + 1, next);
            } else {
                assert(doc_from(t2, e + 1, next) == Ok::<DocState, ErrorView>(next));
                assert(doc_from(t, e + 1, next) == Ok::<DocState, ErrorView>(next));
            }
        },
        Err(err) => {
            assert(doc_from(t2, p, st) == Err::<DocState, ErrorView>(err));
            assert(doc_from(t, p, st) == Err::<DocState, ErrorView>(err));
        },
    }
}

/// A comment line put into a boot config text, before any of its lines or
/// alone, changes nothing that is read from it: the lines of the trimmed
/// text with the comment line inserted at a line start read as the text
/// itself, to the same settings or the same error.
pub proof fn law_comment_lines_are_ignored(b: Seq<char>, c: Seq<char>, p: int)
    requires
        is_comment_line(c),
        0 <= p <= trim(b).len(),
        p == 0 || trim(b)[p - 1] == '\n',
    ensures
        spec_parse_boot_config(trim(b).take(p) + c + seq!['\n'] + trim(b).skip(p))
            == spec_parse_boot_config(b),
{
    let t = trim(b);
    let t2 = t.take(p) + c + seq!['\n'] + t.skip(p);
    let st0 = DocState { kernel: Seq::empty(), init: Seq::empty() };
    lemma_trim_ends(b);
    lemma_leading_ws_bound(c);
    let lw = leading_ws(c) as int;
    assert(trim_start(c).take(1)[0] == '#');
    assert(c[lw] == '#');
    assert(trim(t) == t) by {
        if t.len() > 0 {
            lemma_trim_of_trimmed(t);
        } else {
            assert(trim(t) =~= t);
        }
    }
    if p > 0 {
        assert(p < t.len()) by {
            if p == t.len() {
                assert(t.last() == '\n');
            }
        }
        let a = t.take(p);
        assert(t2[0] == t[0]);
        assert(t2.last() == t.last());
        lemma_trim_of_trimmed(t2);
        assert(t2 =~= a + (c + seq!['\n'] + t.skip(p)));
        assert(t =~= a + t.skip(p));
        lemma_doc_concat(a, c + seq!['\n'] + t.skip(p), 0, st0);
        lemma_doc_concat(a, t.skip(p), 0, st0);
        match doc_from(a, 0, st0) {
            Ok(st) => {
                lemma_skip_comment(c, t.skip(p), st);
            },
            Err(_) => {},
        }
    } else {
        assert(t.take(0) + c =~= c);
        assert(t.skip(0) =~= t);
        assert forall|i: int| 0 <= i < lw implies is_white_space(#[trigger] t2[i]) by {
            assert(t2[i] == c[i]);
        }
        assert(t2[lw] == c[lw]);
        lemma_leading_ws_exact(t2, lw);
        let c2 = c.skip(lw);
        assert(!c2.contains('\n')) by {
            if c2.contains('\n') {
                let i = choose|i: int| 0 <= i < c2.len() && c2[i] == '\n';
                assert(c[lw + i] == '\n');
            }
        }
        if t.len() > 0 {
            assert(t2.last() == t.last());
            assert(trailing_ws(t2.skip(lw)) == 0);
            assert(trim(t2) =~= c2 + seq!['\n'] + t);
            assert(leading_ws(c2) == 0);
            assert(trim_start(c2) =~= c2);
            assert(c2.take(1) =~= seq!['#']);
            lemma_skip_comment(c2, t, st0);
        } else {
            let s = t2.skip(lw);
            lemma_trailing_ws_bound(s);
            assert(s.last() == '\n');
            assert(trailing_ws(s) >= 1);
            let x = trim(t2);
            assert(x =~= s.take(s.len() - trailing_ws(s)));
            assert(x.len() > 0) by {
                assert(!is_white_space(s[0]));
            }
            assert(x[0] == '#');
            assert(!x.contains('\n')) by {
                if x.contains('\n') {
                    let i = choose|i: int| 0 <= i < x.len() && x[i] == '\n';
                    assert(x[i] == c2[i]);
                }
            }
            assert(leading_ws(x) == 0);
            assert(trim_start(x) =~= x);
            assert(x.take(1) =~= seq!['#']);
            lemma_lone_comment(x, st0);
            assert(doc_from(t, 0, st0) == Ok::<DocState, ErrorView>(st0));
        }
    }
}

/// A comment line put after the last line of a boot config text changes
/// nothing that is read from it either.
pub proof fn law_comment_after_last_line_is_ignored(b: Seq<char>, c: Seq<char>)
    requires
        is_comment_line(c),
        trim(b).len() > 0,
    ensures
        spec_parse_boot_config(trim(b) + seq!['\n'] + c) == spec_parse_boot_config(b),
{
    let t = trim(b);
    let t2 = t + seq!['\n'] + c;
    let st0 = DocState { kernel: Seq::empty(), init: Seq::empty() };
    lemma_trim_ends(b);
    lemma_leading_ws_bound(c);
    lemma_trailing_ws_bound(c);
    let lw = leading_ws(c) as int;
    assert(trim_start(c).take(1)[0] == '#');
    assert(c[lw] == '#');
    let tw = trailing_ws(c) as int;
    assert(tw < c.len() - lw);
    // trimming the whole text only drops the trailing white space of `c`
    assert(t2[0] == t[0]);
    assert(leading_ws(t2) == 0);
    assert(t2.skip(0) =~= t2);
    assert forall|i: int| t2.len() - tw <= i < t2.len() implies is_white_space(#[trigger] t2[i]) by {
        assert(t2[i] == c[i - t.len() - 1]);
    }
    assert(t2[t2.len() - tw - 1] == c[c.len() - tw - 1]);
    lemma_trailing_ws_exact(t2, tw);
    let c3 = c.take(c.len() - tw);
    assert(trim(t2) =~= t + seq!['\n'] + c3);
    // the shortened comment is still a comment line
    assert forall|i: int| 0 <= i < lw implies is_white_space(#[trigger] c3[i]) by {
        assert(c3[i] == c[i]);
    }
    assert(c3[lw] == '#');
    lemma_leading_ws_exact(c3, lw);
    assert(trim_start(c3).take(1) =~= seq!['#']);
    assert(!c3.contains('\n')) by {
        if c3.contains('\n') {
            let i = choose|i: int| 0 <= i < c3.len() && c3[i] == '\n';
            assert(c[i] == '\n');
        }
    }
    let a = t + seq!['\n'];
    assert(t + seq!['\n'] + c3 =~= a + c3);
    lemma_doc_concat(a, c3, 0, st0);
    lemma_doc_trailing_newline(t, 0, st0);
    assert(trim(t) == t) by {
        lemma_trim_of_trimmed(t);
    }
    match doc_from(t, 0, st0) {
        Ok(st) => {
            lemma_lone_comment(c3, st);
        },
        Err(_) => {},
    }
}

} // verus!
