//! Reading a whole boot config text into boot settings.

use crate::error::{completes, opt_result_view, result_view, BootConfigError, ErrorView};
use crate::params::{insert_entry, param_entries, params_insert, params_is_empty, params_new, Entry, ParamMap};
use crate::settings::{BootSettings, SettingsView};
use crate::text::{
    chars_of, find_char, index_of, lemma_index_of, skip_ws_forward, starts_with, starts_with_at,
    string_of, sub_vec, trim, trim_bounds, trim_start,
};
use crate::validate::{check_key, is_valid_key};
use crate::values::{parse_values_in, spec_parse_values};
use vstd::prelude::*;

verus! {

/// The section word `kernel`.
pub open spec fn kernel_word() -> Seq<char> {
    seq!['k', 'e', 'r', 'n', 'e', 'l']
}

/// The section word `init`.
pub open spec fn init_word() -> Seq<char> {
    seq!['i', 'n', 'i', 't']
}

/// The parameters read so far: the `kernel` and the `init` entries.
pub struct DocState {
    pub kernel: Seq<Entry>,
    pub init: Seq<Entry>,
}

/// The prefix `kernel.` of kernel parameter keys.
pub open spec fn kernel_prefix() -> Seq<char> {
    kernel_word().push('.')
}

/// The prefix `init.` of init parameter keys.
pub open spec fn init_prefix() -> Seq<char> {
    init_word().push('.')
}

/// Records the line whose key is `key` and whose values are `vs`. A key
/// `kernel.<rest>` sets kernel parameter `<rest>`, a key `init.<rest>` init
/// parameter `<rest>`. `kernel` and `init` themselves may only be given the
/// single empty value. Any other key (`initrd.x` among them) is refused.
pub open spec fn apply_key(st: DocState, key: Seq<char>, vs: Seq<Seq<char>>) -> Result<
    DocState,
    ErrorView,
> {
    if starts_with(key, kernel_prefix()) {
        Ok(DocState { kernel: insert_entry(st.kernel, key.skip(7), vs), init: st.init })
    } else if starts_with(key, init_prefix()) {
        Ok(DocState { kernel: st.kernel, init: insert_entry(st.init, key.skip(5), vs) })
    } else if key == kernel_word() || key == init_word() {
        if vs == seq![Seq::<char>::empty()] {
            Ok(st)
        } else {
            Err(ErrorView::ParentBootConfigKey)
        }
    } else {
        Err(ErrorView::UnsupportedBootConfigKey(key))
    }
}

/// Reads one line: lines whose first non-blank character is `#` are
/// comments. Otherwise the trimmed line is `key` or `key = values`, split at
/// the first `=`; the key must be a boot config key, and is checked before
/// the values are read.
pub open spec fn line_step(st: DocState, line: Seq<char>) -> Result<DocState, ErrorView> {
    if starts_with(trim_start(line), seq!['#']) {
        Ok(st)
    } else {
        let l = trim(line);
        let e = index_of(l, '=') as int;
        let key = trim(l.take(e));
        if !is_valid_key(key) {
            Err(ErrorView::ParseBootConfigKey(key))
        } else {
            let values = if e < l.len() {
                spec_parse_values(trim(l.skip(e + 1)))
            } else {
                Ok(Seq::<Seq<char>>::empty())
            };
            match values {
                Err(err) => Err(err),
                Ok(vs) => apply_key(st, key, vs),
            }
        }
    }
}

/// The end of the line of `t` that starts at `p`: the index of the next
/// newline, or the end of `t`.
pub open spec fn line_end(t: Seq<char>, p: int) -> int {
    p + index_of(t.subrange(p, t.len() as int), '\n')
}

/// The line of `t` that starts at `p`, as `str::lines` gives it: without its
/// newline, and without a carriage return just before that newline.
pub open spec fn line_at(t: Seq<char>, p: int) -> Seq<char> {
    let e = line_end(t, p);
    let seg = t.subrange(p, e);
    if e < t.len() && seg.len() > 0 && seg.last() == '\r' {
        seg.drop_last()
    } else {
        seg
    }
}

/// Reads the lines of `t` from position `p` on, from state `st`.
pub open spec fn doc_from(t: Seq<char>, p: int, st: DocState) -> Result<DocState, ErrorView>
    decreases t.len() + 1 - p,
{
    if p < 0 || p >= t.len() {
        Ok(st)
    } else {
        proof {
            lemma_index_of(t.subrange(p, t.len() as int), '\n');
        }
        match line_step(st, line_at(t, p)) {
            Err(err) => Err(err),
            Ok(next) => doc_from(t, line_end(t, p) + 1, next),
        }
    }
}

/// The boot settings that the boot config text `doc` holds: its lines, after
/// trimming the whole text, read in order, a later key replacing the values
/// of an earlier one in place. A section without parameters is absent.
pub open spec fn spec_parse_boot_config(doc: Seq<char>) -> Result<SettingsView, ErrorView> {
    match doc_from(trim(doc), 0, DocState { kernel: Seq::empty(), init: Seq::empty() }) {
        Err(err) => Err(err),
        Ok(st) => Ok(
                SettingsView {
                    reboot_to_reconcile: None,
                    kernel_parameters: if st.kernel.len() == 0 {
                        None
                    } else {
                        Some(st.kernel)
                    },
                    init_parameters: if st.init.len() == 0 {
                        None
                    } else {
                        Some(st.init)
                    },
                },
            ),
    }
}

fn kernel_prefix_chars() -> (r: Vec<char>)
    ensures
        r@ == kernel_prefix(),
{
    let r = vec!['k', 'e', 'r', 'n', 'e', 'l', '.'];
    assert(r@ =~= kernel_prefix());
    r
}

fn init_prefix_chars() -> (r: Vec<char>)
    ensures
        r@ == init_prefix(),
{
    let r = vec!['i', 'n', 'i', 't', '.'];
    assert(r@ =~= init_prefix());
    r
}

fn kernel_chars() -> (r: Vec<char>)
    ensures
        r@ == kernel_word(),
{
    let r = vec!['k', 'e', 'r', 'n', 'e', 'l'];
    assert(r@ =~= kernel_word());
    r
}

fn init_chars() -> (r: Vec<char>)
    ensures
        r@ == init_word(),
{
    let r = vec!['i', 'n', 'i', 't'];
    assert(r@ =~= init_word());
    r
}

/// Records the key `t[lo..hi]` with values `vs` into the two maps.
fn apply_key_in(
    t: &Vec<char>,
    lo: usize,
    hi: usize,
    vs: Vec<String>,
    kernel: &mut ParamMap,
    init: &mut ParamMap,
) -> (r: Result<(), BootConfigError>)
    requires
        lo <= hi <= t.len(),
    ensures
        ({
            let st = DocState { kernel: param_entries(*old(kernel)), init: param_entries(*old(init)) };
            apply_key(st, t@.subrange(lo as int, hi as int), vs.deep_view()) == match r {
                Ok(()) => Ok::<DocState, ErrorView>(
                    DocState {
                        kernel: param_entries(*final(kernel)),
                        init: param_entries(*final(init)),
                    },
                ),
                Err(e) => Err::<DocState, ErrorView>(e@),
            }
        }),
{
    let ghost key = t@.subrange(lo as int, hi as int);
    let kp = kernel_prefix_chars();
    let ip = init_prefix_chars();
    let kw = kernel_chars();
    let iw = init_chars();
    let is_kernel = hi - lo == 6 && starts_with_at(t, lo, hi, &kw);
    let is_init = hi - lo == 4 && starts_with_at(t, lo, hi, &iw);
    assert(is_kernel == (key == kernel_word())) by {
        if hi - lo == 6 {
            assert(key.take(6) =~= key);
        }
    }
    assert(is_init == (key == init_word())) by {
        if hi - lo == 4 {
            assert(key.take(4) =~= key);
        }
    }
    if starts_with_at(t, lo, hi, &kp) {
        let sub = string_of(t, lo + 7, hi);
        assert(sub@ =~= key.skip(7));
        params_insert(kernel, sub, vs);
        Ok(())
    } else if starts_with_at(t, lo, hi, &ip) {
        let sub = string_of(t, lo + 5, hi);
        assert(sub@ =~= key.skip(5));
        params_insert(init, sub, vs);
        Ok(())
    } else if is_kernel || is_init {
        if vs.len() == 1 && vs[0].as_str().is_empty() {
            assert(vs[0]@ =~= Seq::<char>::empty());
            assert(vs.deep_view() =~= seq![Seq::<char>::empty()]);
            Ok(())
        } else {
            assert(vs.deep_view() != seq![Seq::<char>::empty()]) by {
                if vs.len() == 1 {
                    assert(vs.deep_view()[0] != seq![Seq::<char>::empty()][0]);
                } else {
                    assert(vs.deep_view().len() != 1);
                }
            }
            Err(BootConfigError::ParentBootConfigKey)
        }
    } else {
        Err(BootConfigError::UnsupportedBootConfigKey { key: string_of(t, lo, hi) })
    }
}

/// Reads the line `t[lo..hi]` into the two maps; `None` where its values
/// would be sliced inside a character.
fn line_step_in(t: &Vec<char>, lo: usize, hi: usize, kernel: &mut ParamMap, init: &mut ParamMap) -> (r:
    Option<Result<(), BootConfigError>>)
    requires
        lo <= hi <= t.len(),
    ensures
        ({
            let st = DocState { kernel: param_entries(*old(kernel)), init: param_entries(*old(init)) };
            line_step(st, t@.subrange(lo as int, hi as int)) == match r {
                Some(Ok(())) => Ok::<DocState, ErrorView>(
                    DocState {
                        kernel: param_entries(*final(kernel)),
                        init: param_entries(*final(init)),
                    },
                ),
                Some(Err(e)) => Err::<DocState, ErrorView>(e@),
                None => Err::<DocState, ErrorView>(ErrorView::SliceInsideCharacter),
            }
        }),
{
    let ghost line = t@.subrange(lo as int, hi as int);
    let s0 = skip_ws_forward(t, lo, hi);
    assert(trim_start(line) =~= t@.subrange(s0 as int, hi as int));
    if s0 < hi && t[s0] == '#' {
        assert(starts_with(trim_start(line), seq!['#'])) by {
            assert(trim_start(line).take(1) =~= seq!['#']);
        }
        return Some(Ok(()));
    }
    assert(!starts_with(trim_start(line), seq!['#'])) by {
        if starts_with(trim_start(line), seq!['#']) {
            assert(trim_start(line).take(1)[0] == '#');
        }
    }
    let (a, b) = trim_bounds(t, lo, hi);
    let ghost l = t@.subrange(a as int, b as int);
    let e = find_char(t, a, b, '=');
    assert(l.take(e - a) =~= t@.subrange(a as int, e as int));
    let (ka, kb) = trim_bounds(t, a, e);
    if !check_key(t, ka, kb) {
        return Some(Err(BootConfigError::ParseBootConfigKey { input: string_of(t, ka, kb) }));
    }
    let vs = if e < b {
        assert(l.skip(e - a + 1) =~= t@.subrange(e + 1, b as int));
        let (va, vb) = trim_bounds(t, e + 1, b);
        let value = sub_vec(t, va, vb);
        match parse_values_in(&value) {
            None => {
                return None;
            },
            Some(Err(err)) => {
                return Some(Err(err));
            },
            Some(Ok(vs)) => vs,
        }
    } else {
        let vs: Vec<String> = Vec::new();
        assert(vs.deep_view() =~= Seq::<Seq<char>>::empty());
        vs
    };
    Some(apply_key_in(t, ka, kb, vs, kernel, init))
}

/// Reads the boot config text `doc` (characters) into boot settings; `None`
/// where a value list would be sliced inside a character.
pub fn parse_boot_config_in(doc: &Vec<char>) -> (r: Option<Result<BootSettings, BootConfigError>>)
    ensures
        opt_result_view(r) == spec_parse_boot_config(doc@),
{
    let n = doc.len();
    let (a, b) = trim_bounds(doc, 0, n);
    assert(doc@.subrange(0, n as int) =~= doc@);
    let t = sub_vec(doc, a, b);
    let mut kernel = params_new();
    let mut init = params_new();
    let mut p: usize = 0;
    while p < t.len()
        invariant
            t@ == trim(doc@),
            p <= t.len(),
            doc_from(t@, 0, DocState { kernel: Seq::empty(), init: Seq::empty() }) == doc_from(
                t@,
                p as int,
                DocState { kernel: param_entries(kernel), init: param_entries(init) },
            ),
        decreases t.len() - p,
    {
        let e = find_char(&t, p, t.len(), '\n');
        let ghost st = DocState { kernel: param_entries(kernel), init: param_entries(init) };
        assert(e == line_end(t@, p as int));
        let le = if e < t.len() && e > p && t[e - 1] == '\r' {
            e - 1
        } else {
            e
        };
        assert(t@.subrange(p as int, le as int) =~= line_at(t@, p as int));
        match line_step_in(&t, p, le, &mut kernel, &mut init) {
            None => {
                return None;
            },
            Some(Err(err)) => {
                return Some(Err(err));
            },
            Some(Ok(())) => {},
        }
        let ghost next = DocState { kernel: param_entries(kernel), init: param_entries(init) };
        assert(doc_from(t@, p as int, st) == doc_from(t@, e + 1, next));
        if e < t.len() {
            p = e + 1;
        } else {
            assert(doc_from(t@, e + 1, next) == doc_from(t@, e as int, next));
            p = e;
        }
    }
    let kernel_parameters = if params_is_empty(&kernel) {
        None
    } else {
        Some(kernel)
    };
    let init_parameters = if params_is_empty(&init) {
        None
    } else {
        Some(init)
    };
    Some(Ok(BootSettings { reboot_to_reconcile: None, kernel_parameters, init_parameters }))
}

/// Reads the boot config text `bootconfig` into boot settings. A text on
/// which a value list would be sliced inside a character is left out
/// (`try_parse_boot_config` reports it).
pub fn parse_boot_config_to_boot_settings(bootconfig: &str) -> (r: Result<BootSettings, BootConfigError>)
    requires
        completes(spec_parse_boot_config(bootconfig@)),
    ensures
        result_view(r) == spec_parse_boot_config(bootconfig@),
{
    match try_parse_boot_config(bootconfig) {
        Some(r) => r,
        None => {
            assert(false);
            Err(BootConfigError::ParentBootConfigKey)
        },
    }
}

/// Reads the boot config text `bootconfig` into boot settings; `None` where
/// a value list would be sliced inside a character.
pub fn try_parse_boot_config(bootconfig: &str) -> (r: Option<Result<BootSettings, BootConfigError>>)
    ensures
        opt_result_view(r) == spec_parse_boot_config(bootconfig@),
{
    let chars = chars_of(bootconfig);
    parse_boot_config_in(&chars)
}

} // verus!
