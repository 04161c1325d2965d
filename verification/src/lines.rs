//! What one parameter line of a boot config text reads as.

use crate::comments::{lemma_index_of_concat, lemma_trim_ends, lemma_trim_of_trimmed};
use crate::document::{
    doc_from, init_prefix, kernel_prefix, line_at, line_end, spec_parse_boot_config, DocState,
};
use crate::error::ErrorView;
use crate::params::Entry;
use crate::settings::SettingsView;
use crate::text::{index_of, is_white_space, lemma_index_of, starts_with, trim};
use crate::validate::{is_key_char, is_valid_key};
use crate::values::spec_parse_values;
use vstd::prelude::*;

verus! {

/// A boot config text of one line `kernel.<key>=<values>` (or
/// `init.<key>=<values>`) reads as boot settings whose only section is that
/// one, holding the single parameter `<key>` with the values the list reads
/// as; a refused list gives its error.
pub proof fn law_one_parameter_line(prefix: Seq<char>, k: Seq<char>, w: Seq<char>)
    requires
        prefix == kernel_prefix() || prefix == init_prefix(),
        is_valid_key(prefix + k),
        !w.contains('\n'),
        trim(w) == w,
    ensures
        spec_parse_boot_config(prefix + k + seq!['='] + w) == match spec_parse_values(w) {
            Err(e) => Err(e),
            Ok(vs) => Ok(
                SettingsView {
                    reboot_to_reconcile: None,
                    kernel_parameters: if prefix == kernel_prefix() {
                        Some(seq![(k, vs)])
                    } else {
                        None
                    },
                    init_parameters: if prefix == kernel_prefix() {
                        None
                    } else {
                        Some(seq![(k, vs)])
                    },
                },
            ),
        },
{
    let key = prefix + k;
    let t = key + seq!['='] + w;
    let st0 = DocState { kernel: Seq::empty(), init: Seq::empty() };
    assert(key.len() > 0 && key[0] == prefix[0]);
    assert(prefix[0] == 'k' || prefix[0] == 'i');
    assert(forall|i: int| 0 <= i < key.len() ==> is_key_char(#[trigger] key[i]));
    // The line has no newline and no white space at its ends.
    assert(t[0] == key[0]);
    if w.len() > 0 {
        lemma_trim_ends(w);
        assert(t.last() == w.last());
    } else {
        assert(t.last() == '=');
    }
    lemma_trim_of_trimmed(t);
    lemma_index_of(t, '\n');
    assert(index_of(t, '\n') == t.len()) by {
        if index_of(t, '\n') < t.len() {
            let i = index_of(t, '\n') as int;
            if i < key.len() {
                assert(t[i] == key[i]);
            } else if i > key.len() {
                assert(t[i] == w[i - key.len() - 1]);
                assert(w.contains('\n'));
            }
        }
    }
    assert(t.subrange(0, t.len() as int) =~= t);
    assert(line_end(t, 0) == t.len());
    assert(line_at(t, 0) == t);
    assert(!starts_with(crate::text::trim_start(t), seq!['#'])) by {
        assert(crate::text::leading_ws(t) == 0);
        assert(crate::text::trim_start(t) =~= t);
        if starts_with(t, seq!['#']) {
            assert(t.take(1)[0] == t[0]);
        }
    }
    // The key runs up to the first `=`.
    lemma_index_of(key, '=');
    assert(index_of(key, '=') == key.len()) by {
        if index_of(key, '=') < key.len() {
            assert(is_key_char(key[index_of(key, '=') as int]));
        }
    }
    assert(key + seq!['='] + w =~= key + (seq!['='] + w));
    lemma_index_of_concat(key, seq!['='] + w, '=');
    assert(index_of(t, '=') == key.len());
    assert(t.take(key.len() as int) =~= key);
    assert(!is_white_space(key.last())) by {
        assert(is_key_char(key[key.len() - 1]));
    }
    lemma_trim_of_trimmed(key);
    assert(t.skip(key.len() as int + 1) =~= w);
    // The key is filed under its section.
    let kp = kernel_prefix();
    let ip = init_prefix();
    if prefix == kp {
        assert(starts_with(key, kp)) by {
            assert(key.take(7) =~= kp);
        }
        assert(key.skip(7) =~= k);
    } else {
        assert(!starts_with(key, kp)) by {
            if key.len() >= 7 {
                assert(key.take(7)[0] == 'i');
            }
        }
        assert(starts_with(key, ip)) by {
            assert(key.take(5) =~= ip);
        }
        assert(key.skip(5) =~= k);
    }
    match spec_parse_values(w) {
        Ok(vs) => {
            let e: Entry = (k, vs);
            assert(Seq::<Entry>::empty().push(e) =~= seq![e]);
            let next = if prefix == kp {
                DocState { kernel: seq![e], init: Seq::empty() }
            } else {
                DocState { kernel: Seq::empty(), init: seq![e] }
            };
            assert(doc_from(t, t.len() + 1int, next) == Ok::<DocState, ErrorView>(next));
            assert(doc_from(t, 0, st0) == Ok::<DocState, ErrorView>(next));
        },
        Err(err) => {
            assert(doc_from(t, 0, st0) == Err::<DocState, ErrorView>(err));
        },
    }
}

} // verus!
