//! What holds of the reboot decision over all boot settings, and of what the
//! reader reads out of any boot config text.

use crate::document::{
    doc_from, init_prefix, kernel_prefix, line_at, line_end, line_step,
    spec_parse_boot_config, DocState,
};
use crate::params::{has_entry, insert_entry, key_index, same_entries, Entry};
use crate::text::{index_of, lemma_index_of, trim};
use crate::validate::{is_valid_key, is_valid_value};
use crate::values::{scan_finish, scan_from, scan_step, spec_parse_values, scan_start, ScanState};
use crate::reboot::{params_changed, spec_change_requires_reboot, spec_is_reboot_required};
use crate::settings::SettingsView;
use crate::error::ErrorView;
use vstd::prelude::*;

verus! {

/// No two entries share a key (as in every `IndexMap`).
pub open spec fn keys_distinct(es: Seq<Entry>) -> bool {
    forall|i: int, j: int| 0 <= i < j < es.len() ==> es[i].0 != es[j].0
}

proof fn lemma_same_entries_reflexive(es: Seq<Entry>)
    ensures
        same_entries(es, es),
{
    assert forall|i: int| 0 <= i < es.len() implies has_entry(es, #[trigger] es[i]) by {
        assert(es[i] == es[i]);
    }
}

/// Settings that do not change need no reboot.
pub proof fn law_unchanged_settings_need_no_reboot(s: SettingsView)
    ensures
        !spec_change_requires_reboot(s, s),
{
    if let Some(es) = s.kernel_parameters {
        lemma_same_entries_reflexive(es);
    }
    if let Some(es) = s.init_parameters {
        lemma_same_entries_reflexive(es);
    }
}

/// Only the parameters count: `reboot_to_reconcile` on either side does not
/// change the decision.
pub proof fn law_reboot_to_reconcile_does_not_count(
    old: SettingsView,
    new: SettingsView,
    old_flag: Option<bool>,
    new_flag: Option<bool>,
)
    ensures
        spec_change_requires_reboot(old, new) == spec_change_requires_reboot(
            SettingsView { reboot_to_reconcile: old_flag, ..old },
            SettingsView { reboot_to_reconcile: new_flag, ..new },
        ),
{
}

/// A missing parameter map counts as an empty one, on either side.
pub proof fn law_missing_map_is_empty_map(x: Option<Seq<Entry>>)
    ensures
        params_changed(None, x) == params_changed(Some(Seq::empty()), x),
        params_changed(x, None) == params_changed(x, Some(Seq::empty())),
{
    if let Some(es) = x {
        if es.len() > 0 {
            assert(!same_entries(Seq::empty(), es));
            assert(!same_entries(es, Seq::empty()));
        } else {
            assert(same_entries(Seq::empty(), es));
            assert(same_entries(es, Seq::empty()));
        }
    }
}

/// Two parameter maps are the same, as `IndexMap`'s `==` has it, exactly when
/// they have the same length and hold the same set of entries, whatever
/// their order.
pub proof fn law_maps_compare_as_sets(a: Seq<Entry>, b: Seq<Entry>)
    ensures
        same_entries(a, b) <==> a.len() == b.len() && a.to_set() == b.to_set(),
{
    if same_entries(a, b) {
        assert forall|e: Entry| a.to_set().contains(e) <==> b.to_set().contains(e) by {
            if a.to_set().contains(e) {
                let i = choose|i: int| 0 <= i < a.len() && a[i] == e;
                assert(has_entry(b, a[i]));
            }
            if b.to_set().contains(e) {
                let j = choose|j: int| 0 <= j < b.len() && b[j] == e;
                assert(has_entry(a, b[j]));
            }
        }
        assert(a.to_set() =~= b.to_set());
    }
    if a.len() == b.len() && a.to_set() == b.to_set() {
        assert forall|i: int| 0 <= i < a.len() implies has_entry(b, #[trigger] a[i]) by {
            assert(a.to_set().contains(a[i]));
            assert(b.to_set().contains(a[i]));
        }
        assert forall|j: int| 0 <= j < b.len() implies has_entry(a, #[trigger] b[j]) by {
            assert(b.to_set().contains(b[j]));
            assert(a.to_set().contains(b[j]));
        }
    }
}

/// The decision does not depend on which settings are the old ones.
pub proof fn law_reboot_decision_is_symmetric(old: SettingsView, new: SettingsView)
    ensures
        spec_change_requires_reboot(old, new) == spec_change_requires_reboot(new, old),
{
}

/// All the values are boot config values.
pub open spec fn values_valid(vs: Seq<Seq<char>>) -> bool {
    forall|j: int| 0 <= j < vs.len() ==> is_valid_value(#[trigger] vs[j])
}

/// Entries with distinct keys, each key a boot config key and each value a
/// boot config value.
pub open spec fn entries_valid(es: Seq<Entry>) -> bool {
    &&& keys_distinct(es)
    &&& forall|i: int| 0 <= i < es.len() ==> is_valid_key(#[trigger] es[i].0) && values_valid(es[i].1)
}

/// A parameter map that is absent or holds valid entries, at least one.
pub open spec fn section_valid(p: Option<Seq<Entry>>) -> bool {
    p matches Some(es) ==> es.len() > 0 && entries_valid(es)
}

proof fn lemma_key_index(es: Seq<Entry>, k: Seq<char>)
    ensures
        key_index(es, k) matches Some(i) ==> 0 <= i < es.len() && es[i].0 == k,
        key_index(es, k) is None ==> forall|i: int| 0 <= i < es.len() ==> #[trigger] es[i].0 != k,
    decreases es.len(),
{
    if es.len() > 0 && es[0].0 != k {
        lemma_key_index(es.drop_first(), k);
        if key_index(es, k) is None {
            assert forall|i: int| 0 <= i < es.len() implies #[trigger] es[i].0 != k by {
                if i > 0 {
                    assert(es[i] == es.drop_first()[i - 1]);
                }
            }
        }
    }
}

proof fn lemma_insert_entry_valid(es: Seq<Entry>, k: Seq<char>, vs: Seq<Seq<char>>)
    requires
        entries_valid(es),
        is_valid_key(k),
        values_valid(vs),
    ensures
        entries_valid(insert_entry(es, k, vs)),
        insert_entry(es, k, vs).len() > 0,
{
    lemma_key_index(es, k);
    let r = insert_entry(es, k, vs);
    match key_index(es, k) {
        Some(i) => {
            assert forall|a: int, b: int| 0 <= a < b < r.len() implies r[a].0 != r[b].0 by {
                assert(r[a].0 == es[a].0 && r[b].0 == es[b].0);
            }
        },
        None => {
            assert forall|a: int, b: int| 0 <= a < b < r.len() implies r[a].0 != r[b].0 by {
                if b == es.len() {
                    assert(es[a].0 != k);
                }
            }
        },
    }
}

proof fn lemma_scan_values_valid(input: Seq<char>, t: Seq<char>, k: int, st: ScanState)
    requires
        values_valid(st.elements),
    ensures
        scan_from(input, t, k, st) matches Ok(vs) ==> values_valid(vs),
    decreases t.len() - k,
{
    if k < 0 || k >= t.len() {
        match scan_finish(input, t, st) {
            Ok(vs) => {
                assert forall|j: int| 0 <= j < vs.len() implies is_valid_value(#[trigger] vs[j]) by {
                    if j < st.elements.len() {
                        assert(vs[j] == st.elements[j]);
                    }
                }
            },
            _ => {},
        }
    } else {
        match scan_step(input, t, st, k, t[k]) {
            Ok(next) => {
                assert forall|j: int| 0 <= j < next.elements.len() implies is_valid_value(
                    #[trigger] next.elements[j],
                ) by {
                    if j < st.elements.len() {
                        assert(next.elements[j] == st.elements[j]);
                    }
                }
                lemma_scan_values_valid(input, t, k + 1, next);
            },
            _ => {},
        }
    }
}

proof fn lemma_skip_key_valid(key: Seq<char>, n: int)
    requires
        is_valid_key(key),
        0 <= n <= key.len(),
    ensures
        is_valid_key(key.skip(n)),
{
    assert forall|i: int| 0 <= i < key.skip(n).len() implies crate::validate::is_key_char(
        #[trigger] key.skip(n)[i],
    ) by {
        assert(key.skip(n)[i] == key[n + i]);
    }
}

proof fn lemma_doc_valid(t: Seq<char>, p: int, st: DocState)
    requires
        entries_valid(st.kernel),
        entries_valid(st.init),
    ensures
        doc_from(t, p, st) matches Ok(r) ==> entries_valid(r.kernel) && entries_valid(r.init),
    decreases t.len() + 1 - p,
{
    if 0 <= p < t.len() {
        lemma_index_of(t.subrange(p, t.len() as int), '\n');
        let line = line_at(t, p);
        match line_step(st, line) {
            Ok(next) => {
                if !crate::text::starts_with(crate::text::trim_start(line), seq!['#']) {
                    let l = trim(line);
                    let e = index_of(l, '=') as int;
                    lemma_index_of(l, '=');
                    let key = trim(l.take(e));
                    if e < l.len() {
                        reveal(spec_parse_values);
                        lemma_scan_values_valid(
                            trim(l.skip(e + 1)),
                            trim(trim(l.skip(e + 1))),
                            0,
                            scan_start(),
                        );
                    }
                    if crate::text::starts_with(key, kernel_prefix()) {
                        lemma_skip_key_valid(key, 7);
                        let vs = if e < l.len() {
                            match spec_parse_values(trim(l.skip(e + 1))) {
                                Ok(v) => v,
                                _ => Seq::empty(),
                            }
                        } else {
                            Seq::empty()
                        };
                        lemma_insert_entry_valid(st.kernel, key.skip(7), vs);
                    } else if crate::text::starts_with(key, init_prefix()) {
                        lemma_skip_key_valid(key, 5);
                        let vs = if e < l.len() {
                            match spec_parse_values(trim(l.skip(e + 1))) {
                                Ok(v) => v,
                                _ => Seq::empty(),
                            }
                        } else {
                            Seq::empty()
                        };
                        lemma_insert_entry_valid(st.init, key.skip(5), vs);
                    }
                }
                lemma_doc_valid(t, line_end(t, p) + 1, next);
            },
            _ => {},
        }
    }
}

/// What the parser reads out of any boot config text are valid boot
/// settings: `reboot_to_reconcile` unset, each section absent or non-empty,
/// keys distinct and all boot config keys, values all boot config values.
pub proof fn law_parsed_settings_are_valid(doc: Seq<char>)
    ensures
        spec_parse_boot_config(doc) matches Ok(s) ==> {
            &&& s.reboot_to_reconcile is None
            &&& section_valid(s.kernel_parameters)
            &&& section_valid(s.init_parameters)
        },
{
    lemma_doc_valid(trim(doc), 0, DocState { kernel: Seq::empty(), init: Seq::empty() });
}

/// A reboot is only ever asked for when the wanted settings set
/// `reboot_to_reconcile`.
pub proof fn law_reboot_only_when_asked(
    proc_bootconfig: Option<Seq<char>>,
    configured: Option<SettingsView>,
)
    ensures
        spec_is_reboot_required(proc_bootconfig, configured) matches Ok(true) ==> (
        configured matches Some(c) && c.reboot_to_reconcile == Some(true)),
{
}

/// When the kernel already runs with the wanted parameters, no reboot is
/// needed, whatever `reboot_to_reconcile` says.
pub proof fn law_settings_in_force_need_no_reboot(text: Seq<char>, configured: SettingsView)
    requires
        spec_parse_boot_config(text) matches Ok(old) && old.kernel_parameters
            == configured.kernel_parameters && old.init_parameters == configured.init_parameters,
    ensures
        spec_is_reboot_required(Some(text), Some(configured)) == Ok::<
            bool,
            crate::error::ErrorView,
        >(false),
{
    let old = spec_parse_boot_config(text)->Ok_0;
    law_unchanged_settings_need_no_reboot(configured);
    law_reboot_to_reconcile_does_not_count(
        configured,
        configured,
        old.reboot_to_reconcile,
        configured.reboot_to_reconcile,
    );
    assert(SettingsView { reboot_to_reconcile: old.reboot_to_reconcile, ..configured } == old);
}

/// The entries of a section, a missing map having none.
pub open spec fn section_entries(p: Option<Seq<Entry>>) -> Seq<Entry> {
    match p {
        Some(es) => es,
        None => Seq::empty(),
    }
}

/// Two sections differ when their entries, taken as sets, or their numbers
/// of entries differ; a missing map is an empty one.
pub open spec fn sections_differ(old: Option<Seq<Entry>>, new: Option<Seq<Entry>>) -> bool {
    let o = section_entries(old);
    let n = section_entries(new);
    !(o.len() == n.len() && o.to_set() == n.to_set())
}

/// A section changed materially exactly when its entries differ as sets or
/// in number, a missing map counting as empty: a key added, removed or given
/// other values is a change; a reordering is not.
pub proof fn law_section_change_is_a_set_difference(
    old: Option<Seq<Entry>>,
    new: Option<Seq<Entry>>,
)
    ensures
        params_changed(old, new) == sections_differ(old, new),
{
    let o = section_entries(old);
    let n = section_entries(new);
    law_maps_compare_as_sets(o, n);
    if o.len() == 0 {
        assert(o.to_set() =~= Set::<Entry>::empty());
    }
    if n.len() == 0 {
        assert(n.to_set() =~= Set::<Entry>::empty());
    }
    if o.len() == 0 && n.len() == 0 {
        assert(o.to_set() == n.to_set());
    }
}

/// A change of boot settings needs a reboot exactly when the kernel
/// parameters or the init parameters differ, each section compared on its
/// own.
pub proof fn law_change_needs_reboot_when_a_section_differs(old: SettingsView, new: SettingsView)
    ensures
        spec_change_requires_reboot(old, new) == (sections_differ(
            old.kernel_parameters,
            new.kernel_parameters,
        ) || sections_differ(old.init_parameters, new.init_parameters)),
{
    law_section_change_is_a_set_difference(old.kernel_parameters, new.kernel_parameters);
    law_section_change_is_a_set_difference(old.init_parameters, new.init_parameters);
}

/// The reboot decision against the boot config in force: when the text in
/// force reads as `old`, a reboot is required exactly when the wanted
/// settings set `reboot_to_reconcile` to true and their kernel or init
/// parameters differ from those of `old`.
pub proof fn law_reboot_decision_against_boot_config(text: Seq<char>, wanted: SettingsView)
    requires
        spec_parse_boot_config(text) is Ok,
    ensures
        ({
            let old = spec_parse_boot_config(text)->Ok_0;
            spec_is_reboot_required(Some(text), Some(wanted)) == Ok::<bool, ErrorView>(
                wanted.reboot_to_reconcile == Some(true) && (sections_differ(
                    old.kernel_parameters,
                    wanted.kernel_parameters,
                ) || sections_differ(old.init_parameters, wanted.init_parameters)),
            )
        }),
{
    let old = spec_parse_boot_config(text)->Ok_0;
    law_change_needs_reboot_when_a_section_differs(old, wanted);
}

/// Without a boot config in force nothing is set, so a reboot is required
/// exactly when the wanted settings set `reboot_to_reconcile` to true and
/// hold kernel or init parameters; without wanted settings none is required.
pub proof fn law_reboot_decision_without_boot_config(wanted: SettingsView)
    ensures
        spec_is_reboot_required(None, Some(wanted)) == Ok::<bool, ErrorView>(
            wanted.reboot_to_reconcile == Some(true) && (section_entries(
                wanted.kernel_parameters,
            ).len() > 0 || section_entries(wanted.init_parameters).len() > 0),
        ),
        spec_is_reboot_required(None, None) == Ok::<bool, ErrorView>(false),
{
    let none = crate::settings::spec_default_boot_settings();
    law_change_needs_reboot_when_a_section_differs(none, wanted);
    assert(section_entries(none.kernel_parameters).to_set() =~= Set::<Entry>::empty());
    let k = section_entries(wanted.kernel_parameters);
    let i = section_entries(wanted.init_parameters);
    if k.len() == 0 {
        assert(k.to_set() =~= Set::<Entry>::empty());
    }
    if i.len() == 0 {
        assert(i.to_set() =~= Set::<Entry>::empty());
    }
}

} // verus!
