//! Writing boot settings out as boot config text for the kernel, in the
//! brace-grouped form: `init { ... }` then `kernel { ... }`, one key per line,
//! in the order of the parameter maps.

use crate::document::{init_word, kernel_word};
use crate::error::BootConfigError;
use crate::params::{param_entries, params_get_index, params_len, Entry, ParamMap};
use crate::settings::{BootSettings, SettingsView};
use crate::text::{chars_of, push_char};
use vstd::prelude::*;

verus! {

/// The quote a value is written in: a single quote if the value holds a
/// double quote, else a double quote.
pub open spec fn quote_for(v: Seq<char>) -> char {
    if v.contains('"') {
        '\''
    } else {
        '"'
    }
}

/// A value as written after its key: a space, then the value in its quotes.
pub open spec fn quoted_value(v: Seq<char>) -> Seq<char> {
    seq![' ', quote_for(v)] + v + seq![quote_for(v)]
}

/// Value `m` of the list as written: a comma before all but the first.
pub open spec fn value_piece(vs: Seq<Seq<char>>, m: int) -> Seq<char> {
    (if m > 0 {
        seq![',']
    } else {
        Seq::empty()
    }) + quoted_value(vs[m])
}

/// The values from index `m` on, as written.
pub open spec fn value_list_from(vs: Seq<Seq<char>>, m: int) -> Seq<char>
    decreases vs.len() - m,
{
    if m < 0 || m >= vs.len() {
        Seq::empty()
    } else {
        value_piece(vs, m) + value_list_from(vs, m + 1)
    }
}

/// The values, each quoted, separated by commas.
pub open spec fn value_list_text(vs: Seq<Seq<char>>) -> Seq<char> {
    value_list_from(vs, 0)
}

/// The line of one entry: two spaces, the key, and ` =` and the values if
/// there are values.
pub open spec fn entry_text(e: Entry) -> Seq<char> {
    seq![' ', ' '] + e.0 + (if e.1.len() > 0 {
        seq![' ', '='] + value_list_text(e.1)
    } else {
        Seq::empty()
    }) + seq!['\n']
}

/// The lines of the entries, in order.
pub open spec fn entries_text(es: Seq<Entry>) -> Seq<char>
    decreases es.len(),
{
    if es.len() == 0 {
        Seq::empty()
    } else {
        entries_text(es.drop_last()) + entry_text(es.last())
    }
}

/// A section `prefix { ... }`; nothing for a section without entries.
pub open spec fn section_text(prefix: Seq<char>, es: Seq<Entry>) -> Seq<char> {
    if es.len() == 0 {
        Seq::empty()
    } else {
        prefix + seq![' ', '{', '\n'] + entries_text(es) + seq!['}', '\n']
    }
}

/// The section of an optional parameter map.
pub open spec fn optional_section_text(prefix: Seq<char>, p: Option<Seq<Entry>>) -> Seq<char> {
    match p {
        Some(es) => section_text(prefix, es),
        None => Seq::empty(),
    }
}

/// The boot config text of the settings: the `init` section, then the
/// `kernel` section.
pub open spec fn boot_config_text(s: SettingsView) -> Seq<char> {
    optional_section_text(init_word(), s.init_parameters) + optional_section_text(
        kernel_word(),
        s.kernel_parameters,
    )
}

fn contains_double_quote(v: &String) -> (r: bool)
    ensures
        r == v@.contains('"'),
{
    let cs = chars_of(v.as_str());
    let mut i: usize = 0;
    while i < cs.len()
        invariant
            cs@ == v@,
            i <= cs.len(),
            forall|j: int| 0 <= j < i ==> cs@[j] != '"',
        decreases cs.len() - i,
    {
        if cs[i] == '"' {
            assert(v@[i as int] == '"');
            return true;
        }
        i = i + 1;
    }
    false
}

/// Appends the values, quoted and comma-separated, to `output`.
pub fn append_boot_config_value_list(values: &Vec<String>, output: &mut String)
    ensures
        final(output)@ == old(output)@ + value_list_text(values.deep_view()),
{
    let ghost vs = values.deep_view();
    let mut i: usize = 0;
    while i < values.len()
        invariant
            vs == values.deep_view(),
            i <= values.len(),
            old(output)@ + value_list_from(vs, 0) == output@ + value_list_from(vs, i as int),
        decreases values.len() - i,
    {
        let ghost before = output@;
        if i > 0 {
            push_char(output, ',');
        }
        let v = &values[i];
        assert(vs[i as int] == v@);
        let q = if contains_double_quote(v) {
            '\''
        } else {
            '"'
        };
        push_char(output, ' ');
        push_char(output, q);
        output.append(v.as_str());
        push_char(output, q);
        assert(output@ =~= before + value_piece(vs, i as int));
        assert(before + value_list_from(vs, i as int) =~= output@ + value_list_from(vs, i + 1));
        i = i + 1;
    }
    assert(value_list_from(vs, i as int) =~= Seq::<char>::empty());
    assert(output@ =~= old(output)@ + value_list_from(vs, 0));
}

/// Appends the section `prefix { ... }` of `params` to `output`, its entries
/// in the map's order; nothing if `params` is empty.
pub fn write_params(output: &mut String, params: &ParamMap, prefix: &str)
    ensures
        final(output)@ == old(output)@ + section_text(prefix@, param_entries(*params)),
{
    let ghost es = param_entries(*params);
    let n = params_len(params);
    if n == 0 {
        assert(old(output)@ + section_text(prefix@, es) =~= old(output)@);
        return ;
    }
    output.append(prefix);
    push_char(output, ' ');
    push_char(output, '{');
    push_char(output, '\n');
    let ghost head = output@;
    assert(es.take(0) =~= Seq::<Entry>::empty());
    let mut i: usize = 0;
    while i < n
        invariant
            n == es.len(),
            es == param_entries(*params),
            i <= n,
            output@ == head + entries_text(es.take(i as int)),
        decreases n - i,
    {
        let ghost before = output@;
        let (key, values) = match params_get_index(params, i) {
            Some(e) => e,
            None => {
                assert(false);
                return ;
            },
        };
        push_char(output, ' ');
        push_char(output, ' ');
        output.append(key.as_str());
        if values.len() > 0 {
            push_char(output, ' ');
            push_char(output, '=');
            append_boot_config_value_list(values, output);
        }
        push_char(output, '\n');
        assert(es.take(i + 1).drop_last() =~= es.take(i as int));
        assert(output@ =~= before + entry_text(es[i as int]));
        i = i + 1;
    }
    push_char(output, '}');
    push_char(output, '\n');
    assert(es.take(n as int) =~= es);
    assert(output@ =~= old(output)@ + section_text(prefix@, es));
}

/// The boot config text of `boot_settings` (`init` before `kernel`); it
/// cannot fail.
pub fn serialize_boot_settings_to_boot_config(boot_settings: &BootSettings) -> (r: Result<
    String,
    BootConfigError,
>)
    ensures
        r matches Ok(s) && s@ == boot_config_text(boot_settings@),
{
    let mut output = String::new();
    let init = "init";
    let kernel = "kernel";
    proof {
        reveal_strlit("init");
        reveal_strlit("kernel");
    }
    assert(init@ =~= init_word());
    assert(kernel@ =~= kernel_word());
    if let Some(init_param) = &boot_settings.init_parameters {
        write_params(&mut output, init_param, init);
    }
    let ghost mid = output@;
    assert(mid =~= optional_section_text(init_word(), boot_settings@.init_parameters));
    if let Some(kernel_param) = &boot_settings.kernel_parameters {
        write_params(&mut output, kernel_param, kernel);
    }
    assert(output@ =~= boot_config_text(boot_settings@));
    Ok(output)
}

/// The boot config written when no boot settings are configured: empty
/// `kernel` and `init` keys.
pub const DEFAULT_BOOTCONFIG_STR: &'static str = "\n    kernel = \"\"\n    init = \"\"\n";

/// The boot config text to hand to the kernel: that of the configured boot
/// settings, or `DEFAULT_BOOTCONFIG_STR` if none are configured.
pub fn boot_config_contents(boot_settings: Option<&BootSettings>) -> (r: String)
    ensures
        r@ == match boot_settings {
            Some(s) => boot_config_text(s@),
            None => DEFAULT_BOOTCONFIG_STR@,
        },
{
    match boot_settings {
        Some(s) => match serialize_boot_settings_to_boot_config(s) {
            Ok(text) => text,
            Err(_) => {
                assert(false);
                String::new()
            },
        },
        None => DEFAULT_BOOTCONFIG_STR.to_owned(),
    }
}

} // verus!
