//! Deciding whether a change of boot settings needs a reboot.

use crate::document::{parse_boot_config_in, spec_parse_boot_config};
use crate::error::{completes, result_view, BootConfigError, ErrorView};
use crate::params::{params_eq, params_is_empty, same_entries, Entry, ParamMap};
use crate::settings::{default_boot_settings, params_view, spec_default_boot_settings, BootSettings, SettingsView};
use crate::text::chars_of;
use vstd::prelude::*;

verus! {

/// Whether a section's parameters differ in a way that matters: a missing
/// map counts as an empty one, and two maps are compared as `IndexMap`'s
/// `==` compares them, whatever the order of their entries.
pub open spec fn params_changed(old: Option<Seq<Entry>>, new: Option<Seq<Entry>>) -> bool {
    match (old, new) {
        (None, None) => false,
        (None, Some(n)) => n.len() > 0,
        (Some(o), None) => o.len() > 0,
        (Some(o), Some(n)) => !same_entries(o, n),
    }
}

/// A change of boot settings needs a reboot when the kernel or the init
/// parameters changed; `reboot_to_reconcile` itself does not count.
pub open spec fn spec_change_requires_reboot(old: SettingsView, new: SettingsView) -> bool {
    params_changed(old.kernel_parameters, new.kernel_parameters) || params_changed(
        old.init_parameters,
        new.init_parameters,
    )
}

/// Whether the parameters of one section changed materially.
pub fn parameters_changed_materially(old_params: &Option<ParamMap>, new_params: &Option<ParamMap>) -> (r:
    bool)
    ensures
        r == params_changed(params_view(*old_params), params_view(*new_params)),
{
    match (old_params, new_params) {
        (None, None) => false,
        (None, Some(new)) => !params_is_empty(new),
        (Some(old), None) => !params_is_empty(old),
        (Some(old), Some(new)) => !params_eq(old, new),
    }
}

/// Whether going from `old_boot_settings` to `new_boot_settings` needs a reboot.
pub fn boot_settings_change_requires_reboot(
    old_boot_settings: &BootSettings,
    new_boot_settings: &BootSettings,
) -> (r: bool)
    ensures
        r == spec_change_requires_reboot(old_boot_settings@, new_boot_settings@),
{
    parameters_changed_materially(
        &old_boot_settings.kernel_parameters,
        &new_boot_settings.kernel_parameters,
    ) || parameters_changed_materially(
        &old_boot_settings.init_parameters,
        &new_boot_settings.init_parameters,
    )
}

/// The reboot decision. The settings in force are those of the kernel's
/// boot config text `proc_bootconfig` (none set if there is none); the
/// wanted settings are `configured` (none set if absent). A reboot is needed
/// only if the wanted settings ask for `reboot_to_reconcile` and the change
/// needs one. A boot config text that is refused gives its error.
pub open spec fn spec_is_reboot_required(
    proc_bootconfig: Option<Seq<char>>,
    configured: Option<SettingsView>,
) -> Result<bool, ErrorView> {
    let new = match configured {
        Some(c) => c,
        None => spec_default_boot_settings(),
    };
    let decide = |old: SettingsView|
        if new.reboot_to_reconcile == Some(true) {
            spec_change_requires_reboot(old, new)
        } else {
            false
        };
    match proc_bootconfig {
        None => Ok(decide(spec_default_boot_settings())),
        Some(text) => match spec_parse_boot_config(text) {
            Err(e) => Err(e),
            Ok(old) => Ok(decide(old)),
        },
    }
}

/// The settings view of optional settings.
pub open spec fn optional_view(s: Option<BootSettings>) -> Option<SettingsView> {
    match s {
        Some(b) => Some(b@),
        None => None,
    }
}

/// The text view of an optional string.
pub open spec fn optional_text(s: Option<&str>) -> Option<Seq<char>> {
    match s {
        Some(t) => Some(t@),
        None => None,
    }
}

/// Decides whether the host should be rebooted for its boot settings to take
/// effect, from the kernel's current boot config text (if any) and the
/// configured boot settings (if any). A boot config text on which a value
/// list would be sliced inside a character is left out (see
/// `try_parse_boot_config`).
pub fn is_reboot_required(proc_bootconfig: Option<&str>, configured: Option<BootSettings>) -> (r:
    Result<bool, BootConfigError>)
    requires
        completes(spec_is_reboot_required(optional_text(proc_bootconfig), optional_view(configured))),
    ensures
        spec_is_reboot_required(optional_text(proc_bootconfig), optional_view(configured))
            == result_view(r),
{
    let old_boot_settings = match proc_bootconfig {
        Some(text) => {
            let chars = chars_of(text);
            match parse_boot_config_in(&chars) {
                Some(Ok(s)) => s,
                Some(Err(e)) => {
                    return Err(e);
                },
                None => {
                    assert(false);
                    return Err(BootConfigError::ParentBootConfigKey);
                },
            }
        },
        None => default_boot_settings(),
    };
    let new_boot_settings = match configured {
        Some(c) => c,
        None => default_boot_settings(),
    };
    let reboot_required = if new_boot_settings.reboot_to_reconcile == Some(true) {
        boot_settings_change_requires_reboot(&old_boot_settings, &new_boot_settings)
    } else {
        false
    };
    Ok(reboot_required)
}

} // verus!
