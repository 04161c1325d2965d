//! The boot settings: the `kernel` and `init` parameters of the boot config,
//! and whether a change of them may reboot the host.

use crate::params::{param_entries, Entry, ParamMap};
use vstd::prelude::*;

verus! {

/// Boot settings: the parameters given to the kernel and to init, each an
/// ordered map from keys to lists of values, absent where not set.
#[derive(Debug)]
pub struct BootSettings {
    pub reboot_to_reconcile: Option<bool>,
    pub kernel_parameters: Option<ParamMap>,
    pub init_parameters: Option<ParamMap>,
}

/// Boot settings with each parameter map seen as its entries in order.
pub struct SettingsView {
    pub reboot_to_reconcile: Option<bool>,
    pub kernel_parameters: Option<Seq<Entry>>,
    pub init_parameters: Option<Seq<Entry>>,
}

/// The entries of an optional parameter map.
pub open spec fn params_view(p: Option<ParamMap>) -> Option<Seq<Entry>> {
    match p {
        Some(m) => Some(param_entries(m)),
        None => None,
    }
}

impl View for BootSettings {
    type V = SettingsView;

    open spec fn view(&self) -> SettingsView {
        SettingsView {
            reboot_to_reconcile: self.reboot_to_reconcile,
            kernel_parameters: params_view(self.kernel_parameters),
            init_parameters: params_view(self.init_parameters),
        }
    }
}

/// The boot settings where none is set.
pub open spec fn spec_default_boot_settings() -> SettingsView {
    SettingsView { reboot_to_reconcile: None, kernel_parameters: None, init_parameters: None }
}

/// The boot settings where none is set.
pub fn default_boot_settings() -> (s: BootSettings)
    ensures
        s@ == spec_default_boot_settings(),
{
    BootSettings { reboot_to_reconcile: None, kernel_parameters: None, init_parameters: None }
}

} // verus!
