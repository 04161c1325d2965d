//! Boot configuration handling for Bottlerocket: reading the kernel's boot
//! config text into boot settings, writing boot settings back out as boot
//! config text, and deciding whether a change of boot settings needs a reboot.

pub mod document;
pub mod comments;
pub mod error;
pub mod laws;
pub mod lines;
pub mod params;
pub mod pieces;
pub mod reboot;
pub mod render;
pub mod roundtrip;
pub mod settings;
pub mod text;
pub mod validate;
pub mod values;

pub use document::{parse_boot_config_to_boot_settings, try_parse_boot_config};
pub use error::BootConfigError;
pub use params::ParamMap;
pub use reboot::{boot_settings_change_requires_reboot, is_reboot_required, parameters_changed_materially};
pub use render::{
    append_boot_config_value_list, boot_config_contents, serialize_boot_settings_to_boot_config,
    write_params, DEFAULT_BOOTCONFIG_STR,
};
pub use settings::{default_boot_settings, BootSettings};
pub use validate::{boot_config_key, boot_config_value, checked_params};
pub use values::{parse_boot_config_values, parse_value, try_parse_boot_config_values};
