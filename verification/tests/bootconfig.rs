use indexmap::IndexMap;
use prairiedog::{
    boot_settings_change_requires_reboot, parse_boot_config_to_boot_settings,
    serialize_boot_settings_to_boot_config, BootSettings, DEFAULT_BOOTCONFIG_STR,
};
use serde_json::Value;

/// Builds an ordered parameter map from (key, values) pairs, in the order given.
fn to_boot_settings_params(params: Vec<(&str, Vec<&str>)>) -> Option<IndexMap<String, Vec<String>>> {
    Some(
        params
            .into_iter()
            .map(|(k, v)| {
                (
                    prairiedog::boot_config_key(k).unwrap(),
                    v.into_iter()
                        .map(|s| prairiedog::boot_config_value(s).unwrap())
                        .collect(),
                )
            })
            .collect(),
    )
}

fn params_json(params: &IndexMap<String, Vec<String>>) -> Value {
    let mut m = serde_json::Map::new();
    for (k, vs) in params {
        m.insert(
            k.clone(),
            Value::Array(vs.iter().map(|v| Value::String(v.clone())).collect()),
        );
    }
    Value::Object(m)
}

/// The JSON that the boot settings are handed on as.
fn settings_json(s: &BootSettings) -> Value {
    let mut m = serde_json::Map::new();
    if let Some(r) = s.reboot_to_reconcile {
        m.insert("reboot-to-reconcile".to_string(), Value::Bool(r));
    }
    if let Some(k) = &s.kernel_parameters {
        m.insert("kernel".to_string(), params_json(k));
    }
    if let Some(i) = &s.init_parameters {
        m.insert("init".to_string(), params_json(i));
    }
    Value::Object(m)
}

fn boot_config_to_boot_settings_json(text: &str) -> Result<Value, prairiedog::BootConfigError> {
    parse_boot_config_to_boot_settings(text).map(|s| settings_json(&s))
}

#[test]
fn boot_settings_to_string() {
    let boot_settings = BootSettings {
        reboot_to_reconcile: None,
        kernel_parameters: to_boot_settings_params(vec![("console", vec!["ttyS1,115200n8", "tty0"])]),
        init_parameters: to_boot_settings_params(vec![
            ("systemd.log_level", vec!["debug"]),
            ("splash", vec![]),
            ("weird", vec!["'single'quotes'", "\"double\"quotes\""]),
        ]),
    };
    let output = serialize_boot_settings_to_boot_config(&boot_settings).unwrap();
    assert_eq!(
        output,
        r#"init {
  systemd.log_level = "debug"
  splash
  weird = "'single'quotes'", '"double"quotes"'
}
kernel {
  console = "ttyS1,115200n8", "tty0"
}
"#
    );
}

#[test]
fn none_boot_settings_to_string() {
    let boot_settings = BootSettings {
        reboot_to_reconcile: None,
        kernel_parameters: None,
        init_parameters: None,
    };
    assert_eq!(serialize_boot_settings_to_boot_config(&boot_settings).unwrap(), r#""#);

    let init_none_boot_settings = BootSettings {
        reboot_to_reconcile: None,
        kernel_parameters: to_boot_settings_params(vec![
            ("console", vec!["ttyS1,115200n8", "tty0"]),
            ("usbcore.quirks", vec!["0781:5580:bk", "0a5c:5834:gij"]),
        ]),
        init_parameters: None,
    };
    let output = serialize_boot_settings_to_boot_config(&init_none_boot_settings).unwrap();
    assert_eq!(
        output,
        r#"kernel {
  console = "ttyS1,115200n8", "tty0"
  usbcore.quirks = "0781:5580:bk", "0a5c:5834:gij"
}
"#
    );
}

#[test]
fn empty_map_boot_settings_to_string() {
    let boot_settings = BootSettings {
        reboot_to_reconcile: None,
        kernel_parameters: Some(IndexMap::new()),
        init_parameters: None,
    };
    assert_eq!(serialize_boot_settings_to_boot_config(&boot_settings).unwrap(), r#""#);
}

const STANDARD_BOOTCONFIG: &str = r#"
        kernel.console = "ttyS1,115200n8", "tty0"
        init.splash
        init.splash2 =
        init.systemd.log_level = "debug"
        "#;

#[test]
fn standard_boot_config_to_boot_settings_json() {
    assert_eq!(
        serde_json::from_str::<Value>(
            r#"{"kernel":{"console":["ttyS1,115200n8","tty0"]},"init":{"systemd.log_level":["debug"],"splash":[],"splash2":[]}}"#
        )
        .unwrap(),
        boot_config_to_boot_settings_json(STANDARD_BOOTCONFIG).unwrap()
    );
}

const SPECIAL_BOOTCONFIG: &str = r#"
        kernel = ""
        kernel.console = "ttyS1,115200n8", "tty0"
        init = ""
        init.systemd.log_level = "debug"
        "#;

#[test]
fn special_boot_config_to_boot_settings_json() {
    assert_eq!(
        serde_json::from_str::<Value>(
            r#"{"kernel":{"console":["ttyS1,115200n8","tty0"]},"init":{"systemd.log_level":["debug"]}}"#
        )
        .unwrap(),
        boot_config_to_boot_settings_json(SPECIAL_BOOTCONFIG).unwrap()
    );
}

const EQUALS_BOOTCONFIG: &str = r#"
        kernel.dm-mod.create = "root,,,ro,0 0 delay PARTUUID=00000000-0000-0000-0000-000000000000/PARTNROFF=1 0 500"
        "#;

#[test]
fn equals_boot_config_to_boot_settings_json() {
    assert_eq!(
        serde_json::from_str::<Value>(
            r#"{"kernel":{"dm-mod.create":["root,,,ro,0 0 delay PARTUUID=00000000-0000-0000-0000-000000000000/PARTNROFF=1 0 500"]}}"#
        )
        .unwrap(),
        boot_config_to_boot_settings_json(EQUALS_BOOTCONFIG).unwrap()
    );
}

const UNSUPPORTED_BOOTCONFIG: &str = r#"
        do.androids.dream.of.electric.sheep = "?"
        kernel.console = "ttyS1,115200n8", "tty0"
        init.systemd.log_level = "debug"
        "#;

#[test]
fn unsupported_boot_config_to_boot_settings_json() {
    assert!(&boot_config_to_boot_settings_json(UNSUPPORTED_BOOTCONFIG).is_err());
}

const MISSING_COMMA: &str = r#"
        kernel = "?" "???"
        "#;

#[test]
fn missing_comma_boot_config_to_boot_settings_json() {
    assert!(&boot_config_to_boot_settings_json(MISSING_COMMA).is_err());
}

const BAD_UNQUOTED_VALUE: &str = r#"
        kernel = #bang
        "#;

#[test]
fn bad_unquoted_value_boot_config_to_boot_settings_json() {
    assert!(&boot_config_to_boot_settings_json(BAD_UNQUOTED_VALUE).is_err());
}

const KERNEL_INIT_PARENT_KEY: &str = r#"
        kernel = "foo"
        init = "bar"
        "#;

#[test]
fn kernel_init_parent_key_boot_config_to_boot_settings_json() {
    assert!(&boot_config_to_boot_settings_json(KERNEL_INIT_PARENT_KEY).is_err());
}

#[test]
fn test_default_boot_config_to_boot_settings_json() {
    assert_eq!(
        serde_json::from_str::<Value>(r#"{}"#).unwrap(),
        boot_config_to_boot_settings_json(DEFAULT_BOOTCONFIG_STR).unwrap()
    );
}

#[test]
fn test_bootconfig_output_preserves_insertion_order() {
    let boot_settings = BootSettings {
        reboot_to_reconcile: None,
        kernel_parameters: to_boot_settings_params(vec![
            ("zebra", vec!["last"]),
            ("apple", vec!["first"]),
            ("middle", vec!["middle"]),
        ]),
        init_parameters: to_boot_settings_params(vec![
            ("zoo", vec!["last"]),
            ("aardvark", vec!["first"]),
        ]),
    };
    let output = serialize_boot_settings_to_boot_config(&boot_settings).unwrap();
    let lines: Vec<&str> = output.lines().collect();
    assert_eq!(lines[0], "init {");
    assert_eq!(lines[1], "  zoo = \"last\"");
    assert_eq!(lines[2], "  aardvark = \"first\"");
    assert_eq!(lines[3], "}");
    assert_eq!(lines[4], "kernel {");
    assert_eq!(lines[5], "  zebra = \"last\"");
    assert_eq!(lines[6], "  apple = \"first\"");
    assert_eq!(lines[7], "  middle = \"middle\"");
    assert_eq!(lines[8], "}");
}

#[test]
fn test_insertion_order_preserved_through_serialization() {
    let toml_input = r#"
            [kernel]
            hugepagesz = ["1G"]
            hugepages = ["4"]
            transparent_hugepage = ["never"]
        "#;
    let table: IndexMap<String, IndexMap<String, Vec<String>>> = toml::from_str(toml_input).unwrap();
    let boot_settings = BootSettings {
        reboot_to_reconcile: None,
        kernel_parameters: table.get("kernel").cloned(),
        init_parameters: table.get("init").cloned(),
    };
    let output = serialize_boot_settings_to_boot_config(&boot_settings).unwrap();
    let lines: Vec<&str> = output.lines().collect();

    assert_eq!(lines[0], "kernel {");
    assert_eq!(lines[1], "  hugepagesz = \"1G\"");
    assert_eq!(lines[2], "  hugepages = \"4\"");
    assert_eq!(lines[3], "  transparent_hugepage = \"never\"");
    assert_eq!(lines[4], "}");
}

#[test]
fn test_unchanged_boot_settings_require_no_reboot() {
    let a = BootSettings {
        reboot_to_reconcile: None,
        kernel_parameters: None,
        init_parameters: to_boot_settings_params(vec![("systemd.log_level", vec!["debug"])]),
    };
    let b = BootSettings {
        reboot_to_reconcile: None,
        kernel_parameters: None,
        init_parameters: to_boot_settings_params(vec![("systemd.log_level", vec!["debug"])]),
    };
    assert!(!boot_settings_change_requires_reboot(&a, &b));
}

#[test]
fn test_changed_boot_settings_require_a_reboot() {
    let a = BootSettings {
        reboot_to_reconcile: None,
        kernel_parameters: None,
        init_parameters: to_boot_settings_params(vec![("systemd.log_level", vec!["debug"])]),
    };
    let b = BootSettings {
        reboot_to_reconcile: None,
        kernel_parameters: to_boot_settings_params(vec![("debug", vec![""])]),
        init_parameters: to_boot_settings_params(vec![("systemd.log_level", vec!["debug"])]),
    };
    assert!(boot_settings_change_requires_reboot(&a, &b));
}

#[test]
fn test_missing_boot_settings_require_no_reboot() {
    let a = BootSettings {
        reboot_to_reconcile: None,
        kernel_parameters: None,
        init_parameters: to_boot_settings_params(vec![]),
    };
    let b = BootSettings {
        reboot_to_reconcile: None,
        kernel_parameters: to_boot_settings_params(vec![]),
        init_parameters: None,
    };
    assert!(!boot_settings_change_requires_reboot(&a, &b));
}

#[test]
fn test_changed_bottlerocket_boot_settings_require_no_reboot() {
    let a = BootSettings {
        reboot_to_reconcile: None,
        kernel_parameters: None,
        init_parameters: None,
    };
    let b = BootSettings {
        reboot_to_reconcile: Some(true),
        kernel_parameters: None,
        init_parameters: None,
    };
    assert!(!boot_settings_change_requires_reboot(&a, &b));
}
