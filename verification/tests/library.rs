use indexmap::IndexMap;
use prairiedog::{
    append_boot_config_value_list, boot_config_contents, boot_config_key, boot_config_value,
    boot_settings_change_requires_reboot, is_reboot_required, parameters_changed_materially,
    parse_boot_config_to_boot_settings, parse_boot_config_values, parse_value,
    serialize_boot_settings_to_boot_config, try_parse_boot_config, try_parse_boot_config_values,
    write_params, BootConfigError, BootSettings, DEFAULT_BOOTCONFIG_STR, checked_params,
};

fn map(params: Vec<(&str, Vec<&str>)>) -> IndexMap<String, Vec<String>> {
    params
        .into_iter()
        .map(|(k, v)| (k.to_string(), v.into_iter().map(|s| s.to_string()).collect()))
        .collect()
}

fn entries(m: &IndexMap<String, Vec<String>>) -> Vec<(String, Vec<String>)> {
    m.iter().map(|(k, v)| (k.clone(), v.clone())).collect()
}

fn settings(kernel: Option<Vec<(&str, Vec<&str>)>>, init: Option<Vec<(&str, Vec<&str>)>>) -> BootSettings {
    BootSettings {
        reboot_to_reconcile: None,
        kernel_parameters: kernel.map(map),
        init_parameters: init.map(map),
    }
}

// ---- reading values ----

#[test]
fn value_quotes_are_removed() {
    assert_eq!(parse_value("  \"a b\"  ").unwrap(), "a b");
    assert_eq!(parse_value("'x\"y'").unwrap(), "x\"y");
    assert_eq!(parse_value("plain").unwrap(), "plain");
    assert_eq!(parse_value("").unwrap(), "");
}

#[test]
fn unquoted_value_with_reserved_character_is_refused() {
    for bad in ["#bang", "a,b", "a;b", "a}b", "a'b"] {
        match parse_value(bad) {
            Err(BootConfigError::InvalidBootConfigValue { input }) => assert_eq!(input, bad),
            other => panic!("unexpected {other:?}"),
        }
    }
}

#[test]
fn non_ascii_value_is_refused() {
    assert!(matches!(
        parse_value("\"caf\u{e9}\""),
        Err(BootConfigError::InvalidBootConfigValue { .. })
    ));
}

#[test]
fn control_character_in_quoted_value_is_refused() {
    match parse_value("\"a\tb\"") {
        Err(BootConfigError::ParseBootConfigValue { input }) => assert_eq!(input, "a\tb"),
        other => panic!("unexpected {other:?}"),
    }
}

#[test]
fn overlong_value_is_refused() {
    let long = "x".repeat(1025);
    assert!(matches!(parse_value(&long), Err(BootConfigError::ParseBootConfigValue { .. })));
    let limit = "x".repeat(1024);
    assert_eq!(parse_value(&limit).unwrap(), limit);
}

#[test]
fn value_list_splits_outside_quotes_only() {
    assert_eq!(
        parse_boot_config_values("\"ttyS1,115200n8\", tty0, 'a,b'").unwrap(),
        vec!["ttyS1,115200n8", "tty0", "a,b"]
    );
    assert_eq!(parse_boot_config_values("a,").unwrap(), vec!["a"]);
    assert_eq!(parse_boot_config_values("").unwrap(), Vec::<String>::new());
    assert_eq!(parse_boot_config_values("a,,b").unwrap(), vec!["a", "", "b"]);
}

#[test]
fn value_list_needs_comma_after_quoted_value() {
    match parse_boot_config_values("\"?\" \"???\"") {
        Err(BootConfigError::ExpectedArrayComma { input }) => assert_eq!(input, "\"?\" \"???\""),
        other => panic!("unexpected {other:?}"),
    }
}

#[test]
fn value_list_with_open_quote_is_refused() {
    assert!(matches!(
        parse_boot_config_values("\"abc, d"),
        Err(BootConfigError::UnbalancedQuotes { .. })
    ));
}

// ---- reading a whole boot config ----

#[test]
fn key_given_again_replaces_values_in_place() {
    let s = parse_boot_config_to_boot_settings("kernel.a = 1\nkernel.b = 2\nkernel.a = 3").unwrap();
    assert_eq!(
        entries(s.kernel_parameters.as_ref().unwrap()),
        vec![("a".to_string(), vec!["3".to_string()]), ("b".to_string(), vec!["2".to_string()])]
    );
    assert!(s.init_parameters.is_none());
    assert!(s.reboot_to_reconcile.is_none());
}

#[test]
fn comments_and_carriage_returns_are_ignored() {
    let s = parse_boot_config_to_boot_settings("# a comment\r\n  # another\r\ninit.x = \"y\"\r\n").unwrap();
    assert_eq!(
        entries(s.init_parameters.as_ref().unwrap()),
        vec![("x".to_string(), vec!["y".to_string()])]
    );
}

#[test]
fn key_without_dot_after_section_word_is_refused() {
    match parse_boot_config_to_boot_settings("kernelXfoo = 1") {
        Err(BootConfigError::UnsupportedBootConfigKey { key }) => assert_eq!(key, "kernelXfoo"),
        other => panic!("unexpected {other:?}"),
    }
    match parse_boot_config_to_boot_settings("initrd.x = \"1\"") {
        Err(BootConfigError::UnsupportedBootConfigKey { key }) => assert_eq!(key, "initrd.x"),
        other => panic!("unexpected {other:?}"),
    }
}

#[test]
fn dotted_section_keys_are_parameters() {
    let s = parse_boot_config_to_boot_settings("kernel.a.b = 1\ninit.c = 2\nkernel. = 3").unwrap();
    assert_eq!(
        entries(s.kernel_parameters.as_ref().unwrap()),
        vec![
            ("a.b".to_string(), vec!["1".to_string()]),
            ("".to_string(), vec!["3".to_string()])
        ]
    );
    assert_eq!(
        entries(s.init_parameters.as_ref().unwrap()),
        vec![("c".to_string(), vec!["2".to_string()])]
    );
}

#[test]
fn invalid_key_is_refused() {
    match parse_boot_config_to_boot_settings("kernel.a b = x") {
        Err(BootConfigError::ParseBootConfigKey { input }) => assert_eq!(input, "kernel.a b"),
        other => panic!("unexpected {other:?}"),
    }
}

#[test]
fn key_is_checked_before_values() {
    assert!(matches!(
        parse_boot_config_to_boot_settings("bad key = \"open"),
        Err(BootConfigError::ParseBootConfigKey { .. })
    ));
}

#[test]
fn section_word_with_value_is_refused() {
    assert!(matches!(
        parse_boot_config_to_boot_settings("kernel = \"foo\""),
        Err(BootConfigError::ParentBootConfigKey)
    ));
    assert!(matches!(
        parse_boot_config_to_boot_settings("init"),
        Err(BootConfigError::ParentBootConfigKey)
    ));
    assert!(parse_boot_config_to_boot_settings("kernel = \"\"").is_ok());
}

#[test]
fn key_outside_sections_is_refused() {
    match parse_boot_config_to_boot_settings("kernel.a = 1\nfoo.bar = 2") {
        Err(BootConfigError::UnsupportedBootConfigKey { key }) => assert_eq!(key, "foo.bar"),
        other => panic!("unexpected {other:?}"),
    }
}

#[test]
fn blank_line_inside_is_an_empty_key() {
    assert!(matches!(
        parse_boot_config_to_boot_settings("kernel.a = 1\n\nkernel.b = 2"),
        Err(BootConfigError::UnsupportedBootConfigKey { .. })
    ));
}

#[test]
fn empty_boot_config_has_no_settings() {
    let s = parse_boot_config_to_boot_settings("   \n ").unwrap();
    assert!(s.kernel_parameters.is_none() && s.init_parameters.is_none());
}

#[test]
fn non_ascii_value_in_list_is_refused() {
    match parse_boot_config_to_boot_settings("kernel.x = ab,\u{e9}") {
        Err(BootConfigError::InvalidBootConfigValue { input }) => assert_eq!(input, "\u{e9}"),
        other => panic!("unexpected {other:?}"),
    }
    assert!(matches!(
        parse_boot_config_values("x,\"\u{e9}\u{e9}\""),
        Err(BootConfigError::InvalidBootConfigValue { .. })
    ));
}

#[test]
fn elements_are_cut_at_byte_offsets() {
    // The comma positions are counted in characters and cut as byte offsets:
    // the two-byte no-break space shifts the second cut onto the comma.
    let s = parse_boot_config_to_boot_settings("kernel.x = a,\u{a0}x,").unwrap();
    assert_eq!(
        entries(s.kernel_parameters.as_ref().unwrap()),
        vec![("x".to_string(), vec!["a".to_string(), "".to_string()])]
    );
    assert_eq!(
        parse_boot_config_values("a,\u{a0}x,").unwrap(),
        vec!["a".to_string(), "".to_string()]
    );
}

#[test]
fn cut_inside_a_character_is_reported() {
    assert!(try_parse_boot_config("kernel.x = \u{e9},ab,c").is_none());
    assert!(try_parse_boot_config_values("\"\u{e9}\u{e9}\",x").is_none());
    assert!(try_parse_boot_config("kernel.x = ab,\u{e9}").is_some());
    assert!(try_parse_boot_config_values("a,b").is_some());
}

#[test]
fn untrimmed_list_is_cut_at_trimmed_positions() {
    match parse_boot_config_values(" a,b") {
        Err(BootConfigError::InvalidBootConfigValue { input }) => assert_eq!(input, ",b"),
        other => panic!("unexpected {other:?}"),
    }
    assert_eq!(parse_boot_config_values("a,b ").unwrap(), vec!["a".to_string(), "b".to_string()]);
}

#[test]
fn lone_quote_value_is_refused() {
    assert!(matches!(
        parse_value(" \" "),
        Err(BootConfigError::InvalidBootConfigValue { .. })
    ));
}

#[test]
fn comment_lines_change_nothing() {
    let plain = "kernel.a = 1\ninit.b = 2";
    let with_comments = "# first\nkernel.a = 1\n   # between\ninit.b = 2";
    let a = parse_boot_config_to_boot_settings(plain).unwrap();
    let b = parse_boot_config_to_boot_settings(with_comments).unwrap();
    assert_eq!(entries(a.kernel_parameters.as_ref().unwrap()), entries(b.kernel_parameters.as_ref().unwrap()));
    assert_eq!(entries(a.init_parameters.as_ref().unwrap()), entries(b.init_parameters.as_ref().unwrap()));
}

// ---- validation of keys and values ----

#[test]
fn key_validation() {
    assert_eq!(boot_config_key("systemd.log_level").unwrap(), "systemd.log_level");
    assert_eq!(boot_config_key("dm-mod.create").unwrap(), "dm-mod.create");
    assert!(matches!(boot_config_key("a b"), Err(BootConfigError::ParseBootConfigKey { .. })));
    assert!(boot_config_key(&"k".repeat(257)).is_err());
    assert!(boot_config_key(&"k".repeat(256)).is_ok());
}

#[test]
fn value_validation() {
    assert_eq!(boot_config_value("0781:5580:bk").unwrap(), "0781:5580:bk");
    assert!(matches!(boot_config_value("a\nb"), Err(BootConfigError::ParseBootConfigValue { .. })));
}

// ---- writing ----

#[test]
fn value_list_quoting() {
    let mut out = String::from(">");
    append_boot_config_value_list(
        &vec!["a".to_string(), "b\"c".to_string(), "it's".to_string()],
        &mut out,
    );
    assert_eq!(out, "> \"a\", 'b\"c', \"it's\"");
}

#[test]
fn write_params_appends_section() {
    let mut out = String::from("x\n");
    write_params(&mut out, &map(vec![("b", vec!["1"]), ("a", vec![])]), "init");
    assert_eq!(out, "x\ninit {\n  b = \"1\"\n  a\n}\n");
    let mut untouched = String::from("y");
    write_params(&mut untouched, &IndexMap::new(), "kernel");
    assert_eq!(untouched, "y");
}

#[test]
fn written_values_read_back() {
    let values = vec!["ttyS1,115200n8".to_string(), "x\"y".to_string(), "it's".to_string(), "".to_string()];
    let mut out = String::new();
    append_boot_config_value_list(&values, &mut out);
    assert_eq!(parse_boot_config_values(out.trim()).unwrap(), values);
}

#[test]
fn contents_default_when_nothing_configured() {
    assert_eq!(boot_config_contents(None), DEFAULT_BOOTCONFIG_STR);
    let s = settings(Some(vec![("console", vec!["tty0"])]), None);
    assert_eq!(boot_config_contents(Some(&s)), "kernel {\n  console = \"tty0\"\n}\n");
    assert_eq!(
        boot_config_contents(Some(&s)),
        serialize_boot_settings_to_boot_config(&s).unwrap()
    );
}

// ---- reboot decisions ----

#[test]
fn reordered_parameters_need_no_reboot() {
    let a = settings(Some(vec![("a", vec!["1"]), ("b", vec!["2"])]), None);
    let b = settings(Some(vec![("b", vec!["2"]), ("a", vec!["1"])]), None);
    assert!(!boot_settings_change_requires_reboot(&a, &b));
}

#[test]
fn changed_value_needs_a_reboot_both_ways() {
    let a = settings(None, Some(vec![("a", vec!["1"])]));
    let b = settings(None, Some(vec![("a", vec!["2"])]));
    assert!(boot_settings_change_requires_reboot(&a, &b));
    assert!(boot_settings_change_requires_reboot(&b, &a));
}

#[test]
fn missing_map_counts_as_empty() {
    assert!(!parameters_changed_materially(&None, &Some(IndexMap::new())));
    assert!(!parameters_changed_materially(&Some(IndexMap::new()), &None));
    assert!(parameters_changed_materially(&None, &Some(map(vec![("a", vec![])]))));
    assert!(parameters_changed_materially(&Some(map(vec![("a", vec![])])), &None));
    assert!(!parameters_changed_materially(&None, &None));
}

#[test]
fn reboot_only_when_asked_for() {
    let mut wanted = settings(Some(vec![("console", vec!["tty0"])]), None);
    assert!(!is_reboot_required(None, Some(wanted.clone_settings())).unwrap());
    wanted.reboot_to_reconcile = Some(true);
    assert!(is_reboot_required(None, Some(wanted.clone_settings())).unwrap());
    assert!(!is_reboot_required(Some("kernel.console = tty0"), Some(wanted.clone_settings())).unwrap());
    assert!(is_reboot_required(Some("kernel.console = ttyS0"), Some(wanted.clone_settings())).unwrap());
    assert!(!is_reboot_required(None, None).unwrap());
}

#[test]
fn refused_current_boot_config_is_an_error() {
    assert!(matches!(
        is_reboot_required(Some("foo = 1"), None),
        Err(BootConfigError::UnsupportedBootConfigKey { .. })
    ));
}

trait CloneSettings {
    fn clone_settings(&self) -> BootSettings;
}

impl CloneSettings for BootSettings {
    fn clone_settings(&self) -> BootSettings {
        BootSettings {
            reboot_to_reconcile: self.reboot_to_reconcile,
            kernel_parameters: self.kernel_parameters.clone(),
            init_parameters: self.init_parameters.clone(),
        }
    }
}

#[test]
fn settings_file_parameters_are_checked() {
    let good = map(vec![("console", vec!["tty0", "ttyS0"]), ("quiet", vec![])]);
    let back = checked_params(Some(good.clone())).unwrap().unwrap();
    assert_eq!(entries(&back), entries(&good));
    assert!(checked_params(None).unwrap().is_none());
    match checked_params(Some(map(vec![("ok", vec!["1"]), ("bad key", vec!["2"])]))) {
        Err(BootConfigError::ParseBootConfigKey { input }) => assert_eq!(input, "bad key"),
        other => panic!("unexpected {other:?}"),
    }
    match checked_params(Some(map(vec![("a", vec!["1", "x\ny", "\t"])]))) {
        Err(BootConfigError::ParseBootConfigValue { input }) => assert_eq!(input, "x\ny"),
        other => panic!("unexpected {other:?}"),
    }
}

#[test]
fn unquoted_list_reads_as_its_pieces() {
    assert_eq!(
        parse_boot_config_values("tty0,ttyS0,115200n8,").unwrap(),
        vec!["tty0".to_string(), "ttyS0".to_string(), "115200n8".to_string()]
    );
    assert_eq!(
        parse_boot_config_values("a,,b").unwrap(),
        vec!["a".to_string(), "".to_string(), "b".to_string()]
    );
    match parse_boot_config_values("a,b;c,d") {
        Err(BootConfigError::InvalidBootConfigValue { input }) => assert_eq!(input, "b;c"),
        other => panic!("unexpected {other:?}"),
    }
}
