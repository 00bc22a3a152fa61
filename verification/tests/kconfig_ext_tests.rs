use merlion_kernel::kconfig_ext::{
    apply_profile, config_diff, config_info, config_stats, delete_profile, describe_param, dump_config,
    export_config, get_bool, get_int, get_str, import_config, init, list_profiles, param_count,
    params_by_category, parse_i64, register_param, reset_all, reset_param, save_profile, strip_category_prefix,
    sysctl_list, sysctl_read, sysctl_write, tree_children, unregister_param, is_builtin_param, value_eq, Category, ConfigEntry,
    ConfigStore, ConfigValue, ParamType,
};

fn store() -> ConfigStore {
    let mut st = ConfigStore::new();
    init(&mut st);
    st
}

#[test]
fn init_registers_defaults_once() {
    let mut st = store();
    assert_eq!(param_count(&st), 52);
    assert_eq!(list_profiles(&st).len(), 4);
    init(&mut st);
    assert_eq!(param_count(&st), 52);
}

#[test]
fn parse_i64_trims_and_checks() {
    assert_eq!(parse_i64(" 42 "), Some(42));
    assert_eq!(parse_i64("-17"), Some(-17));
    assert_eq!(parse_i64("9223372036854775807"), Some(i64::MAX));
    assert_eq!(parse_i64("9223372036854775808"), None);
    assert_eq!(parse_i64("-9223372036854775807"), Some(-i64::MAX));
    assert_eq!(parse_i64("12x"), None);
    assert_eq!(parse_i64(""), None);
    assert_eq!(parse_i64("-"), Some(0));
}

#[test]
fn config_value_parse_and_display() {
    assert!(matches!(ConfigValue::parse("yes", &ParamType::Bool), Ok(ConfigValue::Bool(true))));
    assert!(matches!(ConfigValue::parse("off", &ParamType::Bool), Ok(ConfigValue::Bool(false))));
    assert_eq!(ConfigValue::parse("maybe", &ParamType::Bool).err(), Some("invalid boolean"));
    assert!(matches!(ConfigValue::parse("-5", &ParamType::Integer), Ok(ConfigValue::Integer(-5))));
    assert_eq!(ConfigValue::parse("five", &ParamType::Integer).err(), Some("invalid integer"));
    assert_eq!(ConfigValue::parse("11", &ParamType::Range(0, 10)).err(), Some("value out of range"));
    assert_eq!(ConfigValue::parse("x", &ParamType::Range(0, 10)).err(), Some("invalid integer for range"));
    let e = ParamType::Enum(vec![String::from("a"), String::from("b")]);
    assert!(matches!(ConfigValue::parse("b", &e), Ok(ConfigValue::Str(_))));
    assert_eq!(ConfigValue::parse("c", &e).err(), Some("value not in allowed enum variants"));
    assert_eq!(ConfigValue::Integer(-12).display(), "-12");
    assert_eq!(ConfigValue::Bool(true).display(), "true");
    assert_eq!(ConfigValue::Str(String::from("hi")).display(), "hi");
    assert!(value_eq(&ConfigValue::Integer(3), &ConfigValue::Integer(3)));
    assert!(!value_eq(&ConfigValue::Integer(3), &ConfigValue::Bool(true)));
}

#[test]
fn category_names() {
    assert_eq!(Category::Network.name(), "net");
    assert_eq!(Category::from_str("sched"), Some(Category::Scheduler));
    assert_eq!(Category::from_str("nope"), None);
    assert_eq!(strip_category_prefix("kernel.hz", Category::Kernel), "hz");
    assert_eq!(strip_category_prefix("net.tcp.window", Category::Network), "tcp.window");
    assert_eq!(strip_category_prefix("kernel.hz", Category::Memory), "kernel.hz");
}

#[test]
fn write_then_read() {
    let mut st = store();
    assert_eq!(sysctl_read(&mut st, "kernel.hz"), Ok(String::from("100")));
    assert_eq!(sysctl_write(&mut st, "kernel.hz", "250"), Ok(()));
    assert_eq!(sysctl_read(&mut st, "kernel.hz"), Ok(String::from("250")));
    assert_eq!(get_int(&st, "kernel.hz"), Some(250));
    assert_eq!(sysctl_write(&mut st, "kernel.hz", "5000"), Err("value out of range"));
    assert_eq!(sysctl_write(&mut st, "kernel.version", "9"), Err("parameter is read-only"));
    assert_eq!(sysctl_write(&mut st, "no.such", "1"), Err("parameter not found"));
    assert_eq!(sysctl_read(&mut st, "no.such"), Err("parameter not found"));
    assert_eq!(st.reads, 3);
    assert_eq!(st.writes, 4);
    assert_eq!(st.errors, 4);
}

#[test]
fn writing_back_what_was_read_changes_nothing() {
    let mut st = store();
    for path in ["kernel.hz", "kernel.preempt", "kernel.hostname", "kernel.log_level", "net.mtu"] {
        let before = sysctl_read(&mut st, path).unwrap();
        assert_eq!(sysctl_write(&mut st, path, &before), Ok(()));
        assert_eq!(sysctl_read(&mut st, path).unwrap(), before);
    }
    assert!(config_diff(&st).is_empty());
}

#[test]
fn typed_getters() {
    let st = store();
    assert_eq!(get_bool(&st, "kernel.preempt"), Some(true));
    assert_eq!(get_bool(&st, "kernel.hz"), None);
    assert_eq!(get_int(&st, "net.mtu"), Some(1500));
    assert_eq!(get_str(&st, "kernel.hostname"), Some(String::from("merlion")));
    assert_eq!(get_str(&st, "missing"), None);
}

#[test]
fn reset_restores_defaults() {
    let mut st = store();
    sysctl_write(&mut st, "kernel.hz", "500").unwrap();
    sysctl_write(&mut st, "net.mtu", "9000").unwrap();
    assert_eq!(config_diff(&st).len(), 2);
    assert_eq!(reset_param(&mut st, "kernel.hz"), Ok(()));
    assert_eq!(get_int(&st, "kernel.hz"), Some(100));
    assert_eq!(reset_param(&mut st, "kernel.version"), Err("parameter is read-only"));
    assert_eq!(reset_param(&mut st, "zzz"), Err("parameter not found"));
    reset_all(&mut st);
    assert!(config_diff(&st).is_empty());
}

#[test]
fn listing_and_tree() {
    let st = store();
    let l = sysctl_list(&st, "kernel.");
    assert_eq!(l.len(), 7);
    assert_eq!(l[0], (String::from("kernel.hz"), String::from("100")));
    assert_eq!(sysctl_list(&st, "").len(), 52);
    let top = tree_children(&st, "");
    assert_eq!(top[0], "kernel");
    assert_eq!(top.len(), 10);
    let net = tree_children(&st, "net");
    assert!(net.contains(&String::from("tcp")));
    assert!(net.contains(&String::from("mtu")));
    assert_eq!(params_by_category(&st, Category::Audio).len(), 4);
}

#[test]
fn profiles() {
    let mut st = store();
    assert_eq!(apply_profile(&mut st, "performance"), Ok(9));
    assert_eq!(get_int(&st, "kernel.hz"), Some(1000));
    assert_eq!(get_str(&st, "sched.policy"), Some(String::from("cfs")));
    assert_eq!(apply_profile(&mut st, "nope"), Err("profile not found"));
    assert_eq!(save_profile(&mut st, "mine", "my settings"), Ok(()));
    assert_eq!(list_profiles(&st).len(), 5);
    reset_all(&mut st);
    assert_eq!(apply_profile(&mut st, "mine"), Ok(8));
    assert_eq!(get_int(&st, "kernel.hz"), Some(1000));
    assert_eq!(delete_profile(&mut st, "mine"), Ok(()));
    assert_eq!(delete_profile(&mut st, "mine"), Err("profile not found"));
}

#[test]
fn register_and_unregister() {
    let mut st = store();
    assert_eq!(
        register_param(&mut st, "custom.x", Category::Kernel, ParamType::Integer, ConfigValue::Integer(1), "x", false),
        Ok(())
    );
    assert_eq!(
        register_param(&mut st, "custom.x", Category::Kernel, ParamType::Integer, ConfigValue::Integer(1), "x", false),
        Err("parameter already exists")
    );
    assert_eq!(param_count(&st), 53);
    assert_eq!(unregister_param(&mut st, "custom.x"), Ok(()));
    assert_eq!(unregister_param(&mut st, "custom.x"), Err("parameter not found"));
    assert_eq!(param_count(&st), 52);
}

#[test]
fn builtin_parameter_cannot_be_removed() {
    let mut st = store();
    assert_eq!(unregister_param(&mut st, "kernel.hz"), Err("cannot remove built-in parameter"));
    assert_eq!(param_count(&st), 52);
    assert_eq!(sysctl_read(&mut st, "kernel.hz"), Ok(String::from("100")));
    assert!(is_builtin_param("kernel.hz"));
    assert!(!is_builtin_param("custom.x"));
}

#[test]
fn entry_is_modified() {
    let mut e = ConfigEntry::new("a.b", Category::Kernel, ParamType::Integer, ConfigValue::Integer(1), "d", false);
    assert!(!e.is_modified());
    e.current = ConfigValue::Integer(2);
    assert!(e.is_modified());
}

#[test]
fn export_then_import() {
    let mut st = store();
    sysctl_write(&mut st, "kernel.hz", "300").unwrap();
    let text = export_config(&st);
    assert!(text.contains("[kernel]"));
    assert!(text.contains("hz = 300"));
    let mut other = store();
    let n = import_config(&mut other, &text);
    assert!(n >= 1);
    assert_eq!(get_int(&other, "kernel.hz"), Some(300));
    assert_eq!(import_config(&mut other, "# c\n[net]\nmtu = 1400\nbogus = 1\n"), 1);
    assert_eq!(get_int(&other, "net.mtu"), Some(1400));
}

#[test]
fn kconfig_ext_reports() {
    let mut st = store();
    sysctl_write(&mut st, "kernel.hz", "300").unwrap();
    assert!(config_info(&st).contains("52"));
    assert!(!config_stats(&st).is_empty());
    assert!(dump_config(&st).contains("kernel.hz"));
    assert!(describe_param(&st, "kernel.hz").unwrap().contains("Timer interrupt frequency"));
    assert_eq!(describe_param(&st, "missing"), None);
}
