use merlion_kernel::kconfig;
use merlion_kernel::kconfig::{default_config, get, get_usize, list, load, save, KConfig};

#[test]
fn load_reads_key_value_lines() {
    let mut c = KConfig::new();
    load(&mut c, default_config());
    assert_eq!(get(&c, "hostname"), Some(String::from("merlion")));
    assert_eq!(get(&c, "prompt"), Some(String::from("merlion>")));
    assert_eq!(get_usize(&c, "max_tasks"), Some(8));
    assert_eq!(get_usize(&c, "heap_warn_pct"), Some(70));
    assert_eq!(get(&c, "missing"), None);
    assert_eq!(list(&c).len(), 7);
}

#[test]
fn load_skips_comments_blank_and_bad_lines() {
    let mut c = KConfig::new();
    load(&mut c, "# comment\n\n  key = value  \nnoequals\n=empty\na=b=c\n");
    let l = list(&c);
    assert_eq!(
        l,
        vec![
            (String::from("key"), String::from("value")),
            (String::from(""), String::from("empty")),
            (String::from("a"), String::from("b=c")),
        ]
    );
}

#[test]
fn get_usize_rejects_non_numbers() {
    let mut c = KConfig::new();
    load(&mut c, "n=+12\nbad=12a\nneg=-3\n");
    assert_eq!(get_usize(&c, "n"), Some(12));
    assert_eq!(get_usize(&c, "bad"), None);
    assert_eq!(get_usize(&c, "neg"), None);
}

#[test]
fn set_then_get() {
    let mut c = KConfig::new();
    load(&mut c, default_config());
    kconfig::set(&mut c, "hostname", "lion");
    assert_eq!(get(&c, "hostname"), Some(String::from("lion")));
    assert_eq!(get(&c, "max_tasks"), Some(String::from("8")));
    kconfig::set(&mut c, "new_key", "1");
    assert_eq!(get(&c, "new_key"), Some(String::from("1")));
    assert_eq!(list(&c).last().unwrap().0, "new_key");
}

#[test]
fn save_writes_header_and_lines() {
    let mut c = KConfig::new();
    kconfig::set(&mut c, "a", "1");
    kconfig::set(&mut c, "b", "two");
    assert_eq!(save(&c), "# MerlionOS Configuration\na=1\nb=two\n");
    let mut d = KConfig::new();
    load(&mut d, &save(&c));
    assert_eq!(list(&d), list(&c));
}
