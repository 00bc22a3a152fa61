use merlion_kernel::keymap::{
    current_layout, get_modifiers, init, list_layouts, next_layout, set_layout, toggle_pinyin, translate_scancode,
    Keymap, Modifiers,
};

fn key(km: &mut Keymap, sc: u8) -> Option<char> {
    translate_scancode(km, sc, &Modifiers::new())
}

fn typed(km: &mut Keymap, scs: &[u8]) -> Vec<Option<char>> {
    scs.iter().map(|&s| key(km, s)).collect()
}

#[test]
fn us_letters_shift_and_caps() {
    let mut km = init();
    assert_eq!(key(&mut km, 0x1E), Some('a'));
    assert_eq!(key(&mut km, 0x2A), None);
    assert!(get_modifiers(&km).shift);
    assert_eq!(key(&mut km, 0x1E), Some('A'));
    assert_eq!(key(&mut km, 0x02), Some('!'));
    assert_eq!(key(&mut km, 0xAA), None);
    assert!(!get_modifiers(&km).shift);
    assert_eq!(key(&mut km, 0x3A), None);
    assert!(get_modifiers(&km).caps_lock);
    assert_eq!(key(&mut km, 0x1E), Some('A'));
    key(&mut km, 0x36);
    assert_eq!(key(&mut km, 0x1E), Some('a'));
    assert_eq!(key(&mut km, 0x3B), None);
    assert_eq!(key(&mut km, 0x1C), Some('\n'));
}

#[test]
fn modifier_keys() {
    let mut km = init();
    key(&mut km, 0x1D);
    key(&mut km, 0x38);
    key(&mut km, 0x45);
    let m = get_modifiers(&km);
    assert!(m.ctrl && m.alt && m.num_lock);
    key(&mut km, 0x9D);
    key(&mut km, 0xB8);
    let m = get_modifiers(&km);
    assert!(!m.ctrl && !m.alt && m.num_lock);
}

#[test]
fn dead_keys_compose() {
    let mut km = init();
    // The backquote key is a grave dead key.
    assert_eq!(key(&mut km, 0x29), None);
    assert_eq!(key(&mut km, 0x1E), Some('\u{00E0}'));
    assert_eq!(key(&mut km, 0x12), Some('e'));
    assert_eq!(key(&mut km, 0x29), None);
    assert_eq!(key(&mut km, 0x2D), Some('x'));
    // Shift+6 is a circumflex.
    key(&mut km, 0x2A);
    assert_eq!(key(&mut km, 0x07), None);
    key(&mut km, 0xAA);
    assert_eq!(key(&mut km, 0x16), Some('\u{00FB}'));
}

#[test]
fn other_layouts() {
    let mut km = init();
    assert!(set_layout(&mut km, "uk"));
    assert_eq!(key(&mut km, 0x2B), Some('#'));
    assert!(set_layout(&mut km, "de"));
    assert_eq!(typed(&mut km, &[0x15, 0x2C, 0x0C, 0x28]), vec![Some('z'), Some('y'), Some('\u{00DF}'), Some('\u{00E4}')]);
    assert!(set_layout(&mut km, "fr"));
    assert_eq!(typed(&mut km, &[0x10, 0x1E, 0x02, 0x03]), vec![Some('a'), Some('q'), Some('&'), Some('\u{00E9}')]);
    assert!(set_layout(&mut km, "dvorak"));
    assert_eq!(typed(&mut km, &[0x13, 0x1F]), vec![Some('p'), Some('o')]);
    assert_eq!(current_layout(&km), "dvorak");
    assert!(!set_layout(&mut km, "xx"));
    assert_eq!(current_layout(&km), "dvorak");
}

#[test]
fn cycling_and_listing() {
    let mut km = init();
    assert_eq!(current_layout(&km), "us");
    next_layout(&mut km);
    assert_eq!(current_layout(&km), "uk");
    for _ in 0..4 {
        next_layout(&mut km);
    }
    assert_eq!(current_layout(&km), "us");
    assert_eq!(list_layouts(), vec!["us", "uk", "de", "fr", "dvorak", "pinyin"]);
}

#[test]
fn pinyin_input() {
    let mut km = init();
    assert!(set_layout(&mut km, "pinyin"));
    assert_eq!(current_layout(&km), "pinyin");
    // n i h a o, then space.
    assert_eq!(typed(&mut km, &[0x31, 0x17, 0x23, 0x1E, 0x18]), vec![None; 5]);
    assert_eq!(key(&mut km, 0x39), Some('\u{4F60}'));
    // h a o: the exact syllable wins over "hao3".
    typed(&mut km, &[0x23, 0x1E, 0x18]);
    assert_eq!(key(&mut km, 0x1C), Some('\u{597D}'));
    // x i n j: a prefix of "xinjiapo".
    typed(&mut km, &[0x2D, 0x17, 0x31, 0x24]);
    assert_eq!(key(&mut km, 0x39), Some('\u{65B0}'));
    // Nothing matches q q.
    typed(&mut km, &[0x10, 0x10]);
    assert_eq!(key(&mut km, 0x39), Some(' '));
    // An empty syllable passes the space through; digits pass through.
    assert_eq!(key(&mut km, 0x39), Some(' '));
    assert_eq!(key(&mut km, 0x02), Some('1'));
    // Upper case letters are looked up in lower case.
    key(&mut km, 0x2A);
    typed(&mut km, &[0x11, 0x18]);
    key(&mut km, 0xAA);
    assert_eq!(key(&mut km, 0x39), Some('\u{6211}'));
    toggle_pinyin(&mut km);
    assert_eq!(current_layout(&km), "us");
    assert_eq!(key(&mut km, 0x1E), Some('a'));
}
