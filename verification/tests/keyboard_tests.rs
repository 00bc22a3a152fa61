use merlion_kernel::keyboard::{process_scancode, KeyEvent, KeyboardState};

#[test]
fn plain_letters_and_digits() {
    let mut st = KeyboardState::new();
    assert_eq!(process_scancode(&mut st, 0x1E), Some(KeyEvent::Char('a')));
    assert_eq!(process_scancode(&mut st, 0x02), Some(KeyEvent::Char('1')));
    assert_eq!(process_scancode(&mut st, 0x39), Some(KeyEvent::Char(' ')));
    assert_eq!(process_scancode(&mut st, 0x1C), Some(KeyEvent::Char('\n')));
    assert_eq!(process_scancode(&mut st, 0x0E), Some(KeyEvent::Char('\x08')));
}

#[test]
fn shift_held_then_released() {
    let mut st = KeyboardState::new();
    assert_eq!(process_scancode(&mut st, 0x2A), None);
    assert!(st.shift);
    assert_eq!(process_scancode(&mut st, 0x1E), Some(KeyEvent::Char('A')));
    assert_eq!(process_scancode(&mut st, 0x02), Some(KeyEvent::Char('!')));
    assert_eq!(process_scancode(&mut st, 0xAA), None);
    assert!(!st.shift);
    assert_eq!(process_scancode(&mut st, 0x1E), Some(KeyEvent::Char('a')));
    // right shift too
    assert_eq!(process_scancode(&mut st, 0x36), None);
    assert_eq!(process_scancode(&mut st, 0x35), Some(KeyEvent::Char('?')));
    assert_eq!(process_scancode(&mut st, 0xB6), None);
    assert_eq!(process_scancode(&mut st, 0x35), Some(KeyEvent::Char('/')));
}

#[test]
fn extended_navigation_keys() {
    let mut st = KeyboardState::new();
    assert_eq!(process_scancode(&mut st, 0xE0), None);
    assert!(st.extended);
    assert_eq!(process_scancode(&mut st, 0x48), Some(KeyEvent::ArrowUp));
    assert!(!st.extended);
    let cases = [
        (0x50u8, KeyEvent::ArrowDown),
        (0x4B, KeyEvent::ArrowLeft),
        (0x4D, KeyEvent::ArrowRight),
        (0x47, KeyEvent::Home),
        (0x4F, KeyEvent::End),
        (0x53, KeyEvent::Delete),
    ];
    for (sc, ev) in cases.iter() {
        assert_eq!(process_scancode(&mut st, 0xE0), None);
        assert_eq!(process_scancode(&mut st, *sc), Some(*ev));
    }
    // an unknown extended code gives nothing and clears the prefix
    assert_eq!(process_scancode(&mut st, 0xE0), None);
    assert_eq!(process_scancode(&mut st, 0x10), None);
    assert_eq!(process_scancode(&mut st, 0x10), Some(KeyEvent::Char('q')));
}

#[test]
fn break_codes_give_nothing() {
    let mut st = KeyboardState::new();
    assert_eq!(process_scancode(&mut st, 0x9E), None);
    assert_eq!(process_scancode(&mut st, 0xE0), None);
    assert_eq!(process_scancode(&mut st, 0xC8), None);
    assert!(!st.extended);
    assert_eq!(process_scancode(&mut st, 0x01), None);
}
