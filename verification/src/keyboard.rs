//! PS/2 keyboard scancode set 1 decoder: ASCII keys with the shift
//! modifier, and the extended (0xE0-prefixed) navigation keys.
use vstd::prelude::*;

verus! {

/// Key events handed to the shell.
#[derive(PartialEq, Eq, Structural, Clone, Copy, Debug)]
pub enum KeyEvent {
    Char(char),
    ArrowUp,
    ArrowDown,
    ArrowLeft,
    ArrowRight,
    Home,
    End,
    Delete,
}

/// What the decoder remembers between scancodes: whether the last one was
/// the extended prefix, and whether a shift key is held.
#[derive(PartialEq, Eq, Structural, Clone, Copy, Debug)]
pub struct KeyboardState {
    pub extended: bool,
    pub shift: bool,
}

impl KeyboardState {
    /// No prefix seen, no shift held.
    pub fn new() -> (s: Self)
        ensures
            s == (KeyboardState { extended: false, shift: false }),
    {
        KeyboardState { extended: false, shift: false }
    }
}

/// The character of a make code of the main block, with or without shift.
pub open spec fn char_of(sc: u8, shifted: bool) -> Option<char> {
    match sc {
        0x02u8 => Some(if shifted { '!' } else { '1' }),
        0x03u8 => Some(if shifted { '@' } else { '2' }),
        0x04u8 => Some(if shifted { '#' } else { '3' }),
        0x05u8 => Some(if shifted { '$' } else { '4' }),
        0x06u8 => Some(if shifted { '%' } else { '5' }),
        0x07u8 => Some(if shifted { '^' } else { '6' }),
        0x08u8 => Some(if shifted { '&' } else { '7' }),
        0x09u8 => Some(if shifted { '*' } else { '8' }),
        0x0Au8 => Some(if shifted { '(' } else { '9' }),
        0x0Bu8 => Some(if shifted { ')' } else { '0' }),
        0x0Cu8 => Some(if shifted { '_' } else { '-' }),
        0x0Du8 => Some(if shifted { '+' } else { '=' }),
        0x0Eu8 => Some('\x08'),
        0x0Fu8 => Some('\t'),
        0x10u8 => Some(if shifted { 'Q' } else { 'q' }),
        0x11u8 => Some(if shifted { 'W' } else { 'w' }),
        0x12u8 => Some(if shifted { 'E' } else { 'e' }),
        0x13u8 => Some(if shifted { 'R' } else { 'r' }),
        0x14u8 => Some(if shifted { 'T' } else { 't' }),
        0x15u8 => Some(if shifted { 'Y' } else { 'y' }),
        0x16u8 => Some(if shifted { 'U' } else { 'u' }),
        0x17u8 => Some(if shifted { 'I' } else { 'i' }),
        0x18u8 => Some(if shifted { 'O' } else { 'o' }),
        0x19u8 => Some(if shifted { 'P' } else { 'p' }),
        0x1Au8 => Some(if shifted { '{' } else { '[' }),
        0x1Bu8 => Some(if shifted { '}' } else { ']' }),
        0x1Cu8 => Some('\n'),
        0x1Eu8 => Some(if shifted { 'A' } else { 'a' }),
        0x1Fu8 => Some(if shifted { 'S' } else { 's' }),
        0x20u8 => Some(if shifted { 'D' } else { 'd' }),
        0x21u8 => Some(if shifted { 'F' } else { 'f' }),
        0x22u8 => Some(if shifted { 'G' } else { 'g' }),
        0x23u8 => Some(if shifted { 'H' } else { 'h' }),
        0x24u8 => Some(if shifted { 'J' } else { 'j' }),
        0x25u8 => Some(if shifted { 'K' } else { 'k' }),
        0x26u8 => Some(if shifted { 'L' } else { 'l' }),
        0x27u8 => Some(if shifted { ':' } else { ';' }),
        0x28u8 => Some(if shifted { '"' } else { '\'' }),
        0x29u8 => Some(if shifted { '~' } else { '`' }),
        0x2Bu8 => Some(if shifted { '|' } else { '\\' }),
        0x2Cu8 => Some(if shifted { 'Z' } else { 'z' }),
        0x2Du8 => Some(if shifted { 'X' } else { 'x' }),
        0x2Eu8 => Some(if shifted { 'C' } else { 'c' }),
        0x2Fu8 => Some(if shifted { 'V' } else { 'v' }),
        0x30u8 => Some(if shifted { 'B' } else { 'b' }),
        0x31u8 => Some(if shifted { 'N' } else { 'n' }),
        0x32u8 => Some(if shifted { 'M' } else { 'm' }),
        0x33u8 => Some(if shifted { '<' } else { ',' }),
        0x34u8 => Some(if shifted { '>' } else { '.' }),
        0x35u8 => Some(if shifted { '?' } else { '/' }),
        0x39u8 => Some(' '),
        _ => None,
    }
}

/// The navigation key of an extended make code.
pub open spec fn extended_key(sc: u8) -> Option<KeyEvent> {
    match sc {
        0x48u8 => Some(KeyEvent::ArrowUp),
        0x50u8 => Some(KeyEvent::ArrowDown),
        0x4Bu8 => Some(KeyEvent::ArrowLeft),
        0x4Du8 => Some(KeyEvent::ArrowRight),
        0x47u8 => Some(KeyEvent::Home),
        0x4Fu8 => Some(KeyEvent::End),
        0x53u8 => Some(KeyEvent::Delete),
        _ => None,
    }
}

/// Whether a make code is one of the two shift keys.
pub open spec fn is_shift(sc: u8) -> bool {
    sc == 0x2A || sc == 0x36
}

/// The decoder after a scancode, and the event it gives: the prefix 0xE0
/// marks the next code as extended; a break code (high bit set) gives
/// nothing and releases shift when it is a shift key's; a shift make code
/// holds shift; an extended make code gives its navigation key; any other
/// make code gives its character.
pub open spec fn step(s: KeyboardState, sc: u8) -> (KeyboardState, Option<KeyEvent>) {
    if sc == 0xE0 {
        (KeyboardState { extended: true, ..s }, None)
    } else if sc >= 0x80 {
        (KeyboardState { extended: false, shift: if is_shift((sc - 0x80) as u8) { false } else { s.shift } }, None)
    } else if is_shift(sc) {
        (KeyboardState { extended: false, shift: true }, None)
    } else if s.extended {
        (KeyboardState { extended: false, ..s }, extended_key(sc))
    } else {
        (KeyboardState { extended: false, ..s }, match char_of(sc, s.shift) {
            Some(c) => Some(KeyEvent::Char(c)),
            None => None,
        })
    }
}

fn main_key(sc: u8, shifted: bool) -> (r: Option<char>)
    ensures
        r == char_of(sc, shifted),
{
    let ch = match sc {
        0x02 => if shifted { '!' } else { '1' },
        0x03 => if shifted { '@' } else { '2' },
        0x04 => if shifted { '#' } else { '3' },
        0x05 => if shifted { '$' } else { '4' },
        0x06 => if shifted { '%' } else { '5' },
        0x07 => if shifted { '^' } else { '6' },
        0x08 => if shifted { '&' } else { '7' },
        0x09 => if shifted { '*' } else { '8' },
        0x0A => if shifted { '(' } else { '9' },
        0x0B => if shifted { ')' } else { '0' },
        0x0C => if shifted { '_' } else { '-' },
        0x0D => if shifted { '+' } else { '=' },
        0x0E => '\x08',
        0x0F => '\t',
        0x10 => if shifted { 'Q' } else { 'q' },
        0x11 => if shifted { 'W' } else { 'w' },
        0x12 => if shifted { 'E' } else { 'e' },
        0x13 => if shifted { 'R' } else { 'r' },
        0x14 => if shifted { 'T' } else { 't' },
        0x15 => if shifted { 'Y' } else { 'y' },
        0x16 => if shifted { 'U' } else { 'u' },
        0x17 => if shifted { 'I' } else { 'i' },
        0x18 => if shifted { 'O' } else { 'o' },
        0x19 => if shifted { 'P' } else { 'p' },
        0x1A => if shifted { '{' } else { '[' },
        0x1B => if shifted { '}' } else { ']' },
        0x1C => '\n',
        0x1E => if shifted { 'A' } else { 'a' },
        0x1F => if shifted { 'S' } else { 's' },
        0x20 => if shifted { 'D' } else { 'd' },
        0x21 => if shifted { 'F' } else { 'f' },
        0x22 => if shifted { 'G' } else { 'g' },
        0x23 => if shifted { 'H' } else { 'h' },
        0x24 => if shifted { 'J' } else { 'j' },
        0x25 => if shifted { 'K' } else { 'k' },
        0x26 => if shifted { 'L' } else { 'l' },
        0x27 => if shifted { ':' } else { ';' },
        0x28 => if shifted { '"' } else { '\'' },
        0x29 => if shifted { '~' } else { '`' },
        0x2B => if shifted { '|' } else { '\\' },
        0x2C => if shifted { 'Z' } else { 'z' },
        0x2D => if shifted { 'X' } else { 'x' },
        0x2E => if shifted { 'C' } else { 'c' },
        0x2F => if shifted { 'V' } else { 'v' },
        0x30 => if shifted { 'B' } else { 'b' },
        0x31 => if shifted { 'N' } else { 'n' },
        0x32 => if shifted { 'M' } else { 'm' },
        0x33 => if shifted { '<' } else { ',' },
        0x34 => if shifted { '>' } else { '.' },
        0x35 => if shifted { '?' } else { '/' },
        0x39 => ' ',
        _ => return None,
    };
    Some(ch)
}

/// Decode one scancode.
pub fn process_scancode(st: &mut KeyboardState, scancode: u8) -> (r: Option<KeyEvent>)
    ensures
        (*final(st), r) == step(*old(st), scancode),
{
    if scancode == 0xE0 {
        st.extended = true;
        return None;
    }
    let is_extended = st.extended;
    st.extended = false;
    if scancode & 0x80 != 0 {
        let make = scancode & 0x7F;
        assert(scancode & 0x80 != 0 <==> scancode >= 0x80) by (bit_vector);
        assert(scancode >= 0x80 ==> make == scancode - 0x80) by (bit_vector)
            requires
                make == scancode & 0x7F,
        ;
        if make == 0x2A || make == 0x36 {
            st.shift = false;
        }
        return None;
    }
    assert(scancode & 0x80 == 0 ==> scancode < 0x80) by (bit_vector);
    if scancode == 0x2A || scancode == 0x36 {
        st.shift = true;
        return None;
    }
    if is_extended {
        return match scancode {
            0x48 => Some(KeyEvent::ArrowUp),
            0x50 => Some(KeyEvent::ArrowDown),
            0x4B => Some(KeyEvent::ArrowLeft),
            0x4D => Some(KeyEvent::ArrowRight),
            0x47 => Some(KeyEvent::Home),
            0x4F => Some(KeyEvent::End),
            0x53 => Some(KeyEvent::Delete),
            _ => None,
        };
    }
    match main_key(scancode, st.shift) {
        Some(c) => Some(KeyEvent::Char(c)),
        None => None,
    }
}

/// Holding shift turns each letter key's character into its upper-case
/// form, and the decoder forgets the shift when it is released.
pub proof fn law_shift_upper_cases_letters(s: KeyboardState, sc: u8)
    requires
        char_of(sc, false) matches Some(c) && 'a' <= c <= 'z',
    ensures
        char_of(sc, true) matches Some(u) && u as u32 == char_of(sc, false)->0 as u32 - 32,
        step(step(s, 0x2A).0, sc).1 == Some(KeyEvent::Char(char_of(sc, true)->0)),
        !step(step(s, 0x2A).0, 0xAA).0.shift,
{
}

/// A break code never gives an event, and the extended prefix only
/// affects the code right after it.
pub proof fn law_prefix_and_breaks(s: KeyboardState, sc: u8)
    ensures
        sc >= 0x80 && sc != 0xE0 ==> step(s, sc).1 is None,
        sc != 0xE0 ==> !step(s, sc).0.extended,
        step(s, 0xE0).0.extended && step(s, 0xE0).1 is None,
{
}


/// The main block follows the US layout of scancode set 1, row by row:
/// the keys from 0x10 give `qwertyuiop`, from 0x1E `asdfghjkl`, from 0x2C
/// `zxcvbnm` (upper case while shift is held), and from 0x02 the digits
/// `1234567890` (their shifted symbols while shift is held).
pub proof fn law_us_rows(s: KeyboardState, i: int)
    requires
        !s.extended,
    ensures
        0 <= i < 10 ==> step(s, (0x10 + i) as u8).1
            == Some(KeyEvent::Char(if s.shift { "QWERTYUIOP"@[i] } else { "qwertyuiop"@[i] })),
        0 <= i < 9 ==> step(s, (0x1E + i) as u8).1
            == Some(KeyEvent::Char(if s.shift { "ASDFGHJKL"@[i] } else { "asdfghjkl"@[i] })),
        0 <= i < 7 ==> step(s, (0x2C + i) as u8).1
            == Some(KeyEvent::Char(if s.shift { "ZXCVBNM"@[i] } else { "zxcvbnm"@[i] })),
        0 <= i < 10 ==> step(s, (0x02 + i) as u8).1
            == Some(KeyEvent::Char(if s.shift { "!@#$%^&*()"@[i] } else { "1234567890"@[i] })),
{
    reveal_strlit("qwertyuiop");
    reveal_strlit("QWERTYUIOP");
    reveal_strlit("asdfghjkl");
    reveal_strlit("ASDFGHJKL");
    reveal_strlit("zxcvbnm");
    reveal_strlit("ZXCVBNM");
    reveal_strlit("1234567890");
    reveal_strlit("!@#$%^&*()");
    if 0 <= i < 10 {
        assert(i == 0 || i == 1 || i == 2 || i == 3 || i == 4 || i == 5 || i == 6 || i == 7 || i == 8 || i == 9);
    }
}

} // verus!
