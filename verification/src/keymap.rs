//! Keyboard layouts: scancode set 1 to characters for US, UK, German,
//! French and Dvorak layouts, with shift, caps lock and AltGr layers, dead
//! keys that compose accented letters, and a pinyin input method that
//! turns a typed syllable into a Chinese character.
use vstd::prelude::*;
use crate::text::{str_eq, starts_with_str, has_prefix};

verus! {

/// The layouts, in the order `next_layout` cycles through them.
#[derive(PartialEq, Eq, Structural, Clone, Copy, Debug)]
pub enum Layout {
    Us,
    Uk,
    De,
    Fr,
    Dvorak,
}

/// Modifier keys as the keymap tracks them.
#[derive(PartialEq, Eq, Structural, Clone, Copy, Debug)]
pub struct Modifiers {
    pub shift: bool,
    pub ctrl: bool,
    pub alt: bool,
    pub altgr: bool,
    pub super_key: bool,
    pub caps_lock: bool,
    pub num_lock: bool,
}

/// A pending accent.
#[derive(PartialEq, Eq, Structural, Clone, Copy, Debug)]
pub enum DeadKey {
    NoAccent,
    Acute,
    Grave,
    Circumflex,
    Diaeresis,
    Tilde,
}

/// The keymap: active layout, modifiers, pending dead key, and the pinyin
/// input method with its syllable buffer.
pub struct Keymap {
    pub layout: Layout,
    pub mods: Modifiers,
    pub dead: DeadKey,
    pub pinyin_mode: bool,
    pub pinyin: Vec<char>,
}

/// The keymap as plain values.
pub struct KeymapModel {
    pub layout: Layout,
    pub mods: Modifiers,
    pub dead: DeadKey,
    pub pinyin_mode: bool,
    pub pinyin: Seq<char>,
}

impl Keymap {
    pub open spec fn model(&self) -> KeymapModel {
        KeymapModel { layout: self.layout, mods: self.mods, dead: self.dead, pinyin_mode: self.pinyin_mode, pinyin: self.pinyin@ }
    }

    /// The pinyin buffer holds at most 31 letters.
    pub open spec fn wf(&self) -> bool {
        self.pinyin@.len() <= 31
    }
}

/// No modifier held or locked.
pub open spec fn no_mods() -> Modifiers {
    Modifiers { shift: false, ctrl: false, alt: false, altgr: false, super_key: false, caps_lock: false, num_lock: false }
}

impl Modifiers {
    /// No modifier held or locked.
    pub fn new() -> (m: Self)
        ensures
            m == no_mods(),
    {
        Modifiers { shift: false, ctrl: false, alt: false, altgr: false, super_key: false, caps_lock: false, num_lock: false }
    }
}

/// The keymap at start: US layout, nothing held, no pending accent, pinyin
/// off.
pub fn init() -> (km: Keymap)
    ensures
        km.wf(),
        km.model() == (KeymapModel { layout: Layout::Us, mods: no_mods(), dead: DeadKey::NoAccent, pinyin_mode: false, pinyin: Seq::empty() }),
{
    Keymap { layout: Layout::Us, mods: Modifiers::new(), dead: DeadKey::NoAccent, pinyin_mode: false, pinyin: Vec::new() }
}

// ---------------------------------------------------------------------------
// Layout tables
// ---------------------------------------------------------------------------

/// US QWERTY, unshifted.
pub open spec fn us_normal_map(sc: u8) -> char {
    match sc {
        0x02 => '1',
        0x03 => '2',
        0x04 => '3',
        0x05 => '4',
        0x06 => '5',
        0x07 => '6',
        0x08 => '7',
        0x09 => '8',
        0x0A => '9',
        0x0B => '0',
        0x0C => '-',
        0x0D => '=',
        0x0E => '\x08',
        0x0F => '\t',
        0x10 => 'q',
        0x11 => 'w',
        0x12 => 'e',
        0x13 => 'r',
        0x14 => 't',
        0x15 => 'y',
        0x16 => 'u',
        0x17 => 'i',
        0x18 => 'o',
        0x19 => 'p',
        0x1A => '[',
        0x1B => ']',
        0x1C => '\n',
        0x1E => 'a',
        0x1F => 's',
        0x20 => 'd',
        0x21 => 'f',
        0x22 => 'g',
        0x23 => 'h',
        0x24 => 'j',
        0x25 => 'k',
        0x26 => 'l',
        0x27 => ';',
        0x28 => '\'',
        0x29 => '`',
        0x2B => '\\',
        0x2C => 'z',
        0x2D => 'x',
        0x2E => 'c',
        0x2F => 'v',
        0x30 => 'b',
        0x31 => 'n',
        0x32 => 'm',
        0x33 => ',',
        0x34 => '.',
        0x35 => '/',
        0x39 => ' ',
        _ => '\0',
    }
}

/// US QWERTY, shifted.
pub open spec fn us_shifted_map(sc: u8) -> char {
    match sc {
        0x02 => '!',
        0x03 => '@',
        0x04 => '#',
        0x05 => '$',
        0x06 => '%',
        0x07 => '^',
        0x08 => '&',
        0x09 => '*',
        0x0A => '(',
        0x0B => ')',
        0x0C => '_',
        0x0D => '+',
        0x0E => '\x08',
        0x0F => '\t',
        0x10 => 'Q',
        0x11 => 'W',
        0x12 => 'E',
        0x13 => 'R',
        0x14 => 'T',
        0x15 => 'Y',
        0x16 => 'U',
        0x17 => 'I',
        0x18 => 'O',
        0x19 => 'P',
        0x1A => '{',
        0x1B => '}',
        0x1C => '\n',
        0x1E => 'A',
        0x1F => 'S',
        0x20 => 'D',
        0x21 => 'F',
        0x22 => 'G',
        0x23 => 'H',
        0x24 => 'J',
        0x25 => 'K',
        0x26 => 'L',
        0x27 => ':',
        0x28 => '"',
        0x29 => '~',
        0x2B => '|',
        0x2C => 'Z',
        0x2D => 'X',
        0x2E => 'C',
        0x2F => 'V',
        0x30 => 'B',
        0x31 => 'N',
        0x32 => 'M',
        0x33 => '<',
        0x34 => '>',
        0x35 => '?',
        0x39 => ' ',
        _ => '\0',
    }
}

/// UK: `#` in place of the backslash.
pub open spec fn uk_normal_map(sc: u8) -> char {
    match sc {
        0x29 => '`',
        0x2B => '#',
        _ => us_normal_map(sc),
    }
}

/// UK, shifted: `"`, `£`, `@`, `¬` and `~` differ from US.
pub open spec fn uk_shifted_map(sc: u8) -> char {
    match sc {
        0x03 => '"',
        0x04 => '\u{00A3}',
        0x28 => '@',
        0x29 => '\u{00AC}',
        0x2B => '~',
        _ => us_shifted_map(sc),
    }
}

/// German QWERTZ: Y and Z swapped, `ß ü ö ä`.
pub open spec fn de_normal_map(sc: u8) -> char {
    match sc {
        0x0C => '\u{00DF}',
        0x15 => 'z',
        0x1A => '\u{00FC}',
        0x27 => '\u{00F6}',
        0x28 => '\u{00E4}',
        0x2C => 'y',
        _ => us_normal_map(sc),
    }
}

/// German, shifted.
pub open spec fn de_shifted_map(sc: u8) -> char {
    match sc {
        0x15 => 'Z',
        0x1A => '\u{00DC}',
        0x27 => '\u{00D6}',
        0x28 => '\u{00C4}',
        0x2C => 'Y',
        _ => us_shifted_map(sc),
    }
}

/// German AltGr layer: `² ³ € @`.
pub open spec fn de_altgr_map(sc: u8) -> char {
    match sc {
        0x03 => '\u{00B2}',
        0x04 => '\u{00B3}',
        0x10 => '@',
        0x12 => '\u{20AC}',
        _ => '\0',
    }
}

/// French AZERTY: A/Q and Z/W swapped, symbols on the number row.
pub open spec fn fr_normal_map(sc: u8) -> char {
    match sc {
        0x02 => '&',
        0x03 => '\u{00E9}',
        0x04 => '"',
        0x05 => '\'',
        0x06 => '(',
        0x07 => '-',
        0x08 => '\u{00E8}',
        0x09 => '_',
        0x0A => '\u{00E7}',
        0x0B => '\u{00E0}',
        0x10 => 'a',
        0x11 => 'z',
        0x1E => 'q',
        0x2C => 'w',
        0x32 => ',',
        0x33 => ';',
        0x34 => ':',
        0x35 => '!',
        _ => us_normal_map(sc),
    }
}

/// French, shifted: digits on the number row.
pub open spec fn fr_shifted_map(sc: u8) -> char {
    match sc {
        0x02 => '1',
        0x03 => '2',
        0x04 => '3',
        0x05 => '4',
        0x06 => '5',
        0x07 => '6',
        0x08 => '7',
        0x09 => '8',
        0x0A => '9',
        0x0B => '0',
        0x10 => 'A',
        0x11 => 'Z',
        0x1E => 'Q',
        0x2C => 'W',
        0x32 => '?',
        0x33 => '.',
        0x34 => '/',
        0x35 => '\u{00A7}',
        _ => us_shifted_map(sc),
    }
}

/// Dvorak, unshifted.
pub open spec fn dvorak_normal_map(sc: u8) -> char {
    match sc {
        0x02 => '1',
        0x03 => '2',
        0x04 => '3',
        0x05 => '4',
        0x06 => '5',
        0x07 => '6',
        0x08 => '7',
        0x09 => '8',
        0x0A => '9',
        0x0B => '0',
        0x0C => '[',
        0x0D => ']',
        0x0E => '\x08',
        0x0F => '\t',
        0x10 => '\'',
        0x11 => ',',
        0x12 => '.',
        0x13 => 'p',
        0x14 => 'y',
        0x15 => 'f',
        0x16 => 'g',
        0x17 => 'c',
        0x18 => 'r',
        0x19 => 'l',
        0x1A => '/',
        0x1B => '=',
        0x1C => '\n',
        0x1E => 'a',
        0x1F => 'o',
        0x20 => 'e',
        0x21 => 'u',
        0x22 => 'i',
        0x23 => 'd',
        0x24 => 'h',
        0x25 => 't',
        0x26 => 'n',
        0x27 => 's',
        0x28 => '-',
        0x29 => '`',
        0x2B => '\\',
        0x2C => ';',
        0x2D => 'q',
        0x2E => 'j',
        0x2F => 'k',
        0x30 => 'x',
        0x31 => 'b',
        0x32 => 'm',
        0x33 => 'w',
        0x34 => 'v',
        0x35 => 'z',
        0x39 => ' ',
        _ => '\0',
    }
}

/// Dvorak, shifted.
pub open spec fn dvorak_shifted_map(sc: u8) -> char {
    match sc {
        0x02 => '!',
        0x03 => '@',
        0x04 => '#',
        0x05 => '$',
        0x06 => '%',
        0x07 => '^',
        0x08 => '&',
        0x09 => '*',
        0x0A => '(',
        0x0B => ')',
        0x0C => '{',
        0x0D => '}',
        0x0E => '\x08',
        0x0F => '\t',
        0x10 => '"',
        0x11 => '<',
        0x12 => '>',
        0x13 => 'P',
        0x14 => 'Y',
        0x15 => 'F',
        0x16 => 'G',
        0x17 => 'C',
        0x18 => 'R',
        0x19 => 'L',
        0x1A => '?',
        0x1B => '+',
        0x1C => '\n',
        0x1E => 'A',
        0x1F => 'O',
        0x20 => 'E',
        0x21 => 'U',
        0x22 => 'I',
        0x23 => 'D',
        0x24 => 'H',
        0x25 => 'T',
        0x26 => 'N',
        0x27 => 'S',
        0x28 => '_',
        0x29 => '~',
        0x2B => '|',
        0x2C => ':',
        0x2D => 'Q',
        0x2E => 'J',
        0x2F => 'K',
        0x30 => 'X',
        0x31 => 'B',
        0x32 => 'M',
        0x33 => 'W',
        0x34 => 'V',
        0x35 => 'Z',
        0x39 => ' ',
        _ => '\0',
    }
}


/// The unshifted character of a scancode (NUL when none).
pub open spec fn normal_char(l: Layout, sc: u8) -> char {
    match l {
        Layout::Us => us_normal_map(sc),
        Layout::Uk => uk_normal_map(sc),
        Layout::De => de_normal_map(sc),
        Layout::Fr => fr_normal_map(sc),
        Layout::Dvorak => dvorak_normal_map(sc),
    }
}

/// The shifted character of a scancode (NUL when none).
pub open spec fn shifted_char(l: Layout, sc: u8) -> char {
    match l {
        Layout::Us => us_shifted_map(sc),
        Layout::Uk => uk_shifted_map(sc),
        Layout::De => de_shifted_map(sc),
        Layout::Fr => fr_shifted_map(sc),
        Layout::Dvorak => dvorak_shifted_map(sc),
    }
}

/// The AltGr character of a scancode (NUL when none; only German has an
/// AltGr layer).
pub open spec fn altgr_char(l: Layout, sc: u8) -> char {
    match l {
        Layout::De => de_altgr_map(sc),
        _ => '\0',
    }
}

fn us_normal(sc: u8) -> (c: char)
    ensures
        c == us_normal_map(sc),
{
    match sc {
        0x02 => '1',
        0x03 => '2',
        0x04 => '3',
        0x05 => '4',
        0x06 => '5',
        0x07 => '6',
        0x08 => '7',
        0x09 => '8',
        0x0A => '9',
        0x0B => '0',
        0x0C => '-',
        0x0D => '=',
        0x0E => '\x08',
        0x0F => '\t',
        0x10 => 'q',
        0x11 => 'w',
        0x12 => 'e',
        0x13 => 'r',
        0x14 => 't',
        0x15 => 'y',
        0x16 => 'u',
        0x17 => 'i',
        0x18 => 'o',
        0x19 => 'p',
        0x1A => '[',
        0x1B => ']',
        0x1C => '\n',
        0x1E => 'a',
        0x1F => 's',
        0x20 => 'd',
        0x21 => 'f',
        0x22 => 'g',
        0x23 => 'h',
        0x24 => 'j',
        0x25 => 'k',
        0x26 => 'l',
        0x27 => ';',
        0x28 => '\'',
        0x29 => '`',
        0x2B => '\\',
        0x2C => 'z',
        0x2D => 'x',
        0x2E => 'c',
        0x2F => 'v',
        0x30 => 'b',
        0x31 => 'n',
        0x32 => 'm',
        0x33 => ',',
        0x34 => '.',
        0x35 => '/',
        0x39 => ' ',
        _ => '\0',
    }
}

fn us_shifted(sc: u8) -> (c: char)
    ensures
        c == us_shifted_map(sc),
{
    match sc {
        0x02 => '!',
        0x03 => '@',
        0x04 => '#',
        0x05 => '$',
        0x06 => '%',
        0x07 => '^',
        0x08 => '&',
        0x09 => '*',
        0x0A => '(',
        0x0B => ')',
        0x0C => '_',
        0x0D => '+',
        0x0E => '\x08',
        0x0F => '\t',
        0x10 => 'Q',
        0x11 => 'W',
        0x12 => 'E',
        0x13 => 'R',
        0x14 => 'T',
        0x15 => 'Y',
        0x16 => 'U',
        0x17 => 'I',
        0x18 => 'O',
        0x19 => 'P',
        0x1A => '{',
        0x1B => '}',
        0x1C => '\n',
        0x1E => 'A',
        0x1F => 'S',
        0x20 => 'D',
        0x21 => 'F',
        0x22 => 'G',
        0x23 => 'H',
        0x24 => 'J',
        0x25 => 'K',
        0x26 => 'L',
        0x27 => ':',
        0x28 => '"',
        0x29 => '~',
        0x2B => '|',
        0x2C => 'Z',
        0x2D => 'X',
        0x2E => 'C',
        0x2F => 'V',
        0x30 => 'B',
        0x31 => 'N',
        0x32 => 'M',
        0x33 => '<',
        0x34 => '>',
        0x35 => '?',
        0x39 => ' ',
        _ => '\0',
    }
}

fn uk_normal(sc: u8) -> (c: char)
    ensures
        c == uk_normal_map(sc),
{
    match sc {
        0x29 => '`',
        0x2B => '#',
        _ => us_normal(sc),
    }
}

fn uk_shifted(sc: u8) -> (c: char)
    ensures
        c == uk_shifted_map(sc),
{
    match sc {
        0x03 => '"',
        0x04 => '\u{00A3}',
        0x28 => '@',
        0x29 => '\u{00AC}',
        0x2B => '~',
        _ => us_shifted(sc),
    }
}

fn de_normal(sc: u8) -> (c: char)
    ensures
        c == de_normal_map(sc),
{
    match sc {
        0x0C => '\u{00DF}',
        0x15 => 'z',
        0x1A => '\u{00FC}',
        0x27 => '\u{00F6}',
        0x28 => '\u{00E4}',
        0x2C => 'y',
        _ => us_normal(sc),
    }
}

fn de_shifted(sc: u8) -> (c: char)
    ensures
        c == de_shifted_map(sc),
{
    match sc {
        0x15 => 'Z',
        0x1A => '\u{00DC}',
        0x27 => '\u{00D6}',
        0x28 => '\u{00C4}',
        0x2C => 'Y',
        _ => us_shifted(sc),
    }
}

fn de_altgr(sc: u8) -> (c: char)
    ensures
        c == de_altgr_map(sc),
{
    match sc {
        0x03 => '\u{00B2}',
        0x04 => '\u{00B3}',
        0x10 => '@',
        0x12 => '\u{20AC}',
        _ => '\0',
    }
}

fn fr_normal(sc: u8) -> (c: char)
    ensures
        c == fr_normal_map(sc),
{
    match sc {
        0x02 => '&',
        0x03 => '\u{00E9}',
        0x04 => '"',
        0x05 => '\'',
        0x06 => '(',
        0x07 => '-',
        0x08 => '\u{00E8}',
        0x09 => '_',
        0x0A => '\u{00E7}',
        0x0B => '\u{00E0}',
        0x10 => 'a',
        0x11 => 'z',
        0x1E => 'q',
        0x2C => 'w',
        0x32 => ',',
        0x33 => ';',
        0x34 => ':',
        0x35 => '!',
        _ => us_normal(sc),
    }
}

fn fr_shifted(sc: u8) -> (c: char)
    ensures
        c == fr_shifted_map(sc),
{
    match sc {
        0x02 => '1',
        0x03 => '2',
        0x04 => '3',
        0x05 => '4',
        0x06 => '5',
        0x07 => '6',
        0x08 => '7',
        0x09 => '8',
        0x0A => '9',
        0x0B => '0',
        0x10 => 'A',
        0x11 => 'Z',
        0x1E => 'Q',
        0x2C => 'W',
        0x32 => '?',
        0x33 => '.',
        0x34 => '/',
        0x35 => '\u{00A7}',
        _ => us_shifted(sc),
    }
}

fn dvorak_normal(sc: u8) -> (c: char)
    ensures
        c == dvorak_normal_map(sc),
{
    match sc {
        0x02 => '1',
        0x03 => '2',
        0x04 => '3',
        0x05 => '4',
        0x06 => '5',
        0x07 => '6',
        0x08 => '7',
        0x09 => '8',
        0x0A => '9',
        0x0B => '0',
        0x0C => '[',
        0x0D => ']',
        0x0E => '\x08',
        0x0F => '\t',
        0x10 => '\'',
        0x11 => ',',
        0x12 => '.',
        0x13 => 'p',
        0x14 => 'y',
        0x15 => 'f',
        0x16 => 'g',
        0x17 => 'c',
        0x18 => 'r',
        0x19 => 'l',
        0x1A => '/',
        0x1B => '=',
        0x1C => '\n',
        0x1E => 'a',
        0x1F => 'o',
        0x20 => 'e',
        0x21 => 'u',
        0x22 => 'i',
        0x23 => 'd',
        0x24 => 'h',
        0x25 => 't',
        0x26 => 'n',
        0x27 => 's',
        0x28 => '-',
        0x29 => '`',
        0x2B => '\\',
        0x2C => ';',
        0x2D => 'q',
        0x2E => 'j',
        0x2F => 'k',
        0x30 => 'x',
        0x31 => 'b',
        0x32 => 'm',
        0x33 => 'w',
        0x34 => 'v',
        0x35 => 'z',
        0x39 => ' ',
        _ => '\0',
    }
}

fn dvorak_shifted(sc: u8) -> (c: char)
    ensures
        c == dvorak_shifted_map(sc),
{
    match sc {
        0x02 => '!',
        0x03 => '@',
        0x04 => '#',
        0x05 => '$',
        0x06 => '%',
        0x07 => '^',
        0x08 => '&',
        0x09 => '*',
        0x0A => '(',
        0x0B => ')',
        0x0C => '{',
        0x0D => '}',
        0x0E => '\x08',
        0x0F => '\t',
        0x10 => '"',
        0x11 => '<',
        0x12 => '>',
        0x13 => 'P',
        0x14 => 'Y',
        0x15 => 'F',
        0x16 => 'G',
        0x17 => 'C',
        0x18 => 'R',
        0x19 => 'L',
        0x1A => '?',
        0x1B => '+',
        0x1C => '\n',
        0x1E => 'A',
        0x1F => 'O',
        0x20 => 'E',
        0x21 => 'U',
        0x22 => 'I',
        0x23 => 'D',
        0x24 => 'H',
        0x25 => 'T',
        0x26 => 'N',
        0x27 => 'S',
        0x28 => '_',
        0x29 => '~',
        0x2B => '|',
        0x2C => ':',
        0x2D => 'Q',
        0x2E => 'J',
        0x2F => 'K',
        0x30 => 'X',
        0x31 => 'B',
        0x32 => 'M',
        0x33 => 'W',
        0x34 => 'V',
        0x35 => 'Z',
        0x39 => ' ',
        _ => '\0',
    }
}


fn layout_normal(l: Layout, sc: u8) -> (c: char)
    ensures
        c == normal_char(l, sc),
{
    match l {
        Layout::Us => us_normal(sc),
        Layout::Uk => uk_normal(sc),
        Layout::De => de_normal(sc),
        Layout::Fr => fr_normal(sc),
        Layout::Dvorak => dvorak_normal(sc),
    }
}

fn layout_shifted(l: Layout, sc: u8) -> (c: char)
    ensures
        c == shifted_char(l, sc),
{
    match l {
        Layout::Us => us_shifted(sc),
        Layout::Uk => uk_shifted(sc),
        Layout::De => de_shifted(sc),
        Layout::Fr => fr_shifted(sc),
        Layout::Dvorak => dvorak_shifted(sc),
    }
}

fn layout_altgr(l: Layout, sc: u8) -> (c: char)
    ensures
        c == altgr_char(l, sc),
{
    match l {
        Layout::De => de_altgr(sc),
        _ => '\0',
    }
}

// ---------------------------------------------------------------------------
// Dead keys
// ---------------------------------------------------------------------------

/// The accented letter of a dead key and a base letter, if there is one.
pub open spec fn compose(dead: DeadKey, base: char) -> Option<char> {
    match dead {
        DeadKey::Acute => if base == 'a' { Some('\u{00E1}') } else if base == 'e' { Some('\u{00E9}') }
            else if base == 'i' { Some('\u{00ED}') } else if base == 'o' { Some('\u{00F3}') }
            else if base == 'u' { Some('\u{00FA}') } else if base == 'A' { Some('\u{00C1}') }
            else if base == 'E' { Some('\u{00C9}') } else if base == 'I' { Some('\u{00CD}') }
            else if base == 'O' { Some('\u{00D3}') } else if base == 'U' { Some('\u{00DA}') } else { None },
        DeadKey::Grave => if base == 'a' { Some('\u{00E0}') } else if base == 'e' { Some('\u{00E8}') }
            else if base == 'i' { Some('\u{00EC}') } else if base == 'o' { Some('\u{00F2}') }
            else if base == 'u' { Some('\u{00F9}') } else { None },
        DeadKey::Circumflex => if base == 'a' { Some('\u{00E2}') } else if base == 'e' { Some('\u{00EA}') }
            else if base == 'i' { Some('\u{00EE}') } else if base == 'o' { Some('\u{00F4}') }
            else if base == 'u' { Some('\u{00FB}') } else { None },
        DeadKey::Diaeresis => if base == 'a' { Some('\u{00E4}') } else if base == 'e' { Some('\u{00EB}') }
            else if base == 'i' { Some('\u{00EF}') } else if base == 'o' { Some('\u{00F6}') }
            else if base == 'u' { Some('\u{00FC}') } else if base == 'A' { Some('\u{00C4}') }
            else if base == 'O' { Some('\u{00D6}') } else if base == 'U' { Some('\u{00DC}') } else { None },
        DeadKey::Tilde => if base == 'n' { Some('\u{00F1}') } else if base == 'N' { Some('\u{00D1}') }
            else if base == 'a' { Some('\u{00E3}') } else if base == 'o' { Some('\u{00F5}') } else { None },
        DeadKey::NoAccent => None,
    }
}

fn resolve_dead_key(dead: DeadKey, base: char) -> (r: Option<char>)
    ensures
        r == compose(dead, base),
{
    match dead {
        DeadKey::Acute => if base == 'a' { Some('\u{00E1}') } else if base == 'e' { Some('\u{00E9}') }
            else if base == 'i' { Some('\u{00ED}') } else if base == 'o' { Some('\u{00F3}') }
            else if base == 'u' { Some('\u{00FA}') } else if base == 'A' { Some('\u{00C1}') }
            else if base == 'E' { Some('\u{00C9}') } else if base == 'I' { Some('\u{00CD}') }
            else if base == 'O' { Some('\u{00D3}') } else if base == 'U' { Some('\u{00DA}') } else { None },
        DeadKey::Grave => if base == 'a' { Some('\u{00E0}') } else if base == 'e' { Some('\u{00E8}') }
            else if base == 'i' { Some('\u{00EC}') } else if base == 'o' { Some('\u{00F2}') }
            else if base == 'u' { Some('\u{00F9}') } else { None },
        DeadKey::Circumflex => if base == 'a' { Some('\u{00E2}') } else if base == 'e' { Some('\u{00EA}') }
            else if base == 'i' { Some('\u{00EE}') } else if base == 'o' { Some('\u{00F4}') }
            else if base == 'u' { Some('\u{00FB}') } else { None },
        DeadKey::Diaeresis => if base == 'a' { Some('\u{00E4}') } else if base == 'e' { Some('\u{00EB}') }
            else if base == 'i' { Some('\u{00EF}') } else if base == 'o' { Some('\u{00F6}') }
            else if base == 'u' { Some('\u{00FC}') } else if base == 'A' { Some('\u{00C4}') }
            else if base == 'O' { Some('\u{00D6}') } else if base == 'U' { Some('\u{00DC}') } else { None },
        DeadKey::Tilde => if base == 'n' { Some('\u{00F1}') } else if base == 'N' { Some('\u{00D1}') }
            else if base == 'a' { Some('\u{00E3}') } else if base == 'o' { Some('\u{00F5}') } else { None },
        DeadKey::NoAccent => None,
    }
}

/// The dead key a character starts: acute, grave, circumflex, diaeresis.
pub open spec fn dead_key_of(c: char) -> DeadKey {
    if c == '\u{00B4}' { DeadKey::Acute }
    else if c == '\u{0060}' { DeadKey::Grave }
    else if c == '\u{005E}' { DeadKey::Circumflex }
    else if c == '\u{00A8}' { DeadKey::Diaeresis }
    else { DeadKey::NoAccent }
}

// ---------------------------------------------------------------------------
// Pinyin
// ---------------------------------------------------------------------------

/// Syllables and the first character of their Chinese text.
pub open spec fn pinyin_table() -> Seq<(Seq<char>, char)> {
    seq![
        ("nihao"@, '\u{4F60}'),
        ("ni"@, '\u{4F60}'),
        ("hao"@, '\u{597D}'),
        ("wo"@, '\u{6211}'),
        ("shi"@, '\u{662F}'),
        ("de"@, '\u{7684}'),
        ("le"@, '\u{4E86}'),
        ("ma"@, '\u{5417}'),
        ("bu"@, '\u{4E0D}'),
        ("zai"@, '\u{5728}'),
        ("you"@, '\u{6709}'),
        ("ren"@, '\u{4EBA}'),
        ("ta"@, '\u{4ED6}'),
        ("she"@, '\u{5979}'),
        ("men"@, '\u{4EEC}'),
        ("zhe"@, '\u{8FD9}'),
        ("na"@, '\u{90A3}'),
        ("ge"@, '\u{4E2A}'),
        ("da"@, '\u{5927}'),
        ("xiao"@, '\u{5C0F}'),
        ("zhong"@, '\u{4E2D}'),
        ("guo"@, '\u{56FD}'),
        ("zhongguo"@, '\u{4E2D}'),
        ("xin"@, '\u{65B0}'),
        ("jia"@, '\u{52A0}'),
        ("xinjiapo"@, '\u{65B0}'),
        ("po"@, '\u{5761}'),
        ("ai"@, '\u{7231}'),
        ("he"@, '\u{548C}'),
        ("dui"@, '\u{5BF9}'),
        ("shang"@, '\u{4E0A}'),
        ("xia"@, '\u{4E0B}'),
        ("lai"@, '\u{6765}'),
        ("qu"@, '\u{53BB}'),
        ("kan"@, '\u{770B}'),
        ("shuo"@, '\u{8BF4}'),
        ("ting"@, '\u{542C}'),
        ("xie"@, '\u{5199}'),
        ("du"@, '\u{8BFB}'),
        ("chi"@, '\u{5403}'),
        ("he2"@, '\u{559D}'),
        ("shui"@, '\u{6C34}'),
        ("huo"@, '\u{706B}'),
        ("tian"@, '\u{5929}'),
        ("di"@, '\u{5730}'),
        ("ri"@, '\u{65E5}'),
        ("yue"@, '\u{6708}'),
        ("nian"@, '\u{5E74}'),
        ("hao3"@, '\u{53F7}'),
        ("ming"@, '\u{540D}'),
        ("zi"@, '\u{5B57}')
    ]
}

/// Index of the first row from `j` on whose syllable is `s` (the length
/// when none).
pub open spec fn exact_index(t: Seq<(Seq<char>, char)>, s: Seq<char>, j: int) -> int
    decreases t.len() - j,
{
    if j < 0 || j >= t.len() { t.len() as int } else if t[j].0 == s { j } else { exact_index(t, s, j + 1) }
}

/// Index of the first row from `j` on whose syllable begins with `s`.
pub open spec fn prefix_index(t: Seq<(Seq<char>, char)>, s: Seq<char>, j: int) -> int
    decreases t.len() - j,
{
    if j < 0 || j >= t.len() { t.len() as int } else if has_prefix(t[j].0, s) { j } else { prefix_index(t, s, j + 1) }
}

/// The character a typed syllable gives: that of the first row with
/// exactly this syllable, else of the first row that begins with it.
pub open spec fn pinyin_candidate(s: Seq<char>) -> Option<char> {
    let t = pinyin_table();
    let e = exact_index(t, s, 0);
    let p = prefix_index(t, s, 0);
    if e < t.len() { Some(t[e].1) } else if p < t.len() { Some(t[p].1) } else { None }
}

/// A letter in lower case.
pub open spec fn lower_char(c: char) -> char {
    if 'A' <= c <= 'Z' { ((c as u32) + 32) as char } else { c }
}

/// The syllable in lower case.
pub open spec fn lower(s: Seq<char>) -> Seq<char> {
    s.map_values(|c: char| lower_char(c))
}

fn syllables() -> (t: Vec<(&'static str, char)>)
    ensures
        t@.map_values(|r: (&'static str, char)| (r.0@, r.1)) == pinyin_table(),
{
    let mut t: Vec<(&'static str, char)> = Vec::new();
    t.push(("nihao", '\u{4F60}'));
    t.push(("ni", '\u{4F60}'));
    t.push(("hao", '\u{597D}'));
    t.push(("wo", '\u{6211}'));
    t.push(("shi", '\u{662F}'));
    t.push(("de", '\u{7684}'));
    t.push(("le", '\u{4E86}'));
    t.push(("ma", '\u{5417}'));
    t.push(("bu", '\u{4E0D}'));
    t.push(("zai", '\u{5728}'));
    t.push(("you", '\u{6709}'));
    t.push(("ren", '\u{4EBA}'));
    t.push(("ta", '\u{4ED6}'));
    t.push(("she", '\u{5979}'));
    t.push(("men", '\u{4EEC}'));
    t.push(("zhe", '\u{8FD9}'));
    t.push(("na", '\u{90A3}'));
    t.push(("ge", '\u{4E2A}'));
    t.push(("da", '\u{5927}'));
    t.push(("xiao", '\u{5C0F}'));
    t.push(("zhong", '\u{4E2D}'));
    t.push(("guo", '\u{56FD}'));
    t.push(("zhongguo", '\u{4E2D}'));
    t.push(("xin", '\u{65B0}'));
    t.push(("jia", '\u{52A0}'));
    t.push(("xinjiapo", '\u{65B0}'));
    t.push(("po", '\u{5761}'));
    t.push(("ai", '\u{7231}'));
    t.push(("he", '\u{548C}'));
    t.push(("dui", '\u{5BF9}'));
    t.push(("shang", '\u{4E0A}'));
    t.push(("xia", '\u{4E0B}'));
    t.push(("lai", '\u{6765}'));
    t.push(("qu", '\u{53BB}'));
    t.push(("kan", '\u{770B}'));
    t.push(("shuo", '\u{8BF4}'));
    t.push(("ting", '\u{542C}'));
    t.push(("xie", '\u{5199}'));
    t.push(("du", '\u{8BFB}'));
    t.push(("chi", '\u{5403}'));
    t.push(("he2", '\u{559D}'));
    t.push(("shui", '\u{6C34}'));
    t.push(("huo", '\u{706B}'));
    t.push(("tian", '\u{5929}'));
    t.push(("di", '\u{5730}'));
    t.push(("ri", '\u{65E5}'));
    t.push(("yue", '\u{6708}'));
    t.push(("nian", '\u{5E74}'));
    t.push(("hao3", '\u{53F7}'));
    t.push(("ming", '\u{540D}'));
    t.push(("zi", '\u{5B57}'));
    assert(t@.map_values(|r: (&'static str, char)| (r.0@, r.1)) =~= pinyin_table());
    t
}

fn lookup_pinyin(s: &str) -> (r: Option<char>)
    ensures
        r == pinyin_candidate(s@),
{
    let t = syllables();
    let ghost tv = t@.map_values(|r: (&'static str, char)| (r.0@, r.1));
    let n = t.len();
    let mut i: usize = 0;
    while i < n
        invariant
            n == t@.len(),
            tv == t@.map_values(|r: (&'static str, char)| (r.0@, r.1)),
            tv == pinyin_table(),
            i <= n,
            exact_index(tv, s@, 0) == exact_index(tv, s@, i as int),
        decreases n - i,
    {
        assert(tv[i as int] == (t@[i as int].0@, t@[i as int].1));
        if str_eq(t[i].0, s) {
            return Some(t[i].1);
        }
        i = i + 1;
    }
    let mut j: usize = 0;
    while j < n
        invariant
            n == t@.len(),
            tv == t@.map_values(|r: (&'static str, char)| (r.0@, r.1)),
            tv == pinyin_table(),
            j <= n,
            exact_index(tv, s@, 0) == n,
            prefix_index(tv, s@, 0) == prefix_index(tv, s@, j as int),
        decreases n - j,
    {
        assert(tv[j as int] == (t@[j as int].0@, t@[j as int].1));
        if starts_with_str(t[j].0, s) {
            return Some(t[j].1);
        }
        j = j + 1;
    }
    None
}

fn lower_string(s: &Vec<char>) -> (r: String)
    ensures
        r@ == lower(s@),
{
    let mut out = String::new();
    let mut i: usize = 0;
    while i < s.len()
        invariant
            i <= s@.len(),
            out@ == lower(s@.subrange(0, i as int)),
        decreases s@.len() - i,
    {
        let c = s[i];
        let l: char = if 'A' <= c && c <= 'Z' { ((c as u8) + 32) as char } else { c };
        assert(l == lower_char(c));
        crate::text::push_char(&mut out, l);
        assert(lower(s@.subrange(0, i + 1)) =~= lower(s@.subrange(0, i as int)).push(l));
        i = i + 1;
    }
    assert(s@.subrange(0, s@.len() as int) =~= s@);
    out
}

/// Whether a character is an ASCII letter.
pub open spec fn ascii_alpha(c: char) -> bool {
    ('a' <= c <= 'z') || ('A' <= c <= 'Z')
}

/// The keymap and the result after character `ch` in pinyin mode: space
/// or Enter commits the syllable (its Chinese character, or `ch` itself
/// when the syllable is empty or unknown); a letter is buffered (up to 31);
/// anything else passes through.
pub open spec fn pinyin_step(m: KeymapModel, ch: char) -> (KeymapModel, Option<char>) {
    if ch == ' ' || ch == '\n' {
        let cleared = KeymapModel { pinyin: Seq::empty(), ..m };
        if m.pinyin.len() == 0 {
            (cleared, Some(ch))
        } else {
            match pinyin_candidate(lower(m.pinyin)) {
                Some(h) => (cleared, Some(h)),
                None => (cleared, Some(ch)),
            }
        }
    } else if ascii_alpha(ch) {
        if m.pinyin.len() < 31 { (KeymapModel { pinyin: m.pinyin.push(ch), ..m }, None) } else { (m, None) }
    } else {
        (m, Some(ch))
    }
}

fn handle_pinyin_char(km: &mut Keymap, ch: char) -> (r: Option<char>)
    requires
        old(km).wf(),
    ensures
        final(km).wf(),
        (final(km).model(), r) == pinyin_step(old(km).model(), ch),
{
    if ch == ' ' || ch == '\n' {
        if km.pinyin.len() == 0 {
            km.pinyin = Vec::new();
            return Some(ch);
        }
        let low = lower_string(&km.pinyin);
        let found = lookup_pinyin(low.as_str());
        km.pinyin = Vec::new();
        return match found {
            Some(h) => Some(h),
            None => Some(ch),
        };
    }
    if ('a' <= ch && ch <= 'z') || ('A' <= ch && ch <= 'Z') {
        if km.pinyin.len() < 31 {
            km.pinyin.push(ch);
        }
        return None;
    }
    Some(ch)
}

// ---------------------------------------------------------------------------
// Translation
// ---------------------------------------------------------------------------

/// Left shift, right shift, left control, left alt, caps lock, num lock.
pub const SC_LSHIFT: u8 = 0x2A;
pub const SC_RSHIFT: u8 = 0x36;
pub const SC_LCTRL: u8 = 0x1D;
pub const SC_LALT: u8 = 0x38;
pub const SC_CAPS: u8 = 0x3A;
pub const SC_NUMLOCK: u8 = 0x45;

/// The character a pressed key selects: the AltGr layer when AltGr is held
/// and it has one, else the shifted map when shift and caps lock differ,
/// else the unshifted map.
pub open spec fn key_char(m: KeymapModel, sc: u8) -> char {
    if m.mods.altgr && altgr_char(m.layout, sc) != '\0' {
        altgr_char(m.layout, sc)
    } else if m.mods.shift != m.mods.caps_lock {
        shifted_char(m.layout, sc)
    } else {
        normal_char(m.layout, sc)
    }
}

/// The keymap and the result after one scancode. A release (bit 7)
/// releases shift, control or alt. A press of a modifier sets it; caps lock
/// and num lock toggle. Another key gives its character, if it has one,
/// through the pinyin input method when that is on; else it completes a
/// pending dead key (the accented letter, or the key itself), starts a dead
/// key (´ ` ^ ¨, which give nothing yet), or is the character itself.
pub open spec fn translate_step(m: KeymapModel, sc: u8) -> (KeymapModel, Option<char>) {
    if sc >= 0x80 {
        let make = (sc - 0x80) as u8;
        let mods = if make == SC_LSHIFT || make == SC_RSHIFT {
            Modifiers { shift: false, ..m.mods }
        } else if make == SC_LCTRL {
            Modifiers { ctrl: false, ..m.mods }
        } else if make == SC_LALT {
            Modifiers { alt: false, ..m.mods }
        } else {
            m.mods
        };
        (KeymapModel { mods, ..m }, None)
    } else if sc == SC_LSHIFT || sc == SC_RSHIFT {
        (KeymapModel { mods: Modifiers { shift: true, ..m.mods }, ..m }, None)
    } else if sc == SC_LCTRL {
        (KeymapModel { mods: Modifiers { ctrl: true, ..m.mods }, ..m }, None)
    } else if sc == SC_LALT {
        (KeymapModel { mods: Modifiers { alt: true, ..m.mods }, ..m }, None)
    } else if sc == SC_CAPS {
        (KeymapModel { mods: Modifiers { caps_lock: !m.mods.caps_lock, ..m.mods }, ..m }, None)
    } else if sc == SC_NUMLOCK {
        (KeymapModel { mods: Modifiers { num_lock: !m.mods.num_lock, ..m.mods }, ..m }, None)
    } else {
        char_step(m, key_char(m, sc))
    }
}

/// The keymap and the result for the character `ch` of a pressed key.
pub open spec fn char_step(m: KeymapModel, ch: char) -> (KeymapModel, Option<char>) {
    if ch == '\0' {
        (m, None)
    } else if m.pinyin_mode {
        pinyin_step(m, ch)
    } else if m.dead != DeadKey::NoAccent {
        let m2 = KeymapModel { dead: DeadKey::NoAccent, ..m };
        match compose(m.dead, ch) {
            Some(a) => (m2, Some(a)),
            None => (m2, Some(ch)),
        }
    } else if dead_key_of(ch) != DeadKey::NoAccent {
        (KeymapModel { dead: dead_key_of(ch), ..m }, None)
    } else {
        (m, Some(ch))
    }
}

fn pick_char(km: &Keymap, sc: u8) -> (ch: char)
    ensures
        ch == key_char(km.model(), sc),
{
    let ag = layout_altgr(km.layout, sc);
    if km.mods.altgr && ag != '\0' {
        ag
    } else if km.mods.shift != km.mods.caps_lock {
        layout_shifted(km.layout, sc)
    } else {
        layout_normal(km.layout, sc)
    }
}

fn apply_char(km: &mut Keymap, ch: char) -> (r: Option<char>)
    requires
        old(km).wf(),
    ensures
        final(km).wf(),
        (final(km).model(), r) == char_step(old(km).model(), ch),
{
    if ch == '\0' {
        return None;
    }
    if km.pinyin_mode {
        return handle_pinyin_char(km, ch);
    }
    if km.dead != DeadKey::NoAccent {
        let pending = km.dead;
        km.dead = DeadKey::NoAccent;
        return match resolve_dead_key(pending, ch) {
            Some(a) => Some(a),
            None => Some(ch),
        };
    }
    let d = if ch == '\u{00B4}' {
        DeadKey::Acute
    } else if ch == '\u{0060}' {
        DeadKey::Grave
    } else if ch == '\u{005E}' {
        DeadKey::Circumflex
    } else if ch == '\u{00A8}' {
        DeadKey::Diaeresis
    } else {
        DeadKey::NoAccent
    };
    if d != DeadKey::NoAccent {
        km.dead = d;
        return None;
    }
    Some(ch)
}

/// Translate a scancode with the active layout, tracking the modifiers,
/// dead keys and pinyin input in the keymap. `_modifiers` is not read: the
/// keymap keeps its own modifier state.
pub fn translate_scancode(km: &mut Keymap, scancode: u8, _modifiers: &Modifiers) -> (r: Option<char>)
    requires
        old(km).wf(),
    ensures
        final(km).wf(),
        (final(km).model(), r) == translate_step(old(km).model(), scancode),
{
    if scancode & 0x80 != 0 {
        let make = scancode & 0x7F;
        assert(make == (scancode - 0x80) as u8 && scancode >= 0x80) by (bit_vector)
            requires make == scancode & 0x7F, scancode & 0x80 != 0;
        if make == SC_LSHIFT || make == SC_RSHIFT {
            km.mods.shift = false;
        } else if make == SC_LCTRL {
            km.mods.ctrl = false;
        } else if make == SC_LALT {
            km.mods.alt = false;
        }
        return None;
    }
    assert(scancode < 0x80) by (bit_vector)
        requires scancode & 0x80 == 0;
    if scancode == SC_LSHIFT || scancode == SC_RSHIFT {
        km.mods.shift = true;
        return None;
    }
    if scancode == SC_LCTRL {
        km.mods.ctrl = true;
        return None;
    }
    if scancode == SC_LALT {
        km.mods.alt = true;
        return None;
    }
    if scancode == SC_CAPS {
        km.mods.caps_lock = !km.mods.caps_lock;
        return None;
    }
    if scancode == SC_NUMLOCK {
        km.mods.num_lock = !km.mods.num_lock;
        return None;
    }
    let ch = pick_char(km, scancode);
    apply_char(km, ch)
}

// ---------------------------------------------------------------------------
// Layout selection
// ---------------------------------------------------------------------------

/// The name of a layout.
pub open spec fn layout_name(l: Layout) -> Seq<char> {
    match l {
        Layout::Us => "us"@,
        Layout::Uk => "uk"@,
        Layout::De => "de"@,
        Layout::Fr => "fr"@,
        Layout::Dvorak => "dvorak"@,
    }
}

fn name_of(l: Layout) -> (r: &'static str)
    ensures
        r@ == layout_name(l),
{
    match l {
        Layout::Us => "us",
        Layout::Uk => "uk",
        Layout::De => "de",
        Layout::Fr => "fr",
        Layout::Dvorak => "dvorak",
    }
}

/// The layout with this name, if any.
pub open spec fn layout_named(name: Seq<char>) -> Option<Layout> {
    if name == layout_name(Layout::Us) { Some(Layout::Us) }
    else if name == layout_name(Layout::Uk) { Some(Layout::Uk) }
    else if name == layout_name(Layout::De) { Some(Layout::De) }
    else if name == layout_name(Layout::Fr) { Some(Layout::Fr) }
    else if name == layout_name(Layout::Dvorak) { Some(Layout::Dvorak) }
    else { None }
}

/// Select a layout by name, or turn pinyin on with `pinyin`; false for
/// any other name (nothing changes).
pub fn set_layout(km: &mut Keymap, name: &str) -> (r: bool)
    requires
        old(km).wf(),
    ensures
        final(km).wf(),
        match layout_named(name@) {
            Some(l) => r && final(km).model() == (KeymapModel { layout: l, ..old(km).model() }),
            None => if name@ == "pinyin"@ {
                r && final(km).model() == (KeymapModel { pinyin_mode: true, ..old(km).model() })
            } else {
                !r && final(km).model() == old(km).model()
            },
        },
{
    if str_eq(name, "us") {
        km.layout = Layout::Us;
        true
    } else if str_eq(name, "uk") {
        km.layout = Layout::Uk;
        true
    } else if str_eq(name, "de") {
        km.layout = Layout::De;
        true
    } else if str_eq(name, "fr") {
        km.layout = Layout::Fr;
        true
    } else if str_eq(name, "dvorak") {
        km.layout = Layout::Dvorak;
        true
    } else if str_eq(name, "pinyin") {
        km.pinyin_mode = true;
        true
    } else {
        false
    }
}

/// The layout after `l` in the cycle.
pub open spec fn next_of(l: Layout) -> Layout {
    match l {
        Layout::Us => Layout::Uk,
        Layout::Uk => Layout::De,
        Layout::De => Layout::Fr,
        Layout::Fr => Layout::Dvorak,
        Layout::Dvorak => Layout::Us,
    }
}

/// Switch to the next layout, turning pinyin off.
pub fn next_layout(km: &mut Keymap)
    requires
        old(km).wf(),
    ensures
        final(km).wf(),
        final(km).model() == (KeymapModel { layout: next_of(old(km).layout), pinyin_mode: false, ..old(km).model() }),
{
    km.layout = match km.layout {
        Layout::Us => Layout::Uk,
        Layout::Uk => Layout::De,
        Layout::De => Layout::Fr,
        Layout::Fr => Layout::Dvorak,
        Layout::Dvorak => Layout::Us,
    };
    km.pinyin_mode = false;
}

/// The layout names, then `pinyin`.
pub fn list_layouts() -> (r: Vec<&'static str>)
    ensures
        r@.map_values(|s: &'static str| s@) == seq!["us"@, "uk"@, "de"@, "fr"@, "dvorak"@, "pinyin"@],
{
    let mut v: Vec<&'static str> = Vec::new();
    v.push("us");
    v.push("uk");
    v.push("de");
    v.push("fr");
    v.push("dvorak");
    v.push("pinyin");
    assert(v@.map_values(|s: &'static str| s@) =~= seq!["us"@, "uk"@, "de"@, "fr"@, "dvorak"@, "pinyin"@]);
    v
}

/// The active layout's name, `pinyin` when the input method is on.
pub fn current_layout(km: &Keymap) -> (r: &'static str)
    ensures
        r@ == if km.pinyin_mode { "pinyin"@ } else { layout_name(km.layout) },
{
    if km.pinyin_mode {
        "pinyin"
    } else {
        name_of(km.layout)
    }
}

/// The modifier state.
pub fn get_modifiers(km: &Keymap) -> (m: Modifiers)
    ensures
        m == km.mods,
{
    km.mods
}

/// Turn pinyin on or off; turning it on empties the syllable buffer.
pub fn toggle_pinyin(km: &mut Keymap)
    requires
        old(km).wf(),
    ensures
        final(km).wf(),
        final(km).model() == (KeymapModel {
            pinyin_mode: !old(km).pinyin_mode,
            pinyin: if old(km).pinyin_mode { old(km).pinyin@ } else { Seq::empty() },
            ..old(km).model()
        }),
{
    let was = km.pinyin_mode;
    km.pinyin_mode = !was;
    if !was {
        km.pinyin = Vec::new();
    }
}

/// Five switches to the next layout come back to the first one, and each
/// layout is found again by its own name.
pub proof fn law_layouts_cycle_and_names(l: Layout)
    ensures
        next_of(next_of(next_of(next_of(next_of(l))))) == l,
        layout_named(layout_name(l)) == Some(l),
{
    reveal_strlit("us");
    reveal_strlit("uk");
    reveal_strlit("de");
    reveal_strlit("fr");
    reveal_strlit("dvorak");
    assert("us"@[1] == 's' && "uk"@[1] == 'k' && "de"@[0] == 'd' && "fr"@[0] == 'f' && "dvorak"@.len() == 6);
    assert("uk"@ != "us"@) by { assert("uk"@[1] != "us"@[1]); }
    assert("de"@ != "us"@ && "de"@ != "uk"@) by { assert("de"@[0] != "us"@[0] && "de"@[0] != "uk"@[0]); }
    assert("fr"@ != "us"@ && "fr"@ != "uk"@ && "fr"@ != "de"@) by {
        assert("fr"@[0] != "us"@[0] && "fr"@[0] != "uk"@[0] && "fr"@[0] != "de"@[0]);
    }
    assert("dvorak"@ != "us"@ && "dvorak"@ != "uk"@ && "dvorak"@ != "de"@ && "dvorak"@ != "fr"@);
}


/// The Unicode canonical decomposition of the accented letters the dead
/// keys make: the base letter and the accent.
pub open spec fn decompose(c: char) -> Option<(char, DeadKey)> {
    if c == '\u{00E1}' { Some(('a', DeadKey::Acute)) }
    else if c == '\u{00E9}' { Some(('e', DeadKey::Acute)) }
    else if c == '\u{00ED}' { Some(('i', DeadKey::Acute)) }
    else if c == '\u{00F3}' { Some(('o', DeadKey::Acute)) }
    else if c == '\u{00FA}' { Some(('u', DeadKey::Acute)) }
    else if c == '\u{00C1}' { Some(('A', DeadKey::Acute)) }
    else if c == '\u{00C9}' { Some(('E', DeadKey::Acute)) }
    else if c == '\u{00CD}' { Some(('I', DeadKey::Acute)) }
    else if c == '\u{00D3}' { Some(('O', DeadKey::Acute)) }
    else if c == '\u{00DA}' { Some(('U', DeadKey::Acute)) }
    else if c == '\u{00E0}' { Some(('a', DeadKey::Grave)) }
    else if c == '\u{00E8}' { Some(('e', DeadKey::Grave)) }
    else if c == '\u{00EC}' { Some(('i', DeadKey::Grave)) }
    else if c == '\u{00F2}' { Some(('o', DeadKey::Grave)) }
    else if c == '\u{00F9}' { Some(('u', DeadKey::Grave)) }
    else if c == '\u{00E2}' { Some(('a', DeadKey::Circumflex)) }
    else if c == '\u{00EA}' { Some(('e', DeadKey::Circumflex)) }
    else if c == '\u{00EE}' { Some(('i', DeadKey::Circumflex)) }
    else if c == '\u{00F4}' { Some(('o', DeadKey::Circumflex)) }
    else if c == '\u{00FB}' { Some(('u', DeadKey::Circumflex)) }
    else if c == '\u{00E4}' { Some(('a', DeadKey::Diaeresis)) }
    else if c == '\u{00EB}' { Some(('e', DeadKey::Diaeresis)) }
    else if c == '\u{00EF}' { Some(('i', DeadKey::Diaeresis)) }
    else if c == '\u{00F6}' { Some(('o', DeadKey::Diaeresis)) }
    else if c == '\u{00FC}' { Some(('u', DeadKey::Diaeresis)) }
    else if c == '\u{00C4}' { Some(('A', DeadKey::Diaeresis)) }
    else if c == '\u{00D6}' { Some(('O', DeadKey::Diaeresis)) }
    else if c == '\u{00DC}' { Some(('U', DeadKey::Diaeresis)) }
    else if c == '\u{00F1}' { Some(('n', DeadKey::Tilde)) }
    else if c == '\u{00D1}' { Some(('N', DeadKey::Tilde)) }
    else if c == '\u{00E3}' { Some(('a', DeadKey::Tilde)) }
    else if c == '\u{00F5}' { Some(('o', DeadKey::Tilde)) }
    else { None }
}

/// Dead-key composition is exactly the inverse of Unicode's canonical
/// decomposition: composing an accent with a letter gives the character
/// that decomposes into that letter and that accent, and every such
/// character is made by its accent and letter. So different accents give
/// different characters on the same letter.
pub proof fn law_compose_is_canonical(d: DeadKey, d2: DeadKey, b: char, c: char)
    ensures
        compose(d, b) == Some(c) ==> decompose(c) == Some((b, d)),
        decompose(c) == Some((b, d)) ==> compose(d, b) == Some(c),
        (compose(d, b) is Some && compose(d, b) == compose(d2, b)) ==> d == d2,
{
}


/// The letter and digit rows of each layout: US and UK `qwertyuiop`,
/// `asdfghjkl`, `zxcvbnm`; German QWERTZ (Y and Z swapped); French AZERTY
/// (A/Q and Z/W swapped); Dvorak `pyfgcrl`, `aoeuidhtns`, `qjkxbmwvz`; the
/// digits from 0x02 where the layout has them unshifted (shifted on
/// French); and the upper-case letters (and US symbols) with shift.
pub proof fn law_layout_rows(i: int)
    ensures
        0 <= i < 10 ==> normal_char(Layout::Us, (0x10 + i) as u8) == "qwertyuiop"@[i],
        0 <= i < 9 ==> normal_char(Layout::Us, (0x1E + i) as u8) == "asdfghjkl"@[i],
        0 <= i < 7 ==> normal_char(Layout::Us, (0x2C + i) as u8) == "zxcvbnm"@[i],
        0 <= i < 10 ==> normal_char(Layout::Us, (0x02 + i) as u8) == "1234567890"@[i],
        0 <= i < 10 ==> normal_char(Layout::Uk, (0x10 + i) as u8) == "qwertyuiop"@[i],
        0 <= i < 9 ==> normal_char(Layout::Uk, (0x1E + i) as u8) == "asdfghjkl"@[i],
        0 <= i < 7 ==> normal_char(Layout::Uk, (0x2C + i) as u8) == "zxcvbnm"@[i],
        0 <= i < 10 ==> normal_char(Layout::Uk, (0x02 + i) as u8) == "1234567890"@[i],
        0 <= i < 10 ==> normal_char(Layout::De, (0x10 + i) as u8) == "qwertzuiop"@[i],
        0 <= i < 9 ==> normal_char(Layout::De, (0x1E + i) as u8) == "asdfghjkl"@[i],
        0 <= i < 7 ==> normal_char(Layout::De, (0x2C + i) as u8) == "yxcvbnm"@[i],
        0 <= i < 10 ==> normal_char(Layout::De, (0x02 + i) as u8) == "1234567890"@[i],
        0 <= i < 10 ==> normal_char(Layout::Fr, (0x10 + i) as u8) == "azertyuiop"@[i],
        0 <= i < 9 ==> normal_char(Layout::Fr, (0x1E + i) as u8) == "qsdfghjkl"@[i],
        0 <= i < 6 ==> normal_char(Layout::Fr, (0x2C + i) as u8) == "wxcvbn"@[i],
        0 <= i < 7 ==> normal_char(Layout::Dvorak, (0x13 + i) as u8) == "pyfgcrl"@[i],
        0 <= i < 10 ==> normal_char(Layout::Dvorak, (0x1E + i) as u8) == "aoeuidhtns"@[i],
        0 <= i < 9 ==> normal_char(Layout::Dvorak, (0x2D + i) as u8) == "qjkxbmwvz"@[i],
        0 <= i < 10 ==> normal_char(Layout::Dvorak, (0x02 + i) as u8) == "1234567890"@[i],
        0 <= i < 10 ==> shifted_char(Layout::Us, (0x10 + i) as u8) == "QWERTYUIOP"@[i],
        0 <= i < 9 ==> shifted_char(Layout::Us, (0x1E + i) as u8) == "ASDFGHJKL"@[i],
        0 <= i < 7 ==> shifted_char(Layout::Us, (0x2C + i) as u8) == "ZXCVBNM"@[i],
        0 <= i < 10 ==> shifted_char(Layout::Us, (0x02 + i) as u8) == "!@#$%^&*()"@[i],
        0 <= i < 10 ==> shifted_char(Layout::De, (0x10 + i) as u8) == "QWERTZUIOP"@[i],
        0 <= i < 9 ==> shifted_char(Layout::De, (0x1E + i) as u8) == "ASDFGHJKL"@[i],
        0 <= i < 7 ==> shifted_char(Layout::De, (0x2C + i) as u8) == "YXCVBNM"@[i],
        0 <= i < 10 ==> shifted_char(Layout::Fr, (0x10 + i) as u8) == "AZERTYUIOP"@[i],
        0 <= i < 9 ==> shifted_char(Layout::Fr, (0x1E + i) as u8) == "QSDFGHJKL"@[i],
        0 <= i < 6 ==> shifted_char(Layout::Fr, (0x2C + i) as u8) == "WXCVBN"@[i],
        0 <= i < 10 ==> shifted_char(Layout::Fr, (0x02 + i) as u8) == "1234567890"@[i],
        0 <= i < 7 ==> shifted_char(Layout::Dvorak, (0x13 + i) as u8) == "PYFGCRL"@[i],
        0 <= i < 10 ==> shifted_char(Layout::Dvorak, (0x1E + i) as u8) == "AOEUIDHTNS"@[i],
        0 <= i < 9 ==> shifted_char(Layout::Dvorak, (0x2D + i) as u8) == "QJKXBMWVZ"@[i],
{
    reveal_strlit("!@#$%^&*()");
    reveal_strlit("1234567890");
    reveal_strlit("AOEUIDHTNS");
    reveal_strlit("ASDFGHJKL");
    reveal_strlit("AZERTYUIOP");
    reveal_strlit("PYFGCRL");
    reveal_strlit("QJKXBMWVZ");
    reveal_strlit("QSDFGHJKL");
    reveal_strlit("QWERTYUIOP");
    reveal_strlit("QWERTZUIOP");
    reveal_strlit("WXCVBN");
    reveal_strlit("YXCVBNM");
    reveal_strlit("ZXCVBNM");
    reveal_strlit("aoeuidhtns");
    reveal_strlit("asdfghjkl");
    reveal_strlit("azertyuiop");
    reveal_strlit("pyfgcrl");
    reveal_strlit("qjkxbmwvz");
    reveal_strlit("qsdfghjkl");
    reveal_strlit("qwertyuiop");
    reveal_strlit("qwertzuiop");
    reveal_strlit("wxcvbn");
    reveal_strlit("yxcvbnm");
    reveal_strlit("zxcvbnm");
    if 0 <= i < 10 {
        assert(i == 0 || i == 1 || i == 2 || i == 3 || i == 4 || i == 5 || i == 6 || i == 7 || i == 8 || i == 9);
    }
}

/// A pressed key gives the layout's character for the held modifiers: the
/// shifted map exactly when one of shift and caps lock is on (without
/// AltGr).
pub proof fn law_shift_selects_map(m: KeymapModel, sc: u8)
    requires
        !m.mods.altgr,
    ensures
        key_char(m, sc) == if m.mods.shift != m.mods.caps_lock { shifted_char(m.layout, sc) } else { normal_char(m.layout, sc) },
{
}

} // verus!
