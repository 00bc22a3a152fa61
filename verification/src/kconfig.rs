//! Key-value kernel settings, read from a `key=value` configuration text.
use vstd::prelude::*;
use vstd::string::*;
use crate::text::{string_of, trimmed, trim_str, pieces, split_char, char_pos, first_char_pos, parse_uint, parse_u64_max, str_eq};

verus! {

/// The configuration text written to the configuration file on load.
pub open spec fn default_config_text() -> Seq<char> {
    "# MerlionOS Configuration\nhostname=merlion\nprompt=merlion> \nheap_warn_pct=70\nheap_crit_pct=90\nmax_tasks=8\nai_proxy=com2\nlog_level=info\n"@
}

/// The configuration text written to the configuration file on load.
pub fn default_config() -> (r: &'static str)
    ensures
        r@ == default_config_text(),
{
    "# MerlionOS Configuration\nhostname=merlion\nprompt=merlion> \nheap_warn_pct=70\nheap_crit_pct=90\nmax_tasks=8\nai_proxy=com2\nlog_level=info\n"
}

/// The settings, in the order they were read or added.
pub struct KConfig {
    pub entries: Vec<(String, String)>,
}

/// Pairs of strings as plain values.
pub open spec fn pairs_of(v: Seq<(String, String)>) -> Seq<(Seq<char>, Seq<char>)> {
    v.map_values(|p: (String, String)| (p.0@, p.1@))
}

impl KConfig {
    pub open spec fn view_entries(&self) -> Seq<(Seq<char>, Seq<char>)> {
        pairs_of(self.entries@)
    }

    /// No settings.
    pub fn new() -> (c: Self)
        ensures
            c.view_entries().len() == 0,
    {
        KConfig { entries: Vec::new() }
    }
}

/// The setting a line gives: blank lines and `#` comments give none, and
/// so does a line without `=`; otherwise the trimmed text before and after
/// the first `=`.
pub open spec fn line_setting(line: Seq<char>) -> Option<(Seq<char>, Seq<char>)> {
    let t = trimmed(line);
    if t.len() == 0 || t[0] == '#' {
        None
    } else {
        let eq = char_pos(t, '=', 0);
        if eq >= t.len() {
            None
        } else {
            Some((trimmed(t.subrange(0, eq)), trimmed(t.subrange(eq + 1, t.len() as int))))
        }
    }
}

/// The settings of the lines, in order.
pub open spec fn settings_of(lines: Seq<Seq<char>>) -> Seq<(Seq<char>, Seq<char>)>
    decreases lines.len(),
{
    if lines.len() == 0 {
        Seq::empty()
    } else {
        settings_of(lines.drop_last()) + match line_setting(lines.last()) {
            Some(kv) => seq![kv],
            None => Seq::empty(),
        }
    }
}

/// Replace the settings with those of a configuration text (the text of
/// the configuration file).
pub fn load(c: &mut KConfig, content: &str)
    ensures
        final(c).view_entries() == settings_of(pieces(content@, '\n')),
{
    let lines = split_char(content, '\n');
    let ghost ls = lines@.map_values(|w: String| w@);
    let mut out: Vec<(String, String)> = Vec::new();
    let n = lines.len();
    let mut i: usize = 0;
    while i < n
        invariant
            n == lines@.len(),
            ls == lines@.map_values(|w: String| w@),
            n == ls.len(),
            i <= n,
            pairs_of(out@) == settings_of(ls.subrange(0, i as int)),
        decreases n - i,
    {
        let ghost pre = ls.subrange(0, i + 1);
        assert(pre.drop_last() =~= ls.subrange(0, i as int));
        assert(pre.last() == lines@[i as int]@);
        let ghost before = pairs_of(out@);
        let t = trim_str(lines[i].as_str());
        let m = t.unicode_len();
        if m > 0 && t.get_char(0) != '#' {
            let eq = first_char_pos(t, '=');
            if eq < m {
                let key = trim_str(t.substring_char(0, eq));
                let value = trim_str(t.substring_char(eq + 1, m));
                out.push((string_of(key), string_of(value)));
                assert(pairs_of(out@) =~= before.push((key@, value@)));
            }
        }
        i = i + 1;
        assert(pairs_of(out@) =~= settings_of(pre));
    }
    assert(ls.subrange(0, n as int) =~= ls);
    c.entries = out;
}

/// Index of the first setting from `j` on named `key` (the length when none).
pub open spec fn key_pos(e: Seq<(Seq<char>, Seq<char>)>, key: Seq<char>, j: int) -> int
    decreases e.len() - j,
{
    if j < 0 || j >= e.len() {
        e.len() as int
    } else if e[j].0 == key {
        j
    } else {
        key_pos(e, key, j + 1)
    }
}

fn find(c: &KConfig, key: &str) -> (r: usize)
    ensures
        r == key_pos(c.view_entries(), key@, 0),
        r <= c.entries@.len(),
{
    let n = c.entries.len();
    let mut i: usize = 0;
    while i < n
        invariant
            n == c.entries@.len(),
            n == c.view_entries().len(),
            i <= n,
            key_pos(c.view_entries(), key@, 0) == key_pos(c.view_entries(), key@, i as int),
        decreases n - i,
    {
        assert(c.view_entries()[i as int].0 == c.entries@[i as int].0@);
        if str_eq(c.entries[i].0.as_str(), key) {
            return i;
        }
        i = i + 1;
    }
    n
}

/// The value of the first setting named `key`.
pub open spec fn lookup(e: Seq<(Seq<char>, Seq<char>)>, key: Seq<char>) -> Option<Seq<char>> {
    let i = key_pos(e, key, 0);
    if i < e.len() { Some(e[i].1) } else { None }
}

/// The value of a setting.
pub fn get(c: &KConfig, key: &str) -> (r: Option<String>)
    ensures
        match r {
            Some(v) => lookup(c.view_entries(), key@) == Some(v@),
            None => lookup(c.view_entries(), key@) is None,
        },
{
    let i = find(c, key);
    if i < c.entries.len() {
        assert(c.view_entries()[i as int].1 == c.entries@[i as int].1@);
        Some(c.entries[i].1.clone())
    } else {
        None
    }
}

/// The value of a setting read as an unsigned number (an optional `+`,
/// then decimal digits that fit in `usize`).
pub fn get_usize(c: &KConfig, key: &str) -> (r: Option<usize>)
    ensures
        match lookup(c.view_entries(), key@) {
            Some(v) => match parse_uint(v, usize::MAX as nat) {
                Some(n) => r == Some(n as usize),
                None => r is None,
            },
            None => r is None,
        },
{
    match get(c, key) {
        Some(v) => match parse_u64_max(v.as_str(), usize::MAX as u64) {
            Some(n) => Some(n as usize),
            None => None,
        },
        None => None,
    }
}

/// The settings after `set`: the first setting named `key` gets the new
/// value, or the pair is appended.
pub open spec fn set_result(e: Seq<(Seq<char>, Seq<char>)>, key: Seq<char>, value: Seq<char>) -> Seq<(Seq<char>, Seq<char>)> {
    let i = key_pos(e, key, 0);
    if i < e.len() { e.update(i, (key, value)) } else { e.push((key, value)) }
}

proof fn lemma_key_pos(e: Seq<(Seq<char>, Seq<char>)>, key: Seq<char>, j: int)
    requires
        0 <= j <= e.len(),
    ensures
        j <= key_pos(e, key, j) <= e.len(),
        key_pos(e, key, j) < e.len() ==> e[key_pos(e, key, j)].0 == key,
    decreases e.len() - j,
{
    if j < e.len() && e[j].0 != key {
        lemma_key_pos(e, key, j + 1);
    }
}

/// Set a setting at runtime (it is not saved).
pub fn set(c: &mut KConfig, key: &str, value: &str)
    ensures
        final(c).view_entries() == set_result(old(c).view_entries(), key@, value@),
{
    let i = find(c, key);
    let ghost e0 = c.view_entries();
    proof {
        lemma_key_pos(e0, key@, 0);
    }
    if i < c.entries.len() {
        let ghost v0 = c.entries@;
        let (k, _) = c.entries.remove(i);
        c.entries.insert(i, (k, string_of(value)));
        assert(c.view_entries() =~= e0.update(i as int, (key@, value@)));
    } else {
        c.entries.push((string_of(key), string_of(value)));
        assert(c.view_entries() =~= e0.push((key@, value@)));
    }
}

/// All settings, in order.
pub fn list(c: &KConfig) -> (r: Vec<(String, String)>)
    ensures
        pairs_of(r@) == c.view_entries(),
{
    let n = c.entries.len();
    let mut out: Vec<(String, String)> = Vec::new();
    let mut i: usize = 0;
    while i < n
        invariant
            n == c.entries@.len(),
            i <= n,
            pairs_of(out@) == c.view_entries().subrange(0, i as int),
        decreases n - i,
    {
        let ghost before = pairs_of(out@);
        out.push((c.entries[i].0.clone(), c.entries[i].1.clone()));
        assert(pairs_of(out@) =~= before.push(c.view_entries()[i as int]));
        i = i + 1;
        assert(c.view_entries().subrange(0, i as int) =~= before.push(c.view_entries()[i - 1]));
    }
    assert(c.view_entries().subrange(0, n as int) =~= c.view_entries());
    out
}

/// `key=value` lines of the settings.
pub open spec fn settings_text(e: Seq<(Seq<char>, Seq<char>)>) -> Seq<char>
    decreases e.len(),
{
    if e.len() == 0 {
        Seq::empty()
    } else {
        settings_text(e.drop_last()) + e.last().0 + "="@ + e.last().1 + "\n"@
    }
}

/// The configuration file text of the settings (what is saved).
pub fn save(c: &KConfig) -> (r: String)
    ensures
        r@ == "# MerlionOS Configuration\n"@ + settings_text(c.view_entries()),
{
    let mut content = string_of("# MerlionOS Configuration\n");
    let ghost head = content@;
    let n = c.entries.len();
    let mut i: usize = 0;
    while i < n
        invariant
            n == c.entries@.len(),
            n == c.view_entries().len(),
            i <= n,
            content@ == head + settings_text(c.view_entries().subrange(0, i as int)),
        decreases n - i,
    {
        let ghost pre = c.view_entries().subrange(0, i + 1);
        assert(pre.drop_last() =~= c.view_entries().subrange(0, i as int));
        content.append(c.entries[i].0.as_str());
        content.append("=");
        content.append(c.entries[i].1.as_str());
        content.append("\n");
        i = i + 1;
        assert(content@ =~= head + settings_text(pre));
    }
    assert(c.view_entries().subrange(0, n as int) =~= c.view_entries());
    content
}

// ---------------------------------------------------------------------------
// Laws
// ---------------------------------------------------------------------------

proof fn lemma_key_pos_at(e: Seq<(Seq<char>, Seq<char>)>, key: Seq<char>, j: int, i: int)
    requires
        0 <= j <= i < e.len(),
        e[i].0 == key,
        forall|k: int| j <= k < i ==> e[k].0 != key,
    ensures
        key_pos(e, key, j) == i,
    decreases i - j,
{
    if j < i {
        lemma_key_pos_at(e, key, j + 1, i);
    }
}

proof fn lemma_key_pos_none(e: Seq<(Seq<char>, Seq<char>)>, key: Seq<char>, j: int)
    requires
        0 <= j <= e.len(),
        forall|k: int| j <= k < e.len() ==> e[k].0 != key,
    ensures
        key_pos(e, key, j) == e.len(),
    decreases e.len() - j,
{
    if j < e.len() {
        lemma_key_pos_none(e, key, j + 1);
    }
}

proof fn lemma_key_pos_before(e: Seq<(Seq<char>, Seq<char>)>, key: Seq<char>, j: int)
    requires
        0 <= j <= e.len(),
    ensures
        forall|k: int| j <= k < key_pos(e, key, j) ==> e[k].0 != key,
    decreases e.len() - j,
{
    if j < e.len() && e[j].0 != key {
        lemma_key_pos_before(e, key, j + 1);
    }
}

/// A setting reads back as the value last set.
pub proof fn law_set_then_get(e: Seq<(Seq<char>, Seq<char>)>, key: Seq<char>, value: Seq<char>)
    ensures
        lookup(set_result(e, key, value), key) == Some(value),
{
    lemma_key_pos(e, key, 0);
    lemma_key_pos_before(e, key, 0);
    let i = key_pos(e, key, 0);
    let e2 = set_result(e, key, value);
    if i < e.len() {
        lemma_key_pos_at(e2, key, 0, i);
    } else {
        lemma_key_pos_at(e2, key, 0, e.len() as int);
    }
}

/// Setting one key leaves every other setting as it was.
pub proof fn law_set_other_unchanged(e: Seq<(Seq<char>, Seq<char>)>, key: Seq<char>, value: Seq<char>, other: Seq<char>)
    requires
        other != key,
    ensures
        lookup(set_result(e, key, value), other) == lookup(e, other),
{
    lemma_key_pos(e, key, 0);
    lemma_key_pos(e, other, 0);
    lemma_key_pos_before(e, other, 0);
    let i = key_pos(e, key, 0);
    let o = key_pos(e, other, 0);
    let e2 = set_result(e, key, value);
    if o < e.len() {
        lemma_key_pos_at(e2, other, 0, o);
    } else if i < e.len() {
        lemma_key_pos_none(e2, other, 0);
    } else {
        lemma_key_pos_none(e2, other, 0);
    }
}

} // verus!
