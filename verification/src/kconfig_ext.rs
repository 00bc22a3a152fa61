//! Typed kernel configuration: parameters with validated values, a
//! sysctl-like read/write interface, named profiles of overrides, and a
//! TOML-like export and import.
use vstd::prelude::*;
use vstd::string::*;
use crate::libc::{wrap_inc, inc_wrapping};
use crate::text::{
    string_of, push_dec, push_sdec, dec, sdec, i64_to_dec, trimmed, trim_str, has_prefix, starts_with_str,
    count_char, count_char_in, push_padded, pad_right, push_char, all_digits, digits_value, char_pos,
    is_ws, lemma_trimmed_id, lemma_dec_digits,
};

verus! {

/// Most parameters `register_param` accepts.
pub const MAX_PARAMS: usize = 128;
/// Deepest level of the dotted namespace `tree_children` walks.
pub const MAX_DEPTH: usize = 8;
/// Most saved profiles.
pub const MAX_PROFILES: usize = 16;

// ---------------------------------------------------------------------------
// Types and values
// ---------------------------------------------------------------------------

/// The type of a configuration parameter.
pub enum ParamType {
    /// Boolean (true / false).
    Bool,
    /// 64-bit signed integer.
    Integer,
    /// Arbitrary string.
    Str,
    /// One of a fixed set of string values.
    Enum(Vec<String>),
    /// Integer within an inclusive range.
    Range(i64, i64),
}

/// A parameter type as plain values.
pub enum TypeModel {
    Bool,
    Integer,
    Str,
    Enum(Seq<Seq<char>>),
    Range(i64, i64),
}

impl View for ParamType {
    type V = TypeModel;

    open spec fn view(&self) -> TypeModel {
        match self {
            ParamType::Bool => TypeModel::Bool,
            ParamType::Integer => TypeModel::Integer,
            ParamType::Str => TypeModel::Str,
            ParamType::Enum(v) => TypeModel::Enum(v@.map_values(|s: String| s@)),
            ParamType::Range(lo, hi) => TypeModel::Range(*lo, *hi),
        }
    }
}

/// A concrete configuration value.
pub enum ConfigValue {
    Bool(bool),
    Integer(i64),
    Str(String),
}

/// A configuration value as plain values.
pub enum ValueModel {
    Bool(bool),
    Integer(i64),
    Str(Seq<char>),
}

impl View for ConfigValue {
    type V = ValueModel;

    open spec fn view(&self) -> ValueModel {
        match self {
            ConfigValue::Bool(b) => ValueModel::Bool(*b),
            ConfigValue::Integer(n) => ValueModel::Integer(*n),
            ConfigValue::Str(s) => ValueModel::Str(s@),
        }
    }
}

/// The text of a value: `true`/`false`, decimal, or the string itself.
pub open spec fn display_text(v: ValueModel) -> Seq<char> {
    match v {
        ValueModel::Bool(b) => if b { "true"@ } else { "false"@ },
        ValueModel::Integer(n) => sdec(n as int),
        ValueModel::Str(s) => s,
    }
}

impl ConfigValue {
    /// A copy of the value.
    pub fn copy(&self) -> (r: ConfigValue)
        ensures
            r@ == self@,
    {
        match self {
            ConfigValue::Bool(b) => ConfigValue::Bool(*b),
            ConfigValue::Integer(n) => ConfigValue::Integer(*n),
            ConfigValue::Str(s) => ConfigValue::Str(s.clone()),
        }
    }

    /// Human-readable text of the value.
    pub fn display(&self) -> (r: String)
        ensures
            r@ == display_text(self@),
    {
        match self {
            ConfigValue::Bool(b) => if *b { string_of("true") } else { string_of("false") },
            ConfigValue::Integer(n) => i64_to_dec(*n),
            ConfigValue::Str(s) => s.clone(),
        }
    }

    /// Parse text into a value of the given type.
    pub fn parse(s: &str, ptype: &ParamType) -> (r: Result<ConfigValue, &'static str>)
        ensures
            match r {
                Ok(v) => parse_value(s@, ptype@) == Ok::<ValueModel, Seq<char>>(v@),
                Err(e) => parse_value(s@, ptype@) == Err::<ValueModel, Seq<char>>(e@),
            },
    {
        match ptype {
            ParamType::Bool => {
                if str_is(s, "true") || str_is(s, "1") || str_is(s, "yes") || str_is(s, "on") {
                    Ok(ConfigValue::Bool(true))
                } else if str_is(s, "false") || str_is(s, "0") || str_is(s, "no") || str_is(s, "off") {
                    Ok(ConfigValue::Bool(false))
                } else {
                    Err("invalid boolean")
                }
            },
            ParamType::Integer => match parse_i64(s) {
                Some(n) => Ok(ConfigValue::Integer(n)),
                None => Err("invalid integer"),
            },
            ParamType::Str => Ok(ConfigValue::Str(string_of(s))),
            ParamType::Enum(variants) => {
                if contains_str(variants, s) {
                    Ok(ConfigValue::Str(string_of(s)))
                } else {
                    Err("value not in allowed enum variants")
                }
            },
            ParamType::Range(lo, hi) => match parse_i64(s) {
                Some(n) => if n < *lo || n > *hi {
                    Err("value out of range")
                } else {
                    Ok(ConfigValue::Integer(n))
                },
                None => Err("invalid integer for range"),
            },
        }
    }
}

fn str_is(a: &str, b: &str) -> (r: bool)
    ensures
        r == (a@ == b@),
{
    crate::text::str_eq(a, b)
}

fn contains_str(v: &Vec<String>, s: &str) -> (r: bool)
    ensures
        r == v@.map_values(|x: String| x@).contains(s@),
{
    let ghost names = v@.map_values(|x: String| x@);
    let mut i: usize = 0;
    while i < v.len()
        invariant
            i <= v@.len(),
            names == v@.map_values(|x: String| x@),
            forall|j: int| 0 <= j < i ==> names[j] != s@,
        decreases v@.len() - i,
    {
        if str_is(v[i].as_str(), s) {
            assert(names[i as int] == s@);
            return true;
        }
        i = i + 1;
    }
    false
}

/// What `parse_i64` gives: after trimming, an optional `-` and then
/// decimal digits (none at all reads as 0) whose value fits in `i64`.
pub open spec fn parse_i64_spec(s: Seq<char>) -> Option<i64> {
    let t = trimmed(s);
    if t.len() == 0 {
        None
    } else {
        let neg = t[0] == '-';
        let d = if neg { t.drop_first() } else { t };
        if !all_digits(d) || digits_value(d) > i64::MAX {
            None
        } else if neg {
            Some((-(digits_value(d) as int)) as i64)
        } else {
            Some(digits_value(d) as i64)
        }
    }
}

proof fn lemma_digits_prefix_mono(d: Seq<char>, i: int)
    requires
        0 <= i <= d.len(),
        all_digits(d),
    ensures
        digits_value(d.subrange(0, i)) <= digits_value(d),
    decreases d.len() - i,
{
    if i < d.len() {
        lemma_digits_prefix_mono(d, i + 1);
        assert(d.subrange(0, i + 1).drop_last() =~= d.subrange(0, i));
    } else {
        assert(d.subrange(0, i) =~= d);
    }
}

/// Parse a trimmed, optionally negative decimal integer.
pub fn parse_i64(s: &str) -> (r: Option<i64>)
    ensures
        r == parse_i64_spec(s@),
{
    let t = trim_str(s);
    let n = t.unicode_len();
    if n == 0 {
        return None;
    }
    let neg = t.get_char(0) == '-';
    let start: usize = if neg { 1 } else { 0 };
    let ghost d = if neg { t@.drop_first() } else { t@ };
    assert(d =~= t@.subrange(start as int, n as int));
    let mut v: u64 = 0;
    let mut i: usize = start;
    while i < n
        invariant
            n == t@.len(),
            n > 0,
            t@ == trimmed(s@),
            neg == (t@[0] == '-'),
            start == (if neg { 1usize } else { 0usize }),
            d == (if neg { t@.drop_first() } else { t@ }),
            start <= i <= n,
            d == t@.subrange(start as int, n as int),
            v == digits_value(d.subrange(0, i - start)),
            v <= i64::MAX,
            forall|j: int| 0 <= j < i - start ==> '0' <= #[trigger] d[j] <= '9',
        decreases n - i,
    {
        let c = t.get_char(i);
        let code = c as u32;
        assert(d[i - start] == c);
        if code < 48 || code > 57 {
            assert(!('0' <= d[i - start] <= '9'));
            return None;
        }
        let digit = (code - 48) as u64;
        let ghost pre = d.subrange(0, i - start);
        let ghost nxt = d.subrange(0, i + 1 - start);
        assert(nxt.drop_last() =~= pre);
        if v > (9223372036854775807u64 - digit) / 10 {
            proof {
                assert(v * 10 + digit > i64::MAX) by (nonlinear_arith)
                    requires
                        v > (9223372036854775807u64 - digit) / 10,
                        digit <= 9,
                ;
                if all_digits(d) {
                    lemma_digits_prefix_mono(d, i + 1 - start);
                }
            }
            return None;
        }
        proof {
            assert(v * 10 + digit <= i64::MAX) by (nonlinear_arith)
                requires
                    v <= (9223372036854775807u64 - digit) / 10,
                    digit <= 9,
            ;
        }
        v = v * 10 + digit;
        i = i + 1;
    }
    assert(d.subrange(0, n - start) =~= d);
    if neg {
        Some(0i64 - (v as i64))
    } else {
        Some(v as i64)
    }
}

/// What `ConfigValue::parse` gives for text `s` and type `t`.
pub open spec fn parse_value(s: Seq<char>, t: TypeModel) -> Result<ValueModel, Seq<char>> {
    match t {
        TypeModel::Bool => if s == "true"@ || s == "1"@ || s == "yes"@ || s == "on"@ {
            Ok(ValueModel::Bool(true))
        } else if s == "false"@ || s == "0"@ || s == "no"@ || s == "off"@ {
            Ok(ValueModel::Bool(false))
        } else {
            Err("invalid boolean"@)
        },
        TypeModel::Integer => match parse_i64_spec(s) {
            Some(n) => Ok(ValueModel::Integer(n)),
            None => Err("invalid integer"@),
        },
        TypeModel::Str => Ok(ValueModel::Str(s)),
        TypeModel::Enum(vs) => if vs.contains(s) { Ok(ValueModel::Str(s)) } else { Err("value not in allowed enum variants"@) },
        TypeModel::Range(lo, hi) => match parse_i64_spec(s) {
            Some(n) => if n < lo || n > hi { Err("value out of range"@) } else { Ok(ValueModel::Integer(n)) },
            None => Err("invalid integer for range"@),
        },
    }
}

// ---------------------------------------------------------------------------
// Categories
// ---------------------------------------------------------------------------

/// Top-level category of a parameter.
#[derive(PartialEq, Eq, Structural, Clone, Copy, Debug)]
pub enum Category {
    Kernel,
    Memory,
    Network,
    Security,
    Scheduler,
    Filesystem,
    Audio,
    Display,
    AI,
    Power,
}

/// The short name of a category.
pub open spec fn category_name(c: Category) -> Seq<char> {
    match c {
        Category::Kernel => "kernel"@,
        Category::Memory => "memory"@,
        Category::Network => "net"@,
        Category::Security => "security"@,
        Category::Scheduler => "sched"@,
        Category::Filesystem => "fs"@,
        Category::Audio => "audio"@,
        Category::Display => "display"@,
        Category::AI => "ai"@,
        Category::Power => "power"@,
    }
}

/// The category with the given short name.
pub open spec fn category_from(s: Seq<char>) -> Option<Category> {
    if s == "kernel"@ { Some(Category::Kernel) }
    else if s == "memory"@ { Some(Category::Memory) }
    else if s == "net"@ { Some(Category::Network) }
    else if s == "security"@ { Some(Category::Security) }
    else if s == "sched"@ { Some(Category::Scheduler) }
    else if s == "fs"@ { Some(Category::Filesystem) }
    else if s == "audio"@ { Some(Category::Audio) }
    else if s == "display"@ { Some(Category::Display) }
    else if s == "ai"@ { Some(Category::AI) }
    else if s == "power"@ { Some(Category::Power) }
    else { None }
}

impl Category {
    /// The short name of the category (also the first path segment).
    pub fn name(self) -> (r: &'static str)
        ensures
            r@ == category_name(self),
    {
        match self {
            Category::Kernel => "kernel",
            Category::Memory => "memory",
            Category::Network => "net",
            Category::Security => "security",
            Category::Scheduler => "sched",
            Category::Filesystem => "fs",
            Category::Audio => "audio",
            Category::Display => "display",
            Category::AI => "ai",
            Category::Power => "power",
        }
    }

    /// The category with the given short name.
    pub fn from_str(s: &str) -> (r: Option<Category>)
        ensures
            r == category_from(s@),
    {
        if str_is(s, "kernel") { Some(Category::Kernel) }
        else if str_is(s, "memory") { Some(Category::Memory) }
        else if str_is(s, "net") { Some(Category::Network) }
        else if str_is(s, "security") { Some(Category::Security) }
        else if str_is(s, "sched") { Some(Category::Scheduler) }
        else if str_is(s, "fs") { Some(Category::Filesystem) }
        else if str_is(s, "audio") { Some(Category::Audio) }
        else if str_is(s, "display") { Some(Category::Display) }
        else if str_is(s, "ai") { Some(Category::AI) }
        else if str_is(s, "power") { Some(Category::Power) }
        else { None }
    }
}

// ---------------------------------------------------------------------------
// Entries
// ---------------------------------------------------------------------------

/// A single configuration entry.
pub struct ConfigEntry {
    /// Dotted path, e.g. `kernel.hz`.
    pub name: String,
    pub category: Category,
    pub ptype: ParamType,
    pub default: ConfigValue,
    pub current: ConfigValue,
    pub description: String,
    /// A read-only parameter cannot be changed at runtime.
    pub readonly: bool,
}

/// An entry as plain values.
pub struct EntryModel {
    pub name: Seq<char>,
    pub category: Category,
    pub ptype: TypeModel,
    pub default: ValueModel,
    pub current: ValueModel,
    pub description: Seq<char>,
    pub readonly: bool,
}

impl View for ConfigEntry {
    type V = EntryModel;

    open spec fn view(&self) -> EntryModel {
        EntryModel {
            name: self.name@,
            category: self.category,
            ptype: self.ptype@,
            default: self.default@,
            current: self.current@,
            description: self.description@,
            readonly: self.readonly,
        }
    }
}

/// A fresh entry whose current value is its default.
pub open spec fn entry_model(name: Seq<char>, category: Category, ptype: TypeModel, default: ValueModel, description: Seq<char>, readonly: bool) -> EntryModel {
    EntryModel { name, category, ptype, default, current: default, description, readonly }
}

/// Whether an entry's current value differs from its default.
pub open spec fn modified(e: EntryModel) -> bool {
    e.current != e.default
}

/// The entries of a vector as plain values.
pub open spec fn entries_view(v: Seq<ConfigEntry>) -> Seq<EntryModel> {
    v.map_values(|e: ConfigEntry| e@)
}

/// Whether two values are equal.
pub fn value_eq(a: &ConfigValue, b: &ConfigValue) -> (r: bool)
    ensures
        r == (a@ == b@),
{
    match (a, b) {
        (ConfigValue::Bool(x), ConfigValue::Bool(y)) => *x == *y,
        (ConfigValue::Integer(x), ConfigValue::Integer(y)) => *x == *y,
        (ConfigValue::Str(x), ConfigValue::Str(y)) => str_is(x.as_str(), y.as_str()),
        _ => false,
    }
}

impl ConfigEntry {
    /// A fresh entry whose current value is its default.
    pub fn new(name: &str, category: Category, ptype: ParamType, default: ConfigValue, description: &str, readonly: bool) -> (e: Self)
        ensures
            e@ == entry_model(name@, category, ptype@, default@, description@, readonly),
    {
        let current = default.copy();
        ConfigEntry {
            name: string_of(name),
            category,
            ptype,
            default,
            current,
            description: string_of(description),
            readonly,
        }
    }

    /// Whether the current value differs from the default.
    pub fn is_modified(&self) -> (r: bool)
        ensures
            r == modified(self@),
    {
        !value_eq(&self.current, &self.default)
    }
}

fn push_entry(p: &mut Vec<ConfigEntry>, e: ConfigEntry)
    ensures
        entries_view(final(p)@) == entries_view(old(p)@).push(e@),
        final(p)@.len() == old(p)@.len() + 1,
{
    p.push(e);
    assert(entries_view(p@) =~= entries_view(old(p)@).push(e@));
}

fn variants3(a: &str, b: &str, c: &str) -> (t: ParamType)
    ensures
        t@ == TypeModel::Enum(seq![a@, b@, c@]),
{
    let mut v: Vec<String> = Vec::new();
    v.push(string_of(a));
    v.push(string_of(b));
    v.push(string_of(c));
    assert(v@.map_values(|s: String| s@) =~= seq![a@, b@, c@]);
    ParamType::Enum(v)
}

fn variants4(a: &str, b: &str, c: &str, d: &str) -> (t: ParamType)
    ensures
        t@ == TypeModel::Enum(seq![a@, b@, c@, d@]),
{
    let mut v: Vec<String> = Vec::new();
    v.push(string_of(a));
    v.push(string_of(b));
    v.push(string_of(c));
    v.push(string_of(d));
    assert(v@.map_values(|s: String| s@) =~= seq![a@, b@, c@, d@]);
    ParamType::Enum(v)
}

fn variants5(a: &str, b: &str, c: &str, d: &str, e: &str) -> (t: ParamType)
    ensures
        t@ == TypeModel::Enum(seq![a@, b@, c@, d@, e@]),
{
    let mut v: Vec<String> = Vec::new();
    v.push(string_of(a));
    v.push(string_of(b));
    v.push(string_of(c));
    v.push(string_of(d));
    v.push(string_of(e));
    assert(v@.map_values(|s: String| s@) =~= seq![a@, b@, c@, d@, e@]);
    ParamType::Enum(v)
}

// ---------------------------------------------------------------------------
// Profiles and the store
// ---------------------------------------------------------------------------

/// A named profile: parameter overrides as `(path, value text)` pairs.
pub struct ConfigProfile {
    pub name: String,
    pub description: String,
    pub overrides: Vec<(String, String)>,
}

/// A profile as plain values.
pub struct ProfileModel {
    pub name: Seq<char>,
    pub description: Seq<char>,
    pub overrides: Seq<(Seq<char>, Seq<char>)>,
}

/// Pairs of strings as plain values.
pub open spec fn pairs_view(v: Seq<(String, String)>) -> Seq<(Seq<char>, Seq<char>)> {
    v.map_values(|p: (String, String)| (p.0@, p.1@))
}

impl View for ConfigProfile {
    type V = ProfileModel;

    open spec fn view(&self) -> ProfileModel {
        ProfileModel { name: self.name@, description: self.description@, overrides: pairs_view(self.overrides@) }
    }
}

/// The profiles of a vector as plain values.
pub open spec fn profiles_view(v: Seq<ConfigProfile>) -> Seq<ProfileModel> {
    v.map_values(|p: ConfigProfile| p@)
}

fn push_override(o: &mut Vec<(String, String)>, a: &str, b: &str)
    ensures
        pairs_view(final(o)@) == pairs_view(old(o)@).push((a@, b@)),
{
    o.push((string_of(a), string_of(b)));
    assert(pairs_view(o@) =~= pairs_view(old(o)@).push((a@, b@)));
}

/// No profile overrides more entries than the parameter table can hold.
pub open spec fn overrides_bounded(ps: Seq<ProfileModel>) -> bool {
    forall|i: int| 0 <= i < ps.len() ==> #[trigger] ps[i].overrides.len() <= MAX_PARAMS + DEFAULT_PARAM_COUNT
}

/// How many built-in parameters `init` registers.
pub const DEFAULT_PARAM_COUNT: usize = 52;

/// The configuration store.
pub struct ConfigStore {
    pub params: Vec<ConfigEntry>,
    pub profiles: Vec<ConfigProfile>,
    pub initialized: bool,
    pub reads: u64,
    pub writes: u64,
    pub errors: u64,
    pub profile_applies: u64,
}

/// The usage counters of the store.
pub struct StoreCounters {
    pub reads: u64,
    pub writes: u64,
    pub errors: u64,
    pub profile_applies: u64,
}

impl ConfigStore {
    pub open spec fn params_view(&self) -> Seq<EntryModel> {
        entries_view(self.params@)
    }

    pub open spec fn profiles_view(&self) -> Seq<ProfileModel> {
        profiles_view(self.profiles@)
    }

    pub open spec fn counters(&self) -> StoreCounters {
        StoreCounters { reads: self.reads, writes: self.writes, errors: self.errors, profile_applies: self.profile_applies }
    }

    /// Registration keeps the parameter table bounded (the built-ins come
    /// on top of `MAX_PARAMS`), and no profile overrides more entries than
    /// that bound.
    pub open spec fn wf(&self) -> bool {
        &&& self.params@.len() <= MAX_PARAMS + DEFAULT_PARAM_COUNT
        &&& !self.initialized ==> self.params@.len() <= MAX_PARAMS
        &&& overrides_bounded(profiles_view(self.profiles@))
    }

    /// An empty, uninitialised store.
    pub fn new() -> (s: Self)
        ensures
            s.wf(),
            s.params@.len() == 0,
            s.profiles@.len() == 0,
            !s.initialized,
            s.counters() == (StoreCounters { reads: 0, writes: 0, errors: 0, profile_applies: 0 }),
    {
        ConfigStore {
            params: Vec::new(),
            profiles: Vec::new(),
            initialized: false,
            reads: 0,
            writes: 0,
            errors: 0,
            profile_applies: 0,
        }
    }
}

fn register_defaults(p: &mut Vec<ConfigEntry>)
    ensures
        entries_view(final(p)@) == entries_view(old(p)@) + default_params(),
{
    let ghost p0 = entries_view(p@);
    push_kernel_defaults(p);
    push_memory_defaults(p);
    push_net_defaults(p);
    push_security_defaults(p);
    push_sched_defaults(p);
    push_fs_defaults(p);
    push_audio_defaults(p);
    push_display_defaults(p);
    push_ai_defaults(p);
    push_power_defaults(p);
    assert(entries_view(p@) =~= p0 + default_params());
}

fn register_profiles(v: &mut Vec<ConfigProfile>)
    ensures
        profiles_view(final(v)@) == profiles_view(old(v)@) + default_profiles(),
{
    let ghost v0 = profiles_view(v@);
    v.push(performance_profile());
    v.push(balanced_profile());
    v.push(powersave_profile());
    v.push(debug_profile());
    assert(profiles_view(v@) =~= v0 + default_profiles());
}

proof fn lemma_default_sizes()
    ensures
        default_params().len() == DEFAULT_PARAM_COUNT,
        forall|i: int| 0 <= i < default_profiles().len() ==> #[trigger] default_profiles()[i].overrides.len() <= 9,
        default_profiles().len() == 4,
{
}

/// Register the built-in parameters and profiles, once; later calls change
/// nothing.
pub fn init(st: &mut ConfigStore)
    requires
        old(st).wf(),
    ensures
        final(st).wf(),
        final(st).initialized,
        final(st).counters() == old(st).counters(),
        old(st).initialized ==> final(st).params_view() == old(st).params_view()
            && final(st).profiles_view() == old(st).profiles_view(),
        !old(st).initialized ==> final(st).params_view() == old(st).params_view() + default_params()
            && final(st).profiles_view() == old(st).profiles_view() + default_profiles(),
{
    if st.initialized {
        return;
    }
    proof {
        lemma_default_sizes();
    }
    let ghost pv0 = st.profiles_view();
    register_defaults(&mut st.params);
    register_profiles(&mut st.profiles);
    st.initialized = true;
    assert(st.profiles_view() == pv0 + default_profiles());
    assert(st.params_view().len() == st.params@.len());
    assert(old(st).params_view().len() == old(st).params@.len());
    assert(st.params@.len() == old(st).params@.len() + DEFAULT_PARAM_COUNT);
    assert(st.profiles_view().len() == st.profiles@.len());
    assert forall|i: int| 0 <= i < st.profiles_view().len()
        implies #[trigger] st.profiles_view()[i].overrides.len() <= MAX_PARAMS + DEFAULT_PARAM_COUNT by {
        if i < pv0.len() {
            assert(st.profiles_view()[i] == pv0[i]);
        } else {
            let k = i - pv0.len();
            assert(0 <= k < default_profiles().len());
            assert((pv0 + default_profiles())[i] == default_profiles()[k]);
            assert(default_profiles()[k].overrides.len() <= 9);
        }
    }
}

/// The built-in `kernel` parameters.
pub open spec fn kernel_defaults() -> Seq<EntryModel> {
    seq![
        entry_model("kernel.hz"@, Category::Kernel, TypeModel::Range(10, 1000), ValueModel::Integer(100), "Timer interrupt frequency"@, false),
        entry_model("kernel.preempt"@, Category::Kernel, TypeModel::Bool, ValueModel::Bool(true), "Enable preemptive scheduling"@, false),
        entry_model("kernel.panic_timeout"@, Category::Kernel, TypeModel::Range(0, 600), ValueModel::Integer(0), "Seconds to wait before reboot on panic (0=halt)"@, false),
        entry_model("kernel.max_tasks"@, Category::Kernel, TypeModel::Range(4, 256), ValueModel::Integer(64), "Maximum number of concurrent tasks"@, false),
        entry_model("kernel.hostname"@, Category::Kernel, TypeModel::Str, ValueModel::Str("merlion"@), "System hostname"@, false),
        entry_model("kernel.version"@, Category::Kernel, TypeModel::Str, ValueModel::Str("0.1.0"@), "Kernel version (read-only)"@, true),
        entry_model("kernel.log_level"@, Category::Kernel, TypeModel::Enum(seq!["error"@, "warn"@, "info"@, "debug"@, "trace"@]), ValueModel::Str("info"@), "Minimum log level"@, false),
    ]
}

fn push_kernel_defaults(p: &mut Vec<ConfigEntry>)
    ensures
        entries_view(final(p)@) == entries_view(old(p)@) + kernel_defaults(),
{
    let ghost p0 = entries_view(p@);
    push_entry(p, ConfigEntry::new("kernel.hz", Category::Kernel, ParamType::Range(10, 1000), ConfigValue::Integer(100), "Timer interrupt frequency", false));
    push_entry(p, ConfigEntry::new("kernel.preempt", Category::Kernel, ParamType::Bool, ConfigValue::Bool(true), "Enable preemptive scheduling", false));
    push_entry(p, ConfigEntry::new("kernel.panic_timeout", Category::Kernel, ParamType::Range(0, 600), ConfigValue::Integer(0), "Seconds to wait before reboot on panic (0=halt)", false));
    push_entry(p, ConfigEntry::new("kernel.max_tasks", Category::Kernel, ParamType::Range(4, 256), ConfigValue::Integer(64), "Maximum number of concurrent tasks", false));
    push_entry(p, ConfigEntry::new("kernel.hostname", Category::Kernel, ParamType::Str, ConfigValue::Str(string_of("merlion")), "System hostname", false));
    push_entry(p, ConfigEntry::new("kernel.version", Category::Kernel, ParamType::Str, ConfigValue::Str(string_of("0.1.0")), "Kernel version (read-only)", true));
    push_entry(p, ConfigEntry::new("kernel.log_level", Category::Kernel, variants5("error", "warn", "info", "debug", "trace"), ConfigValue::Str(string_of("info")), "Minimum log level", false));
    assert(entries_view(p@) =~= p0 + kernel_defaults());
}

/// The built-in `memory` parameters.
pub open spec fn memory_defaults() -> Seq<EntryModel> {
    seq![
        entry_model("memory.heap_size"@, Category::Memory, TypeModel::Range(4096, 1048576), ValueModel::Integer(65536), "Heap size in bytes"@, false),
        entry_model("memory.slab_min"@, Category::Memory, TypeModel::Range(8, 4096), ValueModel::Integer(32), "Minimum slab allocation size"@, false),
        entry_model("memory.slab_max"@, Category::Memory, TypeModel::Range(64, 65536), ValueModel::Integer(4096), "Maximum slab allocation size"@, false),
        entry_model("memory.overcommit"@, Category::Memory, TypeModel::Bool, ValueModel::Bool(false), "Allow memory overcommit"@, false),
        entry_model("memory.heap_warn_pct"@, Category::Memory, TypeModel::Range(0, 100), ValueModel::Integer(70), "Heap usage warning threshold (%)"@, false),
        entry_model("memory.heap_crit_pct"@, Category::Memory, TypeModel::Range(0, 100), ValueModel::Integer(90), "Heap usage critical threshold (%)"@, false),
    ]
}

fn push_memory_defaults(p: &mut Vec<ConfigEntry>)
    ensures
        entries_view(final(p)@) == entries_view(old(p)@) + memory_defaults(),
{
    let ghost p0 = entries_view(p@);
    push_entry(p, ConfigEntry::new("memory.heap_size", Category::Memory, ParamType::Range(4096, 1048576), ConfigValue::Integer(65536), "Heap size in bytes", false));
    push_entry(p, ConfigEntry::new("memory.slab_min", Category::Memory, ParamType::Range(8, 4096), ConfigValue::Integer(32), "Minimum slab allocation size", false));
    push_entry(p, ConfigEntry::new("memory.slab_max", Category::Memory, ParamType::Range(64, 65536), ConfigValue::Integer(4096), "Maximum slab allocation size", false));
    push_entry(p, ConfigEntry::new("memory.overcommit", Category::Memory, ParamType::Bool, ConfigValue::Bool(false), "Allow memory overcommit", false));
    push_entry(p, ConfigEntry::new("memory.heap_warn_pct", Category::Memory, ParamType::Range(0, 100), ConfigValue::Integer(70), "Heap usage warning threshold (%)", false));
    push_entry(p, ConfigEntry::new("memory.heap_crit_pct", Category::Memory, ParamType::Range(0, 100), ConfigValue::Integer(90), "Heap usage critical threshold (%)", false));
    assert(entries_view(p@) =~= p0 + memory_defaults());
}

/// The built-in `net` parameters.
pub open spec fn net_defaults() -> Seq<EntryModel> {
    seq![
        entry_model("net.tcp.window"@, Category::Network, TypeModel::Range(1024, 1048576), ValueModel::Integer(65535), "TCP window size"@, false),
        entry_model("net.tcp.congestion"@, Category::Network, TypeModel::Enum(seq!["cubic"@, "reno"@, "bbr"@]), ValueModel::Str("cubic"@), "TCP congestion algorithm"@, false),
        entry_model("net.tcp.keepalive"@, Category::Network, TypeModel::Range(0, 7200), ValueModel::Integer(60), "TCP keepalive interval (seconds)"@, false),
        entry_model("net.tcp.syn_retries"@, Category::Network, TypeModel::Range(1, 10), ValueModel::Integer(3), "TCP SYN retry count"@, false),
        entry_model("net.ipv4.forwarding"@, Category::Network, TypeModel::Bool, ValueModel::Bool(false), "Enable IPv4 forwarding"@, false),
        entry_model("net.ipv6.enabled"@, Category::Network, TypeModel::Bool, ValueModel::Bool(true), "Enable IPv6 support"@, false),
        entry_model("net.mtu"@, Category::Network, TypeModel::Range(576, 9000), ValueModel::Integer(1500), "Default MTU"@, false),
        entry_model("net.dns.timeout"@, Category::Network, TypeModel::Range(1, 30), ValueModel::Integer(5), "DNS query timeout (seconds)"@, false),
    ]
}

fn push_net_defaults(p: &mut Vec<ConfigEntry>)
    ensures
        entries_view(final(p)@) == entries_view(old(p)@) + net_defaults(),
{
    let ghost p0 = entries_view(p@);
    push_entry(p, ConfigEntry::new("net.tcp.window", Category::Network, ParamType::Range(1024, 1048576), ConfigValue::Integer(65535), "TCP window size", false));
    push_entry(p, ConfigEntry::new("net.tcp.congestion", Category::Network, variants3("cubic", "reno", "bbr"), ConfigValue::Str(string_of("cubic")), "TCP congestion algorithm", false));
    push_entry(p, ConfigEntry::new("net.tcp.keepalive", Category::Network, ParamType::Range(0, 7200), ConfigValue::Integer(60), "TCP keepalive interval (seconds)", false));
    push_entry(p, ConfigEntry::new("net.tcp.syn_retries", Category::Network, ParamType::Range(1, 10), ConfigValue::Integer(3), "TCP SYN retry count", false));
    push_entry(p, ConfigEntry::new("net.ipv4.forwarding", Category::Network, ParamType::Bool, ConfigValue::Bool(false), "Enable IPv4 forwarding", false));
    push_entry(p, ConfigEntry::new("net.ipv6.enabled", Category::Network, ParamType::Bool, ConfigValue::Bool(true), "Enable IPv6 support", false));
    push_entry(p, ConfigEntry::new("net.mtu", Category::Network, ParamType::Range(576, 9000), ConfigValue::Integer(1500), "Default MTU", false));
    push_entry(p, ConfigEntry::new("net.dns.timeout", Category::Network, ParamType::Range(1, 30), ConfigValue::Integer(5), "DNS query timeout (seconds)", false));
    assert(entries_view(p@) =~= p0 + net_defaults());
}

/// The built-in `security` parameters.
pub open spec fn security_defaults() -> Seq<EntryModel> {
    seq![
        entry_model("security.capabilities"@, Category::Security, TypeModel::Bool, ValueModel::Bool(true), "Enable capability-based security"@, false),
        entry_model("security.seccomp"@, Category::Security, TypeModel::Bool, ValueModel::Bool(true), "Enable seccomp filtering"@, false),
        entry_model("security.acl"@, Category::Security, TypeModel::Bool, ValueModel::Bool(true), "Enable access control lists"@, false),
        entry_model("security.aslr"@, Category::Security, TypeModel::Bool, ValueModel::Bool(true), "Enable ASLR"@, false),
        entry_model("security.nx_bit"@, Category::Security, TypeModel::Bool, ValueModel::Bool(true), "Enforce NX bit on data pages"@, true),
        entry_model("security.audit"@, Category::Security, TypeModel::Bool, ValueModel::Bool(false), "Enable security audit logging"@, false),
    ]
}

fn push_security_defaults(p: &mut Vec<ConfigEntry>)
    ensures
        entries_view(final(p)@) == entries_view(old(p)@) + security_defaults(),
{
    let ghost p0 = entries_view(p@);
    push_entry(p, ConfigEntry::new("security.capabilities", Category::Security, ParamType::Bool, ConfigValue::Bool(true), "Enable capability-based security", false));
    push_entry(p, ConfigEntry::new("security.seccomp", Category::Security, ParamType::Bool, ConfigValue::Bool(true), "Enable seccomp filtering", false));
    push_entry(p, ConfigEntry::new("security.acl", Category::Security, ParamType::Bool, ConfigValue::Bool(true), "Enable access control lists", false));
    push_entry(p, ConfigEntry::new("security.aslr", Category::Security, ParamType::Bool, ConfigValue::Bool(true), "Enable ASLR", false));
    push_entry(p, ConfigEntry::new("security.nx_bit", Category::Security, ParamType::Bool, ConfigValue::Bool(true), "Enforce NX bit on data pages", true));
    push_entry(p, ConfigEntry::new("security.audit", Category::Security, ParamType::Bool, ConfigValue::Bool(false), "Enable security audit logging", false));
    assert(entries_view(p@) =~= p0 + security_defaults());
}

/// The built-in `sched` parameters.
pub open spec fn sched_defaults() -> Seq<EntryModel> {
    seq![
        entry_model("sched.policy"@, Category::Scheduler, TypeModel::Enum(seq!["roundrobin"@, "fifo"@, "cfs"@, "edf"@]), ValueModel::Str("roundrobin"@), "Scheduler policy"@, false),
        entry_model("sched.timeslice"@, Category::Scheduler, TypeModel::Range(1, 1000), ValueModel::Integer(10), "Time slice in ms"@, false),
        entry_model("sched.rt_enabled"@, Category::Scheduler, TypeModel::Bool, ValueModel::Bool(true), "Enable real-time scheduling"@, false),
        entry_model("sched.rt_priority_max"@, Category::Scheduler, TypeModel::Range(1, 99), ValueModel::Integer(99), "Maximum RT priority"@, false),
        entry_model("sched.load_balance"@, Category::Scheduler, TypeModel::Bool, ValueModel::Bool(true), "Enable SMP load balancing"@, false),
    ]
}

fn push_sched_defaults(p: &mut Vec<ConfigEntry>)
    ensures
        entries_view(final(p)@) == entries_view(old(p)@) + sched_defaults(),
{
    let ghost p0 = entries_view(p@);
    push_entry(p, ConfigEntry::new("sched.policy", Category::Scheduler, variants4("roundrobin", "fifo", "cfs", "edf"), ConfigValue::Str(string_of("roundrobin")), "Scheduler policy", false));
    push_entry(p, ConfigEntry::new("sched.timeslice", Category::Scheduler, ParamType::Range(1, 1000), ConfigValue::Integer(10), "Time slice in ms", false));
    push_entry(p, ConfigEntry::new("sched.rt_enabled", Category::Scheduler, ParamType::Bool, ConfigValue::Bool(true), "Enable real-time scheduling", false));
    push_entry(p, ConfigEntry::new("sched.rt_priority_max", Category::Scheduler, ParamType::Range(1, 99), ConfigValue::Integer(99), "Maximum RT priority", false));
    push_entry(p, ConfigEntry::new("sched.load_balance", Category::Scheduler, ParamType::Bool, ConfigValue::Bool(true), "Enable SMP load balancing", false));
    assert(entries_view(p@) =~= p0 + sched_defaults());
}

/// The built-in `fs` parameters.
pub open spec fn fs_defaults() -> Seq<EntryModel> {
    seq![
        entry_model("fs.max_inodes"@, Category::Filesystem, TypeModel::Range(16, 65536), ValueModel::Integer(64), "Maximum number of inodes"@, false),
        entry_model("fs.max_file_size"@, Category::Filesystem, TypeModel::Range(512, 1048576), ValueModel::Integer(4096), "Maximum file size in bytes"@, false),
        entry_model("fs.atime_update"@, Category::Filesystem, TypeModel::Bool, ValueModel::Bool(true), "Update access time on read"@, false),
        entry_model("fs.sync_interval"@, Category::Filesystem, TypeModel::Range(1, 300), ValueModel::Integer(30), "Sync interval in seconds"@, false),
        entry_model("fs.max_open_files"@, Category::Filesystem, TypeModel::Range(8, 4096), ValueModel::Integer(256), "Max open file descriptors"@, false),
    ]
}

fn push_fs_defaults(p: &mut Vec<ConfigEntry>)
    ensures
        entries_view(final(p)@) == entries_view(old(p)@) + fs_defaults(),
{
    let ghost p0 = entries_view(p@);
    push_entry(p, ConfigEntry::new("fs.max_inodes", Category::Filesystem, ParamType::Range(16, 65536), ConfigValue::Integer(64), "Maximum number of inodes", false));
    push_entry(p, ConfigEntry::new("fs.max_file_size", Category::Filesystem, ParamType::Range(512, 1048576), ConfigValue::Integer(4096), "Maximum file size in bytes", false));
    push_entry(p, ConfigEntry::new("fs.atime_update", Category::Filesystem, ParamType::Bool, ConfigValue::Bool(true), "Update access time on read", false));
    push_entry(p, ConfigEntry::new("fs.sync_interval", Category::Filesystem, ParamType::Range(1, 300), ConfigValue::Integer(30), "Sync interval in seconds", false));
    push_entry(p, ConfigEntry::new("fs.max_open_files", Category::Filesystem, ParamType::Range(8, 4096), ConfigValue::Integer(256), "Max open file descriptors", false));
    assert(entries_view(p@) =~= p0 + fs_defaults());
}

/// The built-in `audio` parameters.
pub open spec fn audio_defaults() -> Seq<EntryModel> {
    seq![
        entry_model("audio.enabled"@, Category::Audio, TypeModel::Bool, ValueModel::Bool(true), "Enable audio subsystem"@, false),
        entry_model("audio.sample_rate"@, Category::Audio, TypeModel::Range(8000, 96000), ValueModel::Integer(44100), "Audio sample rate (Hz)"@, false),
        entry_model("audio.buffer_size"@, Category::Audio, TypeModel::Range(64, 8192), ValueModel::Integer(1024), "Audio buffer size (frames)"@, false),
        entry_model("audio.master_volume"@, Category::Audio, TypeModel::Range(0, 100), ValueModel::Integer(80), "Master volume (%)"@, false),
    ]
}

fn push_audio_defaults(p: &mut Vec<ConfigEntry>)
    ensures
        entries_view(final(p)@) == entries_view(old(p)@) + audio_defaults(),
{
    let ghost p0 = entries_view(p@);
    push_entry(p, ConfigEntry::new("audio.enabled", Category::Audio, ParamType::Bool, ConfigValue::Bool(true), "Enable audio subsystem", false));
    push_entry(p, ConfigEntry::new("audio.sample_rate", Category::Audio, ParamType::Range(8000, 96000), ConfigValue::Integer(44100), "Audio sample rate (Hz)", false));
    push_entry(p, ConfigEntry::new("audio.buffer_size", Category::Audio, ParamType::Range(64, 8192), ConfigValue::Integer(1024), "Audio buffer size (frames)", false));
    push_entry(p, ConfigEntry::new("audio.master_volume", Category::Audio, ParamType::Range(0, 100), ConfigValue::Integer(80), "Master volume (%)", false));
    assert(entries_view(p@) =~= p0 + audio_defaults());
}

/// The built-in `display` parameters.
pub open spec fn display_defaults() -> Seq<EntryModel> {
    seq![
        entry_model("display.resolution_x"@, Category::Display, TypeModel::Range(320, 3840), ValueModel::Integer(1024), "Horizontal resolution"@, true),
        entry_model("display.resolution_y"@, Category::Display, TypeModel::Range(200, 2160), ValueModel::Integer(768), "Vertical resolution"@, true),
        entry_model("display.depth"@, Category::Display, TypeModel::Range(8, 32), ValueModel::Integer(32), "Color depth (bits)"@, true),
        entry_model("display.vsync"@, Category::Display, TypeModel::Bool, ValueModel::Bool(true), "Enable vertical sync"@, false),
    ]
}

fn push_display_defaults(p: &mut Vec<ConfigEntry>)
    ensures
        entries_view(final(p)@) == entries_view(old(p)@) + display_defaults(),
{
    let ghost p0 = entries_view(p@);
    push_entry(p, ConfigEntry::new("display.resolution_x", Category::Display, ParamType::Range(320, 3840), ConfigValue::Integer(1024), "Horizontal resolution", true));
    push_entry(p, ConfigEntry::new("display.resolution_y", Category::Display, ParamType::Range(200, 2160), ConfigValue::Integer(768), "Vertical resolution", true));
    push_entry(p, ConfigEntry::new("display.depth", Category::Display, ParamType::Range(8, 32), ConfigValue::Integer(32), "Color depth (bits)", true));
    push_entry(p, ConfigEntry::new("display.vsync", Category::Display, ParamType::Bool, ConfigValue::Bool(true), "Enable vertical sync", false));
    assert(entries_view(p@) =~= p0 + display_defaults());
}

/// The built-in `ai` parameters.
pub open spec fn ai_defaults() -> Seq<EntryModel> {
    seq![
        entry_model("ai.enabled"@, Category::AI, TypeModel::Bool, ValueModel::Bool(true), "Enable AI subsystem"@, false),
        entry_model("ai.proxy"@, Category::AI, TypeModel::Enum(seq!["com1"@, "com2"@, "network"@, "none"@]), ValueModel::Str("com2"@), "AI proxy transport"@, false),
        entry_model("ai.shell_mode"@, Category::AI, TypeModel::Enum(seq!["assist"@, "auto"@, "disabled"@]), ValueModel::Str("assist"@), "AI shell mode"@, false),
        entry_model("ai.max_tokens"@, Category::AI, TypeModel::Range(64, 32768), ValueModel::Integer(4096), "Max tokens per AI query"@, false),
    ]
}

fn push_ai_defaults(p: &mut Vec<ConfigEntry>)
    ensures
        entries_view(final(p)@) == entries_view(old(p)@) + ai_defaults(),
{
    let ghost p0 = entries_view(p@);
    push_entry(p, ConfigEntry::new("ai.enabled", Category::AI, ParamType::Bool, ConfigValue::Bool(true), "Enable AI subsystem", false));
    push_entry(p, ConfigEntry::new("ai.proxy", Category::AI, variants4("com1", "com2", "network", "none"), ConfigValue::Str(string_of("com2")), "AI proxy transport", false));
    push_entry(p, ConfigEntry::new("ai.shell_mode", Category::AI, variants3("assist", "auto", "disabled"), ConfigValue::Str(string_of("assist")), "AI shell mode", false));
    push_entry(p, ConfigEntry::new("ai.max_tokens", Category::AI, ParamType::Range(64, 32768), ConfigValue::Integer(4096), "Max tokens per AI query", false));
    assert(entries_view(p@) =~= p0 + ai_defaults());
}

/// The built-in `power` parameters.
pub open spec fn power_defaults() -> Seq<EntryModel> {
    seq![
        entry_model("power.governor"@, Category::Power, TypeModel::Enum(seq!["performance"@, "ondemand"@, "powersave"@]), ValueModel::Str("ondemand"@), "CPU frequency governor"@, false),
        entry_model("power.suspend_timeout"@, Category::Power, TypeModel::Range(0, 3600), ValueModel::Integer(300), "Auto-suspend timeout (seconds, 0=disabled)"@, false),
        entry_model("power.acpi_enabled"@, Category::Power, TypeModel::Bool, ValueModel::Bool(true), "Enable ACPI power management"@, true),
    ]
}

fn push_power_defaults(p: &mut Vec<ConfigEntry>)
    ensures
        entries_view(final(p)@) == entries_view(old(p)@) + power_defaults(),
{
    let ghost p0 = entries_view(p@);
    push_entry(p, ConfigEntry::new("power.governor", Category::Power, variants3("performance", "ondemand", "powersave"), ConfigValue::Str(string_of("ondemand")), "CPU frequency governor", false));
    push_entry(p, ConfigEntry::new("power.suspend_timeout", Category::Power, ParamType::Range(0, 3600), ConfigValue::Integer(300), "Auto-suspend timeout (seconds, 0=disabled)", false));
    push_entry(p, ConfigEntry::new("power.acpi_enabled", Category::Power, ParamType::Bool, ConfigValue::Bool(true), "Enable ACPI power management", true));
    assert(entries_view(p@) =~= p0 + power_defaults());
}

/// All built-in parameters, in registration order.
pub open spec fn default_params() -> Seq<EntryModel> {
    kernel_defaults()
        + memory_defaults()
        + net_defaults()
        + security_defaults()
        + sched_defaults()
        + fs_defaults()
        + audio_defaults()
        + display_defaults()
        + ai_defaults()
        + power_defaults()
}

/// The built-in profiles, in registration order.
pub open spec fn default_profiles() -> Seq<ProfileModel> {
    seq![
        ProfileModel {
            name: "performance"@,
            description: "Maximize throughput and responsiveness"@,
            overrides: seq![
                ("kernel.hz"@, "1000"@),
                ("kernel.preempt"@, "true"@),
                ("sched.timeslice"@, "5"@),
                ("sched.policy"@, "cfs"@),
                ("memory.overcommit"@, "true"@),
                ("net.tcp.window"@, "1048576"@),
                ("power.governor"@, "performance"@),
                ("power.suspend_timeout"@, "0"@),
                ("fs.atime_update"@, "false"@),
            ],
        },
        ProfileModel {
            name: "balanced"@,
            description: "Balance between performance and power usage"@,
            overrides: seq![
                ("kernel.hz"@, "250"@),
                ("kernel.preempt"@, "true"@),
                ("sched.timeslice"@, "10"@),
                ("sched.policy"@, "roundrobin"@),
                ("power.governor"@, "ondemand"@),
                ("power.suspend_timeout"@, "300"@),
                ("net.tcp.window"@, "65535"@),
            ],
        },
        ProfileModel {
            name: "powersave"@,
            description: "Minimize power consumption"@,
            overrides: seq![
                ("kernel.hz"@, "100"@),
                ("kernel.preempt"@, "false"@),
                ("sched.timeslice"@, "20"@),
                ("power.governor"@, "powersave"@),
                ("power.suspend_timeout"@, "60"@),
                ("audio.enabled"@, "false"@),
                ("display.vsync"@, "false"@),
                ("net.tcp.window"@, "16384"@),
            ],
        },
        ProfileModel {
            name: "debug"@,
            description: "Verbose logging and safety checks"@,
            overrides: seq![
                ("kernel.log_level"@, "trace"@),
                ("kernel.preempt"@, "true"@),
                ("security.audit"@, "true"@),
                ("memory.overcommit"@, "false"@),
                ("memory.heap_warn_pct"@, "50"@),
                ("memory.heap_crit_pct"@, "75"@),
                ("fs.atime_update"@, "true"@),
            ],
        },
    ]
}

fn performance_profile() -> (p: ConfigProfile)
    ensures
        p@ == default_profiles()[0],
{
    let mut o: Vec<(String, String)> = Vec::new();
    push_override(&mut o, "kernel.hz", "1000");
    push_override(&mut o, "kernel.preempt", "true");
    push_override(&mut o, "sched.timeslice", "5");
    push_override(&mut o, "sched.policy", "cfs");
    push_override(&mut o, "memory.overcommit", "true");
    push_override(&mut o, "net.tcp.window", "1048576");
    push_override(&mut o, "power.governor", "performance");
    push_override(&mut o, "power.suspend_timeout", "0");
    push_override(&mut o, "fs.atime_update", "false");
    let p = ConfigProfile { name: string_of("performance"), description: string_of("Maximize throughput and responsiveness"), overrides: o };
    assert(p@.overrides =~= default_profiles()[0].overrides);
    p
}

fn balanced_profile() -> (p: ConfigProfile)
    ensures
        p@ == default_profiles()[1],
{
    let mut o: Vec<(String, String)> = Vec::new();
    push_override(&mut o, "kernel.hz", "250");
    push_override(&mut o, "kernel.preempt", "true");
    push_override(&mut o, "sched.timeslice", "10");
    push_override(&mut o, "sched.policy", "roundrobin");
    push_override(&mut o, "power.governor", "ondemand");
    push_override(&mut o, "power.suspend_timeout", "300");
    push_override(&mut o, "net.tcp.window", "65535");
    let p = ConfigProfile { name: string_of("balanced"), description: string_of("Balance between performance and power usage"), overrides: o };
    assert(p@.overrides =~= default_profiles()[1].overrides);
    p
}

fn powersave_profile() -> (p: ConfigProfile)
    ensures
        p@ == default_profiles()[2],
{
    let mut o: Vec<(String, String)> = Vec::new();
    push_override(&mut o, "kernel.hz", "100");
    push_override(&mut o, "kernel.preempt", "false");
    push_override(&mut o, "sched.timeslice", "20");
    push_override(&mut o, "power.governor", "powersave");
    push_override(&mut o, "power.suspend_timeout", "60");
    push_override(&mut o, "audio.enabled", "false");
    push_override(&mut o, "display.vsync", "false");
    push_override(&mut o, "net.tcp.window", "16384");
    let p = ConfigProfile { name: string_of("powersave"), description: string_of("Minimize power consumption"), overrides: o };
    assert(p@.overrides =~= default_profiles()[2].overrides);
    p
}

fn debug_profile() -> (p: ConfigProfile)
    ensures
        p@ == default_profiles()[3],
{
    let mut o: Vec<(String, String)> = Vec::new();
    push_override(&mut o, "kernel.log_level", "trace");
    push_override(&mut o, "kernel.preempt", "true");
    push_override(&mut o, "security.audit", "true");
    push_override(&mut o, "memory.overcommit", "false");
    push_override(&mut o, "memory.heap_warn_pct", "50");
    push_override(&mut o, "memory.heap_crit_pct", "75");
    push_override(&mut o, "fs.atime_update", "true");
    let p = ConfigProfile { name: string_of("debug"), description: string_of("Verbose logging and safety checks"), overrides: o };
    assert(p@.overrides =~= default_profiles()[3].overrides);
    p
}


// ---------------------------------------------------------------------------
// Lookup and sysctl
// ---------------------------------------------------------------------------

/// Index of the first entry from `j` on named `path` (the length when none).
pub open spec fn name_index(ps: Seq<EntryModel>, path: Seq<char>, j: int) -> int
    decreases ps.len() - j,
{
    if j < 0 || j >= ps.len() {
        ps.len() as int
    } else if ps[j].name == path {
        j
    } else {
        name_index(ps, path, j + 1)
    }
}

fn find_param(st: &ConfigStore, path: &str) -> (r: usize)
    ensures
        r == name_index(st.params_view(), path@, 0),
        r <= st.params@.len(),
{
    let n = st.params.len();
    let mut i: usize = 0;
    while i < n
        invariant
            n == st.params@.len(),
            n == st.params_view().len(),
            i <= n,
            name_index(st.params_view(), path@, 0) == name_index(st.params_view(), path@, i as int),
        decreases n - i,
    {
        assert(st.params_view()[i as int].name == st.params@[i as int].name@);
        if str_is(st.params[i].name.as_str(), path) {
            return i;
        }
        i = i + 1;
    }
    n
}

/// `e` with its current value replaced.
pub open spec fn with_current(e: EntryModel, v: ValueModel) -> EntryModel {
    EntryModel { current: v, ..e }
}

fn set_current(st: &mut ConfigStore, i: usize, v: ConfigValue)
    requires
        old(st).wf(),
        i < old(st).params@.len(),
    ensures
        final(st).wf(),
        final(st).params_view() == old(st).params_view().update(i as int, with_current(old(st).params_view()[i as int], v@)),
        final(st).params@.len() == old(st).params@.len(),
        final(st).profiles@ == old(st).profiles@,
        final(st).initialized == old(st).initialized,
        final(st).counters() == old(st).counters(),
{
    let ghost before = st.params@;
    let mut e = st.params.remove(i);
    e.current = v;
    st.params.insert(i, e);
    assert(st.params@ =~= before.update(i as int, e));
    assert(st.params_view() =~= entries_view(before).update(i as int, with_current(entries_view(before)[i as int], v@)));
}

/// Read a parameter's value as text. Every read is counted; a missing
/// parameter also counts as an error.
pub fn sysctl_read(st: &mut ConfigStore, path: &str) -> (r: Result<String, &'static str>)
    requires
        old(st).wf(),
    ensures
        final(st).wf(),
        final(st).params@ == old(st).params@,
        final(st).profiles@ == old(st).profiles@,
        final(st).initialized == old(st).initialized,
        ({
            let ps = old(st).params_view();
            let i = name_index(ps, path@, 0);
            if i < ps.len() {
                &&& r matches Ok(v) && v@ == display_text(ps[i].current)
                &&& final(st).counters() == (StoreCounters { reads: wrap_inc(old(st).reads), ..old(st).counters() })
            } else {
                &&& r matches Err(e) && e@ == "parameter not found"@
                &&& final(st).counters() == (StoreCounters {
                        reads: wrap_inc(old(st).reads), errors: wrap_inc(old(st).errors), ..old(st).counters() })
            }
        }),
{
    st.reads = inc_wrapping(st.reads);
    let i = find_param(st, path);
    if i < st.params.len() {
        assert(st.params_view()[i as int] == st.params@[i as int]@);
        return Ok(st.params[i].current.display());
    }
    st.errors = inc_wrapping(st.errors);
    Err("parameter not found")
}

/// What `sysctl_write` does to the parameters, or the error it reports.
pub open spec fn write_result(ps: Seq<EntryModel>, path: Seq<char>, value: Seq<char>) -> Result<Seq<EntryModel>, Seq<char>> {
    let i = name_index(ps, path, 0);
    if i >= ps.len() {
        Err("parameter not found"@)
    } else if ps[i].readonly {
        Err("parameter is read-only"@)
    } else {
        match parse_value(value, ps[i].ptype) {
            Ok(v) => Ok(ps.update(i, with_current(ps[i], v))),
            Err(e) => Err(e),
        }
    }
}

/// Set a parameter from text, checked against its type. Every write is
/// counted; a refused one also counts as an error.
pub fn sysctl_write(st: &mut ConfigStore, path: &str, value: &str) -> (r: Result<(), &'static str>)
    requires
        old(st).wf(),
    ensures
        final(st).wf(),
        final(st).profiles@ == old(st).profiles@,
        final(st).initialized == old(st).initialized,
        match write_result(old(st).params_view(), path@, value@) {
            Ok(ps) => r is Ok && final(st).params_view() == ps
                && final(st).counters() == (StoreCounters { writes: wrap_inc(old(st).writes), ..old(st).counters() }),
            Err(e) => r matches Err(m) && m@ == e && final(st).params@ == old(st).params@
                && final(st).counters() == (StoreCounters {
                    writes: wrap_inc(old(st).writes), errors: wrap_inc(old(st).errors), ..old(st).counters() }),
        },
{
    st.writes = inc_wrapping(st.writes);
    let i = find_param(st, path);
    if i >= st.params.len() {
        st.errors = inc_wrapping(st.errors);
        return Err("parameter not found");
    }
    assert(st.params_view()[i as int] == st.params@[i as int]@);
    if st.params[i].readonly {
        st.errors = inc_wrapping(st.errors);
        return Err("parameter is read-only");
    }
    match ConfigValue::parse(value, &st.params[i].ptype) {
        Ok(v) => {
            set_current(st, i, v);
            Ok(())
        },
        Err(e) => {
            st.errors = inc_wrapping(st.errors);
            Err(e)
        },
    }
}

/// `(name, value text)` of every entry whose name begins with `prefix`
/// (all of them for an empty prefix).
pub open spec fn listing(ps: Seq<EntryModel>, prefix: Seq<char>) -> Seq<(Seq<char>, Seq<char>)>
    decreases ps.len(),
{
    if ps.len() == 0 {
        Seq::empty()
    } else {
        let e = ps.last();
        listing(ps.drop_last(), prefix) + if prefix.len() == 0 || has_prefix(e.name, prefix) {
            seq![(e.name, display_text(e.current))]
        } else {
            Seq::empty()
        }
    }
}

/// The parameters under a prefix with their values.
pub fn sysctl_list(st: &ConfigStore, prefix: &str) -> (r: Vec<(String, String)>)
    ensures
        pairs_view(r@) == listing(st.params_view(), prefix@),
{
    let n = st.params.len();
    let all = prefix.unicode_len() == 0;
    let mut out: Vec<(String, String)> = Vec::new();
    let mut i: usize = 0;
    while i < n
        invariant
            n == st.params@.len(),
            n == st.params_view().len(),
            i <= n,
            all == (prefix@.len() == 0),
            pairs_view(out@) == listing(st.params_view().subrange(0, i as int), prefix@),
        decreases n - i,
    {
        let ghost pre = st.params_view().subrange(0, i + 1);
        assert(pre.drop_last() =~= st.params_view().subrange(0, i as int));
        let e = &st.params[i];
        assert(pre.last() == e@);
        let ghost before = pairs_view(out@);
        if all || starts_with_str(e.name.as_str(), prefix) {
            out.push((e.name.clone(), e.current.display()));
            assert(pairs_view(out@) =~= before.push((e@.name, display_text(e@.current))));
        }
        i = i + 1;
        assert(pairs_view(out@) =~= listing(pre, prefix@));
    }
    assert(st.params_view().subrange(0, n as int) =~= st.params_view());
    out
}

/// The first boolean value among the entries from `j` on named `path`.
pub open spec fn first_bool(ps: Seq<EntryModel>, path: Seq<char>, j: int) -> Option<bool>
    decreases ps.len() - j,
{
    if j < 0 || j >= ps.len() {
        None
    } else if ps[j].name == path && ps[j].current is Bool {
        Some(ps[j].current->Bool_0)
    } else {
        first_bool(ps, path, j + 1)
    }
}

/// The first integer value among the entries from `j` on named `path`.
pub open spec fn first_int(ps: Seq<EntryModel>, path: Seq<char>, j: int) -> Option<i64>
    decreases ps.len() - j,
{
    if j < 0 || j >= ps.len() {
        None
    } else if ps[j].name == path && ps[j].current is Integer {
        Some(ps[j].current->Integer_0)
    } else {
        first_int(ps, path, j + 1)
    }
}

/// A boolean parameter's value.
pub fn get_bool(st: &ConfigStore, path: &str) -> (r: Option<bool>)
    ensures
        r == first_bool(st.params_view(), path@, 0),
{
    let n = st.params.len();
    let mut i: usize = 0;
    while i < n
        invariant
            n == st.params@.len(),
            n == st.params_view().len(),
            i <= n,
            first_bool(st.params_view(), path@, 0) == first_bool(st.params_view(), path@, i as int),
        decreases n - i,
    {
        let e = &st.params[i];
        assert(st.params_view()[i as int] == e@);
        if str_is(e.name.as_str(), path) {
            if let ConfigValue::Bool(b) = &e.current {
                return Some(*b);
            }
        }
        i = i + 1;
    }
    None
}

/// An integer parameter's value.
pub fn get_int(st: &ConfigStore, path: &str) -> (r: Option<i64>)
    ensures
        r == first_int(st.params_view(), path@, 0),
{
    let n = st.params.len();
    let mut i: usize = 0;
    while i < n
        invariant
            n == st.params@.len(),
            n == st.params_view().len(),
            i <= n,
            first_int(st.params_view(), path@, 0) == first_int(st.params_view(), path@, i as int),
        decreases n - i,
    {
        let e = &st.params[i];
        assert(st.params_view()[i as int] == e@);
        if str_is(e.name.as_str(), path) {
            if let ConfigValue::Integer(n) = &e.current {
                return Some(*n);
            }
        }
        i = i + 1;
    }
    None
}

/// A parameter's value as text (strings as they are).
pub fn get_str(st: &ConfigStore, path: &str) -> (r: Option<String>)
    ensures
        ({
            let ps = st.params_view();
            let i = name_index(ps, path@, 0);
            if i < ps.len() {
                r matches Some(v) && v@ == display_text(ps[i].current)
            } else {
                r is None
            }
        }),
{
    let i = find_param(st, path);
    if i < st.params.len() {
        assert(st.params_view()[i as int] == st.params@[i as int]@);
        Some(st.params[i].current.display())
    } else {
        None
    }
}

/// What `reset_param` does to the parameters, or the error it reports.
pub open spec fn reset_result(ps: Seq<EntryModel>, path: Seq<char>) -> Result<Seq<EntryModel>, Seq<char>> {
    let i = name_index(ps, path, 0);
    if i >= ps.len() {
        Err("parameter not found"@)
    } else if ps[i].readonly {
        Err("parameter is read-only"@)
    } else {
        Ok(ps.update(i, with_current(ps[i], ps[i].default)))
    }
}

/// Put one parameter back to its default.
pub fn reset_param(st: &mut ConfigStore, path: &str) -> (r: Result<(), &'static str>)
    requires
        old(st).wf(),
    ensures
        final(st).wf(),
        final(st).profiles@ == old(st).profiles@,
        final(st).initialized == old(st).initialized,
        final(st).counters() == old(st).counters(),
        match reset_result(old(st).params_view(), path@) {
            Ok(ps) => r is Ok && final(st).params_view() == ps,
            Err(e) => r matches Err(m) && m@ == e && final(st).params@ == old(st).params@,
        },
{
    let i = find_param(st, path);
    if i >= st.params.len() {
        return Err("parameter not found");
    }
    assert(st.params_view()[i as int] == st.params@[i as int]@);
    if st.params[i].readonly {
        return Err("parameter is read-only");
    }
    let d = st.params[i].default.copy();
    set_current(st, i, d);
    Ok(())
}

/// An entry after `reset_all`.
pub open spec fn reset_entry(e: EntryModel) -> EntryModel {
    if e.readonly { e } else { with_current(e, e.default) }
}

/// Put every writable parameter back to its default.
pub fn reset_all(st: &mut ConfigStore)
    requires
        old(st).wf(),
    ensures
        final(st).wf(),
        final(st).profiles@ == old(st).profiles@,
        final(st).initialized == old(st).initialized,
        final(st).counters() == old(st).counters(),
        final(st).params_view() == old(st).params_view().map_values(|e: EntryModel| reset_entry(e)),
{
    let n = st.params.len();
    let ghost p0 = st.params_view();
    let mut i: usize = 0;
    while i < n
        invariant
            n == st.params@.len(),
            n == p0.len(),
            i <= n,
            st.wf(),
            p0 == old(st).params_view(),
            st.profiles@ == old(st).profiles@,
            st.initialized == old(st).initialized,
            st.counters() == old(st).counters(),
            st.params_view().len() == n,
            forall|k: int| 0 <= k < i ==> #[trigger] st.params_view()[k] == reset_entry(p0[k]),
            forall|k: int| i <= k < n ==> #[trigger] st.params_view()[k] == p0[k],
        decreases n - i,
    {
        assert(st.params_view()[i as int] == st.params@[i as int]@);
        if !st.params[i].readonly {
            let d = st.params[i].default.copy();
            set_current(st, i, d);
        }
        i = i + 1;
    }
    assert(st.params_view() =~= p0.map_values(|e: EntryModel| reset_entry(e)));
}

// ---------------------------------------------------------------------------
// The namespace tree
// ---------------------------------------------------------------------------

/// `s` up to its first `.`.
pub open spec fn before_dot(s: Seq<char>) -> Seq<char> {
    s.subrange(0, char_pos(s, '.', 0))
}

/// The child of `prefix` that the path `name` lies under, if any.
pub open spec fn child_of(name: Seq<char>, prefix: Seq<char>) -> Option<Seq<char>> {
    if prefix.len() == 0 {
        Some(before_dot(name))
    } else if has_prefix(name, prefix) && name.len() > prefix.len() && name[prefix.len() as int] == '.' {
        Some(before_dot(name.subrange((prefix.len() + 1) as int, name.len() as int)))
    } else {
        None
    }
}

/// The distinct children of `prefix`, in order of first appearance.
pub open spec fn children_of(ps: Seq<EntryModel>, prefix: Seq<char>) -> Seq<Seq<char>>
    decreases ps.len(),
{
    if ps.len() == 0 {
        Seq::empty()
    } else {
        let c = children_of(ps.drop_last(), prefix);
        match child_of(ps.last().name, prefix) {
            Some(x) => if c.contains(x) { c } else { c.push(x) },
            None => c,
        }
    }
}

/// The level of `prefix` in the namespace (0 for the root).
pub open spec fn tree_depth(prefix: Seq<char>) -> nat {
    if prefix.len() == 0 { 0 } else { count_char(prefix, '.') + 1 }
}

fn child_name(name: &str, prefix: &str) -> (r: Option<String>)
    ensures
        match r {
            Some(x) => child_of(name@, prefix@) == Some(x@),
            None => child_of(name@, prefix@) is None,
        },
{
    let n = name.unicode_len();
    let m = prefix.unicode_len();
    let suffix = if m == 0 {
        name
    } else {
        if !starts_with_str(name, prefix) || n <= m || name.get_char(m) != '.' {
            return None;
        }
        name.substring_char(m + 1, n)
    };
    let d = crate::text::first_char_pos(suffix, '.');
    Some(string_of(suffix.substring_char(0, d)))
}

/// The children of a node of the dotted namespace (the top-level names for
/// the empty prefix); nothing below the deepest level.
pub fn tree_children(st: &ConfigStore, prefix: &str) -> (r: Vec<String>)
    ensures
        r@.map_values(|x: String| x@) == if tree_depth(prefix@) >= MAX_DEPTH {
            Seq::<Seq<char>>::empty()
        } else {
            children_of(st.params_view(), prefix@)
        },
{
    let mut children: Vec<String> = Vec::new();
    let too_deep = prefix.unicode_len() != 0 && count_char_in(prefix, '.') >= MAX_DEPTH - 1;
    if too_deep {
        assert(children@.map_values(|x: String| x@) =~= Seq::<Seq<char>>::empty());
        return children;
    }
    let n = st.params.len();
    let mut i: usize = 0;
    while i < n
        invariant
            n == st.params@.len(),
            n == st.params_view().len(),
            i <= n,
            children@.map_values(|x: String| x@) == children_of(st.params_view().subrange(0, i as int), prefix@),
        decreases n - i,
    {
        let ghost pre = st.params_view().subrange(0, i + 1);
        assert(pre.drop_last() =~= st.params_view().subrange(0, i as int));
        assert(pre.last() == st.params@[i as int]@);
        let ghost c0 = children@.map_values(|x: String| x@);
        match child_name(st.params[i].name.as_str(), prefix) {
            Some(x) => {
                if !contains_str(&children, x.as_str()) {
                    let ghost xv = x@;
                    children.push(x);
                    assert(children@.map_values(|x: String| x@) =~= c0.push(xv));
                }
            },
            None => {},
        }
        i = i + 1;
    }
    assert(st.params_view().subrange(0, n as int) =~= st.params_view());
    children
}

// ---------------------------------------------------------------------------
// Profiles
// ---------------------------------------------------------------------------

/// Index of the first profile from `j` on named `name` (the length when none).
pub open spec fn profile_index(pr: Seq<ProfileModel>, name: Seq<char>, j: int) -> int
    decreases pr.len() - j,
{
    if j < 0 || j >= pr.len() {
        pr.len() as int
    } else if pr[j].name == name {
        j
    } else {
        profile_index(pr, name, j + 1)
    }
}

fn find_profile(st: &ConfigStore, name: &str) -> (r: usize)
    ensures
        r == profile_index(st.profiles_view(), name@, 0),
        r <= st.profiles@.len(),
{
    let n = st.profiles.len();
    let mut i: usize = 0;
    while i < n
        invariant
            n == st.profiles@.len(),
            n == st.profiles_view().len(),
            i <= n,
            profile_index(st.profiles_view(), name@, 0) == profile_index(st.profiles_view(), name@, i as int),
        decreases n - i,
    {
        assert(st.profiles_view()[i as int].name == st.profiles@[i as int].name@);
        if str_is(st.profiles[i].name.as_str(), name) {
            return i;
        }
        i = i + 1;
    }
    n
}

/// Whether the override `ov` changes entry `e`.
pub open spec fn applies(e: EntryModel, ov: (Seq<char>, Seq<char>)) -> bool {
    e.name == ov.0 && !e.readonly && parse_value(ov.1, e.ptype) is Ok
}

/// Entry `e` after the override `ov`.
pub open spec fn apply_entry(e: EntryModel, ov: (Seq<char>, Seq<char>)) -> EntryModel {
    if applies(e, ov) { with_current(e, parse_value(ov.1, e.ptype)->Ok_0) } else { e }
}

/// How many entries the override `ov` changes.
pub open spec fn count_applies(ps: Seq<EntryModel>, ov: (Seq<char>, Seq<char>)) -> nat
    decreases ps.len(),
{
    if ps.len() == 0 {
        0
    } else {
        count_applies(ps.drop_last(), ov) + if applies(ps.last(), ov) { 1nat } else { 0nat }
    }
}

/// The entries after the overrides, applied in order, and how many
/// changes were made.
pub open spec fn apply_all(ps: Seq<EntryModel>, ovs: Seq<(Seq<char>, Seq<char>)>) -> (Seq<EntryModel>, nat)
    decreases ovs.len(),
{
    if ovs.len() == 0 {
        (ps, 0)
    } else {
        let prev = apply_all(ps, ovs.drop_last());
        (prev.0.map_values(|e: EntryModel| apply_entry(e, ovs.last())), prev.1 + count_applies(prev.0, ovs.last()))
    }
}

proof fn lemma_count_applies_bound(ps: Seq<EntryModel>, ov: (Seq<char>, Seq<char>))
    ensures
        count_applies(ps, ov) <= ps.len(),
    decreases ps.len(),
{
    if ps.len() > 0 {
        lemma_count_applies_bound(ps.drop_last(), ov);
    }
}

/// Apply one override to every entry; returns the number of changes.
fn apply_override(st: &mut ConfigStore, pname: &str, value: &str) -> (c: usize)
    requires
        old(st).wf(),
    ensures
        final(st).wf(),
        final(st).params_view() == old(st).params_view().map_values(|e: EntryModel| apply_entry(e, (pname@, value@))),
        c == count_applies(old(st).params_view(), (pname@, value@)),
        final(st).params@.len() == old(st).params@.len(),
        final(st).profiles@ == old(st).profiles@,
        final(st).initialized == old(st).initialized,
        final(st).counters() == old(st).counters(),
{
    let ghost ov = (pname@, value@);
    let ghost p0 = st.params_view();
    let n = st.params.len();
    let mut c: usize = 0;
    let mut j: usize = 0;
    while j < n
        invariant
            n == st.params@.len(),
            n == p0.len(),
            j <= n,
            st.wf(),
            ov == (pname@, value@),
            p0 == old(st).params_view(),
            st.profiles@ == old(st).profiles@,
            st.initialized == old(st).initialized,
            st.counters() == old(st).counters(),
            st.params_view().len() == n,
            c == count_applies(p0.subrange(0, j as int), ov),
            c <= j,
            forall|k: int| 0 <= k < j ==> #[trigger] st.params_view()[k] == apply_entry(p0[k], ov),
            forall|k: int| j <= k < n ==> #[trigger] st.params_view()[k] == p0[k],
        decreases n - j,
    {
        let ghost pre = p0.subrange(0, j + 1);
        assert(pre.drop_last() =~= p0.subrange(0, j as int));
        assert(st.params_view()[j as int] == st.params@[j as int]@);
        if str_is(st.params[j].name.as_str(), pname) && !st.params[j].readonly {
            match ConfigValue::parse(value, &st.params[j].ptype) {
                Ok(v) => {
                    set_current(st, j, v);
                    c = c + 1;
                },
                Err(_) => {},
            }
        }
        j = j + 1;
    }
    assert(p0.subrange(0, n as int) =~= p0);
    assert(st.params_view() =~= p0.map_values(|e: EntryModel| apply_entry(e, ov)));
    c
}

/// Apply a named profile's overrides in order; read-only parameters and
/// values that do not parse are skipped. Returns how many changes were
/// made. Every call is counted.
pub fn apply_profile(st: &mut ConfigStore, name: &str) -> (r: Result<u32, &'static str>)
    requires
        old(st).wf(),
    ensures
        final(st).wf(),
        final(st).profiles@ == old(st).profiles@,
        final(st).initialized == old(st).initialized,
        final(st).counters() == (StoreCounters { profile_applies: wrap_inc(old(st).profile_applies), ..old(st).counters() }),
        ({
            let pr = old(st).profiles_view();
            let i = profile_index(pr, name@, 0);
            if i < pr.len() {
                let res = apply_all(old(st).params_view(), pr[i].overrides);
                r == Ok::<u32, &'static str>(res.1 as u32) && res.1 <= u32::MAX && final(st).params_view() == res.0
            } else {
                r matches Err(e) && e@ == "profile not found"@ && final(st).params@ == old(st).params@
            }
        }),
{
    st.profile_applies = inc_wrapping(st.profile_applies);
    let pi = find_profile(st, name);
    if pi >= st.profiles.len() {
        return Err("profile not found");
    }
    let ghost ovs = st.profiles_view()[pi as int].overrides;
    let ghost p0 = st.params_view();
    let ghost limit = MAX_PARAMS + DEFAULT_PARAM_COUNT;
    assert(ovs.len() <= limit);
    assert(ovs.len() == st.profiles@[pi as int].overrides@.len());
    let m = st.profiles[pi].overrides.len();
    let mut applied: u32 = 0;
    let mut oi: usize = 0;
    while oi < m
        invariant
            pi < st.profiles@.len(),
            m == st.profiles@[pi as int].overrides@.len(),
            ovs == pairs_view(st.profiles@[pi as int].overrides@),
            m <= limit,
            limit == MAX_PARAMS + DEFAULT_PARAM_COUNT,
            oi <= m,
            st.wf(),
            p0 == old(st).params_view(),
            st.profiles@ == old(st).profiles@,
            st.initialized == old(st).initialized,
            st.counters() == (StoreCounters { profile_applies: wrap_inc(old(st).profile_applies), ..old(st).counters() }),
            st.params_view() == apply_all(p0, ovs.subrange(0, oi as int)).0,
            applied == apply_all(p0, ovs.subrange(0, oi as int)).1,
            applied <= oi * limit,
        decreases m - oi,
    {
        let ghost pre = ovs.subrange(0, oi + 1);
        assert(pre.drop_last() =~= ovs.subrange(0, oi as int));
        let pname = st.profiles[pi].overrides[oi].0.clone();
        let pval = st.profiles[pi].overrides[oi].1.clone();
        assert(pre.last() == (pname@, pval@));
        proof {
            lemma_count_applies_bound(st.params_view(), (pname@, pval@));
        }
        let c = apply_override(st, pname.as_str(), pval.as_str());
        assert(st.params@.len() <= limit);
        assert(applied + c <= (oi + 1) * limit) by (nonlinear_arith)
            requires
                applied <= oi * limit,
                c <= limit,
        ;
        assert((oi + 1) * limit <= limit * limit) by (nonlinear_arith)
            requires
                oi < m,
                m <= limit,
        ;
        assert(limit * limit == 32400) by (nonlinear_arith)
            requires
                limit == 180,
        ;
        applied = applied + c as u32;
        oi = oi + 1;
    }
    assert(ovs.subrange(0, m as int) =~= ovs);
    Ok(applied)
}

/// `(name, description)` of every profile.
pub fn list_profiles(st: &ConfigStore) -> (r: Vec<(String, String)>)
    ensures
        pairs_view(r@) == st.profiles_view().map_values(|p: ProfileModel| (p.name, p.description)),
{
    let n = st.profiles.len();
    let mut out: Vec<(String, String)> = Vec::new();
    let mut i: usize = 0;
    while i < n
        invariant
            n == st.profiles@.len(),
            n == st.profiles_view().len(),
            i <= n,
            pairs_view(out@) == st.profiles_view().subrange(0, i as int).map_values(|p: ProfileModel| (p.name, p.description)),
        decreases n - i,
    {
        let p = &st.profiles[i];
        assert(st.profiles_view()[i as int] == p@);
        let ghost before = pairs_view(out@);
        out.push((p.name.clone(), p.description.clone()));
        assert(pairs_view(out@) =~= before.push((p@.name, p@.description)));
        i = i + 1;
        assert(st.profiles_view().subrange(0, i as int).map_values(|p: ProfileModel| (p.name, p.description))
            =~= before.push((p@.name, p@.description)));
    }
    assert(st.profiles_view().subrange(0, n as int) =~= st.profiles_view());
    out
}

/// `(name, value text)` of every writable entry whose value differs from
/// its default.
pub open spec fn saved_overrides(ps: Seq<EntryModel>) -> Seq<(Seq<char>, Seq<char>)>
    decreases ps.len(),
{
    if ps.len() == 0 {
        Seq::empty()
    } else {
        let e = ps.last();
        saved_overrides(ps.drop_last()) + if modified(e) && !e.readonly {
            seq![(e.name, display_text(e.current))]
        } else {
            Seq::empty()
        }
    }
}

proof fn lemma_saved_len(ps: Seq<EntryModel>)
    ensures
        saved_overrides(ps).len() <= ps.len(),
    decreases ps.len(),
{
    if ps.len() > 0 {
        lemma_saved_len(ps.drop_last());
    }
}

/// What `save_profile` does to the profiles, or the error it reports.
pub open spec fn save_result(pr: Seq<ProfileModel>, ps: Seq<EntryModel>, name: Seq<char>, desc: Seq<char>) -> Result<Seq<ProfileModel>, Seq<char>> {
    if pr.len() >= MAX_PROFILES {
        Err("too many profiles"@)
    } else {
        let ov = saved_overrides(ps);
        let i = profile_index(pr, name, 0);
        if i < pr.len() {
            Ok(pr.update(i, ProfileModel { description: desc, overrides: ov, ..pr[i] }))
        } else {
            Ok(pr.push(ProfileModel { name, description: desc, overrides: ov }))
        }
    }
}

fn collect_overrides(st: &ConfigStore) -> (r: Vec<(String, String)>)
    ensures
        pairs_view(r@) == saved_overrides(st.params_view()),
{
    let n = st.params.len();
    let mut out: Vec<(String, String)> = Vec::new();
    let mut i: usize = 0;
    while i < n
        invariant
            n == st.params@.len(),
            n == st.params_view().len(),
            i <= n,
            pairs_view(out@) == saved_overrides(st.params_view().subrange(0, i as int)),
        decreases n - i,
    {
        let ghost pre = st.params_view().subrange(0, i + 1);
        assert(pre.drop_last() =~= st.params_view().subrange(0, i as int));
        let e = &st.params[i];
        assert(pre.last() == e@);
        let ghost before = pairs_view(out@);
        if e.is_modified() && !e.readonly {
            out.push((e.name.clone(), e.current.display()));
            assert(pairs_view(out@) =~= before.push((e@.name, display_text(e@.current))));
        }
        i = i + 1;
        assert(pairs_view(out@) =~= saved_overrides(pre));
    }
    assert(st.params_view().subrange(0, n as int) =~= st.params_view());
    out
}

/// Save the writable modified parameters as a profile, replacing one of
/// the same name.
pub fn save_profile(st: &mut ConfigStore, name: &str, description: &str) -> (r: Result<(), &'static str>)
    requires
        old(st).wf(),
    ensures
        final(st).wf(),
        final(st).params@ == old(st).params@,
        final(st).initialized == old(st).initialized,
        final(st).counters() == old(st).counters(),
        match save_result(old(st).profiles_view(), old(st).params_view(), name@, description@) {
            Ok(pr) => r is Ok && final(st).profiles_view() == pr,
            Err(e) => r matches Err(m) && m@ == e && final(st).profiles@ == old(st).profiles@,
        },
{
    if st.profiles.len() >= MAX_PROFILES {
        return Err("too many profiles");
    }
    let overrides = collect_overrides(st);
    proof {
        lemma_saved_len(st.params_view());
    }
    let ghost pv0 = st.profiles_view();
    let ghost ov = pairs_view(overrides@);
    let i = find_profile(st, name);
    if i < st.profiles.len() {
        let ghost before = st.profiles@;
        let mut p = st.profiles.remove(i);
        p.description = string_of(description);
        p.overrides = overrides;
        st.profiles.insert(i, p);
        assert(st.profiles@ =~= before.update(i as int, p));
        assert(st.profiles_view() =~= pv0.update(i as int, ProfileModel { description: description@, overrides: ov, ..pv0[i as int] }));
    } else {
        let p = ConfigProfile { name: string_of(name), description: string_of(description), overrides };
        st.profiles.push(p);
        assert(st.profiles_view() =~= pv0.push(ProfileModel { name: name@, description: description@, overrides: ov }));
    }
    assert forall|k: int| 0 <= k < st.profiles_view().len()
        implies #[trigger] st.profiles_view()[k].overrides.len() <= MAX_PARAMS + DEFAULT_PARAM_COUNT by {
        if k != i {
            assert(st.profiles_view()[k] == pv0[k]);
        }
    }
    Ok(())
}

/// The profiles other than those named `name`.
pub open spec fn without_profile(pr: Seq<ProfileModel>, name: Seq<char>) -> Seq<ProfileModel>
    decreases pr.len(),
{
    if pr.len() == 0 {
        pr
    } else {
        let rest = without_profile(pr.drop_last(), name);
        if pr.last().name == name { rest } else { rest.push(pr.last()) }
    }
}

proof fn lemma_without_profile(pr: Seq<ProfileModel>, name: Seq<char>)
    requires
        overrides_bounded(pr),
    ensures
        overrides_bounded(without_profile(pr, name)),
        without_profile(pr, name).len() <= pr.len(),
    decreases pr.len(),
{
    if pr.len() > 0 {
        lemma_without_profile(pr.drop_last(), name);
        let rest = without_profile(pr.drop_last(), name);
        if pr.last().name != name {
            assert forall|i: int| 0 <= i < rest.push(pr.last()).len()
                implies #[trigger] rest.push(pr.last())[i].overrides.len() <= MAX_PARAMS + DEFAULT_PARAM_COUNT by {
                if i < rest.len() {
                    assert(rest.push(pr.last())[i] == rest[i]);
                } else {
                    assert(pr.last() == pr[pr.len() - 1]);
                }
            }
        }
    }
}

/// Delete every profile with the given name; an error when there is none.
pub fn delete_profile(st: &mut ConfigStore, name: &str) -> (r: Result<(), &'static str>)
    requires
        old(st).wf(),
    ensures
        final(st).wf(),
        final(st).params@ == old(st).params@,
        final(st).initialized == old(st).initialized,
        final(st).counters() == old(st).counters(),
        final(st).profiles_view() == without_profile(old(st).profiles_view(), name@),
        r is Ok == (without_profile(old(st).profiles_view(), name@).len() < old(st).profiles_view().len()),
        r is Err ==> r->Err_0@ == "profile not found"@,
{
    let len_before = st.profiles.len();
    let ghost pv0 = st.profiles_view();
    let mut kept: Vec<ConfigProfile> = Vec::new();
    while st.profiles.len() > 0
        invariant
            pv0 == old(st).profiles_view(),
            st.params@ == old(st).params@,
            st.initialized == old(st).initialized,
            st.counters() == old(st).counters(),
            without_profile(pv0, name@) == without_profile(st.profiles_view(), name@) + profiles_view(kept@),
        decreases st.profiles@.len(),
    {
        let ghost before = st.profiles_view();
        let ghost acc = profiles_view(kept@);
        let p = st.profiles.pop().unwrap();
        assert(before.drop_last() =~= st.profiles_view());
        assert(before.last() == p@);
        if !str_is(p.name.as_str(), name) {
            assert(without_profile(before, name@) == without_profile(st.profiles_view(), name@).push(p@));
            kept.insert(0, p);
            assert(profiles_view(kept@) =~= seq![p@] + acc);
            assert(without_profile(st.profiles_view(), name@).push(p@) + acc
                =~= without_profile(st.profiles_view(), name@) + (seq![p@] + acc));
        } else {
            assert(without_profile(before, name@) == without_profile(st.profiles_view(), name@));
        }
    }
    assert(without_profile(st.profiles_view(), name@) =~= Seq::<ProfileModel>::empty());
    st.profiles = kept;
    assert(without_profile(pv0, name@) =~= st.profiles_view());
    proof {
        lemma_without_profile(pv0, name@);
    }
    if st.profiles.len() == len_before {
        Err("profile not found")
    } else {
        Ok(())
    }
}

// ---------------------------------------------------------------------------
// Registration
// ---------------------------------------------------------------------------

/// What `register_param` does to the parameters, or the error it reports.
pub open spec fn register_result(ps: Seq<EntryModel>, e: EntryModel) -> Result<Seq<EntryModel>, Seq<char>> {
    if ps.len() >= MAX_PARAMS {
        Err("maximum parameter count reached"@)
    } else if name_index(ps, e.name, 0) < ps.len() {
        Err("parameter already exists"@)
    } else {
        Ok(ps.push(e))
    }
}

/// Register a parameter at runtime; names are unique and the table holds
/// at most `MAX_PARAMS` of them.
pub fn register_param(
    st: &mut ConfigStore,
    name: &str,
    category: Category,
    ptype: ParamType,
    default: ConfigValue,
    description: &str,
    readonly: bool,
) -> (r: Result<(), &'static str>)
    requires
        old(st).wf(),
    ensures
        final(st).wf(),
        final(st).profiles@ == old(st).profiles@,
        final(st).initialized == old(st).initialized,
        final(st).counters() == old(st).counters(),
        match register_result(old(st).params_view(), entry_model(name@, category, ptype@, default@, description@, readonly)) {
            Ok(ps) => r is Ok && final(st).params_view() == ps,
            Err(e) => r matches Err(m) && m@ == e && final(st).params@ == old(st).params@,
        },
{
    if st.params.len() >= MAX_PARAMS {
        return Err("maximum parameter count reached");
    }
    let i = find_param(st, name);
    if i < st.params.len() {
        return Err("parameter already exists");
    }
    let e = ConfigEntry::new(name, category, ptype, default, description, readonly);
    push_entry(&mut st.params, e);
    Ok(())
}

/// The entries other than those named `name`.
pub open spec fn without_param(ps: Seq<EntryModel>, name: Seq<char>) -> Seq<EntryModel>
    decreases ps.len(),
{
    if ps.len() == 0 {
        ps
    } else {
        let rest = without_param(ps.drop_last(), name);
        if ps.last().name == name { rest } else { rest.push(ps.last()) }
    }
}

proof fn lemma_without_param_len(ps: Seq<EntryModel>, name: Seq<char>)
    ensures
        without_param(ps, name).len() <= ps.len(),
    decreases ps.len(),
{
    if ps.len() > 0 {
        lemma_without_param_len(ps.drop_last(), name);
    }
}

/// Whether `name` is one of the built-in parameters that `init` registers.
pub open spec fn is_builtin(name: Seq<char>) -> bool {
    name_index(default_params(), name, 0) < default_params().len()
}

/// Whether `name` names a built-in parameter.
pub fn is_builtin_param(name: &str) -> (r: bool)
    ensures
        r == is_builtin(name@),
{
    let mut table: Vec<ConfigEntry> = Vec::new();
    register_defaults(&mut table);
    let ghost ps = entries_view(table@);
    assert(ps =~= default_params());
    let n = table.len();
    let mut i: usize = 0;
    while i < n
        invariant
            n == table@.len(),
            ps == entries_view(table@),
            ps == default_params(),
            i <= n,
            name_index(ps, name@, 0) == name_index(ps, name@, i as int),
        decreases n - i,
    {
        assert(ps[i as int].name == table@[i as int].name@);
        if str_is(table[i].name.as_str(), name) {
            return true;
        }
        i = i + 1;
    }
    false
}

/// Remove every custom parameter with the given name. Built-in parameters
/// cannot be removed; removing a name that is not registered is an error.
pub fn unregister_param(st: &mut ConfigStore, name: &str) -> (r: Result<(), &'static str>)
    requires
        old(st).wf(),
    ensures
        final(st).wf(),
        final(st).profiles@ == old(st).profiles@,
        final(st).initialized == old(st).initialized,
        final(st).counters() == old(st).counters(),
        is_builtin(name@) ==> r == Err::<(), &'static str>("cannot remove built-in parameter") && final(st).params@ == old(st).params@,
        !is_builtin(name@) ==> final(st).params_view() == without_param(old(st).params_view(), name@),
        !is_builtin(name@) ==> (r is Ok == (without_param(old(st).params_view(), name@).len() < old(st).params_view().len())),
        !is_builtin(name@) && r is Err ==> r->Err_0@ == "parameter not found"@,
{
    if is_builtin_param(name) {
        return Err("cannot remove built-in parameter");
    }
    let len_before = st.params.len();
    let ghost pv0 = st.params_view();
    let mut kept: Vec<ConfigEntry> = Vec::new();
    while st.params.len() > 0
        invariant
            pv0 == old(st).params_view(),
            st.profiles@ == old(st).profiles@,
            st.initialized == old(st).initialized,
            st.counters() == old(st).counters(),
            without_param(pv0, name@) == without_param(st.params_view(), name@) + entries_view(kept@),
        decreases st.params@.len(),
    {
        let ghost before = st.params_view();
        let ghost acc = entries_view(kept@);
        let e = st.params.pop().unwrap();
        assert(before.drop_last() =~= st.params_view());
        assert(before.last() == e@);
        if !str_is(e.name.as_str(), name) {
            assert(without_param(before, name@) == without_param(st.params_view(), name@).push(e@));
            kept.insert(0, e);
            assert(entries_view(kept@) =~= seq![e@] + acc);
            assert(without_param(st.params_view(), name@).push(e@) + acc
                =~= without_param(st.params_view(), name@) + (seq![e@] + acc));
        } else {
            assert(without_param(before, name@) == without_param(st.params_view(), name@));
        }
    }
    assert(without_param(st.params_view(), name@) =~= Seq::<EntryModel>::empty());
    st.params = kept;
    assert(without_param(pv0, name@) =~= st.params_view());
    proof {
        lemma_without_param_len(pv0, name@);
    }
    if st.params.len() == len_before {
        Err("parameter not found")
    } else {
        Ok(())
    }
}

/// The number of registered parameters.
pub fn param_count(st: &ConfigStore) -> (r: usize)
    ensures
        r == st.params@.len(),
{
    st.params.len()
}

/// `(name, value text)` of the parameters of one category.
pub open spec fn category_listing(ps: Seq<EntryModel>, cat: Category) -> Seq<(Seq<char>, Seq<char>)>
    decreases ps.len(),
{
    if ps.len() == 0 {
        Seq::empty()
    } else {
        let e = ps.last();
        category_listing(ps.drop_last(), cat) + if e.category == cat {
            seq![(e.name, display_text(e.current))]
        } else {
            Seq::empty()
        }
    }
}

/// The parameters of one category with their values.
pub fn params_by_category(st: &ConfigStore, cat: Category) -> (r: Vec<(String, String)>)
    ensures
        pairs_view(r@) == category_listing(st.params_view(), cat),
{
    let n = st.params.len();
    let mut out: Vec<(String, String)> = Vec::new();
    let mut i: usize = 0;
    while i < n
        invariant
            n == st.params@.len(),
            n == st.params_view().len(),
            i <= n,
            pairs_view(out@) == category_listing(st.params_view().subrange(0, i as int), cat),
        decreases n - i,
    {
        let ghost pre = st.params_view().subrange(0, i + 1);
        assert(pre.drop_last() =~= st.params_view().subrange(0, i as int));
        let e = &st.params[i];
        assert(pre.last() == e@);
        let ghost before = pairs_view(out@);
        if e.category == cat {
            out.push((e.name.clone(), e.current.display()));
            assert(pairs_view(out@) =~= before.push((e@.name, display_text(e@.current))));
        }
        i = i + 1;
        assert(pairs_view(out@) =~= category_listing(pre, cat));
    }
    assert(st.params_view().subrange(0, n as int) =~= st.params_view());
    out
}

// ---------------------------------------------------------------------------
// Diff, export and import
// ---------------------------------------------------------------------------

/// Triples of strings as plain values.
pub open spec fn triples_view(v: Seq<(String, String, String)>) -> Seq<(Seq<char>, Seq<char>, Seq<char>)> {
    v.map_values(|t: (String, String, String)| (t.0@, t.1@, t.2@))
}

/// `(name, default text, current text)` of every modified entry.
pub open spec fn diff_of(ps: Seq<EntryModel>) -> Seq<(Seq<char>, Seq<char>, Seq<char>)>
    decreases ps.len(),
{
    if ps.len() == 0 {
        Seq::empty()
    } else {
        let e = ps.last();
        diff_of(ps.drop_last()) + if modified(e) {
            seq![(e.name, display_text(e.default), display_text(e.current))]
        } else {
            Seq::empty()
        }
    }
}

/// The parameters whose value differs from their default.
pub fn config_diff(st: &ConfigStore) -> (r: Vec<(String, String, String)>)
    ensures
        triples_view(r@) == diff_of(st.params_view()),
{
    let n = st.params.len();
    let mut out: Vec<(String, String, String)> = Vec::new();
    let mut i: usize = 0;
    while i < n
        invariant
            n == st.params@.len(),
            n == st.params_view().len(),
            i <= n,
            triples_view(out@) == diff_of(st.params_view().subrange(0, i as int)),
        decreases n - i,
    {
        let ghost pre = st.params_view().subrange(0, i + 1);
        assert(pre.drop_last() =~= st.params_view().subrange(0, i as int));
        let e = &st.params[i];
        assert(pre.last() == e@);
        let ghost before = triples_view(out@);
        if e.is_modified() {
            out.push((e.name.clone(), e.default.display(), e.current.display()));
            assert(triples_view(out@) =~= before.push((e@.name, display_text(e@.default), display_text(e@.current))));
        }
        i = i + 1;
        assert(triples_view(out@) =~= diff_of(pre));
    }
    assert(st.params_view().subrange(0, n as int) =~= st.params_view());
    out
}

/// `name` without its leading `<category>.` (unchanged when it has none).
pub open spec fn strip_prefix_spec(name: Seq<char>, cat: Category) -> Seq<char> {
    let p = category_name(cat);
    if has_prefix(name, p) && name.len() > p.len() && name[p.len() as int] == '.' {
        name.subrange((p.len() + 1) as int, name.len() as int)
    } else {
        name
    }
}

/// Strip the leading category segment from a parameter name
/// (`kernel.hz` in `Kernel` becomes `hz`, `net.tcp.window` in `Network`
/// becomes `tcp.window`).
pub fn strip_category_prefix(name: &str, cat: Category) -> (r: String)
    ensures
        r@ == strip_prefix_spec(name@, cat),
{
    let prefix = cat.name();
    let n = name.unicode_len();
    let m = prefix.unicode_len();
    if starts_with_str(name, prefix) && n > m && name.get_char(m) == '.' {
        string_of(name.substring_char(m + 1, n))
    } else {
        string_of(name)
    }
}

/// The export lines from the entries `ps` on, the previous entry's
/// category being `prev`: a `[category]` header (after a blank line unless
/// it is the first) whenever the category changes, then `key = value`.
pub open spec fn export_lines(ps: Seq<EntryModel>, prev: Option<Category>) -> Seq<char>
    decreases ps.len(),
{
    if ps.len() == 0 {
        Seq::empty()
    } else {
        let e = ps[0];
        let head = if prev != Some(e.category) {
            (if prev is Some { "\n"@ } else { Seq::empty() }) + "["@ + category_name(e.category) + "]\n"@
        } else {
            Seq::empty()
        };
        head + strip_prefix_spec(e.name, e.category) + " = "@ + display_text(e.current) + "\n"@
            + export_lines(ps.drop_first(), Some(e.category))
    }
}

/// The exported configuration text.
pub open spec fn export_text(ps: Seq<EntryModel>) -> Seq<char> {
    "# MerlionOS Extended Configuration\n"@ + "# Generated by kconfig_ext\n\n"@ + export_lines(ps, None)
}

fn push_export_line(out: &mut String, e: &ConfigEntry, prev: Option<Category>)
    ensures
        final(out)@ == old(out)@ + (if prev != Some(e.category) {
            (if prev is Some { "\n"@ } else { Seq::<char>::empty() }) + "["@ + category_name(e.category) + "]\n"@
        } else {
            Seq::<char>::empty()
        }) + strip_prefix_spec(e.name@, e.category) + " = "@ + display_text(e.current@) + "\n"@,
{
    let ghost o = out@;
    let changed = match prev {
        Some(c) => c != e.category,
        None => true,
    };
    let ghost hdr = if prev != Some(e.category) {
        (if prev is Some { "\n"@ } else { Seq::<char>::empty() }) + "["@ + category_name(e.category) + "]\n"@
    } else {
        Seq::<char>::empty()
    };
    if changed {
        if prev.is_some() {
            out.append("\n");
        }
        out.append("[");
        out.append(e.category.name());
        out.append("]\n");
    }
    assert(out@ =~= o + hdr);
    let key = strip_category_prefix(e.name.as_str(), e.category);
    out.append(key.as_str());
    out.append(" = ");
    let v = e.current.display();
    out.append(v.as_str());
    out.append("\n");
}

/// The configuration as TOML-like text: a header comment, then one
/// `[category]` section per run of entries of the same category.
pub fn export_config(st: &ConfigStore) -> (out: String)
    ensures
        out@ == export_text(st.params_view()),
{
    let mut out = string_of("# MerlionOS Extended Configuration\n");
    out.append("# Generated by kconfig_ext\n\n");
    let n = st.params.len();
    let mut prev: Option<Category> = None;
    let mut i: usize = 0;
    assert(st.params_view().subrange(0, n as int) =~= st.params_view());
    while i < n
        invariant
            n == st.params@.len(),
            n == st.params_view().len(),
            i <= n,
            export_text(st.params_view()) == out@ + export_lines(st.params_view().subrange(i as int, n as int), prev),
        decreases n - i,
    {
        let ghost rest = st.params_view().subrange(i as int, n as int);
        assert(rest.drop_first() =~= st.params_view().subrange(i + 1, n as int));
        let e = &st.params[i];
        assert(rest[0] == e@);
        let ghost o = out@;
        push_export_line(&mut out, e, prev);
        prev = Some(e.category);
        i = i + 1;
        assert(o + export_lines(rest, Some(rest[0].category)) == o + export_lines(rest, Some(rest[0].category)));
    }
    assert(st.params_view().subrange(n as int, n as int) =~= Seq::<EntryModel>::empty());
    out
}

/// What an import has done so far: the parameters, the write and error
/// counters, the current `[section]` and how many parameters were set.
pub struct ImportState {
    pub params: Seq<EntryModel>,
    pub writes: u64,
    pub errors: u64,
    pub section: Seq<char>,
    pub updated: nat,
}

/// One line of an import: blank lines and `#` comments are skipped,
/// `[name]` opens a section, and `key = value` writes `section.key` (or
/// `key` outside any section) as `sysctl_write` does.
pub open spec fn import_line(s: ImportState, line: Seq<char>) -> ImportState {
    let t = trimmed(line);
    if t.len() == 0 || t[0] == '#' {
        s
    } else if t[0] == '[' && t.last() == ']' {
        ImportState { section: trimmed(t.subrange(1, t.len() - 1)), ..s }
    } else {
        let eq = char_pos(t, '=', 0);
        if eq >= t.len() {
            s
        } else {
            let key = trimmed(t.subrange(0, eq));
            let value = trimmed(t.subrange(eq + 1, t.len() as int));
            let path = if s.section.len() == 0 { key } else { s.section + "."@ + key };
            match write_result(s.params, path, value) {
                Ok(ps) => ImportState { params: ps, writes: wrap_inc(s.writes), updated: s.updated + 1, ..s },
                Err(_) => ImportState { writes: wrap_inc(s.writes), errors: wrap_inc(s.errors), ..s },
            }
        }
    }
}

/// The lines of an import, in order.
pub open spec fn import_lines(s: ImportState, lines: Seq<Seq<char>>) -> ImportState
    decreases lines.len(),
{
    if lines.len() == 0 {
        s
    } else {
        import_line(import_lines(s, lines.drop_last()), lines.last())
    }
}

/// An import of `content` into the store `st`.
pub open spec fn import_of(st: ConfigStore, content: Seq<char>) -> ImportState {
    import_lines(
        ImportState { params: st.params_view(), writes: st.writes, errors: st.errors, section: Seq::empty(), updated: 0 },
        crate::text::pieces(content, '\n'),
    )
}

/// Import TOML-like text, line by line; unknown keys, read-only
/// parameters and bad values are skipped. Returns how many parameters
/// were set.
pub fn import_config(st: &mut ConfigStore, content: &str) -> (r: u32)
    requires
        old(st).wf(),
        content@.len() < u32::MAX,
    ensures
        final(st).wf(),
        final(st).profiles@ == old(st).profiles@,
        final(st).initialized == old(st).initialized,
        final(st).reads == old(st).reads,
        final(st).profile_applies == old(st).profile_applies,
        ({
            let res = import_of(*old(st), content@);
            &&& final(st).params_view() == res.params
            &&& final(st).writes == res.writes
            &&& final(st).errors == res.errors
            &&& r == res.updated
        }),
{
    let lines = crate::text::split_char(content, '\n');
    let ghost ls = lines@.map_values(|w: String| w@);
    proof {
        crate::text::lemma_pieces_len(content@, '\n', 0, Seq::empty());
    }
    let ghost init = ImportState { params: st.params_view(), writes: st.writes, errors: st.errors, section: Seq::empty(), updated: 0 };
    let mut section = String::new();
    let mut updated: u32 = 0;
    let n = lines.len();
    let mut i: usize = 0;
    while i < n
        invariant
            n == lines@.len(),
            n == ls.len(),
            ls == lines@.map_values(|w: String| w@),
            n <= u32::MAX,
            i <= n,
            updated <= i,
            st.wf(),
            st.profiles@ == old(st).profiles@,
            st.initialized == old(st).initialized,
            st.reads == old(st).reads,
            st.profile_applies == old(st).profile_applies,
            import_lines(init, ls.subrange(0, i as int)) == (ImportState {
                params: st.params_view(), writes: st.writes, errors: st.errors, section: section@, updated: updated as nat }),
        decreases n - i,
    {
        let ghost pre = ls.subrange(0, i + 1);
        assert(pre.drop_last() =~= ls.subrange(0, i as int));
        assert(pre.last() == lines@[i as int]@);
        let t = trim_str(lines[i].as_str());
        let m = t.unicode_len();
        if m == 0 || t.get_char(0) == '#' {
        } else if t.get_char(0) == '[' && t.get_char(m - 1) == ']' {
            section = string_of(trim_str(t.substring_char(1, m - 1)));
        } else {
            let eq = crate::text::first_char_pos(t, '=');
            if eq < m {
                let key = trim_str(t.substring_char(0, eq));
                let value = trim_str(t.substring_char(eq + 1, m));
                let path = if section.unicode_len() == 0 {
                    string_of(key)
                } else {
                    let mut p = section.clone();
                    p.append(".");
                    p.append(key);
                    p
                };
                if sysctl_write(st, path.as_str(), value).is_ok() {
                    updated = updated + 1;
                }
            }
        }
        i = i + 1;
    }
    assert(ls.subrange(0, n as int) =~= ls);
    updated
}

/// How many entries differ from their default.
pub open spec fn count_modified(ps: Seq<EntryModel>) -> nat
    decreases ps.len(),
{
    if ps.len() == 0 { 0 } else { count_modified(ps.drop_last()) + if modified(ps.last()) { 1nat } else { 0nat } }
}

/// How many entries are read-only.
pub open spec fn count_readonly(ps: Seq<EntryModel>) -> nat
    decreases ps.len(),
{
    if ps.len() == 0 { 0 } else { count_readonly(ps.drop_last()) + if ps.last().readonly { 1nat } else { 0nat } }
}

/// The one-line summary of the store.
pub open spec fn config_info_text(st: ConfigStore) -> Seq<char> {
    "kconfig_ext: "@ + dec(st.params@.len()) + " params ("@ + dec(count_modified(st.params_view())) + " modified, "@
        + dec(count_readonly(st.params_view())) + " read-only), "@ + dec(st.profiles@.len()) + " profiles"@
}

fn count_flags(st: &ConfigStore) -> (r: (usize, usize))
    ensures
        r.0 == count_modified(st.params_view()),
        r.1 == count_readonly(st.params_view()),
{
    let n = st.params.len();
    let mut m: usize = 0;
    let mut ro: usize = 0;
    let mut i: usize = 0;
    while i < n
        invariant
            n == st.params@.len(),
            n == st.params_view().len(),
            i <= n,
            m == count_modified(st.params_view().subrange(0, i as int)),
            ro == count_readonly(st.params_view().subrange(0, i as int)),
            m <= i,
            ro <= i,
        decreases n - i,
    {
        let ghost pre = st.params_view().subrange(0, i + 1);
        assert(pre.drop_last() =~= st.params_view().subrange(0, i as int));
        assert(pre.last() == st.params@[i as int]@);
        if st.params[i].is_modified() {
            m = m + 1;
        }
        if st.params[i].readonly {
            ro = ro + 1;
        }
        i = i + 1;
    }
    assert(st.params_view().subrange(0, n as int) =~= st.params_view());
    (m, ro)
}

/// A one-line summary: parameter, modified, read-only and profile counts.
pub fn config_info(st: &ConfigStore) -> (out: String)
    ensures
        out@ == config_info_text(*st),
{
    let (m, ro) = count_flags(st);
    let mut out = string_of("kconfig_ext: ");
    push_dec(&mut out, st.params.len() as u64);
    out.append(" params (");
    push_dec(&mut out, m as u64);
    out.append(" modified, ");
    push_dec(&mut out, ro as u64);
    out.append(" read-only), ");
    push_dec(&mut out, st.profiles.len() as u64);
    out.append(" profiles");
    assert(out@ =~= config_info_text(*st));
    out
}

/// The usage counters as text.
pub open spec fn config_stats_text(st: ConfigStore) -> Seq<char> {
    "kconfig_ext stats: reads="@ + dec(st.reads as nat) + ", writes="@ + dec(st.writes as nat)
        + ", errors="@ + dec(st.errors as nat) + ", profile_applies="@ + dec(st.profile_applies as nat)
}

/// The usage counters as text.
pub fn config_stats(st: &ConfigStore) -> (out: String)
    ensures
        out@ == config_stats_text(*st),
{
    let mut out = string_of("kconfig_ext stats: reads=");
    push_dec(&mut out, st.reads);
    out.append(", writes=");
    push_dec(&mut out, st.writes);
    out.append(", errors=");
    push_dec(&mut out, st.errors);
    out.append(", profile_applies=");
    push_dec(&mut out, st.profile_applies);
    assert(out@ =~= config_stats_text(*st));
    out
}

/// The marker after a row of the dump.
pub open spec fn dump_marker(e: EntryModel) -> Seq<char> {
    if e.readonly { " [ro]"@ } else if modified(e) { " [*]"@ } else { Seq::empty() }
}

/// One row of the dump.
pub open spec fn dump_row(e: EntryModel) -> Seq<char> {
    pad_right(e.name, 30) + " "@ + pad_right(category_name(e.category), 10) + " "@
        + pad_right(display_text(e.current), 12) + " "@ + pad_right(display_text(e.default), 12) + " "@
        + e.description + dump_marker(e) + "\n"@
}

/// The rows of the dump.
pub open spec fn dump_rows(ps: Seq<EntryModel>) -> Seq<char>
    decreases ps.len(),
{
    if ps.len() == 0 { Seq::empty() } else { dump_rows(ps.drop_last()) + dump_row(ps.last()) }
}

/// The dump: a header, a rule of dashes, and one row per parameter.
pub open spec fn dump_text(ps: Seq<EntryModel>) -> Seq<char> {
    pad_right("PARAMETER"@, 30) + " "@ + pad_right("CATEGORY"@, 10) + " "@ + pad_right("CURRENT"@, 12) + " "@
        + pad_right("DEFAULT"@, 12) + " "@ + "DESCRIPTION"@ + "\n"@
        + Seq::new(90, |i: int| '-') + "\n"@ + dump_rows(ps)
}

#[verifier::spinoff_prover]
#[verifier::rlimit(30)]
fn push_dump_row(out: &mut String, e: &ConfigEntry)
    ensures
        final(out)@ == old(out)@ + dump_row(e@),
{
    let ghost o = out@;
    push_padded(out, e.name.as_str(), 30);
    out.append(" ");
    push_padded(out, e.category.name(), 10);
    out.append(" ");
    let cur = e.current.display();
    push_padded(out, cur.as_str(), 12);
    out.append(" ");
    let def = e.default.display();
    push_padded(out, def.as_str(), 12);
    out.append(" ");
    let ghost a = out@.subrange(o.len() as int, out@.len() as int);
    assert(out@ =~= o + a);
    out.append(e.description.as_str());
    if e.readonly {
        out.append(" [ro]");
    } else if e.is_modified() {
        out.append(" [*]");
    }
    out.append("\n");
    assert(out@ =~= o + dump_row(e@));
}

/// Every parameter with category, current and default value, description,
/// and a marker for read-only (`[ro]`) or modified (`[*]`) entries.
pub fn dump_config(st: &ConfigStore) -> (out: String)
    ensures
        out@ == dump_text(st.params_view()),
{
    let mut out = String::new();
    push_padded(&mut out, "PARAMETER", 30);
    out.append(" ");
    push_padded(&mut out, "CATEGORY", 10);
    out.append(" ");
    push_padded(&mut out, "CURRENT", 12);
    out.append(" ");
    push_padded(&mut out, "DEFAULT", 12);
    out.append(" ");
    out.append("DESCRIPTION");
    out.append("\n");
    let ghost h0 = out@;
    let mut k: usize = 0;
    while k < 90
        invariant
            k <= 90,
            out@ == h0 + Seq::new(k as nat, |i: int| '-'),
        decreases 90 - k,
    {
        push_char(&mut out, '-');
        k = k + 1;
        assert(out@ =~= h0 + Seq::new(k as nat, |i: int| '-'));
    }
    out.append("\n");
    let ghost head = out@;
    let n = st.params.len();
    let mut i: usize = 0;
    while i < n
        invariant
            n == st.params@.len(),
            n == st.params_view().len(),
            i <= n,
            out@ == head + dump_rows(st.params_view().subrange(0, i as int)),
        decreases n - i,
    {
        let ghost pre = st.params_view().subrange(0, i + 1);
        assert(pre.drop_last() =~= st.params_view().subrange(0, i as int));
        assert(pre.last() == st.params@[i as int]@);
        push_dump_row(&mut out, &st.params[i]);
        i = i + 1;
        assert(out@ =~= head + dump_rows(pre));
    }
    assert(st.params_view().subrange(0, n as int) =~= st.params_view());
    assert(out@ =~= dump_text(st.params_view()));
    out
}

/// Enum variants separated by `|`.
pub open spec fn join_bar(v: Seq<Seq<char>>) -> Seq<char>
    decreases v.len(),
{
    if v.len() == 0 {
        Seq::empty()
    } else if v.len() == 1 {
        v[0]
    } else {
        join_bar(v.drop_last()) + "|"@ + v.last()
    }
}

/// The text of a parameter type.
pub open spec fn type_text(t: TypeModel) -> Seq<char> {
    match t {
        TypeModel::Bool => "bool"@,
        TypeModel::Integer => "integer"@,
        TypeModel::Str => "string"@,
        TypeModel::Enum(v) => "enum("@ + join_bar(v) + ")"@,
        TypeModel::Range(lo, hi) => "range("@ + sdec(lo as int) + ".."@ + sdec(hi as int) + ")"@,
    }
}

/// The detailed description of an entry.
pub open spec fn describe_text(e: EntryModel) -> Seq<char> {
    "Parameter: "@ + e.name + "\nCategory:  "@ + category_name(e.category) + "\nType:      "@ + type_text(e.ptype)
        + "\nDefault:   "@ + display_text(e.default) + "\nCurrent:   "@ + display_text(e.current)
        + "\nReadonly:  "@ + (if e.readonly { "true"@ } else { "false"@ }) + "\nDescription: "@ + e.description
}

fn push_type_text(out: &mut String, t: &ParamType)
    ensures
        final(out)@ == old(out)@ + type_text(t@),
{
    match t {
        ParamType::Bool => out.append("bool"),
        ParamType::Integer => out.append("integer"),
        ParamType::Str => out.append("string"),
        ParamType::Enum(v) => {
            out.append("enum(");
            let ghost o = out@;
            let ghost names = v@.map_values(|s: String| s@);
            let n = v.len();
            let mut i: usize = 0;
            while i < n
                invariant
                    n == v@.len(),
                    names == v@.map_values(|s: String| s@),
                    i <= n,
                    out@ == o + join_bar(names.subrange(0, i as int)),
                decreases n - i,
            {
                let ghost pre = names.subrange(0, i + 1);
                assert(pre.drop_last() =~= names.subrange(0, i as int));
                if i > 0 {
                    out.append("|");
                }
                out.append(v[i].as_str());
                i = i + 1;
                assert(out@ =~= o + join_bar(pre));
            }
            assert(names.subrange(0, n as int) =~= names);
            out.append(")");
        },
        ParamType::Range(lo, hi) => {
            out.append("range(");
            push_sdec(out, *lo);
            out.append("..");
            push_sdec(out, *hi);
            out.append(")");
        },
    }
}

/// The detailed description of a parameter.
pub fn describe_param(st: &ConfigStore, path: &str) -> (r: Option<String>)
    ensures
        ({
            let ps = st.params_view();
            let i = name_index(ps, path@, 0);
            if i < ps.len() {
                r matches Some(t) && t@ == describe_text(ps[i])
            } else {
                r is None
            }
        }),
{
    let i = find_param(st, path);
    if i >= st.params.len() {
        return None;
    }
    let e = &st.params[i];
    assert(st.params_view()[i as int] == e@);
    let mut out = string_of("Parameter: ");
    out.append(e.name.as_str());
    out.append("\nCategory:  ");
    out.append(e.category.name());
    out.append("\nType:      ");
    push_type_text(&mut out, &e.ptype);
    let ghost o = out@;
    out.append("\nDefault:   ");
    let d = e.default.display();
    out.append(d.as_str());
    out.append("\nCurrent:   ");
    let c = e.current.display();
    out.append(c.as_str());
    out.append("\nReadonly:  ");
    if e.readonly {
        out.append("true");
    } else {
        out.append("false");
    }
    out.append("\nDescription: ");
    out.append(e.description.as_str());
    assert(out@ =~= describe_text(e@));
    Some(out)
}

// ---------------------------------------------------------------------------
// Laws
// ---------------------------------------------------------------------------

/// Whether `v` is a value of type `t` that its own text parses back to:
/// every well-typed value but the integer `i64::MIN`, whose magnitude
/// `parse_i64` cannot read.
pub open spec fn value_fits(v: ValueModel, t: TypeModel) -> bool {
    match t {
        TypeModel::Bool => v is Bool,
        TypeModel::Integer => v matches ValueModel::Integer(n) && n != i64::MIN,
        TypeModel::Str => v is Str,
        TypeModel::Enum(vs) => v matches ValueModel::Str(s) && vs.contains(s),
        TypeModel::Range(lo, hi) => v matches ValueModel::Integer(n) && n != i64::MIN && lo <= n <= hi,
    }
}

/// The decimal text of an integer other than `i64::MIN` parses back to it.
pub proof fn law_int_text_roundtrip(n: i64)
    requires
        n != i64::MIN,
    ensures
        parse_i64_spec(sdec(n as int)) == Some(n),
{
    if n >= 0 {
        let m = n as nat;
        lemma_dec_digits(m);
        let t = dec(m);
        assert('0' <= t[0] <= '9');
        assert('0' <= t[t.len() - 1] <= '9');
        lemma_trimmed_id(t);
        assert(t[0] != '-');
    } else {
        let m = (-n) as nat;
        lemma_dec_digits(m);
        let t = seq!['-'] + dec(m);
        assert(t[0] == '-');
        assert(t[t.len() - 1] == dec(m)[dec(m).len() - 1]);
        assert('0' <= t[t.len() - 1] <= '9');
        lemma_trimmed_id(t);
        assert(t.drop_first() =~= dec(m));
    }
}

/// Reading a value and parsing its text against the value's type gives the
/// value back.
pub proof fn law_display_parse_roundtrip(v: ValueModel, t: TypeModel)
    requires
        value_fits(v, t),
    ensures
        parse_value(display_text(v), t) == Ok::<ValueModel, Seq<char>>(v),
{
    reveal_strlit("true");
    reveal_strlit("false");
    reveal_strlit("1");
    reveal_strlit("yes");
    reveal_strlit("on");
    reveal_strlit("0");
    reveal_strlit("no");
    reveal_strlit("off");
    match v {
        ValueModel::Integer(n) => {
            law_int_text_roundtrip(n);
        },
        _ => {},
    }
}

proof fn lemma_name_index_update(ps: Seq<EntryModel>, path: Seq<char>, i: int, e: EntryModel, j: int)
    requires
        0 <= i < ps.len(),
        e.name == ps[i].name,
    ensures
        name_index(ps.update(i, e), path, j) == name_index(ps, path, j),
    decreases ps.len() - j,
{
    if 0 <= j < ps.len() {
        lemma_name_index_update(ps, path, i, e, j + 1);
    }
}

proof fn lemma_name_index_range(ps: Seq<EntryModel>, path: Seq<char>, j: int)
    requires
        0 <= j,
    ensures
        0 <= name_index(ps, path, j) <= ps.len(),
        name_index(ps, path, j) < ps.len() ==> ps[name_index(ps, path, j)].name == path,
    decreases ps.len() - j,
{
    if j < ps.len() {
        lemma_name_index_range(ps, path, j + 1);
    }
}

/// What a successful `sysctl_write` wrote is what the next `sysctl_read`
/// of that path sees; every other parameter keeps its value; read-only
/// parameters are never written.
pub proof fn law_write_then_read(ps: Seq<EntryModel>, path: Seq<char>, value: Seq<char>)
    ensures
        ({
            let i = name_index(ps, path, 0);
            match write_result(ps, path, value) {
                Ok(ps2) => {
                    &&& i < ps.len() && !ps[i].readonly
                    &&& name_index(ps2, path, 0) == i
                    &&& ps2.len() == ps.len()
                    &&& Ok::<ValueModel, Seq<char>>(ps2[i].current) == parse_value(value, ps[i].ptype)
                    &&& forall|j: int| 0 <= j < ps.len() && j != i ==> ps2[j] == ps[j]
                },
                Err(_) => i < ps.len() && ps[i].readonly ==> write_result(ps, path, value)
                    == Err::<Seq<EntryModel>, Seq<char>>("parameter is read-only"@),
            }
        }),
{
    let i = name_index(ps, path, 0);
    lemma_name_index_range(ps, path, 0);
    if let Ok(ps2) = write_result(ps, path, value) {
        let v = parse_value(value, ps[i].ptype)->Ok_0;
        lemma_name_index_update(ps, path, i, with_current(ps[i], v), 0);
    }
}

/// Writing back the text that a read gave changes nothing, for every
/// writable parameter whose value fits its type.
pub proof fn law_write_back_read(ps: Seq<EntryModel>, path: Seq<char>)
    requires
        name_index(ps, path, 0) < ps.len(),
        !ps[name_index(ps, path, 0)].readonly,
        value_fits(ps[name_index(ps, path, 0)].current, ps[name_index(ps, path, 0)].ptype),
    ensures
        write_result(ps, path, display_text(ps[name_index(ps, path, 0)].current))
            == Ok::<Seq<EntryModel>, Seq<char>>(ps),
{
    let i = name_index(ps, path, 0);
    law_display_parse_roundtrip(ps[i].current, ps[i].ptype);
    lemma_name_index_range(ps, path, 0);
    assert(with_current(ps[i], ps[i].current) == ps[i]);
    assert(ps.update(i, ps[i]) =~= ps);
}

/// `reset_param` forgets any write: after a successful write, a reset
/// gives what a reset would have given before it, and the reset parameter
/// is back at its default.
pub proof fn law_reset_after_write(ps: Seq<EntryModel>, path: Seq<char>, value: Seq<char>)
    requires
        write_result(ps, path, value) is Ok,
    ensures
        reset_result(write_result(ps, path, value)->Ok_0, path) == reset_result(ps, path),
        reset_result(ps, path) matches Ok(ps3) && !modified(ps3[name_index(ps, path, 0)]),
{
    law_write_then_read(ps, path, value);
    lemma_name_index_range(ps, path, 0);
    let i = name_index(ps, path, 0);
    let ps2 = write_result(ps, path, value)->Ok_0;
    let v = parse_value(value, ps[i].ptype)->Ok_0;
    assert(ps2 == ps.update(i, with_current(ps[i], v)));
    assert(ps2.update(i, with_current(ps2[i], ps2[i].default)) =~= ps.update(i, with_current(ps[i], ps[i].default)));
}

} // verus!
