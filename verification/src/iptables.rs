//! Packet filter and NAT: rule chains (INPUT/OUTPUT/FORWARD/PREROUTING/
//! POSTROUTING), connection tracking, SNAT/MASQUERADE mappings, port
//! forwarding, and a shell-like command parser.
use vstd::prelude::*;
use vstd::string::*;
use crate::libc::{wrap_inc, wrap_add, inc_wrapping};
use crate::text::{split_whitespace, split_char, first_char_pos, last_char_pos, char_pos, char_rpos, words, pieces, parse_uint, parse_u64_max, str_eq, string_of, push_char, push_dec, push_padded, push_dec_padded, u64_to_dec, dec, pad_right};

verus! {

pub const MAX_RULES_PER_CHAIN: usize = 128;
pub const MAX_CONNTRACK: usize = 1024;
pub const MAX_NAT_MAPPINGS: usize = 256;
pub const MAX_PORT_FORWARDS: usize = 64;

/// Rule chain.
#[derive(PartialEq, Eq, Structural, Clone, Copy, Debug)]
pub enum Chain {
    Input,
    Output,
    Forward,
    Prerouting,
    Postrouting,
}

pub open spec fn chain_from(s: Seq<char>) -> Option<Chain> {
    if s == "INPUT"@ || s == "input"@ {
        Some(Chain::Input)
    } else if s == "OUTPUT"@ || s == "output"@ {
        Some(Chain::Output)
    } else if s == "FORWARD"@ || s == "forward"@ {
        Some(Chain::Forward)
    } else if s == "PREROUTING"@ || s == "prerouting"@ {
        Some(Chain::Prerouting)
    } else if s == "POSTROUTING"@ || s == "postrouting"@ {
        Some(Chain::Postrouting)
    } else {
        None
    }
}

pub open spec fn chain_name(c: Chain) -> Seq<char> {
    match c {
        Chain::Input => "INPUT"@,
        Chain::Output => "OUTPUT"@,
        Chain::Forward => "FORWARD"@,
        Chain::Prerouting => "PREROUTING"@,
        Chain::Postrouting => "POSTROUTING"@,
    }
}

impl Chain {
    /// Parse a chain name in upper or lower case.
    pub fn from_str(s: &str) -> (r: Option<Chain>)
        ensures
            r == chain_from(s@),
    {
        if str_eq(s, "INPUT") || str_eq(s, "input") {
            Some(Chain::Input)
        } else if str_eq(s, "OUTPUT") || str_eq(s, "output") {
            Some(Chain::Output)
        } else if str_eq(s, "FORWARD") || str_eq(s, "forward") {
            Some(Chain::Forward)
        } else if str_eq(s, "PREROUTING") || str_eq(s, "prerouting") {
            Some(Chain::Prerouting)
        } else if str_eq(s, "POSTROUTING") || str_eq(s, "postrouting") {
            Some(Chain::Postrouting)
        } else {
            None
        }
    }

    /// The chain's upper-case name.
    pub fn name(&self) -> (r: &'static str)
        ensures
            r@ == chain_name(*self),
    {
        match self {
            Chain::Input => "INPUT",
            Chain::Output => "OUTPUT",
            Chain::Forward => "FORWARD",
            Chain::Prerouting => "PREROUTING",
            Chain::Postrouting => "POSTROUTING",
        }
    }
}

/// Network protocol selector.
#[derive(PartialEq, Eq, Structural, Clone, Copy, Debug)]
pub enum Protocol {
    Tcp,
    Udp,
    Icmp,
    Any,
}

pub open spec fn protocol_from(s: Seq<char>) -> Option<Protocol> {
    if s == "tcp"@ || s == "TCP"@ {
        Some(Protocol::Tcp)
    } else if s == "udp"@ || s == "UDP"@ {
        Some(Protocol::Udp)
    } else if s == "icmp"@ || s == "ICMP"@ {
        Some(Protocol::Icmp)
    } else if s == "any"@ || s == "ANY"@ || s == "all"@ {
        Some(Protocol::Any)
    } else {
        None
    }
}

pub open spec fn protocol_name(p: Protocol) -> Seq<char> {
    match p {
        Protocol::Tcp => "tcp"@,
        Protocol::Udp => "udp"@,
        Protocol::Icmp => "icmp"@,
        Protocol::Any => "all"@,
    }
}

impl Protocol {
    /// Parse a protocol name (`all` is an alias of `any`).
    pub fn from_str(s: &str) -> (r: Option<Protocol>)
        ensures
            r == protocol_from(s@),
    {
        if str_eq(s, "tcp") || str_eq(s, "TCP") {
            Some(Protocol::Tcp)
        } else if str_eq(s, "udp") || str_eq(s, "UDP") {
            Some(Protocol::Udp)
        } else if str_eq(s, "icmp") || str_eq(s, "ICMP") {
            Some(Protocol::Icmp)
        } else if str_eq(s, "any") || str_eq(s, "ANY") || str_eq(s, "all") {
            Some(Protocol::Any)
        } else {
            None
        }
    }

    /// The protocol's lower-case name (`all` for any).
    pub fn name(&self) -> (r: &'static str)
        ensures
            r@ == protocol_name(*self),
    {
        match self {
            Protocol::Tcp => "tcp",
            Protocol::Udp => "udp",
            Protocol::Icmp => "icmp",
            Protocol::Any => "all",
        }
    }
}

/// Target action of a rule.
#[derive(PartialEq, Eq, Structural, Clone, Copy, Debug)]
pub enum Target {
    Accept,
    Drop,
    Reject,
    Log,
    Snat,
    Dnat,
    Masquerade,
    Redirect,
}

pub open spec fn target_from(s: Seq<char>) -> Option<Target> {
    if s == "ACCEPT"@ || s == "accept"@ {
        Some(Target::Accept)
    } else if s == "DROP"@ || s == "drop"@ {
        Some(Target::Drop)
    } else if s == "REJECT"@ || s == "reject"@ {
        Some(Target::Reject)
    } else if s == "LOG"@ || s == "log"@ {
        Some(Target::Log)
    } else if s == "SNAT"@ || s == "snat"@ {
        Some(Target::Snat)
    } else if s == "DNAT"@ || s == "dnat"@ {
        Some(Target::Dnat)
    } else if s == "MASQUERADE"@ || s == "masquerade"@ {
        Some(Target::Masquerade)
    } else if s == "REDIRECT"@ || s == "redirect"@ {
        Some(Target::Redirect)
    } else {
        None
    }
}

pub open spec fn target_name(t: Target) -> Seq<char> {
    match t {
        Target::Accept => "ACCEPT"@,
        Target::Drop => "DROP"@,
        Target::Reject => "REJECT"@,
        Target::Log => "LOG"@,
        Target::Snat => "SNAT"@,
        Target::Dnat => "DNAT"@,
        Target::Masquerade => "MASQUERADE"@,
        Target::Redirect => "REDIRECT"@,
    }
}

impl Target {
    /// Parse a target name in upper or lower case.
    pub fn from_str(s: &str) -> (r: Option<Target>)
        ensures
            r == target_from(s@),
    {
        if str_eq(s, "ACCEPT") || str_eq(s, "accept") {
            Some(Target::Accept)
        } else if str_eq(s, "DROP") || str_eq(s, "drop") {
            Some(Target::Drop)
        } else if str_eq(s, "REJECT") || str_eq(s, "reject") {
            Some(Target::Reject)
        } else if str_eq(s, "LOG") || str_eq(s, "log") {
            Some(Target::Log)
        } else if str_eq(s, "SNAT") || str_eq(s, "snat") {
            Some(Target::Snat)
        } else if str_eq(s, "DNAT") || str_eq(s, "dnat") {
            Some(Target::Dnat)
        } else if str_eq(s, "MASQUERADE") || str_eq(s, "masquerade") {
            Some(Target::Masquerade)
        } else if str_eq(s, "REDIRECT") || str_eq(s, "redirect") {
            Some(Target::Redirect)
        } else {
            None
        }
    }

    /// The target's upper-case name.
    pub fn name(&self) -> (r: &'static str)
        ensures
            r@ == target_name(*self),
    {
        match self {
            Target::Accept => "ACCEPT",
            Target::Drop => "DROP",
            Target::Reject => "REJECT",
            Target::Log => "LOG",
            Target::Snat => "SNAT",
            Target::Dnat => "DNAT",
            Target::Masquerade => "MASQUERADE",
            Target::Redirect => "REDIRECT",
        }
    }
}

/// Connection tracking state.
#[derive(PartialEq, Eq, Structural, Clone, Copy, Debug)]
pub enum ConnState {
    New,
    Established,
    Related,
}

pub open spec fn conn_state_name(c: ConnState) -> Seq<char> {
    match c {
        ConnState::New => "NEW"@,
        ConnState::Established => "ESTABLISHED"@,
        ConnState::Related => "RELATED"@,
    }
}

impl ConnState {
    /// The state's upper-case name.
    pub fn name(&self) -> (r: &'static str)
        ensures
            r@ == conn_state_name(*self),
    {
        match self {
            ConnState::New => "NEW",
            ConnState::Established => "ESTABLISHED",
            ConnState::Related => "RELATED",
        }
    }
}

/// Packet direction.
#[derive(PartialEq, Eq, Structural, Clone, Copy, Debug)]
pub enum Direction {
    Inbound,
    Outbound,
    Forwarded,
}

// ---------------------------------------------------------------------------
// Rules
// ---------------------------------------------------------------------------

/// A rule: match criteria (`None` matches anything), a target, NAT
/// rewrites and counters.
pub struct Rule {
    pub num: u32,
    pub target: Target,
    pub protocol: Option<Protocol>,
    pub src_ip: Option<[u8; 4]>,
    pub src_mask: u8,
    pub dst_ip: Option<[u8; 4]>,
    pub dst_mask: u8,
    pub src_port: Option<u16>,
    pub dst_port: Option<u16>,
    pub interface: Option<String>,
    pub nat_src_ip: Option<[u8; 4]>,
    pub nat_dst_ip: Option<[u8; 4]>,
    pub nat_dst_port: Option<u16>,
    pub packets: u64,
    pub bytes: u64,
}

/// The packet a rule is tested against.
pub struct Packet {
    pub proto: Protocol,
    pub src_ip: [u8; 4],
    pub src_port: u16,
    pub dst_ip: [u8; 4],
    pub dst_port: u16,
    pub iface: Seq<char>,
    pub len: u64,
}

/// The four address bytes as a big-endian number.
pub open spec fn be_u32(ip: [u8; 4]) -> u32 {
    (ip[0] as nat * 16777216 + ip[1] as nat * 65536 + ip[2] as nat * 256 + ip[3] as nat) as u32
}

/// Whether `ip` lies in `filter/prefix_len`: prefix 0 matches anything, 32
/// or more asks for equality, otherwise the leading `prefix_len` bits agree.
pub open spec fn ip_in(ip: [u8; 4], filter: [u8; 4], prefix_len: u8) -> bool {
    if prefix_len == 0 {
        true
    } else if prefix_len >= 32 {
        ip == filter
    } else {
        be_u32(ip) >> ((32 - prefix_len) as u32) == be_u32(filter) >> ((32 - prefix_len) as u32)
    }
}

/// Whether a rule matches a packet.
pub open spec fn rule_matches(r: Rule, p: Packet) -> bool {
    &&& (r.protocol matches Some(q) ==> q == Protocol::Any || q == p.proto)
    &&& (r.src_ip matches Some(sip) ==> ip_in(p.src_ip, sip, r.src_mask))
    &&& (r.dst_ip matches Some(dip) ==> ip_in(p.dst_ip, dip, r.dst_mask))
    &&& (r.src_port matches Some(sp) ==> sp == p.src_port)
    &&& (r.dst_port matches Some(dp) ==> dp == p.dst_port)
    &&& (r.interface matches Some(name) ==> name@ == p.iface)
}

fn ip_to_u32(ip: [u8; 4]) -> (r: u32)
    ensures
        r == be_u32(ip),
{
    (ip[0] as u32) * 16777216 + (ip[1] as u32) * 65536 + (ip[2] as u32) * 256 + (ip[3] as u32)
}

pub fn ip_eq(a: [u8; 4], b: [u8; 4]) -> (r: bool)
    ensures
        r == (a == b),
{
    let r = a[0] == b[0] && a[1] == b[1] && a[2] == b[2] && a[3] == b[3];
    if r {
        assert(a =~= b);
    }
    r
}

fn ip_matches(ip: [u8; 4], filter: [u8; 4], prefix_len: u8) -> (r: bool)
    ensures
        r == ip_in(ip, filter, prefix_len),
{
    if prefix_len == 0 {
        return true;
    }
    if prefix_len >= 32 {
        return ip_eq(ip, filter);
    }
    let shift: u32 = (32 - prefix_len) as u32;
    (ip_to_u32(ip) >> shift) == (ip_to_u32(filter) >> shift)
}

impl Rule {
    /// A rule with the given target that matches every packet.
    pub fn new(target: Target) -> (r: Rule)
        ensures
            r == (Rule {
                num: 0,
                target,
                protocol: None,
                src_ip: None,
                src_mask: 0,
                dst_ip: None,
                dst_mask: 0,
                src_port: None,
                dst_port: None,
                interface: None,
                nat_src_ip: None,
                nat_dst_ip: None,
                nat_dst_port: None,
                packets: 0,
                bytes: 0,
            }),
    {
        Rule {
            num: 0,
            target,
            protocol: None,
            src_ip: None,
            src_mask: 0,
            dst_ip: None,
            dst_mask: 0,
            src_port: None,
            dst_port: None,
            interface: None,
            nat_src_ip: None,
            nat_dst_ip: None,
            nat_dst_port: None,
            packets: 0,
            bytes: 0,
        }
    }

    /// Whether a packet matches this rule.
    pub fn matches(&self, proto: Protocol, src_ip: [u8; 4], src_port: u16, dst_ip: [u8; 4], dst_port: u16,
        iface: &str) -> (r: bool)
        ensures
            r == rule_matches(*self, Packet { proto, src_ip, src_port, dst_ip, dst_port, iface: iface@, len: 0 }),
    {
        if let Some(p) = self.protocol {
            if p != Protocol::Any && p != proto {
                return false;
            }
        }
        if let Some(sip) = self.src_ip {
            if !ip_matches(src_ip, sip, self.src_mask) {
                return false;
            }
        }
        if let Some(dip) = self.dst_ip {
            if !ip_matches(dst_ip, dip, self.dst_mask) {
                return false;
            }
        }
        if let Some(sp) = self.src_port {
            if sp != src_port {
                return false;
            }
        }
        if let Some(dp) = self.dst_port {
            if dp != dst_port {
                return false;
            }
        }
        if let Some(iname) = &self.interface {
            if !str_eq(iname.as_str(), iface) {
                return false;
            }
        }
        true
    }
}

// ---------------------------------------------------------------------------
// Chains
// ---------------------------------------------------------------------------

/// A chain of rules with a default policy and counters.
pub struct RuleChain {
    pub chain: Chain,
    pub rules: Vec<Rule>,
    pub policy: Target,
    pub next_num: u32,
    pub total_packets: u64,
    pub total_bytes: u64,
}

/// A chain as plain values.
pub struct ChainModel {
    pub chain: Chain,
    pub rules: Seq<Rule>,
    pub policy: Target,
    pub next_num: u32,
    pub total_packets: u64,
    pub total_bytes: u64,
}

impl RuleChain {
    pub open spec fn model(&self) -> ChainModel {
        ChainModel {
            chain: self.chain,
            rules: self.rules@,
            policy: self.policy,
            next_num: self.next_num,
            total_packets: self.total_packets,
            total_bytes: self.total_bytes,
        }
    }

    fn new(chain: Chain, policy: Target) -> (c: Self)
        ensures
            c.model() == (ChainModel {
                chain,
                rules: Seq::empty(),
                policy,
                next_num: 1,
                total_packets: 0,
                total_bytes: 0,
            }),
    {
        let c = RuleChain { chain, rules: Vec::new(), policy, next_num: 1, total_packets: 0, total_bytes: 0 };
        assert(c.rules@ =~= Seq::<Rule>::empty());
        c
    }
}

/// `x + 1` with 32-bit wrap-around.
pub open spec fn wrap_inc32(x: u32) -> u32 {
    if x == u32::MAX { 0 } else { (x + 1) as u32 }
}

/// A chain after appending `rule` (numbered with the chain's counter), or
/// `None` when the chain is full.
pub open spec fn chain_add(c: ChainModel, rule: Rule) -> Option<ChainModel> {
    if c.rules.len() >= MAX_RULES_PER_CHAIN {
        None
    } else {
        Some(ChainModel { rules: c.rules.push(Rule { num: c.next_num, ..rule }), next_num: wrap_inc32(c.next_num), ..c })
    }
}

/// A chain after inserting `rule` at `index` (clamped to the end).
pub open spec fn chain_insert(c: ChainModel, index: usize, rule: Rule) -> Option<ChainModel> {
    if c.rules.len() >= MAX_RULES_PER_CHAIN {
        None
    } else {
        let idx = if index > c.rules.len() { c.rules.len() as int } else { index as int };
        Some(ChainModel { rules: c.rules.insert(idx, Rule { num: c.next_num, ..rule }), next_num: wrap_inc32(c.next_num), ..c })
    }
}

/// Index of the first rule from `j` on that matches `p`, or the length.
pub open spec fn match_index(rules: Seq<Rule>, p: Packet, j: int) -> int
    decreases rules.len() - j,
{
    if j < 0 || j >= rules.len() {
        rules.len() as int
    } else if rule_matches(rules[j], p) {
        j
    } else {
        match_index(rules, p, j + 1)
    }
}

/// Evaluating a packet against a chain: the first matching rule's target
/// (and that rule's counters go up), or the policy; the chain's own counters
/// always go up.
pub open spec fn eval_chain(c: ChainModel, p: Packet) -> (Target, ChainModel) {
    let k = match_index(c.rules, p, 0);
    let base = ChainModel {
        total_packets: wrap_inc(c.total_packets),
        total_bytes: wrap_add(c.total_bytes, p.len),
        ..c
    };
    if k < c.rules.len() {
        let r = c.rules[k];
        (r.target, ChainModel {
            rules: c.rules.update(k, Rule { packets: wrap_inc(r.packets), bytes: wrap_add(r.bytes, p.len), ..r }),
            ..base
        })
    } else {
        (c.policy, base)
    }
}

impl RuleChain {
    fn add_rule(&mut self, rule: Rule) -> (r: Option<u32>)
        ensures
            match chain_add(old(self).model(), rule) {
                Some(m) => r == Some(old(self).next_num) && final(self).model() == m,
                None => r is None && *final(self) == *old(self),
            },
    {
        if self.rules.len() >= MAX_RULES_PER_CHAIN {
            return None;
        }
        let num = self.next_num;
        self.next_num = if num == u32::MAX { 0 } else { num + 1 };
        let mut rule = rule;
        rule.num = num;
        self.rules.push(rule);
        Some(num)
    }

    fn insert_rule(&mut self, index: usize, rule: Rule) -> (r: Option<u32>)
        ensures
            match chain_insert(old(self).model(), index, rule) {
                Some(m) => r == Some(old(self).next_num) && final(self).model() == m,
                None => r is None && *final(self) == *old(self),
            },
    {
        if self.rules.len() >= MAX_RULES_PER_CHAIN {
            return None;
        }
        let num = self.next_num;
        self.next_num = if num == u32::MAX { 0 } else { num + 1 };
        let mut rule = rule;
        rule.num = num;
        let idx = if index > self.rules.len() { self.rules.len() } else { index };
        self.rules.insert(idx, rule);
        Some(num)
    }

    fn evaluate(&mut self, proto: Protocol, src_ip: [u8; 4], src_port: u16, dst_ip: [u8; 4], dst_port: u16,
        iface: &str, pkt_len: u64) -> (r: Target)
        ensures
            (r, final(self).model()) == eval_chain(old(self).model(),
                Packet { proto, src_ip, src_port, dst_ip, dst_port, iface: iface@, len: pkt_len }),
    {
        let ghost p = Packet { proto, src_ip, src_port, dst_ip, dst_port, iface: iface@, len: pkt_len };
        self.total_packets = inc_wrapping(self.total_packets);
        self.total_bytes = self.total_bytes.wrapping_add(pkt_len);
        let n = self.rules.len();
        let mut j: usize = 0;
        while j < n
            invariant
                n == self.rules@.len(),
                self.rules@ == old(self).rules@,
                p == (Packet { proto, src_ip, src_port, dst_ip, dst_port, iface: iface@, len: pkt_len }),
                self.total_packets == wrap_inc(old(self).total_packets),
                self.total_bytes == wrap_add(old(self).total_bytes, pkt_len),
                self.chain == old(self).chain,
                self.policy == old(self).policy,
                self.next_num == old(self).next_num,
                j <= n,
                match_index(self.rules@, p, 0) == match_index(self.rules@, p, j as int),
            decreases n - j,
        {
            let m = self.rules[j].matches(proto, src_ip, src_port, dst_ip, dst_port, iface);
            assert(m == rule_matches(self.rules@[j as int], p));
            if m {
                let ghost before = self.rules@;
                let mut rule = self.rules.remove(j);
                rule.packets = inc_wrapping(rule.packets);
                rule.bytes = rule.bytes.wrapping_add(pkt_len);
                let t = rule.target;
                self.rules.insert(j, rule);
                assert(self.rules@ =~= before.update(j as int, rule));
                return t;
            }
            j = j + 1;
        }
        self.policy
    }
}

// ---------------------------------------------------------------------------
// Connection tracking
// ---------------------------------------------------------------------------

/// A tracked connection.
#[derive(Clone, Copy)]
pub struct ConntrackEntry {
    pub protocol: Protocol,
    pub src_ip: [u8; 4],
    pub src_port: u16,
    pub dst_ip: [u8; 4],
    pub dst_port: u16,
    pub state: ConnState,
    pub packets: u64,
    pub bytes: u64,
}

pub open spec fn matches_forward(e: ConntrackEntry, p: Packet) -> bool {
    e.protocol == p.proto && e.src_ip == p.src_ip && e.src_port == p.src_port && e.dst_ip == p.dst_ip
        && e.dst_port == p.dst_port
}

pub open spec fn matches_reply(e: ConntrackEntry, p: Packet) -> bool {
    e.protocol == p.proto && e.dst_ip == p.src_ip && e.dst_port == p.src_port && e.src_ip == p.dst_ip
        && e.src_port == p.dst_port
}

/// Index of the first entry from `j` on that is the packet's own flow.
pub open spec fn forward_index(s: Seq<ConntrackEntry>, p: Packet, j: int) -> int
    decreases s.len() - j,
{
    if j < 0 || j >= s.len() {
        s.len() as int
    } else if matches_forward(s[j], p) {
        j
    } else {
        forward_index(s, p, j + 1)
    }
}

/// Index of the first entry from `j` on that the packet replies to.
pub open spec fn reply_index(s: Seq<ConntrackEntry>, p: Packet, j: int) -> int
    decreases s.len() - j,
{
    if j < 0 || j >= s.len() {
        s.len() as int
    } else if matches_reply(s[j], p) {
        j
    } else {
        reply_index(s, p, j + 1)
    }
}

/// Tracking a packet: a known flow counts it (a new flow becomes
/// established); a reply counts it and marks its flow established; otherwise
/// a new entry is made while there is room. Gives the flow's state.
pub open spec fn track_spec(s: Seq<ConntrackEntry>, p: Packet) -> (ConnState, Seq<ConntrackEntry>) {
    let f = forward_index(s, p, 0);
    let r = reply_index(s, p, 0);
    if f < s.len() {
        let e = s[f];
        let st = if e.state == ConnState::New { ConnState::Established } else { e.state };
        (st, s.update(f, ConntrackEntry { packets: wrap_inc(e.packets), bytes: wrap_add(e.bytes, p.len), state: st, ..e }))
    } else if r < s.len() {
        let e = s[r];
        (ConnState::Established, s.update(r, ConntrackEntry {
            packets: wrap_inc(e.packets), bytes: wrap_add(e.bytes, p.len), state: ConnState::Established, ..e }))
    } else if s.len() < MAX_CONNTRACK {
        (ConnState::New, s.push(ConntrackEntry {
            protocol: p.proto, src_ip: p.src_ip, src_port: p.src_port, dst_ip: p.dst_ip, dst_port: p.dst_port,
            state: ConnState::New, packets: 1, bytes: p.len }))
    } else {
        (ConnState::New, s)
    }
}

fn entry_forward(e: &ConntrackEntry, proto: Protocol, src_ip: [u8; 4], src_port: u16, dst_ip: [u8; 4], dst_port: u16) -> (r: bool)
    ensures
        r == (e.protocol == proto && e.src_ip == src_ip && e.src_port == src_port && e.dst_ip == dst_ip
            && e.dst_port == dst_port),
{
    e.protocol == proto && ip_eq(e.src_ip, src_ip) && e.src_port == src_port && ip_eq(e.dst_ip, dst_ip)
        && e.dst_port == dst_port
}

fn entry_reply(e: &ConntrackEntry, proto: Protocol, src_ip: [u8; 4], src_port: u16, dst_ip: [u8; 4], dst_port: u16) -> (r: bool)
    ensures
        r == (e.protocol == proto && e.dst_ip == src_ip && e.dst_port == src_port && e.src_ip == dst_ip
            && e.src_port == dst_port),
{
    e.protocol == proto && ip_eq(e.dst_ip, src_ip) && e.dst_port == src_port && ip_eq(e.src_ip, dst_ip)
        && e.src_port == dst_port
}

fn track(entries: &mut Vec<ConntrackEntry>, proto: Protocol, src_ip: [u8; 4], src_port: u16, dst_ip: [u8; 4],
    dst_port: u16, iface: Ghost<Seq<char>>, pkt_len: u64) -> (r: ConnState)
    ensures
        (r, final(entries)@) == track_spec(old(entries)@,
            Packet { proto, src_ip, src_port, dst_ip, dst_port, iface: iface@, len: pkt_len }),
{
    let ghost p = Packet { proto, src_ip, src_port, dst_ip, dst_port, iface: iface@, len: pkt_len };
    let n = entries.len();
    let mut j: usize = 0;
    while j < n
        invariant
            n == entries@.len(),
            entries@ == old(entries)@,
            p == (Packet { proto, src_ip, src_port, dst_ip, dst_port, iface: iface@, len: pkt_len }),
            j <= n,
            forward_index(entries@, p, 0) == forward_index(entries@, p, j as int),
        decreases n - j,
    {
        let hit = entry_forward(&entries[j], proto, src_ip, src_port, dst_ip, dst_port);
        assert(hit == matches_forward(entries@[j as int], p));
        if hit {
            let mut e = entries[j];
            e.packets = inc_wrapping(e.packets);
            e.bytes = e.bytes.wrapping_add(pkt_len);
            if e.state == ConnState::New {
                e.state = ConnState::Established;
            }
            entries.set(j, e);
            return e.state;
        }
        j = j + 1;
    }
    let mut j: usize = 0;
    while j < n
        invariant
            n == entries@.len(),
            entries@ == old(entries)@,
            p == (Packet { proto, src_ip, src_port, dst_ip, dst_port, iface: iface@, len: pkt_len }),
            forward_index(entries@, p, 0) == n,
            j <= n,
            reply_index(entries@, p, 0) == reply_index(entries@, p, j as int),
        decreases n - j,
    {
        let hit = entry_reply(&entries[j], proto, src_ip, src_port, dst_ip, dst_port);
        assert(hit == matches_reply(entries@[j as int], p));
        if hit {
            let mut e = entries[j];
            e.packets = inc_wrapping(e.packets);
            e.bytes = e.bytes.wrapping_add(pkt_len);
            e.state = ConnState::Established;
            entries.set(j, e);
            return ConnState::Established;
        }
        j = j + 1;
    }
    if entries.len() < MAX_CONNTRACK {
        entries.push(ConntrackEntry {
            protocol: proto,
            src_ip,
            src_port,
            dst_ip,
            dst_port,
            state: ConnState::New,
            packets: 1,
            bytes: pkt_len,
        });
    }
    ConnState::New
}

/// A NAT translation record.
#[derive(Clone, Copy)]
pub struct NatMapping {
    pub original_src_ip: [u8; 4],
    pub original_src_port: u16,
    pub translated_src_ip: [u8; 4],
    pub translated_src_port: u16,
    pub dst_ip: [u8; 4],
    pub dst_port: u16,
    pub protocol: Protocol,
}

/// A port forwarding rule with its counters.
#[derive(Clone, Copy)]
pub struct PortForward {
    pub protocol: Protocol,
    pub external_port: u16,
    pub internal_ip: [u8; 4],
    pub internal_port: u16,
    pub packets: u64,
    pub bytes: u64,
}

// ---------------------------------------------------------------------------
// Engine
// ---------------------------------------------------------------------------

/// The filter engine: the five chains, connection tracking, NAT state and
/// counters.
pub struct IptablesEngine {
    pub input: RuleChain,
    pub output: RuleChain,
    pub forward: RuleChain,
    pub prerouting: RuleChain,
    pub postrouting: RuleChain,
    pub conntrack: Vec<ConntrackEntry>,
    pub nat_mappings: Vec<NatMapping>,
    pub port_forwards: Vec<PortForward>,
    pub masquerade_ip: [u8; 4],
    pub next_nat_port: u16,
    pub total_packets: u64,
    pub total_bytes: u64,
    pub accepted: u64,
    pub dropped: u64,
    pub rejected: u64,
    pub logged: u64,
}

/// The engine as plain values.
pub struct EngineModel {
    pub input: ChainModel,
    pub output: ChainModel,
    pub forward: ChainModel,
    pub prerouting: ChainModel,
    pub postrouting: ChainModel,
    pub conntrack: Seq<ConntrackEntry>,
    pub nat_mappings: Seq<NatMapping>,
    pub port_forwards: Seq<PortForward>,
    pub masquerade_ip: [u8; 4],
    pub next_nat_port: u16,
    pub total_packets: u64,
    pub total_bytes: u64,
    pub accepted: u64,
    pub dropped: u64,
    pub rejected: u64,
    pub logged: u64,
}

impl IptablesEngine {
    pub open spec fn model(&self) -> EngineModel {
        EngineModel {
            input: self.input.model(),
            output: self.output.model(),
            forward: self.forward.model(),
            prerouting: self.prerouting.model(),
            postrouting: self.postrouting.model(),
            conntrack: self.conntrack@,
            nat_mappings: self.nat_mappings@,
            port_forwards: self.port_forwards@,
            masquerade_ip: self.masquerade_ip,
            next_nat_port: self.next_nat_port,
            total_packets: self.total_packets,
            total_bytes: self.total_bytes,
            accepted: self.accepted,
            dropped: self.dropped,
            rejected: self.rejected,
            logged: self.logged,
        }
    }

    /// A fresh engine: every chain empty with policy ACCEPT except FORWARD
    /// (DROP), masquerading as 10.0.2.15, NAT ports from 40000.
    pub fn new() -> (e: Self)
        ensures
            e.model().input == chain_init(Chain::Input, Target::Accept),
            e.model().output == chain_init(Chain::Output, Target::Accept),
            e.model().forward == chain_init(Chain::Forward, Target::Drop),
            e.model().prerouting == chain_init(Chain::Prerouting, Target::Accept),
            e.model().postrouting == chain_init(Chain::Postrouting, Target::Accept),
            e.conntrack@.len() == 0,
            e.nat_mappings@.len() == 0,
            e.port_forwards@.len() == 0,
            e.masquerade_ip == [10u8, 0u8, 2u8, 15u8],
            e.next_nat_port == 40000,
            e.total_packets == 0 && e.total_bytes == 0 && e.accepted == 0 && e.dropped == 0 && e.rejected == 0
                && e.logged == 0,
    {
        IptablesEngine {
            input: RuleChain::new(Chain::Input, Target::Accept),
            output: RuleChain::new(Chain::Output, Target::Accept),
            forward: RuleChain::new(Chain::Forward, Target::Drop),
            prerouting: RuleChain::new(Chain::Prerouting, Target::Accept),
            postrouting: RuleChain::new(Chain::Postrouting, Target::Accept),
            conntrack: Vec::new(),
            nat_mappings: Vec::new(),
            port_forwards: Vec::new(),
            masquerade_ip: [10, 0, 2, 15],
            next_nat_port: 40000,
            total_packets: 0,
            total_bytes: 0,
            accepted: 0,
            dropped: 0,
            rejected: 0,
            logged: 0,
        }
    }
}

/// An empty chain with the given policy.
pub open spec fn chain_init(c: Chain, policy: Target) -> ChainModel {
    ChainModel { chain: c, rules: Seq::empty(), policy, next_num: 1, total_packets: 0, total_bytes: 0 }
}

/// The engine's chain of a given kind.
pub open spec fn chain_of(e: EngineModel, c: Chain) -> ChainModel {
    match c {
        Chain::Input => e.input,
        Chain::Output => e.output,
        Chain::Forward => e.forward,
        Chain::Prerouting => e.prerouting,
        Chain::Postrouting => e.postrouting,
    }
}

/// The engine with chain `c` replaced.
pub open spec fn with_chain(e: EngineModel, c: Chain, m: ChainModel) -> EngineModel {
    match c {
        Chain::Input => EngineModel { input: m, ..e },
        Chain::Output => EngineModel { output: m, ..e },
        Chain::Forward => EngineModel { forward: m, ..e },
        Chain::Prerouting => EngineModel { prerouting: m, ..e },
        Chain::Postrouting => EngineModel { postrouting: m, ..e },
    }
}

impl IptablesEngine {
    fn chain_mut(&mut self, c: Chain) -> (r: &mut RuleChain)
        ensures
            r.model() == chain_of(old(self).model(), c),
            final(self).model() == with_chain(old(self).model(), c, final(r).model()),
            *final(r) == *r ==> *final(self) == *old(self),
    {
        match c {
            Chain::Input => &mut self.input,
            Chain::Output => &mut self.output,
            Chain::Forward => &mut self.forward,
            Chain::Prerouting => &mut self.prerouting,
            Chain::Postrouting => &mut self.postrouting,
        }
    }

    fn chain_ref(&self, c: Chain) -> (r: &RuleChain)
        ensures
            r.model() == chain_of(self.model(), c),
    {
        match c {
            Chain::Input => &self.input,
            Chain::Output => &self.output,
            Chain::Forward => &self.forward,
            Chain::Prerouting => &self.prerouting,
            Chain::Postrouting => &self.postrouting,
        }
    }
}

/// Port forwards after a packet: every matching forward counts it.
pub open spec fn count_forwards(s: Seq<PortForward>, p: Packet) -> Seq<PortForward> {
    s.map_values(|f: PortForward| if f.protocol == p.proto && f.external_port == p.dst_port {
        PortForward { packets: wrap_inc(f.packets), bytes: wrap_add(f.bytes, p.len), ..f }
    } else {
        f
    })
}

/// The next NAT source port: 40000 after 60000, otherwise one more.
pub open spec fn next_port(p: u16) -> u16 {
    if p >= 60000 { 40000 } else { (p + 1) as u16 }
}

/// The counters after the final verdict `t`: DROP, REJECT and LOG have
/// their own counts, everything else counts as accepted.
pub open spec fn count_verdict(e: EngineModel, t: Target) -> EngineModel {
    match t {
        Target::Drop => EngineModel { dropped: wrap_inc(e.dropped), ..e },
        Target::Reject => EngineModel { rejected: wrap_inc(e.rejected), ..e },
        Target::Log => EngineModel { logged: wrap_inc(e.logged), ..e },
        _ => EngineModel { accepted: wrap_inc(e.accepted), ..e },
    }
}

/// Running a packet through the engine: count it, track its connection
/// (established or related traffic is accepted at once), evaluate
/// PREROUTING and the port forwards, then the chain of its direction
/// (forwarded packets are dropped while forwarding is off), then
/// POSTROUTING for outbound and forwarded packets (recording a NAT mapping
/// when it says SNAT or MASQUERADE and there is room), and count the
/// verdict.
pub open spec fn process_spec(e: EngineModel, forwarding: bool, p: Packet, dir: Direction) -> (Target, EngineModel) {
    let e1 = EngineModel { total_packets: wrap_inc(e.total_packets), total_bytes: wrap_add(e.total_bytes, p.len), ..e };
    let (cs, ct) = track_spec(e.conntrack, p);
    let e2 = EngineModel { conntrack: ct, ..e1 };
    if cs == ConnState::Established || cs == ConnState::Related {
        (Target::Accept, EngineModel { accepted: wrap_inc(e2.accepted), ..e2 })
    } else {
        let pre = eval_chain(e2.prerouting, p).1;
        let e3 = EngineModel { prerouting: pre, port_forwards: count_forwards(e2.port_forwards, p), ..e2 };
        if dir == Direction::Forwarded && !forwarding {
            (Target::Drop, EngineModel { dropped: wrap_inc(e3.dropped), ..e3 })
        } else {
            let c = match dir {
                Direction::Inbound => Chain::Input,
                Direction::Outbound => Chain::Output,
                Direction::Forwarded => Chain::Forward,
            };
            let (t, cm) = eval_chain(chain_of(e3, c), p);
            let e4 = with_chain(e3, c, cm);
            let e5 = if dir != Direction::Inbound {
                let (pt, post) = eval_chain(e4.postrouting, p);
                let e5a = EngineModel { postrouting: post, ..e4 };
                if (pt == Target::Masquerade || pt == Target::Snat) && e5a.nat_mappings.len() < MAX_NAT_MAPPINGS {
                    EngineModel {
                        nat_mappings: e5a.nat_mappings.push(NatMapping {
                            original_src_ip: p.src_ip,
                            original_src_port: p.src_port,
                            translated_src_ip: e5a.masquerade_ip,
                            translated_src_port: e5a.next_nat_port,
                            dst_ip: p.dst_ip,
                            dst_port: p.dst_port,
                            protocol: p.proto,
                        }),
                        next_nat_port: next_port(e5a.next_nat_port),
                        ..e5a
                    }
                } else {
                    e5a
                }
            } else {
                e4
            };
            (t, count_verdict(e5, t))
        }
    }
}

fn count_port_forwards(pfs: &mut Vec<PortForward>, proto: Protocol, dst_port: u16, len: u64, p: Ghost<Packet>)
    requires
        p@.proto == proto,
        p@.dst_port == dst_port,
        p@.len == len,
    ensures
        final(pfs)@ == count_forwards(old(pfs)@, p@),
{
    let n = pfs.len();
    let mut j: usize = 0;
    while j < n
        invariant
            n == pfs@.len(),
            n == old(pfs)@.len(),
            p@.proto == proto,
            p@.dst_port == dst_port,
            p@.len == len,
            j <= n,
            forall|q: int| 0 <= q < j ==> pfs@[q] == count_forwards(old(pfs)@, p@)[q],
            forall|q: int| j <= q < n ==> pfs@[q] == old(pfs)@[q],
        decreases n - j,
    {
        let mut f = pfs[j];
        if f.protocol == proto && f.external_port == dst_port {
            f.packets = inc_wrapping(f.packets);
            f.bytes = f.bytes.wrapping_add(len);
        }
        pfs.set(j, f);
        j = j + 1;
    }
    assert(pfs@ =~= count_forwards(old(pfs)@, p@));
}

impl IptablesEngine {
    fn alloc_nat_port(&mut self) -> (port: u16)
        ensures
            port == old(self).next_nat_port,
            final(self).model() == (EngineModel { next_nat_port: next_port(old(self).next_nat_port), ..old(self).model() }),
    {
        let port = self.next_nat_port;
        self.next_nat_port = if self.next_nat_port >= 60000 { 40000 } else { self.next_nat_port + 1 };
        port
    }

    fn process_packet(&mut self, forwarding: bool, proto: Protocol, src_ip: [u8; 4], src_port: u16, dst_ip: [u8; 4],
        dst_port: u16, direction: Direction, iface: &str, pkt_len: u64) -> (r: Target)
        ensures
            (r, final(self).model()) == process_spec(old(self).model(), forwarding,
                Packet { proto, src_ip, src_port, dst_ip, dst_port, iface: iface@, len: pkt_len }, direction),
    {
        let ghost p = Packet { proto, src_ip, src_port, dst_ip, dst_port, iface: iface@, len: pkt_len };
        self.total_packets = inc_wrapping(self.total_packets);
        self.total_bytes = self.total_bytes.wrapping_add(pkt_len);
        let conn_state = track(&mut self.conntrack, proto, src_ip, src_port, dst_ip, dst_port, Ghost(iface@), pkt_len);
        if conn_state == ConnState::Established || conn_state == ConnState::Related {
            self.accepted = inc_wrapping(self.accepted);
            return Target::Accept;
        }
        let _pre_target = self.prerouting.evaluate(proto, src_ip, src_port, dst_ip, dst_port, iface, pkt_len);
        count_port_forwards(&mut self.port_forwards, proto, dst_port, pkt_len, Ghost(p));
        let ghost e3 = self.model();
        let target = match direction {
            Direction::Inbound => self.input.evaluate(proto, src_ip, src_port, dst_ip, dst_port, iface, pkt_len),
            Direction::Outbound => self.output.evaluate(proto, src_ip, src_port, dst_ip, dst_port, iface, pkt_len),
            Direction::Forwarded => {
                if !forwarding {
                    self.dropped = inc_wrapping(self.dropped);
                    return Target::Drop;
                }
                self.forward.evaluate(proto, src_ip, src_port, dst_ip, dst_port, iface, pkt_len)
            },
        };
        let ghost e4 = self.model();
        if direction == Direction::Outbound || direction == Direction::Forwarded {
            let post_target = self.postrouting.evaluate(proto, src_ip, src_port, dst_ip, dst_port, iface, pkt_len);
            if post_target == Target::Masquerade || post_target == Target::Snat {
                if self.nat_mappings.len() < MAX_NAT_MAPPINGS {
                    let translated_port = self.alloc_nat_port();
                    let ip = self.masquerade_ip;
                    self.nat_mappings.push(NatMapping {
                        original_src_ip: src_ip,
                        original_src_port: src_port,
                        translated_src_ip: ip,
                        translated_src_port: translated_port,
                        dst_ip,
                        dst_port,
                        protocol: proto,
                    });
                }
            }
        }
        match target {
            Target::Accept => self.accepted = inc_wrapping(self.accepted),
            Target::Drop => self.dropped = inc_wrapping(self.dropped),
            Target::Reject => self.rejected = inc_wrapping(self.rejected),
            Target::Log => self.logged = inc_wrapping(self.logged),
            _ => self.accepted = inc_wrapping(self.accepted),
        }
        target
    }
}

// ---------------------------------------------------------------------------
// Global state and public API
// ---------------------------------------------------------------------------

/// The subsystem's state: the engine once initialised, the forwarding
/// switch, and a count of every packet offered.
pub struct Iptables {
    pub engine: Option<IptablesEngine>,
    pub forwarding: bool,
    pub global_packets: u64,
}

impl Iptables {
    /// Uninitialised, forwarding off, no packets seen.
    pub fn new() -> (s: Self)
        ensures
            s.engine is None,
            !s.forwarding,
            s.global_packets == 0,
    {
        Iptables { engine: None, forwarding: false, global_packets: 0 }
    }

    /// The engine's model (meaningful when initialised).
    pub open spec fn em(&self) -> EngineModel {
        self.engine->0.model()
    }
}

/// Initialise (or reset) the engine.
pub fn init(ipt: &mut Iptables)
    ensures
        final(ipt).engine is Some,
        final(ipt).em().input == chain_init(Chain::Input, Target::Accept),
        final(ipt).em().output == chain_init(Chain::Output, Target::Accept),
        final(ipt).em().forward == chain_init(Chain::Forward, Target::Drop),
        final(ipt).em().prerouting == chain_init(Chain::Prerouting, Target::Accept),
        final(ipt).em().postrouting == chain_init(Chain::Postrouting, Target::Accept),
        final(ipt).em().conntrack.len() == 0,
        final(ipt).em().nat_mappings.len() == 0,
        final(ipt).em().port_forwards.len() == 0,
        final(ipt).em().masquerade_ip == [10u8, 0u8, 2u8, 15u8],
        final(ipt).em().next_nat_port == 40000,
        final(ipt).em().total_packets == 0 && final(ipt).em().total_bytes == 0,
        final(ipt).em().accepted == 0 && final(ipt).em().dropped == 0,
        final(ipt).em().rejected == 0 && final(ipt).em().logged == 0,
        final(ipt).forwarding == old(ipt).forwarding,
        final(ipt).global_packets == old(ipt).global_packets,
{
    ipt.engine = Some(IptablesEngine::new());
}

/// Append a rule to a chain; gives its number, or `None` when the chain is
/// full or the engine is not initialised.
pub fn add_rule(ipt: &mut Iptables, chain: Chain, rule: Rule) -> (r: Option<u32>)
    ensures
        final(ipt).forwarding == old(ipt).forwarding,
        final(ipt).global_packets == old(ipt).global_packets,
        old(ipt).engine is None ==> r is None && final(ipt).engine is None,
        old(ipt).engine is Some ==> final(ipt).engine is Some && match chain_add(chain_of(old(ipt).em(), chain), rule) {
            Some(m) => r == Some(chain_of(old(ipt).em(), chain).next_num)
                && final(ipt).em() == with_chain(old(ipt).em(), chain, m),
            None => r is None && *final(ipt) == *old(ipt),
        },
{
    match &mut ipt.engine {
        Some(e) => e.chain_mut(chain).add_rule(rule),
        None => None,
    }
}

/// Insert a rule at `index` (clamped to the end of the chain).
pub fn insert_rule(ipt: &mut Iptables, chain: Chain, index: usize, rule: Rule) -> (r: Option<u32>)
    ensures
        final(ipt).forwarding == old(ipt).forwarding,
        final(ipt).global_packets == old(ipt).global_packets,
        old(ipt).engine is None ==> r is None && final(ipt).engine is None,
        old(ipt).engine is Some ==> final(ipt).engine is Some && match chain_insert(chain_of(old(ipt).em(), chain), index, rule) {
            Some(m) => r == Some(chain_of(old(ipt).em(), chain).next_num)
                && final(ipt).em() == with_chain(old(ipt).em(), chain, m),
            None => r is None && *final(ipt) == *old(ipt),
        },
{
    match &mut ipt.engine {
        Some(e) => e.chain_mut(chain).insert_rule(index, rule),
        None => None,
    }
}

/// Delete the rule at position `index` of a chain; false when there is none
/// or the engine is not initialised.
pub fn delete_rule(ipt: &mut Iptables, chain: Chain, index: usize) -> (r: bool)
    ensures
        final(ipt).forwarding == old(ipt).forwarding,
        final(ipt).global_packets == old(ipt).global_packets,
        old(ipt).engine is None ==> !r && final(ipt).engine is None,
        old(ipt).engine is Some ==> final(ipt).engine is Some && ({
            let c = chain_of(old(ipt).em(), chain);
            &&& r == (index < c.rules.len())
            &&& r ==> final(ipt).em() == with_chain(old(ipt).em(), chain, ChainModel { rules: c.rules.remove(index as int), ..c })
            &&& !r ==> *final(ipt) == *old(ipt)
        }),
{
    match &mut ipt.engine {
        Some(e) => {
            let c = e.chain_mut(chain);
            if index < c.rules.len() {
                c.rules.remove(index);
                true
            } else {
                false
            }
        },
        None => false,
    }
}

/// Remove every rule of a chain and reset its counters.
pub fn flush_chain(ipt: &mut Iptables, chain: Chain)
    ensures
        final(ipt).forwarding == old(ipt).forwarding,
        final(ipt).global_packets == old(ipt).global_packets,
        old(ipt).engine is None ==> final(ipt).engine is None,
        old(ipt).engine is Some ==> final(ipt).engine is Some && final(ipt).em() == with_chain(old(ipt).em(), chain,
            ChainModel { rules: Seq::empty(), total_packets: 0, total_bytes: 0, ..chain_of(old(ipt).em(), chain) }),
{
    if let Some(e) = &mut ipt.engine {
        let c = e.chain_mut(chain);
        c.rules.clear();
        c.total_packets = 0;
        c.total_bytes = 0;
    }
}

/// Set the default policy of a chain.
pub fn set_policy(ipt: &mut Iptables, chain: Chain, target: Target)
    ensures
        final(ipt).forwarding == old(ipt).forwarding,
        final(ipt).global_packets == old(ipt).global_packets,
        old(ipt).engine is None ==> final(ipt).engine is None,
        old(ipt).engine is Some ==> final(ipt).engine is Some && final(ipt).em() == with_chain(old(ipt).em(), chain,
            ChainModel { policy: target, ..chain_of(old(ipt).em(), chain) }),
{
    if let Some(e) = &mut ipt.engine {
        let c = e.chain_mut(chain);
        c.policy = target;
    }
}

/// The DNAT rule that a port forward installs in PREROUTING.
pub open spec fn forward_rule(proto: Protocol, external_port: u16, internal_ip: [u8; 4], internal_port: u16) -> Rule {
    Rule {
        num: 0,
        target: Target::Dnat,
        protocol: Some(proto),
        src_ip: None,
        src_mask: 0,
        dst_ip: None,
        dst_mask: 0,
        src_port: None,
        dst_port: Some(external_port),
        interface: None,
        nat_src_ip: None,
        nat_dst_ip: Some(internal_ip),
        nat_dst_port: Some(internal_port),
        packets: 0,
        bytes: 0,
    }
}

/// Add a port forward and its DNAT rule in PREROUTING (the rule is left
/// out when PREROUTING is full). False when the forward table is full or
/// the engine is not initialised.
pub fn forward_port(ipt: &mut Iptables, proto: Protocol, external_port: u16, internal_ip: [u8; 4],
    internal_port: u16) -> (r: bool)
    ensures
        final(ipt).forwarding == old(ipt).forwarding,
        final(ipt).global_packets == old(ipt).global_packets,
        old(ipt).engine is None ==> !r && final(ipt).engine is None,
        old(ipt).engine is Some ==> final(ipt).engine is Some && ({
            let e = old(ipt).em();
            let pre = match chain_add(e.prerouting, forward_rule(proto, external_port, internal_ip, internal_port)) {
                Some(m) => m,
                None => e.prerouting,
            };
            &&& r == (e.port_forwards.len() < MAX_PORT_FORWARDS)
            &&& r ==> final(ipt).em() == (EngineModel {
                port_forwards: e.port_forwards.push(PortForward {
                    protocol: proto, external_port, internal_ip, internal_port, packets: 0, bytes: 0 }),
                prerouting: pre,
                ..e
            })
            &&& !r ==> final(ipt).em() == e
        }),
{
    match &mut ipt.engine {
        Some(e) => {
            if e.port_forwards.len() >= MAX_PORT_FORWARDS {
                return false;
            }
            e.port_forwards.push(PortForward { protocol: proto, external_port, internal_ip, internal_port, packets: 0, bytes: 0 });
            let mut rule = Rule::new(Target::Dnat);
            rule.protocol = Some(proto);
            rule.dst_port = Some(external_port);
            rule.nat_dst_ip = Some(internal_ip);
            rule.nat_dst_port = Some(internal_port);
            let _ = e.prerouting.add_rule(rule);
            true
        },
        None => false,
    }
}

/// Run a packet through the engine (ACCEPT when it is not initialised);
/// every packet is counted globally.
pub fn process_packet(ipt: &mut Iptables, proto: Protocol, src_ip: [u8; 4], src_port: u16, dst_ip: [u8; 4],
    dst_port: u16, direction: Direction, iface: &str, pkt_len: u64) -> (r: Target)
    ensures
        final(ipt).forwarding == old(ipt).forwarding,
        final(ipt).global_packets == wrap_inc(old(ipt).global_packets),
        old(ipt).engine is None ==> r == Target::Accept && final(ipt).engine is None,
        old(ipt).engine is Some ==> final(ipt).engine is Some && (r, final(ipt).em()) == process_spec(old(ipt).em(),
            old(ipt).forwarding, Packet { proto, src_ip, src_port, dst_ip, dst_port, iface: iface@, len: pkt_len },
            direction),
{
    ipt.global_packets = inc_wrapping(ipt.global_packets);
    let forwarding = ipt.forwarding;
    match &mut ipt.engine {
        Some(e) => e.process_packet(forwarding, proto, src_ip, src_port, dst_ip, dst_port, direction, iface, pkt_len),
        None => Target::Accept,
    }
}

/// Turn IP forwarding on.
pub fn enable_forwarding(ipt: &mut Iptables)
    ensures
        final(ipt).forwarding,
        final(ipt).engine == old(ipt).engine,
        final(ipt).global_packets == old(ipt).global_packets,
{
    ipt.forwarding = true;
}

/// Turn IP forwarding off.
pub fn disable_forwarding(ipt: &mut Iptables)
    ensures
        !final(ipt).forwarding,
        final(ipt).engine == old(ipt).engine,
        final(ipt).global_packets == old(ipt).global_packets,
{
    ipt.forwarding = false;
}

/// Whether IP forwarding is on.
pub fn is_forwarding(ipt: &Iptables) -> (r: bool)
    ensures
        r == ipt.forwarding,
{
    ipt.forwarding
}

/// A copy of the connection tracking table (empty when not initialised).
pub fn conntrack_list(ipt: &Iptables) -> (r: Vec<ConntrackEntry>)
    ensures
        ipt.engine is Some ==> r@ == ipt.em().conntrack,
        ipt.engine is None ==> r@.len() == 0,
{
    let mut out: Vec<ConntrackEntry> = Vec::new();
    if let Some(e) = &ipt.engine {
        let n = e.conntrack.len();
        let mut i: usize = 0;
        while i < n
            invariant
                n == e.conntrack@.len(),
                i <= n,
                out@ == e.conntrack@.subrange(0, i as int),
            decreases n - i,
        {
            out.push(e.conntrack[i]);
            i = i + 1;
            assert(out@ =~= e.conntrack@.subrange(0, i as int));
        }
        assert(e.conntrack@.subrange(0, n as int) =~= e.conntrack@);
    }
    out
}

/// Empty the connection tracking table.
pub fn conntrack_flush(ipt: &mut Iptables)
    ensures
        final(ipt).forwarding == old(ipt).forwarding,
        final(ipt).global_packets == old(ipt).global_packets,
        old(ipt).engine is None ==> final(ipt).engine is None,
        old(ipt).engine is Some ==> final(ipt).engine is Some
            && final(ipt).em() == (EngineModel { conntrack: Seq::empty(), ..old(ipt).em() }),
{
    if let Some(e) = &mut ipt.engine {
        e.conntrack.clear();
    }
}

// ---------------------------------------------------------------------------
// Reports
// ---------------------------------------------------------------------------

/// Dotted-quad text of an address.
pub open spec fn ip_text(ip: [u8; 4]) -> Seq<char> {
    dec(ip[0] as nat) + "."@ + dec(ip[1] as nat) + "."@ + dec(ip[2] as nat) + "."@ + dec(ip[3] as nat)
}

fn ip_string(ip: [u8; 4]) -> (r: String)
    ensures
        r@ == ip_text(ip),
{
    let mut out = String::new();
    push_dec(&mut out, ip[0] as u64);
    out.append(".");
    push_dec(&mut out, ip[1] as u64);
    out.append(".");
    push_dec(&mut out, ip[2] as u64);
    out.append(".");
    push_dec(&mut out, ip[3] as u64);
    assert(out@ =~= ip_text(ip));
    out
}

/// The source or destination column of a rule.
pub open spec fn addr_field(ip: Option<[u8; 4]>, mask: u8) -> Seq<char> {
    match ip {
        Some(a) => if mask > 0 && mask < 32 { ip_text(a) + "/"@ + dec(mask as nat) } else { ip_text(a) },
        None => "0.0.0.0/0"@,
    }
}

fn addr_string(ip: Option<[u8; 4]>, mask: u8) -> (r: String)
    ensures
        r@ == addr_field(ip, mask),
{
    match ip {
        Some(a) => {
            let mut out = ip_string(a);
            if mask > 0 && mask < 32 {
                out.append("/");
                push_dec(&mut out, mask as u64);
            }
            out
        },
        None => string_of("0.0.0.0/0"),
    }
}

/// A port column: the number or `*`.
pub open spec fn port_field(p: Option<u16>) -> Seq<char> {
    match p {
        Some(n) => dec(n as nat),
        None => "*"@,
    }
}

fn port_string(p: Option<u16>) -> (r: String)
    ensures
        r@ == port_field(p),
{
    match p {
        Some(n) => u64_to_dec(n as u64),
        None => string_of("*"),
    }
}

/// A padded column followed by a space.
pub open spec fn col(s: Seq<char>, w: nat) -> Seq<char> {
    pad_right(s, w) + " "@
}

fn push_col(out: &mut String, s: &str, w: usize)
    ensures
        final(out)@ == old(out)@ + col(s@, w as nat),
{
    push_padded(out, s, w);
    out.append(" ");
    assert(out@ =~= old(out)@ + col(s@, w as nat));
}

fn push_dec_col(out: &mut String, n: u64, w: usize)
    ensures
        final(out)@ == old(out)@ + col(dec(n as nat), w as nat),
{
    let d = u64_to_dec(n);
    push_col(out, d.as_str(), w);
}

pub open spec fn proto_field(p: Option<Protocol>) -> Seq<char> {
    match p {
        Some(q) => protocol_name(q),
        None => "all"@,
    }
}

pub open spec fn iface_field(i: Option<String>) -> Seq<char> {
    match i {
        Some(s) => s@,
        None => "*"@,
    }
}

pub open spec fn rule_line_a(r: Rule) -> Seq<char> {
    col(dec(r.num as nat), 4) + col(target_name(r.target), 10) + col(proto_field(r.protocol), 5)
}

pub open spec fn rule_line_b(r: Rule) -> Seq<char> {
    col(addr_field(r.src_ip, r.src_mask), 16) + col(addr_field(r.dst_ip, r.dst_mask), 16)
        + col(port_field(r.src_port), 6) + col(port_field(r.dst_port), 6)
}

pub open spec fn rule_line_c(r: Rule) -> Seq<char> {
    col(iface_field(r.interface), 8) + col(dec(r.packets as nat), 6) + dec(r.bytes as nat) + "\n"@
}

/// One row of a chain listing.
pub open spec fn rule_line(r: Rule) -> Seq<char> {
    rule_line_a(r) + rule_line_b(r) + rule_line_c(r)
}

pub open spec fn rule_lines(rs: Seq<Rule>) -> Seq<char>
    decreases rs.len(),
{
    if rs.len() == 0 {
        Seq::empty()
    } else {
        rule_lines(rs.drop_last()) + rule_line(rs.last())
    }
}

fn push_rule_line_a(out: &mut String, r: &Rule)
    ensures
        final(out)@ == old(out)@ + rule_line_a(*r),
{
    push_dec_col(out, r.num as u64, 4);
    push_col(out, r.target.name(), 10);
    let proto = match r.protocol {
        Some(p) => p.name(),
        None => "all",
    };
    push_col(out, proto, 5);
    assert(out@ =~= old(out)@ + rule_line_a(*r));
}

fn push_rule_line_b(out: &mut String, r: &Rule)
    ensures
        final(out)@ == old(out)@ + rule_line_b(*r),
{
    let src = addr_string(r.src_ip, r.src_mask);
    push_col(out, src.as_str(), 16);
    let dst = addr_string(r.dst_ip, r.dst_mask);
    push_col(out, dst.as_str(), 16);
    let sp = port_string(r.src_port);
    push_col(out, sp.as_str(), 6);
    let dp = port_string(r.dst_port);
    push_col(out, dp.as_str(), 6);
    assert(out@ =~= old(out)@ + rule_line_b(*r));
}

fn push_rule_line_c(out: &mut String, r: &Rule)
    ensures
        final(out)@ == old(out)@ + rule_line_c(*r),
{
    match &r.interface {
        Some(i) => push_col(out, i.as_str(), 8),
        None => push_col(out, "*", 8),
    }
    push_dec_col(out, r.packets, 6);
    push_dec(out, r.bytes);
    out.append("\n");
    assert(out@ =~= old(out)@ + rule_line_c(*r));
}

fn push_rule_line(out: &mut String, r: &Rule)
    ensures
        final(out)@ == old(out)@ + rule_line(*r),
{
    push_rule_line_a(out, r);
    push_rule_line_b(out, r);
    push_rule_line_c(out, r);
    assert(out@ =~= old(out)@ + rule_line(*r));
}

/// The column headings of a chain listing.
pub open spec fn rules_header() -> Seq<char> {
    "num  target     prot  source           dest             sport  dport  iface    pkts   bytes\n"@
}

/// Text listing of a chain.
pub open spec fn list_rules_text(c: ChainModel, name: Chain) -> Seq<char> {
    if c.rules.len() == 0 {
        "Chain "@ + chain_name(name) + " (policy "@ + target_name(c.policy) + ", 0 rules)\n"@
    } else {
        "Chain "@ + chain_name(name) + " (policy "@ + target_name(c.policy) + ", "@ + dec(c.rules.len()) + " rules)\n"@
            + rules_header() + rule_lines(c.rules)
    }
}

fn chain_listing(c: &RuleChain, name: Chain) -> (out: String)
    ensures
        out@ == list_rules_text(c.model(), name),
{
    let mut out = string_of("Chain ");
    out.append(name.name());
    out.append(" (policy ");
    out.append(c.policy.name());
    if c.rules.len() == 0 {
        out.append(", 0 rules)\n");
        return out;
    }
    out.append(", ");
    push_dec(&mut out, c.rules.len() as u64);
    out.append(" rules)\n");
    out.append("num  target     prot  source           dest             sport  dport  iface    pkts   bytes\n");
    let ghost head = out@;
    let n = c.rules.len();
    let mut i: usize = 0;
    while i < n
        invariant
            n == c.rules@.len(),
            i <= n,
            out@ == head + rule_lines(c.rules@.subrange(0, i as int)),
        decreases n - i,
    {
        assert(c.rules@.subrange(0, i + 1).drop_last() =~= c.rules@.subrange(0, i as int));
        push_rule_line(&mut out, &c.rules[i]);
        i = i + 1;
    }
    assert(c.rules@.subrange(0, n as int) =~= c.rules@);
    out
}

/// List the rules of a chain.
pub fn list_rules(ipt: &Iptables, chain: Chain) -> (out: String)
    ensures
        ipt.engine is None ==> out@ == "(iptables not initialised)\n"@,
        ipt.engine is Some ==> out@ == list_rules_text(chain_of(ipt.em(), chain), chain),
{
    match &ipt.engine {
        Some(e) => chain_listing(e.chain_ref(chain), chain),
        None => string_of("(iptables not initialised)\n"),
    }
}

/// An address column of the tracking listing: the first three bytes,
/// then the last one padded.
pub open spec fn ct_ip(ip: [u8; 4]) -> Seq<char> {
    dec(ip[0] as nat) + "."@ + dec(ip[1] as nat) + "."@ + dec(ip[2] as nat) + "."@ + col(dec(ip[3] as nat), 8)
}

/// One row of the connection tracking listing.
pub open spec fn conntrack_line(e: ConntrackEntry) -> Seq<char> {
    col(protocol_name(e.protocol), 6) + ct_ip(e.src_ip) + col(dec(e.src_port as nat), 6) + ct_ip(e.dst_ip)
        + col(dec(e.dst_port as nat), 6) + col(conn_state_name(e.state), 12) + col(dec(e.packets as nat), 6)
        + dec(e.bytes as nat) + "\n"@
}

pub open spec fn conntrack_lines(s: Seq<ConntrackEntry>) -> Seq<char>
    decreases s.len(),
{
    if s.len() == 0 {
        Seq::empty()
    } else {
        conntrack_lines(s.drop_last()) + conntrack_line(s.last())
    }
}

fn push_ct_ip(out: &mut String, ip: [u8; 4])
    ensures
        final(out)@ == old(out)@ + ct_ip(ip),
{
    push_dec(out, ip[0] as u64);
    out.append(".");
    push_dec(out, ip[1] as u64);
    out.append(".");
    push_dec(out, ip[2] as u64);
    out.append(".");
    push_dec_col(out, ip[3] as u64, 8);
    assert(out@ =~= old(out)@ + ct_ip(ip));
}

fn push_conntrack_line(out: &mut String, e: &ConntrackEntry)
    ensures
        final(out)@ == old(out)@ + conntrack_line(*e),
{
    push_col(out, e.protocol.name(), 6);
    push_ct_ip(out, e.src_ip);
    push_dec_col(out, e.src_port as u64, 6);
    push_ct_ip(out, e.dst_ip);
    push_dec_col(out, e.dst_port as u64, 6);
    push_col(out, e.state.name(), 12);
    push_dec_col(out, e.packets, 6);
    push_dec(out, e.bytes);
    out.append("\n");
    assert(out@ =~= old(out)@ + conntrack_line(*e));
}

/// The connection tracking report.
pub open spec fn conntrack_info_text(s: Seq<ConntrackEntry>) -> Seq<char> {
    if s.len() == 0 {
        "Connection tracking: 0 entries\n"@
    } else {
        "Connection tracking: "@ + dec(s.len()) + " entries\n"@
            + "proto  src_ip           sport  dst_ip           dport  state        pkts   bytes\n"@
            + conntrack_lines(s)
    }
}

/// Format the connection tracking entries for display.
pub fn conntrack_info(ipt: &Iptables) -> (out: String)
    ensures
        out@ == conntrack_info_text(if ipt.engine is Some { ipt.em().conntrack } else { Seq::empty() }),
{
    let entries = conntrack_list(ipt);
    if entries.len() == 0 {
        return string_of("Connection tracking: 0 entries\n");
    }
    let mut out = string_of("Connection tracking: ");
    push_dec(&mut out, entries.len() as u64);
    out.append(" entries\n");
    out.append("proto  src_ip           sport  dst_ip           dport  state        pkts   bytes\n");
    let ghost head = out@;
    let n = entries.len();
    let mut i: usize = 0;
    while i < n
        invariant
            n == entries@.len(),
            i <= n,
            out@ == head + conntrack_lines(entries@.subrange(0, i as int)),
        decreases n - i,
    {
        assert(entries@.subrange(0, i + 1).drop_last() =~= entries@.subrange(0, i as int));
        push_conntrack_line(&mut out, &entries[i]);
        i = i + 1;
    }
    assert(entries@.subrange(0, n as int) =~= entries@);
    out
}

/// The line of the info report for one chain.
pub open spec fn chain_info_line(c: ChainModel, name: Chain) -> Seq<char> {
    "  "@ + chain_name(name) + ": "@ + dec(c.rules.len()) + " rules, policy "@ + target_name(c.policy) + ", "@
        + dec(c.total_packets as nat) + " pkts / "@ + dec(c.total_bytes as nat) + " bytes\n"@
}

fn push_chain_info(out: &mut String, c: &RuleChain, name: Chain)
    ensures
        final(out)@ == old(out)@ + chain_info_line(c.model(), name),
{
    out.append("  ");
    out.append(name.name());
    out.append(": ");
    push_dec(out, c.rules.len() as u64);
    out.append(" rules, policy ");
    out.append(c.policy.name());
    out.append(", ");
    push_dec(out, c.total_packets);
    out.append(" pkts / ");
    push_dec(out, c.total_bytes);
    out.append(" bytes\n");
    assert(out@ =~= old(out)@ + chain_info_line(c.model(), name));
}

/// The general report.
pub open spec fn iptables_info_text(e: EngineModel, forwarding: bool) -> Seq<char> {
    "iptables - MerlionOS packet filter\n"@
        + "IP forwarding: "@ + (if forwarding { "enabled"@ } else { "disabled"@ }) + "\n"@
        + "Masquerade IP: "@ + ip_text(e.masquerade_ip) + "\n"@
        + "Chains:\n"@
        + chain_info_line(e.input, Chain::Input) + chain_info_line(e.output, Chain::Output)
        + chain_info_line(e.forward, Chain::Forward) + chain_info_line(e.prerouting, Chain::Prerouting)
        + chain_info_line(e.postrouting, Chain::Postrouting)
        + "Conntrack entries: "@ + dec(e.conntrack.len()) + "\n"@
        + "NAT mappings: "@ + dec(e.nat_mappings.len()) + "\n"@
        + "Port forwards: "@ + dec(e.port_forwards.len()) + "\n"@
}

/// General information about the filter.
pub fn iptables_info(ipt: &Iptables) -> (out: String)
    ensures
        ipt.engine is None ==> out@ == "iptables: not initialised\n"@,
        ipt.engine is Some ==> out@ == iptables_info_text(ipt.em(), ipt.forwarding),
{
    let e = match &ipt.engine {
        Some(e) => e,
        None => return string_of("iptables: not initialised\n"),
    };
    let mut out = string_of("iptables - MerlionOS packet filter\n");
    out.append("IP forwarding: ");
    out.append(if ipt.forwarding { "enabled" } else { "disabled" });
    out.append("\n");
    out.append("Masquerade IP: ");
    let ip = ip_string(e.masquerade_ip);
    out.append(ip.as_str());
    out.append("\n");
    out.append("Chains:\n");
    push_chain_info(&mut out, &e.input, Chain::Input);
    push_chain_info(&mut out, &e.output, Chain::Output);
    push_chain_info(&mut out, &e.forward, Chain::Forward);
    push_chain_info(&mut out, &e.prerouting, Chain::Prerouting);
    push_chain_info(&mut out, &e.postrouting, Chain::Postrouting);
    out.append("Conntrack entries: ");
    push_dec(&mut out, e.conntrack.len() as u64);
    out.append("\n");
    out.append("NAT mappings: ");
    push_dec(&mut out, e.nat_mappings.len() as u64);
    out.append("\n");
    out.append("Port forwards: ");
    push_dec(&mut out, e.port_forwards.len() as u64);
    out.append("\n");
    assert(out@ =~= iptables_info_text(e.model(), ipt.forwarding));
    out
}

/// The statistics report.
pub open spec fn iptables_stats_text(e: EngineModel, global: u64) -> Seq<char> {
    "iptables statistics:\n"@
        + "  Total packets: "@ + dec(e.total_packets as nat) + "\n"@
        + "  Total bytes:   "@ + dec(e.total_bytes as nat) + "\n"@
        + "  Accepted:      "@ + dec(e.accepted as nat) + "\n"@
        + "  Dropped:       "@ + dec(e.dropped as nat) + "\n"@
        + "  Rejected:      "@ + dec(e.rejected as nat) + "\n"@
        + "  Logged:        "@ + dec(e.logged as nat) + "\n"@
        + "  Conntrack:     "@ + dec(e.conntrack.len()) + " entries\n"@
        + "  Global pkts:   "@ + dec(global as nat) + "\n"@
}

/// Packet statistics.
pub fn iptables_stats(ipt: &Iptables) -> (out: String)
    ensures
        ipt.engine is None ==> out@ == "iptables: not initialised\n"@,
        ipt.engine is Some ==> out@ == iptables_stats_text(ipt.em(), ipt.global_packets),
{
    let e = match &ipt.engine {
        Some(e) => e,
        None => return string_of("iptables: not initialised\n"),
    };
    let mut out = string_of("iptables statistics:\n");
    out.append("  Total packets: ");
    push_dec(&mut out, e.total_packets);
    out.append("\n");
    out.append("  Total bytes:   ");
    push_dec(&mut out, e.total_bytes);
    out.append("\n");
    out.append("  Accepted:      ");
    push_dec(&mut out, e.accepted);
    out.append("\n");
    out.append("  Dropped:       ");
    push_dec(&mut out, e.dropped);
    out.append("\n");
    out.append("  Rejected:      ");
    push_dec(&mut out, e.rejected);
    out.append("\n");
    out.append("  Logged:        ");
    push_dec(&mut out, e.logged);
    out.append("\n");
    out.append("  Conntrack:     ");
    push_dec(&mut out, e.conntrack.len() as u64);
    out.append(" entries\n");
    out.append("  Global pkts:   ");
    push_dec(&mut out, ipt.global_packets);
    out.append("\n");
    assert(out@ =~= iptables_stats_text(e.model(), ipt.global_packets));
    out
}

// ---------------------------------------------------------------------------
// Command parser
// ---------------------------------------------------------------------------

/// The address of four decimal parts, each at most 255.
pub open spec fn ip_from_parts(parts: Seq<Seq<char>>) -> Option<[u8; 4]> {
    if parts.len() != 4 {
        None
    } else {
        match (parse_uint(parts[0], 255), parse_uint(parts[1], 255), parse_uint(parts[2], 255), parse_uint(parts[3], 255)) {
            (Some(a), Some(b), Some(c), Some(d)) => Some([a as u8, b as u8, c as u8, d as u8]),
            _ => None,
        }
    }
}

/// `a.b.c.d` or `a.b.c.d/m` (mask 32 when absent; any byte value accepted).
pub open spec fn cidr_from(s: Seq<char>) -> Option<([u8; 4], u8)> {
    let k = char_pos(s, '/', 0);
    let ip_str = s.subrange(0, k);
    let mask = if k < s.len() { parse_uint(s.subrange(k + 1, s.len() as int), 255) } else { Some(32nat) };
    match mask {
        None => None,
        Some(m) => match ip_from_parts(pieces(ip_str, '.')) {
            Some(ip) => Some((ip, m as u8)),
            None => None,
        },
    }
}

fn parse_u8(s: &str) -> (r: Option<u8>)
    ensures
        match r {
            Some(v) => parse_uint(s@, 255) == Some(v as nat),
            None => parse_uint(s@, 255) is None,
        },
{
    match parse_u64_max(s, 255) {
        Some(v) => Some(v as u8),
        None => None,
    }
}

fn parse_u16(s: &str) -> (r: Option<u16>)
    ensures
        match r {
            Some(v) => parse_uint(s@, 65535) == Some(v as nat),
            None => parse_uint(s@, 65535) is None,
        },
{
    match parse_u64_max(s, 65535) {
        Some(v) => Some(v as u16),
        None => None,
    }
}

fn parse_usize(s: &str) -> (r: Option<usize>)
    ensures
        match r {
            Some(v) => parse_uint(s@, usize::MAX as nat) == Some(v as nat),
            None => parse_uint(s@, usize::MAX as nat) is None,
        },
{
    match parse_u64_max(s, usize::MAX as u64) {
        Some(v) => Some(v as usize),
        None => None,
    }
}

fn parse_ip_cidr(s: &str) -> (r: Option<([u8; 4], u8)>)
    ensures
        r == cidr_from(s@),
{
    let n = s.unicode_len();
    let k = first_char_pos(s, '/');
    let mask: u8 = if k < n {
        let rest = s.substring_char(k + 1, n);
        match parse_u8(rest) {
            Some(m) => m,
            None => return None,
        }
    } else {
        32
    };
    let ip_str = s.substring_char(0, k);
    let parts = split_char(ip_str, '.');
    proof {
        assert(parts@.len() == pieces(ip_str@, '.').len());
    }
    if parts.len() != 4 {
        return None;
    }
    let ghost ps = pieces(ip_str@, '.');
    assert(parts@[0]@ == ps[0] && parts@[1]@ == ps[1] && parts@[2]@ == ps[2] && parts@[3]@ == ps[3]) by {
        assert(parts@.map_values(|w: String| w@)[0] == parts@[0]@);
        assert(parts@.map_values(|w: String| w@)[1] == parts@[1]@);
        assert(parts@.map_values(|w: String| w@)[2] == parts@[2]@);
        assert(parts@.map_values(|w: String| w@)[3] == parts@[3]@);
    }
    let a = match parse_u8(parts[0].as_str()) { Some(v) => v, None => return None };
    let b = match parse_u8(parts[1].as_str()) { Some(v) => v, None => return None };
    let c = match parse_u8(parts[2].as_str()) { Some(v) => v, None => return None };
    let d = match parse_u8(parts[3].as_str()) { Some(v) => v, None => return None };
    Some(([a, b, c, d], mask))
}

/// The command flag last seen.
#[derive(PartialEq, Eq, Structural, Clone, Copy, Debug)]
pub enum Action {
    Append,
    Insert,
    Delete,
    Flush,
    Policy,
    List,
}

/// A rule as plain values.
pub struct RuleModel {
    pub target: Target,
    pub protocol: Option<Protocol>,
    pub src_ip: Option<[u8; 4]>,
    pub src_mask: u8,
    pub dst_ip: Option<[u8; 4]>,
    pub dst_mask: u8,
    pub src_port: Option<u16>,
    pub dst_port: Option<u16>,
    pub interface: Option<Seq<char>>,
    pub nat_src_ip: Option<[u8; 4]>,
    pub nat_dst_ip: Option<[u8; 4]>,
    pub nat_dst_port: Option<u16>,
    pub packets: u64,
    pub bytes: u64,
}

pub open spec fn rule_model(r: Rule) -> RuleModel {
    RuleModel {
        target: r.target,
        protocol: r.protocol,
        src_ip: r.src_ip,
        src_mask: r.src_mask,
        dst_ip: r.dst_ip,
        dst_mask: r.dst_mask,
        src_port: r.src_port,
        dst_port: r.dst_port,
        interface: match r.interface {
            Some(s) => Some(s@),
            None => None,
        },
        nat_src_ip: r.nat_src_ip,
        nat_dst_ip: r.nat_dst_ip,
        nat_dst_port: r.nat_dst_port,
        packets: r.packets,
        bytes: r.bytes,
    }
}

/// What the parser has collected so far.
pub struct ParseModel {
    pub action: Option<Action>,
    pub chain: Option<Chain>,
    pub index: Option<usize>,
    pub rule: RuleModel,
    pub policy: Option<Target>,
}

pub open spec fn parse_init() -> ParseModel {
    ParseModel {
        action: None,
        chain: None,
        index: None,
        rule: rule_model(Rule {
            num: 0, target: Target::Accept, protocol: None, src_ip: None, src_mask: 0, dst_ip: None, dst_mask: 0,
            src_port: None, dst_port: None, interface: None, nat_src_ip: None, nat_dst_ip: None, nat_dst_port: None,
            packets: 0, bytes: 0 }),
        policy: None,
    }
}

/// The chain named by token `i`, or the chain collected so far when there
/// is no such token.
pub open spec fn chain_arg(t: Seq<Seq<char>>, i: int, p: ParseModel) -> Option<Chain> {
    if i < t.len() { chain_from(t[i]) } else { p.chain }
}

/// Reading the tokens from `i` on.
pub open spec fn parse_from(t: Seq<Seq<char>>, i: int, p: ParseModel) -> ParseModel
    decreases t.len() + 3 - i,
{
    if i < 0 || i >= t.len() {
        p
    } else {
        let tok = t[i];
        let j = i + 1;
        let has = j < t.len();
        if tok == "-A"@ || tok == "--append"@ {
            parse_from(t, j + 1, ParseModel { action: Some(Action::Append), chain: chain_arg(t, j, p), ..p })
        } else if tok == "-I"@ || tok == "--insert"@ || tok == "-D"@ || tok == "--delete"@ {
            let act = if tok == "-I"@ || tok == "--insert"@ { Action::Insert } else { Action::Delete };
            let p2 = ParseModel { action: Some(act), chain: chain_arg(t, j, p), ..p };
            if j + 1 < t.len() && parse_uint(t[j + 1], usize::MAX as nat) is Some {
                parse_from(t, j + 2, ParseModel { index: Some(parse_uint(t[j + 1], usize::MAX as nat)->0 as usize), ..p2 })
            } else {
                parse_from(t, j + 1, p2)
            }
        } else if tok == "-F"@ || tok == "--flush"@ {
            parse_from(t, j + 1, ParseModel { action: Some(Action::Flush), chain: chain_arg(t, j, p), ..p })
        } else if tok == "-P"@ || tok == "--policy"@ {
            let pol = if j + 1 < t.len() { target_from(t[j + 1]) } else { p.policy };
            parse_from(t, j + 2, ParseModel { action: Some(Action::Policy), chain: chain_arg(t, j, p), policy: pol, ..p })
        } else if tok == "-L"@ || tok == "--list"@ {
            parse_from(t, j + 1, ParseModel { action: Some(Action::List), chain: chain_arg(t, j, p), ..p })
        } else if tok == "-s"@ || tok == "--source"@ {
            let r = if has && cidr_from(t[j]) is Some {
                RuleModel { src_ip: Some((cidr_from(t[j])->0).0), src_mask: (cidr_from(t[j])->0).1, ..p.rule }
            } else { p.rule };
            parse_from(t, j + 1, ParseModel { rule: r, ..p })
        } else if tok == "-d"@ || tok == "--destination"@ {
            let r = if has && cidr_from(t[j]) is Some {
                RuleModel { dst_ip: Some((cidr_from(t[j])->0).0), dst_mask: (cidr_from(t[j])->0).1, ..p.rule }
            } else { p.rule };
            parse_from(t, j + 1, ParseModel { rule: r, ..p })
        } else if tok == "-p"@ || tok == "--protocol"@ {
            let r = if has { RuleModel { protocol: protocol_from(t[j]), ..p.rule } } else { p.rule };
            parse_from(t, j + 1, ParseModel { rule: r, ..p })
        } else if tok == "--sport"@ || tok == "--source-port"@ {
            let r = if has {
                RuleModel { src_port: match parse_uint(t[j], 65535) { Some(v) => Some(v as u16), None => None }, ..p.rule }
            } else { p.rule };
            parse_from(t, j + 1, ParseModel { rule: r, ..p })
        } else if tok == "--dport"@ || tok == "--destination-port"@ {
            let r = if has {
                RuleModel { dst_port: match parse_uint(t[j], 65535) { Some(v) => Some(v as u16), None => None }, ..p.rule }
            } else { p.rule };
            parse_from(t, j + 1, ParseModel { rule: r, ..p })
        } else if tok == "-i"@ || tok == "--in-interface"@ {
            let r = if has { RuleModel { interface: Some(t[j]), ..p.rule } } else { p.rule };
            parse_from(t, j + 1, ParseModel { rule: r, ..p })
        } else if tok == "-j"@ || tok == "--jump"@ {
            let r = if has && target_from(t[j]) is Some { RuleModel { target: target_from(t[j])->0, ..p.rule } } else { p.rule };
            parse_from(t, j + 1, ParseModel { rule: r, ..p })
        } else if tok == "--to-source"@ {
            let r = if has && cidr_from(t[j]) is Some {
                RuleModel { nat_src_ip: Some((cidr_from(t[j])->0).0), ..p.rule }
            } else { p.rule };
            parse_from(t, j + 1, ParseModel { rule: r, ..p })
        } else if tok == "--to-destination"@ {
            let r = if has { to_destination(t[j], p.rule) } else { p.rule };
            parse_from(t, j + 1, ParseModel { rule: r, ..p })
        } else {
            parse_from(t, j, p)
        }
    }
}

/// `--to-destination ip[:port]`.
pub open spec fn to_destination(s: Seq<char>, r: RuleModel) -> RuleModel {
    let colon = char_rpos(s, ':', s.len() as int);
    if colon < s.len() {
        let ip = cidr_from(s.subrange(0, colon));
        let r2 = if ip is Some { RuleModel { nat_dst_ip: Some((ip->0).0), ..r } } else { r };
        RuleModel {
            nat_dst_port: match parse_uint(s.subrange(colon + 1, s.len() as int), 65535) {
                Some(v) => Some(v as u16),
                None => None,
            },
            ..r2
        }
    } else if cidr_from(s) is Some {
        RuleModel { nat_dst_ip: Some((cidr_from(s)->0).0), ..r }
    } else {
        r
    }
}

fn step_past(j: usize, n: usize) -> (r: usize)
    ensures
        r == if j < n { j + 1 } else { n as int },
{
    if j < n { j + 1 } else { n }
}

/// The parser's working state.
struct ParseState {
    action: Option<Action>,
    chain: Option<Chain>,
    index: Option<usize>,
    rule: Rule,
    policy: Option<Target>,
}

impl ParseState {
    spec fn model(&self) -> ParseModel {
        ParseModel { action: self.action, chain: self.chain, index: self.index, rule: rule_model(self.rule), policy: self.policy }
    }
}

spec fn is_flag(tok: Seq<char>) -> bool {
    tok == "-A"@ || tok == "--append"@ || tok == "-I"@ || tok == "--insert"@ || tok == "-D"@ || tok == "--delete"@
        || tok == "-F"@ || tok == "--flush"@ || tok == "-P"@ || tok == "--policy"@ || tok == "-L"@ || tok == "--list"@
}

fn chain_at(tokens: &Vec<String>, j: usize, cur: Option<Chain>) -> (r: Option<Chain>)
    ensures
        r == chain_arg(tokens@.map_values(|w: String| w@), j as int,
            ParseModel { chain: cur, ..parse_init() }),
{
    if j < tokens.len() {
        assert(tokens@.map_values(|w: String| w@)[j as int] == tokens@[j as int]@);
        Chain::from_str(tokens[j].as_str())
    } else {
        cur
    }
}

/// One step for a command flag; `None` when the token is not one.
#[verifier::spinoff_prover]
fn step_flag(tokens: &Vec<String>, i: usize, st: &mut ParseState) -> (r: Option<usize>)
    requires
        i < tokens@.len(),
    ensures
        ({
            let t = tokens@.map_values(|w: String| w@);
            match r {
                Some(next) => i < next <= t.len() && final(st).rule == old(st).rule
                    && parse_from(t, i as int, old(st).model()) == parse_from(t, next as int, final(st).model()),
                None => !is_flag(t[i as int]) && *final(st) == *old(st),
            }
        }),
{
    let ghost t = tokens@.map_values(|w: String| w@);
    let n = tokens.len();
    let tok = tokens[i].as_str();
    assert(tok@ == t[i as int]);
    let j = i + 1;
    if str_eq(tok, "-A") || str_eq(tok, "--append") {
        let ghost p0 = old(st).model();
        assert(t[i as int] == "-A"@ || t[i as int] == "--append"@);
        assert(parse_from(t, i as int, p0) == parse_from(t, i + 2,
            ParseModel { action: Some(Action::Append), chain: chain_arg(t, j as int, p0), ..p0 }));
        st.action = Some(Action::Append);
        st.chain = chain_at(tokens, j, st.chain);
        assert(st.chain == chain_arg(t, j as int, p0));
        assert(st.model() == ParseModel { action: Some(Action::Append), chain: chain_arg(t, j as int, p0), ..p0 });
        let next = step_past(j, n);
        assert(parse_from(t, i + 2, st.model()) == parse_from(t, next as int, st.model()));
        Some(next)
    } else if str_eq(tok, "-I") || str_eq(tok, "--insert") || str_eq(tok, "-D") || str_eq(tok, "--delete") {
        let ghost p0 = old(st).model();
        let ins = str_eq(tok, "-I") || str_eq(tok, "--insert");
        st.action = Some(if ins { Action::Insert } else { Action::Delete });
        st.chain = chain_at(tokens, j, st.chain);
        let ghost p2 = ParseModel { action: Some(if ins { Action::Insert } else { Action::Delete }), chain: chain_arg(t, j as int, p0), ..p0 };
        assert(st.model() == p2);
        if n - j > 1 {
            assert(t[j + 1] == tokens@[j + 1]@);
            if let Some(idx) = parse_usize(tokens[j + 1].as_str()) {
                st.index = Some(idx);
                assert(parse_from(t, i as int, p0) == parse_from(t, j + 2, ParseModel { index: Some(idx), ..p2 }));
                assert(st.model() == ParseModel { index: Some(idx), ..p2 });
                return Some(j + 2);
            }
        }
        assert(parse_from(t, i as int, p0) == parse_from(t, j + 1, p2));
        let next = step_past(j, n);
        assert(parse_from(t, j + 1, st.model()) == parse_from(t, next as int, st.model()));
        Some(next)
    } else if str_eq(tok, "-F") || str_eq(tok, "--flush") {
        let ghost p0 = old(st).model();
        st.action = Some(Action::Flush);
        st.chain = chain_at(tokens, j, st.chain);
        let ghost p2 = ParseModel { action: Some(Action::Flush), chain: chain_arg(t, j as int, p0), ..p0 };
        assert(st.model() == p2);
        assert(parse_from(t, i as int, p0) == parse_from(t, j + 1, p2));
        let next = step_past(j, n);
        assert(parse_from(t, j + 1, st.model()) == parse_from(t, next as int, st.model()));
        Some(next)
    } else if str_eq(tok, "-P") || str_eq(tok, "--policy") {
        let ghost p0 = old(st).model();
        st.action = Some(Action::Policy);
        st.chain = chain_at(tokens, j, st.chain);
        if n - j > 1 {
            assert(t[j + 1] == tokens@[j + 1]@);
            st.policy = Target::from_str(tokens[j + 1].as_str());
        }
        let ghost pol = if j + 1 < t.len() { target_from(t[j + 1]) } else { p0.policy };
        let ghost p2 = ParseModel { action: Some(Action::Policy), chain: chain_arg(t, j as int, p0), policy: pol, ..p0 };
        assert(st.model() == p2);
        assert(parse_from(t, i as int, p0) == parse_from(t, j + 2, p2));
        let next = if n - j >= 2 { j + 2 } else { n };
        assert(parse_from(t, j + 2, st.model()) == parse_from(t, next as int, st.model()));
        Some(next)
    } else if str_eq(tok, "-L") || str_eq(tok, "--list") {
        let ghost p0 = old(st).model();
        st.action = Some(Action::List);
        st.chain = chain_at(tokens, j, st.chain);
        let ghost p2 = ParseModel { action: Some(Action::List), chain: chain_arg(t, j as int, p0), ..p0 };
        assert(st.model() == p2);
        assert(parse_from(t, i as int, p0) == parse_from(t, j + 1, p2));
        let next = step_past(j, n);
        assert(parse_from(t, j + 1, st.model()) == parse_from(t, next as int, st.model()));
        Some(next)
    } else {
        None
    }
}

/// One step for a match option; `None` for other tokens.
#[verifier::spinoff_prover]
fn step_option_a(tokens: &Vec<String>, i: usize, st: &mut ParseState) -> (r: Option<usize>)
    requires
        i < tokens@.len(),
        !is_flag(tokens@.map_values(|w: String| w@)[i as int]),
    ensures
        ({
            let t = tokens@.map_values(|w: String| w@);
            let tok = t[i as int];
            match r {
                Some(next) => i < next <= t.len() && final(st).rule.num == old(st).rule.num
                    && parse_from(t, i as int, old(st).model()) == parse_from(t, next as int, final(st).model()),
                None => *final(st) == *old(st) && !(tok == "-s"@ || tok == "--source"@ || tok == "-d"@
                    || tok == "--destination"@ || tok == "-p"@ || tok == "--protocol"@ || tok == "--sport"@
                    || tok == "--source-port"@ || tok == "--dport"@ || tok == "--destination-port"@),
            }
        }),
{
    let ghost t = tokens@.map_values(|w: String| w@);
    let n = tokens.len();
    let tok = tokens[i].as_str();
    assert(tok@ == t[i as int]);
    let j = i + 1;
    if j < n {
        assert(tokens@[j as int]@ == t[j as int]);
    }
    let ghost p0 = old(st).model();
    let ghost has = j < n;
    if str_eq(tok, "-s") || str_eq(tok, "--source") {
        if j < n {
            if let Some((ip, mask)) = parse_ip_cidr(tokens[j].as_str()) {
                st.rule.src_ip = Some(ip);
                st.rule.src_mask = mask;
            }
        }
        let ghost r = if has && cidr_from(t[j as int]) is Some {
                RuleModel { src_ip: Some((cidr_from(t[j as int])->0).0), src_mask: (cidr_from(t[j as int])->0).1, ..p0.rule }
            } else { p0.rule };
        assert(st.model() == ParseModel { rule: r, ..p0 });
        assert(parse_from(t, i as int, p0) == parse_from(t, j + 1, ParseModel { rule: r, ..p0 }));
        let next = step_past(j, n);
        assert(parse_from(t, j + 1, st.model()) == parse_from(t, next as int, st.model()));
        Some(next)
    } else if str_eq(tok, "-d") || str_eq(tok, "--destination") {
        if j < n {
            if let Some((ip, mask)) = parse_ip_cidr(tokens[j].as_str()) {
                st.rule.dst_ip = Some(ip);
                st.rule.dst_mask = mask;
            }
        }
        let ghost r = if has && cidr_from(t[j as int]) is Some {
                RuleModel { dst_ip: Some((cidr_from(t[j as int])->0).0), dst_mask: (cidr_from(t[j as int])->0).1, ..p0.rule }
            } else { p0.rule };
        assert(st.model() == ParseModel { rule: r, ..p0 });
        assert(parse_from(t, i as int, p0) == parse_from(t, j + 1, ParseModel { rule: r, ..p0 }));
        let next = step_past(j, n);
        assert(parse_from(t, j + 1, st.model()) == parse_from(t, next as int, st.model()));
        Some(next)
    } else if str_eq(tok, "-p") || str_eq(tok, "--protocol") {
        if j < n { st.rule.protocol = Protocol::from_str(tokens[j].as_str()); }
        let ghost r = if has { RuleModel { protocol: protocol_from(t[j as int]), ..p0.rule } } else { p0.rule };
        assert(st.model() == ParseModel { rule: r, ..p0 });
        assert(parse_from(t, i as int, p0) == parse_from(t, j + 1, ParseModel { rule: r, ..p0 }));
        let next = step_past(j, n);
        assert(parse_from(t, j + 1, st.model()) == parse_from(t, next as int, st.model()));
        Some(next)
    } else if str_eq(tok, "--sport") || str_eq(tok, "--source-port") {
        if j < n { st.rule.src_port = parse_u16(tokens[j].as_str()); }
        let ghost r = if has {
                RuleModel { src_port: match parse_uint(t[j as int], 65535) { Some(v) => Some(v as u16), None => None }, ..p0.rule }
            } else { p0.rule };
        assert(st.model() == ParseModel { rule: r, ..p0 });
        assert(parse_from(t, i as int, p0) == parse_from(t, j + 1, ParseModel { rule: r, ..p0 }));
        let next = step_past(j, n);
        assert(parse_from(t, j + 1, st.model()) == parse_from(t, next as int, st.model()));
        Some(next)
    } else if str_eq(tok, "--dport") || str_eq(tok, "--destination-port") {
        if j < n { st.rule.dst_port = parse_u16(tokens[j].as_str()); }
        let ghost r = if has {
                RuleModel { dst_port: match parse_uint(t[j as int], 65535) { Some(v) => Some(v as u16), None => None }, ..p0.rule }
            } else { p0.rule };
        assert(st.model() == ParseModel { rule: r, ..p0 });
        assert(parse_from(t, i as int, p0) == parse_from(t, j + 1, ParseModel { rule: r, ..p0 }));
        let next = step_past(j, n);
        assert(parse_from(t, j + 1, st.model()) == parse_from(t, next as int, st.model()));
        Some(next)
    } else {
        None
    }
}

/// One step for a target option or an unknown token.
#[verifier::spinoff_prover]
fn step_option_b(tokens: &Vec<String>, i: usize, st: &mut ParseState) -> (next: usize)
    requires
        i < tokens@.len(),
        !is_flag(tokens@.map_values(|w: String| w@)[i as int]),
        ({
            let tok = tokens@.map_values(|w: String| w@)[i as int];
            !(tok == "-s"@ || tok == "--source"@ || tok == "-d"@ || tok == "--destination"@ || tok == "-p"@
                || tok == "--protocol"@ || tok == "--sport"@ || tok == "--source-port"@ || tok == "--dport"@
                || tok == "--destination-port"@)
        }),
    ensures
        ({
            let t = tokens@.map_values(|w: String| w@);
            &&& i < next <= t.len()
            &&& final(st).rule.num == old(st).rule.num
            &&& parse_from(t, i as int, old(st).model()) == parse_from(t, next as int, final(st).model())
        }),
{
    let ghost t = tokens@.map_values(|w: String| w@);
    let n = tokens.len();
    let tok = tokens[i].as_str();
    assert(tok@ == t[i as int]);
    let j = i + 1;
    if j < n {
        assert(tokens@[j as int]@ == t[j as int]);
    }
    let ghost p0 = old(st).model();
    let ghost has = j < n;
    if str_eq(tok, "-i") || str_eq(tok, "--in-interface") {
        if j < n { st.rule.interface = Some(string_of(tokens[j].as_str())); }
        let ghost r = if has { RuleModel { interface: Some(t[j as int]), ..p0.rule } } else { p0.rule };
        assert(st.model() == ParseModel { rule: r, ..p0 });
        assert(parse_from(t, i as int, p0) == parse_from(t, j + 1, ParseModel { rule: r, ..p0 }));
        let next = step_past(j, n);
        assert(parse_from(t, j + 1, st.model()) == parse_from(t, next as int, st.model()));
        next
    } else if str_eq(tok, "-j") || str_eq(tok, "--jump") {
        if j < n {
            if let Some(tg) = Target::from_str(tokens[j].as_str()) {
                st.rule.target = tg;
            }
        }
        let ghost r = if has && target_from(t[j as int]) is Some { RuleModel { target: target_from(t[j as int])->0, ..p0.rule } } else { p0.rule };
        assert(st.model() == ParseModel { rule: r, ..p0 });
        assert(parse_from(t, i as int, p0) == parse_from(t, j + 1, ParseModel { rule: r, ..p0 }));
        let next = step_past(j, n);
        assert(parse_from(t, j + 1, st.model()) == parse_from(t, next as int, st.model()));
        next
    } else if str_eq(tok, "--to-source") {
        if j < n {
            if let Some((ip, _)) = parse_ip_cidr(tokens[j].as_str()) {
                st.rule.nat_src_ip = Some(ip);
            }
        }
        let ghost r = if has && cidr_from(t[j as int]) is Some {
                RuleModel { nat_src_ip: Some((cidr_from(t[j as int])->0).0), ..p0.rule }
            } else { p0.rule };
        assert(st.model() == ParseModel { rule: r, ..p0 });
        assert(parse_from(t, i as int, p0) == parse_from(t, j + 1, ParseModel { rule: r, ..p0 }));
        let next = step_past(j, n);
        assert(parse_from(t, j + 1, st.model()) == parse_from(t, next as int, st.model()));
        next
    } else if str_eq(tok, "--to-destination") {
        if j < n {
            set_to_destination(&mut st.rule, tokens[j].as_str());
        }
        let ghost r = if has { to_destination(t[j as int], p0.rule) } else { p0.rule };
        assert(st.model() == ParseModel { rule: r, ..p0 });
        assert(parse_from(t, i as int, p0) == parse_from(t, j + 1, ParseModel { rule: r, ..p0 }));
        let next = step_past(j, n);
        assert(parse_from(t, j + 1, st.model()) == parse_from(t, next as int, st.model()));
        next
    } else {
        assert(parse_from(t, i as int, p0) == parse_from(t, j as int, p0));
        j
    }
}

fn parse_tokens(tokens: &Vec<String>, start: usize) -> (r: (Option<Action>, Option<Chain>, Option<usize>, Rule, Option<Target>))
    requires
        start <= tokens@.len(),
    ensures
        ({
            let t = tokens@.map_values(|w: String| w@);
            let p = parse_from(t, start as int, parse_init());
            &&& r.0 == p.action
            &&& r.1 == p.chain
            &&& r.2 == p.index
            &&& rule_model(r.3) == p.rule
            &&& r.4 == p.policy
            &&& r.3.num == 0
        }),
{
    let ghost t = tokens@.map_values(|w: String| w@);
    let n = tokens.len();
    let mut i: usize = start;
    let mut st = ParseState { action: None, chain: None, index: None, rule: Rule::new(Target::Accept), policy: None };
    assert(st.model() == parse_init());
    while i < n
        invariant
            n == tokens@.len(),
            t == tokens@.map_values(|w: String| w@),
            i <= n,
            st.rule.num == 0,
            parse_from(t, start as int, parse_init()) == parse_from(t, i as int, st.model()),
        decreases n - i,
    {
        let ghost i0 = i;
        match step_flag(tokens, i, &mut st) {
            Some(next) => {
                i = next;
            },
            None => {
                match step_option_a(tokens, i, &mut st) {
                    Some(next) => {
                        i = next;
                    },
                    None => {
                        i = step_option_b(tokens, i, &mut st);
                    },
                }
            },
        }
        assert(i > i0);
    }
    (st.action, st.chain, st.index, st.rule, st.policy)
}

fn set_to_destination(rule: &mut Rule, s: &str)
    ensures
        rule_model(*final(rule)) == to_destination(s@, rule_model(*old(rule))),
        final(rule).num == old(rule).num,
{
    let n = s.unicode_len();
    let colon = last_char_pos(s, ':');
    if colon < n {
        if let Some((ip, _)) = parse_ip_cidr(s.substring_char(0, colon)) {
            rule.nat_dst_ip = Some(ip);
        }
        rule.nat_dst_port = parse_u16(s.substring_char(colon + 1, n));
    } else if let Some((ip, _)) = parse_ip_cidr(s) {
        rule.nat_dst_ip = Some(ip);
    }
}

/// The rule that a chain gained at position `pos`: numbered with the
/// chain's counter and described by `rm`; everything else as before.
pub open spec fn gained_rule(c: ChainModel, c2: ChainModel, pos: int, rm: RuleModel) -> bool {
    &&& 0 <= pos < c2.rules.len()
    &&& c2.rules.remove(pos) == c.rules
    &&& rule_model(c2.rules[pos]) == rm
    &&& c2.rules[pos].num == c.next_num
    &&& c2 == (ChainModel { rules: c2.rules, next_num: wrap_inc32(c.next_num), ..c })
}

/// The listing that `-L` without a chain gives.
pub open spec fn list_all_text(ipt: Iptables) -> Seq<char> {
    list_text(ipt, Chain::Input) + "\n"@ + list_text(ipt, Chain::Output) + "\n"@ + list_text(ipt, Chain::Forward)
        + "\n"@ + list_text(ipt, Chain::Prerouting) + "\n"@ + list_text(ipt, Chain::Postrouting) + "\n"@
}

/// What `list_rules` gives for a chain.
pub open spec fn list_text(ipt: Iptables, c: Chain) -> Seq<char> {
    if ipt.engine is None {
        "(iptables not initialised)\n"@
    } else {
        list_rules_text(chain_of(ipt.em(), c), c)
    }
}

pub open spec fn is_ok(r: Result<String, String>, text: Seq<char>) -> bool {
    r matches Ok(x) && x@ == text
}

pub open spec fn is_err(r: Result<String, String>, text: Seq<char>) -> bool {
    r matches Err(x) && x@ == text
}

/// The effect and answer of a parsed command on the filter state `o`
/// (`n` after the call, `r` the answer).
pub open spec fn command_effect(o: Iptables, n: Iptables, p: ParseModel, r: Result<String, String>) -> bool {
    let unchanged = n == o;
    match p.action {
        Some(Action::Append) => match p.chain {
            None => is_err(r, "no chain specified"@) && unchanged,
            Some(ch) => if o.engine is Some && chain_of(o.em(), ch).rules.len() < MAX_RULES_PER_CHAIN {
                let c = chain_of(o.em(), ch);
                &&& is_ok(r, "Rule "@ + dec(c.next_num as nat) + " added to "@ + chain_name(ch))
                &&& n.engine is Some && n.forwarding == o.forwarding && n.global_packets == o.global_packets
                &&& n.em() == with_chain(o.em(), ch, chain_of(n.em(), ch))
                &&& gained_rule(c, chain_of(n.em(), ch), c.rules.len() as int, p.rule)
            } else {
                is_err(r, "failed to add rule (chain full or not initialised)"@) && unchanged
            },
        },
        Some(Action::Insert) => match p.chain {
            None => is_err(r, "no chain specified"@) && unchanged,
            Some(ch) => {
                let idx = match p.index { Some(k) => k, None => 0 };
                if o.engine is Some && chain_of(o.em(), ch).rules.len() < MAX_RULES_PER_CHAIN {
                    let c = chain_of(o.em(), ch);
                    let pos = if idx > c.rules.len() { c.rules.len() as int } else { idx as int };
                    &&& is_ok(r, "Rule "@ + dec(c.next_num as nat) + " inserted into "@ + chain_name(ch) + " at "@
                        + dec(idx as nat))
                    &&& n.engine is Some && n.forwarding == o.forwarding && n.global_packets == o.global_packets
                    &&& n.em() == with_chain(o.em(), ch, chain_of(n.em(), ch))
                    &&& gained_rule(c, chain_of(n.em(), ch), pos, p.rule)
                } else {
                    is_err(r, "failed to insert rule"@) && unchanged
                }
            },
        },
        Some(Action::Delete) => match (p.chain, p.index) {
            (None, _) => is_err(r, "no chain specified"@) && unchanged,
            (Some(_), None) => is_err(r, "no rule index specified"@) && unchanged,
            (Some(ch), Some(idx)) => if o.engine is Some && idx < chain_of(o.em(), ch).rules.len() {
                let c = chain_of(o.em(), ch);
                &&& is_ok(r, "Rule deleted from "@ + chain_name(ch) + " at index "@ + dec(idx as nat))
                &&& n.engine is Some && n.forwarding == o.forwarding && n.global_packets == o.global_packets
                &&& n.em() == with_chain(o.em(), ch, ChainModel { rules: c.rules.remove(idx as int), ..c })
            } else {
                is_err(r, "no rule at index "@ + dec(idx as nat) + " in "@ + chain_name(ch)) && unchanged
            },
        },
        Some(Action::Flush) => match p.chain {
            None => is_err(r, "no chain specified"@) && unchanged,
            Some(ch) => {
                &&& is_ok(r, "Flushed chain "@ + chain_name(ch))
                &&& n.forwarding == o.forwarding && n.global_packets == o.global_packets
                &&& (o.engine is None ==> n.engine is None)
                &&& (o.engine is Some ==> n.engine is Some && n.em() == with_chain(o.em(), ch,
                    ChainModel { rules: Seq::empty(), total_packets: 0, total_bytes: 0, ..chain_of(o.em(), ch) }))
            },
        },
        Some(Action::Policy) => match (p.chain, p.policy) {
            (None, _) => is_err(r, "no chain specified"@) && unchanged,
            (Some(_), None) => is_err(r, "no target specified"@) && unchanged,
            (Some(ch), Some(tg)) => {
                &&& is_ok(r, "Policy for "@ + chain_name(ch) + " set to "@ + target_name(tg))
                &&& n.forwarding == o.forwarding && n.global_packets == o.global_packets
                &&& (o.engine is None ==> n.engine is None)
                &&& (o.engine is Some ==> n.engine is Some && n.em() == with_chain(o.em(), ch,
                    ChainModel { policy: tg, ..chain_of(o.em(), ch) }))
            },
        },
        Some(Action::List) => unchanged && match p.chain {
            Some(ch) => is_ok(r, list_text(o, ch)),
            None => is_ok(r, list_all_text(o)),
        },
        None => is_err(r, "Usage: iptables -A|-I|-D|-F|-P|-L CHAIN [options] [-j TARGET]"@) && unchanged,
    }
}

/// What a command line does: an empty line or a lone `iptables` is
/// refused; otherwise the parsed command takes effect.
pub open spec fn command_spec(cmd: Seq<char>, o: Iptables, n: Iptables, r: Result<String, String>) -> bool {
    let t = words(cmd);
    if t.len() == 0 {
        is_err(r, "empty command"@) && n == o
    } else {
        let start: int = if t[0] == "iptables"@ { 1 } else { 0 };
        if start >= t.len() {
            is_err(r, "no arguments"@) && n == o
        } else {
            command_effect(o, n, parse_from(t, start, parse_init()), r)
        }
    }
}

fn err_text(s: &str) -> (r: Result<String, String>)
    ensures
        is_err(r, s@),
{
    Err(string_of(s))
}

fn do_append(ipt: &mut Iptables, chain: Option<Chain>, rule: Rule, p: Ghost<ParseModel>) -> (r: Result<String, String>)
    requires
        p@.action == Some(Action::Append),
        p@.chain == chain,
        p@.rule == rule_model(rule),
    ensures
        command_effect(*old(ipt), *final(ipt), p@, r),
{
    let ghost o = *ipt;
    let ch = match chain {
        Some(c) => c,
        None => return err_text("no chain specified"),
    };
    match add_rule(ipt, ch, rule) {
        Some(num) => {
            proof {
                let c = chain_of(o.em(), ch);
                let c2 = chain_of(ipt.em(), ch);
                assert(c2.rules.remove(c.rules.len() as int) =~= c.rules);
                assert(rule_model(c2.rules[c.rules.len() as int]) == rule_model(rule));
            }
            let mut out = string_of("Rule ");
            push_dec(&mut out, num as u64);
            out.append(" added to ");
            out.append(ch.name());
            Ok(out)
        },
        None => err_text("failed to add rule (chain full or not initialised)"),
    }
}

/// Run a shell-like command, e.g. `iptables -A INPUT -s 192.168.1.0/24 -p
/// tcp --dport 80 -j ACCEPT`. `-A`/`-I`/`-D`/`-F`/`-P`/`-L` pick the
/// action (the last one given wins); unknown flags are skipped.
pub fn parse_command(ipt: &mut Iptables, cmd: &str) -> (r: Result<String, String>)
    ensures
        command_spec(cmd@, *old(ipt), *final(ipt), r),
{
    let tokens = split_whitespace(cmd);
    let ghost t = tokens@.map_values(|w: String| w@);
    assert(t == words(cmd@));
    if tokens.len() == 0 {
        return err_text("empty command");
    }
    assert(t[0] == tokens@[0]@);
    let start: usize = if str_eq(tokens[0].as_str(), "iptables") { 1 } else { 0 };
    if start >= tokens.len() {
        return err_text("no arguments");
    }
    let (action, chain, insert_idx, rule, policy_target) = parse_tokens(&tokens, start);
    run_command(ipt, action, chain, insert_idx, rule, policy_target, Ghost(parse_from(t, start as int, parse_init())))
}

fn run_command(ipt: &mut Iptables, action: Option<Action>, chain: Option<Chain>, insert_idx: Option<usize>, rule: Rule,
    policy_target: Option<Target>, p: Ghost<ParseModel>) -> (r: Result<String, String>)
    requires
        p@.action == action,
        p@.chain == chain,
        p@.index == insert_idx,
        p@.rule == rule_model(rule),
        p@.policy == policy_target,
        rule.num == 0,
    ensures
        command_effect(*old(ipt), *final(ipt), p@, r),
{
    let ghost o = *ipt;
    match action {
        Some(Action::Append) => do_append(ipt, chain, rule, p),
        Some(Action::Insert) => {
            let ch = match chain {
                Some(c) => c,
                None => return err_text("no chain specified"),
            };
            let idx = match insert_idx {
                Some(k) => k,
                None => 0,
            };
            match insert_rule(ipt, ch, idx, rule) {
                Some(num) => {
                    proof {
                        let c = chain_of(o.em(), ch);
                        let c2 = chain_of(ipt.em(), ch);
                        let pos = if idx > c.rules.len() { c.rules.len() as int } else { idx as int };
                        assert(c2.rules.remove(pos) =~= c.rules);
                    }
                    let mut out = string_of("Rule ");
                    push_dec(&mut out, num as u64);
                    out.append(" inserted into ");
                    out.append(ch.name());
                    out.append(" at ");
                    push_dec(&mut out, idx as u64);
                    Ok(out)
                },
                None => err_text("failed to insert rule"),
            }
        },
        Some(Action::Delete) => {
            let ch = match chain {
                Some(c) => c,
                None => return err_text("no chain specified"),
            };
            let idx = match insert_idx {
                Some(k) => k,
                None => return err_text("no rule index specified"),
            };
            if delete_rule(ipt, ch, idx) {
                let mut out = string_of("Rule deleted from ");
                out.append(ch.name());
                out.append(" at index ");
                push_dec(&mut out, idx as u64);
                Ok(out)
            } else {
                let mut out = string_of("no rule at index ");
                push_dec(&mut out, idx as u64);
                out.append(" in ");
                out.append(ch.name());
                Err(out)
            }
        },
        Some(Action::Flush) => {
            let ch = match chain {
                Some(c) => c,
                None => return err_text("no chain specified"),
            };
            flush_chain(ipt, ch);
            let mut out = string_of("Flushed chain ");
            out.append(ch.name());
            Ok(out)
        },
        Some(Action::Policy) => {
            let ch = match chain {
                Some(c) => c,
                None => return err_text("no chain specified"),
            };
            let tgt = match policy_target {
                Some(t) => t,
                None => return err_text("no target specified"),
            };
            set_policy(ipt, ch, tgt);
            let mut out = string_of("Policy for ");
            out.append(ch.name());
            out.append(" set to ");
            out.append(tgt.name());
            Ok(out)
        },
        Some(Action::List) => {
            match chain {
                Some(ch) => Ok(list_rules(ipt, ch)),
                None => {
                    let mut out = String::new();
                    let a = list_rules(ipt, Chain::Input);
                    out.append(a.as_str());
                    out.append("\n");
                    let b = list_rules(ipt, Chain::Output);
                    out.append(b.as_str());
                    out.append("\n");
                    let c = list_rules(ipt, Chain::Forward);
                    out.append(c.as_str());
                    out.append("\n");
                    let d = list_rules(ipt, Chain::Prerouting);
                    out.append(d.as_str());
                    out.append("\n");
                    let e = list_rules(ipt, Chain::Postrouting);
                    out.append(e.as_str());
                    out.append("\n");
                    assert(out@ =~= list_all_text(*ipt));
                    Ok(out)
                },
            }
        },
        None => err_text("Usage: iptables -A|-I|-D|-F|-P|-L CHAIN [options] [-j TARGET]"),
    }
}


// ---------------------------------------------------------------------------
// Laws
// ---------------------------------------------------------------------------

/// Deleting the rule that `add_rule` just appended gives back the chain's
/// rules as they were.
pub proof fn law_add_then_delete(c: ChainModel, rule: Rule)
    requires
        chain_add(c, rule) is Some,
    ensures
        chain_add(c, rule)->0.rules.len() == c.rules.len() + 1,
        chain_add(c, rule)->0.rules.remove(c.rules.len() as int) == c.rules,
{
    assert(chain_add(c, rule)->0.rules.remove(c.rules.len() as int) =~= c.rules);
}

/// First match wins: a rule put in front of a chain decides every packet
/// it matches, whatever the rules behind it say.
pub proof fn law_front_rule_decides(c: ChainModel, rule: Rule, p: Packet)
    requires
        chain_insert(c, 0, rule) is Some,
        rule_matches(rule, p),
    ensures
        eval_chain(chain_insert(c, 0, rule)->0, p).0 == rule.target,
{
    let m = chain_insert(c, 0, rule)->0;
    assert(m.rules[0] == Rule { num: c.next_num, ..rule });
    assert(match_index(m.rules, p, 0) == 0);
}

/// A chain whose rules match nothing, an empty or flushed one in
/// particular, answers every packet with its policy; evaluation never adds
/// or removes rules.
pub proof fn law_no_match_gives_policy(c: ChainModel, p: Packet)
    requires
        forall|j: int| 0 <= j < c.rules.len() ==> !rule_matches(#[trigger] c.rules[j], p),
    ensures
        eval_chain(c, p).0 == c.policy,
        eval_chain(c, p).1.rules == c.rules,
{
    lemma_no_match_index(c.rules, p, 0);
}

proof fn lemma_no_match_index(rules: Seq<Rule>, p: Packet, j: int)
    requires
        0 <= j,
        forall|i: int| 0 <= i < rules.len() ==> !rule_matches(#[trigger] rules[i], p),
    ensures
        match_index(rules, p, j) == rules.len(),
    decreases rules.len() - j,
{
    if j < rules.len() {
        lemma_no_match_index(rules, p, j + 1);
    }
}

/// Evaluation keeps the number of rules of a chain, its policy and its
/// rule counter.
pub proof fn law_eval_keeps_rules(c: ChainModel, p: Packet)
    ensures
        eval_chain(c, p).1.rules.len() == c.rules.len(),
        eval_chain(c, p).1.policy == c.policy,
        eval_chain(c, p).1.next_num == c.next_num,
{
    lemma_match_index_range(c.rules, p, 0);
}

proof fn lemma_match_index_range(rules: Seq<Rule>, p: Packet, j: int)
    requires
        0 <= j,
    ensures
        0 <= match_index(rules, p, j) <= rules.len(),
    decreases rules.len() - j,
{
    if j < rules.len() {
        lemma_match_index_range(rules, p, j + 1);
    }
}

/// Whether `q` belongs to the flow of `p`, in either direction.
pub open spec fn same_flow(p: Packet, q: Packet) -> bool {
    &&& q.proto == p.proto
    &&& (q.src_ip == p.src_ip && q.src_port == p.src_port && q.dst_ip == p.dst_ip && q.dst_port == p.dst_port)
        || (q.src_ip == p.dst_ip && q.src_port == p.dst_port && q.dst_ip == p.src_ip && q.dst_port == p.src_port)
}

proof fn lemma_forward_index_none(s: Seq<ConntrackEntry>, p: Packet, e: ConntrackEntry, j: int)
    requires
        0 <= j <= s.len(),
        forall|k: int| j <= k < s.len() ==> !matches_forward(#[trigger] s[k], p),
    ensures
        forward_index(s.push(e), p, j) == if matches_forward(e, p) { s.len() as int } else { s.len() as int + 1 },
    decreases s.len() - j,
{
    if j < s.len() {
        assert(s.push(e)[j] == s[j]);
        assert(!matches_forward(s[j], p));
        lemma_forward_index_none(s, p, e, j + 1);
    } else {
        assert(s.push(e)[j] == e);
        assert(forward_index(s.push(e), p, j + 1) == s.len() + 1);
    }
}

proof fn lemma_reply_index_none(s: Seq<ConntrackEntry>, p: Packet, e: ConntrackEntry, j: int)
    requires
        0 <= j <= s.len(),
        forall|k: int| j <= k < s.len() ==> !matches_reply(#[trigger] s[k], p),
    ensures
        reply_index(s.push(e), p, j) == if matches_reply(e, p) { s.len() as int } else { s.len() as int + 1 },
    decreases s.len() - j,
{
    if j < s.len() {
        assert(s.push(e)[j] == s[j]);
        assert(!matches_reply(s[j], p));
        lemma_reply_index_none(s, p, e, j + 1);
    } else {
        assert(s.push(e)[j] == e);
        assert(reply_index(s.push(e), p, j + 1) == s.len() + 1);
    }
}

proof fn lemma_forward_index_found(s: Seq<ConntrackEntry>, p: Packet, j: int)
    requires
        0 <= j,
        forward_index(s, p, j) == s.len(),
    ensures
        forall|k: int| j <= k < s.len() ==> !matches_forward(#[trigger] s[k], p),
    decreases s.len() - j,
{
    if j < s.len() {
        lemma_forward_index_found(s, p, j + 1);
    }
}

proof fn lemma_reply_index_found(s: Seq<ConntrackEntry>, p: Packet, j: int)
    requires
        0 <= j,
        reply_index(s, p, j) == s.len(),
    ensures
        forall|k: int| j <= k < s.len() ==> !matches_reply(#[trigger] s[k], p),
    decreases s.len() - j,
{
    if j < s.len() {
        lemma_reply_index_found(s, p, j + 1);
    }
}

/// The first packet of an unknown flow makes a new entry (state new, one
/// packet, its length in bytes) while the table has room; the next packet
/// of that flow, in either direction, finds it established, counts itself
/// in it and adds no entry.
pub proof fn law_conntrack_new_then_established(s: Seq<ConntrackEntry>, p: Packet, q: Packet)
    requires
        forward_index(s, p, 0) == s.len(),
        reply_index(s, p, 0) == s.len(),
        s.len() < MAX_CONNTRACK,
        same_flow(p, q),
    ensures
        ({
            let (st1, s1) = track_spec(s, p);
            let (st2, s2) = track_spec(s1, q);
            let n = s.len() as int;
            &&& st1 == ConnState::New
            &&& s1.len() == n + 1 && s1.subrange(0, n) == s
            &&& s1[n].state == ConnState::New && s1[n].packets == 1 && s1[n].bytes == p.len
            &&& st2 == ConnState::Established
            &&& s2.len() == n + 1 && s2.subrange(0, n) == s
            &&& s2[n].state == ConnState::Established && s2[n].packets == 2
            &&& s2[n].bytes == crate::libc::wrap_add(p.len, q.len)
        }),
{
    let n = s.len() as int;
    let e = ConntrackEntry {
        protocol: p.proto, src_ip: p.src_ip, src_port: p.src_port, dst_ip: p.dst_ip, dst_port: p.dst_port,
        state: ConnState::New, packets: 1, bytes: p.len };
    let (st1, s1) = track_spec(s, p);
    assert(s1 == s.push(e));
    assert(s1.subrange(0, n) =~= s);
    lemma_forward_index_found(s, p, 0);
    lemma_reply_index_found(s, p, 0);
    assert forall|k: int| 0 <= k < n implies !matches_forward(#[trigger] s[k], q) by {
        if q.src_ip == p.src_ip && q.src_port == p.src_port && q.dst_ip == p.dst_ip && q.dst_port == p.dst_port {
            assert(!matches_forward(s[k], p));
        } else {
            assert(!matches_reply(s[k], p));
        }
    }
    assert forall|k: int| 0 <= k < n implies !matches_reply(#[trigger] s[k], q) by {
        if q.src_ip == p.src_ip && q.src_port == p.src_port && q.dst_ip == p.dst_ip && q.dst_port == p.dst_port {
            assert(!matches_reply(s[k], p));
        } else {
            assert(!matches_forward(s[k], p));
        }
    }
    lemma_forward_index_none(s, q, e, 0);
    lemma_reply_index_none(s, q, e, 0);
    let (st2, s2) = track_spec(s1, q);
    assert(s2.subrange(0, n) =~= s);
}

/// The network mask of a prefix length from 1 to 31: that many leading one
/// bits.
pub open spec fn net_mask(len: u8) -> u32 {
    0xFFFF_FFFFu32 << ((32 - len) as u32)
}

/// For a prefix length strictly between 0 and 32, an address lies in
/// `filter/len` exactly when it agrees with the filter on the bits of the
/// network mask (its leading `len` bits); a rule whose only condition is a
/// source filter matches exactly the packets whose source address does.
pub proof fn law_prefix_is_network_mask(ip: [u8; 4], filter: [u8; 4], len: u8, r: Rule, p: Packet)
    requires
        0 < len < 32,
    ensures
        ip_in(ip, filter, len) <==> (be_u32(ip) & net_mask(len)) == (be_u32(filter) & net_mask(len)),
        r.protocol is None && r.dst_ip is None && r.src_port is None && r.dst_port is None && r.interface is None
            && r.src_ip == Some(filter) && r.src_mask == len
            ==> (rule_matches(r, p) <==> (be_u32(p.src_ip) & net_mask(len)) == (be_u32(filter) & net_mask(len))),
{
    let s: u32 = (32 - len) as u32;
    let x = be_u32(ip);
    let y = be_u32(filter);
    assert((x >> s == y >> s) <==> ((x & (0xFFFF_FFFFu32 << s)) == (y & (0xFFFF_FFFFu32 << s)))) by (bit_vector)
        requires 1 <= s <= 31;
    let x2 = be_u32(p.src_ip);
    assert((x2 >> s == y >> s) <==> ((x2 & (0xFFFF_FFFFu32 << s)) == (y & (0xFFFF_FFFFu32 << s)))) by (bit_vector)
        requires 1 <= s <= 31;
}

/// An address's number is big-endian: its first byte is the most
/// significant.
pub proof fn law_be_u32_big_endian(ip: [u8; 4])
    ensures
        be_u32(ip) / 16777216 == ip[0],
        (be_u32(ip) / 65536) % 256 == ip[1],
        (be_u32(ip) / 256) % 256 == ip[2],
        be_u32(ip) % 256 == ip[3],
{
    let a = ip[0] as int;
    let b = ip[1] as int;
    let c = ip[2] as int;
    let d = ip[3] as int;
    let v = a * 16777216 + b * 65536 + c * 256 + d;
    assert(v < 0x1_0000_0000);
    assert(be_u32(ip) == v);
    assert(v / 16777216 == a && (v / 65536) % 256 == b && (v / 256) % 256 == c && v % 256 == d) by (nonlinear_arith)
        requires v == a * 16777216 + b * 65536 + c * 256 + d, 0 <= a < 256, 0 <= b < 256, 0 <= c < 256, 0 <= d < 256;
}

} // verus!
