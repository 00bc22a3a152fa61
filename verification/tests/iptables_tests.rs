use merlion_kernel::iptables::{
    add_rule, conntrack_flush, conntrack_info, conntrack_list, delete_rule, disable_forwarding,
    enable_forwarding, flush_chain, forward_port, init, insert_rule, iptables_info, iptables_stats,
    is_forwarding, list_rules, parse_command, process_packet, set_policy, Chain, Direction, Iptables, Protocol,
    Rule, Target,
};

fn engine() -> Iptables {
    let mut ipt = Iptables::new();
    init(&mut ipt);
    ipt
}

#[test]
fn chain_and_target_names() {
    assert_eq!(Chain::from_str("INPUT"), Some(Chain::Input));
    assert_eq!(Chain::from_str("postrouting"), Some(Chain::Postrouting));
    assert_eq!(Chain::from_str("bogus"), None);
    assert_eq!(Chain::Forward.name(), "FORWARD");
    assert_eq!(Target::from_str("drop"), Some(Target::Drop));
    assert_eq!(Target::Masquerade.name(), "MASQUERADE");
    assert_eq!(Protocol::from_str("tcp"), Some(Protocol::Tcp));
}

#[test]
fn rule_matching_with_cidr() {
    let mut r = Rule::new(Target::Drop);
    r.src_ip = Some([192, 168, 1, 0]);
    r.src_mask = 24;
    r.protocol = Some(Protocol::Tcp);
    r.dst_port = Some(80);
    assert!(r.matches(Protocol::Tcp, [192, 168, 1, 77], 1234, [10, 0, 0, 1], 80, "eth0"));
    assert!(!r.matches(Protocol::Tcp, [192, 168, 2, 77], 1234, [10, 0, 0, 1], 80, "eth0"));
    assert!(!r.matches(Protocol::Udp, [192, 168, 1, 77], 1234, [10, 0, 0, 1], 80, "eth0"));
    assert!(!r.matches(Protocol::Tcp, [192, 168, 1, 77], 1234, [10, 0, 0, 1], 81, "eth0"));
    assert!(Rule::new(Target::Accept).matches(Protocol::Icmp, [1, 2, 3, 4], 0, [5, 6, 7, 8], 0, "lo"));
}

#[test]
fn uninitialised_engine_accepts() {
    let mut ipt = Iptables::new();
    assert_eq!(add_rule(&mut ipt, Chain::Input, Rule::new(Target::Drop)), None);
    assert!(!delete_rule(&mut ipt, Chain::Input, 0));
    let t = process_packet(&mut ipt, Protocol::Tcp, [1, 1, 1, 1], 1, [2, 2, 2, 2], 2, Direction::Inbound, "eth0", 60);
    assert_eq!(t, Target::Accept);
    assert_eq!(ipt.global_packets, 1);
}

#[test]
fn first_match_wins_and_policy_applies() {
    let mut ipt = engine();
    let mut drop_web = Rule::new(Target::Drop);
    drop_web.dst_port = Some(80);
    assert_eq!(add_rule(&mut ipt, Chain::Input, drop_web), Some(1));
    let t = process_packet(&mut ipt, Protocol::Tcp, [1, 1, 1, 1], 5000, [2, 2, 2, 2], 80, Direction::Inbound, "eth0", 60);
    assert_eq!(t, Target::Drop);
    let t = process_packet(&mut ipt, Protocol::Tcp, [1, 1, 1, 1], 5001, [2, 2, 2, 2], 22, Direction::Inbound, "eth0", 60);
    assert_eq!(t, Target::Accept);
    // A rule inserted in front decides first.
    let mut allow = Rule::new(Target::Accept);
    allow.dst_port = Some(80);
    assert_eq!(insert_rule(&mut ipt, Chain::Input, 0, allow), Some(2));
    let t = process_packet(&mut ipt, Protocol::Tcp, [3, 3, 3, 3], 6000, [2, 2, 2, 2], 80, Direction::Inbound, "eth0", 60);
    assert_eq!(t, Target::Accept);
    // Deleting the rules gives back the policy.
    assert!(delete_rule(&mut ipt, Chain::Input, 0));
    assert!(delete_rule(&mut ipt, Chain::Input, 0));
    assert!(!delete_rule(&mut ipt, Chain::Input, 0));
    set_policy(&mut ipt, Chain::Input, Target::Reject);
    let t = process_packet(&mut ipt, Protocol::Udp, [4, 4, 4, 4], 53, [2, 2, 2, 2], 53, Direction::Inbound, "eth0", 60);
    assert_eq!(t, Target::Reject);
}

#[test]
fn forwarding_switch() {
    let mut ipt = engine();
    assert!(!is_forwarding(&ipt));
    let t = process_packet(&mut ipt, Protocol::Tcp, [1, 1, 1, 1], 1, [2, 2, 2, 2], 2, Direction::Forwarded, "eth0", 60);
    assert_eq!(t, Target::Drop);
    enable_forwarding(&mut ipt);
    assert!(is_forwarding(&ipt));
    set_policy(&mut ipt, Chain::Forward, Target::Accept);
    let t = process_packet(&mut ipt, Protocol::Tcp, [1, 1, 1, 9], 1, [2, 2, 2, 9], 2, Direction::Forwarded, "eth0", 60);
    assert_eq!(t, Target::Accept);
    disable_forwarding(&mut ipt);
    assert!(!is_forwarding(&ipt));
}

#[test]
fn conntrack_lets_replies_through() {
    let mut ipt = engine();
    process_packet(&mut ipt, Protocol::Tcp, [10, 0, 0, 1], 1000, [8, 8, 8, 8], 443, Direction::Outbound, "eth0", 60);
    assert_eq!(conntrack_list(&ipt).len(), 1);
    set_policy(&mut ipt, Chain::Input, Target::Drop);
    let t = process_packet(&mut ipt, Protocol::Tcp, [8, 8, 8, 8], 443, [10, 0, 0, 1], 1000, Direction::Inbound, "eth0", 60);
    assert_eq!(t, Target::Accept);
    conntrack_flush(&mut ipt);
    assert_eq!(conntrack_list(&ipt).len(), 0);
    let t = process_packet(&mut ipt, Protocol::Tcp, [8, 8, 8, 8], 443, [10, 0, 0, 1], 1000, Direction::Inbound, "eth0", 60);
    assert_eq!(t, Target::Drop);
}

#[test]
fn port_forward_adds_dnat_rule() {
    let mut ipt = engine();
    assert!(forward_port(&mut ipt, Protocol::Tcp, 8080, [192, 168, 1, 10], 80));
    let pre = &ipt.engine.as_ref().unwrap().prerouting;
    assert_eq!(pre.rules.len(), 1);
    assert_eq!(pre.rules[0].target, Target::Dnat);
    assert_eq!(pre.rules[0].dst_port, Some(8080));
    assert_eq!(pre.rules[0].nat_dst_port, Some(80));
}

#[test]
fn flush_empties_a_chain() {
    let mut ipt = engine();
    add_rule(&mut ipt, Chain::Output, Rule::new(Target::Drop));
    flush_chain(&mut ipt, Chain::Output);
    assert_eq!(ipt.engine.as_ref().unwrap().output.rules.len(), 0);
}

#[test]
fn command_line_interface() {
    let mut ipt = engine();
    assert_eq!(
        parse_command(&mut ipt, "iptables -A INPUT -s 192.168.1.0/24 -p tcp --dport 80 -j ACCEPT"),
        Ok(String::from("Rule 1 added to INPUT"))
    );
    let r = &ipt.engine.as_ref().unwrap().input.rules[0];
    assert_eq!(r.src_ip, Some([192, 168, 1, 0]));
    assert_eq!(r.src_mask, 24);
    assert_eq!(r.dst_port, Some(80));
    assert_eq!(r.protocol, Some(Protocol::Tcp));
    assert_eq!(r.target, Target::Accept);
    assert_eq!(parse_command(&mut ipt, "-I INPUT 0 -j DROP"), Ok(String::from("Rule 2 inserted into INPUT at 0")));
    assert_eq!(parse_command(&mut ipt, "-D INPUT 5"), Err(String::from("no rule at index 5 in INPUT")));
    assert_eq!(parse_command(&mut ipt, "-D INPUT 0"), Ok(String::from("Rule deleted from INPUT at index 0")));
    assert_eq!(parse_command(&mut ipt, "-P FORWARD ACCEPT"), Ok(String::from("Policy for FORWARD set to ACCEPT")));
    assert_eq!(parse_command(&mut ipt, "-F INPUT"), Ok(String::from("Flushed chain INPUT")));
    assert_eq!(parse_command(&mut ipt, ""), Err(String::from("empty command")));
    assert_eq!(parse_command(&mut ipt, "iptables"), Err(String::from("no arguments")));
    assert_eq!(parse_command(&mut ipt, "-A"), Err(String::from("no chain specified")));
    assert_eq!(
        parse_command(&mut ipt, "-j DROP"),
        Err(String::from("Usage: iptables -A|-I|-D|-F|-P|-L CHAIN [options] [-j TARGET]"))
    );
    let listing = parse_command(&mut ipt, "-L INPUT").unwrap();
    assert_eq!(listing, list_rules(&ipt, Chain::Input));
}

#[test]
fn iptables_reports() {
    let mut ipt = engine();
    add_rule(&mut ipt, Chain::Input, Rule::new(Target::Drop));
    process_packet(&mut ipt, Protocol::Tcp, [1, 1, 1, 1], 1, [2, 2, 2, 2], 2, Direction::Inbound, "eth0", 60);
    assert!(list_rules(&ipt, Chain::Input).contains("DROP"));
    assert!(conntrack_info(&ipt).contains("1.1.1.1"));
    assert!(!iptables_info(&ipt).is_empty());
    assert!(!iptables_stats(&ipt).is_empty());
}
