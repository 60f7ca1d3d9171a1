use efense::config::{EfenseConfig, Interface, Protections};
use efense::enforce::{
    action_to_xdp, decide_tcp, decide_udp, efence_net_xdp_ingress_apply,
    try_efence_net_xdp_ingress_apply, MonitorEvent, XDP_DROP, XDP_PASS,
};
use efense::error::EfenseErrorCode;
use efense::monitor::{
    disable_monitor, is_monitor_enabled, submit_tcp4_event, submit_udp4_event, try_monitor_tcp,
    try_monitor_udp,
};
use efense::raw::{Tcp4EventRaw, Udp4EventRaw};
use efense::config::Action;
use efense::plan::{
    collect_tcp_per_iface, expand_tcp_rule, expand_udp_rule, populate_maps, IfacePolicy, MapPlan,
};
use efense::policy::Ipv4Cidr;
use efense::policy::{ACTION_DROP, ACTION_PASS, ALLOW_OUTGOING_FLAG, PORT_ANY};
use efense::protect::{protect_tcp_ack_flood, AckTracker, TCP_ACK_MAX_WINDOW};
use efense::tcp::{Tcp4IngressRule, TcpIngressPolicy};
use efense::udp::{Udp4IngressRule, UdpIngressPolicy};

const SYN: u8 = 0x02;
const ACK: u8 = 0x10;

fn eth_ipv4(proto: u8, src: [u8; 4], dst: [u8; 4], l4_len: usize) -> Vec<u8> {
    let mut p = vec![0u8; 12];
    p.extend_from_slice(&[0x08, 0x00]);
    let tot = (20 + l4_len) as u16;
    p.push(0x45);
    p.push(0);
    p.extend_from_slice(&tot.to_be_bytes());
    p.extend_from_slice(&[0, 0, 0, 0, 64, proto, 0, 0]);
    p.extend_from_slice(&src);
    p.extend_from_slice(&dst);
    p
}

fn udp_packet(src: [u8; 4], sport: u16, dport: u16) -> Vec<u8> {
    let mut p = eth_ipv4(17, src, [192, 168, 122, 1], 8);
    p.extend_from_slice(&sport.to_be_bytes());
    p.extend_from_slice(&dport.to_be_bytes());
    p.extend_from_slice(&[0, 8, 0, 0]);
    p
}

fn tcp_packet(src: [u8; 4], sport: u16, dport: u16, seq: u32, flags: u8, payload: usize) -> Vec<u8> {
    let mut p = eth_ipv4(6, src, [192, 168, 122, 1], 20 + payload);
    p.extend_from_slice(&sport.to_be_bytes());
    p.extend_from_slice(&dport.to_be_bytes());
    p.extend_from_slice(&seq.to_be_bytes());
    p.extend_from_slice(&[0, 0, 0, 0]);
    p.push(5 << 4);
    p.push(flags);
    p.extend_from_slice(&[0xff, 0xff, 0, 0, 0, 0]);
    p.extend(std::iter::repeat(0u8).take(payload));
    p
}

fn udp_rule(name: &str, ranges: &[&str], port: Option<u16>) -> Udp4IngressRule {
    Udp4IngressRule {
        name: name.to_string(),
        src_ip_ranges: ranges.iter().map(|s| s.to_string()).collect(),
        src_port: port,
    }
}

fn tcp_rule(name: &str, ranges: &[&str], port: u16) -> Tcp4IngressRule {
    Tcp4IngressRule {
        name: name.to_string(),
        src_ip_ranges: ranges.iter().map(|s| s.to_string()).collect(),
        port,
    }
}

/// The first README example: DNS replies from 192.168.122.0/24 on enp2s0.
fn dns_plan() -> MapPlan {
    let cfg = EfenseConfig {
        interfaces: vec![Interface {
            name: "enp2s0".to_string(),
            udp: Some(UdpIngressPolicy {
                allow_list: vec![udp_rule("allow_dns_query", &["192.168.122.0/24"], Some(53))],
            }),
            tcp: None,
        }],
    };
    populate_maps(&cfg, &vec![Ok(2)]).unwrap()
}

/// The second README example: SSH from 192.168.122.0/24, outgoing
/// connections allowed, ACK flood protection on.
fn ssh_plan(ack_flood: bool, allow_outgoing: bool) -> MapPlan {
    let cfg = EfenseConfig {
        interfaces: vec![Interface {
            name: "enp2s0".to_string(),
            udp: None,
            tcp: Some(TcpIngressPolicy {
                protections: Protections { tcp_ack_flood: ack_flood },
                allow_list: vec![tcp_rule("allow_ssh", &["192.168.122.0/24"], 22)],
                allow_outgoing,
            }),
        }],
    };
    populate_maps(&cfg, &vec![Ok(2)]).unwrap()
}

#[test]
fn dns_example_maps() {
    let plan = dns_plan();
    assert_eq!(plan.udp.len(), 1);
    assert_eq!(plan.udp[0].0, 2);
    assert_eq!(plan.udp[0].1.prefixes.len(), 1);
    assert_eq!(plan.udp[0].1.prefixes[0].addr, [192, 168, 122, 0]);
    assert_eq!(plan.udp[0].1.prefixes[0].prefix_len, 24);
    assert_eq!(plan.udp_port_action.len(), 1);
    assert_eq!(plan.udp_port_action[0].0.port, 53);
    assert_eq!(plan.udp_port_action[0].1, ACTION_PASS);
    assert_eq!(plan.proto_dflt, (ACTION_DROP, ACTION_PASS));
    assert_eq!(plan.port_allow_list.len(), 1);
    assert_eq!((plan.port_allow_list[0].ifindex, plan.port_allow_list[0].port), (2, 53));
    assert!(plan.tcp.is_empty());
    assert!(plan.ack_flood.is_empty());
}

#[test]
fn dns_example_verdicts() {
    let plan = dns_plan();
    let mut t = AckTracker::new();
    let pass = udp_packet([192, 168, 122, 7], 53, 40000);
    assert_eq!(efence_net_xdp_ingress_apply(&pass, 2, &plan, &mut t, None, 0).0, XDP_PASS);
    let other_src = udp_packet([10, 0, 0, 1], 53, 40000);
    assert_eq!(efence_net_xdp_ingress_apply(&other_src, 2, &plan, &mut t, None, 0).0, XDP_DROP);
    let other_port = udp_packet([192, 168, 122, 7], 54, 40000);
    assert_eq!(efence_net_xdp_ingress_apply(&other_port, 2, &plan, &mut t, None, 0).0, XDP_DROP);
    let tcp = tcp_packet([10, 0, 0, 1], 1234, 22, 7, SYN, 0);
    assert_eq!(efence_net_xdp_ingress_apply(&tcp, 2, &plan, &mut t, None, 0).0, XDP_PASS);
}

#[test]
fn interface_without_policy_passes() {
    let plan = dns_plan();
    let mut t = AckTracker::new();
    // UDP is filtered on enp2s0 (index 2) only; index 7 has no UDP policy.
    let p = udp_packet([10, 0, 0, 1], 99, 1);
    assert_eq!(efence_net_xdp_ingress_apply(&p, 7, &plan, &mut t, None, 0).0, XDP_PASS);
    let plan = ssh_plan(true, true);
    let syn = tcp_packet([8, 8, 8, 8], 5000, 80, 1, SYN, 0);
    assert_eq!(efence_net_xdp_ingress_apply(&syn, 7, &plan, &mut t, None, 0).0, XDP_PASS);
    let ack = tcp_packet([8, 8, 8, 8], 5000, 80, 1, ACK, 0);
    assert_eq!(efence_net_xdp_ingress_apply(&ack, 7, &plan, &mut t, None, 0).0, XDP_PASS);
    assert_eq!(t.get(&[8, 8, 8, 8]), None);
}

#[test]
fn decide_udp_reports_default_action() {
    let plan = dns_plan();
    assert_eq!(decide_udp(&plan, 2, [192, 168, 122, 9], 53), (false, XDP_PASS));
    assert_eq!(decide_udp(&plan, 2, [192, 168, 123, 9], 53), (true, XDP_DROP));
    assert_eq!(decide_udp(&plan, 2, [192, 168, 122, 9], 99), (true, XDP_DROP));
    assert_eq!(decide_udp(&plan, 7, [192, 168, 122, 9], 99), (false, XDP_PASS));
}

#[test]
fn udp_rule_without_port_uses_any_bucket() {
    let cfg = EfenseConfig {
        interfaces: vec![Interface {
            name: "eth0".to_string(),
            udp: Some(UdpIngressPolicy {
                allow_list: vec![
                    udp_rule("any_port", &["10.0.0.0/8"], None),
                    udp_rule("dns", &[], Some(53)),
                ],
            }),
            tcp: None,
        }],
    };
    let plan = populate_maps(&cfg, &vec![Ok(4)]).unwrap();
    assert_eq!(plan.udp_port_action[0].0.port, PORT_ANY);
    assert_eq!(plan.udp[0].1.prefixes.len(), 2);
    // 10/8 has no port of its own: any source port passes the rule.
    assert_eq!(decide_udp(&plan, 4, [10, 1, 2, 3], 9999), (false, XDP_PASS));
    // the rule without a port names no port of the early allow-list; its
    // prefix becomes an any-port pair of the interface.
    let keys: Vec<(u32, u16)> = plan.port_allow_list.iter().map(|k| (k.ifindex, k.port)).collect();
    assert_eq!(keys, vec![(4, 53)]);
    assert_eq!(plan.udp_any_port, vec![(4, Ipv4Cidr::new([10, 0, 0, 0], 8))]);
    let mut t = AckTracker::new();
    let p = udp_packet([10, 1, 2, 3], 9999, 1);
    assert_eq!(efence_net_xdp_ingress_apply(&p, 4, &plan, &mut t, None, 0).0, XDP_PASS);
    let p = udp_packet([10, 1, 2, 3], 5353, 1);
    assert_eq!(efence_net_xdp_ingress_apply(&p, 4, &plan, &mut t, None, 0).0, XDP_PASS);
    // outside 10/8 only port 53 is allowed.
    let p = udp_packet([8, 8, 8, 8], 5353, 1);
    assert_eq!(efence_net_xdp_ingress_apply(&p, 4, &plan, &mut t, None, 0).0, XDP_DROP);
    let p = udp_packet([10, 1, 2, 3], 53, 1);
    assert_eq!(efence_net_xdp_ingress_apply(&p, 4, &plan, &mut t, None, 0).0, XDP_PASS);
    // from outside 10/8, the match-any prefix of the dns rule applies.
    let p = udp_packet([8, 8, 8, 8], 53, 1);
    assert_eq!(efence_net_xdp_ingress_apply(&p, 4, &plan, &mut t, None, 0).0, XDP_PASS);
}

#[test]
fn longest_prefix_wins_even_against_a_shorter_allowing_rule() {
    let cfg = EfenseConfig {
        interfaces: vec![Interface {
            name: "eth0".to_string(),
            udp: Some(UdpIngressPolicy {
                allow_list: vec![
                    udp_rule("wide", &["10.0.0.0/8"], Some(53)),
                    udp_rule("narrow", &["10.1.0.0/16"], Some(80)),
                ],
            }),
            tcp: None,
        }],
    };
    let plan = populate_maps(&cfg, &vec![Ok(4)]).unwrap();
    assert_eq!(decide_udp(&plan, 4, [10, 2, 0, 1], 53), (false, XDP_PASS));
    assert_eq!(decide_udp(&plan, 4, [10, 1, 0, 1], 80), (false, XDP_PASS));
    assert_eq!(decide_udp(&plan, 4, [10, 1, 0, 1], 53), (true, XDP_DROP));
}

#[test]
fn populate_reports_invalid_range() {
    let cfg = EfenseConfig {
        interfaces: vec![Interface {
            name: "eth0".to_string(),
            udp: Some(UdpIngressPolicy { allow_list: vec![udp_rule("r", &["bad"], Some(1))] }),
            tcp: None,
        }],
    };
    let e = populate_maps(&cfg, &vec![Ok(1)]).err().unwrap();
    assert_eq!(
        e.msg,
        "invalid src_ip_range \"bad\" in rule 'r': invalid IPv4 address \"bad\" in \"bad\""
    );
}

#[test]
fn ssh_example_maps() {
    let plan = ssh_plan(true, true);
    assert_eq!(plan.tcp.len(), 1);
    assert_eq!(plan.tcp_iface_default, vec![(2, ALLOW_OUTGOING_FLAG)]);
    assert_eq!(plan.tcp_port_action[0].0.port, 22);
    assert_eq!(plan.tcp_port_action[0].1, ACTION_PASS);
    assert_eq!(plan.proto_dflt, (ACTION_PASS, ACTION_DROP));
    assert_eq!(plan.ack_flood, vec![2]);
    let plan = ssh_plan(false, false);
    assert_eq!(plan.tcp_iface_default, vec![(2, 0)]);
    assert!(plan.ack_flood.is_empty());
}

#[test]
fn ssh_example_handshake_and_flood() {
    let plan = ssh_plan(true, true);
    let mut t = AckTracker::new();
    let src = [192, 168, 122, 9];
    // new connection to ssh from the allowed range.
    let syn = tcp_packet(src, 5000, 22, 1000, SYN, 0);
    assert_eq!(efence_net_xdp_ingress_apply(&syn, 2, &plan, &mut t, None, 0).0, XDP_PASS);
    assert_eq!(t.get(&src), Some(1000));
    // its ACK with data, within the window.
    let ack = tcp_packet(src, 5000, 22, 1001, ACK, 10);
    assert_eq!(efence_net_xdp_ingress_apply(&ack, 2, &plan, &mut t, None, 0).0, XDP_PASS);
    assert_eq!(t.get(&src), Some(1001));
    // a jump past the window is dropped and the tracker is left alone.
    let far = tcp_packet(src, 5000, 22, 1001 + TCP_ACK_MAX_WINDOW + 1, ACK, 10);
    assert_eq!(efence_net_xdp_ingress_apply(&far, 2, &plan, &mut t, None, 0).0, XDP_DROP);
    assert_eq!(t.get(&src), Some(1001));
    // an ACK from a source that never sent a SYN is dropped.
    let stray = tcp_packet([8, 8, 8, 8], 5000, 22, 1, ACK, 0);
    assert_eq!(efence_net_xdp_ingress_apply(&stray, 2, &plan, &mut t, None, 0).0, XDP_DROP);
    // a SYN to a port no rule names is dropped early, nothing recorded.
    let syn80 = tcp_packet([8, 8, 8, 8], 5000, 80, 1, SYN, 0);
    assert_eq!(efence_net_xdp_ingress_apply(&syn80, 2, &plan, &mut t, None, 0).0, XDP_DROP);
    assert_eq!(t.get(&[8, 8, 8, 8]), None);
    // a SYN to ssh from outside the range is recorded, then dropped.
    let syn_out = tcp_packet([8, 8, 8, 8], 5000, 22, 77, SYN, 0);
    assert_eq!(efence_net_xdp_ingress_apply(&syn_out, 2, &plan, &mut t, None, 0).0, XDP_DROP);
    assert_eq!(t.get(&[8, 8, 8, 8]), Some(77));
    // a SYN-ACK answering an outgoing connection passes.
    let synack = tcp_packet([1, 1, 1, 1], 443, 40000, 5, SYN | ACK, 0);
    assert_eq!(efence_net_xdp_ingress_apply(&synack, 2, &plan, &mut t, None, 0).0, XDP_PASS);
    assert_eq!(t.get(&[1, 1, 1, 1]), Some(5));
}

#[test]
fn synack_skipped_without_allow_outgoing() {
    let plan = ssh_plan(true, false);
    let mut t = AckTracker::new();
    assert_eq!(protect_tcp_ack_flood(&plan, 2, [1, 1, 1, 1], true, true, 5, &mut t), None);
    assert_eq!(t.get(&[1, 1, 1, 1]), None);
    // the regular filter then decides: not from an allowed range, dropped.
    let synack = tcp_packet([1, 1, 1, 1], 443, 40000, 5, SYN | ACK, 0);
    assert_eq!(efence_net_xdp_ingress_apply(&synack, 2, &plan, &mut t, None, 0).0, XDP_DROP);
    let synack = tcp_packet([192, 168, 122, 4], 443, 22, 5, SYN | ACK, 0);
    assert_eq!(efence_net_xdp_ingress_apply(&synack, 2, &plan, &mut t, None, 0).0, XDP_PASS);
    assert_eq!(t.get(&[192, 168, 122, 4]), None);
    assert_eq!(protect_tcp_ack_flood(&plan, 2, [1, 1, 1, 1], true, false, 5, &mut t), None);
    assert_eq!(t.get(&[1, 1, 1, 1]), Some(5));
    // on an interface without the protection nothing happens.
    assert_eq!(protect_tcp_ack_flood(&plan, 3, [9, 9, 9, 9], false, true, 5, &mut t), None);
    assert_eq!(t.get(&[9, 9, 9, 9]), None);
}

#[test]
fn window_wraps_around() {
    let plan = ssh_plan(true, true);
    let mut t = AckTracker::new();
    let src = [192, 168, 122, 3];
    assert_eq!(protect_tcp_ack_flood(&plan, 2, src, true, false, u32::MAX - 5, &mut t), None);
    assert_eq!(protect_tcp_ack_flood(&plan, 2, src, false, true, 10, &mut t), None);
    assert_eq!(t.get(&src), Some(10));
    assert_eq!(protect_tcp_ack_flood(&plan, 2, src, false, true, 5, &mut t), Some(XDP_DROP));
}

#[test]
fn allow_outgoing_passes_non_syn_without_flood_protection() {
    let plan = ssh_plan(false, true);
    assert_eq!(decide_tcp(&plan, 2, [8, 8, 8, 8], 443, false, true), (false, XDP_PASS));
    assert_eq!(decide_tcp(&plan, 2, [8, 8, 8, 8], 443, true, true), (false, XDP_PASS));
    assert_eq!(decide_tcp(&plan, 2, [8, 8, 8, 8], 22, true, false), (true, XDP_DROP));
    assert_eq!(decide_tcp(&plan, 2, [192, 168, 122, 8], 22, true, false), (false, XDP_PASS));
    let mut t = AckTracker::new();
    for flags in [ACK, SYN | ACK, 0x01, 0x04] {
        let p = tcp_packet([8, 8, 8, 8], 443, 50000, 9, flags, 3);
        assert_eq!(efence_net_xdp_ingress_apply(&p, 2, &plan, &mut t, None, 0).0, XDP_PASS);
    }
    let plan = ssh_plan(false, false);
    assert_eq!(decide_tcp(&plan, 2, [8, 8, 8, 8], 443, false, true), (true, XDP_DROP));
}

#[test]
fn monitor_events_for_default_actions() {
    let plan = dns_plan();
    let mut t = AckTracker::new();
    let p = udp_packet([10, 0, 0, 1], 53, 40000);
    let (code, ev) = efence_net_xdp_ingress_apply(&p, 2, &plan, &mut t, Some(1), 77);
    assert_eq!(code, XDP_DROP);
    match ev {
        Some(MonitorEvent::Udp(r)) => {
            assert_eq!(r.src, 0x0a000001);
            assert_eq!(r.dst, 0xc0a87a01);
            assert_eq!((r.src_port, r.dst_port, r.timestamp), (53, 40000, 77));
        }
        other => panic!("unexpected event {other:?}"),
    }
    // a rule match gives no event; monitoring off gives none.
    let p = udp_packet([192, 168, 122, 7], 53, 40000);
    assert!(efence_net_xdp_ingress_apply(&p, 2, &plan, &mut t, Some(1), 77).1.is_none());
    let p = udp_packet([10, 0, 0, 1], 53, 40000);
    assert!(efence_net_xdp_ingress_apply(&p, 2, &plan, &mut t, Some(0), 77).1.is_none());
    assert!(efence_net_xdp_ingress_apply(&p, 2, &plan, &mut t, None, 77).1.is_none());
    // a pass-all protocol default reports every packet.
    let p = tcp_packet([10, 0, 0, 1], 1, 2, 3, ACK, 0);
    match efence_net_xdp_ingress_apply(&p, 2, &plan, &mut t, Some(1), 5) {
        (XDP_PASS, Some(MonitorEvent::Tcp(r))) => assert_eq!((r.src_port, r.dst_port), (1, 2)),
        other => panic!("unexpected outcome {other:?}"),
    }
}

#[test]
fn tcp_events_only_for_bare_acks() {
    let plan = ssh_plan(false, false);
    let mut t = AckTracker::new();
    let bare = tcp_packet([8, 8, 8, 8], 1, 22, 3, ACK, 0);
    let (code, ev) = efence_net_xdp_ingress_apply(&bare, 2, &plan, &mut t, Some(1), 9);
    assert_eq!(code, XDP_DROP);
    assert!(matches!(ev, Some(MonitorEvent::Tcp(_))));
    let data = tcp_packet([8, 8, 8, 8], 1, 22, 3, ACK, 4);
    assert!(efence_net_xdp_ingress_apply(&data, 2, &plan, &mut t, Some(1), 9).1.is_none());
    let syn = tcp_packet([8, 8, 8, 8], 1, 22, 3, SYN, 0);
    assert!(efence_net_xdp_ingress_apply(&syn, 2, &plan, &mut t, Some(1), 9).1.is_none());
}

#[test]
fn malformed_frames() {
    let plan = dns_plan();
    let mut t = AckTracker::new();
    let short = vec![0u8; 10];
    assert_eq!(
        try_efence_net_xdp_ingress_apply(&short, 2, &plan, &mut t, None, 0).err(),
        Some(EfenseErrorCode::PacketTooSmall)
    );
    assert_eq!(efence_net_xdp_ingress_apply(&short, 2, &plan, &mut t, None, 0).0, XDP_PASS);
    let mut ipv6 = udp_packet([10, 0, 0, 1], 1, 2);
    ipv6[12] = 0x86;
    ipv6[13] = 0xdd;
    let r = try_efence_net_xdp_ingress_apply(&ipv6, 2, &plan, &mut t, Some(1), 0).unwrap();
    assert_eq!(r.0, XDP_PASS);
    assert!(r.1.is_none());
    let truncated = udp_packet([10, 0, 0, 1], 53, 2)[..40].to_vec();
    assert_eq!(
        try_efence_net_xdp_ingress_apply(&truncated, 2, &plan, &mut t, None, 0).err(),
        Some(EfenseErrorCode::PacketTooSmall)
    );
    let mut unknown = udp_packet([10, 0, 0, 1], 53, 2);
    unknown[23] = 200;
    assert_eq!(
        try_efence_net_xdp_ingress_apply(&unknown, 2, &plan, &mut t, None, 0).err(),
        Some(EfenseErrorCode::InvalidProtocol)
    );
    assert_eq!(efence_net_xdp_ingress_apply(&unknown, 2, &plan, &mut t, None, 0).0, XDP_PASS);
    let mut icmp = udp_packet([10, 0, 0, 1], 53, 2);
    icmp[23] = 1;
    assert_eq!(efence_net_xdp_ingress_apply(&icmp, 2, &plan, &mut t, None, 0).0, XDP_PASS);
}

#[test]
fn action_codes() {
    assert_eq!(action_to_xdp(ACTION_PASS), XDP_PASS);
    assert_eq!(action_to_xdp(ACTION_DROP), XDP_DROP);
    assert_eq!(action_to_xdp(3), XDP_DROP);
    assert_eq!(action_to_xdp(2), XDP_PASS);
}

#[test]
fn monitor_helpers() {
    assert!(is_monitor_enabled(Some(1)));
    assert!(!is_monitor_enabled(Some(0)));
    assert!(!is_monitor_enabled(None));
    let mut flag = 1u32;
    disable_monitor(&mut flag);
    assert_eq!(flag, 0);
    let r = try_monitor_udp(true, [1, 2, 3, 4], [5, 6, 7, 8], 9, 10, 11).unwrap();
    assert_eq!((r.src, r.dst, r.timestamp), (0x01020304, 0x05060708, 11));
    assert!(try_monitor_udp(false, [1, 2, 3, 4], [5, 6, 7, 8], 9, 10, 11).is_none());
    assert!(try_monitor_tcp(true, [1, 2, 3, 4], [5, 6, 7, 8], 9, 10, false, true, 20, 5, 40, 1).is_some());
    assert!(try_monitor_tcp(true, [1, 2, 3, 4], [5, 6, 7, 8], 9, 10, false, true, 20, 5, 41, 1).is_none());
    assert!(try_monitor_tcp(true, [1, 2, 3, 4], [5, 6, 7, 8], 9, 10, true, true, 20, 5, 40, 1).is_none());
}

#[test]
fn tracker_insert_and_get() {
    let mut t = AckTracker::new();
    assert_eq!(t.get(&[1, 2, 3, 4]), None);
    assert!(t.insert([1, 2, 3, 4], 5));
    assert!(t.insert([1, 2, 3, 5], 6));
    assert!(t.insert([1, 2, 3, 4], 7));
    assert_eq!(t.get(&[1, 2, 3, 4]), Some(7));
    assert_eq!(t.get(&[1, 2, 3, 5]), Some(6));
}

#[test]
fn full_ring_buffer_switches_monitoring_off() {
    let mut flag = 1u32;
    let u = Udp4EventRaw::new(1, 2, 3, 4, 5);
    assert_eq!(submit_udp4_event(u, true, &mut flag), Some(u));
    assert_eq!(flag, 1);
    assert_eq!(submit_udp4_event(u, false, &mut flag), None);
    assert_eq!(flag, 0);
    let mut flag = 1u32;
    let t = Tcp4EventRaw::new(1, 2, 3, 4, 5);
    assert_eq!(submit_tcp4_event(t, true, &mut flag), Some(t));
    assert_eq!(submit_tcp4_event(t, false, &mut flag), None);
    assert_eq!(flag, 0);
}

#[test]
fn plan_keys_have_zero_padding() {
    let cfg = EfenseConfig {
        interfaces: vec![Interface {
            name: "eth0".to_string(),
            udp: Some(UdpIngressPolicy {
                allow_list: vec![udp_rule("dns", &["10.0.0.0/8", "192.168.1.7/24"], Some(53))],
            }),
            tcp: Some(TcpIngressPolicy {
                protections: Protections { tcp_ack_flood: true },
                allow_list: vec![tcp_rule("ssh", &[], 22)],
                allow_outgoing: true,
            }),
        }],
    };
    let plan = populate_maps(&cfg, &vec![Ok(3)]).unwrap();
    for (_, pol) in plan.udp.iter().chain(plan.tcp.iter()) {
        assert!(pol.prefixes.iter().all(|c| c._pad == [0, 0, 0]));
        assert!(pol.port_rules.iter().all(|(c, _, _)| c._pad == [0, 0, 0]));
    }
    for (k, _) in plan.udp_port_action.iter().chain(plan.tcp_port_action.iter()) {
        assert_eq!(k._pad, [0, 0]);
        assert_eq!(k.prefix._pad, [0, 0, 0]);
    }
    assert_eq!(plan.port_allow_list.len(), 2);
    assert!(plan.port_allow_list.iter().all(|k| k._pad == [0, 0]));
}

#[test]
fn rule_with_bad_range_keeps_earlier_prefixes() {
    let mut pol = IfacePolicy::fresh(false);
    let rule = udp_rule("mixed", &["10.1.2.3/8", "not-a-range", "172.16.0.0/12"], Some(53));
    let e = expand_udp_rule(&rule, &mut pol).err().unwrap();
    assert!(e.msg.starts_with("invalid src_ip_range \"not-a-range\" in rule 'mixed': "));
    let ten = Ipv4Cidr::new([10, 0, 0, 0], 8);
    assert_eq!(pol.prefixes, vec![ten]);
    assert_eq!(pol.port_rules, vec![(ten, 53, Action::Pass)]);
    let mut pol = IfacePolicy::fresh(true);
    let rule = tcp_rule("web", &["bad"], 443);
    assert!(expand_tcp_rule(&rule, &mut pol).is_err());
    assert!(pol.prefixes.is_empty() && pol.port_rules.is_empty());
}

#[test]
fn later_interface_entry_replaces_earlier() {
    let mut plan = dns_plan();
    assert_eq!(decide_udp(&plan, 2, [192, 168, 122, 9], 53), (false, XDP_PASS));
    plan.udp.push((2, IfacePolicy::fresh(false)));
    assert_eq!(decide_udp(&plan, 2, [192, 168, 122, 9], 53), (true, XDP_DROP));
}

fn mixed_plan() -> MapPlan {
    let cfg = EfenseConfig {
        interfaces: vec![Interface {
            name: "eth0".to_string(),
            udp: Some(UdpIngressPolicy {
                allow_list: vec![udp_rule("any_port", &["10.0.0.0/8"], None)],
            }),
            tcp: Some(TcpIngressPolicy {
                protections: Protections { tcp_ack_flood: true },
                allow_list: vec![tcp_rule("ssh", &[], 22)],
                allow_outgoing: false,
            }),
        }],
    };
    populate_maps(&cfg, &vec![Ok(5)]).unwrap()
}

#[test]
fn syn_to_unlisted_port_dropped_before_protection() {
    let plan = mixed_plan();
    let mut t = AckTracker::new();
    // port 80 is named by no rule of index 5: dropped, nothing tracked.
    let syn = tcp_packet([10, 1, 2, 3], 5000, 80, 7, SYN, 0);
    assert_eq!(efence_net_xdp_ingress_apply(&syn, 5, &plan, &mut t, None, 0).0, XDP_DROP);
    assert_eq!(t.get(&[10, 1, 2, 3]), None);
    // port 0 neither: the UDP any-port rule opens nothing for TCP.
    let syn = tcp_packet([10, 1, 2, 3], 5000, 0, 7, SYN, 0);
    assert_eq!(efence_net_xdp_ingress_apply(&syn, 5, &plan, &mut t, None, 0).0, XDP_DROP);
    assert_eq!(t.get(&[10, 1, 2, 3]), None);
    // port 22 is named: the SYN passes and is recorded.
    let syn = tcp_packet([10, 1, 2, 3], 5000, 22, 7, SYN, 0);
    assert_eq!(efence_net_xdp_ingress_apply(&syn, 5, &plan, &mut t, None, 0).0, XDP_PASS);
    assert_eq!(t.get(&[10, 1, 2, 3]), Some(7));
}

#[test]
fn udp_any_port_is_scoped_to_its_prefix() {
    let plan = mixed_plan();
    let mut t = AckTracker::new();
    let p = udp_packet([10, 9, 9, 9], 4444, 1);
    assert_eq!(efence_net_xdp_ingress_apply(&p, 5, &plan, &mut t, None, 0).0, XDP_PASS);
    // outside 10/8 the any-port rule does not apply.
    let p = udp_packet([11, 0, 0, 1], 4444, 1);
    assert_eq!(efence_net_xdp_ingress_apply(&p, 5, &plan, &mut t, None, 0).0, XDP_DROP);
    let p = udp_packet([11, 0, 0, 1], 0, 1);
    assert_eq!(efence_net_xdp_ingress_apply(&p, 5, &plan, &mut t, None, 0).0, XDP_DROP);
}

#[test]
fn populate_reports_lookup_errors_in_order() {
    let iface = |name: &str, ranges: &[&str], with_udp: bool| Interface {
        name: name.to_string(),
        udp: if with_udp {
            Some(UdpIngressPolicy { allow_list: vec![udp_rule("r", ranges, Some(53))] })
        } else {
            None
        },
        tcp: None,
    };
    // a failed lookup of an interface with a UDP policy stops at once.
    let cfg = EfenseConfig { interfaces: vec![iface("eth0", &[], true), iface("eth1", &["bad"], true)] };
    let e = populate_maps(&cfg, &vec![Err("no eth0".to_string()), Ok(3)]).err().unwrap();
    assert_eq!(e.msg, "no eth0");
    // a range met before the failed lookup is reported first.
    let cfg = EfenseConfig { interfaces: vec![iface("eth0", &["bad"], true), iface("eth1", &[], true)] };
    let e = populate_maps(&cfg, &vec![Ok(2), Err("no eth1".to_string())]).err().unwrap();
    assert!(e.msg.starts_with("invalid src_ip_range"));
    // an interface without a policy is looked up for the allow-list, after the policies.
    let cfg = EfenseConfig { interfaces: vec![iface("lo9", &[], false), iface("eth1", &["bad"], true)] };
    let e = populate_maps(&cfg, &vec![Err("no lo9".to_string()), Ok(3)]).err().unwrap();
    assert!(e.msg.starts_with("invalid src_ip_range"));
    let cfg = EfenseConfig { interfaces: vec![iface("lo9", &[], false), iface("eth1", &[], true)] };
    let e = populate_maps(&cfg, &vec![Err("no lo9".to_string()), Ok(3)]).err().unwrap();
    assert_eq!(e.msg, "no lo9");
    // the TCP collection reports the lookup of an interface with a TCP policy.
    let cfg = EfenseConfig {
        interfaces: vec![Interface {
            name: "eth7".to_string(),
            udp: None,
            tcp: Some(TcpIngressPolicy {
                protections: Protections { tcp_ack_flood: false },
                allow_list: vec![tcp_rule("ssh", &[], 22)],
                allow_outgoing: false,
            }),
        }],
    };
    let e = collect_tcp_per_iface(&cfg, &vec![Err("no eth7".to_string())]).err().unwrap();
    assert_eq!(e.msg, "no eth7");
    assert_eq!(collect_tcp_per_iface(&cfg, &vec![Ok(9)]).unwrap()[0].0, 9);
}
