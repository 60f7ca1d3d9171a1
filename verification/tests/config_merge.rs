use efense::config::{EfenseConfig, Interface, Protections};
use efense::tcp::{Tcp4IngressRule, TcpIngressPolicy};
use efense::udp::{Udp4IngressRule, UdpIngressPolicy};

fn udp_policy(rules: &[(&str, u16)]) -> UdpIngressPolicy {
    UdpIngressPolicy {
        allow_list: rules
            .iter()
            .map(|(n, p)| Udp4IngressRule {
                name: (*n).to_string(),
                src_ip_ranges: Vec::new(),
                src_port: Some(*p),
            })
            .collect(),
    }
}

fn tcp_policy(rules: &[(&str, u16)], allow_outgoing: bool) -> TcpIngressPolicy {
    TcpIngressPolicy {
        protections: Protections { tcp_ack_flood: false },
        allow_list: rules
            .iter()
            .map(|(n, p)| Tcp4IngressRule {
                name: (*n).to_string(),
                src_ip_ranges: Vec::new(),
                port: *p,
            })
            .collect(),
        allow_outgoing,
    }
}

fn iface(name: &str, udp: Option<UdpIngressPolicy>, tcp: Option<TcpIngressPolicy>) -> Interface {
    Interface { name: name.to_string(), udp, tcp }
}

#[test]
fn merge_appends_interfaces_only_in_old() {
    let mut new = EfenseConfig {
        interfaces: vec![Interface {
            name: "eth0".to_string(),
            udp: Some(udp_policy(&[])),
            tcp: None,
        }],
    };
    let old = EfenseConfig {
        interfaces: vec![Interface {
            name: "eth1".to_string(),
            udp: Some(udp_policy(&[("a", 1)])),
            tcp: None,
        }],
    };
    new.merge(&old);
    assert_eq!(new.interfaces.len(), 2);
    assert_eq!(new.interfaces[0].name, "eth0");
    assert_eq!(new.interfaces[1].name, "eth1");
    assert_eq!(
        new.interfaces[1].udp.as_ref().unwrap().allow_list[0].src_port,
        Some(1)
    );
}

#[test]
fn merge_new_overrides_per_protocol_when_set() {
    let mut new = EfenseConfig {
        interfaces: vec![Interface {
            name: "eth0".to_string(),
            udp: Some(udp_policy(&[("new", 53)])),
            tcp: None,
        }],
    };
    let old = EfenseConfig {
        interfaces: vec![Interface {
            name: "eth0".to_string(),
            udp: Some(udp_policy(&[("old", 80)])),
            tcp: None,
        }],
    };
    new.merge(&old);
    assert_eq!(new.interfaces.len(), 1);
    let udp = new.interfaces[0].udp.as_ref().unwrap();
    assert_eq!(udp.allow_list.len(), 1);
    assert_eq!(udp.allow_list[0].name, "new");
}

#[test]
fn merge_fills_missing_protocol_from_old() {
    let mut new = EfenseConfig {
        interfaces: vec![Interface {
            name: "eth0".to_string(),
            udp: None,
            tcp: None,
        }],
    };
    let old = EfenseConfig {
        interfaces: vec![Interface {
            name: "eth0".to_string(),
            udp: Some(udp_policy(&[("old", 80)])),
            tcp: None,
        }],
    };
    new.merge(&old);
    let udp = new.interfaces[0].udp.as_ref().unwrap();
    assert_eq!(udp.allow_list[0].name, "old");
}

#[test]
fn merge_keeps_new_order_then_appends_old_in_order() {
    let mut new = EfenseConfig {
        interfaces: vec![iface("b", None, None), iface("a", None, None)],
    };
    let old = EfenseConfig {
        interfaces: vec![
            iface("c", None, None),
            iface("a", Some(udp_policy(&[("x", 1)])), None),
            iface("d", None, None),
        ],
    };
    new.merge(&old);
    let names: Vec<&str> = new.interfaces.iter().map(|i| i.name.as_str()).collect();
    assert_eq!(names, vec!["b", "a", "c", "d"]);
    assert_eq!(new.interfaces[1].udp.as_ref().unwrap().allow_list[0].name, "x");
}

#[test]
fn merge_tcp_is_per_protocol() {
    let mut new = EfenseConfig {
        interfaces: vec![iface("eth0", Some(udp_policy(&[("u", 53)])), None)],
    };
    let old = EfenseConfig {
        interfaces: vec![iface(
            "eth0",
            Some(udp_policy(&[("old", 80)])),
            Some(tcp_policy(&[("ssh", 22)], true)),
        )],
    };
    new.merge(&old);
    let i = &new.interfaces[0];
    assert_eq!(i.udp.as_ref().unwrap().allow_list[0].name, "u");
    let tcp = i.tcp.as_ref().unwrap();
    assert_eq!(tcp.allow_list[0].port, 22);
    assert!(tcp.allow_outgoing);
}

#[test]
fn merge_with_empty_previous_is_identity() {
    let mut new = EfenseConfig {
        interfaces: vec![iface("eth0", Some(udp_policy(&[("u", 53)])), None)],
    };
    let old = EfenseConfig { interfaces: Vec::new() };
    new.merge(&old);
    assert_eq!(new.interfaces.len(), 1);
    assert_eq!(new.interfaces[0].udp.as_ref().unwrap().allow_list[0].src_port, Some(53));
    assert!(new.interfaces[0].tcp.is_none());
}

#[test]
fn interface_merge_fills_only_missing() {
    let mut a = iface("eth0", None, Some(tcp_policy(&[("web", 443)], false)));
    let b = iface("eth0", Some(udp_policy(&[("dns", 53)])), Some(tcp_policy(&[("ssh", 22)], true)));
    a.merge(&b);
    assert_eq!(a.udp.as_ref().unwrap().allow_list[0].src_port, Some(53));
    assert_eq!(a.tcp.as_ref().unwrap().allow_list[0].port, 443);
    assert!(!a.tcp.as_ref().unwrap().allow_outgoing);
}

#[test]
fn merge_twice_is_merge_once() {
    let mut new = EfenseConfig {
        interfaces: vec![
            iface("eth1", None, Some(tcp_policy(&[("web", 443)], false))),
            iface("eth0", Some(udp_policy(&[("dns", 53)])), None),
        ],
    };
    let old = EfenseConfig {
        interfaces: vec![
            iface("eth0", Some(udp_policy(&[("ntp", 123)])), Some(tcp_policy(&[("ssh", 22)], true))),
            iface("eth2", Some(udp_policy(&[("syslog", 514)])), None),
            iface("eth1", Some(udp_policy(&[("mdns", 5353)])), None),
        ],
    };
    new.merge(&old);
    let once: Vec<(String, Option<u16>, Option<u16>)> = new
        .interfaces
        .iter()
        .map(|i| {
            (
                i.name.clone(),
                i.udp.as_ref().and_then(|u| u.allow_list[0].src_port),
                i.tcp.as_ref().map(|t| t.allow_list[0].port),
            )
        })
        .collect();
    new.merge(&old);
    let twice: Vec<(String, Option<u16>, Option<u16>)> = new
        .interfaces
        .iter()
        .map(|i| {
            (
                i.name.clone(),
                i.udp.as_ref().and_then(|u| u.allow_list[0].src_port),
                i.tcp.as_ref().map(|t| t.allow_list[0].port),
            )
        })
        .collect();
    assert_eq!(once, twice);
    assert_eq!(
        once,
        vec![
            ("eth1".to_string(), Some(5353), Some(443)),
            ("eth0".to_string(), Some(53), Some(22)),
            ("eth2".to_string(), Some(514), None),
        ]
    );
}
