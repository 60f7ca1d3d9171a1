use efense::error::{format_error_chain, EfenseError, EfenseErrorCode, ErrorKind};
use efense::event::{ipv4_octets, timestamp_from_rfc3339, timestamp_to_rfc3339, Timestamp};
use efense::pin::{
    link_pin_dir, link_pin_path, main_map_pin_dir, main_map_pin_path, map_pins, pin_dirs,
    program_pin_path,
    tcp_ingress_map_pin_dir, tcp_ingress_map_pin_path, udp_ingress_map_pin_dir,
    udp_ingress_map_pin_path,
};
use efense::policy::{Ipv4Cidr, PortKey, PrefixPort, AckTrackKey, CFG_BLOB_LEN};
use efense::raw::{Tcp4EventRaw, Udp4EventRaw};
use efense::store::{cfg_blob, stored_config_len};
use std::convert::TryInto;
use efense::tcp::Tcp4Event;
use efense::udp::Udp4Event;

#[test]
fn error_display_and_chain() {
    let e = EfenseError { kind: ErrorKind::BpfMap, msg: "CFG map not found".to_string() };
    assert_eq!(e.to_string(), "Map: CFG map not found");
    let e = EfenseError::from("boom".to_string());
    assert_eq!(e.kind, ErrorKind::Bug);
    assert_eq!(e.to_string(), "Bug: boom");
    assert_eq!(ErrorKind::Io.as_str(), "Io");
    assert_eq!(ErrorKind::TryFromSlice.as_str(), "TryFromSlice");
    let chain = vec!["a".to_string(), "b".to_string(), "c".to_string()];
    assert_eq!(format_error_chain(&chain), "a: b: c");
    assert_eq!(format_error_chain(&vec!["only".to_string()]), "only");
    assert_eq!(format_error_chain(&Vec::new()), "");
    assert_eq!(EfenseErrorCode::PacketTooSmall.as_str(), "packet too small");
    assert_eq!(EfenseErrorCode::InvalidProtocol.as_str(), "invalid protocol");
}

#[test]
fn pin_paths() {
    assert_eq!(program_pin_path(), "/sys/fs/bpf/efence_udp_ingress/program");
    assert_eq!(udp_ingress_map_pin_dir(), "/sys/fs/bpf/efence_udp_ingress/map");
    assert_eq!(
        udp_ingress_map_pin_path("UDP_IN_IF2LPM"),
        "/sys/fs/bpf/efence_udp_ingress/map/UDP_IN_IF2LPM"
    );
    assert_eq!(tcp_ingress_map_pin_dir(), "/sys/fs/bpf/efence_tcp_ingress/map");
    assert_eq!(
        tcp_ingress_map_pin_path("TCP_IN_PORT_ACT"),
        "/sys/fs/bpf/efence_tcp_ingress/map/TCP_IN_PORT_ACT"
    );
    assert_eq!(main_map_pin_dir(), "/sys/fs/bpf/efence_main/map");
    assert_eq!(main_map_pin_path("CFG"), "/sys/fs/bpf/efence_main/map/CFG");
    assert_eq!(link_pin_dir(), "/sys/fs/bpf/efence_udp_ingress/link");
    assert_eq!(link_pin_path("enp2s0"), "/sys/fs/bpf/efence_udp_ingress/link/enp2s0");
    assert_eq!(link_pin_path("/abs"), "/abs");
    assert_eq!(
        pin_dirs(),
        vec![
            "/sys/fs/bpf/efence_main",
            "/sys/fs/bpf/efence_main/map",
            "/sys/fs/bpf/efence_udp_ingress",
            "/sys/fs/bpf/efence_udp_ingress/map",
            "/sys/fs/bpf/efence_udp_ingress/link",
            "/sys/fs/bpf/efence_tcp_ingress",
            "/sys/fs/bpf/efence_tcp_ingress/map",
        ]
    );
    let pins = map_pins();
    assert_eq!(pins.len(), 14);
    assert_eq!(pins[0], ("UDP_IN_IF2LPM", "/sys/fs/bpf/efence_udp_ingress/map/UDP_IN_IF2LPM".to_string()));
    assert_eq!(
        pins[6],
        ("TCP_ACK_ISN_TRACKER", "/sys/fs/bpf/efence_tcp_ingress/map/TCP_ACK_ISN_TRACKER".to_string())
    );
    assert_eq!(pins[13], ("MONITOR_ENABLED", "/sys/fs/bpf/efence_main/map/MONITOR_ENABLED".to_string()));
}

#[test]
fn cfg_blob_framing() {
    let json = b"{\"interfaces\":[]}".to_vec();
    let (blob, len) = cfg_blob(&json).unwrap();
    assert_eq!(len as usize, json.len());
    assert_eq!(blob.len(), CFG_BLOB_LEN);
    assert_eq!(&blob[..json.len()], &json[..]);
    assert!(blob[json.len()..].iter().all(|b| *b == 0));
    let big = vec![b'x'; CFG_BLOB_LEN + 1];
    let e = cfg_blob(&big).err().unwrap();
    assert_eq!(e.msg, "serialized config is 65537 bytes, exceeds max 65536");
    assert!(cfg_blob(&vec![0u8; CFG_BLOB_LEN]).is_ok());
}

#[test]
fn stored_length() {
    assert_eq!(stored_config_len(0).unwrap(), None);
    assert_eq!(stored_config_len(17).unwrap(), Some(17));
    assert_eq!(stored_config_len(65536).unwrap(), Some(65536));
    let e = stored_config_len(65537).err().unwrap();
    assert_eq!(e.msg, "stored config length 65537 exceeds max 65536");
    let (_, len) = cfg_blob(&b"abc".to_vec()).unwrap();
    assert_eq!(stored_config_len(len).unwrap(), Some(3));
}

#[test]
fn canonical_prefixes() {
    let c = Ipv4Cidr::new([192, 168, 1, 77], 24);
    assert_eq!(c.addr, [192, 168, 1, 0]);
    assert_eq!(c.prefix_len, 24);
    assert_eq!(Ipv4Cidr::new([10, 255, 255, 255], 9).addr, [10, 128, 0, 0]);
    assert_eq!(Ipv4Cidr::new([1, 2, 3, 4], 32).addr, [1, 2, 3, 4]);
    assert_eq!(Ipv4Cidr::new([1, 2, 3, 4], 0).addr, [0, 0, 0, 0]);
    assert_eq!(Ipv4Cidr::any(), Ipv4Cidr::new([9, 9, 9, 9], 0));
    for len in 0u8..=32 {
        let once = Ipv4Cidr::new([203, 0, 113, 77], len);
        assert_eq!(Ipv4Cidr::new(once.addr, len), once);
    }
    let pp = PrefixPort::new(c, 53);
    assert_eq!((pp.prefix, pp.port, pp._pad), (c, 53, [0, 0]));
    let k = PortKey::new(3, 22);
    assert_eq!((k.ifindex, k.port, k._pad), (3, 22, [0, 0]));
    let a = AckTrackKey::new([1, 2, 3, 4], 80);
    assert_eq!((a.src_ip, a.src_port, a._pad), ([1, 2, 3, 4], 80, [0, 0]));
}

fn record(src: u32, dst: u32, sp: u16, dp: u16, ts: u64) -> Vec<u8> {
    let mut b = Vec::new();
    b.extend_from_slice(&src.to_ne_bytes());
    b.extend_from_slice(&dst.to_ne_bytes());
    b.extend_from_slice(&sp.to_ne_bytes());
    b.extend_from_slice(&dp.to_ne_bytes());
    b.extend_from_slice(&[0xaa; 4]);
    b.extend_from_slice(&ts.to_ne_bytes());
    b
}

#[test]
fn raw_event_records() {
    let b = record(0x0a000001, 0xc0a80101, 12345, 80, 1_000_000_000_001);
    let r = Udp4EventRaw::parse(&b).unwrap();
    assert_eq!(r, Udp4EventRaw::new(0x0a000001, 0xc0a80101, 12345, 80, 1_000_000_000_001));
    let t = Tcp4EventRaw::parse(&b).unwrap();
    assert_eq!(t, Tcp4EventRaw::new(0x0a000001, 0xc0a80101, 12345, 80, 1_000_000_000_001));
    assert_eq!(Udp4EventRaw::parse(&b[..23]).err(), Some("invalid UDP4 event size"));
    assert_eq!(Tcp4EventRaw::parse(&[0u8; 25]).err(), Some("invalid TCP4 event size"));
}

#[test]
fn events_from_records() {
    let raw = Udp4EventRaw::new(0x0a000001, 0xc0a80101, 12345, 80, 1_000_000_000_001);
    let e = Udp4Event::from_raw(raw, 1_700_000_000);
    assert_eq!(e.src, [10, 0, 0, 1]);
    assert_eq!(e.dst, [192, 168, 1, 1]);
    assert_eq!((e.src_port, e.dst_port), (12345, 80));
    assert_eq!(e.timestamp, Timestamp { secs: 1_700_001_000, nanos: 1 });
    let raw = Tcp4EventRaw::new(0x0a000002, 0xc0a80102, 54321, 443, 2_000_000_000_002);
    let e = Tcp4Event::from_raw(raw, 0);
    assert_eq!(e.src, [10, 0, 0, 2]);
    assert_eq!(e.timestamp, Timestamp { secs: 2000, nanos: 2 });
    assert_eq!(ipv4_octets(0x7f000001), [127, 0, 0, 1]);
    assert_eq!(Timestamp::after_boot(u64::MAX, 2_000_000_000), Timestamp { secs: 0, nanos: 0 });
}

#[test]
fn timestamps_as_rfc3339() {
    let ts = Timestamp { secs: 1_000_000_000, nanos: 1 };
    let text = timestamp_to_rfc3339(ts).unwrap();
    assert_eq!(text, "2001-09-09T01:46:40.000000001Z");
    assert_eq!(timestamp_from_rfc3339(&text).unwrap(), ts);
    assert_eq!(timestamp_to_rfc3339(Timestamp { secs: 0, nanos: 0 }).unwrap(), "1970-01-01T00:00:00Z");
    assert_eq!(
        timestamp_from_rfc3339("1969-12-31T23:59:59Z").err().unwrap(),
        "timestamp before UNIX_EPOCH"
    );
    assert!(timestamp_from_rfc3339("not a time").is_err());
    assert_eq!(
        timestamp_from_rfc3339("2001-09-09T03:46:40+02:00").unwrap(),
        Timestamp { secs: 1_000_000_000, nanos: 0 }
    );
}

#[test]
fn errors_from_text_and_slice_conversions() {
    let e: EfenseError = "no such map".into();
    assert_eq!(e.kind, ErrorKind::Bug);
    assert_eq!(e.msg, "no such map");
    assert_eq!(e.to_string(), "Bug: no such map");
    let short: &[u8] = &[1, 2];
    let failed: Result<[u8; 4], _> = short.try_into();
    let e = EfenseError::from(failed.unwrap_err());
    assert_eq!(e.kind, ErrorKind::TryFromSlice);
    assert_eq!(e.msg, "could not convert slice to array");
}

#[test]
fn cfg_blob_reads_back() {
    let json = b"{\"interfaces\":[{\"name\":\"eth0\"}]}".to_vec();
    let (blob, len) = cfg_blob(&json).unwrap();
    let n = stored_config_len(len).unwrap().unwrap();
    assert_eq!(n, json.len());
    assert_eq!(&blob[..n], &json[..]);
    let full = vec![7u8; CFG_BLOB_LEN];
    let (blob, len) = cfg_blob(&full).unwrap();
    let n = stored_config_len(len).unwrap().unwrap();
    assert_eq!(&blob[..n], &full[..]);
}
