//! Filesystem layout for pinning the efense eBPF objects.
//!
//! Three pin roots: one for maps shared by all subsystems (the
//! serialized configuration, event ring buffers, flags), and one per
//! ingress subsystem (UDP, TCP) for its program, private maps and
//! per-interface links:
//!
//! ```text
//! /sys/fs/bpf/efence_main/map/...
//! /sys/fs/bpf/efence_udp_ingress/{program, map/..., link/<iface>}
//! /sys/fs/bpf/efence_tcp_ingress/map/...
//! ```

use crate::policy::{
    MAP_CFG, MAP_CFG_LEN, MAP_MONITOR_ENABLED, MAP_PORT_ALLOW_LIST, MAP_PROTO_DFLT, MAP_TCP4_EVENTS,
    MAP_TCP_ACK_FLOOD_PROTECTION_ENABLED, MAP_TCP_ACK_ISN_TRACKER,
    MAP_TCP_INGRESS_IFACE_DEFAULT_ACTION, MAP_TCP_INGRESS_IFACE_TO_LPM, MAP_TCP_INGRESS_PORT_ACTION,
    MAP_UDP4_EVENTS, MAP_UDP_INGRESS_IFACE_TO_LPM, MAP_UDP_INGRESS_PORT_ACTION,
};
use crate::text::chars_of;
use vstd::prelude::*;

verus! {

/// Pin root for state shared across efense subsystems.
pub const PIN_MAIN_DIR: &'static str = "/sys/fs/bpf/efence_main";

/// Pin root for the UDP-ingress XDP subsystem.
pub const PIN_UDP_INGRESS_DIR: &'static str = "/sys/fs/bpf/efence_udp_ingress";

/// Pin root for the TCP-ingress XDP subsystem.
pub const PIN_TCP_INGRESS_DIR: &'static str = "/sys/fs/bpf/efence_tcp_ingress";

pub const PIN_PROG_NAME: &'static str = "program";

pub const PIN_MAP_SUBDIR: &'static str = "map";

pub const PIN_LINK_SUBDIR: &'static str = "link";

/// `Path::join` of a component onto a directory that does not end in
/// `/`: an absolute component replaces the directory, any other is
/// appended after a `/`.
pub open spec fn spec_join(dir: Seq<char>, c: Seq<char>) -> Seq<char> {
    if c.len() > 0 && c[0] == '/' {
        c
    } else {
        dir + "/"@ + c
    }
}

/// Join `c` onto `dir` (which must not end in `/`).
fn join(dir: &str, c: &str) -> (r: String)
    ensures
        r@ == spec_join(dir@, c@),
{
    let cs = chars_of(c);
    if cs.len() > 0 && cs[0] == '/' {
        return String::from_str(c);
    }
    let mut s = String::from_str(dir);
    s.append("/");
    s.append(c);
    s
}

/// Pin path of the XDP program.
pub fn program_pin_path() -> (r: String)
    ensures
        r@ == PIN_UDP_INGRESS_DIR@ + "/"@ + PIN_PROG_NAME@,
{
    let mut s = String::from_str(PIN_UDP_INGRESS_DIR);
    s.append("/");
    s.append(PIN_PROG_NAME);
    s
}

/// Directory of the UDP-ingress private maps.
pub fn udp_ingress_map_pin_dir() -> (r: String)
    ensures
        r@ == PIN_UDP_INGRESS_DIR@ + "/"@ + PIN_MAP_SUBDIR@,
{
    let mut s = String::from_str(PIN_UDP_INGRESS_DIR);
    s.append("/");
    s.append(PIN_MAP_SUBDIR);
    s
}

/// Pin path of the UDP-ingress private map `name`.
pub fn udp_ingress_map_pin_path(name: &str) -> (r: String)
    ensures
        r@ == spec_join(PIN_UDP_INGRESS_DIR@ + "/"@ + PIN_MAP_SUBDIR@, name@),
{
    let d = udp_ingress_map_pin_dir();
    join(d.as_str(), name)
}

/// Directory of the TCP-ingress private maps.
pub fn tcp_ingress_map_pin_dir() -> (r: String)
    ensures
        r@ == PIN_TCP_INGRESS_DIR@ + "/"@ + PIN_MAP_SUBDIR@,
{
    let mut s = String::from_str(PIN_TCP_INGRESS_DIR);
    s.append("/");
    s.append(PIN_MAP_SUBDIR);
    s
}

/// Pin path of the TCP-ingress private map `name`.
pub fn tcp_ingress_map_pin_path(name: &str) -> (r: String)
    ensures
        r@ == spec_join(PIN_TCP_INGRESS_DIR@ + "/"@ + PIN_MAP_SUBDIR@, name@),
{
    let d = tcp_ingress_map_pin_dir();
    join(d.as_str(), name)
}

/// Directory of the shared (main) maps.
pub fn main_map_pin_dir() -> (r: String)
    ensures
        r@ == PIN_MAIN_DIR@ + "/"@ + PIN_MAP_SUBDIR@,
{
    let mut s = String::from_str(PIN_MAIN_DIR);
    s.append("/");
    s.append(PIN_MAP_SUBDIR);
    s
}

/// Pin path of the shared map `name`.
pub fn main_map_pin_path(name: &str) -> (r: String)
    ensures
        r@ == spec_join(PIN_MAIN_DIR@ + "/"@ + PIN_MAP_SUBDIR@, name@),
{
    let d = main_map_pin_dir();
    join(d.as_str(), name)
}

/// Directory of the per-interface XDP links.
pub fn link_pin_dir() -> (r: String)
    ensures
        r@ == PIN_UDP_INGRESS_DIR@ + "/"@ + PIN_LINK_SUBDIR@,
{
    let mut s = String::from_str(PIN_UDP_INGRESS_DIR);
    s.append("/");
    s.append(PIN_LINK_SUBDIR);
    s
}

/// Pin path of the XDP link of interface `iface`.
pub fn link_pin_path(iface: &str) -> (r: String)
    ensures
        r@ == spec_join(PIN_UDP_INGRESS_DIR@ + "/"@ + PIN_LINK_SUBDIR@, iface@),
{
    let d = link_pin_dir();
    join(d.as_str(), iface)
}

pub open spec fn udp_map_dir() -> Seq<char> {
    PIN_UDP_INGRESS_DIR@ + "/"@ + PIN_MAP_SUBDIR@
}

pub open spec fn tcp_map_dir() -> Seq<char> {
    PIN_TCP_INGRESS_DIR@ + "/"@ + PIN_MAP_SUBDIR@
}

pub open spec fn main_map_dir() -> Seq<char> {
    PIN_MAIN_DIR@ + "/"@ + PIN_MAP_SUBDIR@
}

/// The directories to create before pinning, parents first.
pub open spec fn spec_pin_dirs() -> Seq<Seq<char>> {
    seq![
        PIN_MAIN_DIR@,
        main_map_dir(),
        PIN_UDP_INGRESS_DIR@,
        udp_map_dir(),
        PIN_UDP_INGRESS_DIR@ + "/"@ + PIN_LINK_SUBDIR@,
        PIN_TCP_INGRESS_DIR@,
        tcp_map_dir(),
    ]
}

/// The pin directories, parents first.
pub fn pin_dirs() -> (r: Vec<String>)
    ensures
        r@.map_values(|s: String| s@) == spec_pin_dirs(),
{
    let mut v: Vec<String> = Vec::new();
    v.push(String::from_str(PIN_MAIN_DIR));
    v.push(main_map_pin_dir());
    v.push(String::from_str(PIN_UDP_INGRESS_DIR));
    v.push(udp_ingress_map_pin_dir());
    v.push(link_pin_dir());
    v.push(String::from_str(PIN_TCP_INGRESS_DIR));
    v.push(tcp_ingress_map_pin_dir());
    assert(v@.map_values(|s: String| s@) =~= spec_pin_dirs());
    v
}

/// Every map that `efctl apply` pins, with its pin path: the UDP-ingress
/// maps under the UDP-ingress root, the TCP-ingress maps (the ACK
/// tracker among them) under the TCP-ingress root, and the shared maps
/// under the main root.
pub open spec fn spec_map_pins() -> Seq<(Seq<char>, Seq<char>)> {
    seq![
        (MAP_UDP_INGRESS_IFACE_TO_LPM@, spec_join(udp_map_dir(), MAP_UDP_INGRESS_IFACE_TO_LPM@)),
        (MAP_UDP_INGRESS_PORT_ACTION@, spec_join(udp_map_dir(), MAP_UDP_INGRESS_PORT_ACTION@)),
        (MAP_TCP_INGRESS_IFACE_DEFAULT_ACTION@, spec_join(tcp_map_dir(), MAP_TCP_INGRESS_IFACE_DEFAULT_ACTION@)),
        (MAP_TCP_INGRESS_IFACE_TO_LPM@, spec_join(tcp_map_dir(), MAP_TCP_INGRESS_IFACE_TO_LPM@)),
        (MAP_TCP_INGRESS_PORT_ACTION@, spec_join(tcp_map_dir(), MAP_TCP_INGRESS_PORT_ACTION@)),
        (MAP_TCP_ACK_FLOOD_PROTECTION_ENABLED@, spec_join(tcp_map_dir(), MAP_TCP_ACK_FLOOD_PROTECTION_ENABLED@)),
        (MAP_TCP_ACK_ISN_TRACKER@, spec_join(tcp_map_dir(), MAP_TCP_ACK_ISN_TRACKER@)),
        (MAP_CFG@, spec_join(main_map_dir(), MAP_CFG@)),
        (MAP_CFG_LEN@, spec_join(main_map_dir(), MAP_CFG_LEN@)),
        (MAP_PORT_ALLOW_LIST@, spec_join(main_map_dir(), MAP_PORT_ALLOW_LIST@)),
        (MAP_PROTO_DFLT@, spec_join(main_map_dir(), MAP_PROTO_DFLT@)),
        (MAP_UDP4_EVENTS@, spec_join(main_map_dir(), MAP_UDP4_EVENTS@)),
        (MAP_TCP4_EVENTS@, spec_join(main_map_dir(), MAP_TCP4_EVENTS@)),
        (MAP_MONITOR_ENABLED@, spec_join(main_map_dir(), MAP_MONITOR_ENABLED@)),
    ]
}

pub open spec fn pins_view(v: Seq<(&'static str, String)>) -> Seq<(Seq<char>, Seq<char>)> {
    v.map_values(|e: (&'static str, String)| (e.0@, e.1@))
}

/// The maps to pin and their pin paths, in pinning order.
pub fn map_pins() -> (r: Vec<(&'static str, String)>)
    ensures
        pins_view(r@) == spec_map_pins(),
{
    let mut v: Vec<(&'static str, String)> = Vec::new();
    v.push((MAP_UDP_INGRESS_IFACE_TO_LPM, udp_ingress_map_pin_path(MAP_UDP_INGRESS_IFACE_TO_LPM)));
    v.push((MAP_UDP_INGRESS_PORT_ACTION, udp_ingress_map_pin_path(MAP_UDP_INGRESS_PORT_ACTION)));
    v.push(
        (
            MAP_TCP_INGRESS_IFACE_DEFAULT_ACTION,
            tcp_ingress_map_pin_path(MAP_TCP_INGRESS_IFACE_DEFAULT_ACTION),
        ),
    );
    v.push((MAP_TCP_INGRESS_IFACE_TO_LPM, tcp_ingress_map_pin_path(MAP_TCP_INGRESS_IFACE_TO_LPM)));
    v.push((MAP_TCP_INGRESS_PORT_ACTION, tcp_ingress_map_pin_path(MAP_TCP_INGRESS_PORT_ACTION)));
    v.push(
        (
            MAP_TCP_ACK_FLOOD_PROTECTION_ENABLED,
            tcp_ingress_map_pin_path(MAP_TCP_ACK_FLOOD_PROTECTION_ENABLED),
        ),
    );
    v.push((MAP_TCP_ACK_ISN_TRACKER, tcp_ingress_map_pin_path(MAP_TCP_ACK_ISN_TRACKER)));
    v.push((MAP_CFG, main_map_pin_path(MAP_CFG)));
    v.push((MAP_CFG_LEN, main_map_pin_path(MAP_CFG_LEN)));
    v.push((MAP_PORT_ALLOW_LIST, main_map_pin_path(MAP_PORT_ALLOW_LIST)));
    v.push((MAP_PROTO_DFLT, main_map_pin_path(MAP_PROTO_DFLT)));
    v.push((MAP_UDP4_EVENTS, main_map_pin_path(MAP_UDP4_EVENTS)));
    v.push((MAP_TCP4_EVENTS, main_map_pin_path(MAP_TCP4_EVENTS)));
    v.push((MAP_MONITOR_ENABLED, main_map_pin_path(MAP_MONITOR_ENABLED)));
    assert(pins_view(v@) =~= spec_map_pins());
    v
}

/// The maps shared by all subsystems, which `efctl show`, `efctl
/// monitor` and the next `efctl apply` read at their shared pin paths.
pub open spec fn is_shared_map_name(n: Seq<char>) -> bool {
    ||| n == "CFG"@
    ||| n == "CFG_LEN"@
    ||| n == "PORT_ALLOW_LIST"@
    ||| n == "PROTO_DFLT"@
    ||| n == "UDP4_EVENTS"@
    ||| n == "TCP4_EVENTS"@
    ||| n == "MONITOR_ENABLED"@
}

/// The maps of the UDP-ingress subsystem.
pub open spec fn is_udp_ingress_map_name(n: Seq<char>) -> bool {
    n == "UDP_IN_IF2LPM"@ || n == "UDP_IN_PORT_ACT"@
}

/// The maps of the TCP-ingress subsystem.
pub open spec fn is_tcp_ingress_map_name(n: Seq<char>) -> bool {
    ||| n == "TCP_IN_IFACE_DFLT"@
    ||| n == "TCP_IN_IF2LPM"@
    ||| n == "TCP_IN_PORT_ACT"@
    ||| n == "TCP_ACK_FLOOD_PROT_ENABLED"@
    ||| n == "TCP_ACK_ISN_TRACKER"@
}

/// Pin-layout law: every map is in the pin list, and each entry
/// of the list that names a shared map pins it at
/// `/sys/fs/bpf/efence_main/map/<name>`, the path its readers open
/// (that of [`main_map_pin_path`]); the UDP-ingress maps are pinned under
/// the UDP-ingress map directory and the others under the TCP-ingress
/// one.
pub proof fn law_shared_maps_pinned_where_read()
    ensures
        forall|q: int|
            0 <= q < spec_map_pins().len() && is_shared_map_name(#[trigger] spec_map_pins()[q].0) ==> {
                &&& spec_map_pins()[q].1 == "/sys/fs/bpf/efence_main/map/"@ + spec_map_pins()[q].0
                &&& spec_map_pins()[q].1 == spec_join(PIN_MAIN_DIR@ + "/"@ + PIN_MAP_SUBDIR@, spec_map_pins()[q].0)
            },
        forall|q: int|
            0 <= q < spec_map_pins().len() && is_udp_ingress_map_name(#[trigger] spec_map_pins()[q].0)
                ==> spec_map_pins()[q].1 == "/sys/fs/bpf/efence_udp_ingress/map/"@ + spec_map_pins()[q].0,
        forall|q: int|
            0 <= q < spec_map_pins().len() && !is_shared_map_name(#[trigger] spec_map_pins()[q].0)
                && !is_udp_ingress_map_name(spec_map_pins()[q].0) ==> spec_map_pins()[q].1
                == "/sys/fs/bpf/efence_tcp_ingress/map/"@ + spec_map_pins()[q].0
                && is_tcp_ingress_map_name(spec_map_pins()[q].0),
        forall|n: Seq<char>|
            is_shared_map_name(n) || is_udp_ingress_map_name(n) || is_tcp_ingress_map_name(n) ==> exists|q: int|
                0 <= q < spec_map_pins().len() && (#[trigger] spec_map_pins()[q]).0 == n,
{
    reveal_strlit("CFG");
    reveal_strlit("CFG_LEN");
    reveal_strlit("PORT_ALLOW_LIST");
    reveal_strlit("PROTO_DFLT");
    reveal_strlit("UDP4_EVENTS");
    reveal_strlit("TCP4_EVENTS");
    reveal_strlit("MONITOR_ENABLED");
    reveal_strlit("UDP_IN_IF2LPM");
    reveal_strlit("UDP_IN_PORT_ACT");
    reveal_strlit("TCP_IN_IFACE_DFLT");
    reveal_strlit("TCP_IN_IF2LPM");
    reveal_strlit("TCP_IN_PORT_ACT");
    reveal_strlit("TCP_ACK_FLOOD_PROT_ENABLED");
    reveal_strlit("TCP_ACK_ISN_TRACKER");
    reveal_strlit("/sys/fs/bpf/efence_main");
    reveal_strlit("/sys/fs/bpf/efence_udp_ingress");
    reveal_strlit("/sys/fs/bpf/efence_tcp_ingress");
    reveal_strlit("/sys/fs/bpf/efence_main/map/");
    reveal_strlit("/sys/fs/bpf/efence_udp_ingress/map/");
    reveal_strlit("/sys/fs/bpf/efence_tcp_ingress/map/");
    reveal_strlit("map");
    reveal_strlit("/");
    let v = spec_map_pins();
    assert forall|q: int| 0 <= q < v.len() implies v[q].0.len() > 0 && v[q].0[0] != '/' by {}
    assert(("/sys/fs/bpf/efence_main"@ + "/"@ + "map"@) + "/"@ =~= "/sys/fs/bpf/efence_main/map/"@);
    assert(("/sys/fs/bpf/efence_udp_ingress"@ + "/"@ + "map"@) + "/"@ =~= "/sys/fs/bpf/efence_udp_ingress/map/"@);
    assert(("/sys/fs/bpf/efence_tcp_ingress"@ + "/"@ + "map"@) + "/"@ =~= "/sys/fs/bpf/efence_tcp_ingress/map/"@);
    assert forall|q: int| 0 <= q < v.len() implies (is_shared_map_name(#[trigger] v[q].0) ==> v[q].1
        == "/sys/fs/bpf/efence_main/map/"@ + v[q].0) by {
        if is_shared_map_name(v[q].0) {
            assert(v[q].1 =~= "/sys/fs/bpf/efence_main/map/"@ + v[q].0);
        }
    }
    assert forall|q: int| 0 <= q < v.len() implies (is_udp_ingress_map_name(#[trigger] v[q].0) ==> v[q].1
        == "/sys/fs/bpf/efence_udp_ingress/map/"@ + v[q].0) && (!is_shared_map_name(v[q].0)
        && !is_udp_ingress_map_name(v[q].0) ==> v[q].1 == "/sys/fs/bpf/efence_tcp_ingress/map/"@ + v[q].0
        && is_tcp_ingress_map_name(v[q].0)) by {
        if is_udp_ingress_map_name(v[q].0) {
            assert(v[q].1 =~= "/sys/fs/bpf/efence_udp_ingress/map/"@ + v[q].0);
        } else if !is_shared_map_name(v[q].0) {
            assert(v[q].1 =~= "/sys/fs/bpf/efence_tcp_ingress/map/"@ + v[q].0);
        }
    }
    assert(v[0].0 == "UDP_IN_IF2LPM"@);
    assert(v[1].0 == "UDP_IN_PORT_ACT"@);
    assert(v[2].0 == "TCP_IN_IFACE_DFLT"@);
    assert(v[3].0 == "TCP_IN_IF2LPM"@);
    assert(v[4].0 == "TCP_IN_PORT_ACT"@);
    assert(v[5].0 == "TCP_ACK_FLOOD_PROT_ENABLED"@);
    assert(v[6].0 == "TCP_ACK_ISN_TRACKER"@);
    assert(v[7].0 == "CFG"@);
    assert(v[8].0 == "CFG_LEN"@);
    assert(v[9].0 == "PORT_ALLOW_LIST"@);
    assert(v[10].0 == "PROTO_DFLT"@);
    assert(v[11].0 == "UDP4_EVENTS"@);
    assert(v[12].0 == "TCP4_EVENTS"@);
    assert(v[13].0 == "MONITOR_ENABLED"@);
}

} // verus!
