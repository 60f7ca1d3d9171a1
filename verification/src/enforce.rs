//! The decision the XDP program takes on each ingress packet, computed
//! from the contents of the kernel maps (as planned by
//! [`crate::plan::populate_maps`]) and, for TCP ACK flood protection,
//! the per-source sequence tracker.

use crate::error::EfenseErrorCode;
use crate::monitor::{
    is_monitor_enabled, spec_be_u32, spec_monitor_tcp, spec_monitor_udp, try_monitor_tcp,
    try_monitor_udp,
};
use crate::plan::{IfacePolicy, IfacePolicyView, MapPlan, MapPlanView};
use crate::policy::{self, spec_covers, CidrView, ACTION_PASS, ALLOW_OUTGOING_FLAG, PORT_ANY};
use crate::protect::{protect_tcp_ack_flood, spec_protect, AckTracker};
use crate::raw::{Tcp4EventRaw, Udp4EventRaw};
use vstd::prelude::*;

verus! {

/// `XDP_DROP` return code of an XDP program.
pub const XDP_DROP: u32 = 1;

/// `XDP_PASS` return code of an XDP program.
pub const XDP_PASS: u32 = 2;

pub open spec fn spec_action_to_xdp(action: u32) -> u32 {
    if action & 1 == 0 {
        XDP_PASS
    } else {
        XDP_DROP
    }
}

/// The XDP code for a stored action value (only its low bit counts).
pub fn action_to_xdp(action: u32) -> (r: u32)
    ensures
        r == spec_action_to_xdp(action),
{
    if action & 1 == 0 {
        XDP_PASS
    } else {
        XDP_DROP
    }
}

/// The XDP code for a TCP packet no rule matched on an interface.
pub fn tcp_iface_default_action(_ifindex: u32) -> (r: u32)
    ensures
        r == XDP_DROP,
{
    XDP_DROP
}

/// The policy of interface index `k` in a hash-of-maps filled by
/// inserting the entries in order (a later insert replaces an earlier
/// one, so the last entry for `k` counts).
pub open spec fn spec_lookup_entry(s: Seq<(u32, IfacePolicyView)>, k: u32) -> Option<IfacePolicyView>
    decreases s.len(),
{
    if s.len() == 0 {
        None
    } else if s.last().0 == k {
        Some(s.last().1)
    } else {
        spec_lookup_entry(s.drop_last(), k)
    }
}

/// The value of key `k` in a hash map filled by inserting `entries` in
/// order (a later insert replaces an earlier one).
pub open spec fn spec_map_get<K>(entries: Seq<(K, u32)>, k: K) -> Option<u32>
    decreases entries.len(),
{
    if entries.len() == 0 {
        None
    } else if entries.last().0 == k {
        Some(entries.last().1)
    } else {
        spec_map_get(entries.drop_last(), k)
    }
}

/// No key occurs twice among the entries.
pub open spec fn keys_distinct<K>(s: Seq<(K, u32)>) -> bool {
    forall|i: int, j: int| 0 <= i < s.len() && 0 <= j < s.len() && i != j ==> s[i].0 != s[j].0
}

/// A key has a value in a map filled with `s` exactly when some entry
/// holds it.
pub proof fn lemma_map_get_some_iff<K>(s: Seq<(K, u32)>, k: K)
    ensures
        spec_map_get(s, k) is Some <==> exists|i: int| 0 <= i < s.len() && s[i].0 == k,
    decreases s.len(),
{
    if s.len() > 0 {
        lemma_map_get_some_iff(s.drop_last(), k);
        if exists|i: int| 0 <= i < s.len() && s[i].0 == k {
            let i = choose|i: int| 0 <= i < s.len() && s[i].0 == k;
            if i < s.len() - 1 {
                assert(s.drop_last()[i] == s[i]);
            }
        }
        if exists|i: int| 0 <= i < s.len() - 1 && s.drop_last()[i].0 == k {
            let i = choose|i: int| 0 <= i < s.len() - 1 && s.drop_last()[i].0 == k;
            assert(s[i] == s.drop_last()[i]);
        }
    }
}

/// The value found for a key is that of some entry holding it.
pub proof fn lemma_map_get_found<K>(s: Seq<(K, u32)>, k: K)
    ensures
        spec_map_get(s, k) matches Some(v) ==> exists|i: int| 0 <= i < s.len() && s[i] == (k, v),
    decreases s.len(),
{
    if s.len() > 0 && s.last().0 != k {
        lemma_map_get_found(s.drop_last(), k);
        if spec_map_get(s, k) is Some {
            let v = spec_map_get(s, k)->Some_0;
            let i = choose|i: int| 0 <= i < s.len() - 1 && s.drop_last()[i] == (k, v);
            assert(s[i] == s.drop_last()[i]);
        }
    }
}

/// With distinct keys, the value of a key is that of the entry holding
/// it.
pub proof fn lemma_map_get_distinct<K>(s: Seq<(K, u32)>, i: int)
    requires
        keys_distinct(s),
        0 <= i < s.len(),
    ensures
        spec_map_get(s, s[i].0) == Some(s[i].1),
    decreases s.len(),
{
    if i < s.len() - 1 {
        assert(s.last().0 != s[i].0);
        assert(s.drop_last()[i] == s[i]);
        assert(keys_distinct(s.drop_last())) by {
            assert forall|a: int, b: int|
                0 <= a < s.len() - 1 && 0 <= b < s.len() - 1 && a != b implies s.drop_last()[a].0
                != s.drop_last()[b].0 by {
                assert(s.drop_last()[a] == s[a]);
                assert(s.drop_last()[b] == s[b]);
            }
        }
        lemma_map_get_distinct(s.drop_last(), i);
    }
}

/// In a hash-of-maps whose keys are distinct, the policy of `k` is that
/// of the entry holding it, and there is none when no entry holds it.
pub proof fn lemma_lookup_entry(s: Seq<(u32, IfacePolicyView)>, k: u32)
    requires
        forall|a: int, b: int| 0 <= a < s.len() && 0 <= b < s.len() && a != b ==> s[a].0 != s[b].0,
    ensures
        forall|e: int| 0 <= e < s.len() && s[e].0 == k ==> spec_lookup_entry(s, k) == Some(s[e].1),
        spec_lookup_entry(s, k) is None <==> forall|e: int| 0 <= e < s.len() ==> s[e].0 != k,
    decreases s.len(),
{
    if s.len() > 0 {
        let t = s.drop_last();
        let n = s.len() - 1;
        assert forall|a: int, b: int| 0 <= a < t.len() && 0 <= b < t.len() && a != b implies t[a].0
            != t[b].0 by {
            assert(t[a] == s[a] && t[b] == s[b]);
        }
        lemma_lookup_entry(t, k);
        assert forall|e: int| 0 <= e < s.len() && s[e].0 == k implies spec_lookup_entry(s, k) == Some(
            s[e].1,
        ) by {
            if e < n {
                assert(s[n].0 != s[e].0);
                assert(t[e] == s[e]);
            }
        }
        if spec_lookup_entry(s, k) is None {
            assert forall|e: int| 0 <= e < s.len() implies s[e].0 != k by {
                if e < n {
                    assert(t[e] == s[e]);
                }
            }
        }
        if forall|e: int| 0 <= e < s.len() ==> s[e].0 != k {
            assert forall|e: int| 0 <= e < t.len() implies t[e].0 != k by {
                assert(t[e] == s[e]);
            }
            assert(s[n].0 != k);
        }
    }
}

/// `p` is a longest prefix among `prefixes` containing `ip`.
pub open spec fn is_longest_match(prefixes: Seq<CidrView>, ip: Seq<u8>, p: CidrView) -> bool {
    &&& prefixes.contains(p)
    &&& spec_covers(p, ip)
    &&& forall|q: CidrView| #[trigger] prefixes.contains(q) && spec_covers(q, ip) ==> q.1 <= p.1
}

/// The longest-prefix match of `ip` in an LPM trie holding `prefixes`.
pub open spec fn spec_lpm(prefixes: Seq<CidrView>, ip: Seq<u8>) -> Option<CidrView> {
    if exists|p: CidrView| is_longest_match(prefixes, ip, p) {
        Some(choose|p: CidrView| is_longest_match(prefixes, ip, p))
    } else {
        None
    }
}

/// Two longest matches are the same prefix.
pub proof fn lemma_longest_match_unique(prefixes: Seq<CidrView>, ip: Seq<u8>, p: CidrView, q: CidrView)
    requires
        is_longest_match(prefixes, ip, p),
        is_longest_match(prefixes, ip, q),
    ensures
        p == q,
{
    assert(q.1 <= p.1);
    assert(p.1 <= q.1);
}

/// The fate of a UDP packet from the UDP maps: `(no rule matched,
/// action)`.
pub open spec fn spec_decide_udp(p: MapPlanView, ifindex: u32, ip: Seq<u8>, src_port: u16) -> (bool, u32) {
    match spec_lookup_entry(p.udp, ifindex) {
        None => (false, XDP_PASS),
        Some(pol) => match spec_lpm(pol.prefixes, ip) {
            None => (true, XDP_DROP),
            Some(m) => match spec_map_get(p.udp_port_action, (m, src_port)) {
                Some(a) => (false, spec_action_to_xdp(a)),
                None => match spec_map_get(p.udp_port_action, (m, PORT_ANY)) {
                    Some(a) => (false, spec_action_to_xdp(a)),
                    None => (true, XDP_DROP),
                },
            },
        },
    }
}

/// The fate of a TCP packet from the TCP maps: `(no rule matched,
/// action)`.
pub open spec fn spec_decide_tcp(
    p: MapPlanView,
    ifindex: u32,
    ip: Seq<u8>,
    dst_port: u16,
    syn: bool,
    ack: bool,
) -> (bool, u32) {
    match spec_lookup_entry(p.tcp, ifindex) {
        None => (false, XDP_PASS),
        Some(pol) => {
            let flags = match spec_map_get(p.tcp_iface_default, ifindex) {
                Some(v) => v,
                None => 0,
            };
            if flags & ALLOW_OUTGOING_FLAG != 0 && (!syn || ack) {
                (false, XDP_PASS)
            } else {
                match spec_lpm(pol.prefixes, ip) {
                    None => (true, XDP_DROP),
                    Some(m) => match spec_map_get(p.tcp_port_action, (m, dst_port)) {
                        Some(a) => (false, spec_action_to_xdp(a)),
                        None => match spec_map_get(p.tcp_port_action, (m, PORT_ANY)) {
                            Some(a) => (false, spec_action_to_xdp(a)),
                            None => (true, XDP_DROP),
                        },
                    },
                }
            }
        },
    }
}

/// The policy stored for interface index `k`, if any.
pub(crate) fn lookup_entry(s: &Vec<(u32, IfacePolicy)>, k: u32) -> (r: Option<&IfacePolicy>)
    ensures
        match spec_lookup_entry(crate::plan::entries_view(s@), k) {
            Some(pol) => r matches Some(x) && x@ == pol,
            None => r is None,
        },
{
    let ghost ev = crate::plan::entries_view(s@);
    let mut i: usize = s.len();
    assert(ev.take(i as int) =~= ev);
    while i > 0
        invariant
            i <= s.len(),
            ev == crate::plan::entries_view(s@),
            spec_lookup_entry(ev, k) == spec_lookup_entry(ev.take(i as int), k),
        decreases i,
    {
        assert(ev.take(i as int).last() == ev[i - 1]);
        assert(ev.take(i as int).drop_last() =~= ev.take(i - 1));
        if s[i - 1].0 == k {
            return Some(&s[i - 1].1);
        }
        i = i - 1;
    }
    None
}

/// The value of `k` in a map filled with `entries`.
fn map_get_prefix_port(entries: &Vec<(policy::PrefixPort, u32)>, m: &policy::Ipv4Cidr, port: u16) -> (r: Option<u32>)
    ensures
        r == spec_map_get(crate::plan::port_actions_view(entries@), (m@, port)),
{
    let ghost ev = crate::plan::port_actions_view(entries@);
    let mut i: usize = entries.len();
    assert(ev.take(i as int) =~= ev);
    while i > 0
        invariant
            i <= entries.len(),
            ev == crate::plan::port_actions_view(entries@),
            spec_map_get(ev, (m@, port)) == spec_map_get(ev.take(i as int), (m@, port)),
        decreases i,
    {
        let e = &entries[i - 1];
        assert(ev.take(i as int).last() == ev[i - 1]);
        assert(ev.take(i as int).drop_last() =~= ev.take(i - 1));
        if e.0.port == port && same_prefix(&e.0.prefix, m) {
            return Some(e.1);
        }
        i = i - 1;
    }
    assert(ev.take(0) =~= Seq::<((CidrView, u16), u32)>::empty());
    None
}

fn same_prefix(a: &policy::Ipv4Cidr, b: &policy::Ipv4Cidr) -> (r: bool)
    ensures
        r == (a@ == b@),
{
    let r = a.addr[0] == b.addr[0] && a.addr[1] == b.addr[1] && a.addr[2] == b.addr[2]
        && a.addr[3] == b.addr[3] && a.prefix_len == b.prefix_len;
    if r {
        assert(a.addr@ =~= b.addr@);
    } else if a.prefix_len == b.prefix_len {
        assert(a.addr@ != b.addr@) by {
            if a.addr@ == b.addr@ {
                assert(a.addr@[0] == b.addr@[0] && a.addr@[1] == b.addr@[1] && a.addr@[2]
                    == b.addr@[2] && a.addr@[3] == b.addr@[3]);
            }
        }
    }
    r
}

/// The value of `k` in a `u32`-keyed map filled with `entries`.
pub(crate) fn map_get_u32(entries: &Vec<(u32, u32)>, k: u32) -> (r: Option<u32>)
    ensures
        r == spec_map_get(entries@, k),
{
    let mut i: usize = entries.len();
    assert(entries@.take(i as int) =~= entries@);
    while i > 0
        invariant
            i <= entries.len(),
            spec_map_get(entries@, k) == spec_map_get(entries@.take(i as int), k),
        decreases i,
    {
        assert(entries@.take(i as int).last() == entries@[i - 1]);
        assert(entries@.take(i as int).drop_last() =~= entries@.take(i - 1));
        if entries[i - 1].0 == k {
            return Some(entries[i - 1].1);
        }
        i = i - 1;
    }
    assert(entries@.take(0) =~= Seq::<(u32, u32)>::empty());
    None
}

/// Whether `ip` lies in the prefix `p`.
fn covers(p: &policy::Ipv4Cidr, ip: &[u8; 4]) -> (r: bool)
    ensures
        r == spec_covers(p@, ip@),
{
    let c = policy::Ipv4Cidr::new(*ip, p.prefix_len);
    let r = c.addr[0] == p.addr[0] && c.addr[1] == p.addr[1] && c.addr[2] == p.addr[2]
        && c.addr[3] == p.addr[3];
    if r {
        assert(c.addr@ =~= p.addr@);
    } else {
        assert(c.addr@ != p.addr@) by {
            if c.addr@ == p.addr@ {
                assert(c.addr@[0] == p.addr@[0] && c.addr@[1] == p.addr@[1] && c.addr@[2]
                    == p.addr@[2] && c.addr@[3] == p.addr@[3]);
            }
        }
    }
    r
}

/// Longest-prefix match of `ip` among `prefixes`.
fn lpm(prefixes: &Vec<policy::Ipv4Cidr>, ip: &[u8; 4]) -> (r: Option<policy::Ipv4Cidr>)
    ensures
        match spec_lpm(crate::plan::cidrs_view(prefixes@), ip@) {
            Some(m) => r matches Some(x) && x@ == m,
            None => r is None,
        },
{
    let ghost pv = crate::plan::cidrs_view(prefixes@);
    let mut best: Option<policy::Ipv4Cidr> = None;
    let mut i: usize = 0;
    while i < prefixes.len()
        invariant
            i <= prefixes.len(),
            pv == crate::plan::cidrs_view(prefixes@),
            match best {
                Some(b) => {
                    &&& pv.take(i as int).contains(b@)
                    &&& spec_covers(b@, ip@)
                    &&& forall|j: int| 0 <= j < i && spec_covers(pv[j], ip@) ==> pv[j].1 <= b@.1
                },
                None => forall|j: int| 0 <= j < i ==> !spec_covers(pv[j], ip@),
            },
        decreases prefixes.len() - i,
    {
        let p = prefixes[i];
        assert(pv[i as int] == p@);
        if covers(&p, ip) {
            match best {
                Some(b) => {
                    if p.prefix_len > b.prefix_len {
                        best = Some(p);
                        assert(pv.take(i + 1)[i as int] == p@);
                    } else {
                        assert(pv.take(i as int) =~= pv.take(i + 1).drop_last());
                    }
                },
                None => {
                    best = Some(p);
                    assert(pv.take(i + 1)[i as int] == p@);
                },
            }
        } else {
            match best {
                Some(b) => {
                    assert(pv.take(i as int) =~= pv.take(i + 1).drop_last());
                },
                None => {},
            }
        }
        proof {
            match best {
                Some(b) => {
                    if pv.take(i as int).contains(b@) {
                        let j = choose|j: int| 0 <= j < pv.take(i as int).len() && pv.take(i as int)[j] == b@;
                        assert(pv.take(i + 1)[j] == b@);
                    }
                },
                None => {},
            }
        }
        i = i + 1;
    }
    assert(pv.take(i as int) =~= pv);
    match best {
        Some(b) => {
            proof {
                assert forall|q: CidrView| #[trigger] pv.contains(q) && spec_covers(q, ip@) implies q.1 <= b@.1 by {
                    let j = choose|j: int| 0 <= j < pv.len() && pv[j] == q;
                }
                assert(is_longest_match(pv, ip@, b@));
                let c = choose|c: CidrView| is_longest_match(pv, ip@, c);
                lemma_longest_match_unique(pv, ip@, b@, c);
            }
            Some(b)
        },
        None => {
            proof {
                if exists|c: CidrView| is_longest_match(pv, ip@, c) {
                    let c = choose|c: CidrView| is_longest_match(pv, ip@, c);
                    let j = choose|j: int| 0 <= j < pv.len() && pv[j] == c;
                }
            }
            None
        },
    }
}

/// Decide the fate of a UDP packet from the UDP maps: `(no rule matched,
/// XDP code)`.
pub fn decide_udp(plan: &MapPlan, ifindex: u32, src_ip: [u8; 4], src_port: u16) -> (r: (bool, u32))
    ensures
        r == spec_decide_udp(plan@, ifindex, src_ip@, src_port),
{
    let pol = match lookup_entry(&plan.udp, ifindex) {
        Some(p) => p,
        None => return (false, XDP_PASS),
    };
    let m = match lpm(&pol.prefixes, &src_ip) {
        Some(m) => m,
        None => return (true, XDP_DROP),
    };
    if let Some(a) = map_get_prefix_port(&plan.udp_port_action, &m, src_port) {
        return (false, action_to_xdp(a));
    }
    if let Some(a) = map_get_prefix_port(&plan.udp_port_action, &m, PORT_ANY) {
        return (false, action_to_xdp(a));
    }
    (true, XDP_DROP)
}

/// Decide the fate of a TCP packet from the TCP maps: `(no rule matched,
/// XDP code)`. With allow-outgoing set on the interface, everything but
/// a pure SYN passes.
pub fn decide_tcp(plan: &MapPlan, ifindex: u32, src_ip: [u8; 4], dst_port: u16, syn: bool, ack: bool) -> (r: (bool, u32))
    ensures
        r == spec_decide_tcp(plan@, ifindex, src_ip@, dst_port, syn, ack),
{
    let pol = match lookup_entry(&plan.tcp, ifindex) {
        Some(p) => p,
        None => return (false, XDP_PASS),
    };
    let flags = match map_get_u32(&plan.tcp_iface_default, ifindex) {
        Some(v) => v,
        None => 0,
    };
    if flags & ALLOW_OUTGOING_FLAG != 0 {
        if !syn {
            return (false, XDP_PASS);
        }
        if ack {
            return (false, XDP_PASS);
        }
    }
    let m = match lpm(&pol.prefixes, &src_ip) {
        Some(m) => m,
        None => return (true, tcp_iface_default_action(ifindex)),
    };
    if let Some(a) = map_get_prefix_port(&plan.tcp_port_action, &m, dst_port) {
        return (false, action_to_xdp(a));
    }
    if let Some(a) = map_get_prefix_port(&plan.tcp_port_action, &m, PORT_ANY) {
        return (false, action_to_xdp(a));
    }
    (true, tcp_iface_default_action(ifindex))
}

/// Length of an Ethernet header.
pub const ETH_HDR_LEN: usize = 14;

/// Length of an IPv4 header without options (the only form read).
pub const IPV4_HDR_LEN: usize = 20;

/// Length of a UDP header.
pub const UDP_HDR_LEN: usize = 8;

/// Length of a TCP header without options.
pub const TCP_HDR_LEN: usize = 20;

/// IP protocol number of UDP.
pub const IPPROTO_UDP: u8 = 17;

/// IP protocol number of TCP.
pub const IPPROTO_TCP: u8 = 6;

/// An event record for one of the monitor ring buffers.
#[derive(Clone, Copy, Debug)]
pub enum MonitorEvent {
    Udp(Udp4EventRaw),
    Tcp(Tcp4EventRaw),
}

/// The big-endian 16-bit value at `at`.
pub open spec fn be16(b: Seq<u8>, at: int) -> u16 {
    (b[at] * 256 + b[at + 1]) as u16
}

/// An IP protocol number that has a name (0 to 144, and 253 to 255).
pub open spec fn spec_known_ip_proto(p: u8) -> bool {
    p <= 144 || p >= 253
}

pub open spec fn udp_event(e: Option<Udp4EventRaw>) -> Option<MonitorEvent> {
    match e {
        Some(r) => Some(MonitorEvent::Udp(r)),
        None => None,
    }
}

pub open spec fn tcp_event(e: Option<Tcp4EventRaw>) -> Option<MonitorEvent> {
    match e {
        Some(r) => Some(MonitorEvent::Tcp(r)),
        None => None,
    }
}

/// The early check admits a UDP packet from `src` with source port `sp`
/// on `ifindex`, whose UDP policy is `pol`: the allow-list holds
/// `(ifindex, sp)`, or the longest prefix of the interface containing
/// the source is one on which a rule of the interface admits any source
/// port.
pub open spec fn spec_udp_early(p: MapPlanView, pol: IfacePolicyView, ifindex: u32, src: Seq<u8>, sp: u16) -> bool {
    ||| p.port_allow_list.contains((ifindex, sp))
    ||| (spec_lpm(pol.prefixes, src) matches Some(m) && p.udp_any_port.contains((ifindex, m)))
}

/// The XDP code and event of a UDP packet on `ifindex`: an interface
/// without a UDP policy passes it; otherwise the early allow-list, then
/// the rules, decide.
pub open spec fn spec_udp_path(
    p: MapPlanView,
    ifindex: u32,
    src: Seq<u8>,
    dst: Seq<u8>,
    src_port: u16,
    dst_port: u16,
    monitor: bool,
    tstamp: u64,
) -> (u32, Option<MonitorEvent>) {
    if p.proto_dflt.0 == ACTION_PASS {
        (XDP_PASS, udp_event(spec_monitor_udp(monitor, src, dst, src_port, dst_port, tstamp)))
    } else if spec_lookup_entry(p.udp, ifindex) is None {
        (XDP_PASS, None)
    } else if !spec_udp_early(p, spec_lookup_entry(p.udp, ifindex)->Some_0, ifindex, src, src_port) {
        (XDP_DROP, None)
    } else {
        let (dflt, code) = spec_decide_udp(p, ifindex, src, src_port);
        (
            code,
            if dflt {
                udp_event(spec_monitor_udp(monitor, src, dst, src_port, dst_port, tstamp))
            } else {
                None
            },
        )
    }
}

/// The XDP code, tracker and event of a TCP packet on `ifindex`.
pub open spec fn spec_tcp_path(
    p: MapPlanView,
    ifindex: u32,
    src: Seq<u8>,
    dst: Seq<u8>,
    src_port: u16,
    dst_port: u16,
    syn: bool,
    ack: bool,
    seq: u32,
    ihl: u8,
    doff: u16,
    tot_len: u16,
    t: Map<Seq<u8>, u32>,
    monitor: bool,
    tstamp: u64,
) -> (u32, Map<Seq<u8>, u32>, Option<MonitorEvent>) {
    let ev = tcp_event(
        spec_monitor_tcp(monitor, src, dst, src_port, dst_port, syn, ack, ihl, doff, tot_len, tstamp),
    );
    if p.proto_dflt.1 == ACTION_PASS {
        (XDP_PASS, t, ev)
    } else if spec_lookup_entry(p.tcp, ifindex) is None {
        (XDP_PASS, t, None)
    } else if !p.port_allow_list.contains((ifindex, dst_port)) && syn && !ack {
        (XDP_DROP, t, None)
    } else {
        match spec_protect(p, ifindex, src, syn, ack, seq, t) {
            (Some(code), t2) => (code, t2, None),
            (None, t2) => {
                let (dflt, code) = spec_decide_tcp(p, ifindex, src, dst_port, syn, ack);
                (
                    code,
                    t2,
                    if dflt {
                        ev
                    } else {
                        None
                    },
                )
            },
        }
    }
}

/// The outcome of an ingress frame `pkt` on `ifindex`: the XDP code, the
/// ACK tracker after it and the event to submit, or the error that
/// stopped the parse.
pub open spec fn spec_try_ingress(
    p: MapPlanView,
    pkt: Seq<u8>,
    ifindex: u32,
    t: Map<Seq<u8>, u32>,
    monitor: bool,
    tstamp: u64,
) -> Result<(u32, Map<Seq<u8>, u32>, Option<MonitorEvent>), EfenseErrorCode> {
    let ip = ETH_HDR_LEN as int;
    let l4 = (ETH_HDR_LEN + IPV4_HDR_LEN) as int;
    if pkt.len() < ETH_HDR_LEN {
        Err(EfenseErrorCode::PacketTooSmall)
    } else if !(pkt[12] == 0x08 && pkt[13] == 0x00) {
        Ok((XDP_PASS, t, None))
    } else if pkt.len() < ETH_HDR_LEN + IPV4_HDR_LEN {
        Err(EfenseErrorCode::PacketTooSmall)
    } else if !spec_known_ip_proto(pkt[ip + 9]) {
        Err(EfenseErrorCode::InvalidProtocol)
    } else {
        let src = pkt.subrange(ip + 12, ip + 16);
        let dst = pkt.subrange(ip + 16, ip + 20);
        if pkt[ip + 9] == IPPROTO_UDP {
            if pkt.len() < l4 + UDP_HDR_LEN {
                Err(EfenseErrorCode::PacketTooSmall)
            } else {
                let (code, ev) = spec_udp_path(
                    p,
                    ifindex,
                    src,
                    dst,
                    be16(pkt, l4),
                    be16(pkt, l4 + 2),
                    monitor,
                    tstamp,
                );
                Ok((code, t, ev))
            }
        } else if pkt[ip + 9] == IPPROTO_TCP {
            if pkt.len() < l4 + TCP_HDR_LEN {
                Err(EfenseErrorCode::PacketTooSmall)
            } else {
                Ok(
                    spec_tcp_path(
                        p,
                        ifindex,
                        src,
                        dst,
                        be16(pkt, l4),
                        be16(pkt, l4 + 2),
                        pkt[l4 + 13] & 0x02 != 0,
                        pkt[l4 + 13] & 0x10 != 0,
                        spec_be_u32(pkt.subrange(l4 + 4, l4 + 8)),
                        (pkt[ip] & 0x0f) << 2u8,
                        (pkt[l4 + 12] >> 4u8) as u16,
                        be16(pkt, ip + 2),
                        t,
                        monitor,
                        tstamp,
                    ),
                )
            }
        } else {
            Ok((XDP_PASS, t, None))
        }
    }
}

/// The outcome of an ingress frame once a parse error is turned into a
/// pass.
pub open spec fn spec_ingress(
    p: MapPlanView,
    pkt: Seq<u8>,
    ifindex: u32,
    t: Map<Seq<u8>, u32>,
    monitor: bool,
    tstamp: u64,
) -> (u32, Map<Seq<u8>, u32>, Option<MonitorEvent>) {
    match spec_try_ingress(p, pkt, ifindex, t, monitor, tstamp) {
        Ok(r) => r,
        Err(_) => (XDP_PASS, t, None),
    }
}

fn read_be16(pkt: &[u8], at: usize) -> (r: u16)
    requires
        at + 2 <= pkt@.len(),
    ensures
        r == be16(pkt@, at as int),
{
    (pkt[at] as u16) * 256 + (pkt[at + 1] as u16)
}

fn read_addr(pkt: &[u8], at: usize) -> (r: [u8; 4])
    requires
        at + 4 <= pkt@.len(),
    ensures
        r@ == pkt@.subrange(at as int, at + 4),
{
    let r = [pkt[at], pkt[at + 1], pkt[at + 2], pkt[at + 3]];
    assert(r@ =~= pkt@.subrange(at as int, at + 4));
    r
}

fn contains_port_key(keys: &Vec<policy::PortKey>, ifindex: u32, port: u16) -> (r: bool)
    ensures
        r == crate::plan::port_keys_view(keys@).contains((ifindex, port)),
{
    let ghost kv = crate::plan::port_keys_view(keys@);
    let mut i: usize = 0;
    while i < keys.len()
        invariant
            i <= keys.len(),
            kv == crate::plan::port_keys_view(keys@),
            forall|j: int| 0 <= j < i ==> kv[j] != (ifindex, port),
        decreases keys.len() - i,
    {
        assert(kv[i as int] == keys@[i as int]@);
        if keys[i].ifindex == ifindex && keys[i].port == port {
            assert(kv[i as int] == (ifindex, port));
            return true;
        }
        i = i + 1;
    }
    false
}

fn contains_any_port(pairs: &Vec<(u32, policy::Ipv4Cidr)>, ifindex: u32, m: &policy::Ipv4Cidr) -> (r: bool)
    ensures
        r == crate::plan::any_ports_view(pairs@).contains((ifindex, m@)),
{
    let ghost av = crate::plan::any_ports_view(pairs@);
    let mut i: usize = 0;
    while i < pairs.len()
        invariant
            i <= pairs.len(),
            av == crate::plan::any_ports_view(pairs@),
            forall|j: int| 0 <= j < i ==> av[j] != (ifindex, m@),
        decreases pairs.len() - i,
    {
        assert(av[i as int] == (pairs@[i as int].0, pairs@[i as int].1@));
        if pairs[i].0 == ifindex && same_prefix(&pairs[i].1, m) {
            return true;
        }
        i = i + 1;
    }
    false
}

/// The early check of a UDP packet on an interface with UDP policy `pol`.
fn udp_early(plan: &MapPlan, pol: &IfacePolicy, ifindex: u32, src_ip: &[u8; 4], src_port: u16) -> (r: bool)
    ensures
        r == spec_udp_early(plan@, pol@, ifindex, src_ip@, src_port),
{
    if contains_port_key(&plan.port_allow_list, ifindex, src_port) {
        return true;
    }
    match lpm(&pol.prefixes, src_ip) {
        Some(m) => contains_any_port(&plan.udp_any_port, ifindex, &m),
        None => false,
    }
}

fn udp_ingress(
    plan: &MapPlan,
    ifindex: u32,
    src_ip: [u8; 4],
    dst_ip: [u8; 4],
    src_port: u16,
    dst_port: u16,
    monitor: bool,
    tstamp: u64,
) -> (r: (u32, Option<MonitorEvent>))
    ensures
        r == spec_udp_path(plan@, ifindex, src_ip@, dst_ip@, src_port, dst_port, monitor, tstamp),
{
    if plan.proto_dflt.0 == ACTION_PASS {
        let ev = match try_monitor_udp(monitor, src_ip, dst_ip, src_port, dst_port, tstamp) {
            Some(e) => Some(MonitorEvent::Udp(e)),
            None => None,
        };
        return (XDP_PASS, ev);
    }
    let pol = match lookup_entry(&plan.udp, ifindex) {
        Some(pol) => pol,
        None => return (XDP_PASS, None),
    };
    if !udp_early(plan, pol, ifindex, &src_ip, src_port) {
        return (XDP_DROP, None);
    }
    let (dflt, code) = decide_udp(plan, ifindex, src_ip, src_port);
    if dflt {
        let ev = match try_monitor_udp(monitor, src_ip, dst_ip, src_port, dst_port, tstamp) {
            Some(e) => Some(MonitorEvent::Udp(e)),
            None => None,
        };
        (code, ev)
    } else {
        (code, None)
    }
}

fn tcp_ingress(
    plan: &MapPlan,
    ifindex: u32,
    src_ip: [u8; 4],
    dst_ip: [u8; 4],
    src_port: u16,
    dst_port: u16,
    syn: bool,
    ack: bool,
    seq: u32,
    ihl: u8,
    doff: u16,
    tot_len: u16,
    tracker: &mut AckTracker,
    monitor: bool,
    tstamp: u64,
) -> (r: (u32, Option<MonitorEvent>))
    requires
        old(tracker).wf(),
        doff < 16,
    ensures
        final(tracker).wf(),
        (r.0, final(tracker)@, r.1) == spec_tcp_path(
            plan@,
            ifindex,
            src_ip@,
            dst_ip@,
            src_port,
            dst_port,
            syn,
            ack,
            seq,
            ihl,
            doff,
            tot_len,
            old(tracker)@,
            monitor,
            tstamp,
        ),
{
    if plan.proto_dflt.1 == ACTION_PASS {
        let ev = match try_monitor_tcp(
            monitor,
            src_ip,
            dst_ip,
            src_port,
            dst_port,
            syn,
            ack,
            ihl,
            doff,
            tot_len,
            tstamp,
        ) {
            Some(e) => Some(MonitorEvent::Tcp(e)),
            None => None,
        };
        return (XDP_PASS, ev);
    }
    if lookup_entry(&plan.tcp, ifindex).is_none() {
        return (XDP_PASS, None);
    }
    if !contains_port_key(&plan.port_allow_list, ifindex, dst_port) {
        if syn && !ack {
            return (XDP_DROP, None);
        }
    }
    if let Some(code) = protect_tcp_ack_flood(plan, ifindex, src_ip, syn, ack, seq, tracker) {
        return (code, None);
    }
    let (dflt, code) = decide_tcp(plan, ifindex, src_ip, dst_port, syn, ack);
    if dflt {
        let ev = match try_monitor_tcp(
            monitor,
            src_ip,
            dst_ip,
            src_port,
            dst_port,
            syn,
            ack,
            ihl,
            doff,
            tot_len,
            tstamp,
        ) {
            Some(e) => Some(MonitorEvent::Tcp(e)),
            None => None,
        };
        (code, ev)
    } else {
        (code, None)
    }
}

/// Parse an ingress frame and take the XDP decision on it: Ethernet,
/// then IPv4, then UDP or TCP, each header read where the previous one
/// ends. Frames of other kinds pass; a frame too short for a header it
/// needs, or naming an unknown IP protocol, gives an error.
pub fn try_efence_net_xdp_ingress_apply(
    pkt: &[u8],
    ifindex: u32,
    plan: &MapPlan,
    tracker: &mut AckTracker,
    monitor_flag: Option<u32>,
    tstamp: u64,
) -> (r: Result<(u32, Option<MonitorEvent>), EfenseErrorCode>)
    requires
        old(tracker).wf(),
    ensures
        final(tracker).wf(),
        match spec_try_ingress(
            plan@,
            pkt@,
            ifindex,
            old(tracker)@,
            monitor_flag matches Some(v) && v != 0,
            tstamp,
        ) {
            Ok((code, t, ev)) => r == Ok::<(u32, Option<MonitorEvent>), EfenseErrorCode>((code, ev))
                && final(tracker)@ == t,
            Err(e) => r == Err::<(u32, Option<MonitorEvent>), EfenseErrorCode>(e) && final(tracker)@
                == old(tracker)@,
        },
{
    let monitor = is_monitor_enabled(monitor_flag);
    if pkt.len() < ETH_HDR_LEN {
        return Err(EfenseErrorCode::PacketTooSmall);
    }
    if !(pkt[12] == 0x08 && pkt[13] == 0x00) {
        return Ok((XDP_PASS, None));
    }
    if pkt.len() < ETH_HDR_LEN + IPV4_HDR_LEN {
        return Err(EfenseErrorCode::PacketTooSmall);
    }
    let ip = ETH_HDR_LEN;
    let l4 = ETH_HDR_LEN + IPV4_HDR_LEN;
    let proto = pkt[ip + 9];
    if !(proto <= 144 || proto >= 253) {
        return Err(EfenseErrorCode::InvalidProtocol);
    }
    let src_ip = read_addr(pkt, ip + 12);
    let dst_ip = read_addr(pkt, ip + 16);
    if proto == IPPROTO_UDP {
        if pkt.len() < l4 + UDP_HDR_LEN {
            return Err(EfenseErrorCode::PacketTooSmall);
        }
        let src_port = read_be16(pkt, l4);
        let dst_port = read_be16(pkt, l4 + 2);
        let (code, ev) = udp_ingress(plan, ifindex, src_ip, dst_ip, src_port, dst_port, monitor, tstamp);
        Ok((code, ev))
    } else if proto == IPPROTO_TCP {
        if pkt.len() < l4 + TCP_HDR_LEN {
            return Err(EfenseErrorCode::PacketTooSmall);
        }
        let src_port = read_be16(pkt, l4);
        let dst_port = read_be16(pkt, l4 + 2);
        let seq_bytes = read_addr(pkt, l4 + 4);
        let seq = crate::monitor::be_u32(seq_bytes);
        let flags = pkt[l4 + 13];
        let syn = flags & 0x02 != 0;
        let ack = flags & 0x10 != 0;
        let ihl: u8 = (pkt[ip] & 0x0f) << 2u8;
        let b12: u8 = pkt[l4 + 12];
        let off: u8 = b12 >> 4u8;
        assert(off < 16) by (bit_vector)
            requires
                off == b12 >> 4u8,
        ;
        let doff = off as u16;
        let tot_len = read_be16(pkt, ip + 2);
        let (code, ev) = tcp_ingress(
            plan,
            ifindex,
            src_ip,
            dst_ip,
            src_port,
            dst_port,
            syn,
            ack,
            seq,
            ihl,
            doff,
            tot_len,
            tracker,
            monitor,
            tstamp,
        );
        Ok((code, ev))
    } else {
        Ok((XDP_PASS, None))
    }
}

/// The XDP program on one ingress frame: the decision of
/// [`try_efence_net_xdp_ingress_apply`], with a frame it cannot parse
/// passed.
pub fn efence_net_xdp_ingress_apply(
    pkt: &[u8],
    ifindex: u32,
    plan: &MapPlan,
    tracker: &mut AckTracker,
    monitor_flag: Option<u32>,
    tstamp: u64,
) -> (r: (u32, Option<MonitorEvent>))
    requires
        old(tracker).wf(),
    ensures
        final(tracker).wf(),
        (r.0, final(tracker)@, r.1) == spec_ingress(
            plan@,
            pkt@,
            ifindex,
            old(tracker)@,
            monitor_flag matches Some(v) && v != 0,
            tstamp,
        ),
{
    match try_efence_net_xdp_ingress_apply(pkt, ifindex, plan, tracker, monitor_flag, tstamp) {
        Ok(r) => r,
        Err(_) => (XDP_PASS, None),
    }
}

/// Monitor law with a protocol left unfiltered: when the UDP protocol
/// default is pass, every UDP packet passes and, with monitoring on, is
/// reported with its addresses (as integers, most significant octet
/// first), ports and timestamp.
pub proof fn law_unfiltered_udp_reported(
    p: MapPlanView,
    ifindex: u32,
    src: Seq<u8>,
    dst: Seq<u8>,
    src_port: u16,
    dst_port: u16,
    tstamp: u64,
)
    requires
        p.proto_dflt.0 == ACTION_PASS,
        src.len() == 4,
        dst.len() == 4,
    ensures
        spec_udp_path(p, ifindex, src, dst, src_port, dst_port, true, tstamp).0 == XDP_PASS,
        spec_udp_path(p, ifindex, src, dst, src_port, dst_port, true, tstamp).1 matches Some(MonitorEvent::Udp(e))
            && e.src as int == crate::monitor::addr_value(src) && e.dst as int == crate::monitor::addr_value(dst)
            && e.src_port == src_port && e.dst_port == dst_port && e.timestamp == tstamp,
{
    crate::monitor::law_udp_event_record(src, dst, src_port, dst_port, tstamp);
}

/// Monitor law with TCP left unfiltered: when the TCP protocol default
/// is pass, every TCP packet passes with the tracker unchanged and, with
/// monitoring on, a bare ACK without payload (total length = IPv4
/// header length + four times the data offset) is reported with its
/// addresses, ports and timestamp, and no other packet is.
pub proof fn law_unfiltered_tcp_reported(
    p: MapPlanView,
    ifindex: u32,
    src: Seq<u8>,
    dst: Seq<u8>,
    src_port: u16,
    dst_port: u16,
    syn: bool,
    ack: bool,
    seq: u32,
    ihl: u8,
    doff: u16,
    tot_len: u16,
    t: Map<Seq<u8>, u32>,
    tstamp: u64,
)
    requires
        p.proto_dflt.1 == ACTION_PASS,
        src.len() == 4,
        dst.len() == 4,
        doff < 16,
    ensures
        ({
            let r = spec_tcp_path(p, ifindex, src, dst, src_port, dst_port, syn, ack, seq, ihl, doff, tot_len, t, true, tstamp);
            &&& r.0 == XDP_PASS
            &&& r.1 == t
            &&& r.2 is Some <==> (ack && !syn && tot_len as int == ihl as int + 4 * doff as int)
            &&& r.2 matches Some(ev) ==> ev matches MonitorEvent::Tcp(e) && e.src as int
                == crate::monitor::addr_value(src) && e.dst as int == crate::monitor::addr_value(dst)
                && e.src_port == src_port && e.dst_port == dst_port && e.timestamp == tstamp
        }),
{
    crate::monitor::law_tcp_event_for_bare_acks(src, dst, src_port, dst_port, syn, ack, ihl, doff, tot_len, tstamp);
}

} // verus!
