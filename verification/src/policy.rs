//! Policy definitions shared between the userspace loader and the XDP
//! data path: action values, map names, capacities and the fixed-layout
//! keys stored in the kernel maps.

use vstd::prelude::*;

verus! {

/// Action value indicating the packet should be passed through.
pub const ACTION_PASS: u32 = 0;

/// Action value indicating the packet should be dropped.
pub const ACTION_DROP: u32 = 1;

/// Bit-flag (ORed into the per-interface default-action value) that
/// enables the "allow outgoing" behaviour for TCP: non-SYN packets are
/// passed so that connections initiated by the local host are allowed
/// through; only incoming pure SYNs are subject to the allow list.
pub const ALLOW_OUTGOING_FLAG: u32 = 2;

/// Outer hash-of-maps: interface index to the per-interface UDP
/// source-address LPM trie.
pub const MAP_UDP_INGRESS_IFACE_TO_LPM: &'static str = "UDP_IN_IF2LPM";

/// Flat hash `(matched source prefix, source port)` to UDP action.
pub const MAP_UDP_INGRESS_PORT_ACTION: &'static str = "UDP_IN_PORT_ACT";

/// Per-interface TCP default-action / allow-outgoing flag.
pub const MAP_TCP_INGRESS_IFACE_DEFAULT_ACTION: &'static str = "TCP_IN_IFACE_DFLT";

/// Outer hash-of-maps: interface index to the per-interface TCP
/// source-address LPM trie.
pub const MAP_TCP_INGRESS_IFACE_TO_LPM: &'static str = "TCP_IN_IF2LPM";

/// Flat hash `(matched source prefix, destination port)` to TCP action.
pub const MAP_TCP_INGRESS_PORT_ACTION: &'static str = "TCP_IN_PORT_ACT";

/// Byte array holding the serialized configuration JSON blob.
pub const MAP_CFG: &'static str = "CFG";

/// Single-entry array holding the byte length of the blob in [`MAP_CFG`].
pub const MAP_CFG_LEN: &'static str = "CFG_LEN";

/// Monitor-enable flag (`0` disabled, `1` enabled).
pub const MAP_MONITOR_ENABLED: &'static str = "MONITOR_ENABLED";

/// UDP4 event ring buffer.
pub const MAP_UDP4_EVENTS: &'static str = "UDP4_EVENTS";

/// TCP4 event ring buffer.
pub const MAP_TCP4_EVENTS: &'static str = "TCP4_EVENTS";

/// Per-interface TCP ACK flood protection enabled flag.
pub const MAP_TCP_ACK_FLOOD_PROTECTION_ENABLED: &'static str = "TCP_ACK_FLOOD_PROT_ENABLED";

/// Source-address to handshake sequence-number tracker used by the TCP
/// ACK flood protection.
pub const MAP_TCP_ACK_ISN_TRACKER: &'static str = "TCP_ACK_ISN_TRACKER";

/// Early `(ifindex, port)` allow-list.
pub const MAP_PORT_ALLOW_LIST: &'static str = "PORT_ALLOW_LIST";

/// Per-protocol default action array (index 0 UDP, index 1 TCP).
pub const MAP_PROTO_DFLT: &'static str = "PROTO_DFLT";

/// Index of the UDP entry in [`MAP_PROTO_DFLT`].
pub const PROTO_DFLT_UDP: u32 = 0;

/// Index of the TCP entry in [`MAP_PROTO_DFLT`].
pub const PROTO_DFLT_TCP: u32 = 1;

/// Maximum number of interfaces with an attached ingress policy.
pub const MAX_IFACES: u32 = 64;

/// Maximum number of prefixes in one per-interface LPM trie.
pub const MAX_PREFIXES: u32 = 4096;

/// Maximum number of `(prefix, port)` entries in a port-action map.
pub const MAX_PREFIX_PORT_ENTRIES: u32 = 16384;

/// Maximum size in bytes of the serialized configuration blob.
pub const CFG_BLOB_LEN: usize = 65536;

/// Maximum number of entries in the ACK sequence tracker.
pub const MAX_TCP_ACK_ISN_ENTRIES: u32 = 32768;

/// Source-address and port to sequence-number tracker keyed by
/// [`AckTrackKey`].
pub const MAP_TCP_ACK_SEQ_TRACKER: &'static str = "TCP_ACK_SEQ_TRACKER";

/// Maximum number of entries in [`MAP_TCP_ACK_SEQ_TRACKER`].
pub const MAX_TCP_ACK_SEQ_ENTRIES: u32 = 32768;

/// Ring buffer byte size of each event ring buffer.
pub const EVENT_MONITOR_BUF_SIZE: usize = 131072;

/// Maximum number of entries in [`MAP_PORT_ALLOW_LIST`].
pub const MAX_PORT_ALLOW_LIST_ENTRIES: u32 = 16384;

/// Reserved port key meaning "any port" for a given prefix.
pub const PORT_ANY: u16 = 0;

/// The mask applied to octet `i` (0 = most significant) of an address
/// by a prefix of `prefix_len` bits.
pub open spec fn octet_mask(prefix_len: u8, i: int) -> u8 {
    if prefix_len as int >= 8 * (i + 1) {
        0xff
    } else if prefix_len as int <= 8 * i {
        0
    } else {
        (0xffu8 << ((8 - (prefix_len as int - 8 * i)) as u8)) as u8
    }
}

/// Octet `i` of `addr` with the host bits below `prefix_len` cleared.
pub open spec fn masked_octet(a: u8, prefix_len: u8, i: int) -> u8 {
    a & octet_mask(prefix_len, i)
}

/// The canonical network address of `addr` under a `prefix_len`-bit
/// prefix.
pub open spec fn canonical_addr(addr: Seq<u8>, prefix_len: u8) -> Seq<u8> {
    Seq::new(4, |i: int| masked_octet(addr[i], prefix_len, i))
}

/// IPv4 CIDR prefix used as a value in the LPM tries and as part of the
/// port-action key.
///
/// `addr` is in network byte order, `prefix_len` is in bits; `_pad`
/// keeps the layout a stable 8-byte POD.
#[derive(Copy, Clone, Debug, PartialEq, Eq, Hash)]
pub struct Ipv4Cidr {
    pub addr: [u8; 4],
    pub prefix_len: u8,
    pub _pad: [u8; 3],
}

/// A prefix as the pair of its address octets and its length.
pub type CidrView = (Seq<u8>, u8);

impl View for Ipv4Cidr {
    type V = CidrView;

    open spec fn view(&self) -> CidrView {
        (self.addr@, self.prefix_len)
    }
}

/// The canonical prefix of `addr` under `prefix_len` bits.
pub open spec fn spec_canonical(addr: Seq<u8>, prefix_len: u8) -> CidrView {
    (canonical_addr(addr, prefix_len), prefix_len)
}

/// The match-any prefix `0.0.0.0/0`.
pub open spec fn spec_any() -> CidrView {
    (seq![0u8, 0u8, 0u8, 0u8], 0u8)
}

/// `ip` lies inside the prefix `p`.
pub open spec fn spec_covers(p: CidrView, ip: Seq<u8>) -> bool {
    canonical_addr(ip, p.1) == p.0
}

/// The padding bytes of the prefix are zero, as the kernel map keys
/// that the data path builds have them.
pub open spec fn pad_zero(c: Ipv4Cidr) -> bool {
    c._pad@ == seq![0u8, 0u8, 0u8]
}

impl Ipv4Cidr {
    /// Build a canonical CIDR from a network-byte-order address and a
    /// prefix length: host bits below `prefix_len` are zeroed, so each
    /// prefix has a single canonical form.
    pub fn new(addr: [u8; 4], prefix_len: u8) -> (r: Self)
        ensures
            r.addr@ == canonical_addr(addr@, prefix_len),
            r.prefix_len == prefix_len,
            r._pad@ == seq![0u8, 0u8, 0u8],
    {
        let o0 = mask_octet(addr[0], prefix_len, 0);
        let o1 = mask_octet(addr[1], prefix_len, 1);
        let o2 = mask_octet(addr[2], prefix_len, 2);
        let o3 = mask_octet(addr[3], prefix_len, 3);
        let r = Ipv4Cidr { addr: [o0, o1, o2, o3], prefix_len, _pad: [0; 3] };
        assert(r.addr@ =~= canonical_addr(addr@, prefix_len));
        assert(r._pad@ =~= seq![0u8, 0u8, 0u8]);
        r
    }

    /// Match-any prefix (`0.0.0.0/0`).
    pub fn any() -> (r: Self)
        ensures
            r.addr@ == seq![0u8, 0u8, 0u8, 0u8],
            r.prefix_len == 0,
            r._pad@ == seq![0u8, 0u8, 0u8],
    {
        let r = Ipv4Cidr { addr: [0; 4], prefix_len: 0, _pad: [0; 3] };
        assert(r.addr@ =~= seq![0u8, 0u8, 0u8, 0u8]);
        assert(r._pad@ =~= seq![0u8, 0u8, 0u8]);
        r
    }
}

/// Octet `i` of an address masked by a `prefix_len`-bit prefix.
fn mask_octet(a: u8, prefix_len: u8, i: u8) -> (r: u8)
    requires
        i < 4,
    ensures
        r == masked_octet(a, prefix_len, i as int),
{
    let used: u8 = 8 * i;
    if prefix_len >= used + 8 {
        assert(a & 0xffu8 == a) by (bit_vector);
        a
    } else if prefix_len <= used {
        assert(a & 0u8 == 0) by (bit_vector);
        0
    } else {
        let shift: u8 = 8 - (prefix_len - used);
        a & (0xffu8 << shift)
    }
}

/// Masking keeps the high bits: bit `b` (0 = least significant) of a
/// `u8` masked by the top `8 - s` bits is the input's bit when `b >= s`,
/// and zero below.
proof fn lemma_mask_bit(a: u8, s: u8, b: u8)
    by (bit_vector)
    requires
        s < 8,
        b < 8,
    ensures
        ((a & (0xffu8 << s)) >> b) & 1u8 == (if b >= s {
            (a >> b) & 1u8
        } else {
            0u8
        }),
{
}

/// Canonical-prefix law, bit by bit: bit `b` of octet `i` of the
/// canonical address of `addr` under an `n`-bit prefix (the bit at
/// position `8 * i + 7 - b` counted from the most significant bit of the
/// address) is the bit of `addr` when that position lies inside the
/// prefix, and zero when it lies outside. So octet `i` keeps exactly its
/// high `min(8, max(0, n - 8 * i))` bits.
pub proof fn law_canonical_keeps_prefix_bits(addr: Seq<u8>, n: u8, i: int, b: u8)
    requires
        addr.len() == 4,
        0 <= i < 4,
        b < 8,
    ensures
        (canonical_addr(addr, n)[i] >> b) & 1u8 == (if 8 * i + 7 - b < n {
            (addr[i] >> b) & 1u8
        } else {
            0u8
        }),
{
    let a = addr[i];
    let r = canonical_addr(addr, n)[i];
    assert(r == a & octet_mask(n, i));
    if n as int >= 8 * (i + 1) {
        assert(((a & 0xffu8) >> b) & 1u8 == (a >> b) & 1u8) by (bit_vector);
    } else if n as int <= 8 * i {
        assert(((a & 0u8) >> b) & 1u8 == 0u8) by (bit_vector);
    } else {
        let s = (8 - (n as int - 8 * i)) as u8;
        assert(0 < s < 8);
        assert(octet_mask(n, i) == (0xffu8 << s) as u8);
        lemma_mask_bit(a, s, b);
        assert((b >= s) == (8 * i + 7 - b < n));
    }
}

/// Canonicalizing twice changes nothing: [`Ipv4Cidr::new`] applied to a
/// canonical prefix gives it back, and the canonical prefix of an
/// address contains that address.
pub proof fn law_canonical_idempotent(addr: Seq<u8>, prefix_len: u8)
    requires
        addr.len() == 4,
    ensures
        canonical_addr(canonical_addr(addr, prefix_len), prefix_len) == canonical_addr(
            addr,
            prefix_len,
        ),
{
    assert forall|i: int| 0 <= i < 4 implies #[trigger] masked_octet(
        canonical_addr(addr, prefix_len)[i],
        prefix_len,
        i,
    ) == canonical_addr(addr, prefix_len)[i] by {
        let a = addr[i];
        let m = octet_mask(prefix_len, i);
        assert((a & m) & m == a & m) by (bit_vector);
    }
    assert(canonical_addr(canonical_addr(addr, prefix_len), prefix_len) =~= canonical_addr(
        addr,
        prefix_len,
    ));
}

/// Composite key of the port-action maps: canonical prefix and port
/// (host byte order; [`PORT_ANY`] is the "any port" bucket).
#[derive(Copy, Clone, Debug, PartialEq, Eq, Hash)]
pub struct PrefixPort {
    pub prefix: Ipv4Cidr,
    pub port: u16,
    pub _pad: [u8; 2],
}

impl View for PrefixPort {
    type V = (CidrView, u16);

    open spec fn view(&self) -> (CidrView, u16) {
        (self.prefix@, self.port)
    }
}

impl PrefixPort {
    pub fn new(prefix: Ipv4Cidr, port: u16) -> (r: Self)
        ensures
            r.prefix == prefix,
            r.port == port,
            r._pad@ == seq![0u8, 0u8],
    {
        let r = PrefixPort { prefix, port, _pad: [0; 2] };
        assert(r._pad@ =~= seq![0u8, 0u8]);
        r
    }
}

/// Key of the early `(ifindex, port)` allow-list.
#[derive(Copy, Clone, Debug, PartialEq, Eq, Hash)]
pub struct PortKey {
    pub ifindex: u32,
    pub port: u16,
    pub _pad: [u8; 2],
}

impl View for PortKey {
    type V = (u32, u16);

    open spec fn view(&self) -> (u32, u16) {
        (self.ifindex, self.port)
    }
}

impl PortKey {
    pub fn new(ifindex: u32, port: u16) -> (r: Self)
        ensures
            r.ifindex == ifindex,
            r.port == port,
            r._pad@ == seq![0u8, 0u8],
    {
        let r = PortKey { ifindex, port, _pad: [0; 2] };
        assert(r._pad@ =~= seq![0u8, 0u8]);
        r
    }
}

/// Key of the TCP ACK sequence tracker: source address (network byte
/// order) and source port (host byte order).
#[derive(Copy, Clone, Debug, PartialEq, Eq, Hash)]
pub struct AckTrackKey {
    pub src_ip: [u8; 4],
    pub src_port: u16,
    pub _pad: [u8; 2],
}

impl AckTrackKey {
    pub fn new(src_ip: [u8; 4], src_port: u16) -> (r: Self)
        ensures
            r.src_ip == src_ip,
            r.src_port == src_port,
            r._pad@ == seq![0u8, 0u8],
    {
        let r = AckTrackKey { src_ip, src_port, _pad: [0; 2] };
        assert(r._pad@ =~= seq![0u8, 0u8]);
        r
    }
}

} // verus!
