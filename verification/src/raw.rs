//! Fixed-layout event records written by the XDP program into the
//! event ring buffers, and their decoding from ring-buffer bytes.

use vstd::prelude::*;

verus! {

/// Size in bytes of one raw event record.
pub const RAW_EVENT_LEN: usize = 24;

pub open spec fn le_u16(b0: u8, b1: u8) -> u16 {
    ((b0 as u16) | ((b1 as u16) << 8u16)) as u16
}

pub open spec fn le_u32(b0: u8, b1: u8, b2: u8, b3: u8) -> u32 {
    ((b0 as u32) | ((b1 as u32) << 8u32) | ((b2 as u32) << 16u32) | ((b3 as u32) << 24u32)) as u32
}

pub open spec fn le_u64(b: Seq<u8>, at: int) -> u64 {
    ((b[at] as u64) | ((b[at + 1] as u64) << 8u64) | ((b[at + 2] as u64) << 16u64) | ((b[at + 3]
        as u64) << 24u64) | ((b[at + 4] as u64) << 32u64) | ((b[at + 5] as u64) << 40u64) | ((b[at
        + 6] as u64) << 48u64) | ((b[at + 7] as u64) << 56u64)) as u64
}

/// A `u16` stored at `b[at..at + 2]`, little- or big-endian.
pub open spec fn ne_u16(b: Seq<u8>, at: int, little: bool) -> u16 {
    if little {
        le_u16(b[at], b[at + 1])
    } else {
        le_u16(b[at + 1], b[at])
    }
}

/// A `u32` stored at `b[at..at + 4]`, little- or big-endian.
pub open spec fn ne_u32(b: Seq<u8>, at: int, little: bool) -> u32 {
    if little {
        le_u32(b[at], b[at + 1], b[at + 2], b[at + 3])
    } else {
        le_u32(b[at + 3], b[at + 2], b[at + 1], b[at])
    }
}

/// A `u64` stored at `b[at..at + 8]`, little- or big-endian.
pub open spec fn ne_u64(b: Seq<u8>, at: int, little: bool) -> u64 {
    if little {
        le_u64(b, at)
    } else {
        le_u64(b.subrange(at, at + 8).reverse(), 0)
    }
}

/// `u16::from_ne_bytes` (std): the value of two bytes in the machine's
/// byte order, which is either little- or big-endian.
#[verifier::external_body]
fn u16_from_ne_bytes(b: [u8; 2]) -> (r: u16)
    ensures
        r == le_u16(b[0], b[1]) || r == le_u16(b[1], b[0]),
{
    u16::from_ne_bytes(b)
}

/// Whether the machine stores integers little-endian.
fn native_is_little() -> (r: bool) {
    u16_from_ne_bytes([1, 0]) == 1
}

fn read_u16(b: &[u8], at: usize, little: bool) -> (r: u16)
    requires
        at <= 16,
        at + 2 <= b@.len(),
    ensures
        r == ne_u16(b@, at as int, little),
{
    if little {
        (b[at] as u16) | ((b[at + 1] as u16) << 8u16)
    } else {
        (b[at + 1] as u16) | ((b[at] as u16) << 8u16)
    }
}

fn read_u32(b: &[u8], at: usize, little: bool) -> (r: u32)
    requires
        at <= 16,
        at + 4 <= b@.len(),
    ensures
        r == ne_u32(b@, at as int, little),
{
    if little {
        (b[at] as u32) | ((b[at + 1] as u32) << 8u32) | ((b[at + 2] as u32) << 16u32) | ((b[at
            + 3] as u32) << 24u32)
    } else {
        (b[at + 3] as u32) | ((b[at + 2] as u32) << 8u32) | ((b[at + 1] as u32) << 16u32) | ((b[at]
            as u32) << 24u32)
    }
}

fn read_u64(b: &[u8], at: usize, little: bool) -> (r: u64)
    requires
        at <= 16,
        at + 8 <= b@.len(),
    ensures
        r == ne_u64(b@, at as int, little),
{
    let ghost rev = b@.subrange(at as int, at + 8).reverse();
    if little {
        (b[at] as u64) | ((b[at + 1] as u64) << 8u64) | ((b[at + 2] as u64) << 16u64) | ((b[at
            + 3] as u64) << 24u64) | ((b[at + 4] as u64) << 32u64) | ((b[at + 5] as u64) << 40u64)
            | ((b[at + 6] as u64) << 48u64) | ((b[at + 7] as u64) << 56u64)
    } else {
        assert(rev[0] == b@[at + 7] && rev[1] == b@[at + 6] && rev[2] == b@[at + 5] && rev[3]
            == b@[at + 4] && rev[4] == b@[at + 3] && rev[5] == b@[at + 2] && rev[6] == b@[at + 1]
            && rev[7] == b@[at as int]);
        (b[at + 7] as u64) | ((b[at + 6] as u64) << 8u64) | ((b[at + 5] as u64) << 16u64) | ((b[at
            + 4] as u64) << 24u64) | ((b[at + 3] as u64) << 32u64) | ((b[at + 2] as u64) << 40u64)
            | ((b[at + 1] as u64) << 48u64) | ((b[at] as u64) << 56u64)
    }
}

/// One UDP event record as laid out in the ring buffer.
#[derive(Copy, Clone, Debug, PartialEq, Eq)]
pub struct Udp4EventRaw {
    /// native endianness IPv4 source address.
    pub src: u32,
    /// native endianness IPv4 destination address.
    pub dst: u32,
    /// native endianness UDP source port.
    pub src_port: u16,
    /// native endianness UDP destination port.
    pub dst_port: u16,
    /// Padding aligning the record to 8 bytes.
    pub _pad: u32,
    /// Kernel timestamp in nanoseconds since boot.
    pub timestamp: u64,
}

/// The record stored in `b` with integers in the given byte order:
/// `src` at 0, `dst` at 4, ports at 8 and 10, timestamp at 16 (bytes
/// 12 to 16 are padding and read as zero).
pub open spec fn spec_udp4_record(b: Seq<u8>, little: bool) -> Udp4EventRaw {
    Udp4EventRaw {
        src: ne_u32(b, 0, little),
        dst: ne_u32(b, 4, little),
        src_port: ne_u16(b, 8, little),
        dst_port: ne_u16(b, 10, little),
        _pad: 0,
        timestamp: ne_u64(b, 16, little),
    }
}

impl Udp4EventRaw {
    pub fn new(src: u32, dst: u32, src_port: u16, dst_port: u16, timestamp: u64) -> (r: Self)
        ensures
            r == (Udp4EventRaw { src, dst, src_port, dst_port, _pad: 0, timestamp }),
    {
        Udp4EventRaw { src, dst, src_port, dst_port, _pad: 0, timestamp }
    }

    /// Decode one record from the bytes of a ring-buffer entry, in the
    /// machine's byte order; the entry must be exactly one record long.
    pub fn parse(bytes: &[u8]) -> (r: Result<Self, &'static str>)
        ensures
            bytes@.len() != RAW_EVENT_LEN ==> (r matches Err(e) && e@ == "invalid UDP4 event size"@),
            bytes@.len() == RAW_EVENT_LEN ==> exists|little: bool|
                r == Ok::<Udp4EventRaw, &'static str>(#[trigger] spec_udp4_record(bytes@, little)),
    {
        if bytes.len() != RAW_EVENT_LEN {
            return Err("invalid UDP4 event size");
        }
        let little = native_is_little();
        let r = Udp4EventRaw {
            src: read_u32(bytes, 0, little),
            dst: read_u32(bytes, 4, little),
            src_port: read_u16(bytes, 8, little),
            dst_port: read_u16(bytes, 10, little),
            _pad: 0,
            timestamp: read_u64(bytes, 16, little),
        };
        assert(r == spec_udp4_record(bytes@, little));
        Ok(r)
    }
}

/// One TCP event record as laid out in the ring buffer (same layout as
/// [`Udp4EventRaw`]).
#[derive(Copy, Clone, Debug, PartialEq, Eq)]
pub struct Tcp4EventRaw {
    pub src: u32,
    pub dst: u32,
    pub src_port: u16,
    pub dst_port: u16,
    pub _pad: u32,
    pub timestamp: u64,
}

pub open spec fn spec_tcp4_record(b: Seq<u8>, little: bool) -> Tcp4EventRaw {
    Tcp4EventRaw {
        src: ne_u32(b, 0, little),
        dst: ne_u32(b, 4, little),
        src_port: ne_u16(b, 8, little),
        dst_port: ne_u16(b, 10, little),
        _pad: 0,
        timestamp: ne_u64(b, 16, little),
    }
}

impl Tcp4EventRaw {
    pub fn new(src: u32, dst: u32, src_port: u16, dst_port: u16, timestamp: u64) -> (r: Self)
        ensures
            r == (Tcp4EventRaw { src, dst, src_port, dst_port, _pad: 0, timestamp }),
    {
        Tcp4EventRaw { src, dst, src_port, dst_port, _pad: 0, timestamp }
    }

    /// Decode one record from the bytes of a ring-buffer entry, in the
    /// machine's byte order; the entry must be exactly one record long.
    pub fn parse(bytes: &[u8]) -> (r: Result<Self, &'static str>)
        ensures
            bytes@.len() != RAW_EVENT_LEN ==> (r matches Err(e) && e@ == "invalid TCP4 event size"@),
            bytes@.len() == RAW_EVENT_LEN ==> exists|little: bool|
                r == Ok::<Tcp4EventRaw, &'static str>(#[trigger] spec_tcp4_record(bytes@, little)),
    {
        if bytes.len() != RAW_EVENT_LEN {
            return Err("invalid TCP4 event size");
        }
        let little = native_is_little();
        let r = Tcp4EventRaw {
            src: read_u32(bytes, 0, little),
            dst: read_u32(bytes, 4, little),
            src_port: read_u16(bytes, 8, little),
            dst_port: read_u16(bytes, 10, little),
            _pad: 0,
            timestamp: read_u64(bytes, 16, little),
        };
        assert(r == spec_tcp4_record(bytes@, little));
        Ok(r)
    }
}

/// The bytes of a `u16` in the given byte order.
pub open spec fn u16_bytes(x: u16, little: bool) -> Seq<u8> {
    let lo = (x & 0xff) as u8;
    let hi = (x >> 8u16) as u8;
    if little {
        seq![lo, hi]
    } else {
        seq![hi, lo]
    }
}

/// The bytes of a `u32` in the given byte order.
pub open spec fn u32_bytes(x: u32, little: bool) -> Seq<u8> {
    let b0 = (x & 0xff) as u8;
    let b1 = ((x >> 8u32) & 0xff) as u8;
    let b2 = ((x >> 16u32) & 0xff) as u8;
    let b3 = (x >> 24u32) as u8;
    if little {
        seq![b0, b1, b2, b3]
    } else {
        seq![b3, b2, b1, b0]
    }
}

/// The bytes of a `u64` in the given byte order.
pub open spec fn u64_bytes(x: u64, little: bool) -> Seq<u8> {
    let b = seq![
        (x & 0xff) as u8,
        ((x >> 8u64) & 0xff) as u8,
        ((x >> 16u64) & 0xff) as u8,
        ((x >> 24u64) & 0xff) as u8,
        ((x >> 32u64) & 0xff) as u8,
        ((x >> 40u64) & 0xff) as u8,
        ((x >> 48u64) & 0xff) as u8,
        (x >> 56u64) as u8,
    ];
    if little {
        b
    } else {
        seq![b[7], b[6], b[5], b[4], b[3], b[2], b[1], b[0]]
    }
}

/// The in-memory image of an event record with the given fields, as the
/// XDP program writes it on a machine of the given byte order (padding
/// bytes zero).
pub open spec fn spec_record_image(src: u32, dst: u32, src_port: u16, dst_port: u16, timestamp: u64, little: bool) -> Seq<u8> {
    u32_bytes(src, little) + u32_bytes(dst, little) + u16_bytes(src_port, little) + u16_bytes(
        dst_port,
        little,
    ) + seq![0u8, 0u8, 0u8, 0u8] + u64_bytes(timestamp, little)
}

proof fn lemma_u16_bytes(x: u16)
    ensures
        le_u16((x & 0xff) as u8, (x >> 8u16) as u8) == x,
{
    assert(le_u16((x & 0xff) as u8, (x >> 8u16) as u8) == x) by (bit_vector);
}

proof fn lemma_u32_bytes(x: u32)
    ensures
        le_u32(
            (x & 0xff) as u8,
            ((x >> 8u32) & 0xff) as u8,
            ((x >> 16u32) & 0xff) as u8,
            (x >> 24u32) as u8,
        ) == x,
{
    assert(le_u32(
        (x & 0xff) as u8,
        ((x >> 8u32) & 0xff) as u8,
        ((x >> 16u32) & 0xff) as u8,
        (x >> 24u32) as u8,
    ) == x) by (bit_vector);
}

proof fn lemma_u64_bytes(x: u64, b0: u8, b1: u8, b2: u8, b3: u8, b4: u8, b5: u8, b6: u8, b7: u8)
    requires
        b0 == (x & 0xff) as u8,
        b1 == ((x >> 8u64) & 0xff) as u8,
        b2 == ((x >> 16u64) & 0xff) as u8,
        b3 == ((x >> 24u64) & 0xff) as u8,
        b4 == ((x >> 32u64) & 0xff) as u8,
        b5 == ((x >> 40u64) & 0xff) as u8,
        b6 == ((x >> 48u64) & 0xff) as u8,
        b7 == (x >> 56u64) as u8,
    ensures
        ((b0 as u64) | ((b1 as u64) << 8u64) | ((b2 as u64) << 16u64) | ((b3 as u64) << 24u64) | ((
        b4 as u64) << 32u64) | ((b5 as u64) << 40u64) | ((b6 as u64) << 48u64) | ((b7 as u64)
            << 56u64)) as u64 == x,
{
    assert(((b0 as u64) | ((b1 as u64) << 8u64) | ((b2 as u64) << 16u64) | ((b3 as u64) << 24u64)
        | ((b4 as u64) << 32u64) | ((b5 as u64) << 40u64) | ((b6 as u64) << 48u64) | ((b7 as u64)
        << 56u64)) as u64 == x) by (bit_vector)
        requires
            b0 == (x & 0xff) as u8,
            b1 == ((x >> 8u64) & 0xff) as u8,
            b2 == ((x >> 16u64) & 0xff) as u8,
            b3 == ((x >> 24u64) & 0xff) as u8,
            b4 == ((x >> 32u64) & 0xff) as u8,
            b5 == ((x >> 40u64) & 0xff) as u8,
            b6 == ((x >> 48u64) & 0xff) as u8,
            b7 == (x >> 56u64) as u8,
    ;
}

/// Reading the fields back from a record image, in the byte order it was
/// written in, gives the fields that were written.
proof fn lemma_record_image(src: u32, dst: u32, src_port: u16, dst_port: u16, timestamp: u64, little: bool)
    ensures
        ({
            let b = spec_record_image(src, dst, src_port, dst_port, timestamp, little);
            &&& b.len() == RAW_EVENT_LEN
            &&& ne_u32(b, 0, little) == src
            &&& ne_u32(b, 4, little) == dst
            &&& ne_u16(b, 8, little) == src_port
            &&& ne_u16(b, 10, little) == dst_port
            &&& ne_u64(b, 16, little) == timestamp
        }),
{
    let b = spec_record_image(src, dst, src_port, dst_port, timestamp, little);
    let s = u32_bytes(src, little);
    let d = u32_bytes(dst, little);
    let sp = u16_bytes(src_port, little);
    let dp = u16_bytes(dst_port, little);
    let t = u64_bytes(timestamp, little);
    assert(b.len() == 24);
    assert forall|k: int| 0 <= k < 4 implies b[k] == s[k] && b[4 + k] == d[k] by {}
    assert(b[8] == sp[0] && b[9] == sp[1] && b[10] == dp[0] && b[11] == dp[1]);
    assert forall|k: int| 0 <= k < 8 implies b[16 + k] == t[k] by {}
    lemma_u16_bytes(src_port);
    lemma_u16_bytes(dst_port);
    lemma_u32_bytes(src);
    lemma_u32_bytes(dst);
    let tl = u64_bytes(timestamp, true);
    lemma_u64_bytes(timestamp, tl[0], tl[1], tl[2], tl[3], tl[4], tl[5], tl[6], tl[7]);
    if !little {
        let rev = b.subrange(16, 24).reverse();
        assert forall|k: int| 0 <= k < 8 implies rev[k] == tl[k] by {}
    }
}

/// The in-memory image of a UDP event record in the given byte order.
pub open spec fn spec_udp4_image(e: Udp4EventRaw, little: bool) -> Seq<u8> {
    spec_record_image(e.src, e.dst, e.src_port, e.dst_port, e.timestamp, little)
}

/// The in-memory image of a TCP event record in the given byte order.
pub open spec fn spec_tcp4_image(e: Tcp4EventRaw, little: bool) -> Seq<u8> {
    spec_record_image(e.src, e.dst, e.src_port, e.dst_port, e.timestamp, little)
}

/// A UDP event record written in a byte order (padding zero) is one
/// record long and reads back, in that byte order, as the same record.
pub proof fn law_udp4_record_round_trip(e: Udp4EventRaw, little: bool)
    requires
        e._pad == 0,
    ensures
        spec_udp4_image(e, little).len() == RAW_EVENT_LEN,
        spec_udp4_record(spec_udp4_image(e, little), little) == e,
{
    lemma_record_image(e.src, e.dst, e.src_port, e.dst_port, e.timestamp, little);
}

/// A TCP event record written in a byte order (padding zero) is one
/// record long and reads back, in that byte order, as the same record.
pub proof fn law_tcp4_record_round_trip(e: Tcp4EventRaw, little: bool)
    requires
        e._pad == 0,
    ensures
        spec_tcp4_image(e, little).len() == RAW_EVENT_LEN,
        spec_tcp4_record(spec_tcp4_image(e, little), little) == e,
{
    lemma_record_image(e.src, e.dst, e.src_port, e.dst_port, e.timestamp, little);
}

} // verus!
