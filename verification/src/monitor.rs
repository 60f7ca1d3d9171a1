//! Event monitoring in the data path: which packets give an event
//! record for the ring buffers, and the monitor-enable flag.

use crate::raw::{Tcp4EventRaw, Udp4EventRaw};
use vstd::prelude::*;

verus! {

/// The big-endian value of the four bytes of `a`.
pub open spec fn spec_be_u32(a: Seq<u8>) -> u32 {
    (a[0] * 0x1000000 + a[1] * 0x10000 + a[2] * 0x100 + a[3]) as u32
}

/// `u32::from_be_bytes`.
pub fn be_u32(a: [u8; 4]) -> (r: u32)
    ensures
        r == spec_be_u32(a@),
{
    (a[0] as u32) * 0x1000000 + (a[1] as u32) * 0x10000 + (a[2] as u32) * 0x100 + (a[3] as u32)
}

/// Monitoring is on when the `MONITOR_ENABLED` entry exists and is not
/// zero.
pub fn is_monitor_enabled(flag: Option<u32>) -> (r: bool)
    ensures
        r == (flag matches Some(v) && v != 0),
{
    match flag {
        Some(v) => v != 0,
        None => false,
    }
}

/// Switch monitoring off (done when a ring buffer has no room left).
pub fn disable_monitor(flag: &mut u32)
    ensures
        *final(flag) == 0,
{
    *flag = 0;
}

/// The UDP event record of a packet, when monitoring is on.
pub open spec fn spec_monitor_udp(
    enabled: bool,
    src_ip: Seq<u8>,
    dst_ip: Seq<u8>,
    src_port: u16,
    dst_port: u16,
    tstamp: u64,
) -> Option<Udp4EventRaw> {
    if enabled {
        Some(
            Udp4EventRaw {
                src: spec_be_u32(src_ip),
                dst: spec_be_u32(dst_ip),
                src_port,
                dst_port,
                _pad: 0,
                timestamp: tstamp,
            },
        )
    } else {
        None
    }
}

/// The record to submit for a UDP packet handled by the default action
/// (or by a pass-all protocol default), if monitoring is on.
pub fn try_monitor_udp(
    enabled: bool,
    src_ip: [u8; 4],
    dst_ip: [u8; 4],
    src_port: u16,
    dst_port: u16,
    tstamp: u64,
) -> (r: Option<Udp4EventRaw>)
    ensures
        r == spec_monitor_udp(enabled, src_ip@, dst_ip@, src_port, dst_port, tstamp),
{
    if !enabled {
        return None;
    }
    let src = be_u32(src_ip);
    let dst = be_u32(dst_ip);
    Some(Udp4EventRaw::new(src, dst, src_port, dst_port, tstamp))
}

/// A TCP packet is worth an event when it is a bare ACK (ACK set, SYN
/// clear) carrying no payload: the IPv4 total length is the sum of the
/// IPv4 header length `ihl` (bytes) and the TCP header length (`doff`
/// words of four bytes).
pub open spec fn spec_is_bare_ack(syn: bool, ack: bool, ihl: u8, doff: u16, tot_len: u16) -> bool {
    ack && !syn && tot_len == ihl + doff * 4
}

/// The TCP event record of a packet, when monitoring is on and the
/// packet is a bare ACK.
pub open spec fn spec_monitor_tcp(
    enabled: bool,
    src_ip: Seq<u8>,
    dst_ip: Seq<u8>,
    src_port: u16,
    dst_port: u16,
    syn: bool,
    ack: bool,
    ihl: u8,
    doff: u16,
    tot_len: u16,
    tstamp: u64,
) -> Option<Tcp4EventRaw> {
    if enabled && spec_is_bare_ack(syn, ack, ihl, doff, tot_len) {
        Some(
            Tcp4EventRaw {
                src: spec_be_u32(src_ip),
                dst: spec_be_u32(dst_ip),
                src_port,
                dst_port,
                _pad: 0,
                timestamp: tstamp,
            },
        )
    } else {
        None
    }
}

/// The record to submit for a TCP packet handled by the default action
/// (or by a pass-all protocol default), if monitoring is on. `ihl` is
/// the IPv4 header length in bytes, `doff` the 4-bit TCP data offset.
pub fn try_monitor_tcp(
    enabled: bool,
    src_ip: [u8; 4],
    dst_ip: [u8; 4],
    src_port: u16,
    dst_port: u16,
    syn: bool,
    ack: bool,
    ihl: u8,
    doff: u16,
    tot_len: u16,
    tstamp: u64,
) -> (r: Option<Tcp4EventRaw>)
    requires
        doff < 16,
    ensures
        r == spec_monitor_tcp(
            enabled,
            src_ip@,
            dst_ip@,
            src_port,
            dst_port,
            syn,
            ack,
            ihl,
            doff,
            tot_len,
            tstamp,
        ),
{
    if !enabled {
        return None;
    }
    if ack && !syn {
        let ip_hdr_len = ihl as u16;
        let tcp_hdr_len = doff * 4;
        if tot_len == ip_hdr_len + tcp_hdr_len {
            let src = be_u32(src_ip);
            let dst = be_u32(dst_ip);
            return Some(Tcp4EventRaw::new(src, dst, src_port, dst_port, tstamp));
        }
    }
    None
}

/// Hand a UDP record to its ring buffer: when a slot could be reserved
/// (`reserved`) the record is the one to write; otherwise nothing is
/// written and monitoring is switched off.
pub fn submit_udp4_event(event: Udp4EventRaw, reserved: bool, monitor_flag: &mut u32) -> (r: Option<
    Udp4EventRaw,
>)
    ensures
        reserved ==> r == Some(event) && *final(monitor_flag) == *old(monitor_flag),
        !reserved ==> r is None && *final(monitor_flag) == 0,
{
    if reserved {
        Some(event)
    } else {
        disable_monitor(monitor_flag);
        None
    }
}

/// Hand a TCP record to its ring buffer, as [`submit_udp4_event`].
pub fn submit_tcp4_event(event: Tcp4EventRaw, reserved: bool, monitor_flag: &mut u32) -> (r: Option<
    Tcp4EventRaw,
>)
    ensures
        reserved ==> r == Some(event) && *final(monitor_flag) == *old(monitor_flag),
        !reserved ==> r is None && *final(monitor_flag) == 0,
{
    if reserved {
        Some(event)
    } else {
        disable_monitor(monitor_flag);
        None
    }
}

/// The value of an IPv4 address as an integer, most significant octet
/// first.
pub open spec fn addr_value(a: Seq<u8>) -> int {
    ((a[0] as int * 256 + a[1] as int) * 256 + a[2] as int) * 256 + a[3] as int
}

/// Monitor law for TCP: with monitoring on, a TCP packet gives an event
/// exactly when it is a bare ACK (ACK set, SYN clear) with no payload,
/// that is when the IPv4 total length is the IPv4 header length plus the
/// TCP header length of `doff` four-byte words (TCP options included);
/// the event carries the packet's addresses (as integers, most
/// significant octet first), ports and timestamp. With monitoring off
/// there is none.
pub proof fn law_tcp_event_for_bare_acks(
    src_ip: Seq<u8>,
    dst_ip: Seq<u8>,
    src_port: u16,
    dst_port: u16,
    syn: bool,
    ack: bool,
    ihl: u8,
    doff: u16,
    tot_len: u16,
    tstamp: u64,
)
    requires
        src_ip.len() == 4,
        dst_ip.len() == 4,
        doff < 16,
    ensures
        spec_monitor_tcp(true, src_ip, dst_ip, src_port, dst_port, syn, ack, ihl, doff, tot_len, tstamp) is Some
            <==> (ack && !syn && tot_len as int == ihl as int + 4 * doff as int),
        spec_monitor_tcp(true, src_ip, dst_ip, src_port, dst_port, syn, ack, ihl, doff, tot_len, tstamp) matches Some(
            e,
        ) ==> e.src as int == addr_value(src_ip) && e.dst as int == addr_value(dst_ip) && e.src_port == src_port
            && e.dst_port == dst_port && e.timestamp == tstamp && e._pad == 0,
        spec_monitor_tcp(false, src_ip, dst_ip, src_port, dst_port, syn, ack, ihl, doff, tot_len, tstamp) is None,
{
    lemma_be_u32_value(src_ip);
    lemma_be_u32_value(dst_ip);
}

/// The big-endian value of four octets is their value as an integer.
proof fn lemma_be_u32_value(a: Seq<u8>)
    requires
        a.len() == 4,
    ensures
        spec_be_u32(a) as int == addr_value(a),
{
    let v = a[0] * 0x1000000 + a[1] * 0x10000 + a[2] * 0x100 + a[3];
    assert(0 <= v < 0x1_0000_0000);
    assert(v == addr_value(a));
}

/// Monitor law for UDP: with monitoring on, the record of a UDP packet
/// carries its addresses (as integers, most significant octet first),
/// ports and timestamp; with monitoring off there is none.
pub proof fn law_udp_event_record(
    src_ip: Seq<u8>,
    dst_ip: Seq<u8>,
    src_port: u16,
    dst_port: u16,
    tstamp: u64,
)
    requires
        src_ip.len() == 4,
        dst_ip.len() == 4,
    ensures
        spec_monitor_udp(true, src_ip, dst_ip, src_port, dst_port, tstamp) matches Some(e) && e.src as int
            == addr_value(src_ip) && e.dst as int == addr_value(dst_ip) && e.src_port == src_port && e.dst_port
            == dst_port && e.timestamp == tstamp && e._pad == 0,
        spec_monitor_udp(false, src_ip, dst_ip, src_port, dst_port, tstamp) is None,
{
    lemma_be_u32_value(src_ip);
    lemma_be_u32_value(dst_ip);
}

} // verus!
