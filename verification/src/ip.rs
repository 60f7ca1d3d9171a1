//! IPv4 address with an optional CIDR prefix length, and its text form.
//!
//! The text form is `A.B.C.D` or `A.B.C.D/N`. A bare address is a `/32`
//! (single host); host bits below the prefix are kept as written (the
//! canonical, masked form is [`crate::policy::Ipv4Cidr`]).

use crate::policy;
use crate::text::{
    chars_of, decimal, find_char, lemma_decimal, lemma_decimal_u8_parses, lemma_split_on_append,
    lemma_split_on_no_sep, lemma_split_once_at, parse_octet_chars, parse_u8_chars,
    push_decimal, spec_parse_octet, spec_parse_u8, split_on, split_once, split_ranges,
};
use vstd::prelude::*;
use vstd::string::StrSliceExecFns;

verus! {

/// What `<str as Debug>` writes for a string: the string quoted, with
/// special characters escaped.
pub uninterp spec fn spec_debug_str(s: Seq<char>) -> Seq<char>;

/// The `Debug` rendering of a string (`format!("{:?}", s)`): the result
/// is named by [`spec_debug_str`] of the text, nothing more is claimed.
#[verifier::external_body]
pub(crate) fn debug_str(s: &str) -> (r: String)
    ensures
        r@ == spec_debug_str(s@),
{
    format!("{:?}", s)
}

/// The address written in dotted-quad form, if `s` is one: exactly four
/// groups separated by `.`, each accepted by the octet grammar.
pub open spec fn spec_parse_ipv4(s: Seq<char>) -> Option<Seq<u8>> {
    let parts = split_on(s, '.');
    if parts.len() == 4 && (forall|i: int| 0 <= i < 4 ==> (#[trigger] spec_parse_octet(parts[i])) is Some) {
        Some(Seq::new(4, |i: int| spec_parse_octet(parts[i])->0))
    } else {
        None
    }
}

pub open spec fn msg_invalid_prefix(p: Seq<char>, s: Seq<char>) -> Seq<char> {
    "invalid prefix length "@ + spec_debug_str(p) + " in "@ + spec_debug_str(s)
}

pub open spec fn msg_prefix_out_of_range(n: u8, s: Seq<char>) -> Seq<char> {
    "prefix length "@ + decimal(n as nat) + " out of range 0..=32 in "@ + spec_debug_str(s)
}

pub open spec fn msg_invalid_address(a: Seq<char>, s: Seq<char>) -> Seq<char> {
    "invalid IPv4 address "@ + spec_debug_str(a) + " in "@ + spec_debug_str(s)
}

/// The outcome of parsing `s` as `A.B.C.D` or `A.B.C.D/N`: the octets
/// and prefix length, or the error message.
///
/// The text after the first `/` is read as by `u8::from_str` and must
/// be at most 32; it is checked before the address.
pub open spec fn spec_cidr_parse(s: Seq<char>) -> Result<(Seq<u8>, u8), Seq<char>> {
    match split_once(s, '/') {
        None => match spec_parse_ipv4(s) {
            Some(a) => Ok((a, 32u8)),
            None => Err(msg_invalid_address(s, s)),
        },
        Some((a, p)) => match spec_parse_u8(p) {
            None => Err(msg_invalid_prefix(p, s)),
            Some(n) => if n > 32 {
                Err(msg_prefix_out_of_range(n, s))
            } else {
                match spec_parse_ipv4(a) {
                    Some(o) => Ok((o, n)),
                    None => Err(msg_invalid_address(a, s)),
                }
            },
        },
    }
}

/// Dotted-quad text of four octets.
pub open spec fn spec_dotted(a: Seq<u8>) -> Seq<char> {
    decimal(a[0] as nat) + seq!['.'] + decimal(a[1] as nat) + seq!['.'] + decimal(a[2] as nat)
        + seq!['.'] + decimal(a[3] as nat)
}

/// Text form of a CIDR: the bare address for `/32`, `A.B.C.D/N`
/// otherwise.
pub open spec fn spec_cidr_text(a: Seq<u8>, prefix_len: u8) -> Seq<char> {
    if prefix_len == 32 {
        spec_dotted(a)
    } else {
        spec_dotted(a) + seq!['/'] + decimal(prefix_len as nat)
    }
}

/// IPv4 address with an optional CIDR prefix length.
///
/// `192.168.0.1` stands for `192.168.0.1/32`; `192.168.0.0/16` is a
/// `/16` prefix. Host bits below `prefix_len` are kept as written.
#[derive(Debug, Clone, Copy, PartialEq, Eq, Hash)]
pub struct Ipv4Cidr {
    pub addr: [u8; 4],
    pub prefix_len: u8,
}

/// The characters `cs[start..end]` as a vector of their own.
fn sub_vec(cs: &Vec<char>, start: usize, end: usize) -> (r: Vec<char>)
    requires
        start <= end <= cs.len(),
    ensures
        r@ == cs@.subrange(start as int, end as int),
{
    let mut out: Vec<char> = Vec::new();
    let mut i: usize = start;
    while i < end
        invariant
            start <= i <= end <= cs.len(),
            out@ == cs@.subrange(start as int, i as int),
        decreases end - i,
    {
        out.push(cs[i]);
        i = i + 1;
        assert(out@ =~= cs@.subrange(start as int, i as int));
    }
    out
}

/// Dotted-quad parse of `cs`.
fn parse_ipv4_chars(cs: &Vec<char>) -> (r: Option<[u8; 4]>)
    ensures
        match spec_parse_ipv4(cs@) {
            Some(a) => r matches Some(o) && o@ == a,
            None => r is None,
        },
{
    let parts = split_ranges(cs, '.');
    if parts.len() != 4 {
        return None;
    }
    let ghost sp = split_on(cs@, '.');
    let o0 = parse_octet_chars(cs, parts[0].0, parts[0].1);
    let o1 = parse_octet_chars(cs, parts[1].0, parts[1].1);
    let o2 = parse_octet_chars(cs, parts[2].0, parts[2].1);
    let o3 = parse_octet_chars(cs, parts[3].0, parts[3].1);
    assert(o0 == spec_parse_octet(sp[0]));
    assert(o1 == spec_parse_octet(sp[1]));
    assert(o2 == spec_parse_octet(sp[2]));
    assert(o3 == spec_parse_octet(sp[3]));
    match (o0, o1, o2, o3) {
        (Some(a), Some(b), Some(c), Some(d)) => {
            let r = [a, b, c, d];
            assert(forall|i: int| 0 <= i < 4 ==> (#[trigger] spec_parse_octet(sp[i])) is Some) by {
                assert forall|i: int| 0 <= i < 4 implies (#[trigger] spec_parse_octet(
                    sp[i],
                )) is Some by {
                    if i == 0 {
                    } else if i == 1 {
                    } else if i == 2 {
                    } else {
                    }
                }
            }
            assert(r@ =~= Seq::new(4, |i: int| spec_parse_octet(sp[i])->0));
            Some(r)
        },
        _ => {
            assert(!(spec_parse_octet(sp[0]) is Some && spec_parse_octet(sp[1]) is Some
                && spec_parse_octet(sp[2]) is Some && spec_parse_octet(sp[3]) is Some));
            None
        },
    }
}

impl Ipv4Cidr {
    /// Parse the textual `A.B.C.D` or `A.B.C.D/N` form. A bare address
    /// is a `/32`; `N` must be `0..=32`.
    pub fn parse(s: &str) -> (r: Result<Self, String>)
        ensures
            match spec_cidr_parse(s@) {
                Ok((a, n)) => r matches Ok(c) && c.addr@ == a && c.prefix_len == n,
                Err(m) => r matches Err(e) && e@ == m,
            },
    {
        let cs = chars_of(s);
        let n = cs.len();
        let slash = find_char(&cs, '/');
        let mut addr_end: usize = n;
        let mut prefix_len: u8 = 32;
        match slash {
            None => {
                proof {
                    assert(!exists|i: int| crate::text::is_first_index(s@, '/', i));
                }
            },
            Some(k) => {
                proof {
                    lemma_split_once_at(s@, '/', k as int);
                    assert(s@.skip(k + 1) =~= cs@.subrange(k + 1, n as int));
                }
                match parse_u8_chars(&cs, k + 1, n) {
                    None => {
                        let p = s.substring_char(k + 1, n);
                        let mut m = String::from_str("invalid prefix length ");
                        m.append(debug_str(p).as_str());
                        m.append(" in ");
                        m.append(debug_str(s).as_str());
                        return Err(m);
                    },
                    Some(v) => {
                        if v > 32 {
                            let mut m = String::from_str("prefix length ");
                            push_decimal(&mut m, v as u64);
                            m.append(" out of range 0..=32 in ");
                            m.append(debug_str(s).as_str());
                            return Err(m);
                        }
                        addr_end = k;
                        prefix_len = v;
                    },
                }
            },
        }
        let a = sub_vec(&cs, 0, addr_end);
        proof {
            if addr_end == n {
                assert(a@ =~= s@);
            } else {
                assert(a@ =~= s@.take(addr_end as int));
            }
        }
        match parse_ipv4_chars(&a) {
            Some(o) => Ok(Ipv4Cidr { addr: o, prefix_len }),
            None => {
                let ap = s.substring_char(0, addr_end);
                let mut m = String::from_str("invalid IPv4 address ");
                m.append(debug_str(ap).as_str());
                m.append(" in ");
                m.append(debug_str(s).as_str());
                proof {
                    assert(ap@ =~= a@);
                }
                Err(m)
            },
        }
    }

    /// The text form: `A.B.C.D` for a `/32`, `A.B.C.D/N` otherwise.
    pub fn to_string(&self) -> (r: String)
        ensures
            r@ == spec_cidr_text(self.addr@, self.prefix_len),
    {
        proof {
            reveal_strlit(".");
            reveal_strlit("/");
        }
        let mut out = String::new();
        push_decimal(&mut out, self.addr[0] as u64);
        out.append(".");
        push_decimal(&mut out, self.addr[1] as u64);
        out.append(".");
        push_decimal(&mut out, self.addr[2] as u64);
        out.append(".");
        push_decimal(&mut out, self.addr[3] as u64);
        if self.prefix_len != 32 {
            out.append("/");
            push_decimal(&mut out, self.prefix_len as u64);
        }
        assert("."@ =~= seq!['.']);
        assert("/"@ =~= seq!['/']);
        assert(out@ =~= spec_cidr_text(self.addr@, self.prefix_len));
        out
    }
}

/// The dotted-quad text of an address parses back to that address.
pub proof fn lemma_dotted_parses(a: Seq<u8>)
    requires
        a.len() == 4,
    ensures
        spec_parse_ipv4(spec_dotted(a)) == Some(a),
        !spec_dotted(a).contains('/'),
{
    let d0 = decimal(a[0] as nat);
    let d1 = decimal(a[1] as nat);
    let d2 = decimal(a[2] as nat);
    let d3 = decimal(a[3] as nat);
    lemma_decimal(a[0] as nat);
    lemma_decimal(a[1] as nat);
    lemma_decimal(a[2] as nat);
    lemma_decimal(a[3] as nat);
    lemma_decimal_u8_parses(a[0]);
    lemma_decimal_u8_parses(a[1]);
    lemma_decimal_u8_parses(a[2]);
    lemma_decimal_u8_parses(a[3]);
    let dot = seq!['.'];
    lemma_split_on_no_sep(d0, '.');
    lemma_split_on_append(d0, d1, '.');
    lemma_split_on_append(d0 + dot + d1, d2, '.');
    lemma_split_on_append(d0 + dot + d1 + dot + d2, d3, '.');
    let parts = split_on(spec_dotted(a), '.');
    assert(parts =~= seq![d0, d1, d2, d3]);
    assert(forall|i: int| 0 <= i < 4 ==> (#[trigger] spec_parse_octet(parts[i])) is Some) by {
        assert forall|i: int| 0 <= i < 4 implies (#[trigger] spec_parse_octet(parts[i])) is Some by {
            if i == 0 {
            } else if i == 1 {
            } else if i == 2 {
            } else {
            }
        }
    }
    assert(Seq::new(4, |i: int| spec_parse_octet(parts[i])->0) =~= a) by {
        assert(parts[0] == d0);
        assert(parts[1] == d1);
        assert(parts[2] == d2);
        assert(parts[3] == d3);
    }
    let t = spec_dotted(a);
    assert(!t.contains('/')) by {
        if t.contains('/') {
            let j = choose|j: int| 0 <= j < t.len() && t[j] == '/';
            let l0 = d0.len() as int;
            let l1 = d1.len() as int;
            let l2 = d2.len() as int;
            if j < l0 {
                assert(d0[j] == '/');
            } else if j == l0 {
            } else if j < l0 + 1 + l1 {
                assert(d1[j - l0 - 1] == '/');
            } else if j == l0 + 1 + l1 {
            } else if j < l0 + 2 + l1 + l2 {
                assert(d2[j - l0 - 2 - l1] == '/');
            } else if j == l0 + 2 + l1 + l2 {
            } else {
                assert(d3[j - l0 - 3 - l1 - l2] == '/');
            }
        }
    }
}

/// Round trip: the text form of a CIDR with a prefix length of at most
/// 32 parses back to the same address and prefix length.
pub proof fn law_cidr_text_roundtrip(c: Ipv4Cidr)
    requires
        c.prefix_len <= 32,
    ensures
        spec_cidr_parse(spec_cidr_text(c.addr@, c.prefix_len)) == Ok::<(Seq<u8>, u8), Seq<char>>((c.addr@, c.prefix_len)),
{
    let a = c.addr@;
    lemma_dotted_parses(a);
    let d = spec_dotted(a);
    if c.prefix_len == 32 {
        assert(!exists|i: int| crate::text::is_first_index(d, '/', i)) by {
            if exists|i: int| crate::text::is_first_index(d, '/', i) {
                let i = choose|i: int| crate::text::is_first_index(d, '/', i);
                assert(d.contains('/'));
            }
        }
    } else {
        let t = d + seq!['/'] + decimal(c.prefix_len as nat);
        let k = d.len() as int;
        assert(crate::text::is_first_index(t, '/', k)) by {
            assert forall|j: int| 0 <= j < k implies t[j] != '/' by {
                assert(t[j] == d[j]);
                if d[j] == '/' {
                    assert(d.contains('/'));
                }
            }
        }
        lemma_split_once_at(t, '/', k);
        assert(t.take(k) =~= d);
        assert(t.skip(k + 1) =~= decimal(c.prefix_len as nat));
        lemma_decimal_u8_parses(c.prefix_len);
    }
}

/// Userspace wrapper over the canonical [`policy::Ipv4Cidr`] used as a
/// kernel map value.
#[derive(Copy, Clone, Debug, PartialEq, Eq, Hash)]
pub struct Ipv4CidrPod(pub policy::Ipv4Cidr);

impl From<policy::Ipv4Cidr> for Ipv4CidrPod {
    fn from(v: policy::Ipv4Cidr) -> (r: Self) {
        Ipv4CidrPod(v)
    }
}

impl vstd::std_specs::convert::FromSpecImpl<policy::Ipv4Cidr> for Ipv4CidrPod {
    open spec fn obeys_from_spec() -> bool {
        true
    }

    open spec fn from_spec(v: policy::Ipv4Cidr) -> Self {
        Ipv4CidrPod(v)
    }
}

impl From<Ipv4CidrPod> for policy::Ipv4Cidr {
    fn from(v: Ipv4CidrPod) -> (r: Self) {
        v.0
    }
}

impl vstd::std_specs::convert::FromSpecImpl<Ipv4CidrPod> for policy::Ipv4Cidr {
    open spec fn obeys_from_spec() -> bool {
        true
    }

    open spec fn from_spec(v: Ipv4CidrPod) -> Self {
        v.0
    }
}

} // verus!
