//! What the kernel maps computed by [`crate::plan::populate_maps`] make
//! the data path do: which packets a configuration lets through, and
//! the guarantees of the ACK flood protection.

use crate::config::{Action, InterfaceView};
use crate::enforce::{
    is_longest_match, lemma_longest_match_unique, spec_action_to_xdp, spec_lookup_entry, spec_lpm,
    spec_map_get, spec_tcp_path, spec_udp_path, XDP_DROP, XDP_PASS,
};
use crate::plan::{
    add_prefixes, fresh_policy, is_first_key, spec_collect_tcp, spec_collect_udp, spec_entry,
    spec_expand, spec_expand_tcp_rules, spec_expand_udp_rules, spec_populate, spec_port_actions,
    spec_rule_prefixes, spec_tcp_step, spec_udp_step, udp_rule_port, IfacePolicyView, MapPlanView,
};
use crate::policy::{
    spec_covers, CidrView, ACTION_PASS, ALLOW_OUTGOING_FLAG, MAX_TCP_ACK_ISN_ENTRIES, PORT_ANY,
};
use crate::protect::{spec_protect, TCP_ACK_MAX_WINDOW};
use crate::tcp::Tcp4IngressRuleView;
use crate::udp::Udp4IngressRuleView;
use vstd::prelude::*;

verus! {

// ---------------------------------------------------------------------------
// What a rule allows
// ---------------------------------------------------------------------------

/// A rule with these source ranges, name and port allows source prefix
/// `m` with port `p`: its ranges parse and `m` is one of their canonical
/// prefixes (match-any when it lists none), and `p` is its port.
pub open spec fn range_rule_allows(
    ranges: Seq<Seq<char>>,
    name: Seq<char>,
    port: u16,
    m: CidrView,
    p: u16,
) -> bool {
    &&& spec_rule_prefixes(ranges, name) matches Ok(ps)
    &&& ps.contains(m)
    &&& p == port
}

/// What a UDP rule allows (a rule without a source port allows
/// [`PORT_ANY`]).
pub open spec fn udp_rule_allows(r: Udp4IngressRuleView, m: CidrView, p: u16) -> bool {
    range_rule_allows(r.src_ip_ranges, r.name, udp_rule_port(r.src_port), m, p)
}

/// What a TCP rule allows.
pub open spec fn tcp_rule_allows(r: Tcp4IngressRuleView, m: CidrView, p: u16) -> bool {
    range_rule_allows(r.src_ip_ranges, r.name, r.port, m, p)
}

pub open spec fn udp_rules_allow(rules: Seq<Udp4IngressRuleView>, m: CidrView, p: u16) -> bool {
    exists|j: int| 0 <= j < rules.len() && udp_rule_allows(#[trigger] rules[j], m, p)
}

pub open spec fn tcp_rules_allow(rules: Seq<Tcp4IngressRuleView>, m: CidrView, p: u16) -> bool {
    exists|j: int| 0 <= j < rules.len() && tcp_rule_allows(#[trigger] rules[j], m, p)
}

/// Some UDP rule of the interface allows `(m, p)`.
pub open spec fn iface_udp_allows(iface: InterfaceView, m: CidrView, p: u16) -> bool {
    match iface.udp {
        Some(u) => udp_rules_allow(u.allow_list, m, p),
        None => false,
    }
}

/// Some TCP rule of the interface allows `(m, p)`.
pub open spec fn iface_tcp_allows(iface: InterfaceView, m: CidrView, p: u16) -> bool {
    match iface.tcp {
        Some(t) => tcp_rules_allow(t.allow_list, m, p),
        None => false,
    }
}

/// Some UDP rule of an interface with index `k` allows `(m, p)`.
pub open spec fn udp_allowed_on(
    ifaces: Seq<InterfaceView>,
    idx: Seq<u32>,
    k: u32,
    m: CidrView,
    p: u16,
) -> bool {
    exists|i: int|
        0 <= i < ifaces.len() && idx[i] == k && iface_udp_allows(#[trigger] ifaces[i], m, p)
}

/// Some TCP rule of an interface with index `k` allows `(m, p)`.
pub open spec fn tcp_allowed_on(
    ifaces: Seq<InterfaceView>,
    idx: Seq<u32>,
    k: u32,
    m: CidrView,
    p: u16,
) -> bool {
    exists|i: int|
        0 <= i < ifaces.len() && idx[i] == k && iface_tcp_allows(#[trigger] ifaces[i], m, p)
}

// ---------------------------------------------------------------------------
// Policies built from allow rules
// ---------------------------------------------------------------------------

/// A per-interface policy built from allow rules admitted by `a`: the
/// default is drop, every rule passes and is admitted by `a`, and every
/// LPM prefix is the prefix of some rule.
pub open spec fn pol_sound(pol: IfacePolicyView, a: spec_fn(CidrView, u16) -> bool) -> bool {
    &&& pol.default_action == Action::Drop
    &&& forall|j: int|
        0 <= j < pol.port_rules.len() ==> (#[trigger] pol.port_rules[j]).2 == Action::Pass && a(
            pol.port_rules[j].0,
            pol.port_rules[j].1,
        )
    &&& forall|q: CidrView|
        #[trigger] pol.prefixes.contains(q) ==> exists|j: int|
            0 <= j < pol.port_rules.len() && (#[trigger] pol.port_rules[j]).0 == q
}

/// `b` keeps the rules and prefixes of `a`, its default action and its
/// allow-outgoing flag.
pub open spec fn pol_grows(a: IfacePolicyView, b: IfacePolicyView) -> bool {
    &&& b.default_action == a.default_action
    &&& b.allow_outgoing == a.allow_outgoing
    &&& forall|t: (CidrView, u16, Action)| a.port_rules.contains(t) ==> #[trigger] b.port_rules.contains(t)
    &&& forall|q: CidrView| a.prefixes.contains(q) ==> #[trigger] b.prefixes.contains(q)
}

proof fn lemma_pol_sound_weaken(
    pol: IfacePolicyView,
    a: spec_fn(CidrView, u16) -> bool,
    b: spec_fn(CidrView, u16) -> bool,
)
    requires
        pol_sound(pol, a),
        forall|m: CidrView, p: u16| #[trigger] a(m, p) ==> b(m, p),
    ensures
        pol_sound(pol, b),
{
    assert forall|j: int| 0 <= j < pol.port_rules.len() implies (#[trigger] pol.port_rules[j]).2
        == Action::Pass && b(pol.port_rules[j].0, pol.port_rules[j].1) by {
        assert(a(pol.port_rules[j].0, pol.port_rules[j].1));
    }
}

proof fn lemma_add_prefixes(s: Seq<CidrView>, ps: Seq<CidrView>)
    ensures
        forall|q: CidrView| #[trigger] add_prefixes(s, ps).contains(q) <==> s.contains(q) || ps.contains(q),
    decreases ps.len(),
{
    if ps.len() > 0 {
        lemma_add_prefixes(s, ps.drop_last());
        let r = add_prefixes(s, ps.drop_last());
        assert forall|q: CidrView| #[trigger] add_prefixes(s, ps).contains(q) <==> s.contains(q)
            || ps.contains(q) by {
            if ps.contains(q) && !ps.drop_last().contains(q) {
                let j = choose|j: int| 0 <= j < ps.len() && ps[j] == q;
                if j < ps.len() - 1 {
                    assert(ps.drop_last()[j] == q);
                }
            }
            if ps.drop_last().contains(q) {
                let j = choose|j: int| 0 <= j < ps.len() - 1 && ps.drop_last()[j] == q;
                assert(ps[j] == q);
            }
            if !r.contains(ps.last()) {
                assert(r.push(ps.last())[r.len() as int] == ps.last());
                if r.contains(q) {
                    let j = choose|j: int| 0 <= j < r.len() && r[j] == q;
                    assert(r.push(ps.last())[j] == q);
                }
                if r.push(ps.last()).contains(q) && q != ps.last() {
                    let j = choose|j: int| 0 <= j < r.len() + 1 && r.push(ps.last())[j] == q;
                    assert(r[j] == q);
                }
            }
        }
    }
}

proof fn lemma_expand_sound(pol: IfacePolicyView, ps: Seq<CidrView>, port: u16, a: spec_fn(CidrView, u16) -> bool)
    requires
        pol_sound(pol, a),
        forall|m: CidrView| #[trigger] ps.contains(m) ==> a(m, port),
    ensures
        pol_sound(spec_expand(pol, ps, port), a),
        pol_grows(pol, spec_expand(pol, ps, port)),
        forall|m: CidrView|
            #[trigger] ps.contains(m) ==> spec_expand(pol, ps, port).port_rules.contains(
                (m, port, Action::Pass),
            ) && spec_expand(pol, ps, port).prefixes.contains(m),
{
    let n = spec_expand(pol, ps, port);
    let added = ps.map_values(|p: CidrView| (p, port, Action::Pass));
    lemma_add_prefixes(pol.prefixes, ps);
    assert(n.port_rules =~= pol.port_rules + added);
    assert forall|j: int| 0 <= j < n.port_rules.len() implies (#[trigger] n.port_rules[j]).2
        == Action::Pass && a(n.port_rules[j].0, n.port_rules[j].1) by {
        if j >= pol.port_rules.len() {
            assert(n.port_rules[j] == added[j - pol.port_rules.len()]);
            assert(ps.contains(ps[j - pol.port_rules.len()]));
        } else {
            assert(n.port_rules[j] == pol.port_rules[j]);
        }
    }
    assert forall|q: CidrView| #[trigger] n.prefixes.contains(q) implies exists|j: int|
        0 <= j < n.port_rules.len() && (#[trigger] n.port_rules[j]).0 == q by {
        if pol.prefixes.contains(q) {
            let j = choose|j: int| 0 <= j < pol.port_rules.len() && (#[trigger] pol.port_rules[j]).0 == q;
            assert(n.port_rules[j] == pol.port_rules[j]);
        } else {
            let j = choose|j: int| 0 <= j < ps.len() && ps[j] == q;
            assert(n.port_rules[pol.port_rules.len() + j] == added[j]);
        }
    }
    assert forall|t: (CidrView, u16, Action)| pol.port_rules.contains(t) implies #[trigger] n.port_rules.contains(t) by {
        let j = choose|j: int| 0 <= j < pol.port_rules.len() && pol.port_rules[j] == t;
        assert(n.port_rules[j] == t);
    }
    assert forall|m: CidrView| #[trigger] ps.contains(m) implies n.port_rules.contains(
        (m, port, Action::Pass),
    ) && n.prefixes.contains(m) by {
        let j = choose|j: int| 0 <= j < ps.len() && ps[j] == m;
        assert(n.port_rules[pol.port_rules.len() + j] == added[j]);
    }
}

proof fn lemma_expand_udp_rules(pol: IfacePolicyView, rules: Seq<Udp4IngressRuleView>, a: spec_fn(CidrView, u16) -> bool)
    requires
        pol_sound(pol, a),
        forall|m: CidrView, p: u16| #[trigger] udp_rules_allow(rules, m, p) ==> a(m, p),
        spec_expand_udp_rules(pol, rules) is Ok,
    ensures
        pol_sound(spec_expand_udp_rules(pol, rules)->Ok_0, a),
        pol_grows(pol, spec_expand_udp_rules(pol, rules)->Ok_0),
        forall|j: int, m: CidrView, p: u16|
            0 <= j < rules.len() && #[trigger] udp_rule_allows(rules[j], m, p) ==> spec_expand_udp_rules(
                pol,
                rules,
            )->Ok_0.port_rules.contains((m, p, Action::Pass)) && spec_expand_udp_rules(
                pol,
                rules,
            )->Ok_0.prefixes.contains(m),
    decreases rules.len(),
{
    if rules.len() > 0 {
        let init = rules.drop_last();
        assert forall|m: CidrView, p: u16| #[trigger] udp_rules_allow(init, m, p) implies a(m, p) by {
            let j = choose|j: int| 0 <= j < init.len() && udp_rule_allows(#[trigger] init[j], m, p);
            assert(rules[j] == init[j]);
            assert(udp_rules_allow(rules, m, p));
        }
        lemma_expand_udp_rules(pol, init, a);
        let p1 = spec_expand_udp_rules(pol, init)->Ok_0;
        let r = rules.last();
        let ps = spec_rule_prefixes(r.src_ip_ranges, r.name)->Ok_0;
        let port = udp_rule_port(r.src_port);
        assert forall|m: CidrView| #[trigger] ps.contains(m) implies a(m, port) by {
            assert(udp_rule_allows(rules[rules.len() - 1], m, port));
            assert(udp_rules_allow(rules, m, port));
        }
        lemma_expand_sound(p1, ps, port, a);
        let p2 = spec_expand(p1, ps, port);
        assert forall|j: int, m: CidrView, p: u16|
            0 <= j < rules.len() && #[trigger] udp_rule_allows(rules[j], m, p) implies p2.port_rules.contains(
            (m, p, Action::Pass),
        ) && p2.prefixes.contains(m) by {
            if j < rules.len() - 1 {
                assert(init[j] == rules[j]);
                assert(udp_rule_allows(init[j], m, p));
            }
        }
    }
}

proof fn lemma_expand_tcp_rules(pol: IfacePolicyView, rules: Seq<Tcp4IngressRuleView>, a: spec_fn(CidrView, u16) -> bool)
    requires
        pol_sound(pol, a),
        forall|m: CidrView, p: u16| #[trigger] tcp_rules_allow(rules, m, p) ==> a(m, p),
        spec_expand_tcp_rules(pol, rules) is Ok,
    ensures
        pol_sound(spec_expand_tcp_rules(pol, rules)->Ok_0, a),
        pol_grows(pol, spec_expand_tcp_rules(pol, rules)->Ok_0),
        forall|j: int, m: CidrView, p: u16|
            0 <= j < rules.len() && #[trigger] tcp_rule_allows(rules[j], m, p) ==> spec_expand_tcp_rules(
                pol,
                rules,
            )->Ok_0.port_rules.contains((m, p, Action::Pass)) && spec_expand_tcp_rules(
                pol,
                rules,
            )->Ok_0.prefixes.contains(m),
    decreases rules.len(),
{
    if rules.len() > 0 {
        let init = rules.drop_last();
        assert forall|m: CidrView, p: u16| #[trigger] tcp_rules_allow(init, m, p) implies a(m, p) by {
            let j = choose|j: int| 0 <= j < init.len() && tcp_rule_allows(#[trigger] init[j], m, p);
            assert(rules[j] == init[j]);
            assert(tcp_rules_allow(rules, m, p));
        }
        lemma_expand_tcp_rules(pol, init, a);
        let p1 = spec_expand_tcp_rules(pol, init)->Ok_0;
        let r = rules.last();
        let ps = spec_rule_prefixes(r.src_ip_ranges, r.name)->Ok_0;
        let port = r.port;
        assert forall|m: CidrView| #[trigger] ps.contains(m) implies a(m, port) by {
            assert(tcp_rule_allows(rules[rules.len() - 1], m, port));
            assert(tcp_rules_allow(rules, m, port));
        }
        lemma_expand_sound(p1, ps, port, a);
        let p2 = spec_expand(p1, ps, port);
        assert forall|j: int, m: CidrView, p: u16|
            0 <= j < rules.len() && #[trigger] tcp_rule_allows(rules[j], m, p) implies p2.port_rules.contains(
            (m, p, Action::Pass),
        ) && p2.prefixes.contains(m) by {
            if j < rules.len() - 1 {
                assert(init[j] == rules[j]);
                assert(tcp_rule_allows(init[j], m, p));
            }
        }
    }
}

// ---------------------------------------------------------------------------
// Policies gathered per interface index
// ---------------------------------------------------------------------------

/// No key occurs twice.
pub open spec fn keys_unique<T>(s: Seq<(u32, T)>) -> bool {
    forall|a: int, b: int| 0 <= a < s.len() && 0 <= b < s.len() && a != b ==> s[a].0 != s[b].0
}

/// The TCP policy of the interface has this allow-outgoing flag.
pub open spec fn tcp_allow_outgoing_is(iface: InterfaceView, b: bool) -> bool {
    match iface.tcp {
        Some(t) => t.allow_outgoing == b,
        None => false,
    }
}

/// Some interface with index `k` has a UDP section.
pub open spec fn has_udp_iface(ifaces: Seq<InterfaceView>, idx: Seq<u32>, k: u32) -> bool {
    exists|i: int| 0 <= i < ifaces.len() && idx[i] == k && (#[trigger] ifaces[i]).udp is Some
}

/// Some interface with index `k` has a TCP section with allow-outgoing
/// flag `b`.
pub open spec fn has_tcp_iface(ifaces: Seq<InterfaceView>, idx: Seq<u32>, k: u32, b: bool) -> bool {
    exists|i: int| 0 <= i < ifaces.len() && idx[i] == k && tcp_allow_outgoing_is(#[trigger] ifaces[i], b)
}

proof fn lemma_udp_allowed_extend(ifaces: Seq<InterfaceView>, idx: Seq<u32>)
    requires
        ifaces.len() > 0,
    ensures
        forall|k: u32, m: CidrView, p: u16|
            #[trigger] udp_allowed_on(ifaces.drop_last(), idx, k, m, p) ==> udp_allowed_on(ifaces, idx, k, m, p),
{
    assert forall|k: u32, m: CidrView, p: u16|
        #[trigger] udp_allowed_on(ifaces.drop_last(), idx, k, m, p) implies udp_allowed_on(ifaces, idx, k, m, p) by {
        let i = choose|i: int|
            0 <= i < ifaces.len() - 1 && idx[i] == k && iface_udp_allows(#[trigger] ifaces.drop_last()[i], m, p);
        assert(ifaces[i] == ifaces.drop_last()[i]);
    }
}

proof fn lemma_tcp_allowed_extend(ifaces: Seq<InterfaceView>, idx: Seq<u32>)
    requires
        ifaces.len() > 0,
    ensures
        forall|k: u32, m: CidrView, p: u16|
            #[trigger] tcp_allowed_on(ifaces.drop_last(), idx, k, m, p) ==> tcp_allowed_on(ifaces, idx, k, m, p),
{
    assert forall|k: u32, m: CidrView, p: u16|
        #[trigger] tcp_allowed_on(ifaces.drop_last(), idx, k, m, p) implies tcp_allowed_on(ifaces, idx, k, m, p) by {
        let i = choose|i: int|
            0 <= i < ifaces.len() - 1 && idx[i] == k && iface_tcp_allows(#[trigger] ifaces.drop_last()[i], m, p);
        assert(ifaces[i] == ifaces.drop_last()[i]);
    }
}

/// In a sequence with unique keys, an entry with key `k` is the first.
proof fn lemma_unique_first<T>(s: Seq<(u32, T)>, k: u32, e: int)
    requires
        keys_unique(s),
        0 <= e < s.len(),
        s[e].0 == k,
    ensures
        is_first_key(s, k, e),
{
    assert forall|i: int| 0 <= i < e implies s[i].0 != k by {
        assert(s[i].0 != s[e].0);
    }
}

/// The entry chosen for key `k` in a sequence with unique keys: its
/// position, the key there, unique keys after, and the old entries kept.
proof fn lemma_entry(acc: Seq<(u32, IfacePolicyView)>, k: u32, fresh: IfacePolicyView)
    requires
        keys_unique(acc),
    ensures
        ({
            let (base, j) = spec_entry(acc, k, fresh);
            &&& 0 <= j < base.len()
            &&& base[j].0 == k
            &&& keys_unique(base)
            &&& acc.len() <= base.len()
            &&& forall|e: int| 0 <= e < acc.len() ==> #[trigger] base[e] == acc[e]
            &&& j >= acc.len() ==> base[j].1 == fresh && base.len() == acc.len() + 1
        }),
{
    if exists|j: int| is_first_key(acc, k, j) {
    } else {
        let base = acc.push((k, fresh));
        assert forall|a: int, b: int| 0 <= a < base.len() && 0 <= b < base.len() && a != b implies base[a].0
            != base[b].0 by {
            if a == acc.len() && b < acc.len() {
                if acc[b].0 == k {
                    lemma_unique_first(acc, k, b);
                }
            }
            if b == acc.len() && a < acc.len() {
                if acc[a].0 == k {
                    lemma_unique_first(acc, k, a);
                }
            }
        }
    }
}

proof fn lemma_fresh_sound(b: bool, a: spec_fn(CidrView, u16) -> bool)
    ensures
        pol_sound(fresh_policy(b), a),
{
}

/// The UDP policies gathered per interface index: keys are unique; each
/// policy is built from allow rules of interfaces with its index; there
/// is a policy only for, and for each, index of an interface with a UDP
/// section; and every rule of every interface is in the policy of its
/// index.
pub open spec fn udp_inv(ifaces: Seq<InterfaceView>, idx: Seq<u32>, acc: Seq<(u32, IfacePolicyView)>) -> bool {
    &&& keys_unique(acc)
    &&& forall|e: int|
        0 <= e < acc.len() ==> pol_sound(
            #[trigger] acc[e].1,
            |m: CidrView, p: u16| udp_allowed_on(ifaces, idx, acc[e].0, m, p),
        )
    &&& forall|e: int| 0 <= e < acc.len() ==> has_udp_iface(ifaces, idx, (#[trigger] acc[e]).0)
    &&& forall|i: int|
        0 <= i < ifaces.len() && (#[trigger] ifaces[i]).udp is Some ==> exists|e: int|
            0 <= e < acc.len() && acc[e].0 == idx[i]
    &&& forall|i: int, m: CidrView, p: u16|
        0 <= i < ifaces.len() && #[trigger] iface_udp_allows(ifaces[i], m, p) ==> exists|e: int|
            0 <= e < acc.len() && acc[e].0 == idx[i] && acc[e].1.port_rules.contains(
                (m, p, Action::Pass),
            ) && acc[e].1.prefixes.contains(m)
}

/// The same for TCP, where each policy also carries the allow-outgoing
/// flag of some interface with its index.
pub open spec fn tcp_inv(ifaces: Seq<InterfaceView>, idx: Seq<u32>, acc: Seq<(u32, IfacePolicyView)>) -> bool {
    &&& keys_unique(acc)
    &&& forall|e: int|
        0 <= e < acc.len() ==> pol_sound(
            #[trigger] acc[e].1,
            |m: CidrView, p: u16| tcp_allowed_on(ifaces, idx, acc[e].0, m, p),
        )
    &&& forall|e: int|
        0 <= e < acc.len() ==> has_tcp_iface(ifaces, idx, (#[trigger] acc[e]).0, acc[e].1.allow_outgoing)
    &&& forall|i: int|
        0 <= i < ifaces.len() && (#[trigger] ifaces[i]).tcp is Some ==> exists|e: int|
            0 <= e < acc.len() && acc[e].0 == idx[i]
    &&& forall|i: int, m: CidrView, p: u16|
        0 <= i < ifaces.len() && #[trigger] iface_tcp_allows(ifaces[i], m, p) ==> exists|e: int|
            0 <= e < acc.len() && acc[e].0 == idx[i] && acc[e].1.port_rules.contains(
                (m, p, Action::Pass),
            ) && acc[e].1.prefixes.contains(m)
}

proof fn lemma_udp_inv_none(ifaces: Seq<InterfaceView>, idx: Seq<u32>, acc0: Seq<(u32, IfacePolicyView)>)
    requires
        ifaces.len() > 0,
        ifaces.last().udp is None,
        udp_inv(ifaces.drop_last(), idx, acc0),
    ensures
        udp_inv(ifaces, idx, acc0),
{
    let prev = ifaces.drop_last();
    let n = ifaces.len() - 1;
    lemma_udp_allowed_extend(ifaces, idx);
    assert forall|i: int| 0 <= i < n implies #[trigger] prev[i] == ifaces[i] by {}
    assert forall|e: int| 0 <= e < acc0.len() implies pol_sound(
        #[trigger] acc0[e].1,
        |m: CidrView, p: u16| udp_allowed_on(ifaces, idx, acc0[e].0, m, p),
    ) by {
        lemma_pol_sound_weaken(
            acc0[e].1,
            |m: CidrView, p: u16| udp_allowed_on(prev, idx, acc0[e].0, m, p),
            |m: CidrView, p: u16| udp_allowed_on(ifaces, idx, acc0[e].0, m, p),
        );
    }
    assert forall|e: int| 0 <= e < acc0.len() implies has_udp_iface(ifaces, idx, (#[trigger] acc0[e]).0) by {
        assert(has_udp_iface(prev, idx, acc0[e].0));
        let i = choose|i: int| 0 <= i < prev.len() && idx[i] == acc0[e].0 && (#[trigger] prev[i]).udp is Some;
        assert(prev[i] == ifaces[i]);
    }
    assert forall|i: int|
        0 <= i < ifaces.len() && (#[trigger] ifaces[i]).udp is Some implies exists|e: int|
        0 <= e < acc0.len() && acc0[e].0 == idx[i] by {
        assert(prev[i] == ifaces[i]);
    }
    assert forall|i: int, m: CidrView, p: u16|
        0 <= i < ifaces.len() && #[trigger] iface_udp_allows(ifaces[i], m, p) implies exists|e: int|
        0 <= e < acc0.len() && acc0[e].0 == idx[i] && acc0[e].1.port_rules.contains(
            (m, p, Action::Pass),
        ) && acc0[e].1.prefixes.contains(m) by {
        assert(prev[i] == ifaces[i]);
        assert(iface_udp_allows(prev[i], m, p));
    }
    assert(keys_unique(acc0));
    assert(forall|e: int|
        0 <= e < acc0.len() ==> pol_sound(
            #[trigger] acc0[e].1,
            |m: CidrView, p: u16| udp_allowed_on(ifaces, idx, acc0[e].0, m, p),
        ));
    assert(forall|i: int|
        0 <= i < ifaces.len() && (#[trigger] ifaces[i]).udp is Some ==> exists|e: int|
            0 <= e < acc0.len() && acc0[e].0 == idx[i]);
    assert(forall|i: int, m: CidrView, p: u16|
        0 <= i < ifaces.len() && #[trigger] iface_udp_allows(ifaces[i], m, p) ==> exists|e: int|
            0 <= e < acc0.len() && acc0[e].0 == idx[i] && acc0[e].1.port_rules.contains(
                (m, p, Action::Pass),
            ) && acc0[e].1.prefixes.contains(m));
}

/// The policy of the last interface's index after its UDP rules are
/// added.
proof fn lemma_udp_inv_entry(ifaces: Seq<InterfaceView>, idx: Seq<u32>, acc0: Seq<(u32, IfacePolicyView)>)
    requires
        ifaces.len() > 0,
        idx.len() >= ifaces.len(),
        ifaces.last().udp is Some,
        udp_inv(ifaces.drop_last(), idx, acc0),
        spec_udp_step(acc0, ifaces.last(), idx[ifaces.len() - 1]) is Ok,
    ensures
        ({
            let k = idx[ifaces.len() - 1];
            let (base, j) = spec_entry(acc0, k, fresh_policy(false));
            let p2 = spec_expand_udp_rules(base[j].1, ifaces.last().udp->Some_0.allow_list)->Ok_0;
            &&& 0 <= j < base.len()
            &&& base[j].0 == k
            &&& keys_unique(base)
            &&& acc0.len() <= base.len()
            &&& forall|e: int| 0 <= e < acc0.len() ==> #[trigger] base[e] == acc0[e]
            &&& spec_udp_step(acc0, ifaces.last(), k) == Ok::<Seq<(u32, IfacePolicyView)>, Seq<char>>(base.update(j, (k, p2)))
            &&& pol_sound(p2, |m: CidrView, p: u16| udp_allowed_on(ifaces, idx, k, m, p))
            &&& j < acc0.len() ==> pol_grows(acc0[j].1, p2)
            &&& forall|m: CidrView, p: u16|
                #[trigger] iface_udp_allows(ifaces.last(), m, p) ==> p2.port_rules.contains((m, p, Action::Pass))
                    && p2.prefixes.contains(m)
        }),
{
    let prev = ifaces.drop_last();
    let n = ifaces.len() - 1;
    let k = idx[n];
    let u = ifaces.last().udp->Some_0;
    lemma_udp_allowed_extend(ifaces, idx);
    lemma_entry(acc0, k, fresh_policy(false));
    let (base, j) = spec_entry(acc0, k, fresh_policy(false));
    let ak = |m: CidrView, p: u16| udp_allowed_on(ifaces, idx, k, m, p);
    if j < acc0.len() {
        assert(base[j] == acc0[j]);
        assert(pol_sound(acc0[j].1, |m: CidrView, p: u16| udp_allowed_on(prev, idx, acc0[j].0, m, p)));
        lemma_pol_sound_weaken(
            base[j].1,
            |m: CidrView, p: u16| udp_allowed_on(prev, idx, acc0[j].0, m, p),
            ak,
        );
    } else {
        lemma_fresh_sound(false, ak);
    }
    assert forall|m: CidrView, p: u16| #[trigger] udp_rules_allow(u.allow_list, m, p) implies ak(m, p) by {
        assert(iface_udp_allows(ifaces[n], m, p));
    }
    lemma_expand_udp_rules(base[j].1, u.allow_list, ak);
}

proof fn lemma_udp_inv_some(ifaces: Seq<InterfaceView>, idx: Seq<u32>, acc0: Seq<(u32, IfacePolicyView)>)
    requires
        ifaces.len() > 0,
        idx.len() >= ifaces.len(),
        ifaces.last().udp is Some,
        udp_inv(ifaces.drop_last(), idx, acc0),
        spec_udp_step(acc0, ifaces.last(), idx[ifaces.len() - 1]) is Ok,
    ensures
        udp_inv(ifaces, idx, spec_udp_step(acc0, ifaces.last(), idx[ifaces.len() - 1])->Ok_0),
{
    let prev = ifaces.drop_last();
    let n = ifaces.len() - 1;
    let k = idx[n];
    lemma_udp_inv_entry(ifaces, idx, acc0);
    lemma_udp_allowed_extend(ifaces, idx);
    let (base, j) = spec_entry(acc0, k, fresh_policy(false));
    let p2 = spec_expand_udp_rules(base[j].1, ifaces.last().udp->Some_0.allow_list)->Ok_0;
    let acc = base.update(j, (k, p2));
    assert forall|i: int| 0 <= i < n implies #[trigger] prev[i] == ifaces[i] by {}
    assert(keys_unique(acc)) by {
        assert forall|a: int, b: int| 0 <= a < acc.len() && 0 <= b < acc.len() && a != b implies acc[a].0
            != acc[b].0 by {
            assert(base[a].0 != base[b].0);
        }
    }
    assert forall|e: int| 0 <= e < acc.len() implies pol_sound(
        #[trigger] acc[e].1,
        |m: CidrView, p: u16| udp_allowed_on(ifaces, idx, acc[e].0, m, p),
    ) by {
        if e != j {
            assert(acc[e] == acc0[e]);
            lemma_pol_sound_weaken(
                acc0[e].1,
                |m: CidrView, p: u16| udp_allowed_on(prev, idx, acc0[e].0, m, p),
                |m: CidrView, p: u16| udp_allowed_on(ifaces, idx, acc0[e].0, m, p),
            );
        }
    }
    assert forall|e: int| 0 <= e < acc.len() implies has_udp_iface(ifaces, idx, (#[trigger] acc[e]).0) by {
        if e != j {
            assert(acc[e] == acc0[e]);
            assert(has_udp_iface(prev, idx, acc0[e].0));
            let i = choose|i: int| 0 <= i < prev.len() && idx[i] == acc0[e].0 && (#[trigger] prev[i]).udp is Some;
            assert(prev[i] == ifaces[i]);
        } else {
            assert(ifaces[n].udp is Some);
        }
    }
    assert forall|i: int|
        0 <= i < ifaces.len() && (#[trigger] ifaces[i]).udp is Some implies exists|e: int|
        0 <= e < acc.len() && acc[e].0 == idx[i] by {
        if i < n {
            assert(prev[i] == ifaces[i]);
            let e = choose|e: int| 0 <= e < acc0.len() && acc0[e].0 == idx[i];
            assert(acc[e].0 == acc0[e].0);
        } else {
            assert(acc[j].0 == idx[i]);
        }
    }
    assert forall|i: int, m: CidrView, p: u16|
        0 <= i < ifaces.len() && #[trigger] iface_udp_allows(ifaces[i], m, p) implies exists|e: int|
        0 <= e < acc.len() && acc[e].0 == idx[i] && acc[e].1.port_rules.contains(
            (m, p, Action::Pass),
        ) && acc[e].1.prefixes.contains(m) by {
        if i < n {
            assert(prev[i] == ifaces[i]);
            assert(iface_udp_allows(prev[i], m, p));
            let e = choose|e: int|
                0 <= e < acc0.len() && acc0[e].0 == idx[i] && acc0[e].1.port_rules.contains(
                    (m, p, Action::Pass),
                ) && acc0[e].1.prefixes.contains(m);
            if e == j {
                assert(acc[e].1 == p2);
                assert(p2.port_rules.contains((m, p, Action::Pass)));
                assert(p2.prefixes.contains(m));
            } else {
                assert(acc[e] == acc0[e]);
            }
        } else {
            assert(acc[j].1 == p2);
        }
    }
}

proof fn lemma_collect_udp(ifaces: Seq<InterfaceView>, idx: Seq<u32>)
    requires
        idx.len() >= ifaces.len(),
        spec_collect_udp(ifaces, idx) is Ok,
    ensures
        udp_inv(ifaces, idx, spec_collect_udp(ifaces, idx)->Ok_0),
    decreases ifaces.len(),
{
    if ifaces.len() > 0 {
        let prev = ifaces.drop_last();
        assert(spec_collect_udp(prev, idx) is Ok);
        lemma_collect_udp(prev, idx);
        let acc0 = spec_collect_udp(prev, idx)->Ok_0;
        if ifaces.last().udp is None {
            lemma_udp_inv_none(ifaces, idx, acc0);
        } else {
            lemma_udp_inv_some(ifaces, idx, acc0);
        }
    }
}

proof fn lemma_tcp_inv_none(ifaces: Seq<InterfaceView>, idx: Seq<u32>, acc0: Seq<(u32, IfacePolicyView)>)
    requires
        ifaces.len() > 0,
        ifaces.last().tcp is None,
        tcp_inv(ifaces.drop_last(), idx, acc0),
    ensures
        tcp_inv(ifaces, idx, acc0),
{
    let prev = ifaces.drop_last();
    let n = ifaces.len() - 1;
    lemma_tcp_allowed_extend(ifaces, idx);
    assert forall|i: int| 0 <= i < n implies #[trigger] prev[i] == ifaces[i] by {}
    assert forall|e: int| 0 <= e < acc0.len() implies pol_sound(
        #[trigger] acc0[e].1,
        |m: CidrView, p: u16| tcp_allowed_on(ifaces, idx, acc0[e].0, m, p),
    ) by {
        lemma_pol_sound_weaken(
            acc0[e].1,
            |m: CidrView, p: u16| tcp_allowed_on(prev, idx, acc0[e].0, m, p),
            |m: CidrView, p: u16| tcp_allowed_on(ifaces, idx, acc0[e].0, m, p),
        );
    }
    assert forall|e: int| 0 <= e < acc0.len() implies has_tcp_iface(
        ifaces,
        idx,
        (#[trigger] acc0[e]).0,
        acc0[e].1.allow_outgoing,
    ) by {
        assert(has_tcp_iface(prev, idx, acc0[e].0, acc0[e].1.allow_outgoing));
        let i = choose|i: int|
            0 <= i < prev.len() && idx[i] == acc0[e].0 && tcp_allow_outgoing_is(
                #[trigger] prev[i],
                acc0[e].1.allow_outgoing,
            );
        assert(prev[i] == ifaces[i]);
    }
    assert forall|i: int|
        0 <= i < ifaces.len() && (#[trigger] ifaces[i]).tcp is Some implies exists|e: int|
        0 <= e < acc0.len() && acc0[e].0 == idx[i] by {
        assert(prev[i] == ifaces[i]);
    }
    assert forall|i: int, m: CidrView, p: u16|
        0 <= i < ifaces.len() && #[trigger] iface_tcp_allows(ifaces[i], m, p) implies exists|e: int|
        0 <= e < acc0.len() && acc0[e].0 == idx[i] && acc0[e].1.port_rules.contains(
            (m, p, Action::Pass),
        ) && acc0[e].1.prefixes.contains(m) by {
        assert(prev[i] == ifaces[i]);
        assert(iface_tcp_allows(prev[i], m, p));
    }
}

proof fn lemma_tcp_inv_entry(ifaces: Seq<InterfaceView>, idx: Seq<u32>, acc0: Seq<(u32, IfacePolicyView)>)
    requires
        ifaces.len() > 0,
        idx.len() >= ifaces.len(),
        ifaces.last().tcp is Some,
        tcp_inv(ifaces.drop_last(), idx, acc0),
        spec_tcp_step(acc0, ifaces.last(), idx[ifaces.len() - 1]) is Ok,
    ensures
        ({
            let k = idx[ifaces.len() - 1];
            let t = ifaces.last().tcp->Some_0;
            let (base, j) = spec_entry(acc0, k, fresh_policy(t.allow_outgoing));
            let b = IfacePolicyView { allow_outgoing: t.allow_outgoing, ..base[j].1 };
            let p2 = spec_expand_tcp_rules(b, t.allow_list)->Ok_0;
            &&& 0 <= j < base.len()
            &&& base[j].0 == k
            &&& keys_unique(base)
            &&& acc0.len() <= base.len()
            &&& forall|e: int| 0 <= e < acc0.len() ==> #[trigger] base[e] == acc0[e]
            &&& spec_tcp_step(acc0, ifaces.last(), k) == Ok::<Seq<(u32, IfacePolicyView)>, Seq<char>>(base.update(j, (k, p2)))
            &&& pol_sound(p2, |m: CidrView, p: u16| tcp_allowed_on(ifaces, idx, k, m, p))
            &&& p2.allow_outgoing == t.allow_outgoing
            &&& j < acc0.len() ==> pol_grows(b, p2) && b.port_rules == acc0[j].1.port_rules
                && b.prefixes == acc0[j].1.prefixes
            &&& forall|m: CidrView, p: u16|
                #[trigger] iface_tcp_allows(ifaces.last(), m, p) ==> p2.port_rules.contains((m, p, Action::Pass))
                    && p2.prefixes.contains(m)
        }),
{
    let prev = ifaces.drop_last();
    let n = ifaces.len() - 1;
    let k = idx[n];
    let t = ifaces.last().tcp->Some_0;
    lemma_tcp_allowed_extend(ifaces, idx);
    lemma_entry(acc0, k, fresh_policy(t.allow_outgoing));
    let (base, j) = spec_entry(acc0, k, fresh_policy(t.allow_outgoing));
    let b = IfacePolicyView { allow_outgoing: t.allow_outgoing, ..base[j].1 };
    let ak = |m: CidrView, p: u16| tcp_allowed_on(ifaces, idx, k, m, p);
    if j < acc0.len() {
        assert(base[j] == acc0[j]);
        assert(pol_sound(acc0[j].1, |m: CidrView, p: u16| tcp_allowed_on(prev, idx, acc0[j].0, m, p)));
        lemma_pol_sound_weaken(
            base[j].1,
            |m: CidrView, p: u16| tcp_allowed_on(prev, idx, acc0[j].0, m, p),
            ak,
        );
    } else {
        lemma_fresh_sound(t.allow_outgoing, ak);
    }
    assert(pol_sound(b, ak));
    assert forall|m: CidrView, p: u16| #[trigger] tcp_rules_allow(t.allow_list, m, p) implies ak(m, p) by {
        assert(iface_tcp_allows(ifaces[n], m, p));
    }
    lemma_expand_tcp_rules(b, t.allow_list, ak);
}

proof fn lemma_tcp_inv_some(ifaces: Seq<InterfaceView>, idx: Seq<u32>, acc0: Seq<(u32, IfacePolicyView)>)
    requires
        ifaces.len() > 0,
        idx.len() >= ifaces.len(),
        ifaces.last().tcp is Some,
        tcp_inv(ifaces.drop_last(), idx, acc0),
        spec_tcp_step(acc0, ifaces.last(), idx[ifaces.len() - 1]) is Ok,
    ensures
        tcp_inv(ifaces, idx, spec_tcp_step(acc0, ifaces.last(), idx[ifaces.len() - 1])->Ok_0),
{
    let prev = ifaces.drop_last();
    let n = ifaces.len() - 1;
    let k = idx[n];
    let t = ifaces.last().tcp->Some_0;
    lemma_tcp_inv_entry(ifaces, idx, acc0);
    lemma_tcp_allowed_extend(ifaces, idx);
    let (base, j) = spec_entry(acc0, k, fresh_policy(t.allow_outgoing));
    let b = IfacePolicyView { allow_outgoing: t.allow_outgoing, ..base[j].1 };
    let p2 = spec_expand_tcp_rules(b, t.allow_list)->Ok_0;
    let acc = base.update(j, (k, p2));
    assert forall|i: int| 0 <= i < n implies #[trigger] prev[i] == ifaces[i] by {}
    assert(keys_unique(acc)) by {
        assert forall|a: int, c: int| 0 <= a < acc.len() && 0 <= c < acc.len() && a != c implies acc[a].0
            != acc[c].0 by {
            assert(base[a].0 != base[c].0);
        }
    }
    assert forall|e: int| 0 <= e < acc.len() implies pol_sound(
        #[trigger] acc[e].1,
        |m: CidrView, p: u16| tcp_allowed_on(ifaces, idx, acc[e].0, m, p),
    ) by {
        if e != j {
            assert(acc[e] == acc0[e]);
            lemma_pol_sound_weaken(
                acc0[e].1,
                |m: CidrView, p: u16| tcp_allowed_on(prev, idx, acc0[e].0, m, p),
                |m: CidrView, p: u16| tcp_allowed_on(ifaces, idx, acc0[e].0, m, p),
            );
        }
    }
    assert forall|e: int| 0 <= e < acc.len() implies has_tcp_iface(
        ifaces,
        idx,
        (#[trigger] acc[e]).0,
        acc[e].1.allow_outgoing,
    ) by {
        if e != j {
            assert(acc[e] == acc0[e]);
            assert(has_tcp_iface(prev, idx, acc0[e].0, acc0[e].1.allow_outgoing));
            let i = choose|i: int|
                0 <= i < prev.len() && idx[i] == acc0[e].0 && tcp_allow_outgoing_is(
                    #[trigger] prev[i],
                    acc0[e].1.allow_outgoing,
                );
            assert(prev[i] == ifaces[i]);
        } else {
            assert(tcp_allow_outgoing_is(ifaces[n], p2.allow_outgoing));
        }
    }
    assert forall|i: int|
        0 <= i < ifaces.len() && (#[trigger] ifaces[i]).tcp is Some implies exists|e: int|
        0 <= e < acc.len() && acc[e].0 == idx[i] by {
        if i < n {
            assert(prev[i] == ifaces[i]);
            let e = choose|e: int| 0 <= e < acc0.len() && acc0[e].0 == idx[i];
            assert(acc[e].0 == acc0[e].0);
        } else {
            assert(acc[j].0 == idx[i]);
        }
    }
    assert forall|i: int, m: CidrView, p: u16|
        0 <= i < ifaces.len() && #[trigger] iface_tcp_allows(ifaces[i], m, p) implies exists|e: int|
        0 <= e < acc.len() && acc[e].0 == idx[i] && acc[e].1.port_rules.contains(
            (m, p, Action::Pass),
        ) && acc[e].1.prefixes.contains(m) by {
        if i < n {
            assert(prev[i] == ifaces[i]);
            assert(iface_tcp_allows(prev[i], m, p));
            let e = choose|e: int|
                0 <= e < acc0.len() && acc0[e].0 == idx[i] && acc0[e].1.port_rules.contains(
                    (m, p, Action::Pass),
                ) && acc0[e].1.prefixes.contains(m);
            if e == j {
                assert(acc[e].1 == p2);
                assert(b.port_rules.contains((m, p, Action::Pass)));
                assert(b.prefixes.contains(m));
                assert(p2.port_rules.contains((m, p, Action::Pass)));
                assert(p2.prefixes.contains(m));
            } else {
                assert(acc[e] == acc0[e]);
            }
        } else {
            assert(acc[j].1 == p2);
        }
    }
}

proof fn lemma_collect_tcp(ifaces: Seq<InterfaceView>, idx: Seq<u32>)
    requires
        idx.len() >= ifaces.len(),
        spec_collect_tcp(ifaces, idx) is Ok,
    ensures
        tcp_inv(ifaces, idx, spec_collect_tcp(ifaces, idx)->Ok_0),
    decreases ifaces.len(),
{
    if ifaces.len() > 0 {
        let prev = ifaces.drop_last();
        assert(spec_collect_tcp(prev, idx) is Ok);
        lemma_collect_tcp(prev, idx);
        let acc0 = spec_collect_tcp(prev, idx)->Ok_0;
        if ifaces.last().tcp is None {
            lemma_tcp_inv_none(ifaces, idx, acc0);
        } else {
            lemma_tcp_inv_some(ifaces, idx, acc0);
        }
    }
}

/// Map law of the per-interface policies: the gathered UDP and TCP
/// policies hold one entry per interface index (no index twice), and
/// their indexes are exactly those of the interfaces with a policy of
/// that protocol.
pub proof fn law_collected_per_index(ifaces: Seq<InterfaceView>, idx: Seq<u32>)
    requires
        idx.len() == ifaces.len(),
    ensures
        spec_collect_udp(ifaces, idx) matches Ok(v) ==> {
            &&& keys_unique(v)
            &&& forall|k: u32| (exists|e: int| 0 <= e < v.len() && v[e].0 == k) <==> has_udp_iface(ifaces, idx, k)
        },
        spec_collect_tcp(ifaces, idx) matches Ok(v) ==> {
            &&& keys_unique(v)
            &&& forall|k: u32| (exists|e: int| 0 <= e < v.len() && v[e].0 == k) <==> has_tcp_section(ifaces, idx, k)
        },
{
    if spec_collect_udp(ifaces, idx) is Ok {
        lemma_collect_udp(ifaces, idx);
        let v = spec_collect_udp(ifaces, idx)->Ok_0;
        assert forall|k: u32| has_udp_iface(ifaces, idx, k) implies (exists|e: int| 0 <= e < v.len() && v[e].0 == k) by {
            let i = choose|i: int| 0 <= i < ifaces.len() && idx[i] == k && (#[trigger] ifaces[i]).udp is Some;
            assert(ifaces[i].udp is Some);
        }
    }
    if spec_collect_tcp(ifaces, idx) is Ok {
        lemma_collect_tcp(ifaces, idx);
        let v = spec_collect_tcp(ifaces, idx)->Ok_0;
        assert forall|k: u32| has_tcp_section(ifaces, idx, k) implies (exists|e: int| 0 <= e < v.len() && v[e].0 == k) by {
            let i = choose|i: int| 0 <= i < ifaces.len() && idx[i] == k && (#[trigger] ifaces[i]).tcp is Some;
            assert(ifaces[i].tcp is Some);
        }
    }
}

// ---------------------------------------------------------------------------
// The other maps
// ---------------------------------------------------------------------------

/// Every rule of the policy passes and is admitted by `a`.
pub open spec fn rules_pass_and(pol: IfacePolicyView, a: spec_fn(CidrView, u16) -> bool) -> bool {
    forall|j: int|
        0 <= j < pol.port_rules.len() ==> (#[trigger] pol.port_rules[j]).2 == Action::Pass && a(
            pol.port_rules[j].0,
            pol.port_rules[j].1,
        )
}

proof fn lemma_port_actions_sound(ev: Seq<(u32, IfacePolicyView)>, a: spec_fn(CidrView, u16) -> bool)
    requires
        forall|e: int| 0 <= e < ev.len() ==> rules_pass_and(#[trigger] ev[e].1, a),
    ensures
        forall|q: int|
            0 <= q < spec_port_actions(ev).len() ==> (#[trigger] spec_port_actions(ev)[q]).1 == ACTION_PASS
                && a(spec_port_actions(ev)[q].0.0, spec_port_actions(ev)[q].0.1),
    decreases ev.len(),
{
    if ev.len() > 0 {
        let init = ev.drop_last();
        assert forall|e: int| 0 <= e < init.len() implies rules_pass_and(#[trigger] init[e].1, a) by {
            assert(init[e] == ev[e]);
        }
        lemma_port_actions_sound(init, a);
        let pa0 = spec_port_actions(init);
        let pol = ev.last().1;
        let add = pol.port_rules.map_values(
            |t: (CidrView, u16, Action)| ((t.0, t.1), crate::plan::spec_action_value(t.2)),
        );
        assert(spec_port_actions(ev) == pa0 + add);
        assert(rules_pass_and(ev[ev.len() - 1].1, a));
        assert forall|q: int| 0 <= q < spec_port_actions(ev).len() implies (#[trigger] spec_port_actions(
            ev,
        )[q]).1 == ACTION_PASS && a(spec_port_actions(ev)[q].0.0, spec_port_actions(ev)[q].0.1) by {
            if q >= pa0.len() {
                assert(spec_port_actions(ev)[q] == add[q - pa0.len()]);
                assert(pol.port_rules[q - pa0.len()].2 == Action::Pass);
            } else {
                assert(spec_port_actions(ev)[q] == pa0[q]);
            }
        }
    }
}

proof fn lemma_port_actions_complete(ev: Seq<(u32, IfacePolicyView)>, e: int, m: CidrView, p: u16)
    requires
        0 <= e < ev.len(),
        ev[e].1.port_rules.contains((m, p, Action::Pass)),
    ensures
        spec_port_actions(ev).contains(((m, p), ACTION_PASS)),
    decreases ev.len(),
{
    let init = ev.drop_last();
    let pa0 = spec_port_actions(init);
    let pol = ev.last().1;
    let add = pol.port_rules.map_values(
        |t: (CidrView, u16, Action)| ((t.0, t.1), crate::plan::spec_action_value(t.2)),
    );
    assert(spec_port_actions(ev) == pa0 + add);
    if e < ev.len() - 1 {
        assert(init[e] == ev[e]);
        lemma_port_actions_complete(init, e, m, p);
        let q = choose|q: int| 0 <= q < pa0.len() && pa0[q] == ((m, p), ACTION_PASS);
        assert(spec_port_actions(ev)[q] == pa0[q]);
    } else {
        let r = choose|r: int| 0 <= r < pol.port_rules.len() && pol.port_rules[r] == (m, p, Action::Pass);
        assert(spec_port_actions(ev)[pa0.len() + r] == add[r]);
    }
}

/// An interface's rules put port `p` in the early allow-list: some TCP
/// rule has port `p`, or some UDP rule has source port `p` (a UDP rule
/// without a source port puts none: its prefixes are the any-port
/// pairs of the plan).
pub open spec fn iface_allows_port(iface: InterfaceView, p: u16) -> bool {
    ||| (match iface.tcp {
        Some(t) => exists|j: int| 0 <= j < t.allow_list.len() && (#[trigger] t.allow_list[j]).port == p,
        None => false,
    })
    ||| (match iface.udp {
        Some(u) => exists|j: int|
            0 <= j < u.allow_list.len() && (#[trigger] u.allow_list[j]).src_port == Some(p),
        None => false,
    })
}

proof fn lemma_udp_allow_keys(rules: Seq<Udp4IngressRuleView>, k: u32)
    ensures
        forall|k2: u32, p: u16|
            #[trigger] crate::plan::udp_allow_keys(rules, k).contains((k2, p)) <==> k2 == k && exists|j: int|
                0 <= j < rules.len() && (#[trigger] rules[j]).src_port == Some(p),
    decreases rules.len(),
{
    if rules.len() > 0 {
        let init = rules.drop_last();
        let n = rules.len() - 1;
        lemma_udp_allow_keys(init, k);
        let rest = crate::plan::udp_allow_keys(init, k);
        let all = crate::plan::udp_allow_keys(rules, k);
        assert forall|k2: u32, p: u16|
            #[trigger] crate::plan::udp_allow_keys(rules, k).contains((k2, p)) <==> k2 == k && exists|j: int|
                0 <= j < rules.len() && (#[trigger] rules[j]).src_port == Some(p) by {
            if exists|j: int| 0 <= j < rules.len() && (#[trigger] rules[j]).src_port == Some(p) {
                let j = choose|j: int| 0 <= j < rules.len() && (#[trigger] rules[j]).src_port == Some(p);
                if j < n {
                    assert(init[j] == rules[j]);
                }
            }
            if exists|j: int| 0 <= j < init.len() && (#[trigger] init[j]).src_port == Some(p) {
                let j = choose|j: int| 0 <= j < init.len() && (#[trigger] init[j]).src_port == Some(p);
                assert(init[j] == rules[j]);
            }
            match rules.last().src_port {
                Some(q) => {
                    assert(all == rest.push((k, q)));
                    assert(rest.push((k, q))[rest.len() as int] == (k, q));
                    if rest.contains((k2, p)) {
                        let w = choose|w: int| 0 <= w < rest.len() && rest[w] == (k2, p);
                        assert(rest.push((k, q))[w] == (k2, p));
                    }
                    if rest.push((k, q)).contains((k2, p)) && (k2, p) != (k, q) {
                        let w = choose|w: int| 0 <= w < rest.len() + 1 && rest.push((k, q))[w] == (k2, p);
                        assert(rest[w] == (k2, p));
                    }
                },
                None => {
                    assert(all == rest);
                },
            }
        }
    }
}

proof fn lemma_iface_allow_keys(iface: InterfaceView, k: u32)
    ensures
        forall|k2: u32, p: u16|
            #[trigger] crate::plan::spec_iface_allow_keys(iface, k).contains((k2, p)) <==> k2 == k
                && iface_allows_port(iface, p),
{
    let tk = match iface.tcp {
        Some(t) => t.allow_list.map_values(|r: Tcp4IngressRuleView| (k, r.port)),
        None => Seq::empty(),
    };
    let uk = match iface.udp {
        Some(u) => crate::plan::udp_allow_keys(u.allow_list, k),
        None => Seq::empty(),
    };
    assert(crate::plan::spec_iface_allow_keys(iface, k) == tk + uk);
    match iface.udp {
        Some(u) => lemma_udp_allow_keys(u.allow_list, k),
        None => {},
    }
    assert forall|k2: u32, p: u16|
        #[trigger] crate::plan::spec_iface_allow_keys(iface, k).contains((k2, p)) <==> k2 == k
            && iface_allows_port(iface, p) by {
        let all = tk + uk;
        if all.contains((k2, p)) {
            let w = choose|w: int| 0 <= w < all.len() && all[w] == (k2, p);
            if w < tk.len() {
                assert(tk[w] == (k2, p));
                let t = iface.tcp->Some_0;
                assert(t.allow_list[w].port == p);
            } else {
                assert(uk[w - tk.len()] == (k2, p));
                assert(uk.contains((k2, p)));
            }
        }
        if k2 == k && iface_allows_port(iface, p) {
            let tcp_has = match iface.tcp {
                Some(t) => exists|j: int| 0 <= j < t.allow_list.len() && (#[trigger] t.allow_list[j]).port == p,
                None => false,
            };
            if tcp_has {
                let t = iface.tcp->Some_0;
                let j = choose|j: int| 0 <= j < t.allow_list.len() && (#[trigger] t.allow_list[j]).port == p;
                assert(all[j] == tk[j]);
            } else {
                let u = iface.udp->Some_0;
                assert(uk.contains((k, p)));
                let w = choose|w: int| 0 <= w < uk.len() && uk[w] == (k, p);
                assert(all[tk.len() + w] == uk[w]);
            }
        }
    }
}

/// The keys of the early allow-list are the ports that some rule of an
/// interface with that index names.
proof fn lemma_allow_keys(ifaces: Seq<InterfaceView>, idx: Seq<u32>)
    ensures
        forall|k: u32, p: u16|
            #[trigger] crate::plan::spec_allow_keys(ifaces, idx).contains((k, p)) <==> exists|i: int|
                0 <= i < ifaces.len() && idx[i] == k && iface_allows_port(#[trigger] ifaces[i], p),
    decreases ifaces.len(),
{
    if ifaces.len() > 0 {
        let init = ifaces.drop_last();
        let n = ifaces.len() - 1;
        lemma_allow_keys(init, idx);
        lemma_iface_allow_keys(ifaces.last(), idx[n]);
        let a = crate::plan::spec_allow_keys(init, idx);
        let b = crate::plan::spec_iface_allow_keys(ifaces.last(), idx[n]);
        assert forall|k: u32, p: u16|
            #[trigger] crate::plan::spec_allow_keys(ifaces, idx).contains((k, p)) <==> exists|i: int|
                0 <= i < ifaces.len() && idx[i] == k && iface_allows_port(#[trigger] ifaces[i], p) by {
            let all = a + b;
            if all.contains((k, p)) {
                let w = choose|w: int| 0 <= w < all.len() && all[w] == (k, p);
                if w < a.len() {
                    assert(a[w] == (k, p));
                    assert(a.contains((k, p)));
                    let i = choose|i: int| 0 <= i < init.len() && idx[i] == k && iface_allows_port(#[trigger] init[i], p);
                    assert(init[i] == ifaces[i]);
                } else {
                    assert(b[w - a.len()] == (k, p));
                    assert(b.contains((k, p)));
                    assert(iface_allows_port(ifaces[n], p));
                }
            }
            if exists|i: int| 0 <= i < ifaces.len() && idx[i] == k && iface_allows_port(#[trigger] ifaces[i], p) {
                let i = choose|i: int| 0 <= i < ifaces.len() && idx[i] == k && iface_allows_port(#[trigger] ifaces[i], p);
                if i < n {
                    assert(init[i] == ifaces[i]);
                    assert(a.contains((k, p)));
                    let w = choose|w: int| 0 <= w < a.len() && a[w] == (k, p);
                    assert(all[w] == a[w]);
                } else {
                    assert(b.contains((k, p)));
                    let w = choose|w: int| 0 <= w < b.len() && b[w] == (k, p);
                    assert(all[a.len() + w] == b[w]);
                }
            }
        }
    }
}

/// ACK flood protection is enabled exactly on the indexes of interfaces
/// asking for it.
proof fn lemma_ack_flood_ifaces(ifaces: Seq<InterfaceView>, idx: Seq<u32>)
    ensures
        forall|k: u32|
            #[trigger] crate::plan::spec_ack_flood_ifaces(ifaces, idx).contains(k) <==> exists|i: int|
                0 <= i < ifaces.len() && idx[i] == k && crate::plan::has_ack_flood(#[trigger] ifaces[i]),
    decreases ifaces.len(),
{
    if ifaces.len() > 0 {
        let init = ifaces.drop_last();
        let n = ifaces.len() - 1;
        lemma_ack_flood_ifaces(init, idx);
        let rest = crate::plan::spec_ack_flood_ifaces(init, idx);
        assert forall|k: u32|
            #[trigger] crate::plan::spec_ack_flood_ifaces(ifaces, idx).contains(k) <==> exists|i: int|
                0 <= i < ifaces.len() && idx[i] == k && crate::plan::has_ack_flood(#[trigger] ifaces[i]) by {
            if exists|i: int| 0 <= i < init.len() && idx[i] == k && crate::plan::has_ack_flood(#[trigger] init[i]) {
                let i = choose|i: int| 0 <= i < init.len() && idx[i] == k && crate::plan::has_ack_flood(#[trigger] init[i]);
                assert(init[i] == ifaces[i]);
            }
            if exists|i: int| 0 <= i < ifaces.len() && idx[i] == k && crate::plan::has_ack_flood(#[trigger] ifaces[i]) {
                let i = choose|i: int| 0 <= i < ifaces.len() && idx[i] == k && crate::plan::has_ack_flood(#[trigger] ifaces[i]);
                if i < n {
                    assert(init[i] == ifaces[i]);
                }
            }
            if crate::plan::has_ack_flood(ifaces.last()) {
                let r = rest.push(idx[n]);
                assert(r[rest.len() as int] == idx[n]);
                if rest.contains(k) {
                    let w = choose|w: int| 0 <= w < rest.len() && rest[w] == k;
                    assert(r[w] == k);
                }
                if r.contains(k) && k != idx[n] {
                    let w = choose|w: int| 0 <= w < r.len() && r[w] == k;
                    assert(rest[w] == k);
                }
            }
        }
    }
}

// ---------------------------------------------------------------------------
// The maps of a configuration
// ---------------------------------------------------------------------------

/// Some UDP rule of some interface allows `(m, p)`.
pub open spec fn udp_allowed_any(ifaces: Seq<InterfaceView>, m: CidrView, p: u16) -> bool {
    exists|i: int| 0 <= i < ifaces.len() && iface_udp_allows(#[trigger] ifaces[i], m, p)
}

/// Some TCP rule of some interface allows `(m, p)`.
pub open spec fn tcp_allowed_any(ifaces: Seq<InterfaceView>, m: CidrView, p: u16) -> bool {
    exists|i: int| 0 <= i < ifaces.len() && iface_tcp_allows(#[trigger] ifaces[i], m, p)
}

/// Some interface with index `k` has a TCP section.
pub open spec fn has_tcp_section(ifaces: Seq<InterfaceView>, idx: Seq<u32>, k: u32) -> bool {
    exists|i: int| 0 <= i < ifaces.len() && idx[i] == k && (#[trigger] ifaces[i]).tcp is Some
}

proof fn lemma_pol_rules_pass(pol: IfacePolicyView, a: spec_fn(CidrView, u16) -> bool, b: spec_fn(CidrView, u16) -> bool)
    requires
        pol_sound(pol, a),
        forall|m: CidrView, p: u16| #[trigger] a(m, p) ==> b(m, p),
    ensures
        rules_pass_and(pol, b),
{
    assert forall|j: int| 0 <= j < pol.port_rules.len() implies (#[trigger] pol.port_rules[j]).2 == Action::Pass
        && b(pol.port_rules[j].0, pol.port_rules[j].1) by {
        assert(a(pol.port_rules[j].0, pol.port_rules[j].1));
    }
}

proof fn lemma_action_codes()
    ensures
        spec_action_to_xdp(ACTION_PASS) == XDP_PASS,
        0u32 & crate::policy::ALLOW_OUTGOING_FLAG == 0,
        crate::policy::ALLOW_OUTGOING_FLAG & crate::policy::ALLOW_OUTGOING_FLAG != 0,
{
    assert(0u32 & 1u32 == 0u32) by (bit_vector);
    assert(0u32 & 2u32 == 0u32) by (bit_vector);
    assert(2u32 & 2u32 != 0u32) by (bit_vector);
}

/// The UDP maps of a configuration: the per-index policies hold the
/// invariant, and every port-action entry passes and comes from a UDP
/// rule of some interface.
proof fn lemma_any_port_prefixes(rules: Seq<(CidrView, u16, Action)>, k: u32)
    ensures
        forall|w: int|
            0 <= w < crate::plan::any_port_prefixes(rules, k).len() ==> exists|j: int|
                0 <= j < rules.len() && rules[j].1 == PORT_ANY && (#[trigger] crate::plan::any_port_prefixes(
                    rules,
                    k,
                )[w]) == (k, rules[j].0),
    decreases rules.len(),
{
    if rules.len() > 0 {
        let init = rules.drop_last();
        lemma_any_port_prefixes(init, k);
        let rest = crate::plan::any_port_prefixes(init, k);
        let all = crate::plan::any_port_prefixes(rules, k);
        assert forall|w: int| 0 <= w < all.len() implies exists|j: int|
            0 <= j < rules.len() && rules[j].1 == PORT_ANY && (#[trigger] all[w]) == (k, rules[j].0) by {
            if w < rest.len() {
                assert(all[w] == rest[w]);
                let j = choose|j: int| 0 <= j < init.len() && init[j].1 == PORT_ANY && (#[trigger] rest[w]) == (k, init[j].0);
                assert(init[j] == rules[j]);
            } else {
                assert(all[w] == (k, rules.last().0));
                assert(rules[rules.len() - 1] == rules.last());
            }
        }
    }
}

/// `x` is the `(index, prefix)` pair of an any-port rule of an entry.
pub open spec fn any_port_from(ev: Seq<(u32, IfacePolicyView)>, x: (u32, CidrView)) -> bool {
    exists|e: int, j: int|
        0 <= e < ev.len() && 0 <= j < ev[e].1.port_rules.len() && (#[trigger] ev[e].1.port_rules[j]).1 == PORT_ANY
            && x == (ev[e].0, ev[e].1.port_rules[j].0)
}

/// Every any-port pair comes from an any-port rule of the entry of that
/// index.
proof fn lemma_any_port_keys(ev: Seq<(u32, IfacePolicyView)>)
    ensures
        forall|w: int|
            0 <= w < crate::plan::spec_any_port_keys(ev).len() ==> any_port_from(
                ev,
                #[trigger] crate::plan::spec_any_port_keys(ev)[w],
            ),
    decreases ev.len(),
{
    if ev.len() > 0 {
        let init = ev.drop_last();
        let n = ev.len() - 1;
        lemma_any_port_keys(init);
        let a = crate::plan::spec_any_port_keys(init);
        let b = crate::plan::any_port_prefixes(ev[n].1.port_rules, ev[n].0);
        lemma_any_port_prefixes(ev[n].1.port_rules, ev[n].0);
        assert(crate::plan::spec_any_port_keys(ev) == a + b);
        assert forall|w: int| 0 <= w < crate::plan::spec_any_port_keys(ev).len() implies any_port_from(
            ev,
            #[trigger] crate::plan::spec_any_port_keys(ev)[w],
        ) by {
            if w < a.len() {
                assert((a + b)[w] == a[w]);
                assert(any_port_from(init, a[w]));
                let (e, j) = choose|e: int, j: int|
                    0 <= e < init.len() && 0 <= j < init[e].1.port_rules.len() && (#[trigger] init[e].1.port_rules[j]).1
                        == PORT_ANY && a[w] == (init[e].0, init[e].1.port_rules[j].0);
                assert(init[e] == ev[e]);
                assert(ev[e].1.port_rules[j].1 == PORT_ANY);
            } else {
                let w2 = w - a.len();
                assert((a + b)[w] == b[w2]);
                let j = choose|j: int|
                    0 <= j < ev[n].1.port_rules.len() && ev[n].1.port_rules[j].1 == PORT_ANY
                        && (#[trigger] b[w2]) == (ev[n].0, ev[n].1.port_rules[j].0);
                assert(ev[n].1.port_rules[j].1 == PORT_ANY);
            }
        }
    }
}

proof fn lemma_any_port_prefixes_complete(rules: Seq<(CidrView, u16, Action)>, k: u32, r: int)
    requires
        0 <= r < rules.len(),
        rules[r].1 == PORT_ANY,
    ensures
        crate::plan::any_port_prefixes(rules, k).contains((k, rules[r].0)),
    decreases rules.len(),
{
    let init = rules.drop_last();
    let rest = crate::plan::any_port_prefixes(init, k);
    if r < rules.len() - 1 {
        assert(init[r] == rules[r]);
        lemma_any_port_prefixes_complete(init, k, r);
        let w = choose|w: int| 0 <= w < rest.len() && rest[w] == (k, rules[r].0);
        assert(rest.push((k, rules.last().0))[w] == rest[w]);
    } else {
        assert(rest.push((k, rules.last().0))[rest.len() as int] == (k, rules[r].0));
    }
}

/// Every any-port rule of an entry gives its `(index, prefix)` pair.
proof fn lemma_any_port_complete(ev: Seq<(u32, IfacePolicyView)>, e: int, r: int)
    requires
        0 <= e < ev.len(),
        0 <= r < ev[e].1.port_rules.len(),
        ev[e].1.port_rules[r].1 == PORT_ANY,
    ensures
        crate::plan::spec_any_port_keys(ev).contains((ev[e].0, ev[e].1.port_rules[r].0)),
    decreases ev.len(),
{
    let init = ev.drop_last();
    let a = crate::plan::spec_any_port_keys(init);
    let b = crate::plan::any_port_prefixes(ev.last().1.port_rules, ev.last().0);
    assert(crate::plan::spec_any_port_keys(ev) == a + b);
    let x = (ev[e].0, ev[e].1.port_rules[r].0);
    if e < ev.len() - 1 {
        assert(init[e] == ev[e]);
        lemma_any_port_complete(init, e, r);
        let w = choose|w: int| 0 <= w < a.len() && a[w] == x;
        assert((a + b)[w] == a[w]);
    } else {
        assert(ev.last() == ev[e]);
        lemma_any_port_prefixes_complete(ev.last().1.port_rules, ev.last().0, r);
        let w = choose|w: int| 0 <= w < b.len() && b[w] == x;
        assert((a + b)[a.len() + w] == b[w]);
    }
}

proof fn lemma_udp_maps(ifaces: Seq<InterfaceView>, idx: Seq<u32>, p: MapPlanView)
    requires
        idx.len() == ifaces.len(),
        spec_populate(ifaces, idx) == Ok::<MapPlanView, Seq<char>>(p),
    ensures
        spec_collect_udp(ifaces, idx) == Ok::<Seq<(u32, IfacePolicyView)>, Seq<char>>(p.udp),
        udp_inv(ifaces, idx, p.udp),
        p.udp_port_action == spec_port_actions(p.udp),
        forall|q: int|
            0 <= q < p.udp_port_action.len() ==> (#[trigger] p.udp_port_action[q]).1 == ACTION_PASS
                && udp_allowed_any(ifaces, p.udp_port_action[q].0.0, p.udp_port_action[q].0.1),
        p.proto_dflt == crate::plan::spec_proto_defaults(ifaces),
        p.port_allow_list == crate::plan::spec_allow_keys(ifaces, idx),
        forall|w: int|
            0 <= w < p.udp_any_port.len() ==> udp_allowed_on(
                ifaces,
                idx,
                (#[trigger] p.udp_any_port[w]).0,
                p.udp_any_port[w].1,
                PORT_ANY,
            ),
{
    lemma_collect_udp(ifaces, idx);
    lemma_any_port_keys(p.udp);
    assert forall|w: int| 0 <= w < p.udp_any_port.len() implies udp_allowed_on(
        ifaces,
        idx,
        (#[trigger] p.udp_any_port[w]).0,
        p.udp_any_port[w].1,
        PORT_ANY,
    ) by {
        assert(any_port_from(p.udp, p.udp_any_port[w]));
        let (e, j) = choose|e: int, j: int|
            0 <= e < p.udp.len() && 0 <= j < p.udp[e].1.port_rules.len() && (#[trigger] p.udp[e].1.port_rules[j]).1
                == PORT_ANY && p.udp_any_port[w] == (p.udp[e].0, p.udp[e].1.port_rules[j].0);
        let a = |q: CidrView, p2: u16| udp_allowed_on(ifaces, idx, p.udp[e].0, q, p2);
        assert(pol_sound(p.udp[e].1, a));
        assert(a(p.udp[e].1.port_rules[j].0, p.udp[e].1.port_rules[j].1));
    }
    let acc = p.udp;
    let any = |m: CidrView, q: u16| udp_allowed_any(ifaces, m, q);
    assert forall|e: int| 0 <= e < acc.len() implies rules_pass_and(#[trigger] acc[e].1, any) by {
        let a = |m: CidrView, q: u16| udp_allowed_on(ifaces, idx, acc[e].0, m, q);
        assert forall|m: CidrView, q: u16| #[trigger] a(m, q) implies any(m, q) by {
            let i = choose|i: int| 0 <= i < ifaces.len() && idx[i] == acc[e].0 && iface_udp_allows(#[trigger] ifaces[i], m, q);
        }
        lemma_pol_rules_pass(acc[e].1, a, any);
    }
    lemma_port_actions_sound(acc, any);
}

/// The TCP maps of a configuration.
proof fn lemma_tcp_maps(ifaces: Seq<InterfaceView>, idx: Seq<u32>, p: MapPlanView)
    requires
        idx.len() == ifaces.len(),
        spec_populate(ifaces, idx) == Ok::<MapPlanView, Seq<char>>(p),
    ensures
        spec_collect_tcp(ifaces, idx) == Ok::<Seq<(u32, IfacePolicyView)>, Seq<char>>(p.tcp),
        tcp_inv(ifaces, idx, p.tcp),
        p.tcp_port_action == spec_port_actions(p.tcp),
        forall|q: int|
            0 <= q < p.tcp_port_action.len() ==> (#[trigger] p.tcp_port_action[q]).1 == ACTION_PASS
                && tcp_allowed_any(ifaces, p.tcp_port_action[q].0.0, p.tcp_port_action[q].0.1),
        p.tcp_iface_default == p.tcp.map_values(
            |e: (u32, IfacePolicyView)| (e.0, crate::plan::spec_default_value(e.1.allow_outgoing)),
        ),
        p.ack_flood == crate::plan::spec_ack_flood_ifaces(ifaces, idx),
{
    assert(spec_collect_udp(ifaces, idx) is Ok);
    lemma_collect_tcp(ifaces, idx);
    let acc = p.tcp;
    let any = |m: CidrView, q: u16| tcp_allowed_any(ifaces, m, q);
    assert forall|e: int| 0 <= e < acc.len() implies rules_pass_and(#[trigger] acc[e].1, any) by {
        let a = |m: CidrView, q: u16| tcp_allowed_on(ifaces, idx, acc[e].0, m, q);
        assert forall|m: CidrView, q: u16| #[trigger] a(m, q) implies any(m, q) by {
            let i = choose|i: int| 0 <= i < ifaces.len() && idx[i] == acc[e].0 && iface_tcp_allows(#[trigger] ifaces[i], m, q);
        }
        lemma_pol_rules_pass(acc[e].1, a, any);
    }
    lemma_port_actions_sound(acc, any);
}

/// The longest match of `src` in the LPM prefixes of a policy built from
/// allow rules is `m` when `m` is one of them, contains `src`, and no
/// admitted rule has a longer prefix containing `src`.
proof fn lemma_lpm_is(pol: IfacePolicyView, a: spec_fn(CidrView, u16) -> bool, m: CidrView, src: Seq<u8>)
    requires
        pol_sound(pol, a),
        pol.prefixes.contains(m),
        spec_covers(m, src),
        forall|q: CidrView, p2: u16| #[trigger] a(q, p2) && spec_covers(q, src) ==> q.1 <= m.1,
    ensures
        spec_lpm(pol.prefixes, src) == Some(m),
{
    assert forall|q: CidrView| #[trigger] pol.prefixes.contains(q) && spec_covers(q, src) implies q.1 <= m.1 by {
        let j = choose|j: int| 0 <= j < pol.port_rules.len() && (#[trigger] pol.port_rules[j]).0 == q;
        assert(a(pol.port_rules[j].0, pol.port_rules[j].1));
    }
    assert(is_longest_match(pol.prefixes, src, m));
    let c = choose|c: CidrView| is_longest_match(pol.prefixes, src, c);
    lemma_longest_match_unique(pol.prefixes, src, m, c);
}

/// The port-action entry `(m, port)` exists and passes when a rule that
/// passes it is in some policy.
proof fn lemma_port_action_pass(
    acc: Seq<(u32, IfacePolicyView)>,
    pa: Seq<((CidrView, u16), u32)>,
    e: int,
    m: CidrView,
    port: u16,
)
    requires
        pa == spec_port_actions(acc),
        forall|q: int| 0 <= q < pa.len() ==> (#[trigger] pa[q]).1 == ACTION_PASS,
        0 <= e < acc.len(),
        acc[e].1.port_rules.contains((m, port, Action::Pass)),
    ensures
        spec_map_get(pa, (m, port)) == Some(ACTION_PASS),
{
    lemma_port_actions_complete(acc, e, m, port);
    let w = choose|w: int| 0 <= w < pa.len() && pa[w] == ((m, port), ACTION_PASS);
    crate::enforce::lemma_map_get_some_iff(pa, (m, port));
    crate::enforce::lemma_map_get_found(pa, (m, port));
    let v = spec_map_get(pa, (m, port))->Some_0;
    let q = choose|q: int| 0 <= q < pa.len() && pa[q] == ((m, port), v);
}

// ---------------------------------------------------------------------------
// Laws
// ---------------------------------------------------------------------------

/// Every entry of the port-action maps of a configuration passes: the
/// rules of an allow list only ever allow, and what no rule matches is
/// dropped.
pub proof fn law_rules_only_allow(ifaces: Seq<InterfaceView>, idx: Seq<u32>, p: MapPlanView)
    requires
        idx.len() == ifaces.len(),
        spec_populate(ifaces, idx) == Ok::<MapPlanView, Seq<char>>(p),
    ensures
        forall|q: int| 0 <= q < p.udp_port_action.len() ==> (#[trigger] p.udp_port_action[q]).1 == ACTION_PASS,
        forall|q: int| 0 <= q < p.tcp_port_action.len() ==> (#[trigger] p.tcp_port_action[q]).1 == ACTION_PASS,
{
    lemma_udp_maps(ifaces, idx, p);
    lemma_tcp_maps(ifaces, idx, p);
}

/// A UDP packet arriving on interface `i` with source port `sp` passes
/// when a UDP rule of that interface names source port `sp`, or no
/// source port (any port), and a source range `m` containing its source
/// address, and no UDP rule of an interface with the same index has a
/// longer range containing it.
pub proof fn law_udp_rule_admits(
    ifaces: Seq<InterfaceView>,
    idx: Seq<u32>,
    p: MapPlanView,
    i: int,
    j: int,
    m: CidrView,
    src: Seq<u8>,
    dst: Seq<u8>,
    sp: u16,
    dport: u16,
    monitor: bool,
    tstamp: u64,
)
    requires
        idx.len() == ifaces.len(),
        spec_populate(ifaces, idx) == Ok::<MapPlanView, Seq<char>>(p),
        0 <= i < ifaces.len(),
        ifaces[i].udp is Some,
        0 <= j < ifaces[i].udp->Some_0.allow_list.len(),
        ifaces[i].udp->Some_0.allow_list[j].src_port == Some(sp)
            || ifaces[i].udp->Some_0.allow_list[j].src_port is None,
        udp_rule_allows(
            ifaces[i].udp->Some_0.allow_list[j],
            m,
            udp_rule_port(ifaces[i].udp->Some_0.allow_list[j].src_port),
        ),
        spec_covers(m, src),
        forall|q: CidrView, p2: u16|
            #[trigger] udp_allowed_on(ifaces, idx, idx[i], q, p2) && spec_covers(q, src) ==> q.1 <= m.1,
    ensures
        spec_udp_path(p, idx[i], src, dst, sp, dport, monitor, tstamp).0 == XDP_PASS,
{
    let k = idx[i];
    let u = ifaces[i].udp->Some_0;
    let port = udp_rule_port(u.allow_list[j].src_port);
    lemma_udp_maps(ifaces, idx, p);
    lemma_allow_keys(ifaces, idx);
    lemma_action_codes();
    assert(p.proto_dflt.0 != ACTION_PASS);
    assert(iface_udp_allows(ifaces[i], m, port));
    let acc = p.udp;
    let e = choose|e: int|
        0 <= e < acc.len() && acc[e].0 == idx[i] && acc[e].1.port_rules.contains((m, port, Action::Pass))
            && acc[e].1.prefixes.contains(m);
    crate::enforce::lemma_lookup_entry(acc, k);
    let pol = acc[e].1;
    let a = |q: CidrView, p2: u16| udp_allowed_on(ifaces, idx, acc[e].0, q, p2);
    assert(pol_sound(pol, a));
    lemma_lpm_is(pol, a, m, src);
    if u.allow_list[j].src_port == Some(sp) {
        assert(iface_allows_port(ifaces[i], sp));
        assert(p.port_allow_list.contains((k, sp)));
    } else {
        let r = choose|r: int| 0 <= r < pol.port_rules.len() && pol.port_rules[r] == (m, port, Action::Pass);
        lemma_any_port_complete(acc, e, r);
    }
    assert(crate::enforce::spec_udp_early(p, pol, k, src, sp));
    let pa = p.udp_port_action;
    lemma_port_action_pass(acc, pa, e, m, port);
    if port != sp {
        crate::enforce::lemma_map_get_found(pa, (m, sp));
        if spec_map_get(pa, (m, sp)) is Some {
            let v = spec_map_get(pa, (m, sp))->Some_0;
            let q = choose|q: int| 0 <= q < pa.len() && pa[q] == ((m, sp), v);
        }
    }
}

/// A new TCP connection (a SYN without ACK) from `src` to port `dport`
/// arriving on interface `i` passes, whatever the ACK tracker holds,
/// when a TCP rule of that interface names port `dport` and a source
/// range `m` containing `src`, and no TCP rule of an interface with the
/// same index has a longer range containing `src`.
pub proof fn law_tcp_rule_admits(
    ifaces: Seq<InterfaceView>,
    idx: Seq<u32>,
    p: MapPlanView,
    i: int,
    j: int,
    m: CidrView,
    src: Seq<u8>,
    dst: Seq<u8>,
    sport: u16,
    dport: u16,
    seq: u32,
    ihl: u8,
    doff: u16,
    tot_len: u16,
    t: Map<Seq<u8>, u32>,
    monitor: bool,
    tstamp: u64,
)
    requires
        idx.len() == ifaces.len(),
        spec_populate(ifaces, idx) == Ok::<MapPlanView, Seq<char>>(p),
        0 <= i < ifaces.len(),
        ifaces[i].tcp is Some,
        0 <= j < ifaces[i].tcp->Some_0.allow_list.len(),
        tcp_rule_allows(ifaces[i].tcp->Some_0.allow_list[j], m, dport),
        spec_covers(m, src),
        forall|q: CidrView, p2: u16|
            #[trigger] tcp_allowed_on(ifaces, idx, idx[i], q, p2) && spec_covers(q, src) ==> q.1 <= m.1,
    ensures
        spec_tcp_path(p, idx[i], src, dst, sport, dport, true, false, seq, ihl, doff, tot_len, t, monitor, tstamp).0
            == XDP_PASS,
{
    let k = idx[i];
    let tp = ifaces[i].tcp->Some_0;
    lemma_udp_maps(ifaces, idx, p);
    lemma_tcp_maps(ifaces, idx, p);
    lemma_allow_keys(ifaces, idx);
    lemma_action_codes();
    assert(tp.allow_list[j].port == dport);
    assert(iface_allows_port(ifaces[i], dport));
    assert(p.port_allow_list.contains((k, dport)));
    assert(p.proto_dflt.1 != ACTION_PASS);
    assert(iface_tcp_allows(ifaces[i], m, dport));
    let acc = p.tcp;
    let e = choose|e: int|
        0 <= e < acc.len() && acc[e].0 == idx[i] && acc[e].1.port_rules.contains((m, dport, Action::Pass))
            && acc[e].1.prefixes.contains(m);
    crate::enforce::lemma_lookup_entry(acc, k);
    let pol = acc[e].1;
    let a = |q: CidrView, p2: u16| tcp_allowed_on(ifaces, idx, acc[e].0, q, p2);
    assert(pol_sound(pol, a));
    lemma_lpm_is(pol, a, m, src);
    lemma_port_action_pass(acc, p.tcp_port_action, e, m, dport);
    assert(spec_protect(p, k, src, true, false, seq, t).0 is None);
}

/// A UDP packet passes only when nothing filters UDP (no interface has
/// a UDP section), or no interface with the arrival index has a UDP
/// section, or when it passes the early check (some rule of an interface
/// with the arrival index names its source port, or a UDP rule of such
/// an interface admits any source port on a range containing its source
/// address) and a UDP rule allows a range containing its source address
/// with its source port or any port, that range being one of the UDP
/// ranges of the arrival index.
pub proof fn law_udp_pass_is_allowed(
    ifaces: Seq<InterfaceView>,
    idx: Seq<u32>,
    p: MapPlanView,
    k: u32,
    src: Seq<u8>,
    dst: Seq<u8>,
    sp: u16,
    dport: u16,
    monitor: bool,
    tstamp: u64,
)
    requires
        idx.len() == ifaces.len(),
        spec_populate(ifaces, idx) == Ok::<MapPlanView, Seq<char>>(p),
        spec_udp_path(p, k, src, dst, sp, dport, monitor, tstamp).0 == XDP_PASS,
    ensures
        (forall|i: int| 0 <= i < ifaces.len() ==> (#[trigger] ifaces[i]).udp is None) || !has_udp_iface(
            ifaces,
            idx,
            k,
        ) || (((exists|i: int| 0 <= i < ifaces.len() && idx[i] == k && iface_allows_port(#[trigger] ifaces[i], sp))
            || exists|m: CidrView| spec_covers(m, src) && #[trigger] udp_allowed_on(ifaces, idx, k, m, PORT_ANY))
            && exists|m: CidrView, port: u16|
            #![trigger udp_allowed_any(ifaces, m, port)]
            spec_covers(m, src) && (port == sp || port == PORT_ANY) && udp_allowed_any(ifaces, m, port)
                && exists|p2: u16| #[trigger] udp_allowed_on(ifaces, idx, k, m, p2)),
{
    lemma_udp_maps(ifaces, idx, p);
    lemma_allow_keys(ifaces, idx);
    lemma_action_codes();
    if p.proto_dflt.0 == ACTION_PASS {
        assert forall|i: int| 0 <= i < ifaces.len() implies (#[trigger] ifaces[i]).udp is None by {}
    } else {
        assert(XDP_DROP != XDP_PASS);
        let acc = p.udp;
        crate::enforce::lemma_lookup_entry(acc, k);
        match spec_lookup_entry(acc, k) {
            None => {
                assert forall|i: int| 0 <= i < ifaces.len() && idx[i] == k implies (#[trigger] ifaces[i]).udp is None by {
                    if ifaces[i].udp is Some {
                        let e = choose|e: int| 0 <= e < acc.len() && acc[e].0 == idx[i];
                    }
                }
            },
            Some(pol) => {
                assert(crate::enforce::spec_udp_early(p, pol, k, src, sp));
                let e = choose|e: int| 0 <= e < acc.len() && acc[e].0 == k;
                assert(pol == acc[e].1);
                let a = |q: CidrView, p2: u16| udp_allowed_on(ifaces, idx, acc[e].0, q, p2);
                assert(pol_sound(pol, a));
                let m = spec_lpm(pol.prefixes, src)->Some_0;
                let c = choose|c: CidrView| is_longest_match(pol.prefixes, src, c);
                assert(m == c);
                if p.port_allow_list.contains((k, sp)) {
                    let i = choose|i: int| 0 <= i < ifaces.len() && idx[i] == k && iface_allows_port(#[trigger] ifaces[i], sp);
                } else {
                    let w = choose|w: int| 0 <= w < p.udp_any_port.len() && p.udp_any_port[w] == (k, m);
                    assert(udp_allowed_on(ifaces, idx, p.udp_any_port[w].0, p.udp_any_port[w].1, PORT_ANY));
                    assert(spec_covers(m, src) && udp_allowed_on(ifaces, idx, k, m, PORT_ANY));
                }
                let jr = choose|jr: int| 0 <= jr < pol.port_rules.len() && (#[trigger] pol.port_rules[jr]).0 == m;
                assert(a(pol.port_rules[jr].0, pol.port_rules[jr].1));
                let pa = p.udp_port_action;
                let port = if spec_map_get(pa, (m, sp)) is Some {
                    sp
                } else {
                    PORT_ANY
                };
                crate::enforce::lemma_map_get_found(pa, (m, port));
                let v = spec_map_get(pa, (m, port))->Some_0;
                let q = choose|q: int| 0 <= q < pa.len() && pa[q] == ((m, port), v);
                assert(udp_allowed_any(ifaces, pa[q].0.0, pa[q].0.1));
                assert(udp_allowed_on(ifaces, idx, k, m, pol.port_rules[jr].1));
            },
        }
    }
}

/// A TCP packet passes only when nothing filters TCP (no interface has
/// a TCP section), or no interface with the arrival index has a TCP
/// section, or when (for a new connection, a SYN without ACK) some rule
/// of an interface with the arrival index names its destination port,
/// and either the packet is not a new
/// connection and an interface with that index allows outgoing
/// connections, or a TCP rule allows a range containing its source
/// address with its destination port or any port, that range being one
/// of the TCP ranges of the arrival index.
pub proof fn law_tcp_pass_is_allowed(
    ifaces: Seq<InterfaceView>,
    idx: Seq<u32>,
    p: MapPlanView,
    k: u32,
    src: Seq<u8>,
    dst: Seq<u8>,
    sport: u16,
    dport: u16,
    syn: bool,
    ack: bool,
    seq: u32,
    ihl: u8,
    doff: u16,
    tot_len: u16,
    t: Map<Seq<u8>, u32>,
    monitor: bool,
    tstamp: u64,
)
    requires
        idx.len() == ifaces.len(),
        spec_populate(ifaces, idx) == Ok::<MapPlanView, Seq<char>>(p),
        spec_tcp_path(p, k, src, dst, sport, dport, syn, ack, seq, ihl, doff, tot_len, t, monitor, tstamp).0
            == XDP_PASS,
    ensures
        (forall|i: int| 0 <= i < ifaces.len() ==> (#[trigger] ifaces[i]).tcp is None) || !has_tcp_section(
            ifaces,
            idx,
            k,
        ) || ((syn && !ack ==> exists|i: int|
            0 <= i < ifaces.len() && idx[i] == k && iface_allows_port(#[trigger] ifaces[i], dport))
            && ((!(syn && !ack) && has_tcp_iface(
            ifaces,
            idx,
            k,
            true,
        )) || exists|m: CidrView, port: u16|
            #![trigger tcp_allowed_any(ifaces, m, port)]
            spec_covers(m, src) && (port == dport || port == PORT_ANY) && tcp_allowed_any(ifaces, m, port)
                && exists|p2: u16| #[trigger] tcp_allowed_on(ifaces, idx, k, m, p2))),
{
    lemma_udp_maps(ifaces, idx, p);
    lemma_tcp_maps(ifaces, idx, p);
    lemma_allow_keys(ifaces, idx);
    lemma_action_codes();
    if p.proto_dflt.1 == ACTION_PASS {
        assert forall|i: int| 0 <= i < ifaces.len() implies (#[trigger] ifaces[i]).tcp is None by {}
    } else {
        assert(XDP_DROP != XDP_PASS);
        let acc = p.tcp;
        crate::enforce::lemma_lookup_entry(acc, k);
        match spec_lookup_entry(acc, k) {
            None => {
                assert forall|i: int| 0 <= i < ifaces.len() && idx[i] == k implies (#[trigger] ifaces[i]).tcp is None by {
                    if ifaces[i].tcp is Some {
                        let e = choose|e: int| 0 <= e < acc.len() && acc[e].0 == idx[i];
                    }
                }
            },
            Some(pol) => {
                if syn && !ack {
                    assert(p.port_allow_list.contains((k, dport)));
                    let i = choose|i: int| 0 <= i < ifaces.len() && idx[i] == k && iface_allows_port(#[trigger] ifaces[i], dport);
                }
                let pr = spec_protect(p, k, src, syn, ack, seq, t);
                assert(pr.0 is None);
                let e = choose|e: int| 0 <= e < acc.len() && acc[e].0 == k;
                assert(pol == acc[e].1);
                let dflt = p.tcp_iface_default;
                let flags = match spec_map_get(dflt, k) {
                    Some(v) => v,
                    None => 0,
                };
                if flags & ALLOW_OUTGOING_FLAG != 0 && (!syn || ack) {
                    crate::enforce::lemma_map_get_found(dflt, k);
                    let w = choose|w: int| 0 <= w < dflt.len() && dflt[w] == (k, flags);
                    assert(dflt[w] == (acc[w].0, crate::plan::spec_default_value(acc[w].1.allow_outgoing)));
                    assert(acc[w].1.allow_outgoing);
                    assert(has_tcp_iface(ifaces, idx, acc[w].0, acc[w].1.allow_outgoing));
                } else {
                    let a = |q: CidrView, p2: u16| tcp_allowed_on(ifaces, idx, acc[e].0, q, p2);
                    assert(pol_sound(pol, a));
                    let m = spec_lpm(pol.prefixes, src)->Some_0;
                    let c = choose|c: CidrView| is_longest_match(pol.prefixes, src, c);
                    assert(m == c);
                    let jr = choose|jr: int| 0 <= jr < pol.port_rules.len() && (#[trigger] pol.port_rules[jr]).0 == m;
                    assert(a(pol.port_rules[jr].0, pol.port_rules[jr].1));
                    let pa = p.tcp_port_action;
                    let port = if spec_map_get(pa, (m, dport)) is Some {
                        dport
                    } else {
                        PORT_ANY
                    };
                    crate::enforce::lemma_map_get_found(pa, (m, port));
                    let v = spec_map_get(pa, (m, port))->Some_0;
                    let q = choose|q: int| 0 <= q < pa.len() && pa[q] == ((m, port), v);
                    assert(tcp_allowed_any(ifaces, pa[q].0.0, pa[q].0.1));
                    assert(tcp_allowed_on(ifaces, idx, k, m, pol.port_rules[jr].1));
                }
            },
        }
    }
}

/// A new connection (a SYN without ACK) to a port that no rule of an
/// interface with the arrival index names is dropped before the ACK
/// flood protection runs, when that index has a TCP section: the
/// tracker is left unchanged and no event is reported.
pub proof fn law_syn_to_unlisted_port_dropped(
    ifaces: Seq<InterfaceView>,
    idx: Seq<u32>,
    p: MapPlanView,
    k: u32,
    src: Seq<u8>,
    dst: Seq<u8>,
    sport: u16,
    dport: u16,
    seq: u32,
    ihl: u8,
    doff: u16,
    tot_len: u16,
    t: Map<Seq<u8>, u32>,
    monitor: bool,
    tstamp: u64,
)
    requires
        idx.len() == ifaces.len(),
        spec_populate(ifaces, idx) == Ok::<MapPlanView, Seq<char>>(p),
        has_tcp_section(ifaces, idx, k),
        forall|i: int| 0 <= i < ifaces.len() && idx[i] == k ==> !iface_allows_port(#[trigger] ifaces[i], dport),
    ensures
        spec_tcp_path(p, k, src, dst, sport, dport, true, false, seq, ihl, doff, tot_len, t, monitor, tstamp)
            == (XDP_DROP, t, None::<crate::enforce::MonitorEvent>),
{
    lemma_tcp_maps(ifaces, idx, p);
    lemma_udp_maps(ifaces, idx, p);
    lemma_allow_keys(ifaces, idx);
    lemma_action_codes();
    let i = choose|i: int| 0 <= i < ifaces.len() && idx[i] == k && (#[trigger] ifaces[i]).tcp is Some;
    assert(ifaces[i].tcp is Some);
    let acc = p.tcp;
    crate::enforce::lemma_lookup_entry(acc, k);
    let e = choose|e: int| 0 <= e < acc.len() && acc[e].0 == idx[i];
    assert(spec_lookup_entry(acc, k) is Some);
    assert(!p.port_allow_list.contains((k, dport)));
}

/// When no interface has a UDP section, every UDP packet passes; when
/// none has a TCP section, every TCP packet passes and the ACK tracker
/// is left alone.
pub proof fn law_unfiltered_protocol_passes(
    ifaces: Seq<InterfaceView>,
    idx: Seq<u32>,
    p: MapPlanView,
    k: u32,
    src: Seq<u8>,
    dst: Seq<u8>,
    sport: u16,
    dport: u16,
    syn: bool,
    ack: bool,
    seq: u32,
    ihl: u8,
    doff: u16,
    tot_len: u16,
    t: Map<Seq<u8>, u32>,
    monitor: bool,
    tstamp: u64,
)
    requires
        idx.len() == ifaces.len(),
        spec_populate(ifaces, idx) == Ok::<MapPlanView, Seq<char>>(p),
    ensures
        (forall|i: int| 0 <= i < ifaces.len() ==> (#[trigger] ifaces[i]).udp is None) ==> spec_udp_path(
            p,
            k,
            src,
            dst,
            sport,
            dport,
            monitor,
            tstamp,
        ).0 == XDP_PASS,
        (forall|i: int| 0 <= i < ifaces.len() ==> (#[trigger] ifaces[i]).tcp is None) ==> ({
            let r = spec_tcp_path(p, k, src, dst, sport, dport, syn, ack, seq, ihl, doff, tot_len, t, monitor, tstamp);
            r.0 == XDP_PASS && r.1 == t
        }),
{
    lemma_udp_maps(ifaces, idx, p);
}

/// With ACK flood protection, the packet that follows a SYN from the same
/// source (or a SYN-ACK, on an interface allowing outgoing connections)
/// is not dropped by the protection when its sequence number is at most
/// [`TCP_ACK_MAX_WINDOW`] past the SYN's (wrapping), provided the
/// tracker had room for the source or already held it.
pub proof fn law_handshake_ack_admitted(
    p: MapPlanView,
    k: u32,
    src: Seq<u8>,
    ack0: bool,
    s0: u32,
    s1: u32,
    ack: bool,
    t: Map<Seq<u8>, u32>,
)
    requires
        ack0 ==> crate::protect::spec_allow_outgoing(p, k),
        t.contains_key(src) || t.dom().len() < MAX_TCP_ACK_ISN_ENTRIES,
        s1.wrapping_sub(s0) <= TCP_ACK_MAX_WINDOW,
    ensures
        spec_protect(p, k, src, true, ack0, s0, t).0 is None,
        spec_protect(p, k, src, false, ack, s1, spec_protect(p, k, src, true, ack0, s0, t).1).0 is None,
{
}

/// With ACK flood protection on an interface, a packet other than a SYN
/// from a source the tracker does not hold is dropped and the tracker is
/// left alone.
pub proof fn law_untracked_source_dropped(
    p: MapPlanView,
    k: u32,
    src: Seq<u8>,
    ack: bool,
    seq: u32,
    t: Map<Seq<u8>, u32>,
)
    requires
        crate::protect::spec_ack_flood_enabled(p, k),
        !t.contains_key(src),
    ensures
        spec_protect(p, k, src, false, ack, seq, t) == (Some(XDP_DROP), t),
{
}

/// No event is produced while monitoring is off.
pub proof fn law_no_event_without_monitor(
    p: MapPlanView,
    pkt: Seq<u8>,
    k: u32,
    t: Map<Seq<u8>, u32>,
    tstamp: u64,
)
    ensures
        crate::enforce::spec_ingress(p, pkt, k, t, false, tstamp).2 is None,
{
}

/// On an interface whose TCP sections all allow outgoing connections and
/// none enables ACK flood protection, every TCP packet other than a new
/// connection (a SYN without ACK) passes, whatever its addresses and
/// ports.
pub proof fn law_allow_outgoing_passes(
    ifaces: Seq<InterfaceView>,
    idx: Seq<u32>,
    p: MapPlanView,
    i: int,
    src: Seq<u8>,
    dst: Seq<u8>,
    sport: u16,
    dport: u16,
    syn: bool,
    ack: bool,
    seq: u32,
    ihl: u8,
    doff: u16,
    tot_len: u16,
    t: Map<Seq<u8>, u32>,
    monitor: bool,
    tstamp: u64,
)
    requires
        idx.len() == ifaces.len(),
        spec_populate(ifaces, idx) == Ok::<MapPlanView, Seq<char>>(p),
        0 <= i < ifaces.len(),
        ifaces[i].tcp is Some,
        forall|j: int|
            0 <= j < ifaces.len() && idx[j] == idx[i] && (#[trigger] ifaces[j]).tcp is Some ==> ifaces[j].tcp->Some_0.allow_outgoing
                && !ifaces[j].tcp->Some_0.protections.tcp_ack_flood,
        !(syn && !ack),
    ensures
        spec_tcp_path(p, idx[i], src, dst, sport, dport, syn, ack, seq, ihl, doff, tot_len, t, monitor, tstamp).0
            == XDP_PASS,
{
    let k = idx[i];
    lemma_udp_maps(ifaces, idx, p);
    lemma_tcp_maps(ifaces, idx, p);
    lemma_ack_flood_ifaces(ifaces, idx);
    lemma_action_codes();
    assert(p.proto_dflt.1 != ACTION_PASS);
    assert(!crate::protect::spec_ack_flood_enabled(p, k)) by {
        if p.ack_flood.contains(k) {
            let j = choose|j: int|
                0 <= j < ifaces.len() && idx[j] == k && crate::plan::has_ack_flood(#[trigger] ifaces[j]);
        }
    }
    let acc = p.tcp;
    let e = choose|e: int| 0 <= e < acc.len() && acc[e].0 == idx[i];
    crate::enforce::lemma_lookup_entry(acc, k);
    assert(has_tcp_iface(ifaces, idx, acc[e].0, acc[e].1.allow_outgoing));
    let j = choose|j: int|
        0 <= j < ifaces.len() && idx[j] == acc[e].0 && tcp_allow_outgoing_is(#[trigger] ifaces[j], acc[e].1.allow_outgoing);
    assert(acc[e].1.allow_outgoing);
    let dflt = p.tcp_iface_default;
    assert(crate::enforce::keys_distinct(dflt)) by {
        assert forall|a: int, b: int| 0 <= a < dflt.len() && 0 <= b < dflt.len() && a != b implies dflt[a].0
            != dflt[b].0 by {
            assert(acc[a].0 != acc[b].0);
        }
    }
    crate::enforce::lemma_map_get_distinct(dflt, e);
    assert(dflt[e] == (k, ALLOW_OUTGOING_FLAG));
}

} // verus!
