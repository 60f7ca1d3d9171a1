//! The contents of the kernel maps that `efctl apply` populates,
//! computed from a configuration.
//!
//! Interface names are resolved to interface indexes by the caller (a
//! query to the running system); everything computed from the
//! configuration and those indexes is here.

use crate::config::{Action, EfenseConfig, Interface, InterfaceView};
use crate::error::{EfenseError, ErrorKind};
use crate::ip::{debug_str, spec_cidr_parse, spec_debug_str, Ipv4Cidr as TextCidr};
use crate::policy::{
    self, pad_zero, spec_any, spec_canonical, CidrView, ACTION_DROP, ACTION_PASS, PORT_ANY,
};
use crate::tcp::{Tcp4IngressRule, Tcp4IngressRuleView};
use crate::udp::{Udp4IngressRule, Udp4IngressRuleView};
use vstd::prelude::*;

verus! {

/// The action value stored in the kernel maps for an action.
pub fn action_value(action: Action) -> (r: u32)
    ensures
        r == spec_action_value(action),
{
    match action {
        Action::Pass => ACTION_PASS,
        Action::Drop => ACTION_DROP,
    }
}

pub open spec fn spec_action_value(action: Action) -> u32 {
    match action {
        Action::Pass => ACTION_PASS,
        Action::Drop => ACTION_DROP,
    }
}

/// The action of an allow-list rule: the opposite of the default.
pub open spec fn flip(a: Action) -> Action {
    match a {
        Action::Drop => Action::Pass,
        Action::Pass => Action::Drop,
    }
}

/// Per-interface materialized policy: default action, TCP
/// allow-outgoing flag, the prefixes of the interface's LPM trie
/// (without duplicates) and the rules expanded into
/// `(canonical prefix, port or PORT_ANY, action)` triples.
pub struct IfacePolicy {
    pub default_action: Action,
    pub allow_outgoing: bool,
    pub prefixes: Vec<policy::Ipv4Cidr>,
    pub port_rules: Vec<(policy::Ipv4Cidr, u16, Action)>,
}

pub struct IfacePolicyView {
    pub default_action: Action,
    pub allow_outgoing: bool,
    pub prefixes: Seq<CidrView>,
    pub port_rules: Seq<(CidrView, u16, Action)>,
}

pub open spec fn cidrs_view(v: Seq<policy::Ipv4Cidr>) -> Seq<CidrView> {
    v.map_values(|c: policy::Ipv4Cidr| c@)
}

pub open spec fn rules_view(v: Seq<(policy::Ipv4Cidr, u16, Action)>) -> Seq<(CidrView, u16, Action)> {
    v.map_values(|t: (policy::Ipv4Cidr, u16, Action)| (t.0@, t.1, t.2))
}

impl View for IfacePolicy {
    type V = IfacePolicyView;

    open spec fn view(&self) -> IfacePolicyView {
        IfacePolicyView {
            default_action: self.default_action,
            allow_outgoing: self.allow_outgoing,
            prefixes: cidrs_view(self.prefixes@),
            port_rules: rules_view(self.port_rules@),
        }
    }
}

/// Every prefix of the policy, in its LPM prefixes and in its rules, has
/// zero padding.
pub open spec fn pol_pads_zero(p: IfacePolicy) -> bool {
    &&& forall|i: int| 0 <= i < p.prefixes@.len() ==> pad_zero(#[trigger] p.prefixes@[i])
    &&& forall|i: int| 0 <= i < p.port_rules@.len() ==> pad_zero((#[trigger] p.port_rules@[i]).0)
}

/// Every policy of the entries has zero padding.
pub open spec fn entries_pads_zero(v: Seq<(u32, IfacePolicy)>) -> bool {
    forall|e: int| 0 <= e < v.len() ==> pol_pads_zero(#[trigger] v[e].1)
}

/// A port-action key has zero padding, its prefix included.
pub open spec fn key_pads_zero(k: policy::PrefixPort) -> bool {
    k._pad@ == seq![0u8, 0u8] && pad_zero(k.prefix)
}

/// A policy with no rule: default drop.
pub open spec fn fresh_policy(allow_outgoing: bool) -> IfacePolicyView {
    IfacePolicyView {
        default_action: Action::Drop,
        allow_outgoing,
        prefixes: Seq::empty(),
        port_rules: Seq::empty(),
    }
}

pub open spec fn add_prefix(s: Seq<CidrView>, p: CidrView) -> Seq<CidrView> {
    if s.contains(p) {
        s
    } else {
        s.push(p)
    }
}

pub open spec fn add_prefixes(s: Seq<CidrView>, ps: Seq<CidrView>) -> Seq<CidrView>
    decreases ps.len(),
{
    if ps.len() == 0 {
        s
    } else {
        add_prefix(add_prefixes(s, ps.drop_last()), ps.last())
    }
}

/// The policy with a rule added: its prefixes join the LPM prefixes,
/// and one `(prefix, port, action)` triple per prefix is appended.
pub open spec fn spec_expand(pol: IfacePolicyView, ps: Seq<CidrView>, port: u16) -> IfacePolicyView {
    IfacePolicyView {
        default_action: pol.default_action,
        allow_outgoing: pol.allow_outgoing,
        prefixes: add_prefixes(pol.prefixes, ps),
        port_rules: pol.port_rules + ps.map_values(
            |p: CidrView| (p, port, flip(pol.default_action)),
        ),
    }
}

pub open spec fn msg_invalid_range(range: Seq<char>, rule: Seq<char>, e: Seq<char>) -> Seq<char> {
    "invalid src_ip_range "@ + spec_debug_str(range) + " in rule '"@ + rule + "': "@ + e
}

/// The canonical prefixes of the source ranges of a rule, or the error
/// for the first range that does not parse.
pub open spec fn spec_range_prefixes(ranges: Seq<Seq<char>>, rule: Seq<char>) -> Result<
    Seq<CidrView>,
    Seq<char>,
>
    decreases ranges.len(),
{
    if ranges.len() == 0 {
        Ok(Seq::empty())
    } else {
        match spec_range_prefixes(ranges.drop_last(), rule) {
            Err(e) => Err(e),
            Ok(ps) => match spec_cidr_parse(ranges.last()) {
                Ok((a, n)) => Ok(ps.push(spec_canonical(a, n))),
                Err(m) => Err(msg_invalid_range(ranges.last(), rule, m)),
            },
        }
    }
}

/// The canonical prefixes of the source ranges before the first one
/// that does not parse (all of them when each parses).
pub open spec fn spec_parsed_prefixes(ranges: Seq<Seq<char>>, rule: Seq<char>) -> Seq<CidrView>
    decreases ranges.len(),
{
    if ranges.len() == 0 {
        Seq::empty()
    } else {
        let ps = spec_parsed_prefixes(ranges.drop_last(), rule);
        match spec_range_prefixes(ranges.drop_last(), rule) {
            Err(_) => ps,
            Ok(_) => match spec_cidr_parse(ranges.last()) {
                Ok((a, n)) => ps.push(spec_canonical(a, n)),
                Err(_) => ps,
            },
        }
    }
}

/// The prefixes a rule adds before it stops: match-any when it lists no
/// source range, else those of its ranges before the first one that does
/// not parse.
pub open spec fn spec_rule_parsed(ranges: Seq<Seq<char>>, rule: Seq<char>) -> Seq<CidrView> {
    if ranges.len() == 0 {
        seq![spec_any()]
    } else {
        spec_parsed_prefixes(ranges, rule)
    }
}

/// The prefixes a rule matches: every source range, or match-any when
/// it lists none.
pub open spec fn spec_rule_prefixes(ranges: Seq<Seq<char>>, rule: Seq<char>) -> Result<
    Seq<CidrView>,
    Seq<char>,
> {
    if ranges.len() == 0 {
        Ok(seq![spec_any()])
    } else {
        spec_range_prefixes(ranges, rule)
    }
}

pub open spec fn udp_rule_port(src_port: Option<u16>) -> u16 {
    match src_port {
        Some(p) => p,
        None => PORT_ANY,
    }
}

pub open spec fn spec_expand_udp_rule(pol: IfacePolicyView, rule: Udp4IngressRuleView) -> Result<
    IfacePolicyView,
    Seq<char>,
> {
    match spec_rule_prefixes(rule.src_ip_ranges, rule.name) {
        Ok(ps) => Ok(spec_expand(pol, ps, udp_rule_port(rule.src_port))),
        Err(e) => Err(e),
    }
}

pub open spec fn spec_expand_tcp_rule(pol: IfacePolicyView, rule: Tcp4IngressRuleView) -> Result<
    IfacePolicyView,
    Seq<char>,
> {
    match spec_rule_prefixes(rule.src_ip_ranges, rule.name) {
        Ok(ps) => Ok(spec_expand(pol, ps, rule.port)),
        Err(e) => Err(e),
    }
}

pub open spec fn spec_expand_udp_rules(pol: IfacePolicyView, rules: Seq<Udp4IngressRuleView>) -> Result<
    IfacePolicyView,
    Seq<char>,
>
    decreases rules.len(),
{
    if rules.len() == 0 {
        Ok(pol)
    } else {
        match spec_expand_udp_rules(pol, rules.drop_last()) {
            Err(e) => Err(e),
            Ok(p) => spec_expand_udp_rule(p, rules.last()),
        }
    }
}

pub open spec fn spec_expand_tcp_rules(pol: IfacePolicyView, rules: Seq<Tcp4IngressRuleView>) -> Result<
    IfacePolicyView,
    Seq<char>,
>
    decreases rules.len(),
{
    if rules.len() == 0 {
        Ok(pol)
    } else {
        match spec_expand_tcp_rules(pol, rules.drop_last()) {
            Err(e) => Err(e),
            Ok(p) => spec_expand_tcp_rule(p, rules.last()),
        }
    }
}

pub open spec fn strings_view(v: Seq<String>) -> Seq<Seq<char>> {
    v.map_values(|s: String| s@)
}

/// Whether two prefixes have the same address and length.
fn same_cidr(a: &policy::Ipv4Cidr, b: &policy::Ipv4Cidr) -> (r: bool)
    ensures
        r == (a@ == b@),
{
    let r = a.addr[0] == b.addr[0] && a.addr[1] == b.addr[1] && a.addr[2] == b.addr[2]
        && a.addr[3] == b.addr[3] && a.prefix_len == b.prefix_len;
    if r {
        assert(a.addr@ =~= b.addr@);
    } else if a.prefix_len == b.prefix_len {
        assert(a.addr@ != b.addr@) by {
            if a.addr@ == b.addr@ {
                assert(a.addr@[0] == b.addr@[0] && a.addr@[1] == b.addr@[1] && a.addr@[2]
                    == b.addr@[2] && a.addr@[3] == b.addr@[3]);
            }
        }
    }
    r
}

impl IfacePolicy {
    /// A policy with no rule: default drop.
    pub fn fresh(allow_outgoing: bool) -> (r: Self)
        ensures
            r@ == fresh_policy(allow_outgoing),
            pol_pads_zero(r),
    {
        let r = IfacePolicy {
            default_action: Action::Drop,
            allow_outgoing,
            prefixes: Vec::new(),
            port_rules: Vec::new(),
        };
        assert(r@.prefixes =~= Seq::<CidrView>::empty());
        assert(r@.port_rules =~= Seq::<(CidrView, u16, Action)>::empty());
        r
    }

    /// Add a prefix to the LPM prefixes unless it is already there.
    fn add_prefix(&mut self, p: policy::Ipv4Cidr)
        ensures
            final(self)@ == (IfacePolicyView { prefixes: add_prefix(old(self)@.prefixes, p@), ..old(self)@ }),
            pol_pads_zero(*old(self)) && pad_zero(p) ==> pol_pads_zero(*final(self)),
    {
        let ghost pv = cidrs_view(self.prefixes@);
        let mut i: usize = 0;
        while i < self.prefixes.len()
            invariant
                i <= self.prefixes.len(),
                pv == cidrs_view(self.prefixes@),
                forall|j: int| 0 <= j < i ==> pv[j] != p@,
            decreases self.prefixes.len() - i,
        {
            if same_cidr(&self.prefixes[i], &p) {
                assert(pv[i as int] == p@);
                assert(pv.contains(p@));
                return;
            }
            i = i + 1;
        }
        assert(!pv.contains(p@));
        let ghost before = self.prefixes@;
        self.prefixes.push(p);
        assert(cidrs_view(self.prefixes@) =~= pv.push(p@));
        assert(self.prefixes@ == before.push(p));
    }

    /// Add one rule matching the prefixes `ps` on `port`.
    fn expand(&mut self, ps: Vec<policy::Ipv4Cidr>, port: u16)
        ensures
            final(self)@ == spec_expand(old(self)@, cidrs_view(ps@), port),
            pol_pads_zero(*old(self)) && (forall|i: int| 0 <= i < ps@.len() ==> pad_zero(#[trigger] ps@[i]))
                ==> pol_pads_zero(*final(self)),
    {
        let ghost ok = pol_pads_zero(*self) && (forall|i: int|
            0 <= i < ps@.len() ==> pad_zero(#[trigger] ps@[i]));
        let action = match self.default_action {
            Action::Drop => Action::Pass,
            Action::Pass => Action::Drop,
        };
        let ghost start = self@;
        let ghost psv = cidrs_view(ps@);
        let mut i: usize = 0;
        assert(psv.take(0) =~= Seq::<CidrView>::empty());
        assert(rules_view(self.port_rules@) =~= start.port_rules + psv.take(0).map_values(
            |p: CidrView| (p, port, flip(start.default_action)),
        ));
        while i < ps.len()
            invariant
                i <= ps.len(),
                psv == cidrs_view(ps@),
                action == flip(start.default_action),
                self@ == spec_expand(start, psv.take(i as int), port),
                ok ==> pol_pads_zero(*self),
                ok ==> forall|i: int| 0 <= i < ps@.len() ==> pad_zero(#[trigger] ps@[i]),
            decreases ps.len() - i,
        {
            let p = ps[i];
            self.add_prefix(p);
            let ghost before = rules_view(self.port_rules@);
            let ghost raw_before = self.port_rules@;
            self.port_rules.push((p, port, action));
            assert(self.port_rules@ == raw_before.push((p, port, action)));
            proof {
                assert(rules_view(self.port_rules@) =~= before.push((p@, port, action)));
                assert(psv.take(i + 1).map_values(|q: CidrView| (q, port, flip(start.default_action)))
                    =~= psv.take(i as int).map_values(
                    |q: CidrView| (q, port, flip(start.default_action)),
                ).push((p@, port, action)));
                assert(psv.take(i + 1).drop_last() =~= psv.take(i as int));
                assert(psv.take(i + 1).last() == p@);
                assert(rules_view(self.port_rules@) =~= start.port_rules + psv.take(i + 1).map_values(
                    |q: CidrView| (q, port, flip(start.default_action)),
                ));
            }
            i = i + 1;
        }
        assert(psv.take(i as int) =~= psv);
    }
}

/// The canonical prefixes of a rule's source ranges (match-any when
/// there is none) up to the first range that does not parse, and the
/// error for that range, if any.
fn rule_prefixes(ranges: &Vec<String>, rule_name: &String) -> (r: (Vec<policy::Ipv4Cidr>, Result<(), EfenseError>))
    ensures
        cidrs_view(r.0@) == spec_rule_parsed(strings_view(ranges@), rule_name@),
        forall|i: int| 0 <= i < r.0@.len() ==> pad_zero(#[trigger] r.0@[i]),
        match spec_rule_prefixes(strings_view(ranges@), rule_name@) {
            Ok(ps) => r.1 is Ok && cidrs_view(r.0@) == ps,
            Err(m) => r.1 matches Err(e) && e.kind == ErrorKind::Bug && e.msg@ == m,
        },
{
    let ghost rv = strings_view(ranges@);
    if ranges.len() == 0 {
        let v = vec![policy::Ipv4Cidr::any()];
        assert(cidrs_view(v@) =~= seq![spec_any()]);
        return (v, Ok(()));
    }
    let mut out: Vec<policy::Ipv4Cidr> = Vec::new();
    let mut i: usize = 0;
    assert(rv.take(0) =~= Seq::<Seq<char>>::empty());
    assert(cidrs_view(out@) =~= Seq::<CidrView>::empty());
    while i < ranges.len()
        invariant
            i <= ranges.len(),
            rv == strings_view(ranges@),
            spec_range_prefixes(rv.take(i as int), rule_name@) == Ok::<Seq<CidrView>, Seq<char>>(
                cidrs_view(out@),
            ),
            cidrs_view(out@) == spec_parsed_prefixes(rv.take(i as int), rule_name@),
            forall|j: int| 0 <= j < out@.len() ==> pad_zero(#[trigger] out@[j]),
        decreases ranges.len() - i,
    {
        proof {
            assert(rv.take(i + 1).drop_last() =~= rv.take(i as int));
            assert(rv.take(i + 1).last() == ranges@[i as int]@);
        }
        match TextCidr::parse(ranges[i].as_str()) {
            Ok(c) => {
                let p = policy::Ipv4Cidr::new(c.addr, c.prefix_len);
                let ghost before = out@;
                out.push(p);
                assert(cidrs_view(out@) =~= cidrs_view(before).push(p@));
                assert(p@ == spec_canonical(c.addr@, c.prefix_len));
            },
            Err(e) => {
                let mut m = String::from_str("invalid src_ip_range ");
                m.append(debug_str(ranges[i].as_str()).as_str());
                m.append(" in rule '");
                m.append(rule_name.as_str());
                m.append("': ");
                m.append(e.as_str());
                proof {
                    lemma_range_prefixes_err_sticky(rv, rule_name@, i + 1);
                }
                return (out, Err(EfenseError { kind: ErrorKind::Bug, msg: m }));
            },
        }
        i = i + 1;
    }
    assert(rv.take(i as int) =~= rv);
    (out, Ok(()))
}

/// Once a range fails to parse, every longer list of ranges fails with
/// the same error and stops at the same prefixes.
proof fn lemma_range_prefixes_err_sticky(rv: Seq<Seq<char>>, rule: Seq<char>, k: int)
    requires
        0 <= k <= rv.len(),
        spec_range_prefixes(rv.take(k), rule) is Err,
    ensures
        spec_range_prefixes(rv, rule) == spec_range_prefixes(rv.take(k), rule),
        spec_parsed_prefixes(rv, rule) == spec_parsed_prefixes(rv.take(k), rule),
    decreases rv.len() - k,
{
    if k < rv.len() {
        assert(rv.take(k + 1).drop_last() =~= rv.take(k));
        lemma_range_prefixes_err_sticky(rv, rule, k + 1);
    } else {
        assert(rv.take(k) =~= rv);
    }
}

/// Expand a UDP allow-list rule into `out`: its prefixes join the LPM
/// prefixes and one `(prefix, source port or PORT_ANY, action)` triple
/// is added per prefix. On error, the prefixes of the ranges before the
/// one that does not parse have been added.
pub fn expand_udp_rule(rule: &Udp4IngressRule, out: &mut IfacePolicy) -> (r: Result<(), EfenseError>)
    ensures
        match spec_expand_udp_rule(old(out)@, rule@) {
            Ok(p) => r is Ok && final(out)@ == p,
            Err(m) => r matches Err(e) && e.kind == ErrorKind::Bug && e.msg@ == m && final(out)@
                == spec_expand(old(out)@, spec_rule_parsed(rule@.src_ip_ranges, rule@.name), udp_rule_port(rule@.src_port)),
        },
        pol_pads_zero(*old(out)) ==> pol_pads_zero(*final(out)),
{
    let port = match rule.src_port {
        Some(p) => p,
        None => PORT_ANY,
    };
    let (ps, parsed) = rule_prefixes(&rule.src_ip_ranges, &rule.name);
    out.expand(ps, port);
    parsed
}

/// Expand a TCP allow-list rule into `out`: its prefixes join the LPM
/// prefixes and one `(prefix, destination port, action)` triple is
/// added per prefix. On error, the prefixes of the ranges before the one
/// that does not parse have been added.
pub fn expand_tcp_rule(rule: &Tcp4IngressRule, out: &mut IfacePolicy) -> (r: Result<(), EfenseError>)
    ensures
        match spec_expand_tcp_rule(old(out)@, rule@) {
            Ok(p) => r is Ok && final(out)@ == p,
            Err(m) => r matches Err(e) && e.kind == ErrorKind::Bug && e.msg@ == m && final(out)@
                == spec_expand(old(out)@, spec_rule_parsed(rule@.src_ip_ranges, rule@.name), rule@.port),
        },
        pol_pads_zero(*old(out)) ==> pol_pads_zero(*final(out)),
{
    let port = rule.port;
    let (ps, parsed) = rule_prefixes(&rule.src_ip_ranges, &rule.name);
    out.expand(ps, port);
    parsed
}


/// `j` is the first entry with key `k`.
pub open spec fn is_first_key<T>(s: Seq<(u32, T)>, k: u32, j: int) -> bool {
    &&& 0 <= j < s.len()
    &&& s[j].0 == k
    &&& forall|i: int| 0 <= i < j ==> s[i].0 != k
}

pub open spec fn entries_view(v: Seq<(u32, IfacePolicy)>) -> Seq<(u32, IfacePolicyView)> {
    v.map_values(|e: (u32, IfacePolicy)| (e.0, e.1@))
}

/// The entry of interface index `k` (made from `fresh` when missing):
/// the entries and the entry's position.
pub open spec fn spec_entry(acc: Seq<(u32, IfacePolicyView)>, k: u32, fresh: IfacePolicyView) -> (
    Seq<(u32, IfacePolicyView)>,
    int,
) {
    if exists|j: int| is_first_key(acc, k, j) {
        (acc, choose|j: int| is_first_key(acc, k, j))
    } else {
        (acc.push((k, fresh)), acc.len() as int)
    }
}

/// Add the UDP policy of one interface (with index `k`) to the
/// per-index policies.
pub open spec fn spec_udp_step(acc: Seq<(u32, IfacePolicyView)>, iface: InterfaceView, k: u32) -> Result<
    Seq<(u32, IfacePolicyView)>,
    Seq<char>,
> {
    match iface.udp {
        None => Ok(acc),
        Some(u) => {
            let (base, j) = spec_entry(acc, k, fresh_policy(false));
            match spec_expand_udp_rules(base[j].1, u.allow_list) {
                Ok(p) => Ok(base.update(j, (k, p))),
                Err(e) => Err(e),
            }
        },
    }
}

/// Add the TCP policy of one interface (with index `k`) to the
/// per-index policies; the interface's `allow_outgoing` replaces the
/// entry's.
pub open spec fn spec_tcp_step(acc: Seq<(u32, IfacePolicyView)>, iface: InterfaceView, k: u32) -> Result<
    Seq<(u32, IfacePolicyView)>,
    Seq<char>,
> {
    match iface.tcp {
        None => Ok(acc),
        Some(t) => {
            let (base, j) = spec_entry(acc, k, fresh_policy(t.allow_outgoing));
            let b = IfacePolicyView { allow_outgoing: t.allow_outgoing, ..base[j].1 };
            match spec_expand_tcp_rules(b, t.allow_list) {
                Ok(p) => Ok(base.update(j, (k, p))),
                Err(e) => Err(e),
            }
        },
    }
}

/// The UDP policies of the interfaces, gathered per interface index
/// (`idx[i]` is the index of interface `i`), in order of first
/// appearance; or the first error.
pub open spec fn spec_collect_udp(ifaces: Seq<InterfaceView>, idx: Seq<u32>) -> Result<
    Seq<(u32, IfacePolicyView)>,
    Seq<char>,
>
    decreases ifaces.len(),
{
    if ifaces.len() == 0 {
        Ok(Seq::empty())
    } else {
        match spec_collect_udp(ifaces.drop_last(), idx) {
            Err(e) => Err(e),
            Ok(acc) => spec_udp_step(acc, ifaces.last(), idx[ifaces.len() - 1]),
        }
    }
}

/// The TCP policies of the interfaces, gathered per interface index.
pub open spec fn spec_collect_tcp(ifaces: Seq<InterfaceView>, idx: Seq<u32>) -> Result<
    Seq<(u32, IfacePolicyView)>,
    Seq<char>,
>
    decreases ifaces.len(),
{
    if ifaces.len() == 0 {
        Ok(Seq::empty())
    } else {
        match spec_collect_tcp(ifaces.drop_last(), idx) {
            Err(e) => Err(e),
            Ok(acc) => spec_tcp_step(acc, ifaces.last(), idx[ifaces.len() - 1]),
        }
    }
}

/// The outcome of looking up an interface's index by its name: the
/// index, or the text of the lookup's error.
pub open spec fn lookups_view(v: Seq<Result<u32, String>>) -> Seq<Result<u32, Seq<char>>> {
    v.map_values(|r: Result<u32, String>| match r {
        Ok(k) => Ok(k),
        Err(m) => Err(m@),
    })
}

/// The index found by a lookup (0 where it failed).
pub open spec fn lookup_index(r: Result<u32, Seq<char>>) -> u32 {
    match r {
        Ok(k) => k,
        Err(_) => 0,
    }
}

/// The indexes found by the lookups (0 where one failed).
pub open spec fn lookup_indexes(lk: Seq<Result<u32, Seq<char>>>) -> Seq<u32> {
    lk.map_values(|r: Result<u32, Seq<char>>| lookup_index(r))
}

/// [`spec_collect_udp`] with each interface's index looked up as it is
/// reached: an interface with a UDP policy whose lookup failed stops
/// the collection with the lookup's error.
pub open spec fn spec_collect_udp_at(ifaces: Seq<InterfaceView>, lk: Seq<Result<u32, Seq<char>>>) -> Result<
    Seq<(u32, IfacePolicyView)>,
    Seq<char>,
>
    decreases ifaces.len(),
{
    if ifaces.len() == 0 {
        Ok(Seq::empty())
    } else {
        match spec_collect_udp_at(ifaces.drop_last(), lk) {
            Err(e) => Err(e),
            Ok(acc) => match (ifaces.last().udp, lk[ifaces.len() - 1]) {
                (Some(_), Err(m)) => Err(m),
                _ => spec_udp_step(acc, ifaces.last(), lookup_index(lk[ifaces.len() - 1])),
            },
        }
    }
}

/// [`spec_collect_tcp`] with each interface's index looked up as it is
/// reached.
pub open spec fn spec_collect_tcp_at(ifaces: Seq<InterfaceView>, lk: Seq<Result<u32, Seq<char>>>) -> Result<
    Seq<(u32, IfacePolicyView)>,
    Seq<char>,
>
    decreases ifaces.len(),
{
    if ifaces.len() == 0 {
        Ok(Seq::empty())
    } else {
        match spec_collect_tcp_at(ifaces.drop_last(), lk) {
            Err(e) => Err(e),
            Ok(acc) => match (ifaces.last().tcp, lk[ifaces.len() - 1]) {
                (Some(_), Err(m)) => Err(m),
                _ => spec_tcp_step(acc, ifaces.last(), lookup_index(lk[ifaces.len() - 1])),
            },
        }
    }
}

/// The error of the first lookup that failed, if any.
pub open spec fn spec_first_lookup_err(lk: Seq<Result<u32, Seq<char>>>) -> Option<Seq<char>>
    decreases lk.len(),
{
    if lk.len() == 0 {
        None
    } else {
        match spec_first_lookup_err(lk.drop_last()) {
            Some(m) => Some(m),
            None => match lk.last() {
                Err(m) => Some(m),
                Ok(_) => None,
            },
        }
    }
}

proof fn lemma_first_lookup_err_none(lk: Seq<Result<u32, Seq<char>>>)
    requires
        spec_first_lookup_err(lk) is None,
    ensures
        forall|i: int| 0 <= i < lk.len() ==> (#[trigger] lk[i]) is Ok,
    decreases lk.len(),
{
    if lk.len() > 0 {
        lemma_first_lookup_err_none(lk.drop_last());
        assert forall|i: int| 0 <= i < lk.len() implies (#[trigger] lk[i]) is Ok by {
            if i < lk.len() - 1 {
                assert(lk[i] == lk.drop_last()[i]);
            }
        }
    }
}

proof fn lemma_first_lookup_err_sticky(lk: Seq<Result<u32, Seq<char>>>, k: int)
    requires
        0 <= k <= lk.len(),
        spec_first_lookup_err(lk.take(k)) is Some,
    ensures
        spec_first_lookup_err(lk) == spec_first_lookup_err(lk.take(k)),
    decreases lk.len() - k,
{
    if k < lk.len() {
        assert(lk.take(k + 1).drop_last() =~= lk.take(k));
        lemma_first_lookup_err_sticky(lk, k + 1);
    } else {
        assert(lk.take(k) =~= lk);
    }
}

/// When every interface's lookup succeeded, collecting with the lookups
/// is collecting with the indexes found.
proof fn lemma_collect_at_found(ifaces: Seq<InterfaceView>, lk: Seq<Result<u32, Seq<char>>>)
    requires
        lk.len() >= ifaces.len(),
        forall|i: int| 0 <= i < ifaces.len() ==> (#[trigger] lk[i]) is Ok,
    ensures
        spec_collect_udp_at(ifaces, lk) == spec_collect_udp(ifaces, lookup_indexes(lk)),
        spec_collect_tcp_at(ifaces, lk) == spec_collect_tcp(ifaces, lookup_indexes(lk)),
    decreases ifaces.len(),
{
    if ifaces.len() > 0 {
        let n = ifaces.len() - 1;
        assert(lk[n] is Ok);
        assert(lookup_indexes(lk)[n] == lookup_index(lk[n]));
        lemma_collect_at_found(ifaces.drop_last(), lk);
    }
}

proof fn lemma_collect_udp_at_err_sticky(ifaces: Seq<InterfaceView>, lk: Seq<Result<u32, Seq<char>>>, k: int)
    requires
        0 <= k <= ifaces.len(),
        spec_collect_udp_at(ifaces.take(k), lk) is Err,
    ensures
        spec_collect_udp_at(ifaces, lk) == spec_collect_udp_at(ifaces.take(k), lk),
    decreases ifaces.len() - k,
{
    if k < ifaces.len() {
        assert(ifaces.take(k + 1).drop_last() =~= ifaces.take(k));
        lemma_collect_udp_at_err_sticky(ifaces, lk, k + 1);
    } else {
        assert(ifaces.take(k) =~= ifaces);
    }
}

proof fn lemma_collect_tcp_at_err_sticky(ifaces: Seq<InterfaceView>, lk: Seq<Result<u32, Seq<char>>>, k: int)
    requires
        0 <= k <= ifaces.len(),
        spec_collect_tcp_at(ifaces.take(k), lk) is Err,
    ensures
        spec_collect_tcp_at(ifaces, lk) == spec_collect_tcp_at(ifaces.take(k), lk),
    decreases ifaces.len() - k,
{
    if k < ifaces.len() {
        assert(ifaces.take(k + 1).drop_last() =~= ifaces.take(k));
        lemma_collect_tcp_at_err_sticky(ifaces, lk, k + 1);
    } else {
        assert(ifaces.take(k) =~= ifaces);
    }
}

proof fn lemma_udp_rules_err_sticky(pol: IfacePolicyView, rv: Seq<Udp4IngressRuleView>, k: int)
    requires
        0 <= k <= rv.len(),
        spec_expand_udp_rules(pol, rv.take(k)) is Err,
    ensures
        spec_expand_udp_rules(pol, rv) == spec_expand_udp_rules(pol, rv.take(k)),
    decreases rv.len() - k,
{
    if k < rv.len() {
        assert(rv.take(k + 1).drop_last() =~= rv.take(k));
        lemma_udp_rules_err_sticky(pol, rv, k + 1);
    } else {
        assert(rv.take(k) =~= rv);
    }
}

proof fn lemma_tcp_rules_err_sticky(pol: IfacePolicyView, rv: Seq<Tcp4IngressRuleView>, k: int)
    requires
        0 <= k <= rv.len(),
        spec_expand_tcp_rules(pol, rv.take(k)) is Err,
    ensures
        spec_expand_tcp_rules(pol, rv) == spec_expand_tcp_rules(pol, rv.take(k)),
    decreases rv.len() - k,
{
    if k < rv.len() {
        assert(rv.take(k + 1).drop_last() =~= rv.take(k));
        lemma_tcp_rules_err_sticky(pol, rv, k + 1);
    } else {
        assert(rv.take(k) =~= rv);
    }
}

proof fn lemma_collect_udp_err_sticky(ifaces: Seq<InterfaceView>, idx: Seq<u32>, k: int)
    requires
        0 <= k <= ifaces.len(),
        spec_collect_udp(ifaces.take(k), idx) is Err,
    ensures
        spec_collect_udp(ifaces, idx) == spec_collect_udp(ifaces.take(k), idx),
    decreases ifaces.len() - k,
{
    if k < ifaces.len() {
        assert(ifaces.take(k + 1).drop_last() =~= ifaces.take(k));
        lemma_collect_udp_err_sticky(ifaces, idx, k + 1);
    } else {
        assert(ifaces.take(k) =~= ifaces);
    }
}

proof fn lemma_collect_tcp_err_sticky(ifaces: Seq<InterfaceView>, idx: Seq<u32>, k: int)
    requires
        0 <= k <= ifaces.len(),
        spec_collect_tcp(ifaces.take(k), idx) is Err,
    ensures
        spec_collect_tcp(ifaces, idx) == spec_collect_tcp(ifaces.take(k), idx),
    decreases ifaces.len() - k,
{
    if k < ifaces.len() {
        assert(ifaces.take(k + 1).drop_last() =~= ifaces.take(k));
        lemma_collect_tcp_err_sticky(ifaces, idx, k + 1);
    } else {
        assert(ifaces.take(k) =~= ifaces);
    }
}

/// Expand every rule of a UDP allow list into `pol`, in order.
fn expand_udp_rules(rules: &Vec<Udp4IngressRule>, pol: &mut IfacePolicy) -> (r: Result<(), EfenseError>)
    ensures
        match spec_expand_udp_rules(old(pol)@, rules@.map_values(|x: Udp4IngressRule| x@)) {
            Ok(p) => r is Ok && final(pol)@ == p,
            Err(m) => r matches Err(e) && e.kind == ErrorKind::Bug && e.msg@ == m,
        },
        r is Ok && pol_pads_zero(*old(pol)) ==> pol_pads_zero(*final(pol)),
{
    let ghost ok = pol_pads_zero(*pol);
    let ghost start = pol@;
    let ghost rv = rules@.map_values(|x: Udp4IngressRule| x@);
    let mut i: usize = 0;
    assert(rv.take(0) =~= Seq::<Udp4IngressRuleView>::empty());
    while i < rules.len()
        invariant
            i <= rules.len(),
            rv == rules@.map_values(|x: Udp4IngressRule| x@),
            start == old(pol)@,
            spec_expand_udp_rules(start, rv.take(i as int)) == Ok::<IfacePolicyView, Seq<char>>(pol@),
            ok ==> pol_pads_zero(*pol),
        decreases rules.len() - i,
    {
        proof {
            assert(rv.take(i + 1).drop_last() =~= rv.take(i as int));
            assert(rv.take(i + 1).last() == rules@[i as int]@);
        }
        let ghost before = pol@;
        match expand_udp_rule(&rules[i], pol) {
            Ok(()) => {},
            Err(e) => {
                proof {
                    assert(spec_expand_udp_rules(start, rv.take(i + 1)) == spec_expand_udp_rule(
                        before,
                        rv[i as int],
                    ));
                    lemma_udp_rules_err_sticky(start, rv, i + 1);
                }
                return Err(e);
            },
        }
        i = i + 1;
    }
    assert(rv.take(i as int) =~= rv);
    Ok(())
}

/// Expand every rule of a TCP allow list into `pol`, in order.
fn expand_tcp_rules(rules: &Vec<Tcp4IngressRule>, pol: &mut IfacePolicy) -> (r: Result<(), EfenseError>)
    ensures
        match spec_expand_tcp_rules(old(pol)@, rules@.map_values(|x: Tcp4IngressRule| x@)) {
            Ok(p) => r is Ok && final(pol)@ == p,
            Err(m) => r matches Err(e) && e.kind == ErrorKind::Bug && e.msg@ == m,
        },
        r is Ok && pol_pads_zero(*old(pol)) ==> pol_pads_zero(*final(pol)),
{
    let ghost ok = pol_pads_zero(*pol);
    let ghost start = pol@;
    let ghost rv = rules@.map_values(|x: Tcp4IngressRule| x@);
    let mut i: usize = 0;
    assert(rv.take(0) =~= Seq::<Tcp4IngressRuleView>::empty());
    while i < rules.len()
        invariant
            i <= rules.len(),
            rv == rules@.map_values(|x: Tcp4IngressRule| x@),
            start == old(pol)@,
            spec_expand_tcp_rules(start, rv.take(i as int)) == Ok::<IfacePolicyView, Seq<char>>(pol@),
            ok ==> pol_pads_zero(*pol),
        decreases rules.len() - i,
    {
        proof {
            assert(rv.take(i + 1).drop_last() =~= rv.take(i as int));
            assert(rv.take(i + 1).last() == rules@[i as int]@);
        }
        let ghost before = pol@;
        match expand_tcp_rule(&rules[i], pol) {
            Ok(()) => {},
            Err(e) => {
                proof {
                    assert(spec_expand_tcp_rules(start, rv.take(i + 1)) == spec_expand_tcp_rule(
                        before,
                        rv[i as int],
                    ));
                    lemma_tcp_rules_err_sticky(start, rv, i + 1);
                }
                return Err(e);
            },
        }
        i = i + 1;
    }
    assert(rv.take(i as int) =~= rv);
    Ok(())
}

/// The position of the first entry with key `k`, if any.
fn find_key(v: &Vec<(u32, IfacePolicy)>, k: u32) -> (r: Option<usize>)
    ensures
        r matches Some(j) ==> is_first_key(entries_view(v@), k, j as int),
        r is None ==> !exists|j: int| is_first_key(entries_view(v@), k, j),
{
    let ghost ev = entries_view(v@);
    let mut i: usize = 0;
    while i < v.len()
        invariant
            i <= v.len(),
            ev == entries_view(v@),
            forall|j: int| 0 <= j < i ==> ev[j].0 != k,
        decreases v.len() - i,
    {
        if v[i].0 == k {
            return Some(i);
        }
        i = i + 1;
    }
    None
}

proof fn lemma_first_key_unique<T>(s: Seq<(u32, T)>, k: u32, i: int, j: int)
    requires
        is_first_key(s, k, i),
        is_first_key(s, k, j),
    ensures
        i == j,
{
    if i < j {
        assert(s[i].0 != k);
    } else if j < i {
        assert(s[j].0 != k);
    }
}

/// The position of the entry for `k` in `by_iface`, appending a fresh
/// one when missing.
fn entry_index(by_iface: &mut Vec<(u32, IfacePolicy)>, k: u32, allow_outgoing: bool) -> (j: usize)
    ensures
        entries_view(final(by_iface)@) == spec_entry(entries_view(old(by_iface)@), k, fresh_policy(allow_outgoing)).0,
        j as int == spec_entry(entries_view(old(by_iface)@), k, fresh_policy(allow_outgoing)).1,
        j < final(by_iface)@.len(),
        final(by_iface)@[j as int].0 == k,
        entries_pads_zero(old(by_iface)@) ==> entries_pads_zero(final(by_iface)@),
{
    let ghost ev = entries_view(by_iface@);
    let ghost before = by_iface@;
    match find_key(by_iface, k) {
        Some(j) => {
            proof {
                let c = choose|c: int| is_first_key(ev, k, c);
                lemma_first_key_unique(ev, k, j as int, c);
            }
            j
        },
        None => {
            let fresh = IfacePolicy::fresh(allow_outgoing);
            by_iface.push((k, fresh));
            assert(entries_view(by_iface@) =~= ev.push((k, fresh_policy(allow_outgoing))));
            assert(by_iface@ =~= before.push((k, fresh)));
            by_iface.len() - 1
        },
    }
}

/// The UDP policies of the configuration's interfaces gathered per
/// interface index. `lookups[i]` is the outcome of looking up interface
/// `i`'s index by its name; an interface with a UDP policy whose lookup
/// failed stops the collection with the lookup's error, in the order
/// the interfaces come (a range that does not parse stops it too).
pub fn collect_udp_per_iface(cfg: &EfenseConfig, lookups: &Vec<Result<u32, String>>) -> (r: Result<Vec<(u32, IfacePolicy)>, EfenseError>)
    requires
        lookups.len() == cfg.interfaces.len(),
    ensures
        match spec_collect_udp_at(cfg@, lookups_view(lookups@)) {
            Ok(v) => r matches Ok(x) && entries_view(x@) == v,
            Err(m) => r matches Err(e) && e.kind == ErrorKind::Bug && e.msg@ == m,
        },
        r matches Ok(x) ==> entries_pads_zero(x@),
{
    let ghost cv = cfg@;
    let ghost lk = lookups_view(lookups@);
    let mut by_iface: Vec<(u32, IfacePolicy)> = Vec::new();
    let mut i: usize = 0;
    assert(cv.take(0) =~= Seq::<InterfaceView>::empty());
    assert(entries_view(by_iface@) =~= Seq::<(u32, IfacePolicyView)>::empty());
    while i < cfg.interfaces.len()
        invariant
            i <= cfg.interfaces.len(),
            lookups.len() == cfg.interfaces.len(),
            lk == lookups_view(lookups@),
            cv == cfg@,
            spec_collect_udp_at(cv.take(i as int), lk) == Ok::<Seq<(u32, IfacePolicyView)>, Seq<char>>(
                entries_view(by_iface@),
            ),
            entries_pads_zero(by_iface@),
        decreases cfg.interfaces.len() - i,
    {
        let iface = &cfg.interfaces[i];
        proof {
            assert(cv.take(i + 1).drop_last() =~= cv.take(i as int));
            assert(cv.take(i + 1).last() == iface@);
        }
        match &iface.udp {
            None => {},
            Some(u) => {
                let k = match &lookups[i] {
                    Ok(k) => *k,
                    Err(m) => {
                        let msg = m.clone();
                        proof {
                            assert(lk[i as int] == Err::<u32, Seq<char>>(m@));
                            lemma_collect_udp_at_err_sticky(cv, lk, i + 1);
                        }
                        return Err(EfenseError { kind: ErrorKind::Bug, msg });
                    },
                };
                assert(lk[i as int] == Ok::<u32, Seq<char>>(k));
                let ghost acc = entries_view(by_iface@);
                let j = entry_index(&mut by_iface, k, false);
                let ghost base = entries_view(by_iface@);
                let ghost raw = by_iface@;
                let (kk, mut pol) = by_iface.remove(j);
                assert(pol_pads_zero(raw[j as int].1));
                match expand_udp_rules(&u.allow_list, &mut pol) {
                    Ok(()) => {},
                    Err(e) => {
                        proof {
                            lemma_collect_udp_at_err_sticky(cv, lk, i + 1);
                        }
                        return Err(e);
                    },
                }
                by_iface.insert(j, (kk, pol));
                proof {
                    assert(entries_view(by_iface@) =~= base.update(j as int, (k, pol@)));
                    assert(by_iface@ =~= raw.update(j as int, (kk, pol)));
                }
            },
        }
        i = i + 1;
    }
    assert(cv.take(i as int) =~= cv);
    Ok(by_iface)
}

/// The TCP policies of the configuration's interfaces gathered per
/// interface index. `lookups[i]` is the outcome of looking up interface
/// `i`'s index by its name; an interface with a TCP policy whose lookup
/// failed stops the collection with the lookup's error, in the order
/// the interfaces come (a range that does not parse stops it too).
pub fn collect_tcp_per_iface(cfg: &EfenseConfig, lookups: &Vec<Result<u32, String>>) -> (r: Result<Vec<(u32, IfacePolicy)>, EfenseError>)
    requires
        lookups.len() == cfg.interfaces.len(),
    ensures
        match spec_collect_tcp_at(cfg@, lookups_view(lookups@)) {
            Ok(v) => r matches Ok(x) && entries_view(x@) == v,
            Err(m) => r matches Err(e) && e.kind == ErrorKind::Bug && e.msg@ == m,
        },
        r matches Ok(x) ==> entries_pads_zero(x@),
{
    let ghost cv = cfg@;
    let ghost lk = lookups_view(lookups@);
    let mut by_iface: Vec<(u32, IfacePolicy)> = Vec::new();
    let mut i: usize = 0;
    assert(cv.take(0) =~= Seq::<InterfaceView>::empty());
    assert(entries_view(by_iface@) =~= Seq::<(u32, IfacePolicyView)>::empty());
    while i < cfg.interfaces.len()
        invariant
            i <= cfg.interfaces.len(),
            lookups.len() == cfg.interfaces.len(),
            lk == lookups_view(lookups@),
            cv == cfg@,
            spec_collect_tcp_at(cv.take(i as int), lk) == Ok::<Seq<(u32, IfacePolicyView)>, Seq<char>>(
                entries_view(by_iface@),
            ),
            entries_pads_zero(by_iface@),
        decreases cfg.interfaces.len() - i,
    {
        let iface = &cfg.interfaces[i];
        proof {
            assert(cv.take(i + 1).drop_last() =~= cv.take(i as int));
            assert(cv.take(i + 1).last() == iface@);
        }
        match &iface.tcp {
            None => {},
            Some(t) => {
                let k = match &lookups[i] {
                    Ok(k) => *k,
                    Err(m) => {
                        let msg = m.clone();
                        proof {
                            assert(lk[i as int] == Err::<u32, Seq<char>>(m@));
                            lemma_collect_tcp_at_err_sticky(cv, lk, i + 1);
                        }
                        return Err(EfenseError { kind: ErrorKind::Bug, msg });
                    },
                };
                assert(lk[i as int] == Ok::<u32, Seq<char>>(k));
                let j = entry_index(&mut by_iface, k, t.allow_outgoing);
                let ghost base = entries_view(by_iface@);
                let ghost raw = by_iface@;
                let (kk, mut pol) = by_iface.remove(j);
                assert(pol_pads_zero(raw[j as int].1));
                pol.allow_outgoing = t.allow_outgoing;
                match expand_tcp_rules(&t.allow_list, &mut pol) {
                    Ok(()) => {},
                    Err(e) => {
                        proof {
                            lemma_collect_tcp_at_err_sticky(cv, lk, i + 1);
                        }
                        return Err(e);
                    },
                }
                by_iface.insert(j, (kk, pol));
                proof {
                    assert(entries_view(by_iface@) =~= base.update(j as int, (k, pol@)));
                    assert(by_iface@ =~= raw.update(j as int, (kk, pol)));
                }
            },
        }
        i = i + 1;
    }
    assert(cv.take(i as int) =~= cv);
    Ok(by_iface)
}


/// The `(prefix, port) -> action` entries of a port-action map: the
/// expanded rules of every interface, interface after interface.
pub open spec fn spec_port_actions(ev: Seq<(u32, IfacePolicyView)>) -> Seq<((CidrView, u16), u32)>
    decreases ev.len(),
{
    if ev.len() == 0 {
        Seq::empty()
    } else {
        spec_port_actions(ev.drop_last()) + ev.last().1.port_rules.map_values(
            |t: (CidrView, u16, Action)| ((t.0, t.1), spec_action_value(t.2)),
        )
    }
}

pub open spec fn port_actions_view(v: Seq<(policy::PrefixPort, u32)>) -> Seq<((CidrView, u16), u32)> {
    v.map_values(|e: (policy::PrefixPort, u32)| (e.0@, e.1))
}

/// The entries to insert into a port-action map.
pub fn port_action_entries(by_iface: &Vec<(u32, IfacePolicy)>) -> (r: Vec<(policy::PrefixPort, u32)>)
    ensures
        port_actions_view(r@) == spec_port_actions(entries_view(by_iface@)),
        forall|q: int| 0 <= q < r@.len() ==> (#[trigger] r@[q]).0._pad@ == seq![0u8, 0u8],
        entries_pads_zero(by_iface@) ==> forall|q: int| 0 <= q < r@.len() ==> key_pads_zero(#[trigger] r@[q].0),
{
    let ghost pz = entries_pads_zero(by_iface@);
    let ghost ev = entries_view(by_iface@);
    let mut out: Vec<(policy::PrefixPort, u32)> = Vec::new();
    let mut i: usize = 0;
    assert(ev.take(0) =~= Seq::<(u32, IfacePolicyView)>::empty());
    assert(port_actions_view(out@) =~= Seq::<((CidrView, u16), u32)>::empty());
    while i < by_iface.len()
        invariant
            i <= by_iface.len(),
            ev == entries_view(by_iface@),
            port_actions_view(out@) == spec_port_actions(ev.take(i as int)),
            pz == entries_pads_zero(by_iface@),
            forall|q: int| 0 <= q < out@.len() ==> (#[trigger] out@[q]).0._pad@ == seq![0u8, 0u8],
            pz ==> forall|q: int| 0 <= q < out@.len() ==> key_pads_zero(#[trigger] out@[q].0),
        decreases by_iface.len() - i,
    {
        let rules = &by_iface[i].1.port_rules;
        assert(pz ==> pol_pads_zero(by_iface@[i as int].1));
        let ghost before = port_actions_view(out@);
        let ghost f = |t: (CidrView, u16, Action)| ((t.0, t.1), spec_action_value(t.2));
        let ghost rv = rules_view(rules@);
        let mut j: usize = 0;
        assert(rv.take(0).map_values(f) =~= Seq::<((CidrView, u16), u32)>::empty());
        assert(before + rv.take(0).map_values(f) =~= before);
        while j < rules.len()
            invariant
                j <= rules.len(),
                rv == rules_view(rules@),
                f == (|t: (CidrView, u16, Action)| ((t.0, t.1), spec_action_value(t.2))),
                port_actions_view(out@) == before + rv.take(j as int).map_values(f),
                pz ==> forall|q: int| 0 <= q < rules@.len() ==> pad_zero((#[trigger] rules@[q]).0),
                forall|q: int| 0 <= q < out@.len() ==> (#[trigger] out@[q]).0._pad@ == seq![0u8, 0u8],
                pz ==> forall|q: int| 0 <= q < out@.len() ==> key_pads_zero(#[trigger] out@[q].0),
            decreases rules.len() - j,
        {
            let (p, port, a) = rules[j];
            assert(pz ==> pad_zero(rules@[j as int].0));
            let ghost prev = out@;
            out.push((policy::PrefixPort::new(p, port), action_value(a)));
            assert(out@ =~= prev.push(out@[prev.len() as int]));
            proof {
                assert(rv.take(j + 1).map_values(f) =~= rv.take(j as int).map_values(f).push(f(rv[j as int])));
                assert(port_actions_view(out@) =~= port_actions_view(prev).push(f(rv[j as int])));
            }
            j = j + 1;
        }
        proof {
            assert(rv.take(j as int) =~= rv);
            assert(ev.take(i + 1).drop_last() =~= ev.take(i as int));
            assert(ev.take(i + 1).last() == ev[i as int]);
        }
        i = i + 1;
    }
    assert(ev.take(i as int) =~= ev);
    out
}

/// The `(k, prefix)` pairs of the rules among `rules` (those of the
/// interface with index `k`) that admit any port.
pub open spec fn any_port_prefixes(rules: Seq<(CidrView, u16, Action)>, k: u32) -> Seq<(u32, CidrView)>
    decreases rules.len(),
{
    if rules.len() == 0 {
        Seq::empty()
    } else {
        let rest = any_port_prefixes(rules.drop_last(), k);
        if rules.last().1 == PORT_ANY {
            rest.push((k, rules.last().0))
        } else {
            rest
        }
    }
}

/// The `(interface index, prefix)` pairs on which some rule admits any
/// port, interface after interface.
pub open spec fn spec_any_port_keys(ev: Seq<(u32, IfacePolicyView)>) -> Seq<(u32, CidrView)>
    decreases ev.len(),
{
    if ev.len() == 0 {
        Seq::empty()
    } else {
        spec_any_port_keys(ev.drop_last()) + any_port_prefixes(ev.last().1.port_rules, ev.last().0)
    }
}

pub open spec fn any_ports_view(v: Seq<(u32, policy::Ipv4Cidr)>) -> Seq<(u32, CidrView)> {
    v.map_values(|e: (u32, policy::Ipv4Cidr)| (e.0, e.1@))
}

/// The `(interface index, prefix)` pairs on which a rule of the gathered
/// policies admits any port.
pub fn any_port_entries(by_iface: &Vec<(u32, IfacePolicy)>) -> (r: Vec<(u32, policy::Ipv4Cidr)>)
    ensures
        any_ports_view(r@) == spec_any_port_keys(entries_view(by_iface@)),
        entries_pads_zero(by_iface@) ==> forall|q: int| 0 <= q < r@.len() ==> pad_zero(#[trigger] r@[q].1),
{
    let ghost pz = entries_pads_zero(by_iface@);
    let ghost ev = entries_view(by_iface@);
    let mut out: Vec<(u32, policy::Ipv4Cidr)> = Vec::new();
    let mut i: usize = 0;
    assert(ev.take(0) =~= Seq::<(u32, IfacePolicyView)>::empty());
    assert(any_ports_view(out@) =~= Seq::<(u32, CidrView)>::empty());
    while i < by_iface.len()
        invariant
            i <= by_iface.len(),
            ev == entries_view(by_iface@),
            pz == entries_pads_zero(by_iface@),
            any_ports_view(out@) == spec_any_port_keys(ev.take(i as int)),
            pz ==> forall|q: int| 0 <= q < out@.len() ==> pad_zero(#[trigger] out@[q].1),
        decreases by_iface.len() - i,
    {
        let k = by_iface[i].0;
        let rules = &by_iface[i].1.port_rules;
        assert(pz ==> pol_pads_zero(by_iface@[i as int].1));
        let ghost before = any_ports_view(out@);
        let ghost rv = rules_view(rules@);
        let mut j: usize = 0;
        assert(rv.take(0) =~= Seq::<(CidrView, u16, Action)>::empty());
        assert(before + any_port_prefixes(rv.take(0), k) =~= before);
        while j < rules.len()
            invariant
                j <= rules.len(),
                rv == rules_view(rules@),
                any_ports_view(out@) == before + any_port_prefixes(rv.take(j as int), k),
                pz ==> forall|q: int| 0 <= q < rules@.len() ==> pad_zero((#[trigger] rules@[q]).0),
                pz ==> forall|q: int| 0 <= q < out@.len() ==> pad_zero(#[trigger] out@[q].1),
            decreases rules.len() - j,
        {
            proof {
                assert(rv.take(j + 1).drop_last() =~= rv.take(j as int));
                assert(rv.take(j + 1).last() == rv[j as int]);
            }
            let (m, port, _) = rules[j];
            if port == PORT_ANY {
                assert(pz ==> pad_zero(rules@[j as int].0));
                let ghost prev = out@;
                out.push((k, m));
                assert(out@ =~= prev.push((k, m)));
                assert(any_ports_view(out@) =~= any_ports_view(prev).push((k, m@)));
            }
            j = j + 1;
        }
        proof {
            assert(rv.take(j as int) =~= rv);
            assert(ev.take(i + 1).drop_last() =~= ev.take(i as int));
            assert(ev.take(i + 1).last() == ev[i as int]);
            assert(ev[i as int].1.port_rules == rv);
        }
        i = i + 1;
    }
    assert(ev.take(i as int) =~= ev);
    out
}

/// The value of an interface's entry in the TCP default-action map.
pub open spec fn spec_default_value(allow_outgoing: bool) -> u32 {
    if allow_outgoing {
        policy::ALLOW_OUTGOING_FLAG
    } else {
        0
    }
}

/// The entries to insert into the TCP default-action map: the
/// allow-outgoing flag of each interface index.
pub fn iface_default_action_entries(by_iface: &Vec<(u32, IfacePolicy)>) -> (r: Vec<(u32, u32)>)
    ensures
        r@ == entries_view(by_iface@).map_values(
            |e: (u32, IfacePolicyView)| (e.0, spec_default_value(e.1.allow_outgoing)),
        ),
{
    let ghost ev = entries_view(by_iface@);
    let mut out: Vec<(u32, u32)> = Vec::new();
    let mut i: usize = 0;
    while i < by_iface.len()
        invariant
            i <= by_iface.len(),
            ev == entries_view(by_iface@),
            out@ == ev.take(i as int).map_values(
                |e: (u32, IfacePolicyView)| (e.0, spec_default_value(e.1.allow_outgoing)),
            ),
        decreases by_iface.len() - i,
    {
        let v = if by_iface[i].1.allow_outgoing {
            policy::ALLOW_OUTGOING_FLAG
        } else {
            0
        };
        out.push((by_iface[i].0, v));
        assert(out@ =~= ev.take(i + 1).map_values(
            |e: (u32, IfacePolicyView)| (e.0, spec_default_value(e.1.allow_outgoing)),
        ));
        i = i + 1;
    }
    assert(ev.take(i as int) =~= ev);
    out
}

pub open spec fn has_ack_flood(iface: InterfaceView) -> bool {
    iface.tcp matches Some(t) && t.protections.tcp_ack_flood
}

/// The interface indexes with TCP ACK flood protection enabled.
pub open spec fn spec_ack_flood_ifaces(ifaces: Seq<InterfaceView>, idx: Seq<u32>) -> Seq<u32>
    decreases ifaces.len(),
{
    if ifaces.len() == 0 {
        Seq::empty()
    } else {
        let rest = spec_ack_flood_ifaces(ifaces.drop_last(), idx);
        if has_ack_flood(ifaces.last()) {
            rest.push(idx[ifaces.len() - 1])
        } else {
            rest
        }
    }
}

/// The keys to set to `1` in the ACK flood protection map: the indexes
/// (`ifindexes[i]` that of interface `i`) of the interfaces with the
/// protection on.
pub fn ack_flood_ifindexes(cfg: &EfenseConfig, ifindexes: &Vec<u32>) -> (r: Vec<u32>)
    requires
        ifindexes.len() == cfg.interfaces.len(),
    ensures
        r@ == spec_ack_flood_ifaces(cfg@, ifindexes@),
{
    let ghost cv = cfg@;
    let mut out: Vec<u32> = Vec::new();
    let mut i: usize = 0;
    assert(cv.take(0) =~= Seq::<InterfaceView>::empty());
    while i < cfg.interfaces.len()
        invariant
            i <= cfg.interfaces.len(),
            ifindexes.len() == cfg.interfaces.len(),
            cv == cfg@,
            out@ == spec_ack_flood_ifaces(cv.take(i as int), ifindexes@),
        decreases cfg.interfaces.len() - i,
    {
        let iface = &cfg.interfaces[i];
        proof {
            assert(cv.take(i + 1).drop_last() =~= cv.take(i as int));
            assert(cv.take(i + 1).last() == iface@);
        }
        let enabled = match &iface.tcp {
            Some(t) => t.protections.tcp_ack_flood,
            None => false,
        };
        if enabled {
            out.push(ifindexes[i]);
        }
        i = i + 1;
    }
    assert(cv.take(i as int) =~= cv);
    out
}

/// Whether some interface enables TCP ACK flood protection (applying
/// such a configuration terminates the existing TCP connections).
pub fn any_tcp_ack_flood(cfg: &EfenseConfig) -> (r: bool)
    ensures
        r == exists|i: int| 0 <= i < cfg@.len() && has_ack_flood(#[trigger] cfg@[i]),
{
    let mut i: usize = 0;
    while i < cfg.interfaces.len()
        invariant
            i <= cfg.interfaces.len(),
            forall|j: int| 0 <= j < i ==> !has_ack_flood(#[trigger] cfg@[j]),
        decreases cfg.interfaces.len() - i,
    {
        let enabled = match &cfg.interfaces[i].tcp {
            Some(t) => t.protections.tcp_ack_flood,
            None => false,
        };
        assert(enabled == has_ack_flood(cfg@[i as int]));
        if enabled {
            return true;
        }
        i = i + 1;
    }
    false
}

/// The per-protocol default actions `(udp, tcp)`: drop when some
/// interface has a policy for the protocol, pass otherwise.
pub open spec fn spec_proto_defaults(ifaces: Seq<InterfaceView>) -> (u32, u32) {
    (
        if exists|i: int| 0 <= i < ifaces.len() && (#[trigger] ifaces[i]).udp is Some {
            ACTION_DROP
        } else {
            ACTION_PASS
        },
        if exists|i: int| 0 <= i < ifaces.len() && (#[trigger] ifaces[i]).tcp is Some {
            ACTION_DROP
        } else {
            ACTION_PASS
        },
    )
}

/// The values of the per-protocol default-action array.
pub fn proto_defaults(cfg: &EfenseConfig) -> (r: (u32, u32))
    ensures
        r == spec_proto_defaults(cfg@),
{
    let mut udp_defined = false;
    let mut tcp_defined = false;
    let mut i: usize = 0;
    while i < cfg.interfaces.len()
        invariant
            i <= cfg.interfaces.len(),
            udp_defined == exists|j: int| 0 <= j < i && (#[trigger] cfg@[j]).udp is Some,
            tcp_defined == exists|j: int| 0 <= j < i && (#[trigger] cfg@[j]).tcp is Some,
        decreases cfg.interfaces.len() - i,
    {
        assert(cfg@[i as int] == cfg.interfaces@[i as int]@);
        if cfg.interfaces[i].udp.is_some() {
            udp_defined = true;
        }
        if cfg.interfaces[i].tcp.is_some() {
            tcp_defined = true;
        }
        i = i + 1;
    }
    (
        if udp_defined {
            ACTION_DROP
        } else {
            ACTION_PASS
        },
        if tcp_defined {
            ACTION_DROP
        } else {
            ACTION_PASS
        },
    )
}

/// The allow-list keys contributed by one interface with index `k`:
/// the port of each TCP rule, then the source port of each UDP rule
/// that names one.
pub open spec fn spec_iface_allow_keys(iface: InterfaceView, k: u32) -> Seq<(u32, u16)> {
    let tcp_keys = match iface.tcp {
        Some(t) => t.allow_list.map_values(|r: Tcp4IngressRuleView| (k, r.port)),
        None => Seq::empty(),
    };
    let udp_keys = match iface.udp {
        Some(u) => udp_allow_keys(u.allow_list, k),
        None => Seq::empty(),
    };
    tcp_keys + udp_keys
}

pub open spec fn udp_allow_keys(rules: Seq<Udp4IngressRuleView>, k: u32) -> Seq<(u32, u16)>
    decreases rules.len(),
{
    if rules.len() == 0 {
        Seq::empty()
    } else {
        let rest = udp_allow_keys(rules.drop_last(), k);
        match rules.last().src_port {
            Some(p) => rest.push((k, p)),
            None => rest,
        }
    }
}

/// The keys of the early port allow-list, interface after interface.
pub open spec fn spec_allow_keys(ifaces: Seq<InterfaceView>, idx: Seq<u32>) -> Seq<(u32, u16)>
    decreases ifaces.len(),
{
    if ifaces.len() == 0 {
        Seq::empty()
    } else {
        spec_allow_keys(ifaces.drop_last(), idx) + spec_iface_allow_keys(
            ifaces.last(),
            idx[ifaces.len() - 1],
        )
    }
}

pub open spec fn port_keys_view(v: Seq<policy::PortKey>) -> Seq<(u32, u16)> {
    v.map_values(|p: policy::PortKey| p@)
}

/// The keys to insert into the early port allow-list (`ifindexes[i]` is
/// the index of interface `i`); the keys carry zero padding.
pub fn port_allow_list_keys(cfg: &EfenseConfig, ifindexes: &Vec<u32>) -> (r: Vec<policy::PortKey>)
    requires
        ifindexes.len() == cfg.interfaces.len(),
    ensures
        port_keys_view(r@) == spec_allow_keys(cfg@, ifindexes@),
        forall|q: int| 0 <= q < r@.len() ==> (#[trigger] r@[q])._pad@ == seq![0u8, 0u8],
{
    let ghost cv = cfg@;
    let mut out: Vec<policy::PortKey> = Vec::new();
    let mut i: usize = 0;
    assert(cv.take(0) =~= Seq::<InterfaceView>::empty());
    assert(port_keys_view(out@) =~= Seq::<(u32, u16)>::empty());
    while i < cfg.interfaces.len()
        invariant
            i <= cfg.interfaces.len(),
            ifindexes.len() == cfg.interfaces.len(),
            cv == cfg@,
            port_keys_view(out@) == spec_allow_keys(cv.take(i as int), ifindexes@),
            forall|q: int| 0 <= q < out@.len() ==> (#[trigger] out@[q])._pad@ == seq![0u8, 0u8],
        decreases cfg.interfaces.len() - i,
    {
        let iface = &cfg.interfaces[i];
        let k = ifindexes[i];
        let ghost start = port_keys_view(out@);
        proof {
            assert(cv.take(i + 1).drop_last() =~= cv.take(i as int));
            assert(cv.take(i + 1).last() == iface@);
        }
        let ghost tcp_keys = match iface@.tcp {
            Some(t) => t.allow_list.map_values(|r: Tcp4IngressRuleView| (k, r.port)),
            None => Seq::<(u32, u16)>::empty(),
        };
        match &iface.tcp {
            Some(t) => {
                let ghost tv = t.allow_list@.map_values(|x: Tcp4IngressRule| x@);
                let mut j: usize = 0;
                assert(start + tv.take(0).map_values(|r: Tcp4IngressRuleView| (k, r.port)) =~= start);
                while j < t.allow_list.len()
                    invariant
                        j <= t.allow_list.len(),
                        tv == t.allow_list@.map_values(|x: Tcp4IngressRule| x@),
                        port_keys_view(out@) == start + tv.take(j as int).map_values(
                            |r: Tcp4IngressRuleView| (k, r.port),
                        ),
                        forall|q: int| 0 <= q < out@.len() ==> (#[trigger] out@[q])._pad@ == seq![0u8, 0u8],
                    decreases t.allow_list.len() - j,
                {
                    let ghost prev = out@;
                    out.push(policy::PortKey::new(k, t.allow_list[j].port));
                    assert(out@ =~= prev.push(out@[prev.len() as int]));
                    proof {
                        assert(port_keys_view(out@) =~= port_keys_view(prev).push((k, tv[j as int].port)));
                        assert(tv.take(j + 1).map_values(|r: Tcp4IngressRuleView| (k, r.port))
                            =~= tv.take(j as int).map_values(|r: Tcp4IngressRuleView| (k, r.port)).push(
                            (k, tv[j as int].port),
                        ));
                    }
                    j = j + 1;
                }
                assert(tv.take(j as int) =~= tv);
            },
            None => {
                assert(start + tcp_keys =~= start);
            },
        }
        let ghost mid = port_keys_view(out@);
        assert(mid == start + tcp_keys);
        match &iface.udp {
            Some(u) => {
                let ghost uv = u.allow_list@.map_values(|x: Udp4IngressRule| x@);
                let mut j: usize = 0;
                assert(uv.take(0) =~= Seq::<Udp4IngressRuleView>::empty());
                assert(mid + udp_allow_keys(uv.take(0), k) =~= mid);
                while j < u.allow_list.len()
                    invariant
                        j <= u.allow_list.len(),
                        uv == u.allow_list@.map_values(|x: Udp4IngressRule| x@),
                        port_keys_view(out@) == mid + udp_allow_keys(uv.take(j as int), k),
                        forall|q: int| 0 <= q < out@.len() ==> (#[trigger] out@[q])._pad@ == seq![0u8, 0u8],
                    decreases u.allow_list.len() - j,
                {
                    proof {
                        assert(uv.take(j + 1).drop_last() =~= uv.take(j as int));
                        assert(uv.take(j + 1).last() == uv[j as int]);
                    }
                    let ghost prev = out@;
                    match u.allow_list[j].src_port {
                        Some(port) => {
                            out.push(policy::PortKey::new(k, port));
                            assert(out@ =~= prev.push(out@[prev.len() as int]));
                            assert(port_keys_view(out@) =~= port_keys_view(prev).push((k, port)));
                        },
                        None => {},
                    }
                    j = j + 1;
                }
                assert(uv.take(j as int) =~= uv);
            },
            None => {
                assert(mid + Seq::<(u32, u16)>::empty() =~= mid);
            },
        }
        i = i + 1;
    }
    assert(cv.take(i as int) =~= cv);
    out
}

/// The interfaces a program is attached to: those with a UDP or a TCP
/// policy.
pub open spec fn spec_with_policy(ifaces: Seq<InterfaceView>) -> Seq<InterfaceView>
    decreases ifaces.len(),
{
    if ifaces.len() == 0 {
        Seq::empty()
    } else {
        let rest = spec_with_policy(ifaces.drop_last());
        let i = ifaces.last();
        if i.udp is Some || i.tcp is Some {
            rest.push(i)
        } else {
            rest
        }
    }
}

/// An interface has a UDP or a TCP section.
pub open spec fn has_a_section() -> spec_fn(InterfaceView) -> bool {
    |x: InterfaceView| x.udp is Some || x.tcp is Some
}

/// Attach-list law: the interfaces a program is attached to are exactly
/// the interfaces of the configuration with a UDP or a TCP section. Each
/// listed interface is one of the configuration's and has such a
/// section, every interface with one is listed, and the list is the
/// configuration's interfaces filtered by that condition, in order.
pub proof fn law_attach_list_is_interfaces_with_a_section(ifaces: Seq<InterfaceView>)
    ensures
        forall|x: InterfaceView| #[trigger] spec_with_policy(ifaces).contains(x) ==> ifaces.contains(x) && (x.udp is Some
            || x.tcp is Some),
        forall|i: int|
            0 <= i < ifaces.len() && ((#[trigger] ifaces[i]).udp is Some || ifaces[i].tcp is Some)
                ==> spec_with_policy(ifaces).contains(ifaces[i]),
        spec_with_policy(ifaces).len() <= ifaces.len(),
        spec_with_policy(ifaces) == ifaces.filter(has_a_section()),
    decreases ifaces.len(),
{
    reveal(Seq::filter);
    if ifaces.len() > 0 {
        let init = ifaces.drop_last();
        let n = ifaces.len() - 1;
        law_attach_list_is_interfaces_with_a_section(init);
        let rest = spec_with_policy(init);
        let r = spec_with_policy(ifaces);
        let x0 = ifaces[n];
        assert(ifaces.last() == x0);
        assert forall|x: InterfaceView| #[trigger] r.contains(x) implies ifaces.contains(x) && (x.udp is Some
            || x.tcp is Some) by {
            let w = choose|w: int| 0 <= w < r.len() && r[w] == x;
            if w < rest.len() && (x0.udp is Some || x0.tcp is Some) {
                assert(r[w] == rest[w]);
                assert(rest.contains(x));
                let v = choose|v: int| 0 <= v < init.len() && init[v] == x;
                assert(ifaces[v] == init[v]);
            } else if x0.udp is Some || x0.tcp is Some {
                assert(x == x0);
                assert(ifaces[n] == x0);
            } else {
                assert(rest.contains(x));
                let v = choose|v: int| 0 <= v < init.len() && init[v] == x;
                assert(ifaces[v] == init[v]);
            }
        }
        assert forall|i: int|
            0 <= i < ifaces.len() && ((#[trigger] ifaces[i]).udp is Some || ifaces[i].tcp is Some)
                implies r.contains(ifaces[i]) by {
            if i < n {
                assert(init[i] == ifaces[i]);
                assert(rest.contains(init[i]));
                let w = choose|w: int| 0 <= w < rest.len() && rest[w] == init[i];
                if x0.udp is Some || x0.tcp is Some {
                    assert(r[w] == rest[w]);
                }
            } else {
                assert(r[rest.len() as int] == x0);
            }
        }
    }
}

/// The interfaces of `cfg` with a UDP or a TCP policy, in order.
pub fn interfaces_with_policy(cfg: &EfenseConfig) -> (r: Vec<&Interface>)
    ensures
        r@.map_values(|i: &Interface| i@) == spec_with_policy(cfg@),
{
    let ghost cv = cfg@;
    let mut out: Vec<&Interface> = Vec::new();
    let mut i: usize = 0;
    assert(cv.take(0) =~= Seq::<InterfaceView>::empty());
    assert(out@.map_values(|x: &Interface| x@) =~= Seq::<InterfaceView>::empty());
    while i < cfg.interfaces.len()
        invariant
            i <= cfg.interfaces.len(),
            cv == cfg@,
            out@.map_values(|x: &Interface| x@) == spec_with_policy(cv.take(i as int)),
        decreases cfg.interfaces.len() - i,
    {
        let iface = &cfg.interfaces[i];
        proof {
            assert(cv.take(i + 1).drop_last() =~= cv.take(i as int));
            assert(cv.take(i + 1).last() == iface@);
        }
        if iface.udp.is_some() || iface.tcp.is_some() {
            let ghost prev = out@;
            out.push(iface);
            assert(out@.map_values(|x: &Interface| x@) =~= prev.map_values(|x: &Interface| x@).push(iface@));
        }
        i = i + 1;
    }
    assert(cv.take(i as int) =~= cv);
    out
}


/// Everything `efctl apply` writes into the kernel maps, computed from
/// a configuration and the indexes of its interfaces.
pub struct MapPlan {
    /// UDP LPM prefixes per interface index (`UDP_IN_IF2LPM`).
    pub udp: Vec<(u32, IfacePolicy)>,
    /// `UDP_IN_PORT_ACT` entries.
    pub udp_port_action: Vec<(policy::PrefixPort, u32)>,
    /// TCP LPM prefixes per interface index (`TCP_IN_IF2LPM`).
    pub tcp: Vec<(u32, IfacePolicy)>,
    /// `TCP_IN_IFACE_DFLT` entries.
    pub tcp_iface_default: Vec<(u32, u32)>,
    /// `TCP_IN_PORT_ACT` entries.
    pub tcp_port_action: Vec<(policy::PrefixPort, u32)>,
    /// `PROTO_DFLT` values (UDP, TCP).
    pub proto_dflt: (u32, u32),
    /// Interface indexes set to `1` in `TCP_ACK_FLOOD_PROT_ENABLED`.
    pub ack_flood: Vec<u32>,
    /// `PORT_ALLOW_LIST` keys (each set to `1`).
    pub port_allow_list: Vec<policy::PortKey>,
    /// `(interface index, prefix)` pairs on which a UDP rule admits any
    /// source port: the early check admits a UDP packet whose source
    /// falls in such a prefix (as matched on that interface) whatever its
    /// source port.
    pub udp_any_port: Vec<(u32, policy::Ipv4Cidr)>,
}

/// Every key of the plan has zero padding bytes: the LPM prefixes and
/// rule prefixes of both protocols, the port-action keys, the
/// allow-list keys and the any-port prefixes.
pub open spec fn plan_pads_zero(p: MapPlan) -> bool {
    &&& entries_pads_zero(p.udp@)
    &&& entries_pads_zero(p.tcp@)
    &&& forall|q: int| 0 <= q < p.udp_port_action@.len() ==> key_pads_zero(#[trigger] p.udp_port_action@[q].0)
    &&& forall|q: int| 0 <= q < p.tcp_port_action@.len() ==> key_pads_zero(#[trigger] p.tcp_port_action@[q].0)
    &&& forall|q: int| 0 <= q < p.port_allow_list@.len() ==> (#[trigger] p.port_allow_list@[q])._pad@ == seq![0u8, 0u8]
    &&& forall|q: int| 0 <= q < p.udp_any_port@.len() ==> pad_zero(#[trigger] p.udp_any_port@[q].1)
}

pub struct MapPlanView {
    pub udp: Seq<(u32, IfacePolicyView)>,
    pub udp_port_action: Seq<((CidrView, u16), u32)>,
    pub tcp: Seq<(u32, IfacePolicyView)>,
    pub tcp_iface_default: Seq<(u32, u32)>,
    pub tcp_port_action: Seq<((CidrView, u16), u32)>,
    pub proto_dflt: (u32, u32),
    pub ack_flood: Seq<u32>,
    pub port_allow_list: Seq<(u32, u16)>,
    pub udp_any_port: Seq<(u32, CidrView)>,
}

impl View for MapPlan {
    type V = MapPlanView;

    open spec fn view(&self) -> MapPlanView {
        MapPlanView {
            udp: entries_view(self.udp@),
            udp_port_action: port_actions_view(self.udp_port_action@),
            tcp: entries_view(self.tcp@),
            tcp_iface_default: self.tcp_iface_default@,
            tcp_port_action: port_actions_view(self.tcp_port_action@),
            proto_dflt: self.proto_dflt,
            ack_flood: self.ack_flood@,
            port_allow_list: port_keys_view(self.port_allow_list@),
            udp_any_port: any_ports_view(self.udp_any_port@),
        }
    }
}

/// The map contents for a configuration whose interface `i` has index
/// `idx[i]`, or the error for the first invalid source range (UDP
/// rules first, then TCP rules).
pub open spec fn spec_populate(ifaces: Seq<InterfaceView>, idx: Seq<u32>) -> Result<MapPlanView, Seq<char>> {
    match spec_collect_udp(ifaces, idx) {
        Err(e) => Err(e),
        Ok(u) => match spec_collect_tcp(ifaces, idx) {
            Err(e) => Err(e),
            Ok(t) => Ok(
                MapPlanView {
                    udp: u,
                    udp_port_action: spec_port_actions(u),
                    tcp: t,
                    tcp_iface_default: t.map_values(
                        |e: (u32, IfacePolicyView)| (e.0, spec_default_value(e.1.allow_outgoing)),
                    ),
                    tcp_port_action: spec_port_actions(t),
                    proto_dflt: spec_proto_defaults(ifaces),
                    ack_flood: spec_ack_flood_ifaces(ifaces, idx),
                    port_allow_list: spec_allow_keys(ifaces, idx),
                    udp_any_port: spec_any_port_keys(u),
                },
            ),
        },
    }
}

/// The outcome of building the maps with the lookups of the interface
/// indexes: the first error in the order the original steps meet them
/// (the UDP policies with their lookups, then the TCP ones, then the
/// lookup of every interface for the early allow-list), else the maps
/// for the indexes found.
pub open spec fn spec_populate_at(ifaces: Seq<InterfaceView>, lk: Seq<Result<u32, Seq<char>>>) -> Result<
    MapPlanView,
    Seq<char>,
> {
    match spec_collect_udp_at(ifaces, lk) {
        Err(e) => Err(e),
        Ok(_) => match spec_collect_tcp_at(ifaces, lk) {
            Err(e) => Err(e),
            Ok(_) => match spec_first_lookup_err(lk) {
                Some(e) => Err(e),
                None => spec_populate(ifaces, lookup_indexes(lk)),
            },
        },
    }
}

/// The indexes found by the lookups, or the error of the first lookup
/// that failed.
pub fn found_indexes(lookups: &Vec<Result<u32, String>>) -> (r: Result<Vec<u32>, EfenseError>)
    ensures
        match spec_first_lookup_err(lookups_view(lookups@)) {
            Some(m) => r matches Err(e) && e.kind == ErrorKind::Bug && e.msg@ == m,
            None => r matches Ok(v) && v@ == lookup_indexes(lookups_view(lookups@)),
        },
{
    let ghost lk = lookups_view(lookups@);
    let mut out: Vec<u32> = Vec::new();
    let mut i: usize = 0;
    assert(lk.take(0) =~= Seq::<Result<u32, Seq<char>>>::empty());
    assert(out@ =~= lookup_indexes(lk.take(0)));
    while i < lookups.len()
        invariant
            i <= lookups.len(),
            lk == lookups_view(lookups@),
            spec_first_lookup_err(lk.take(i as int)) is None,
            out@ == lookup_indexes(lk.take(i as int)),
        decreases lookups.len() - i,
    {
        proof {
            assert(lk.take(i + 1).drop_last() =~= lk.take(i as int));
            assert(lk.take(i + 1).last() == lk[i as int]);
        }
        match &lookups[i] {
            Ok(k) => {
                out.push(*k);
                assert(out@ =~= lookup_indexes(lk.take(i + 1)));
            },
            Err(m) => {
                let msg = m.clone();
                proof {
                    lemma_first_lookup_err_sticky(lk, i + 1);
                }
                return Err(EfenseError { kind: ErrorKind::Bug, msg });
            },
        }
        i = i + 1;
    }
    assert(lk.take(i as int) =~= lk);
    Ok(out)
}

/// Compute the contents of the kernel maps for `cfg`, where `lookups[i]`
/// is the outcome of looking up interface `i`'s index by its name. A
/// failed lookup or a range that does not parse is the error, the first
/// met as the original meets them. Every key of the result has zero
/// padding, as the data path builds the keys it looks up.
pub fn populate_maps(cfg: &EfenseConfig, lookups: &Vec<Result<u32, String>>) -> (r: Result<MapPlan, EfenseError>)
    requires
        lookups.len() == cfg.interfaces.len(),
    ensures
        match spec_populate_at(cfg@, lookups_view(lookups@)) {
            Ok(p) => r matches Ok(x) && x@ == p,
            Err(m) => r matches Err(e) && e.kind == ErrorKind::Bug && e.msg@ == m,
        },
        r matches Ok(x) ==> plan_pads_zero(x),
{
    let ghost lk = lookups_view(lookups@);
    let udp = collect_udp_per_iface(cfg, lookups)?;
    let tcp = collect_tcp_per_iface(cfg, lookups)?;
    let ifindexes = found_indexes(lookups)?;
    proof {
        lemma_first_lookup_err_none(lk);
        lemma_collect_at_found(cfg@, lk);
    }
    let udp_port_action = port_action_entries(&udp);
    let tcp_iface_default = iface_default_action_entries(&tcp);
    let tcp_port_action = port_action_entries(&tcp);
    let proto_dflt = proto_defaults(cfg);
    let ack_flood = ack_flood_ifindexes(cfg, &ifindexes);
    let port_allow_list = port_allow_list_keys(cfg, &ifindexes);
    let udp_any_port = any_port_entries(&udp);
    Ok(
        MapPlan {
            udp,
            udp_port_action,
            tcp,
            tcp_iface_default,
            tcp_port_action,
            proto_dflt,
            ack_flood,
            port_allow_list,
            udp_any_port,
        },
    )
}

} // verus!
