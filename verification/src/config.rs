//! The efense configuration and how a new configuration is merged with
//! the one currently loaded into the kernel.

use crate::policy;
use crate::tcp::{TcpIngressPolicy, TcpIngressPolicyView};
use crate::udp::{UdpIngressPolicy, UdpIngressPolicyView};
use vstd::prelude::*;

verus! {

/// Per-interface protection features (e.g. flood detection).
#[derive(Debug, Clone, Copy, PartialEq, Eq, Default)]
pub struct Protections {
    /// Enable TCP ACK flood protection on this interface.
    pub tcp_ack_flood: bool,
}

/// Per-interface policy.
#[derive(Debug)]
pub struct Interface {
    pub name: String,
    pub udp: Option<UdpIngressPolicy>,
    pub tcp: Option<TcpIngressPolicy>,
}

pub struct InterfaceView {
    pub name: Seq<char>,
    pub udp: Option<UdpIngressPolicyView>,
    pub tcp: Option<TcpIngressPolicyView>,
}

impl View for Interface {
    type V = InterfaceView;

    open spec fn view(&self) -> InterfaceView {
        InterfaceView {
            name: self.name@,
            udp: match self.udp {
                Some(p) => Some(p@),
                None => None,
            },
            tcp: match self.tcp {
                Some(p) => Some(p@),
                None => None,
            },
        }
    }
}

fn clone_udp(p: &Option<UdpIngressPolicy>) -> (r: Option<UdpIngressPolicy>)
    ensures
        match *p {
            Some(x) => r matches Some(y) && y@ == x@,
            None => r is None,
        },
{
    match p {
        Some(x) => Some(x.clone()),
        None => None,
    }
}

fn clone_tcp(p: &Option<TcpIngressPolicy>) -> (r: Option<TcpIngressPolicy>)
    ensures
        match *p {
            Some(x) => r matches Some(y) && y@ == x@,
            None => r is None,
        },
{
    match p {
        Some(x) => Some(x.clone()),
        None => None,
    }
}

impl Clone for Interface {
    fn clone(&self) -> (r: Self)
        ensures
            r@ == self@,
    {
        Interface { name: self.name.clone(), udp: clone_udp(&self.udp), tcp: clone_tcp(&self.tcp) }
    }
}

/// Top-level efense configuration applied via `efctl apply`.
#[derive(Debug)]
pub struct EfenseConfig {
    pub interfaces: Vec<Interface>,
}

impl View for EfenseConfig {
    type V = Seq<InterfaceView>;

    open spec fn view(&self) -> Seq<InterfaceView> {
        self.interfaces@.map_values(|i: Interface| i@)
    }
}

impl Clone for EfenseConfig {
    fn clone(&self) -> (r: Self)
        ensures
            r@ == self@,
    {
        let r = EfenseConfig { interfaces: self.interfaces.clone() };
        assert(r@ =~= self@);
        r
    }
}

/// `new` keeps each per-protocol policy it has; a missing one is taken
/// from `previous`. The name is kept.
pub open spec fn merge_iface(new: InterfaceView, previous: InterfaceView) -> InterfaceView {
    InterfaceView {
        name: new.name,
        udp: if new.udp is None {
            previous.udp
        } else {
            new.udp
        },
        tcp: if new.tcp is None {
            previous.tcp
        } else {
            new.tcp
        },
    }
}

/// `j` is the first position in `s` of an interface called `name`.
pub open spec fn is_first_named(s: Seq<InterfaceView>, name: Seq<char>, j: int) -> bool {
    &&& 0 <= j < s.len()
    &&& s[j].name == name
    &&& forall|i: int| 0 <= i < j ==> s[i].name != name
}

/// Some interface in `s` is called `name`.
pub open spec fn has_named(s: Seq<InterfaceView>, name: Seq<char>) -> bool {
    exists|i: int| 0 <= i < s.len() && s[i].name == name
}

/// Merge one interface of the previous configuration: merged into the first
/// interface of the same name, appended when there is none.
pub open spec fn merge_one(cur: Seq<InterfaceView>, o: InterfaceView) -> Seq<InterfaceView> {
    if exists|j: int| is_first_named(cur, o.name, j) {
        let j = choose|j: int| is_first_named(cur, o.name, j);
        cur.update(j, merge_iface(cur[j], o))
    } else {
        cur.push(o)
    }
}

/// Merge every interface of `olds`, in order, into `cur`.
pub open spec fn merge_all(cur: Seq<InterfaceView>, olds: Seq<InterfaceView>) -> Seq<InterfaceView>
    decreases olds.len(),
{
    if olds.len() == 0 {
        cur
    } else {
        merge_one(merge_all(cur, olds.drop_last()), olds.last())
    }
}

pub proof fn lemma_first_named_unique(s: Seq<InterfaceView>, name: Seq<char>, i: int, k: int)
    requires
        is_first_named(s, name, i),
        is_first_named(s, name, k),
    ensures
        i == k,
{
    if i < k {
        assert(s[i].name != name);
    } else if k < i {
        assert(s[k].name != name);
    }
}

/// A name that occurs has a first occurrence.
pub proof fn lemma_first_named_exists(s: Seq<InterfaceView>, name: Seq<char>)
    requires
        has_named(s, name),
    ensures
        exists|j: int| is_first_named(s, name, j),
    decreases s.len(),
{
    let p = s.drop_last();
    if has_named(p, name) {
        lemma_first_named_exists(p, name);
        let j = choose|j: int| is_first_named(p, name, j);
        assert(s[j] == p[j]);
        assert forall|i: int| 0 <= i < j implies s[i].name != name by {
            assert(s[i] == p[i]);
        }
        assert(is_first_named(s, name, j));
    } else {
        let k = s.len() - 1;
        assert(s[k].name == name) by {
            let i = choose|i: int| 0 <= i < s.len() && s[i].name == name;
            if i < k {
                assert(p[i].name == name);
            }
        }
        assert forall|i: int| 0 <= i < k implies s[i].name != name by {
            if s[i].name == name {
                assert(p[i].name == name);
            }
        }
        assert(is_first_named(s, name, k));
    }
}

/// [`merge_one`] at its first match.
pub proof fn lemma_merge_one_at(cur: Seq<InterfaceView>, o: InterfaceView, j: int)
    requires
        is_first_named(cur, o.name, j),
    ensures
        merge_one(cur, o) == cur.update(j, merge_iface(cur[j], o)),
{
    let k = choose|k: int| is_first_named(cur, o.name, k);
    lemma_first_named_unique(cur, o.name, j, k);
}

impl Interface {
    /// Merge `previous`'s per-protocol policies into `self`: a policy present
    /// in `self` wins, a missing one is taken from `previous`. The interface
    /// name is not modified.
    pub fn merge(&mut self, previous: &Self)
        ensures
            final(self)@ == merge_iface(old(self)@, previous@),
    {
        if self.udp.is_none() {
            self.udp = clone_udp(&previous.udp);
        }
        if self.tcp.is_none() {
            self.tcp = clone_tcp(&previous.tcp);
        }
    }
}

/// The first interface of `ifaces` called `name`, if any.
fn find_interface(ifaces: &Vec<Interface>, name: &String) -> (r: Option<usize>)
    ensures
        r matches Some(j) ==> is_first_named(ifaces@.map_values(|i: Interface| i@), name@, j as int),
        r is None ==> !has_named(ifaces@.map_values(|i: Interface| i@), name@),
{
    let ghost v = ifaces@.map_values(|i: Interface| i@);
    let mut j: usize = 0;
    while j < ifaces.len()
        invariant
            j <= ifaces.len(),
            v == ifaces@.map_values(|i: Interface| i@),
            forall|i: int| 0 <= i < j ==> v[i].name != name@,
        decreases ifaces.len() - j,
    {
        if ifaces[j].name == *name {
            return Some(j);
        }
        j = j + 1;
    }
    None
}

impl EfenseConfig {
    /// Merge `previous` (the configuration currently loaded into the kernel)
    /// into `self` (the desired new configuration) in place.
    ///
    /// `self` wins for every field it specifies; an interface or a
    /// per-protocol policy only present in `previous` is kept, so a partial
    /// apply does not drop unrelated state. Each interface of `previous`, in
    /// order, is merged into the first interface of `self` with the same
    /// name, or appended at the end when there is none.
    pub fn merge(&mut self, previous: &Self)
        ensures
            final(self)@ == merge_all(old(self)@, previous@),
    {
        let ghost start = self@;
        let mut k: usize = 0;
        proof {
            assert(previous@.take(0) =~= Seq::<InterfaceView>::empty());
        }
        while k < previous.interfaces.len()
            invariant
                k <= previous.interfaces.len(),
                self@ == merge_all(start, previous@.take(k as int)),
            decreases previous.interfaces.len() - k,
        {
            let old_iface = &previous.interfaces[k];
            let ghost cur = self@;
            proof {
                assert(previous@.take(k + 1).drop_last() =~= previous@.take(k as int));
                assert(previous@.take(k + 1).last() == old_iface@);
            }
            match find_interface(&self.interfaces, &old_iface.name) {
                Some(j) => {
                    proof {
                        lemma_merge_one_at(cur, old_iface@, j as int);
                    }
                    let mut merged = self.interfaces[j].clone();
                    merged.merge(old_iface);
                    self.interfaces.set(j, merged);
                    proof {
                        assert(self@ =~= cur.update(j as int, merge_iface(cur[j as int], old_iface@)));
                    }
                },
                None => {
                    proof {
                        if exists|j: int| is_first_named(cur, old_iface@.name, j) {
                            let j = choose|j: int| is_first_named(cur, old_iface@.name, j);
                            assert(has_named(cur, old_iface@.name));
                        }
                    }
                    self.interfaces.push(old_iface.clone());
                    proof {
                        assert(self@ =~= cur.push(old_iface@));
                    }
                },
            }
            k = k + 1;
        }
        proof {
            assert(previous@.take(k as int) =~= previous@);
        }
    }
}

/// One merge step: existing positions keep their names and their
/// present policies, at most the merged interface is appended, and it
/// ends up with a first occurrence carrying its present policies.
proof fn lemma_merge_one_step(cur: Seq<InterfaceView>, o: InterfaceView)
    ensures
        cur.len() <= merge_one(cur, o).len() <= cur.len() + 1,
        forall|i: int|
            0 <= i < cur.len() ==> {
                &&& (#[trigger] merge_one(cur, o)[i]).name == cur[i].name
                &&& cur[i].udp is Some ==> merge_one(cur, o)[i].udp == cur[i].udp
                &&& cur[i].tcp is Some ==> merge_one(cur, o)[i].tcp == cur[i].tcp
            },
        merge_one(cur, o).len() == cur.len() + 1 ==> merge_one(cur, o)[cur.len() as int] == o
            && !has_named(cur, o.name),
        exists|j: int|
            {
                &&& is_first_named(merge_one(cur, o), o.name, j)
                &&& o.udp is Some ==> (#[trigger] merge_one(cur, o)[j]).udp is Some
                &&& o.tcp is Some ==> merge_one(cur, o)[j].tcp is Some
            },
{
    let r = merge_one(cur, o);
    if exists|j: int| is_first_named(cur, o.name, j) {
        let j = choose|j: int| is_first_named(cur, o.name, j);
        lemma_merge_one_at(cur, o, j);
        assert(is_first_named(r, o.name, j));
    } else {
        if has_named(cur, o.name) {
            lemma_first_named_exists(cur, o.name);
        }
        let k = cur.len() as int;
        assert(r[k] == o);
        assert(is_first_named(r, o.name, k)) by {
            assert forall|i: int| 0 <= i < k implies r[i].name != o.name by {
                assert(r[i] == cur[i]);
                if cur[i].name == o.name {
                    assert(has_named(cur, o.name));
                }
            }
        }
    }
}

/// Merging keeps the new interfaces first, with their names and their
/// present policies.
proof fn lemma_merge_prefix(new: Seq<InterfaceView>, olds: Seq<InterfaceView>)
    ensures
        merge_all(new, olds).len() >= new.len(),
        forall|i: int|
            0 <= i < new.len() ==> {
                &&& (#[trigger] merge_all(new, olds)[i]).name == new[i].name
                &&& new[i].udp is Some ==> merge_all(new, olds)[i].udp == new[i].udp
                &&& new[i].tcp is Some ==> merge_all(new, olds)[i].tcp == new[i].tcp
            },
    decreases olds.len(),
{
    if olds.len() > 0 {
        let p = olds.drop_last();
        lemma_merge_prefix(new, p);
        let rp = merge_all(new, p);
        let r = merge_all(new, olds);
        assert(r == merge_one(rp, olds.last()));
        lemma_merge_one_step(rp, olds.last());
        assert forall|i: int| 0 <= i < new.len() implies {
            &&& (#[trigger] r[i]).name == new[i].name
            &&& new[i].udp is Some ==> r[i].udp == new[i].udp
            &&& new[i].tcp is Some ==> r[i].tcp == new[i].tcp
        } by {
            assert(rp[i].name == new[i].name);
        }
    }
}

/// Every merged interface keeps a first occurrence carrying its present
/// policies.
proof fn lemma_merge_olds_present(new: Seq<InterfaceView>, olds: Seq<InterfaceView>)
    ensures
        forall|m: int|
            0 <= m < olds.len() ==> exists|j: int|
                {
                    &&& is_first_named(merge_all(new, olds), (#[trigger] olds[m]).name, j)
                    &&& olds[m].udp is Some ==> merge_all(new, olds)[j].udp is Some
                    &&& olds[m].tcp is Some ==> merge_all(new, olds)[j].tcp is Some
                },
    decreases olds.len(),
{
    if olds.len() > 0 {
        let p = olds.drop_last();
        let o = olds.last();
        let last = olds.len() - 1;
        lemma_merge_olds_present(new, p);
        let rp = merge_all(new, p);
        let r = merge_all(new, olds);
        assert(r == merge_one(rp, o));
        lemma_merge_one_step(rp, o);
        assert forall|m: int| 0 <= m < olds.len() implies exists|j: int|
            {
                &&& is_first_named(r, (#[trigger] olds[m]).name, j)
                &&& olds[m].udp is Some ==> r[j].udp is Some
                &&& olds[m].tcp is Some ==> r[j].tcp is Some
            } by {
            if m < last {
                assert(olds[m] == p[m]);
                let j = choose|j: int|
                    {
                        &&& is_first_named(rp, (#[trigger] p[m]).name, j)
                        &&& p[m].udp is Some ==> rp[j].udp is Some
                        &&& p[m].tcp is Some ==> rp[j].tcp is Some
                    };
                assert(r[j].name == rp[j].name);
                assert forall|i: int| 0 <= i < j implies r[i].name != p[m].name by {
                    assert(r[i].name == rp[i].name);
                }
                assert(is_first_named(r, olds[m].name, j));
            } else {
                assert(olds[m] == o);
            }
        }
    }
}

/// The interfaces appended after the new ones: each is the first of its
/// name, absent from the new configuration and present in the merged
/// one.
proof fn lemma_merge_appended_names(new: Seq<InterfaceView>, olds: Seq<InterfaceView>)
    ensures
        forall|k: int|
            new.len() <= k < merge_all(new, olds).len() ==> {
                &&& is_first_named(
                    merge_all(new, olds),
                    (#[trigger] merge_all(new, olds)[k]).name,
                    k,
                )
                &&& !has_named(new, merge_all(new, olds)[k].name)
                &&& has_named(olds, merge_all(new, olds)[k].name)
            },
    decreases olds.len(),
{
    if olds.len() > 0 {
        let p = olds.drop_last();
        let o = olds.last();
        let last = olds.len() - 1;
        lemma_merge_appended_names(new, p);
        lemma_merge_prefix(new, p);
        let rp = merge_all(new, p);
        let r = merge_all(new, olds);
        assert(r == merge_one(rp, o));
        lemma_merge_one_step(rp, o);
        assert(olds[last] == o);
        assert forall|k: int| new.len() <= k < r.len() implies {
            &&& is_first_named(r, (#[trigger] r[k]).name, k)
            &&& !has_named(new, r[k].name)
            &&& has_named(olds, r[k].name)
        } by {
            if k < rp.len() {
                assert(r[k].name == rp[k].name);
                assert(is_first_named(rp, rp[k].name, k));
                assert forall|i: int| 0 <= i < k implies r[i].name != r[k].name by {
                    assert(r[i].name == rp[i].name);
                }
                let m = choose|m: int| 0 <= m < p.len() && p[m].name == rp[k].name;
                assert(olds[m] == p[m]);
            } else {
                assert(r[k] == o);
                assert forall|i: int| 0 <= i < k implies r[i].name != r[k].name by {
                    assert(r[i].name == rp[i].name);
                    if rp[i].name == o.name {
                        assert(has_named(rp, o.name));
                    }
                }
                if has_named(new, o.name) {
                    let i = choose|i: int| 0 <= i < new.len() && new[i].name == o.name;
                    assert(rp[i].name == new[i].name);
                    assert(has_named(rp, o.name));
                }
            }
        }
    }
}

/// The interfaces appended after the new ones come in order of first
/// occurrence in the previous configuration.
proof fn lemma_merge_appended_order(new: Seq<InterfaceView>, olds: Seq<InterfaceView>)
    ensures
        forall|k1: int, k2: int, m2: int|
            #![trigger olds[m2], merge_all(new, olds)[k1], merge_all(new, olds)[k2]]
            new.len() <= k1 < k2 < merge_all(new, olds).len() && 0 <= m2 < olds.len()
                && olds[m2].name == merge_all(new, olds)[k2].name ==> exists|m1: int|
                0 <= m1 < m2 && (#[trigger] olds[m1]).name == merge_all(new, olds)[k1].name,
    decreases olds.len(),
{
    if olds.len() > 0 {
        let p = olds.drop_last();
        let o = olds.last();
        let last = olds.len() - 1;
        lemma_merge_appended_order(new, p);
        lemma_merge_appended_names(new, p);
        lemma_merge_prefix(new, p);
        lemma_merge_olds_present(new, p);
        let rp = merge_all(new, p);
        let r = merge_all(new, olds);
        assert(r == merge_one(rp, o));
        lemma_merge_one_step(rp, o);
        assert(olds[last] == o);
        assert forall|k1: int, k2: int, m2: int|
            #![trigger olds[m2], r[k1], r[k2]]
            new.len() <= k1 < k2 < r.len() && 0 <= m2 < olds.len() && olds[m2].name
                == r[k2].name implies exists|m1: int|
            0 <= m1 < m2 && (#[trigger] olds[m1]).name == r[k1].name by {
            assert(r[k1].name == rp[k1].name);
            assert(has_named(p, rp[k1].name));
            let m1 = choose|m1: int| 0 <= m1 < p.len() && p[m1].name == rp[k1].name;
            assert(olds[m1] == p[m1]);
            if k2 < rp.len() {
                assert(r[k2].name == rp[k2].name);
                if m2 < last {
                    assert(olds[m2] == p[m2]);
                    assert(p[m2].name == rp[k2].name);
                    let m0 = choose|m0: int| 0 <= m0 < m2 && (#[trigger] p[m0]).name == rp[k1].name;
                    assert(olds[m0] == p[m0]);
                } else {
                    assert(m1 < m2);
                }
            } else {
                assert(r[k2] == o);
                if m2 < last {
                    assert(olds[m2] == p[m2]);
                    let j = choose|j: int|
                        {
                            &&& is_first_named(rp, (#[trigger] p[m2]).name, j)
                            &&& p[m2].udp is Some ==> rp[j].udp is Some
                            &&& p[m2].tcp is Some ==> rp[j].tcp is Some
                        };
                    assert(has_named(rp, o.name));
                } else {
                    assert(m1 < m2);
                }
            }
        }
    }
}

/// The interfaces appended after the new ones: each is the first of its
/// name, absent from the new configuration and present in the merged
/// one; they come in order of first occurrence.
proof fn lemma_merge_appended(new: Seq<InterfaceView>, olds: Seq<InterfaceView>)
    ensures
        forall|k: int|
            new.len() <= k < merge_all(new, olds).len() ==> {
                &&& is_first_named(
                    merge_all(new, olds),
                    (#[trigger] merge_all(new, olds)[k]).name,
                    k,
                )
                &&& !has_named(new, merge_all(new, olds)[k].name)
                &&& has_named(olds, merge_all(new, olds)[k].name)
            },
        forall|k1: int, k2: int, m2: int|
            #![trigger olds[m2], merge_all(new, olds)[k1], merge_all(new, olds)[k2]]
            new.len() <= k1 < k2 < merge_all(new, olds).len() && 0 <= m2 < olds.len()
                && olds[m2].name == merge_all(new, olds)[k2].name ==> exists|m1: int|
                0 <= m1 < m2 && (#[trigger] olds[m1]).name == merge_all(new, olds)[k1].name,
{
    lemma_merge_appended_names(new, olds);
    lemma_merge_appended_order(new, olds);
}

/// Merge law, the new configuration wins: its interfaces stay first, in
/// their order and under their names, and every per-protocol policy
/// they specify is kept unchanged.
pub proof fn law_merge_new_wins(new: Seq<InterfaceView>, previous: Seq<InterfaceView>)
    ensures
        merge_all(new, previous).len() >= new.len(),
        forall|i: int|
            0 <= i < new.len() ==> {
                &&& (#[trigger] merge_all(new, previous)[i]).name == new[i].name
                &&& new[i].udp is Some ==> merge_all(new, previous)[i].udp == new[i].udp
                &&& new[i].tcp is Some ==> merge_all(new, previous)[i].tcp == new[i].tcp
            },
{
    lemma_merge_prefix(new, previous);
}

/// Merge law, nothing of the loaded configuration is dropped: every
/// interface of it is present in the result (first under its name) and
/// has a UDP (TCP) policy whenever the loaded one had.
pub proof fn law_merge_keeps_previous(new: Seq<InterfaceView>, previous: Seq<InterfaceView>)
    ensures
        forall|m: int|
            0 <= m < previous.len() ==> exists|j: int|
                {
                    &&& is_first_named(merge_all(new, previous), (#[trigger] previous[m]).name, j)
                    &&& previous[m].udp is Some ==> merge_all(new, previous)[j].udp is Some
                    &&& previous[m].tcp is Some ==> merge_all(new, previous)[j].tcp is Some
                },
{
    lemma_merge_olds_present(new, previous);
}

/// Merge law, appended interfaces: what follows the new configuration's
/// interfaces are interfaces of the loaded configuration whose names the
/// new one lacks, each name once, in the order of first occurrence in
/// the loaded configuration.
pub proof fn law_merge_appends_in_order(new: Seq<InterfaceView>, previous: Seq<InterfaceView>)
    ensures
        forall|k: int|
            new.len() <= k < merge_all(new, previous).len() ==> {
                &&& is_first_named(
                    merge_all(new, previous),
                    (#[trigger] merge_all(new, previous)[k]).name,
                    k,
                )
                &&& !has_named(new, merge_all(new, previous)[k].name)
                &&& has_named(previous, merge_all(new, previous)[k].name)
            },
        forall|k1: int, k2: int, m2: int|
            #![trigger previous[m2], merge_all(new, previous)[k1], merge_all(new, previous)[k2]]
            new.len() <= k1 < k2 < merge_all(new, previous).len() && 0 <= m2 < previous.len() && previous[m2].name == merge_all(new, previous)[k2].name
                ==> exists|m1: int|
                0 <= m1 < m2 && (#[trigger] previous[m1]).name == merge_all(new, previous)[k1].name,
{
    lemma_merge_appended(new, previous);
}

/// Merging the previous interfaces again into a configuration that
/// already holds each of them (first under its name, with a policy for
/// every protocol they have one for) changes nothing.
proof fn lemma_merge_again_prefix(cur: Seq<InterfaceView>, olds: Seq<InterfaceView>, k: int)
    requires
        0 <= k <= olds.len(),
        forall|m: int|
            0 <= m < olds.len() ==> exists|j: int|
                {
                    &&& is_first_named(cur, (#[trigger] olds[m]).name, j)
                    &&& olds[m].udp is Some ==> cur[j].udp is Some
                    &&& olds[m].tcp is Some ==> cur[j].tcp is Some
                },
    ensures
        merge_all(cur, olds.take(k)) == cur,
    decreases k,
{
    if k > 0 {
        let t = olds.take(k);
        assert(t.drop_last() =~= olds.take(k - 1));
        assert(t.last() == olds[k - 1]);
        lemma_merge_again_prefix(cur, olds, k - 1);
        let o = olds[k - 1];
        let j = choose|j: int|
            {
                &&& is_first_named(cur, (#[trigger] olds[k - 1]).name, j)
                &&& olds[k - 1].udp is Some ==> cur[j].udp is Some
                &&& olds[k - 1].tcp is Some ==> cur[j].tcp is Some
            };
        lemma_merge_one_at(cur, o, j);
        assert(merge_iface(cur[j], o) == cur[j]);
        assert(cur.update(j, cur[j]) =~= cur);
    }
}

/// Merge law, merging the same previous configuration twice is merging
/// it once: after `new.merge(&previous)`, a second `merge(&previous)`
/// leaves the configuration as it is.
pub proof fn law_merge_idempotent(new: Seq<InterfaceView>, previous: Seq<InterfaceView>)
    ensures
        merge_all(merge_all(new, previous), previous) == merge_all(new, previous),
{
    lemma_merge_olds_present(new, previous);
    lemma_merge_again_prefix(merge_all(new, previous), previous, previous.len() as int);
    assert(previous.take(previous.len() as int) =~= previous);
}

/// Top-level action taken on a packet.
#[derive(Debug, Clone, Copy, PartialEq, Eq)]
pub enum Action {
    Pass,
    Drop,
}

/// Userspace wrapper over [`policy::PortKey`] used as a kernel map key.
#[derive(Copy, Clone, Debug, PartialEq, Eq, Hash)]
pub struct PortKeyPod(pub policy::PortKey);

impl From<policy::PortKey> for PortKeyPod {
    fn from(v: policy::PortKey) -> (r: Self) {
        PortKeyPod(v)
    }
}

impl vstd::std_specs::convert::FromSpecImpl<policy::PortKey> for PortKeyPod {
    open spec fn obeys_from_spec() -> bool {
        true
    }

    open spec fn from_spec(v: policy::PortKey) -> Self {
        PortKeyPod(v)
    }
}

impl From<PortKeyPod> for policy::PortKey {
    fn from(v: PortKeyPod) -> (r: Self) {
        v.0
    }
}

impl vstd::std_specs::convert::FromSpecImpl<PortKeyPod> for policy::PortKey {
    open spec fn obeys_from_spec() -> bool {
        true
    }

    open spec fn from_spec(v: PortKeyPod) -> Self {
        v.0
    }
}

} // verus!
