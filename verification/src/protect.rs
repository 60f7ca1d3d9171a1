//! TCP ACK flood protection: the per-source sequence tracker
//! (`TCP_ACK_ISN_TRACKER`) and the decision taken on each TCP packet of
//! an interface where the protection is enabled.

use crate::enforce::{
    keys_distinct, lemma_map_get_distinct, lemma_map_get_some_iff, map_get_u32, spec_map_get,
    XDP_DROP,
};
use crate::plan::{MapPlan, MapPlanView};
use crate::policy::MAX_TCP_ACK_ISN_ENTRIES;
use vstd::prelude::*;

verus! {

/// The entries of a tracker, each address by its view.
pub open spec fn tracker_entries(s: Seq<([u8; 4], u32)>) -> Seq<(Seq<u8>, u32)> {
    s.map_values(|e: ([u8; 4], u32)| (e.0@, e.1))
}

/// The addresses of the entries, in order.
pub open spec fn entry_keys(s: Seq<(Seq<u8>, u32)>) -> Seq<Seq<u8>> {
    s.map_values(|e: (Seq<u8>, u32)| e.0)
}

/// A hash map of bounded capacity from source address to the last
/// sequence number seen from it, as the kernel's `BPF_MAP_TYPE_HASH`
/// holds it: an insert of a new key into a full map fails and leaves the
/// map unchanged.
pub struct AckTracker {
    entries: Vec<([u8; 4], u32)>,
}

/// `m` after a kernel hash-map insert of `k => v` with capacity
/// `MAX_TCP_ACK_ISN_ENTRIES`.
pub open spec fn spec_track(m: Map<Seq<u8>, u32>, k: Seq<u8>, v: u32) -> Map<Seq<u8>, u32> {
    if m.contains_key(k) || m.dom().len() < MAX_TCP_ACK_ISN_ENTRIES {
        m.insert(k, v)
    } else {
        m
    }
}

impl View for AckTracker {
    type V = Map<Seq<u8>, u32>;

    closed spec fn view(&self) -> Map<Seq<u8>, u32> {
        Map::new(
            |k: Seq<u8>| spec_map_get(tracker_entries(self.entries@), k) is Some,
            |k: Seq<u8>| spec_map_get(tracker_entries(self.entries@), k).unwrap(),
        )
    }
}

impl AckTracker {
    /// The tracker holds at most `MAX_TCP_ACK_ISN_ENTRIES` entries, no
    /// address twice.
    pub closed spec fn wf(&self) -> bool {
        &&& self.entries.len() <= MAX_TCP_ACK_ISN_ENTRIES
        &&& keys_distinct(tracker_entries(self.entries@))
    }

    proof fn lemma_view(&self)
        requires
            self.wf(),
        ensures
            forall|i: int|
                0 <= i < self.entries.len() ==> #[trigger] self@.contains_key(self.entries@[i].0@)
                    && self@[self.entries@[i].0@] == self.entries@[i].1,
            forall|k: Seq<u8>|
                #[trigger] self@.contains_key(k) ==> exists|i: int|
                    0 <= i < self.entries.len() && self.entries@[i].0@ == k,
            self@.dom() == entry_keys(tracker_entries(self.entries@)).to_set(),
            self@.dom().finite(),
            self@.dom().len() == self.entries.len(),
    {
        let ev = tracker_entries(self.entries@);
        let ks = entry_keys(ev);
        assert forall|i: int| 0 <= i < self.entries.len() implies #[trigger] self@.contains_key(
            self.entries@[i].0@,
        ) && self@[self.entries@[i].0@] == self.entries@[i].1 by {
            assert(ev[i] == (self.entries@[i].0@, self.entries@[i].1));
            lemma_map_get_distinct(ev, i);
        }
        assert forall|k: Seq<u8>| #[trigger] self@.contains_key(k) implies exists|i: int|
            0 <= i < self.entries.len() && self.entries@[i].0@ == k by {
            lemma_map_get_some_iff(ev, k);
            let i = choose|i: int| 0 <= i < ev.len() && ev[i].0 == k;
            assert(ev[i] == (self.entries@[i].0@, self.entries@[i].1));
        }
        assert forall|k: Seq<u8>| self@.dom().contains(k) <==> ks.to_set().contains(k) by {
            lemma_map_get_some_iff(ev, k);
            if ks.contains(k) {
                let i = choose|i: int| 0 <= i < ks.len() && ks[i] == k;
                assert(ev[i].0 == ks[i]);
            }
            if exists|i: int| 0 <= i < ev.len() && ev[i].0 == k {
                let i = choose|i: int| 0 <= i < ev.len() && ev[i].0 == k;
                assert(ks[i] == k);
            }
        }
        assert(self@.dom() =~= ks.to_set());
        assert(ks.no_duplicates()) by {
            assert forall|i: int, j: int| 0 <= i < ks.len() && 0 <= j < ks.len() && i != j implies ks[i]
                != ks[j] by {
                assert(ks[i] == ev[i].0);
                assert(ks[j] == ev[j].0);
            }
        }
        ks.unique_seq_to_set();
        vstd::seq_lib::seq_to_set_is_finite(ks);
    }

    /// An empty tracker.
    pub fn new() -> (r: Self)
        ensures
            r.wf(),
            r@ == Map::<Seq<u8>, u32>::empty(),
    {
        let r = AckTracker { entries: Vec::new() };
        assert(r@ =~= Map::<Seq<u8>, u32>::empty());
        r
    }

    /// Index of the entry for `key`, if any.
    fn find(&self, key: &[u8; 4]) -> (r: Option<usize>)
        requires
            self.wf(),
        ensures
            match r {
                Some(i) => i < self.entries.len() && self.entries@[i as int].0@ == key@,
                None => forall|i: int| 0 <= i < self.entries.len() ==> self.entries@[i].0@ != key@,
            },
    {
        let mut i: usize = 0;
        while i < self.entries.len()
            invariant
                i <= self.entries.len(),
                forall|j: int| 0 <= j < i ==> self.entries@[j].0@ != key@,
            decreases self.entries.len() - i,
        {
            let e = &self.entries[i].0;
            if e[0] == key[0] && e[1] == key[1] && e[2] == key[2] && e[3] == key[3] {
                assert(e@ =~= key@);
                return Some(i);
            }
            assert(e@ != key@) by {
                if e@ == key@ {
                    assert(e@[0] == key@[0] && e@[1] == key@[1] && e@[2] == key@[2] && e@[3]
                        == key@[3]);
                }
            }
            i = i + 1;
        }
        None
    }

    /// The sequence number stored for `key`.
    pub fn get(&self, key: &[u8; 4]) -> (r: Option<u32>)
        requires
            self.wf(),
        ensures
            r == (if self@.contains_key(key@) {
                Some(self@[key@])
            } else {
                None
            }),
    {
        proof {
            self.lemma_view();
        }
        match self.find(key) {
            Some(i) => {
                assert(self@.contains_key(self.entries@[i as int].0@));
                Some(self.entries[i].1)
            },
            None => None,
        }
    }

    /// Store `value` for `key`, as a kernel hash-map insert does: an
    /// existing entry is replaced; a new key is added only while the map
    /// has room. Returns whether the value was stored.
    pub fn insert(&mut self, key: [u8; 4], value: u32) -> (r: bool)
        requires
            old(self).wf(),
        ensures
            final(self).wf(),
            final(self)@ == spec_track(old(self)@, key@, value),
            r == (old(self)@.contains_key(key@) || old(self)@.dom().len() < MAX_TCP_ACK_ISN_ENTRIES),
    {
        proof {
            self.lemma_view();
        }
        let ghost old_map = self@;
        match self.find(&key) {
            Some(i) => {
                assert(old_map.contains_key(key@)) by {
                    assert(old_map.contains_key(self.entries@[i as int].0@));
                }
                self.entries.set(i, (key, value));
                proof {
                    let ev = tracker_entries(self.entries@);
                    assert(keys_distinct(ev)) by {
                        assert forall|a: int, b: int|
                            0 <= a < ev.len() && 0 <= b < ev.len() && a != b implies ev[a].0
                            != ev[b].0 by {
                            assert(old(self).entries@[a].0@ == ev[a].0 || a == i);
                            assert(old(self).entries@[b].0@ == ev[b].0 || b == i);
                            assert(tracker_entries(old(self).entries@)[a].0 == old(
                                self,
                            ).entries@[a].0@);
                            assert(tracker_entries(old(self).entries@)[b].0 == old(
                                self,
                            ).entries@[b].0@);
                        }
                    }
                    self.lemma_view();
                    assert forall|k: Seq<u8>| self@.contains_key(k) <==> old_map.insert(
                        key@,
                        value,
                    ).contains_key(k) by {
                        if self@.contains_key(k) {
                            let j = choose|j: int|
                                0 <= j < self.entries.len() && self.entries@[j].0@ == k;
                            if j != i {
                                assert(old(self).entries@[j] == self.entries@[j]);
                                assert(old_map.contains_key(old(self).entries@[j].0@));
                            }
                        }
                        if old_map.contains_key(k) && k != key@ {
                            let j = choose|j: int|
                                0 <= j < old(self).entries.len() && old(self).entries@[j].0@ == k;
                            assert(j != i);
                            assert(old(self).entries@[j] == self.entries@[j]);
                            assert(self@.contains_key(self.entries@[j].0@));
                        }
                        if k == key@ {
                            assert(self@.contains_key(self.entries@[i as int].0@));
                        }
                    }
                    assert forall|k: Seq<u8>| #[trigger] self@.contains_key(k) implies self@[k]
                        == old_map.insert(key@, value)[k] by {
                        let j = choose|j: int|
                            0 <= j < self.entries.len() && self.entries@[j].0@ == k;
                        assert(self@.contains_key(self.entries@[j].0@));
                        if j != i {
                            assert(old(self).entries@[j] == self.entries@[j]);
                            assert(old_map.contains_key(old(self).entries@[j].0@));
                            assert(ev[j].0 != ev[i as int].0);
                        }
                    }
                    assert(self@ =~= old_map.insert(key@, value));
                }
                true
            },
            None => {
                if self.entries.len() < MAX_TCP_ACK_ISN_ENTRIES as usize {
                    self.entries.push((key, value));
                    proof {
                        let ev = tracker_entries(self.entries@);
                        let oev = tracker_entries(old(self).entries@);
                        assert(ev =~= oev.push((key@, value)));
                        assert(keys_distinct(ev)) by {
                            assert forall|a: int, b: int|
                                0 <= a < ev.len() && 0 <= b < ev.len() && a != b implies ev[a].0
                                != ev[b].0 by {
                                if a < oev.len() {
                                    assert(ev[a] == oev[a]);
                                    assert(oev[a].0 == old(self).entries@[a].0@);
                                }
                                if b < oev.len() {
                                    assert(ev[b] == oev[b]);
                                    assert(oev[b].0 == old(self).entries@[b].0@);
                                }
                            }
                        }
                        assert forall|k: Seq<u8>|
                            spec_map_get(ev, k) == (if k == key@ {
                                Some(value)
                            } else {
                                spec_map_get(oev, k)
                            }) by {
                            assert(ev.drop_last() =~= oev);
                        }
                        assert(self@ =~= old_map.insert(key@, value));
                    }
                    true
                } else {
                    assert(!old_map.contains_key(key@)) by {
                        if old_map.contains_key(key@) {
                            let j = choose|j: int|
                                0 <= j < old(self).entries.len() && old(self).entries@[j].0@
                                    == key@;
                        }
                    }
                    false
                }
            },
        }
    }
}

/// ACK flood protection is enabled on `ifindex`
/// (`TCP_ACK_FLOOD_PROT_ENABLED` holds a non-zero value for it).
pub open spec fn spec_ack_flood_enabled(p: MapPlanView, ifindex: u32) -> bool {
    p.ack_flood.contains(ifindex)
}

/// Outgoing TCP connections are allowed on `ifindex`.
pub open spec fn spec_allow_outgoing(p: MapPlanView, ifindex: u32) -> bool {
    match spec_map_get(p.tcp_iface_default, ifindex) {
        Some(v) => v != 0,
        None => false,
    }
}

/// The largest forward distance between the tracked and the current
/// sequence number of a source that is still accepted.
pub const TCP_ACK_MAX_WINDOW: u32 = 0xffff;

/// The verdict of the ACK flood protection on a TCP packet from `src`
/// with flags `syn`/`ack` and sequence number `seq`, and the tracker
/// after it: `Some(code)` decides the packet, `None` hands it on to the
/// regular TCP filter.
pub open spec fn spec_protect(
    p: MapPlanView,
    ifindex: u32,
    src: Seq<u8>,
    syn: bool,
    ack: bool,
    seq: u32,
    t: Map<Seq<u8>, u32>,
) -> (Option<u32>, Map<Seq<u8>, u32>) {
    if !spec_ack_flood_enabled(p, ifindex) {
        (None, t)
    } else if syn {
        if ack && !spec_allow_outgoing(p, ifindex) {
            (None, t)
        } else {
            (None, spec_track(t, src, seq))
        }
    } else if !t.contains_key(src) {
        (Some(XDP_DROP), t)
    } else if seq.wrapping_sub(t[src]) > TCP_ACK_MAX_WINDOW {
        (Some(XDP_DROP), t)
    } else {
        (None, spec_track(t, src, seq))
    }
}

fn contains_u32(v: &Vec<u32>, x: u32) -> (r: bool)
    ensures
        r == v@.contains(x),
{
    let mut i: usize = 0;
    while i < v.len()
        invariant
            i <= v.len(),
            forall|j: int| 0 <= j < i ==> v@[j] != x,
        decreases v.len() - i,
    {
        if v[i] == x {
            assert(v@[i as int] == x);
            return true;
        }
        i = i + 1;
    }
    false
}

/// TCP ACK flood protection, run before the regular TCP filter.
///
/// * A SYN records its sequence number for the source, except a SYN-ACK
///   on an interface that does not allow outgoing connections, which is
///   skipped: nothing is recorded and the regular filter decides.
/// * Any other packet from a source with no recorded sequence number is
///   dropped; one whose sequence number is more than
///   [`TCP_ACK_MAX_WINDOW`] past the recorded one (wrapping) is dropped;
///   otherwise its sequence number becomes the recorded one.
pub fn protect_tcp_ack_flood(
    plan: &MapPlan,
    ifindex: u32,
    src_ip: [u8; 4],
    syn: bool,
    ack: bool,
    seq: u32,
    tracker: &mut AckTracker,
) -> (r: Option<u32>)
    requires
        old(tracker).wf(),
    ensures
        final(tracker).wf(),
        (r, final(tracker)@) == spec_protect(plan@, ifindex, src_ip@, syn, ack, seq, old(tracker)@),
{
    if !contains_u32(&plan.ack_flood, ifindex) {
        return None;
    }
    let allow_outgoing = match map_get_u32(&plan.tcp_iface_default, ifindex) {
        Some(v) => v != 0,
        None => false,
    };
    if syn {
        if ack && !allow_outgoing {
            return None;
        }
        let _ = tracker.insert(src_ip, seq);
        return None;
    }
    match tracker.get(&src_ip) {
        Some(pre_seq) => {
            let delta = seq.wrapping_sub(pre_seq);
            if delta > TCP_ACK_MAX_WINDOW {
                return Some(XDP_DROP);
            }
            let _ = tracker.insert(src_ip, seq);
            None
        },
        None => Some(XDP_DROP),
    }
}

/// A tracker never holds more than `MAX_TCP_ACK_ISN_ENTRIES` addresses.
pub proof fn law_tracker_bounded(t: &AckTracker)
    requires
        t.wf(),
    ensures
        t@.dom().finite(),
        t@.dom().len() <= MAX_TCP_ACK_ISN_ENTRIES,
{
    t.lemma_view();
}

} // verus!
