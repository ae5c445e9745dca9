//! The decisions of a scan: which local address to bind, the NEC payload with
//! the local address written into it, and the set of targets that replied.

use vstd::prelude::*;
use std::collections::HashSet;
use crate::addr::IpAddress;

verus! {

broadcast use vstd::std_specs::hash::group_hash_axioms;

/// The unspecified address (all zeros) of the family of `ip`: what a socket
/// that talks to `ip` binds to.
pub fn unspecified_like(ip: IpAddress) -> (res: IpAddress)
    ensures
        res == match ip {
            IpAddress::V4(_) => IpAddress::V4(0),
            IpAddress::V6(_) => IpAddress::V6(0),
        },
{
    match ip {
        IpAddress::V4(_) => IpAddress::V4(0),
        IpAddress::V6(_) => IpAddress::V6(0),
    }
}

/// The local address of the one UDP socket of a scan: IPv6 when the first
/// target is IPv6, IPv4 otherwise (an empty list included).
pub fn udp_bind_address(targets: &Vec<IpAddress>) -> (res: IpAddress)
    ensures
        res == if targets@.len() > 0 && targets@[0] is V6 {
            IpAddress::V6(0)
        } else {
            IpAddress::V4(0)
        },
{
    if targets.len() > 0 {
        unspecified_like(targets[0])
    } else {
        IpAddress::V4(0)
    }
}

/// The NEC discovery payload, before the local address is written into its
/// last four bytes.
pub open spec fn nec_template() -> Seq<u8> {
    seq![0x01u8, 0x01, 0x00, 0x08, 0x01, 0x26, 0x00, 0x8f, 0x0a, 0x17, 0x03, 0xf1]
}

/// The NEC discovery payload template.
pub fn nec_payload() -> (res: Vec<u8>)
    ensures
        res@ == nec_template(),
{
    let res = vec![0x01u8, 0x01, 0x00, 0x08, 0x01, 0x26, 0x00, 0x8f, 0x0a, 0x17, 0x03, 0xf1];
    assert(res@ =~= nec_template());
    res
}

/// The four octets of an IPv4 address, most significant first.
pub open spec fn ipv4_octets(v: u32) -> Seq<u8> {
    seq![
        (v / 0x1000000) as u8,
        (v / 0x10000 % 0x100) as u8,
        (v / 0x100 % 0x100) as u8,
        (v % 0x100) as u8,
    ]
}

/// In NEC mode a payload of at least twelve bytes carries the sender's own
/// address in its last four bytes.
pub open spec fn nec_wants_local_address(is_nec: bool, len: nat) -> bool {
    is_nec && len >= 12
}

/// The payload sent to one target: in NEC mode, when the payload has at least
/// twelve bytes and the local address towards the target is IPv4, its last four
/// bytes are replaced by that address; otherwise it is sent unchanged.
pub open spec fn payload_for_target(payload: Seq<u8>, is_nec: bool, local: Option<IpAddress>) -> Seq<u8> {
    match local {
        Some(IpAddress::V4(v)) => if nec_wants_local_address(is_nec, payload.len()) {
            payload.subrange(0, payload.len() - 4) + ipv4_octets(v)
        } else {
            payload
        },
        _ => payload,
    }
}

/// Whether the payload needs the local address towards a target (see `payload_for_target`).
pub fn needs_local_address(is_nec: bool, payload: &Vec<u8>) -> (res: bool)
    ensures
        res == nec_wants_local_address(is_nec, payload@.len()),
{
    is_nec && payload.len() >= 12
}

/// The payload sent to one target (see `payload_for_target`).
pub fn target_payload(payload: &Vec<u8>, is_nec: bool, local: Option<IpAddress>) -> (res: Vec<u8>)
    ensures
        res@ == payload_for_target(payload@, is_nec, local),
{
    let mut out = payload.clone();
    assert(out@ == payload@);
    if is_nec && out.len() >= 12 {
        if let Some(IpAddress::V4(v)) = local {
            let n = out.len();
            out.set(n - 4, (v / 0x1000000) as u8);
            out.set(n - 3, (v / 0x10000 % 0x100) as u8);
            out.set(n - 2, (v / 0x100 % 0x100) as u8);
            out.set(n - 1, (v % 0x100) as u8);
            assert(out@ =~= payload@.subrange(0, n - 4) + ipv4_octets(v));
        }
    }
    out
}

/// The targets of a scan that have replied, each once, in the order of their
/// first reply.
pub struct ReplyTracker {
    targets_v4: HashSet<u32>,
    targets_v6: HashSet<u128>,
    seen_v4: HashSet<u32>,
    seen_v6: HashSet<u128>,
    found: Vec<IpAddress>,
}

/// `ip` is among the addresses of `v4` and `v6`.
pub open spec fn in_sets(v4: Set<u32>, v6: Set<u128>, ip: IpAddress) -> bool {
    match ip {
        IpAddress::V4(x) => v4.contains(x),
        IpAddress::V6(x) => v6.contains(x),
    }
}

/// What recording a reply from `ip` does to the list of repliers: a target
/// that has not replied yet is added at the end; anything else changes nothing.
pub open spec fn after_reply(found: Seq<IpAddress>, is_target: bool, ip: IpAddress) -> Seq<IpAddress> {
    if is_target && !found.contains(ip) {
        found.push(ip)
    } else {
        found
    }
}

impl ReplyTracker {
    /// `ip` is a target of the scan.
    pub closed spec fn is_target(&self, ip: IpAddress) -> bool {
        in_sets(self.targets_v4@, self.targets_v6@, ip)
    }

    /// The targets that replied, in the order of their first reply.
    pub closed spec fn repliers(&self) -> Seq<IpAddress> {
        self.found@
    }

    /// Every replier is a target and replied once; the seen sets hold the repliers.
    pub closed spec fn wf(&self) -> bool {
        &&& self.found@.no_duplicates()
        &&& forall|i: int| 0 <= i < self.found@.len() ==> self.is_target(#[trigger] self.found@[i])
        &&& forall|ip: IpAddress| #[trigger]
            in_sets(self.seen_v4@, self.seen_v6@, ip) <==> self.found@.contains(ip)
    }

    /// A tracker for the given targets, with no replies yet.
    pub fn new(targets: &Vec<IpAddress>) -> (res: Self)
        ensures
            res.wf(),
            res.repliers() == Seq::<IpAddress>::empty(),
            forall|ip: IpAddress| #[trigger] res.is_target(ip) <==> targets@.contains(ip),
    {
        let mut targets_v4: HashSet<u32> = HashSet::new();
        let mut targets_v6: HashSet<u128> = HashSet::new();
        let mut i: usize = 0;
        while i < targets.len()
            invariant
                i <= targets@.len(),
                forall|ip: IpAddress| #[trigger]
                    in_sets(targets_v4@, targets_v6@, ip) <==> targets@.subrange(
                        0,
                        i as int,
                    ).contains(ip),
            decreases targets@.len() - i,
        {
            let ip = targets[i];
            let ghost old4 = targets_v4@;
            let ghost old6 = targets_v6@;
            match ip {
                IpAddress::V4(x) => {
                    targets_v4.insert(x);
                },
                IpAddress::V6(x) => {
                    targets_v6.insert(x);
                },
            }
            assert forall|a: IpAddress| #[trigger]
                in_sets(targets_v4@, targets_v6@, a) <==> targets@.subrange(0, i + 1).contains(
                    a,
                ) by {
                let pre = targets@.subrange(0, i as int);
                assert(targets@.subrange(0, i + 1) =~= pre.push(ip));
                assert(in_sets(old4, old6, a) <==> pre.contains(a));
                assert(in_sets(targets_v4@, targets_v6@, a) <==> (in_sets(old4, old6, a) || a
                    == ip));
                assert(pre.push(ip)[i as int] == ip);
                if pre.push(ip).contains(a) && a != ip {
                    let k = choose|k: int| 0 <= k < pre.push(ip).len() && pre.push(ip)[k] == a;
                    assert(pre[k] == a);
                }
                if pre.contains(a) {
                    let k = choose|k: int| 0 <= k < pre.len() && pre[k] == a;
                    assert(pre.push(ip)[k] == a);
                }
            }
            i = i + 1;
        }
        assert(targets@.subrange(0, targets@.len() as int) =~= targets@);
        let res = ReplyTracker {
            targets_v4,
            targets_v6,
            seen_v4: HashSet::new(),
            seen_v6: HashSet::new(),
            found: Vec::new(),
        };
        assert(res.found@ =~= Seq::<IpAddress>::empty());
        res
    }

    /// Records a reply from `ip`; returns whether it was a target's first reply.
    pub fn record(&mut self, ip: IpAddress) -> (res: bool)
        requires
            old(self).wf(),
        ensures
            final(self).wf(),
            forall|a: IpAddress| #[trigger] final(self).is_target(a) == old(self).is_target(a),
            final(self).repliers() == after_reply(old(self).repliers(), old(self).is_target(ip), ip),
            res == (old(self).is_target(ip) && !old(self).repliers().contains(ip)),
    {
        let target = match ip {
            IpAddress::V4(x) => self.targets_v4.contains(&x),
            IpAddress::V6(x) => self.targets_v6.contains(&x),
        };
        if !target {
            return false;
        }
        let ghost old_seen4 = self.seen_v4@;
        let ghost old_seen6 = self.seen_v6@;
        assert(in_sets(old_seen4, old_seen6, ip) <==> old(self).found@.contains(ip));
        let fresh = match ip {
            IpAddress::V4(x) => self.seen_v4.insert(x),
            IpAddress::V6(x) => self.seen_v6.insert(x),
        };
        assert(fresh == !old(self).found@.contains(ip));
        assert(self.is_target(ip));
        if !fresh {
            assert(self.seen_v4@ =~= old_seen4);
            assert(self.seen_v6@ =~= old_seen6);
        }
        if fresh {
            let ghost old_found = self.found@;
            self.found.push(ip);
            assert forall|a: IpAddress| #[trigger]
                in_sets(self.seen_v4@, self.seen_v6@, a) <==> self.found@.contains(a) by {
                assert(in_sets(old_seen4, old_seen6, a) <==> old_found.contains(a));
                assert(in_sets(self.seen_v4@, self.seen_v6@, a) <==> (in_sets(
                    old_seen4,
                    old_seen6,
                    a,
                ) || a == ip));
                if a != ip {
                    if old_found.contains(a) {
                        let k = choose|k: int| 0 <= k < old_found.len() && old_found[k] == a;
                        assert(self.found@[k] == a);
                    }
                    if self.found@.contains(a) {
                        let k = choose|k: int| 0 <= k < self.found@.len() && self.found@[k] == a;
                        assert(k < old_found.len());
                        assert(old_found[k] == a);
                    }
                } else {
                    assert(self.found@[old_found.len() as int] == ip);
                }
            }
            assert forall|i: int, j: int|
                0 <= i < self.found@.len() && 0 <= j < self.found@.len() && i != j implies self.found@[i]
                != self.found@[j] by {
                if i == old_found.len() {
                    assert(self.found@[i] == ip);
                    assert(old_found[j] == self.found@[j]);
                } else if j == old_found.len() {
                    assert(self.found@[j] == ip);
                    assert(old_found[i] == self.found@[i]);
                } else {
                    assert(old_found[i] == self.found@[i] && old_found[j] == self.found@[j]);
                }
            }
        }
        fresh
    }

    /// The targets that replied, in the order of their first reply.
    pub fn replied(&self) -> (res: Vec<IpAddress>)
        ensures
            res@ == self.repliers(),
    {
        self.found.clone()
    }
}

} // verus!
