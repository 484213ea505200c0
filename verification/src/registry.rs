//! The server-side peer registry: who is in the session, where to reach
//! them, and when they were last heard from.
//!
//! The registry is owned by the relay's single processing loop, so it
//! needs no locking; every operation is a plain function of the old state
//! and the clock reading passed in by the caller. Names are the session
//! identity: no two records ever share a name, and the peer that created
//! the very first record (the host's own loopback entry) is the owner,
//! which a sweep never evicts.

use vstd::prelude::*;
use crate::codec::{bytes_wf, lemma_names_deep_view_v};

verus! {

/// Byte-string equality, usable from verified code.
pub fn bytes_eq(a: &Vec<u8>, b: &Vec<u8>) -> (r: bool)
    ensures
        r == (a@ == b@),
{
    if a.len() != b.len() {
        return false;
    }
    let mut i: usize = 0;
    while i < a.len()
        invariant
            a@.len() == b@.len(),
            i <= a@.len(),
            forall|k: int| 0 <= k < i ==> a@[k] == b@[k],
        decreases a@.len() - i,
    {
        if a[i] != b[i] {
            return false;
        }
        i += 1;
    }
    proof {
        assert(a@ =~= b@);
    }
    true
}

/// A byte-for-byte copy of a byte string.
pub fn copy_bytes(v: &Vec<u8>) -> (r: Vec<u8>)
    ensures
        r@ == v@,
{
    let mut out: Vec<u8> = Vec::new();
    out.extend_from_slice(v.as_slice());
    proof {
        assert(out@ =~= v@);
    }
    out
}

/// One known client: its session name, the address it receives on, and
/// the clock reading of the last message that proved it alive.
pub struct PeerRecord {
    pub name: Vec<u8>,
    pub address: Vec<u8>,
    pub last_seen: u64,
}

/// The mathematical shadow of `PeerRecord`.
pub struct PeerV {
    pub name: Seq<u8>,
    pub address: Seq<u8>,
    pub last_seen: u64,
}

impl View for PeerRecord {
    type V = PeerV;

    open spec fn view(&self) -> PeerV {
        PeerV { name: self.name@, address: self.address@, last_seen: self.last_seen }
    }
}

/// Some record in `peers` carries `name`.
pub open spec fn has_name(peers: Seq<PeerV>, name: Seq<u8>) -> bool {
    exists|i: int| 0 <= i < peers.len() && #[trigger] peers[i].name == name
}

/// The index of the record carrying `name` (unique when names are unique).
pub open spec fn index_of_name(peers: Seq<PeerV>, name: Seq<u8>) -> int {
    choose|i: int| 0 <= i < peers.len() && #[trigger] peers[i].name == name
}

/// The registry owned by the relay loop.
pub struct Registry {
    pub owner: Option<Vec<u8>>,
    pub peers: Vec<PeerRecord>,
}

/// The mathematical shadow of `Registry`.
pub struct RegistryV {
    pub owner: Option<Seq<u8>>,
    pub peers: Seq<PeerV>,
}

impl View for Registry {
    type V = RegistryV;

    open spec fn view(&self) -> RegistryV {
        RegistryV {
            owner: if self.owner is Some {
                Option::Some(self.owner->Some_0@)
            } else {
                Option::None
            },
            peers: Seq::new(self.peers@.len(), |i: int| self.peers@[i]@),
        }
    }
}

/// Registry well-formedness: names are unique session identities, every
/// name and address fits a datagram field, and an owner exists as soon as
/// any record does.
pub open spec fn registry_wf(r: RegistryV) -> bool {
    &&& forall|i: int, j: int|
        0 <= i < j < r.peers.len() ==> (#[trigger] r.peers[i].name) != (#[trigger] r.peers[j].name)
    &&& forall|i: int|
        0 <= i < r.peers.len() ==> bytes_wf(#[trigger] r.peers[i].name) && bytes_wf(
            r.peers[i].address,
        )
    &&& (r.owner is None ==> r.peers.len() == 0)
    &&& (r.owner matches Some(o) ==> bytes_wf(o))
}

/// What `register` does: the record for `name` is overwritten in place or
/// appended, its `last_seen` set to `now`; the first registration ever
/// also seats the owner.
pub open spec fn spec_register(r: RegistryV, name: Seq<u8>, address: Seq<u8>, now: u64) -> RegistryV {
    let owner = if r.peers.len() == 0 {
        Some(name)
    } else {
        r.owner
    };
    let rec = PeerV { name: name, address: address, last_seen: now };
    if has_name(r.peers, name) {
        RegistryV { owner, peers: r.peers.update(index_of_name(r.peers, name), rec) }
    } else {
        RegistryV { owner, peers: r.peers.push(rec) }
    }
}

/// What `touch` does: refresh `last_seen` of the record for `name`; a
/// name no longer registered is ignored, not an error.
pub open spec fn spec_touch(r: RegistryV, name: Seq<u8>, now: u64) -> RegistryV {
    if has_name(r.peers, name) {
        let i = index_of_name(r.peers, name);
        RegistryV {
            owner: r.owner,
            peers: r.peers.update(
                i,
                PeerV { name: r.peers[i].name, address: r.peers[i].address, last_seen: now },
            ),
        }
    } else {
        r
    }
}

/// A peer is stale once strictly more than `timeout` has elapsed since it
/// was last seen.
pub open spec fn peer_expired(p: PeerV, timeout: u64, now: u64) -> bool {
    p.last_seen + timeout < now
}

/// A sweep keeps a peer that is still fresh — and always the owner.
pub open spec fn peer_kept(p: PeerV, owner: Option<Seq<u8>>, timeout: u64, now: u64) -> bool {
    !peer_expired(p, timeout, now) || owner == Some(p.name)
}

/// The records a sweep leaves in place, in registry order.
pub open spec fn kept_peers(
    peers: Seq<PeerV>,
    owner: Option<Seq<u8>>,
    timeout: u64,
    now: u64,
) -> Seq<PeerV>
    decreases peers.len(),
{
    if peers.len() == 0 {
        Seq::empty()
    } else {
        let rest = kept_peers(peers.drop_last(), owner, timeout, now);
        if peer_kept(peers.last(), owner, timeout, now) {
            rest.push(peers.last())
        } else {
            rest
        }
    }
}

/// The names a sweep evicts, in registry order.
pub open spec fn evicted_names(
    peers: Seq<PeerV>,
    owner: Option<Seq<u8>>,
    timeout: u64,
    now: u64,
) -> Seq<Seq<u8>>
    decreases peers.len(),
{
    if peers.len() == 0 {
        Seq::empty()
    } else {
        let rest = evicted_names(peers.drop_last(), owner, timeout, now);
        if peer_kept(peers.last(), owner, timeout, now) {
            rest
        } else {
            rest.push(peers.last().name)
        }
    }
}

impl Registry {
    pub open spec fn wf(&self) -> bool {
        registry_wf(self@)
    }

    /// An empty registry: no peers, no owner yet.
    pub fn new() -> (r: Registry)
        ensures
            r.wf(),
            r@.peers.len() == 0,
            r@.owner is None,
    {
        let r = Registry { owner: None, peers: Vec::new() };
        proof {
            assert(r@.peers =~= Seq::<PeerV>::empty());
        }
        r
    }

    /// The index of the record named `name`, if one is registered.
    fn find(&self, name: &Vec<u8>) -> (r: Option<usize>)
        ensures
            match r {
                Some(i) => i < self@.peers.len() && self@.peers[i as int].name == name@,
                None => !has_name(self@.peers, name@),
            },
    {
        let mut i: usize = 0;
        while i < self.peers.len()
            invariant
                i <= self@.peers.len(),
                self@.peers.len() == self.peers@.len(),
                forall|k: int| 0 <= k < i ==> (#[trigger] self@.peers[k].name) != name@,
            decreases self.peers@.len() - i,
        {
            if bytes_eq(&self.peers[i].name, name) {
                return Some(i);
            }
            i += 1;
        }
        None
    }

    /// Inserts or overwrites the record for `name`: last registration
    /// wins. The very first registration seats the owner.
    pub fn register(&mut self, name: Vec<u8>, address: Vec<u8>, now: u64)
        requires
            old(self).wf(),
            bytes_wf(name@),
            bytes_wf(address@),
        ensures
            final(self).wf(),
            final(self)@ == spec_register(old(self)@, name@, address@, now),
    {
        let ghost r0 = self@;
        if self.peers.len() == 0 {
            let mut owner_name: Vec<u8> = Vec::new();
            owner_name.extend_from_slice(name.as_slice());
            proof {
                assert(owner_name@ =~= name@);
            }
            self.owner = Some(owner_name);
        }
        let found = self.find(&name);
        match found {
            Some(i) => {
                let rec = PeerRecord { name, address, last_seen: now };
                let slot = vstd::std_specs::vec::vec_index_mut(&mut self.peers, i);
                *slot = rec;
                proof {
                    let j = index_of_name(r0.peers, name@);
                    assert(0 <= j < r0.peers.len() && r0.peers[j].name == name@);
                    assert(j == i as int);
                    assert(self@.peers =~= r0.peers.update(
                        i as int,
                        PeerV { name: name@, address: address@, last_seen: now },
                    ));
                }
            },
            None => {
                self.peers.push(PeerRecord { name, address, last_seen: now });
                proof {
                    assert(self@.peers =~= r0.peers.push(
                        PeerV { name: name@, address: address@, last_seen: now },
                    ));
                }
            },
        }
    }

    /// Refreshes the liveness stamp of `name`; unknown names are ignored
    /// (an expired peer must rejoin).
    pub fn touch(&mut self, name: &Vec<u8>, now: u64)
        requires
            old(self).wf(),
        ensures
            final(self).wf(),
            final(self)@ == spec_touch(old(self)@, name@, now),
    {
        let ghost r0 = self@;
        match self.find(name) {
            Some(i) => {
                let slot = vstd::std_specs::vec::vec_index_mut(&mut self.peers, i);
                slot.last_seen = now;
                proof {
                    let j = index_of_name(r0.peers, name@);
                    assert(0 <= j < r0.peers.len() && r0.peers[j].name == name@);
                    assert(j == i as int);
                    assert(self@.peers =~= r0.peers.update(
                        j,
                        PeerV {
                            name: r0.peers[j].name,
                            address: r0.peers[j].address,
                            last_seen: now,
                        },
                    ));
                }
            },
            None => {
                proof {
                    assert(self@.peers =~= r0.peers);
                }
            },
        }
    }

    /// Removes every stale record except the owner's and returns the
    /// evicted names, in registry order, for departure broadcasts.
    pub fn sweep(&mut self, timeout: u64, now: u64) -> (evicted: Vec<Vec<u8>>)
        requires
            old(self).wf(),
        ensures
            final(self).wf(),
            final(self)@.owner == old(self)@.owner,
            final(self)@.peers == kept_peers(old(self)@.peers, old(self)@.owner, timeout, now),
            evicted.deep_view() == evicted_names(
                old(self)@.peers,
                old(self)@.owner,
                timeout,
                now,
            ),
    {
        let ghost r0 = self@;
        let mut kept: Vec<PeerRecord> = Vec::new();
        let mut out: Vec<Vec<u8>> = Vec::new();
        let n = self.peers.len();
        let mut i: usize = 0;
        proof {
            assert(Seq::new(kept@.len(), |k: int| kept@[k]@) =~= kept_peers(
                r0.peers.take(0),
                r0.owner,
                timeout,
                now,
            ));
            assert(out.deep_view() =~= evicted_names(r0.peers.take(0), r0.owner, timeout, now));
        }
        while i < n
            invariant
                i <= n,
                n == self.peers@.len(),
                self@ == r0,
                registry_wf(r0),
                Seq::new(kept@.len(), |k: int| kept@[k]@) == kept_peers(
                    r0.peers.take(i as int),
                    r0.owner,
                    timeout,
                    now,
                ),
                out.deep_view() == evicted_names(r0.peers.take(i as int), r0.owner, timeout, now),
            decreases n - i,
        {
            let ghost kept0 = kept;
            let ghost out0 = out;
            let p = &self.peers[i];
            let stale = match p.last_seen.checked_add(timeout) {
                Some(deadline) => deadline < now,
                None => false,
            };
            let exempt = match &self.owner {
                Some(o) => bytes_eq(o, &p.name),
                None => false,
            };
            proof {
                assert(r0.peers.take(i as int + 1).drop_last() =~= r0.peers.take(i as int));
                assert(r0.peers.take(i as int + 1).last() == r0.peers[i as int]);
                assert((stale && !exempt) == !peer_kept(
                    r0.peers[i as int],
                    r0.owner,
                    timeout,
                    now,
                ));
            }
            if stale && !exempt {
                let mut evicted_name: Vec<u8> = Vec::new();
                evicted_name.extend_from_slice(p.name.as_slice());
                proof {
                    assert(evicted_name@ =~= r0.peers[i as int].name);
                }
                out.push(evicted_name);
                proof {
                    lemma_names_deep_view_v(out0);
                    lemma_names_deep_view_v(out);
                    assert(out.deep_view() =~= out0.deep_view().push(r0.peers[i as int].name));
                    assert(Seq::new(kept@.len(), |k: int| kept@[k]@) == kept_peers(
                        r0.peers.take(i as int + 1),
                        r0.owner,
                        timeout,
                        now,
                    ));
                }
            } else {
                let mut kept_name: Vec<u8> = Vec::new();
                kept_name.extend_from_slice(p.name.as_slice());
                let mut kept_address: Vec<u8> = Vec::new();
                kept_address.extend_from_slice(p.address.as_slice());
                let rec = PeerRecord { name: kept_name, address: kept_address, last_seen: p.last_seen };
                proof {
                    assert(rec@.name =~= r0.peers[i as int].name);
                    assert(rec@.address =~= r0.peers[i as int].address);
                    assert(rec@ == r0.peers[i as int]);
                }
                kept.push(rec);
                proof {
                    assert(Seq::new(kept@.len(), |k: int| kept@[k]@) =~= Seq::new(
                        kept0@.len(),
                        |k: int| kept0@[k]@,
                    ).push(r0.peers[i as int]));
                    assert(out.deep_view() == evicted_names(
                        r0.peers.take(i as int + 1),
                        r0.owner,
                        timeout,
                        now,
                    ));
                }
            }
            i += 1;
        }
        proof {
            assert(r0.peers.take(n as int) =~= r0.peers);
        }
        self.peers = kept;
        proof {
            lemma_kept_peers_wf(r0.peers, r0.owner, timeout, now);
        }
        out
    }

    /// A snapshot of every registered address, in registry order, for
    /// broadcast fan-out.
    pub fn broadcast_targets(&self) -> (r: Vec<Vec<u8>>)
        ensures
            r.deep_view() == self@.peers.map_values(|p: PeerV| p.address),
    {
        let mut out: Vec<Vec<u8>> = Vec::new();
        let mut i: usize = 0;
        proof {
            assert(out.deep_view() =~= self@.peers.take(0).map_values(|p: PeerV| p.address));
        }
        while i < self.peers.len()
            invariant
                i <= self.peers@.len(),
                out.deep_view() == self@.peers.take(i as int).map_values(|p: PeerV| p.address),
            decreases self.peers@.len() - i,
        {
            let ghost out0 = out;
            let mut address: Vec<u8> = Vec::new();
            address.extend_from_slice(self.peers[i].address.as_slice());
            proof {
                assert(address@ =~= self@.peers[i as int].address);
            }
            out.push(address);
            proof {
                lemma_names_deep_view_v(out0);
                lemma_names_deep_view_v(out);
                assert(out.deep_view() =~= out0.deep_view().push(self@.peers[i as int].address));
                assert(self@.peers.take(i as int + 1).map_values(|p: PeerV| p.address) =~= self@
                    .peers.take(i as int).map_values(|p: PeerV| p.address).push(
                    self@.peers[i as int].address,
                ));
            }
            i += 1;
        }
        proof {
            assert(self@.peers.take(self@.peers.len() as int) =~= self@.peers);
        }
        out
    }

    /// The number of registered peers.
    pub fn len(&self) -> (r: usize)
        ensures
            r == self@.peers.len(),
    {
        self.peers.len()
    }
}

/// Every record a sweep keeps was registered before it, so a sweep
/// preserves name uniqueness and field well-formedness.
proof fn lemma_kept_peers_wf(peers: Seq<PeerV>, owner: Option<Seq<u8>>, timeout: u64, now: u64)
    requires
        forall|i: int, j: int|
            0 <= i < j < peers.len() ==> (#[trigger] peers[i].name) != (#[trigger] peers[j].name),
        forall|i: int|
            0 <= i < peers.len() ==> bytes_wf(#[trigger] peers[i].name) && bytes_wf(
                peers[i].address,
            ),
    ensures
        forall|k: int|
            0 <= k < kept_peers(peers, owner, timeout, now).len() ==> peers.contains(
                #[trigger] kept_peers(peers, owner, timeout, now)[k],
            ),
        forall|i: int, j: int|
            0 <= i < j < kept_peers(peers, owner, timeout, now).len() ==> (#[trigger] kept_peers(
                peers,
                owner,
                timeout,
                now,
            )[i].name) != (#[trigger] kept_peers(peers, owner, timeout, now)[j].name),
        forall|i: int|
            0 <= i < kept_peers(peers, owner, timeout, now).len() ==> bytes_wf(
                #[trigger] kept_peers(peers, owner, timeout, now)[i].name,
            ) && bytes_wf(kept_peers(peers, owner, timeout, now)[i].address),
    decreases peers.len(),
{
    if peers.len() > 0 {
        let dl = peers.drop_last();
        let last = peers.last();
        lemma_kept_peers_wf(dl, owner, timeout, now);
        let sub = kept_peers(dl, owner, timeout, now);
        let whole = kept_peers(peers, owner, timeout, now);
        assert forall|k: int| 0 <= k < sub.len() implies peers.contains(sub[k]) by {
            assert(dl.contains(sub[k]));
            let w = choose|w: int| 0 <= w < dl.len() && dl[w] == sub[k];
            assert(peers[w] == sub[k]);
        }
        if peer_kept(last, owner, timeout, now) {
            assert(whole == sub.push(last));
            assert(peers.contains(last)) by {
                assert(peers[peers.len() - 1] == last);
            }
            assert forall|i: int, j: int| 0 <= i < j < whole.len() implies whole[i].name
                != whole[j].name by {
                if j < sub.len() {
                } else {
                    assert(whole[j] == last);
                    assert(dl.contains(sub[i]));
                    let w = choose|w: int| 0 <= w < dl.len() && dl[w] == sub[i];
                    assert(peers[w] == whole[i]);
                    assert(peers[peers.len() - 1] == last);
                }
            }
        }
    }
}

/// A sweep keeps exactly the fresh-or-exempt records and evicts the rest:
/// every kept record was registered and satisfies `peer_kept`; every
/// registered record is either kept or has its name in the evicted list.
pub proof fn lemma_sweep_membership(
    peers: Seq<PeerV>,
    owner: Option<Seq<u8>>,
    timeout: u64,
    now: u64,
)
    ensures
        forall|k: int|
            0 <= k < kept_peers(peers, owner, timeout, now).len() ==> peers.contains(
                #[trigger] kept_peers(peers, owner, timeout, now)[k],
            ) && peer_kept(kept_peers(peers, owner, timeout, now)[k], owner, timeout, now),
        forall|i: int|
            0 <= i < peers.len() && peer_kept(#[trigger] peers[i], owner, timeout, now)
                ==> kept_peers(peers, owner, timeout, now).contains(peers[i]),
        forall|i: int|
            0 <= i < peers.len() && !peer_kept(#[trigger] peers[i], owner, timeout, now)
                ==> evicted_names(peers, owner, timeout, now).contains(peers[i].name),
    decreases peers.len(),
{
    if peers.len() > 0 {
        let dl = peers.drop_last();
        let last = peers.last();
        lemma_sweep_membership(dl, owner, timeout, now);
        let sub = kept_peers(dl, owner, timeout, now);
        let subev = evicted_names(dl, owner, timeout, now);
        let whole = kept_peers(peers, owner, timeout, now);
        let wholeev = evicted_names(peers, owner, timeout, now);
        assert forall|k: int| 0 <= k < whole.len() implies peers.contains(whole[k]) && peer_kept(
            whole[k],
            owner,
            timeout,
            now,
        ) by {
            if k < sub.len() {
                assert(dl.contains(sub[k]));
                let w = choose|w: int| 0 <= w < dl.len() && dl[w] == sub[k];
                assert(peers[w] == whole[k]);
            } else {
                assert(whole[k] == last);
                assert(peers[peers.len() - 1] == last);
            }
        }
        assert forall|i: int|
            0 <= i < peers.len() && peer_kept(peers[i], owner, timeout, now) implies whole.contains(
            peers[i],
        ) by {
            if i < peers.len() - 1 {
                assert(dl[i] == peers[i]);
                assert(sub.contains(peers[i]));
                let w = choose|w: int| 0 <= w < sub.len() && sub[w] == peers[i];
                assert(whole[w] == peers[i]);
            } else {
                assert(peers[i] == last);
                assert(whole[whole.len() - 1] == last);
            }
        }
        assert forall|i: int|
            0 <= i < peers.len() && !peer_kept(peers[i], owner, timeout, now)
            implies wholeev.contains(peers[i].name) by {
            if i < peers.len() - 1 {
                assert(dl[i] == peers[i]);
                assert(subev.contains(peers[i].name));
                let w = choose|w: int| 0 <= w < subev.len() && subev[w] == peers[i].name;
                assert(wholeev[w] == peers[i].name);
            } else {
                assert(peers[i] == last);
                assert(wholeev[wholeev.len() - 1] == last.name);
            }
        }
    }
}

/// Registry idempotence, registration half: registering the same name and
/// address again at the same instant changes nothing further.
pub proof fn lemma_register_idempotent(r: RegistryV, name: Seq<u8>, address: Seq<u8>, now: u64)
    requires
        registry_wf(r),
    ensures
        spec_register(spec_register(r, name, address, now), name, address, now) == spec_register(
            r,
            name,
            address,
            now,
        ),
{
    let rec = PeerV { name: name, address: address, last_seen: now };
    let r1 = spec_register(r, name, address, now);
    if has_name(r.peers, name) {
        let i = index_of_name(r.peers, name);
        assert(0 <= i < r.peers.len() && r.peers[i].name == name);
        assert(r1.peers == r.peers.update(i, rec));
        assert(r1.peers[i].name == name);
        assert(has_name(r1.peers, name));
        let j = index_of_name(r1.peers, name);
        assert(0 <= j < r1.peers.len() && r1.peers[j].name == name);
        assert(j == i);
        assert(r1.peers.update(j, rec) =~= r1.peers);
    } else {
        assert(r1.peers == r.peers.push(rec));
        assert(r1.peers[r.peers.len() as int].name == name);
        assert(has_name(r1.peers, name));
        let j = index_of_name(r1.peers, name);
        assert(0 <= j < r1.peers.len() && r1.peers[j].name == name);
        assert(j == r.peers.len() as int) by {
            if j < r.peers.len() {
                assert(r.peers[j].name == name);
                assert(has_name(r.peers, name));
            }
        }
        assert(r1.peers.update(j, rec) =~= r1.peers);
    }
    assert(r1.peers.len() > 0);
}

/// Registry idempotence, sweep half: a second sweep at the same instant
/// evicts nothing new and leaves the registry as it is.
pub proof fn lemma_sweep_idempotent(
    peers: Seq<PeerV>,
    owner: Option<Seq<u8>>,
    timeout: u64,
    now: u64,
)
    ensures
        kept_peers(kept_peers(peers, owner, timeout, now), owner, timeout, now) == kept_peers(
            peers,
            owner,
            timeout,
            now,
        ),
        evicted_names(kept_peers(peers, owner, timeout, now), owner, timeout, now)
            == Seq::<Seq<u8>>::empty(),
    decreases peers.len(),
{
    if peers.len() == 0 {
        assert(kept_peers(peers, owner, timeout, now) =~= Seq::<PeerV>::empty());
    } else {
        let dl = peers.drop_last();
        let last = peers.last();
        lemma_sweep_idempotent(dl, owner, timeout, now);
        let sub = kept_peers(dl, owner, timeout, now);
        if peer_kept(last, owner, timeout, now) {
            let whole = sub.push(last);
            assert(kept_peers(peers, owner, timeout, now) == whole);
            assert(whole.drop_last() =~= sub);
            assert(whole.last() == last);
            assert(kept_peers(whole, owner, timeout, now) == kept_peers(sub, owner, timeout, now)
                .push(last));
            assert(evicted_names(whole, owner, timeout, now) == evicted_names(
                sub,
                owner,
                timeout,
                now,
            ));
        }
    }
}

/// Liveness: a peer touched at `t0` survives any sweep up to and including
/// `t0 + timeout`, and a later sweep evicts it by name — unless it is the
/// owner.
pub proof fn lemma_liveness(
    peers: Seq<PeerV>,
    owner: Option<Seq<u8>>,
    timeout: u64,
    now: u64,
    i: int,
)
    requires
        0 <= i < peers.len(),
    ensures
        now <= peers[i].last_seen + timeout ==> kept_peers(peers, owner, timeout, now).contains(
            peers[i],
        ),
        now > peers[i].last_seen + timeout && owner != Some(peers[i].name) ==> evicted_names(
            peers,
            owner,
            timeout,
            now,
        ).contains(peers[i].name),
{
    lemma_sweep_membership(peers, owner, timeout, now);
}

/// Owner exemption: the first-registered peer survives every sweep, no
/// matter how much time has passed.
pub proof fn lemma_owner_exempt(
    peers: Seq<PeerV>,
    owner: Option<Seq<u8>>,
    timeout: u64,
    now: u64,
    i: int,
)
    requires
        0 <= i < peers.len(),
        owner == Some(peers[i].name),
    ensures
        kept_peers(peers, owner, timeout, now).contains(peers[i]),
{
    lemma_sweep_membership(peers, owner, timeout, now);
}

/// After an eviction no kept record carries the evicted name, so a swept
/// peer is truly gone until it rejoins.
pub proof fn lemma_sweep_removes_name(
    peers: Seq<PeerV>,
    owner: Option<Seq<u8>>,
    timeout: u64,
    now: u64,
    i: int,
)
    requires
        forall|a: int, b: int|
            0 <= a < b < peers.len() ==> (#[trigger] peers[a].name) != (#[trigger] peers[b].name),
        0 <= i < peers.len(),
        !peer_kept(peers[i], owner, timeout, now),
    ensures
        !has_name(kept_peers(peers, owner, timeout, now), peers[i].name),
{
    lemma_sweep_membership(peers, owner, timeout, now);
    let kp = kept_peers(peers, owner, timeout, now);
    assert forall|k: int| 0 <= k < kp.len() implies (#[trigger] kp[k].name) != peers[i].name by {
        assert(peers.contains(kp[k]));
        let w = choose|w: int| 0 <= w < peers.len() && peers[w] == kp[k];
        if kp[k].name == peers[i].name {
            assert(w == i);
        }
    }
}


/// Every evicted name came from a registered record, so it fits a
/// datagram field.
pub proof fn lemma_evicted_names_wf(
    peers: Seq<PeerV>,
    owner: Option<Seq<u8>>,
    timeout: u64,
    now: u64,
)
    requires
        forall|i: int|
            0 <= i < peers.len() ==> bytes_wf(#[trigger] peers[i].name) && bytes_wf(
                peers[i].address,
            ),
    ensures
        forall|k: int|
            0 <= k < evicted_names(peers, owner, timeout, now).len() ==> bytes_wf(
                #[trigger] evicted_names(peers, owner, timeout, now)[k],
            ),
    decreases peers.len(),
{
    if peers.len() > 0 {
        let dl = peers.drop_last();
        lemma_evicted_names_wf(dl, owner, timeout, now);
        let sub = evicted_names(dl, owner, timeout, now);
        let whole = evicted_names(peers, owner, timeout, now);
        assert forall|k: int| 0 <= k < whole.len() implies bytes_wf(whole[k]) by {
            if k < sub.len() {
                assert(whole[k] == sub[k]);
            } else {
                assert(whole[k] == peers.last().name);
                assert(peers[peers.len() - 1] == peers.last());
            }
        }
    }
}


} // verus!
