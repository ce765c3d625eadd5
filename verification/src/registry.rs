//! The connection registry: the server's authoritative record of live
//! connections. The caller guards one `Registry` value with a single
//! lock and performs every operation inside that lock's critical
//! section; each operation here is pure in-memory work, so nothing can
//! fail or block while the lock is held. Each connection gets a fresh
//! integer identity at registration; removal goes by that identity, so
//! no address lookup happens inside a critical section.

use vstd::prelude::*;

verus! {

/// No two entries share an identity.
pub open spec fn ids_unique(conns: Seq<Connection>) -> bool {
    forall|k1: int, k2: int| 0 <= k1 < k2 < conns.len() ==> conns[k1].id != conns[k2].id
}

/// Every identity was issued before `next_id`.
pub open spec fn ids_below(conns: Seq<Connection>, next_id: u64) -> bool {
    forall|k: int| 0 <= k < conns.len() ==> conns[k].id < next_id
}

/// Every entry that carries `id` is marked assigned. Once a claim has
/// returned `id`, this holds of the registry and every later operation
/// keeps it, so `id` can never be claimed again.
pub open spec fn id_assigned_if_present(conns: Seq<Connection>, id: u64) -> bool {
    forall|k: int| 0 <= k < conns.len() && (#[trigger] conns[k]).id == id ==> conns[k].assigned
}

/// One live connection: its registry-issued identity and whether a
/// reader was already assigned to it. The caller keeps the socket
/// handle itself, keyed by the identity.
#[derive(Clone, Copy, PartialEq, Eq, Structural, Debug)]
pub struct Connection {
    pub id: u64,
    pub assigned: bool,
}

/// The registry: the connections in registration order, and the next
/// identity to issue.
pub struct Registry {
    pub conns: Vec<Connection>,
    pub next_id: u64,
}

impl Registry {
    /// Every identity was issued before `next_id`, and no two entries
    /// share an identity.
    pub open spec fn wf(&self) -> bool {
        ids_below(self.conns@, self.next_id) && ids_unique(self.conns@)
    }

    /// Whether some entry carries `id`.
    pub open spec fn has_id(&self, id: u64) -> bool {
        exists|k: int| 0 <= k < self.conns@.len() && self.conns@[k].id == id
    }

    /// An empty registry, issuing identities from zero.
    pub fn new() -> (r: Registry)
        ensures
            r.wf(),
            r.conns@ == Seq::<Connection>::empty(),
            r.next_id == 0u64,
    {
        Registry { conns: Vec::new(), next_id: 0 }
    }

    /// How many connections are live.
    pub fn len(&self) -> (r: usize)
        ensures
            r == self.conns@.len(),
    {
        self.conns.len()
    }

    /// Append a new, unassigned connection under a fresh identity and
    /// hand that identity back.
    pub fn register(&mut self) -> (r: u64)
        requires
            old(self).wf(),
            old(self).next_id < u64::MAX,
        ensures
            final (self).wf(),
            r == old(self).next_id,
            final (self).next_id == old(self).next_id + 1,
            final (self).conns@ == old(self).conns@.push(
                Connection { id: old(self).next_id, assigned: false },
            ),
    {
        let id = self.next_id;
        self.conns.push(Connection { id, assigned: false });
        self.next_id = self.next_id + 1;
        id
    }

    /// Claim: find the first unassigned connection, mark it assigned and
    /// return its identity, all in one step. `None` when every entry is
    /// already assigned. This is the atomic scan-and-flip the dispatcher
    /// runs under the lock, so two passes can never claim the same
    /// connection.
    pub fn find_and_claim_unassigned(&mut self) -> (r: Option<u64>)
        ensures
            final (self).next_id == old(self).next_id,
            r is None ==> *final (self) == *old(self) && forall|k: int|
                0 <= k < old(self).conns@.len() ==> old(self).conns@[k].assigned,
            r matches Some(id) ==> exists|k: int|
                0 <= k < old(self).conns@.len() && (#[trigger] old(self).conns@[k]).id == id
                    && !old(self).conns@[k].assigned && (forall|j: int|
                    0 <= j < k ==> old(self).conns@[j].assigned) && final (self).conns@ == old(
                    self,
                ).conns@.update(k, Connection { id, assigned: true }),
            old(self).wf() ==> final (self).wf(),
    {
        let n = self.conns.len();
        let mut i: usize = 0;
        while i < n
            invariant
                n == self.conns@.len(),
                i <= n,
                *self == *old(self),
                forall|j: int| 0 <= j < i ==> self.conns@[j].assigned,
            decreases n - i,
        {
            if !self.conns[i].assigned {
                let id = self.conns[i].id;
                self.conns[i] = Connection { id, assigned: true };
                proof {
                    assert(0 <= i < old(self).conns@.len());
                    assert((old(self).conns@[i as int]).id == id);
                    assert(!old(self).conns@[i as int].assigned);
                    assert(self.conns@ == old(self).conns@.update(
                        i as int,
                        Connection { id, assigned: true },
                    ));
                }
                return Some(id);
            }
            i = i + 1;
        }
        None
    }

    /// Remove the connection carrying `id`. Returns whether one did: a
    /// second removal of the same identity finds nothing, reports
    /// `false` and changes nothing.
    pub fn remove_by_identity(&mut self, id: u64) -> (r: bool)
        ensures
            final (self).next_id == old(self).next_id,
            r == old(self).has_id(id),
            !r ==> *final (self) == *old(self),
            r ==> exists|k: int|
                0 <= k < old(self).conns@.len() && (#[trigger] old(self).conns@[k]).id == id && (
                forall|j: int| 0 <= j < k ==> old(self).conns@[j].id != id) && final (self).conns@
                    == old(self).conns@.remove(k),
            old(self).wf() ==> final (self).wf(),
    {
        let n = self.conns.len();
        let mut i: usize = 0;
        while i < n
            invariant
                n == self.conns@.len(),
                i <= n,
                *self == *old(self),
                forall|j: int| 0 <= j < i ==> self.conns@[j].id != id,
            decreases n - i,
        {
            if self.conns[i].id == id {
                self.conns.remove(i);
                proof {
                    old(self).conns@.remove_ensures(i as int);
                    assert(0 <= i < old(self).conns@.len());
                    assert((old(self).conns@[i as int]).id == id);
                }
                return true;
            }
            i = i + 1;
        }
        false
    }
}

/// One registration, on the mathematical model: the new entry appended
/// under the next identity, and the next identity advanced.
pub open spec fn spec_register(conns: Seq<Connection>, next_id: u64) -> (Seq<Connection>, u64)
    recommends
        next_id < u64::MAX,
{
    (conns.push(Connection { id: next_id, assigned: false }), (next_id + 1) as u64)
}

/// `n` registrations in a row, on the mathematical model.
pub open spec fn spec_register_n(conns: Seq<Connection>, next_id: u64, n: nat) -> (
    Seq<Connection>,
    u64,
)
    decreases n,
{
    if n == 0 {
        (conns, next_id)
    } else {
        let (c1, i1) = spec_register(conns, next_id);
        spec_register_n(c1, i1, (n - 1) as nat)
    }
}

/// No registration is lost and none is duplicated: any run of `n`
/// registrations grows the registry by exactly `n` entries and keeps
/// its identities well formed.
pub proof fn lemma_register_n_count(conns: Seq<Connection>, next_id: u64, n: nat)
    requires
        ids_below(conns, next_id),
        ids_unique(conns),
        next_id + n <= u64::MAX,
    ensures
        spec_register_n(conns, next_id, n).0.len() == conns.len() + n,
        spec_register_n(conns, next_id, n).1 == next_id + n,
        ids_below(spec_register_n(conns, next_id, n).0, spec_register_n(conns, next_id, n).1),
        ids_unique(spec_register_n(conns, next_id, n).0),
    decreases n,
{
    if n > 0 {
        let (c1, i1) = spec_register(conns, next_id);
        assert(ids_below(c1, i1)) by {
            assert(forall|k: int|
                0 <= k < conns.len() ==> c1[k] == conns[k] && conns[k].id < next_id);
        }
        assert(ids_unique(c1)) by {
            assert(forall|k: int| 0 <= k < conns.len() ==> c1[k] == conns[k]);
            assert(c1[conns.len() as int].id == next_id);
        }
        lemma_register_n_count(c1, i1, (n - 1) as nat);
    }
}

/// Right after a claim returns `id`, every entry carrying `id` is
/// assigned: the flipped entry by the flip itself, and no other entry
/// carries `id` because identities are unique.
pub proof fn lemma_claim_marks_assigned(
    conns: Seq<Connection>,
    k: int,
    id: u64,
    conns2: Seq<Connection>,
)
    requires
        ids_unique(conns),
        0 <= k < conns.len(),
        conns[k].id == id,
        conns2 == conns.update(k, Connection { id, assigned: true }),
    ensures
        id_assigned_if_present(conns2, id),
{
    assert forall|j: int|
        0 <= j < conns2.len() && (#[trigger] conns2[j]).id == id implies conns2[j].assigned by {
        if j != k {
            assert(conns2[j] == conns[j]);
            assert(conns[j].id != conns[k].id);
        }
    }
}

/// A claim never returns an identity whose entries are all assigned:
/// together with the lemmas around it, a given connection is claimed at
/// most once in its lifetime.
pub proof fn lemma_claim_skips_assigned(conns: Seq<Connection>, k: int, id: u64)
    requires
        id_assigned_if_present(conns, id),
        0 <= k < conns.len(),
        conns[k].id == id,
    ensures
        conns[k].assigned,
{
}

/// Two dispatcher passes never claim the same connection: whatever a
/// claim flipped to assigned, a later claim — which only ever returns
/// an unassigned entry — cannot return again.
pub proof fn lemma_no_double_claim(
    conns: Seq<Connection>,
    k: int,
    id: u64,
    conns2: Seq<Connection>,
    k2: int,
    id2: u64,
)
    requires
        ids_unique(conns),
        0 <= k < conns.len(),
        conns[k].id == id,
        !conns[k].assigned,
        conns2 == conns.update(k, Connection { id, assigned: true }),
        0 <= k2 < conns2.len(),
        conns2[k2].id == id2,
        !conns2[k2].assigned,
    ensures
        id2 != id,
{
    lemma_claim_marks_assigned(conns, k, id, conns2);
}

/// Registration cannot resurrect a claimed identity: the fresh entry
/// carries a never-issued identity, so `id_assigned_if_present` is kept
/// for every identity issued earlier.
pub proof fn lemma_assigned_kept_by_register(conns: Seq<Connection>, next_id: u64, id: u64)
    requires
        id_assigned_if_present(conns, id),
        id < next_id,
    ensures
        id_assigned_if_present(
            conns.push(Connection { id: next_id, assigned: false }),
            id,
        ),
{
    let conns2 = conns.push(Connection { id: next_id, assigned: false });
    assert forall|j: int|
        0 <= j < conns2.len() && (#[trigger] conns2[j]).id == id implies conns2[j].assigned by {
        if j < conns.len() {
            assert(conns2[j] == conns[j]);
        }
    }
}

/// A claim of any connection keeps `id_assigned_if_present` for every
/// identity: a claim only flips an entry from unassigned to assigned
/// and never changes an identity.
pub proof fn lemma_assigned_kept_by_claim(conns: Seq<Connection>, k: int, id2: u64, id: u64)
    requires
        id_assigned_if_present(conns, id),
        0 <= k < conns.len(),
        conns[k].id == id2,
    ensures
        id_assigned_if_present(conns.update(k, Connection { id: id2, assigned: true }), id),
{
    let conns2 = conns.update(k, Connection { id: id2, assigned: true });
    assert forall|j: int|
        0 <= j < conns2.len() && (#[trigger] conns2[j]).id == id implies conns2[j].assigned by {
        if j != k {
            assert(conns2[j] == conns[j]);
        }
    }
}

/// A removal keeps `id_assigned_if_present` for every identity: what
/// remains is a sub-sequence of what was there.
pub proof fn lemma_assigned_kept_by_remove(conns: Seq<Connection>, k: int, id: u64)
    requires
        id_assigned_if_present(conns, id),
        0 <= k < conns.len(),
    ensures
        id_assigned_if_present(conns.remove(k), id),
{
    conns.remove_ensures(k);
    let conns2 = conns.remove(k);
    assert forall|j: int|
        0 <= j < conns2.len() && (#[trigger] conns2[j]).id == id implies conns2[j].assigned by {
        if j < k {
            assert(conns2[j] == conns[j]);
        } else {
            assert(conns2[j] == conns[j + 1]);
        }
    }
}

/// Removal is idempotent: once the entry carrying `id` is removed, no
/// entry carries `id` any more, so a repeated removal of the same
/// identity finds nothing and removes nothing.
pub proof fn lemma_remove_idempotent(conns: Seq<Connection>, k: int, id: u64)
    requires
        ids_unique(conns),
        0 <= k < conns.len(),
        conns[k].id == id,
    ensures
        forall|j: int| 0 <= j < conns.remove(k).len() ==> (#[trigger] conns.remove(k)[j]).id != id,
{
    conns.remove_ensures(k);
    let conns2 = conns.remove(k);
    assert forall|j: int| 0 <= j < conns2.len() implies (#[trigger] conns2[j]).id != id by {
        if j < k {
            assert(conns2[j] == conns[j]);
            assert(conns[j].id != conns[k].id);
        } else {
            assert(conns2[j] == conns[j + 1]);
            assert(conns[j + 1].id != conns[k].id);
        }
    }
}

} // verus!
