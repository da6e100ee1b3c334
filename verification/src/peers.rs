//! Verified peers, by connection.
//!
//! An identity can arrive before the connection it belongs to, so it is kept by
//! connection and not by slot. Connection numbers are reused: what is left behind
//! would authenticate the next holder of the number as the last.

use crate::bytes::to_vec;
use vstd::prelude::*;

verus! {

/// Longest fingerprint kept. A longer one is refused, not cut: half a fingerprint is a
/// different identity.
pub const MAX_PEER_SVID: usize = 64;

/// One verified peer.
pub struct PeerEntry {
    /// `None` when the entry is free.
    pub conn: Option<u16>,
    pub svid: Vec<u8>,
}

pub struct PeerTable {
    pub entries: Vec<PeerEntry>,
}

/// The identity bound to a connection, in the entries from `from` on.
pub open spec fn svid_from(es: Seq<PeerEntry>, conn: u16, from: int) -> Option<Seq<u8>>
    decreases es.len() - from,
{
    if from < 0 || from >= es.len() {
        None
    } else if es[from].conn == Some(conn) && es[from].svid@.len() > 0 {
        Some(es[from].svid@)
    } else {
        svid_from(es, conn, from + 1)
    }
}

/// Where no entry names a connection, there is no identity for it.
pub proof fn lemma_svid_none(es: Seq<PeerEntry>, conn: u16, from: int)
    requires
        0 <= from,
        forall|k: int| from <= k < es.len() ==> (#[trigger] es[k]).conn != Some(conn),
    ensures
        svid_from(es, conn, from) is None,
    decreases es.len() - from,
{
    if from < es.len() {
        lemma_svid_none(es, conn, from + 1);
    }
}

/// Where one entry alone names a connection, it says who the peer is.
pub proof fn lemma_svid_one(es: Seq<PeerEntry>, conn: u16, from: int, at: int)
    requires
        0 <= from <= at < es.len(),
        es[at].conn == Some(conn),
        forall|k: int| 0 <= k < es.len() && k != at ==> (#[trigger] es[k]).conn != Some(conn),
    ensures
        svid_from(es, conn, from) == if es[at].svid@.len() > 0 {
            Some(es[at].svid@)
        } else {
            None
        },
    decreases at - from,
{
    if from < at {
        lemma_svid_one(es, conn, from + 1, at);
    } else {
        lemma_svid_none(es, conn, from + 1);
    }
}

/// Entries that agree on a connection give it the same identity.
pub proof fn lemma_svid_same(a: Seq<PeerEntry>, b: Seq<PeerEntry>, conn: u16, from: int)
    requires
        0 <= from,
        a.len() == b.len(),
        forall|k: int|
            from <= k < a.len() ==> (a[k].conn == Some(conn) || (#[trigger] b[k]).conn == Some(conn)
                ==> a[k].conn == b[k].conn && a[k].svid@ == b[k].svid@),
    ensures
        svid_from(a, conn, from) == svid_from(b, conn, from),
    decreases a.len() - from,
{
    if from < a.len() {
        assert(b[from].conn == b[from].conn);
        lemma_svid_same(a, b, conn, from + 1);
    }
}

/// Whether one of the entries is held for a connection.
pub open spec fn entry_held(es: Seq<PeerEntry>, conn: u16) -> bool {
    exists|i: int| 0 <= i < es.len() && (#[trigger] es[i]).conn == Some(conn)
}

proof fn lemma_held_same(a: Seq<PeerEntry>, b: Seq<PeerEntry>, conn: u16)
    requires
        a.len() == b.len(),
        forall|k: int|
            0 <= k < a.len() ==> (a[k].conn == Some(conn) <==> (#[trigger] b[k]).conn == Some(conn)),
    ensures
        entry_held(a, conn) == entry_held(b, conn),
{
    if entry_held(a, conn) {
        let k = choose|k: int| 0 <= k < a.len() && (#[trigger] a[k]).conn == Some(conn);
        assert(b[k].conn == Some(conn));
    }
}

/// Whether the entries are those of before with a connection's freed and nothing else
/// changed.
pub open spec fn forgotten(before: Seq<PeerEntry>, after: Seq<PeerEntry>, conn: u16) -> bool {
    &&& after.len() == before.len()
    &&& forall|k: int|
        0 <= k < before.len() ==> if before[k].conn == Some(conn) {
            (#[trigger] after[k]).conn is None
        } else {
            after[k] == before[k]
        }
}

/// The first entry, from `from` on, that an identity of this connection can go to: a free
/// one, or one the connection has.
pub open spec fn place_for(es: Seq<PeerEntry>, conn: u16, from: int) -> int
    decreases es.len() - from,
{
    if from < 0 || from >= es.len() {
        es.len() as int
    } else if es[from].conn is None || es[from].conn == Some(conn) {
        from
    } else {
        place_for(es, conn, from + 1)
    }
}

/// Whether the entries are those of before with a connection's freed, its new identity, if
/// one is bound, at the first place for it, and nothing else changed.
pub open spec fn noted(
    before: Seq<PeerEntry>,
    after: Seq<PeerEntry>,
    conn: u16,
    bound: Option<Seq<u8>>,
) -> bool {
    let at = place_for(before, conn, 0);
    &&& after.len() == before.len()
    &&& bound matches Some(fp) ==> at < before.len() && after[at].conn == Some(conn)
        && after[at].svid@ == fp
    &&& forall|k: int|
        0 <= k < before.len() && !(bound is Some && k == at) ==> if before[k].conn == Some(conn) {
            (#[trigger] after[k]).conn is None
        } else {
            after[k] == before[k]
        }
}

impl PeerTable {
    /// The identity bound to a connection.
    pub open spec fn svid_of(self, conn: u16) -> Option<Seq<u8>> {
        svid_from(self.entries@, conn, 0)
    }

    pub open spec fn has_room(self) -> bool {
        exists|i: int| 0 <= i < self.entries@.len() && (#[trigger] self.entries@[i]).conn is None
    }

    /// Whether an entry is held for a connection.
    pub open spec fn holds(self, conn: u16) -> bool {
        entry_held(self.entries@, conn)
    }

    /// A table for `n` connections, with nobody in it.
    pub fn new(n: usize) -> (r: PeerTable)
        ensures
            r.entries@.len() == n,
            forall|conn: u16| r.svid_of(conn) is None,
            forall|conn: u16| !r.holds(conn),
            n > 0 ==> r.has_room(),
    {
        let mut entries: Vec<PeerEntry> = Vec::new();
        let mut i: usize = 0;
        while i < n
            invariant
                i <= n,
                entries@.len() == i,
                forall|k: int| 0 <= k < i ==> (#[trigger] entries@[k]).conn is None,
            decreases n - i,
        {
            entries.push(PeerEntry { conn: None, svid: Vec::new() });
            i += 1;
        }
        let t = PeerTable { entries };
        assert forall|conn: u16| t.svid_of(conn) is None by {
            lemma_svid_none(t.entries@, conn, 0);
        }
        assert(n > 0 ==> t.entries@[0].conn is None);
        t
    }

    /// The identity bound to a connection.
    pub fn peer_svid(&self, conn: u16) -> (r: Option<Vec<u8>>)
        ensures
            match r {
                Some(v) => self.svid_of(conn) == Some(v@),
                None => self.svid_of(conn) is None,
            },
    {
        let mut i: usize = 0;
        while i < self.entries.len()
            invariant
                i <= self.entries@.len(),
                svid_from(self.entries@, conn, i as int) == self.svid_of(conn),
            decreases self.entries@.len() - i,
        {
            if self.entries[i].conn == Some(conn) && self.entries[i].svid.len() > 0 {
                return Some(to_vec(self.entries[i].svid.as_slice()));
            }
            i += 1;
        }
        None
    }

    /// Forget who a connection's peer is.
    pub fn forget_peer(&mut self, conn: u16)
        ensures
            forgotten(old(self).entries@, final(self).entries@, conn),
            !final(self).holds(conn),
            final(self).svid_of(conn) is None,
            forall|other: u16|
                other != conn ==> #[trigger] final(self).svid_of(other) == old(self).svid_of(other),
            old(self).has_room() || old(self).holds(conn) ==> final(self).has_room(),
    {
        let n: usize = self.entries.len();
        let mut i: usize = 0;
        while i < n
            invariant
                i <= n,
                n == self.entries@.len(),
                n == old(self).entries@.len(),
                forall|k: int|
                    0 <= k < n ==> if k < i && old(self).entries@[k].conn == Some(conn) {
                        (#[trigger] self.entries@[k]).conn is None
                    } else {
                        self.entries@[k] == old(self).entries@[k]
                    },
            decreases n - i,
        {
            if self.entries[i].conn == Some(conn) {
                self.entries.set(i, PeerEntry { conn: None, svid: Vec::new() });
            }
            i += 1;
        }
        proof {
            lemma_svid_none(self.entries@, conn, 0);
            assert forall|other: u16| other != conn implies #[trigger] self.svid_of(other) == old(
                self,
            ).svid_of(other) by {
                lemma_svid_same(self.entries@, old(self).entries@, other, 0);
            }
            if old(self).has_room() {
                let k = choose|k: int|
                    0 <= k < n && (#[trigger] old(self).entries@[k]).conn is None;
                assert(self.entries@[k].conn is None);
            }
            if old(self).holds(conn) {
                let k = choose|k: int|
                    0 <= k < n && (#[trigger] old(self).entries@[k]).conn == Some(conn);
                assert(self.entries@[k].conn is None);
            }
        }
    }

    /// Note what a handshake said of a connection's peer: its fingerprint, or that it is
    /// not authenticated. What was known before is forgotten either way. Returns
    /// whether an identity was bound.
    pub fn note_peer_identity(&mut self, conn: u16, fingerprint: Option<&[u8]>) -> (bound: bool)
        ensures
            noted(
                old(self).entries@,
                final(self).entries@,
                conn,
                if bound {
                    Some((fingerprint->0)@)
                } else {
                    None
                },
            ),
            final(self).holds(conn) == bound,
            forall|other: u16|
                other != conn ==> #[trigger] final(self).holds(other) == old(self).holds(other),
            bound == (fingerprint matches Some(fp) && fp@.len() <= MAX_PEER_SVID && (old(
                self,
            ).has_room() || old(self).holds(conn))),
            final(self).svid_of(conn) == if bound && (fingerprint->0)@.len() > 0 {
                Some((fingerprint->0)@)
            } else {
                None
            },
            forall|other: u16|
                other != conn ==> #[trigger] final(self).svid_of(other) == old(self).svid_of(other),
    {
        self.forget_peer(conn);
        let ghost cleared = self.entries@;
        proof {
            assert forall|other: u16| other != conn implies #[trigger] svid_from(cleared, other, 0)
                == old(self).svid_of(other) by {
                assert(self.svid_of(other) == old(self).svid_of(other));
            }
            assert forall|other: u16| other != conn implies #[trigger] entry_held(cleared, other)
                == old(self).holds(other) by {
                lemma_held_same(old(self).entries@, cleared, other);
            }
            assert forall|other: u16| other != conn implies #[trigger] self.holds(other) == old(
                self,
            ).holds(other) by {
                assert(entry_held(cleared, other) == old(self).holds(other));
            }
            if !(old(self).has_room() || old(self).holds(conn)) {
                assert forall|k: int| 0 <= k < cleared.len() implies (#[trigger] cleared[k]).conn
                    is Some by {
                    assert(old(self).entries@[k].conn is Some);
                }
            }
        }
        match fingerprint {
            None => false,
            Some(fp) => {
                if fp.len() > MAX_PEER_SVID {
                    return false;
                }
                let n: usize = self.entries.len();
                let mut i: usize = 0;
                while i < n
                    invariant
                        i <= n,
                        n == self.entries@.len(),
                        n == old(self).entries@.len(),
                        self.entries@ == cleared,
                        fp@.len() <= MAX_PEER_SVID,
                        fingerprint == Some(fp),
                        forgotten(old(self).entries@, cleared, conn),
                        place_for(old(self).entries@, conn, i as int) == place_for(
                            old(self).entries@,
                            conn,
                            0,
                        ),
                        forall|other: u16|
                            other != conn ==> #[trigger] entry_held(cleared, other)
                                == old(self).holds(other),
                        forall|k: int| 0 <= k < i ==> (#[trigger] cleared[k]).conn is Some,
                        forall|k: int|
                            0 <= k < n ==> (#[trigger] cleared[k]).conn != Some(conn),
                        svid_from(cleared, conn, 0) is None,
                        forall|other: u16|
                            other != conn ==> #[trigger] svid_from(cleared, other, 0) == old(
                                self,
                            ).svid_of(other),
                        !(old(self).has_room() || old(self).holds(conn)) ==> forall|k: int|
                            0 <= k < n ==> (#[trigger] cleared[k]).conn is Some,
                        old(self).has_room() || old(self).holds(conn) ==> exists|k: int|
                            0 <= k < n && (#[trigger] cleared[k]).conn is None,
                    decreases n - i,
                {
                    if self.entries[i].conn.is_none() {
                        self.entries.set(i, PeerEntry { conn: Some(conn), svid: to_vec(fp) });
                        proof {
                            assert(cleared[i as int].conn is None);
                            assert(place_for(old(self).entries@, conn, 0) == i);
                            assert(self.entries@[i as int].conn == Some(conn));
                            assert forall|other: u16| other != conn implies #[trigger] self.holds(
                                other,
                            ) == old(self).holds(other) by {
                                assert(entry_held(cleared, other) == old(self).holds(other));
                                lemma_held_same(cleared, self.entries@, other);
                            }
                            lemma_svid_one(self.entries@, conn, 0, i as int);
                            assert forall|other: u16| other != conn implies #[trigger] self.svid_of(
                                other,
                            ) == old(self).svid_of(other) by {
                                lemma_svid_same(self.entries@, cleared, other, 0);
                                assert(svid_from(cleared, other, 0) == old(self).svid_of(other));
                            }
                        }
                        return true;
                    }
                    i += 1;
                }
                false
            },
        }
    }
}

} // verus!
