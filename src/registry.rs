//! One live connection per identity and role inside a context (the lobby or
//! one match). Connections are opaque handles chosen by the transport.

use vstd::prelude::*;

verus! {

/// Whether a connection plays or watches.
#[derive(Debug, Clone, Copy, PartialEq, Eq, Hash, Structural)]
pub enum Role {
    Player,
    Spectator,
}

/// An identity bound to its live connection.
#[derive(Debug, Clone)]
pub struct Registration {
    pub identity: String,
    pub conn: u64,
}

/// `k` is the index of `id` in `s`.
pub open spec fn index_of(s: Seq<Registration>, id: Seq<char>, k: int) -> bool {
    0 <= k < s.len() && (#[trigger] s[k]).identity@ == id
}

/// No identity appears twice.
pub open spec fn unique_ids(s: Seq<Registration>) -> bool {
    forall|i: int, j: int| 0 <= i < j < s.len() ==> s[i].identity@ != s[j].identity@
}

/// The connection registered for `id`, if any.
pub open spec fn conn_of(s: Seq<Registration>, id: Seq<char>) -> Option<u64> {
    if exists|k: int| index_of(s, id, k) {
        Some(s[choose|k: int| index_of(s, id, k)].conn)
    } else {
        None
    }
}

/// With unique identities the registration of `id` is the one at its index.
pub proof fn lemma_conn_at(s: Seq<Registration>, id: Seq<char>, k: int)
    requires
        unique_ids(s),
        index_of(s, id, k),
    ensures
        conn_of(s, id) == Some(s[k].conn),
{
    let c = choose|j: int| index_of(s, id, j);
    if c != k {
        if c < k {
            assert(s[c].identity@ != s[k].identity@);
        } else {
            assert(s[k].identity@ != s[c].identity@);
        }
    }
}

/// Finds the index of `key` in `entries`.
fn find(entries: &Vec<Registration>, key: &String) -> (r: Option<usize>)
    ensures
        r matches Some(k) ==> index_of(entries@, key@, k as int),
        r is None ==> forall|k: int| !index_of(entries@, key@, k),
{
    let mut k: usize = 0;
    while k < entries.len()
        invariant
            k <= entries@.len(),
            forall|j: int| 0 <= j < k ==> !index_of(entries@, key@, j),
        decreases entries@.len() - k,
    {
        if entries[k].identity == *key {
            return Some(k);
        }
        k = k + 1;
    }
    None
}

/// Whether `addr` is the connection registered for `key`.
pub fn is_addr_valid(entries: &Vec<Registration>, key: &String, addr: u64) -> (r: bool)
    requires
        unique_ids(entries@),
    ensures
        r == (conn_of(entries@, key@) == Some(addr)),
{
    match find(entries, key) {
        Some(k) => {
            proof {
                lemma_conn_at(entries@, key@, k as int);
            }
            entries[k].conn == addr
        },
        None => false,
    }
}

/// The registration of `key`, when `addr` is its connection.
pub fn get_by_addr<'a>(entries: &'a Vec<Registration>, key: &String, addr: u64) -> (r: Option<
    &'a Registration,
>)
    requires
        unique_ids(entries@),
    ensures
        r is Some <==> conn_of(entries@, key@) == Some(addr),
        r matches Some(e) ==> e.identity@ == key@ && e.conn == addr,
{
    match find(entries, key) {
        Some(k) => {
            proof {
                lemma_conn_at(entries@, key@, k as int);
            }
            if entries[k].conn == addr {
                Some(&entries[k])
            } else {
                None
            }
        },
        None => None,
    }
}

/// Binds `identity` to `conn` in `entries`. Returns the connection it
/// replaces when that is another one: it must be told it was kicked.
pub fn bind(entries: &mut Vec<Registration>, identity: &String, conn: u64) -> (kicked: Option<u64>)
    requires
        unique_ids(old(entries)@),
    ensures
        unique_ids(final(entries)@),
        conn_of(final(entries)@, identity@) == Some(conn),
        forall|id: Seq<char>|
            id != identity@ ==> #[trigger] conn_of(final(entries)@, id) == conn_of(old(entries)@, id),
        kicked == match conn_of(old(entries)@, identity@) {
            Some(c) => if c != conn {
                Some(c)
            } else {
                None
            },
            None => None,
        },
{
    match find(entries, identity) {
        Some(k) => {
            proof {
                lemma_conn_at(entries@, identity@, k as int);
            }
            let old_conn = entries[k].conn;
            entries[k].conn = conn;
            proof {
                let o = old(entries)@;
                let f = entries@;
                assert(unique_ids(f)) by {
                    assert forall|i: int, j: int| 0 <= i < j < f.len() implies f[i].identity@ != f[j].identity@ by {
                        assert(f[i].identity@ == o[i].identity@ && f[j].identity@ == o[j].identity@);
                    }
                }
                lemma_conn_at(f, identity@, k as int);
                assert forall|id: Seq<char>| id != identity@ implies #[trigger] conn_of(f, id) == conn_of(o, id) by {
                    if exists|j: int| index_of(o, id, j) {
                        let j = choose|j: int| index_of(o, id, j);
                        lemma_conn_at(o, id, j);
                        assert(index_of(f, id, j));
                        lemma_conn_at(f, id, j);
                    } else {
                        assert forall|j: int| !index_of(f, id, j) by {
                            if index_of(f, id, j) {
                                assert(index_of(o, id, j));
                            }
                        }
                    }
                }
            }
            if old_conn != conn {
                Some(old_conn)
            } else {
                None
            }
        },
        None => {
            entries.push(Registration { identity: identity.clone(), conn });
            proof {
                let o = old(entries)@;
                let f = entries@;
                let n = o.len() as int;
                assert(unique_ids(f)) by {
                    assert forall|i: int, j: int| 0 <= i < j < f.len() implies f[i].identity@ != f[j].identity@ by {
                        assert(f[i] == o[i]);
                        if j < n {
                            assert(f[j] == o[j]);
                        } else {
                            assert(!index_of(o, identity@, i));
                        }
                    }
                }
                lemma_conn_at(f, identity@, n);
                assert forall|id: Seq<char>| id != identity@ implies #[trigger] conn_of(f, id) == conn_of(o, id) by {
                    if exists|j: int| index_of(o, id, j) {
                        let j = choose|j: int| index_of(o, id, j);
                        lemma_conn_at(o, id, j);
                        assert(f[j] == o[j]);
                        lemma_conn_at(f, id, j);
                    } else {
                        assert forall|j: int| !index_of(f, id, j) by {
                            if index_of(f, id, j) && j < n {
                                assert(f[j] == o[j]);
                                assert(index_of(o, id, j));
                            }
                        }
                    }
                }
            }
            None
        },
    }
}

/// Removes the binding of `identity` when `conn` is its connection; a stale
/// connection removes nothing. Returns whether it removed.
pub fn unbind(entries: &mut Vec<Registration>, identity: &String, conn: u64) -> (removed: bool)
    requires
        unique_ids(old(entries)@),
    ensures
        unique_ids(final(entries)@),
        removed == (conn_of(old(entries)@, identity@) == Some(conn)),
        conn_of(final(entries)@, identity@) == if removed {
            None
        } else {
            conn_of(old(entries)@, identity@)
        },
        forall|id: Seq<char>|
            id != identity@ ==> #[trigger] conn_of(final(entries)@, id) == conn_of(old(entries)@, id),
{
    match find(entries, identity) {
        Some(k) => {
            proof {
                lemma_conn_at(entries@, identity@, k as int);
            }
            if entries[k].conn != conn {
                return false;
            }
            entries.remove(k);
            proof {
                let o = old(entries)@;
                let f = entries@;
                assert(f =~= o.remove(k as int));
                assert(unique_ids(f)) by {
                    assert forall|i: int, j: int| 0 <= i < j < f.len() implies f[i].identity@ != f[j].identity@ by {
                        let oi = if i < k { i } else { i + 1 };
                        let oj = if j < k { j } else { j + 1 };
                        assert(f[i] == o[oi] && f[j] == o[oj]);
                    }
                }
                assert forall|j: int| !index_of(f, identity@, j) by {
                    if index_of(f, identity@, j) {
                        let oj = if j < k { j } else { j + 1 };
                        assert(f[j] == o[oj]);
                        if oj < k {
                            assert(o[oj].identity@ != o[k as int].identity@);
                        } else {
                            assert(o[k as int].identity@ != o[oj].identity@);
                        }
                    }
                }
                assert forall|id: Seq<char>| id != identity@ implies #[trigger] conn_of(f, id) == conn_of(o, id) by {
                    if exists|j: int| index_of(o, id, j) {
                        let j = choose|j: int| index_of(o, id, j);
                        lemma_conn_at(o, id, j);
                        assert(j != k);
                        let fj = if j < k { j } else { j - 1 };
                        assert(f[fj] == o[j]);
                        lemma_conn_at(f, id, fj);
                    } else {
                        assert forall|j: int| !index_of(f, id, j) by {
                            if index_of(f, id, j) {
                                let oj = if j < k { j } else { j + 1 };
                                assert(f[j] == o[oj]);
                                assert(index_of(o, id, oj));
                            }
                        }
                    }
                }
            }
            true
        },
        None => false,
    }
}

/// The live connections of one context, tracked separately for players and
/// spectators.
#[derive(Debug, Clone)]
pub struct ConnectionRegistry {
    pub players: Vec<Registration>,
    pub spectators: Vec<Registration>,
}

impl ConnectionRegistry {
    /// Each role binds each identity at most once.
    pub open spec fn wf(&self) -> bool {
        unique_ids(self.players@) && unique_ids(self.spectators@)
    }

    /// The entries of one role.
    pub open spec fn entries(&self, role: Role) -> Seq<Registration> {
        match role {
            Role::Player => self.players@,
            Role::Spectator => self.spectators@,
        }
    }

    /// An empty registry.
    pub fn new() -> (r: Self)
        ensures
            r.wf(),
            r.players@.len() == 0,
            r.spectators@.len() == 0,
    {
        ConnectionRegistry { players: Vec::new(), spectators: Vec::new() }
    }

    /// Registers `conn` for `(identity, role)`, replacing an earlier
    /// connection, which is returned so that it can be kicked.
    pub fn register(&mut self, identity: &String, conn: u64, role: Role) -> (kicked: Option<u64>)
        requires
            old(self).wf(),
        ensures
            final(self).wf(),
            conn_of(final(self).entries(role), identity@) == Some(conn),
            forall|id: Seq<char>|
                id != identity@ ==> #[trigger] conn_of(final(self).entries(role), id) == conn_of(
                    old(self).entries(role),
                    id,
                ),
            forall|other: Role| other != role ==> #[trigger] final(self).entries(other) == old(self).entries(other),
            kicked == match conn_of(old(self).entries(role), identity@) {
                Some(c) => if c != conn {
                    Some(c)
                } else {
                    None
                },
                None => None,
            },
    {
        match role {
            Role::Player => bind(&mut self.players, identity, conn),
            Role::Spectator => bind(&mut self.spectators, identity, conn),
        }
    }

    /// Removes `(identity, role)` only when `conn` is the connection on file.
    pub fn unregister(&mut self, identity: &String, conn: u64, role: Role) -> (removed: bool)
        requires
            old(self).wf(),
        ensures
            final(self).wf(),
            removed == (conn_of(old(self).entries(role), identity@) == Some(conn)),
            conn_of(final(self).entries(role), identity@) == if removed {
                None
            } else {
                conn_of(old(self).entries(role), identity@)
            },
            forall|id: Seq<char>|
                id != identity@ ==> #[trigger] conn_of(final(self).entries(role), id) == conn_of(
                    old(self).entries(role),
                    id,
                ),
            forall|other: Role| other != role ==> #[trigger] final(self).entries(other) == old(self).entries(other),
    {
        match role {
            Role::Player => unbind(&mut self.players, identity, conn),
            Role::Spectator => unbind(&mut self.spectators, identity, conn),
        }
    }

    /// Whether `conn` is the live connection of `(identity, role)`.
    pub fn is_current(&self, identity: &String, conn: u64, role: Role) -> (r: bool)
        requires
            self.wf(),
        ensures
            r == (conn_of(self.entries(role), identity@) == Some(conn)),
    {
        match role {
            Role::Player => is_addr_valid(&self.players, identity, conn),
            Role::Spectator => is_addr_valid(&self.spectators, identity, conn),
        }
    }

    /// Every live connection, players first.
    pub fn all_connections(&self) -> (r: Vec<u64>)
        ensures
            r@.len() == self.players@.len() + self.spectators@.len(),
            forall|i: int| 0 <= i < self.players@.len() ==> r@[i] == #[trigger] self.players@[i].conn,
            forall|i: int|
                0 <= i < self.spectators@.len() ==> r@[self.players@.len() + i] == #[trigger] self.spectators@[i].conn,
    {
        let mut r: Vec<u64> = Vec::new();
        let mut i: usize = 0;
        while i < self.players.len()
            invariant
                i <= self.players@.len(),
                r@.len() == i,
                forall|j: int| 0 <= j < i ==> r@[j] == #[trigger] self.players@[j].conn,
            decreases self.players@.len() - i,
        {
            r.push(self.players[i].conn);
            i = i + 1;
        }
        let mut i: usize = 0;
        while i < self.spectators.len()
            invariant
                i <= self.spectators@.len(),
                r@.len() == self.players@.len() + i,
                forall|j: int| 0 <= j < self.players@.len() ==> r@[j] == #[trigger] self.players@[j].conn,
                forall|j: int| 0 <= j < i ==> r@[self.players@.len() + j] == #[trigger] self.spectators@[j].conn,
            decreases self.spectators@.len() - i,
        {
            r.push(self.spectators[i].conn);
            i = i + 1;
        }
        r
    }
}

} // verus!
