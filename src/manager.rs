//! Groups handed off by the lobby wait here until the first connection to
//! their match creates it.

use vstd::prelude::*;
use crate::game::PlayerInfo;

verus! {

/// A roster waiting for its match to be created.
#[derive(Debug, Clone)]
pub struct PendingGame {
    pub game_id: u128,
    pub players: Vec<PlayerInfo>,
}

/// Rosters by match id, each id at most once.
#[derive(Debug, Clone)]
pub struct PendingGames {
    pub pending: Vec<PendingGame>,
}

/// `k` is the index of `id` in `s`.
pub open spec fn game_index(s: Seq<PendingGame>, id: u128, k: int) -> bool {
    0 <= k < s.len() && (#[trigger] s[k]).game_id == id
}

/// No match id appears twice.
pub open spec fn unique_games(s: Seq<PendingGame>) -> bool {
    forall|i: int, j: int| 0 <= i < j < s.len() ==> s[i].game_id != s[j].game_id
}

/// The roster stored under `id`, if any.
pub open spec fn roster_of(s: Seq<PendingGame>, id: u128) -> Option<Seq<PlayerInfo>> {
    if exists|k: int| game_index(s, id, k) {
        Some(s[choose|k: int| game_index(s, id, k)].players@)
    } else {
        None
    }
}

/// With unique ids the roster of `id` is the one at its index.
pub proof fn lemma_roster_at(s: Seq<PendingGame>, id: u128, k: int)
    requires
        unique_games(s),
        game_index(s, id, k),
    ensures
        roster_of(s, id) == Some(s[k].players@),
{
    let c = choose|j: int| game_index(s, id, j);
    if c != k {
        if c < k {
            assert(s[c].game_id != s[k].game_id);
        } else {
            assert(s[k].game_id != s[c].game_id);
        }
    }
}

impl PendingGames {
    /// An empty table.
    pub fn new() -> (r: Self)
        ensures
            r.pending@.len() == 0,
            unique_games(r.pending@),
    {
        PendingGames { pending: Vec::new() }
    }

    /// Index of `game_id`.
    fn find(&self, game_id: u128) -> (r: Option<usize>)
        ensures
            r matches Some(k) ==> game_index(self.pending@, game_id, k as int),
            r is None ==> forall|k: int| !game_index(self.pending@, game_id, k),
    {
        let mut k: usize = 0;
        while k < self.pending.len()
            invariant
                k <= self.pending@.len(),
                forall|j: int| 0 <= j < k ==> !game_index(self.pending@, game_id, j),
            decreases self.pending@.len() - k,
        {
            if self.pending[k].game_id == game_id {
                return Some(k);
            }
            k = k + 1;
        }
        None
    }

    /// Whether a roster waits under `game_id`.
    pub fn contains(&self, game_id: u128) -> (r: bool)
        ensures
            r == roster_of(self.pending@, game_id) is Some,
    {
        match self.find(game_id) {
            Some(_) => true,
            None => false,
        }
    }

    /// Stores `players` under `game_id`, replacing a roster stored there;
    /// every other id keeps its roster.
    pub fn insert(&mut self, game_id: u128, players: Vec<PlayerInfo>)
        requires
            unique_games(old(self).pending@),
        ensures
            unique_games(final(self).pending@),
            roster_of(final(self).pending@, game_id) == Some(players@),
            forall|id: u128| id != game_id ==> #[trigger] roster_of(final(self).pending@, id) == roster_of(old(self).pending@, id),
    {
        let ghost pl = players@;
        let ghost o = self.pending@;
        match self.find(game_id) {
            Some(k) => {
                self.pending[k].players = players;
                proof {
                    let f = self.pending@;
                    assert forall|i: int, j: int| 0 <= i < j < f.len() implies f[i].game_id != f[j].game_id by {
                        assert(f[i].game_id == o[i].game_id && f[j].game_id == o[j].game_id);
                    }
                    lemma_roster_at(f, game_id, k as int);
                    assert forall|id: u128| id != game_id implies #[trigger] roster_of(f, id) == roster_of(o, id) by {
                        if exists|j: int| game_index(o, id, j) {
                            let j = choose|j: int| game_index(o, id, j);
                            lemma_roster_at(o, id, j);
                            assert(f[j] == o[j]);
                            lemma_roster_at(f, id, j);
                        } else {
                            assert forall|j: int| !game_index(f, id, j) by {
                                if game_index(f, id, j) {
                                    assert(game_index(o, id, j));
                                }
                            }
                        }
                    }
                }
            },
            None => {
                self.pending.push(PendingGame { game_id, players });
                proof {
                    let f = self.pending@;
                    let n = o.len() as int;
                    assert forall|i: int, j: int| 0 <= i < j < f.len() implies f[i].game_id != f[j].game_id by {
                        assert(f[i] == o[i]);
                        if j < n {
                            assert(f[j] == o[j]);
                        } else {
                            assert(!game_index(o, game_id, i));
                        }
                    }
                    lemma_roster_at(f, game_id, n);
                    assert forall|id: u128| id != game_id implies #[trigger] roster_of(f, id) == roster_of(o, id) by {
                        if exists|j: int| game_index(o, id, j) {
                            let j = choose|j: int| game_index(o, id, j);
                            lemma_roster_at(o, id, j);
                            assert(f[j] == o[j]);
                            lemma_roster_at(f, id, j);
                        } else {
                            assert forall|j: int| !game_index(f, id, j) by {
                                if game_index(f, id, j) && j < n {
                                    assert(f[j] == o[j]);
                                    assert(game_index(o, id, j));
                                }
                            }
                        }
                    }
                }
            },
        }
    }

    /// Removes and returns the roster stored under `game_id`; every other id
    /// keeps its roster.
    pub fn take(&mut self, game_id: u128) -> (r: Option<Vec<PlayerInfo>>)
        requires
            unique_games(old(self).pending@),
        ensures
            unique_games(final(self).pending@),
            r is None <==> roster_of(old(self).pending@, game_id) is None,
            r matches Some(players) ==> roster_of(old(self).pending@, game_id) == Some(players@),
            roster_of(final(self).pending@, game_id) is None,
            forall|id: u128| id != game_id ==> #[trigger] roster_of(final(self).pending@, id) == roster_of(old(self).pending@, id),
    {
        let ghost o = self.pending@;
        match self.find(game_id) {
            Some(k) => {
                proof {
                    lemma_roster_at(o, game_id, k as int);
                }
                let g = self.pending.remove(k);
                proof {
                    let f = self.pending@;
                    assert(f =~= o.remove(k as int));
                    assert forall|i: int, j: int| 0 <= i < j < f.len() implies f[i].game_id != f[j].game_id by {
                        let oi = if i < k { i } else { i + 1 };
                        let oj = if j < k { j } else { j + 1 };
                        assert(f[i] == o[oi] && f[j] == o[oj]);
                    }
                    assert forall|j: int| !game_index(f, game_id, j) by {
                        if game_index(f, game_id, j) {
                            let oj = if j < k { j } else { j + 1 };
                            assert(f[j] == o[oj]);
                            if oj < k {
                                assert(o[oj].game_id != o[k as int].game_id);
                            } else {
                                assert(o[k as int].game_id != o[oj].game_id);
                            }
                        }
                    }
                    assert forall|id: u128| id != game_id implies #[trigger] roster_of(f, id) == roster_of(o, id) by {
                        if exists|j: int| game_index(o, id, j) {
                            let j = choose|j: int| game_index(o, id, j);
                            lemma_roster_at(o, id, j);
                            assert(j != k);
                            let fj = if j < k { j } else { j - 1 };
                            assert(f[fj] == o[j]);
                            lemma_roster_at(f, id, fj);
                        } else {
                            assert forall|j: int| !game_index(f, id, j) by {
                                if game_index(f, id, j) {
                                    let oj = if j < k { j } else { j + 1 };
                                    assert(f[j] == o[oj]);
                                    assert(game_index(o, id, oj));
                                }
                            }
                        }
                    }
                }
                Some(g.players)
            },
            None => None,
        }
    }
}

/// What `ensure_game_session` found.
#[derive(Debug, Clone)]
pub enum EnsureOutcome {
    /// The match already runs.
    Existing,
    /// The match must be created with this roster.
    Created(Vec<PlayerInfo>),
}

/// Tracks pending rosters and the matches already created.
#[derive(Debug, Clone)]
pub struct GameSessionManager {
    pub pending_games: PendingGames,
    /// Ids of the matches created so far.
    pub sessions: Vec<u128>,
}

impl GameSessionManager {
    /// No pending roster and no match.
    pub fn new() -> (r: Self)
        ensures
            r.pending_games.pending@.len() == 0,
            unique_games(r.pending_games.pending@),
            r.sessions@.len() == 0,
    {
        GameSessionManager { pending_games: PendingGames::new(), sessions: Vec::new() }
    }

    /// Stores the roster the lobby handed off for `game_id`; every other id
    /// keeps its roster.
    pub fn register_pending_game(&mut self, game_id: u128, players: Vec<PlayerInfo>)
        requires
            unique_games(old(self).pending_games.pending@),
        ensures
            unique_games(final(self).pending_games.pending@),
            roster_of(final(self).pending_games.pending@, game_id) == Some(players@),
            forall|id: u128|
                id != game_id ==> #[trigger] roster_of(final(self).pending_games.pending@, id) == roster_of(
                    old(self).pending_games.pending@,
                    id,
                ),
            final(self).sessions@ == old(self).sessions@,
    {
        self.pending_games.insert(game_id, players);
    }

    /// A connection asks for match `game_id`: a running match is reused; a
    /// pending roster is consumed and the match must be created from it; an
    /// unknown id is an error.
    pub fn ensure_game_session(&mut self, game_id: u128) -> (r: Result<EnsureOutcome, String>)
        requires
            unique_games(old(self).pending_games.pending@),
        ensures
            unique_games(final(self).pending_games.pending@),
            old(self).sessions@.contains(game_id) ==> (r matches Ok(EnsureOutcome::Existing)) && *final(self) == *old(self),
            !old(self).sessions@.contains(game_id) && roster_of(old(self).pending_games.pending@, game_id) is Some ==> {
                &&& (r matches Ok(EnsureOutcome::Created(players)) && roster_of(
                    old(self).pending_games.pending@,
                    game_id,
                ) == Some(players@))
                &&& final(self).sessions@ == old(self).sessions@.push(game_id)
                &&& roster_of(final(self).pending_games.pending@, game_id) is None
                &&& forall|id: u128|
                    id != game_id ==> #[trigger] roster_of(final(self).pending_games.pending@, id) == roster_of(
                        old(self).pending_games.pending@,
                        id,
                    )
            },
            !old(self).sessions@.contains(game_id) && roster_of(old(self).pending_games.pending@, game_id) is None ==> {
                &&& (r matches Err(e) && e@ == "No player group found for this game_id"@)
                &&& *final(self) == *old(self)
            },
    {
        let mut k: usize = 0;
        while k < self.sessions.len()
            invariant
                k <= self.sessions@.len(),
                *self == *old(self),
                unique_games(old(self).pending_games.pending@),
                forall|j: int| 0 <= j < k ==> self.sessions@[j] != game_id,
            decreases self.sessions@.len() - k,
        {
            if self.sessions[k] == game_id {
                assert(self.sessions@.contains(game_id));
                return Ok(EnsureOutcome::Existing);
            }
            k = k + 1;
        }
        assert(!self.sessions@.contains(game_id));
        if !self.pending_games.contains(game_id) {
            return Err(String::from_str("No player group found for this game_id"));
        }
        match self.pending_games.take(game_id) {
            Some(players) => {
                self.sessions.push(game_id);
                Ok(EnsureOutcome::Created(players))
            },
            None => Err(String::from_str("No player group found for this game_id")),
        }
    }
}

} // verus!
