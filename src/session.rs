//! The match coordinator: a frozen roster goes through a mode vote, then a
//! loop of turns (collect one action per living player, resolve) until at
//! most one player is alive.
//!
//! Each handler updates the state and returns the effects the transport must
//! carry out, in order. Timers are identified by what they guard: the mode
//! deadline, or the turn number.

use vstd::prelude::*;
use crate::game::{count_alive, Direction, GameMode, GameState, Player, PlayerAction, PlayerInfo};
use crate::random::random_below;
use crate::registry::{conn_of, ConnectionRegistry, Role};
use crate::rules::{action_post, fresh_game, players_pass, rules_post};

verus! {

/// Length of a turn, in seconds.
pub const TURN_DURATION: u64 = 8;

/// Length of the mode vote, in seconds.
pub const MODE_CHOICE_DURATION: u64 = 10;

/// Rows of the game grid.
pub const GRID_ROW: usize = 5;

/// Columns of the game grid.
pub const GRID_COL: usize = 5;

/// Lifecycle of a match.
#[derive(Debug, Clone, Copy, PartialEq, Eq, Structural)]
pub enum GamePhase {
    ModeChoice,
    InProgress,
    Ended,
}

/// One participant's vote.
#[derive(Debug, Clone)]
pub struct ModeVote {
    pub player_id: String,
    pub mode: GameMode,
}

/// One participant's action for the current turn.
#[derive(Debug, Clone)]
pub struct PendingAction {
    pub player_id: String,
    pub action: PlayerAction,
}

/// What the transport must do after a match handler ran.
#[derive(Debug, Clone)]
pub enum MatchEffect {
    /// Tell this connection another session took its identity, then close it.
    Kick(u64),
    /// Send the modes, deadline, roster and grid size to every connection.
    BroadcastPreGameData,
    /// Send the current game state to one connection.
    SendState(u64),
    /// Tell every connection about a vote.
    VoteUpdate(String, GameMode),
    /// Tell every connection which mode was chosen, and by whom.
    ModeChosen(GameMode, String),
    /// Schedule the mode deadline `MODE_CHOICE_DURATION` from now.
    StartModeTimer,
    /// Cancel the mode deadline.
    CancelModeTimer,
    /// Schedule the end of this turn `TURN_DURATION` from now.
    StartTurnTimer(u32),
    /// Cancel the timer of the current turn.
    CancelTurnTimer,
    /// Send the game state and the turn time left (seconds) to every connection.
    BroadcastState(u64),
}

/// The mode vote of one match.
#[derive(Debug, Clone)]
pub struct ModeChoice {
    /// At most one vote per identity; a later vote replaces an earlier one.
    pub votes: Vec<ModeVote>,
    /// End of the vote (ms).
    pub deadline: u64,
    pub chosen_mode: Option<GameMode>,
    pub chosen_by: Option<String>,
    /// Votes needed to close the vote early.
    pub required_players: usize,
}

/// `k` is the index of `id` among `votes`.
pub open spec fn vote_index(votes: Seq<ModeVote>, id: Seq<char>, k: int) -> bool {
    0 <= k < votes.len() && (#[trigger] votes[k]).player_id@ == id
}

/// No identity voted twice.
pub open spec fn unique_voters(votes: Seq<ModeVote>) -> bool {
    forall|i: int, j: int| 0 <= i < j < votes.len() ==> votes[i].player_id@ != votes[j].player_id@
}

/// The vote of `id`, if any.
pub open spec fn vote_of(votes: Seq<ModeVote>, id: Seq<char>) -> Option<GameMode> {
    if exists|k: int| vote_index(votes, id, k) {
        Some(votes[choose|k: int| vote_index(votes, id, k)].mode)
    } else {
        None
    }
}

/// With unique voters the vote of `id` is the one at its index.
pub proof fn lemma_vote_at(votes: Seq<ModeVote>, id: Seq<char>, k: int)
    requires
        unique_voters(votes),
        vote_index(votes, id, k),
    ensures
        vote_of(votes, id) == Some(votes[k].mode),
{
    let c = choose|j: int| vote_index(votes, id, j);
    if c != k {
        if c < k {
            assert(votes[c].player_id@ != votes[k].player_id@);
        } else {
            assert(votes[k].player_id@ != votes[c].player_id@);
        }
    }
}

/// The mode with index `i` among the two modes.
pub open spec fn mode_at(i: int) -> GameMode {
    if i == 0 {
        GameMode::Classic
    } else {
        GameMode::Cracked
    }
}

/// `a + b`, capped at `u64::MAX`.
pub open spec fn add_capped(a: u64, b: u64) -> u64 {
    if a + b > u64::MAX {
        u64::MAX
    } else {
        (a + b) as u64
    }
}

impl ModeChoice {
    /// A vote for `required_players` voters, closing `MODE_CHOICE_DURATION`
    /// after `now` (ms).
    pub fn new(required_players: usize, now: u64) -> (r: Self)
        ensures
            r.votes@.len() == 0,
            r.deadline == add_capped(now, (MODE_CHOICE_DURATION * 1000) as u64),
            r.chosen_mode is None,
            r.chosen_by is None,
            r.required_players == required_players,
    {
        ModeChoice {
            votes: Vec::new(),
            deadline: if now > u64::MAX - MODE_CHOICE_DURATION * 1000 {
                u64::MAX
            } else {
                now + MODE_CHOICE_DURATION * 1000
            },
            chosen_mode: None,
            chosen_by: None,
            required_players,
        }
    }

    /// Records (or replaces) the vote of `player_id`. Returns whether every
    /// required voter has now voted.
    pub fn receive_mode_vote(&mut self, player_id: String, mode: GameMode) -> (all_voted: bool)
        requires
            unique_voters(old(self).votes@),
        ensures
            unique_voters(final(self).votes@),
            vote_of(final(self).votes@, player_id@) == Some(mode),
            forall|id: Seq<char>|
                id != player_id@ ==> #[trigger] vote_of(final(self).votes@, id) == vote_of(old(self).votes@, id),
            final(self).votes@.len() == old(self).votes@.len() + if vote_of(old(self).votes@, player_id@) is Some {
                0int
            } else {
                1int
            },
            all_voted == (final(self).votes@.len() >= old(self).required_players),
            final(self).deadline == old(self).deadline,
            final(self).chosen_mode == old(self).chosen_mode,
            final(self).chosen_by == old(self).chosen_by,
            final(self).required_players == old(self).required_players,
    {
        let mut k: usize = 0;
        while k < self.votes.len()
            invariant
                k <= self.votes@.len(),
                *self == *old(self),
                unique_voters(old(self).votes@),
                forall|j: int| 0 <= j < k ==> !vote_index(self.votes@, player_id@, j),
            decreases self.votes@.len() - k,
        {
            if self.votes[k].player_id == player_id {
                proof {
                    lemma_vote_at(self.votes@, player_id@, k as int);
                }
                self.votes[k].mode = mode;
                proof {
                    let o = old(self).votes@;
                    let f = self.votes@;
                    assert forall|i: int, j: int| 0 <= i < j < f.len() implies f[i].player_id@ != f[j].player_id@ by {
                        assert(f[i].player_id@ == o[i].player_id@ && f[j].player_id@ == o[j].player_id@);
                    }
                    lemma_vote_at(f, player_id@, k as int);
                    assert forall|id: Seq<char>| id != player_id@ implies #[trigger] vote_of(f, id) == vote_of(o, id) by {
                        if exists|j: int| vote_index(o, id, j) {
                            let j = choose|j: int| vote_index(o, id, j);
                            lemma_vote_at(o, id, j);
                            assert(vote_index(f, id, j));
                            lemma_vote_at(f, id, j);
                        } else {
                            assert forall|j: int| !vote_index(f, id, j) by {
                                if vote_index(f, id, j) {
                                    assert(vote_index(o, id, j));
                                }
                            }
                        }
                    }
                }
                return self.votes.len() >= self.required_players;
            }
            k = k + 1;
        }
        let ghost o = self.votes@;
        self.votes.push(ModeVote { player_id, mode });
        proof {
            let f = self.votes@;
            let n = o.len() as int;
            assert(unique_voters(f)) by {
                assert forall|i: int, j: int| 0 <= i < j < f.len() implies f[i].player_id@ != f[j].player_id@ by {
                    assert(f[i] == o[i]);
                    if j < n {
                        assert(f[j] == o[j]);
                    } else {
                        assert(!vote_index(o, f[j].player_id@, i));
                    }
                }
            }
            lemma_vote_at(f, f[n].player_id@, n);
            assert forall|id: Seq<char>| id != f[n].player_id@ implies #[trigger] vote_of(f, id) == vote_of(o, id) by {
                if exists|j: int| vote_index(o, id, j) {
                    let j = choose|j: int| vote_index(o, id, j);
                    lemma_vote_at(o, id, j);
                    assert(f[j] == o[j]);
                    lemma_vote_at(f, id, j);
                } else {
                    assert forall|j: int| !vote_index(f, id, j) by {
                        if vote_index(f, id, j) && j < n {
                            assert(f[j] == o[j]);
                            assert(vote_index(o, id, j));
                        }
                    }
                }
            }
            assert(!(exists|j: int| vote_index(o, f[n].player_id@, j)));
        }
        self.votes.len() >= self.required_players
    }

    /// Fixes the mode from picks drawn by the caller: with votes, voter
    /// `voter_pick` decides with their vote (voters are distinct, so each
    /// pick names one voter); with none, mode `mode_pick` is shown as chosen
    /// by roster member `member_pick`.
    pub fn choose_mode(
        &mut self,
        player_infos: &Vec<PlayerInfo>,
        voter_pick: usize,
        mode_pick: usize,
        member_pick: usize,
    ) -> (r: (GameMode, String))
        requires
            old(self).votes@.len() > 0 ==> voter_pick < old(self).votes@.len(),
            old(self).votes@.len() == 0 ==> mode_pick < 2 && member_pick < player_infos@.len(),
        ensures
            final(self).votes@ == old(self).votes@,
            final(self).deadline == old(self).deadline,
            final(self).required_players == old(self).required_players,
            final(self).chosen_mode == Some(r.0),
            final(self).chosen_by == Some(r.1),
            old(self).votes@.len() > 0 ==> r.0 == old(self).votes@[voter_pick as int].mode && r.1
                == old(self).votes@[voter_pick as int].player_id,
            old(self).votes@.len() == 0 ==> r.0 == mode_at(mode_pick as int) && r.1
                == player_infos@[member_pick as int].id,
    {
        let (mode, by) = if self.votes.len() > 0 {
            (self.votes[voter_pick].mode, self.votes[voter_pick].player_id.clone())
        } else {
            let m = if mode_pick == 0 {
                GameMode::Classic
            } else {
                GameMode::Cracked
            };
            (m, player_infos[member_pick].id.clone())
        };
        self.chosen_mode = Some(mode);
        self.chosen_by = Some(by.clone());
        (mode, by)
    }

    /// Picks the mode: a voter drawn uniformly decides with their vote; with
    /// no vote, a mode drawn uniformly, shown as chosen by a roster member
    /// drawn uniformly.
    pub fn finalize_mode_choice(&mut self, player_infos: &Vec<PlayerInfo>) -> (r: (GameMode, String))
        requires
            old(self).votes@.len() > 0 || player_infos@.len() > 0,
        ensures
            final(self).votes@ == old(self).votes@,
            final(self).deadline == old(self).deadline,
            final(self).required_players == old(self).required_players,
            final(self).chosen_mode == Some(r.0),
            final(self).chosen_by == Some(r.1),
            old(self).votes@.len() > 0 ==> exists|k: int|
                0 <= k < old(self).votes@.len() && (#[trigger] old(self).votes@[k]).player_id == r.1
                    && old(self).votes@[k].mode == r.0,
            old(self).votes@.len() == 0 ==> exists|k: int|
                0 <= k < player_infos@.len() && (#[trigger] player_infos@[k]).id == r.1,
    {
        if self.votes.len() > 0 {
            let k = random_below(self.votes.len());
            let r = self.choose_mode(player_infos, k, 0, 0);
            assert(old(self).votes@[k as int].player_id == r.1);
            r
        } else {
            let m = random_below(2);
            let k = random_below(player_infos.len());
            let r = self.choose_mode(player_infos, 0, m, k);
            assert(player_infos@[k as int].id == r.1);
            r
        }
    }

    /// Clears the vote for a new round closing `MODE_CHOICE_DURATION` after `now`.
    pub fn reset(&mut self, now: u64)
        ensures
            final(self).votes@.len() == 0,
            final(self).chosen_mode is None,
            final(self).chosen_by is None,
            final(self).deadline == add_capped(now, (MODE_CHOICE_DURATION * 1000) as u64),
            final(self).required_players == old(self).required_players,
    {
        self.votes = Vec::new();
        self.chosen_mode = None;
        self.chosen_by = None;
        self.deadline = if now > u64::MAX - MODE_CHOICE_DURATION * 1000 {
            u64::MAX
        } else {
            now + MODE_CHOICE_DURATION * 1000
        };
    }

    /// Whole seconds left before the deadline, at `now`.
    pub fn deadline_secs(&self, now: u64) -> (r: u64)
        ensures
            r == if self.deadline > now {
                ((self.deadline - now) / 1000) as u64
            } else {
                0
            },
    {
        if self.deadline > now {
            (self.deadline - now) / 1000
        } else {
            0
        }
    }
}

/// One running match.
#[derive(Debug, Clone)]
pub struct GameSession {
    pub game_id: u128,
    /// The frozen roster, in order; roster position `i` plays as player `i`.
    pub player_infos: Vec<PlayerInfo>,
    pub connections: ConnectionRegistry,
    /// Present once the mode is chosen.
    pub game_state: Option<GameState>,
    pub mode_choice: ModeChoice,
    /// Actions received this turn, at most one per identity.
    pub pending_actions: Vec<PendingAction>,
    pub turn_in_progress: bool,
    pub phase: GamePhase,
}

/// `k` is the index of `id` among `pending`.
pub open spec fn pending_index(pending: Seq<PendingAction>, id: Seq<char>, k: int) -> bool {
    0 <= k < pending.len() && (#[trigger] pending[k]).player_id@ == id
}

/// `id` already acted this turn.
pub open spec fn has_acted(pending: Seq<PendingAction>, id: Seq<char>) -> bool {
    exists|k: int| pending_index(pending, id, k)
}

/// No identity acted twice.
pub open spec fn unique_pending(pending: Seq<PendingAction>) -> bool {
    forall|i: int, j: int| 0 <= i < j < pending.len() ==> pending[i].player_id@ != pending[j].player_id@
}

/// The action `id` submitted this turn, or staying put.
pub open spec fn action_of(pending: Seq<PendingAction>, id: Seq<char>) -> PlayerAction {
    if has_acted(pending, id) {
        pending[choose|k: int| pending_index(pending, id, k)].action
    } else {
        PlayerAction::Move(Direction::Stay)
    }
}

/// `i` is the first roster position of `id`.
pub open spec fn roster_index(infos: Seq<PlayerInfo>, id: Seq<char>, i: int) -> bool {
    &&& 0 <= i < infos.len()
    &&& (#[trigger] infos[i]).id@ == id
    &&& forall|j: int| 0 <= j < i ==> (#[trigger] infos[j]).id@ != id
}

/// What one player's turn does: their action, then the rules that touch them.
pub open spec fn acted(o: GameState, f: GameState, i: int, action: PlayerAction) -> bool {
    exists|m: GameState| #[trigger] action_post(o, m, i, action) && crate::rules::player_rules_post(m, f, i)
}

/// One step of resolution for roster position `i`: a living player plays
/// their action; anyone else is skipped.
pub open spec fn resolve_step(o: GameState, f: GameState, i: int, action: PlayerAction) -> bool {
    if 0 <= i < o.players@.len() && o.players@[i].is_alive {
        acted(o, f, i, action)
    } else {
        f == o
    }
}

/// `f` is `o` after every roster member's action, in roster order.
pub open spec fn actions_applied(o: GameState, f: GameState, infos: Seq<PlayerInfo>, pending: Seq<PendingAction>) -> bool {
    exists|states: Seq<GameState>|
        {
            &&& states.len() == infos.len() + 1
            &&& states[0] == o
            &&& states.last() == f
            &&& forall|i: int|
                0 <= i < infos.len() ==> resolve_step(
                    #[trigger] states[i],
                    states[i + 1],
                    i,
                    action_of(pending, infos[i].id@),
                )
        }
}

/// What resolving a turn does to the game state: every action in roster
/// order, then the end-of-turn rules.
pub open spec fn turn_resolved(o: GameState, f: GameState, infos: Seq<PlayerInfo>, pending: Seq<PendingAction>) -> bool {
    exists|m: GameState, n: GameState|
        #[trigger] actions_applied(o, m, infos, pending) && #[trigger] rules_post(m, n) && players_pass(n, f)
}

impl GameSession {
    /// The match invariant.
    pub open spec fn wf(&self) -> bool {
        &&& 1 <= self.player_infos@.len() < 256
        &&& self.connections.wf()
        &&& unique_voters(self.mode_choice.votes@)
        &&& unique_pending(self.pending_actions@)
        &&& (self.phase == GamePhase::ModeChoice <==> self.game_state is None)
        &&& (self.phase == GamePhase::ModeChoice <==> self.mode_choice.chosen_mode is None)
        &&& (self.game_state matches Some(st) ==> st.wf())
        &&& (self.turn_in_progress ==> self.phase == GamePhase::InProgress && self.game_state->0.turn < u32::MAX)
    }

    /// A timer or a full set of actions for `turn` may resolve it now.
    pub open spec fn can_resolve(&self, turn: u32) -> bool {
        &&& self.phase == GamePhase::InProgress
        &&& self.turn_in_progress
        &&& self.game_state matches Some(st) && st.turn == turn
    }

    /// `id` is in the roster.
    pub open spec fn in_roster(&self, id: Seq<char>) -> bool {
        exists|i: int| 0 <= i < self.player_infos@.len() && (#[trigger] self.player_infos@[i]).id@ == id
    }

    /// A match for `player_infos` in its mode vote, closing
    /// `MODE_CHOICE_DURATION` after `now`.
    pub fn new(game_id: u128, player_infos: Vec<PlayerInfo>, now: u64) -> (r: Self)
        requires
            1 <= player_infos@.len() < 256,
        ensures
            r.wf(),
            r.game_id == game_id,
            r.player_infos@ == player_infos@,
            r.phase == GamePhase::ModeChoice,
            r.mode_choice.votes@.len() == 0,
            r.mode_choice.required_players == player_infos@.len(),
            r.connections.players@.len() == 0,
            r.connections.spectators@.len() == 0,
            !r.turn_in_progress,
    {
        let n = player_infos.len();
        GameSession {
            game_id,
            player_infos,
            connections: ConnectionRegistry::new(),
            game_state: None,
            mode_choice: ModeChoice::new(n, now),
            pending_actions: Vec::new(),
            turn_in_progress: false,
            phase: GamePhase::ModeChoice,
        }
    }

    /// Opens the mode vote: its deadline is set `MODE_CHOICE_DURATION` after
    /// `now`, the pre-game data goes out and the deadline timer starts.
    pub fn start_mode_choice(&mut self, now: u64) -> (effects: Vec<MatchEffect>)
        requires
            old(self).wf(),
            old(self).phase == GamePhase::ModeChoice,
        ensures
            final(self).wf(),
            final(self).mode_choice.votes@.len() == 0,
            final(self).mode_choice.deadline == add_capped(now, (MODE_CHOICE_DURATION * 1000) as u64),
            final(self).phase == GamePhase::ModeChoice,
            final(self).player_infos@ == old(self).player_infos@,
            effects@.len() == 2,
            effects@[0] is BroadcastPreGameData,
            effects@[1] is StartModeTimer,
    {
        self.mode_choice.reset(now);
        let mut effects: Vec<MatchEffect> = Vec::new();
        effects.push(MatchEffect::BroadcastPreGameData);
        effects.push(MatchEffect::StartModeTimer);
        effects
    }

    /// Registers a connection for `(identity, role)`, kicking the one it
    /// replaces, then brings it up to date: the pre-game data during the
    /// vote, the game state afterwards.
    pub fn register_session(&mut self, identity: &String, conn: u64, role: Role) -> (effects: Vec<MatchEffect>)
        requires
            old(self).wf(),
        ensures
            final(self).wf(),
            conn_of(final(self).connections.entries(role), identity@) == Some(conn),
            forall|id: Seq<char>|
                id != identity@ ==> #[trigger] conn_of(final(self).connections.entries(role), id) == conn_of(
                    old(self).connections.entries(role),
                    id,
                ),
            forall|other: Role|
                other != role ==> #[trigger] final(self).connections.entries(other) == old(self).connections.entries(other),
            final(self).phase == old(self).phase,
            final(self).game_state == old(self).game_state,
            final(self).player_infos@ == old(self).player_infos@,
            final(self).mode_choice == old(self).mode_choice,
            ({
                let last = if old(self).game_state is None {
                    MatchEffect::BroadcastPreGameData
                } else {
                    MatchEffect::SendState(conn)
                };
                match conn_of(old(self).connections.entries(role), identity@) {
                    Some(c) => if c != conn {
                        effects@ == seq![MatchEffect::Kick(c), last]
                    } else {
                        effects@ == seq![last]
                    },
                    None => effects@ == seq![last],
                }
            }),
    {
        let kicked = self.connections.register(identity, conn, role);
        let mut effects: Vec<MatchEffect> = Vec::new();
        match kicked {
            Some(c) => effects.push(MatchEffect::Kick(c)),
            None => {},
        }
        if self.game_state.is_none() {
            effects.push(MatchEffect::BroadcastPreGameData);
        } else {
            effects.push(MatchEffect::SendState(conn));
        }
        proof {
            let last = if old(self).game_state is None {
                MatchEffect::BroadcastPreGameData
            } else {
                MatchEffect::SendState(conn)
            };
            match kicked {
                Some(c) => assert(effects@ =~= seq![MatchEffect::Kick(c), last]),
                None => assert(effects@ =~= seq![last]),
            }
        }
        effects
    }

    /// Removes `(identity, role)` only when `conn` is its live connection.
    pub fn unregister_session(&mut self, identity: &String, conn: u64, role: Role) -> (removed: bool)
        requires
            old(self).wf(),
        ensures
            final(self).wf(),
            removed == (conn_of(old(self).connections.entries(role), identity@) == Some(conn)),
            conn_of(final(self).connections.entries(role), identity@) == if removed {
                None
            } else {
                conn_of(old(self).connections.entries(role), identity@)
            },
            forall|id: Seq<char>|
                id != identity@ ==> #[trigger] conn_of(final(self).connections.entries(role), id) == conn_of(
                    old(self).connections.entries(role),
                    id,
                ),
            forall|other: Role|
                other != role ==> #[trigger] final(self).connections.entries(other) == old(self).connections.entries(other),
            final(self).phase == old(self).phase,
            final(self).game_state == old(self).game_state,
            final(self).player_infos@ == old(self).player_infos@,
            final(self).mode_choice == old(self).mode_choice,
            final(self).pending_actions@ == old(self).pending_actions@,
    {
        self.connections.unregister(identity, conn, role)
    }

    /// Whether `id` is in the roster.
    pub fn is_player(&self, id: &String) -> (r: bool)
        ensures
            r == self.in_roster(id@),
    {
        let mut i: usize = 0;
        while i < self.player_infos.len()
            invariant
                i <= self.player_infos@.len(),
                forall|j: int| 0 <= j < i ==> (#[trigger] self.player_infos@[j]).id@ != id@,
            decreases self.player_infos@.len() - i,
        {
            if self.player_infos[i].id == *id {
                return true;
            }
            i = i + 1;
        }
        false
    }

    /// Starts a turn: actions are cleared, the turn timer starts and the
    /// state goes out with the turn length. A game whose turn counter is
    /// exhausted ends instead.
    pub fn start_new_turn(&mut self) -> (effects: Vec<MatchEffect>)
        requires
            old(self).wf(),
            old(self).phase == GamePhase::InProgress,
        ensures
            final(self).wf(),
            final(self).game_state == old(self).game_state,
            final(self).player_infos@ == old(self).player_infos@,
            final(self).mode_choice == old(self).mode_choice,
            final(self).connections == old(self).connections,
            final(self).game_id == old(self).game_id,
            final(self).pending_actions@.len() == 0,
            ({
                let turn = old(self).game_state->0.turn;
                if turn < u32::MAX {
                    &&& final(self).phase == GamePhase::InProgress
                    &&& final(self).turn_in_progress
                    &&& effects@ == seq![MatchEffect::StartTurnTimer(turn), MatchEffect::BroadcastState(TURN_DURATION)]
                } else {
                    &&& final(self).phase == GamePhase::Ended
                    &&& !final(self).turn_in_progress
                    &&& effects@ == seq![MatchEffect::BroadcastState(0)]
                }
            }),
    {
        self.pending_actions = Vec::new();
        let turn = match &self.game_state {
            Some(st) => st.turn,
            None => 0,
        };
        let mut effects: Vec<MatchEffect> = Vec::new();
        if turn < u32::MAX {
            self.turn_in_progress = true;
            effects.push(MatchEffect::StartTurnTimer(turn));
            effects.push(MatchEffect::BroadcastState(TURN_DURATION));
            assert(effects@ =~= seq![MatchEffect::StartTurnTimer(turn), MatchEffect::BroadcastState(TURN_DURATION)]);
        } else {
            self.turn_in_progress = false;
            self.phase = GamePhase::Ended;
            effects.push(MatchEffect::BroadcastState(0));
            assert(effects@ =~= seq![MatchEffect::BroadcastState(0)]);
        }
        effects
    }

    /// Closes the vote, once: the mode is drawn, announced, the deadline
    /// timer is cancelled, the game is set up with that mode and the first
    /// turn starts. Outside the vote it does nothing.
    pub fn finalize_mode_choice(&mut self) -> (effects: Vec<MatchEffect>)
        requires
            old(self).wf(),
        ensures
            final(self).wf(),
            finalize_post(*old(self), *final(self), effects@),
    {
        if self.phase != GamePhase::ModeChoice {
            return Vec::new();
        }
        let (mode, by) = self.mode_choice.finalize_mode_choice(&self.player_infos);
        let mut roster: Vec<PlayerInfo> = Vec::new();
        let mut i: usize = 0;
        while i < self.player_infos.len()
            invariant
                i <= self.player_infos@.len(),
                roster@ == self.player_infos@.take(i as int),
            decreases self.player_infos@.len() - i,
        {
            roster.push(PlayerInfo { id: self.player_infos[i].id.clone(), username: self.player_infos[i].username.clone() });
            assert(roster@ =~= self.player_infos@.take(i + 1));
            i = i + 1;
        }
        assert(roster@ =~= self.player_infos@);
        let st = GameState::new(GRID_ROW, GRID_COL, roster, mode);
        self.game_state = Some(st);
        self.phase = GamePhase::InProgress;
        self.turn_in_progress = false;
        let mut effects: Vec<MatchEffect> = Vec::new();
        effects.push(MatchEffect::ModeChosen(mode, by));
        effects.push(MatchEffect::CancelModeTimer);
        let mut more = self.start_new_turn();
        effects.append(&mut more);
        assert(effects@ =~= seq![
            MatchEffect::ModeChosen(mode, by),
            MatchEffect::CancelModeTimer,
            MatchEffect::StartTurnTimer(1),
            MatchEffect::BroadcastState(TURN_DURATION),
        ]);
        effects
    }

    /// A vote from `player_id`: recorded (a later vote replaces an earlier
    /// one) and announced; the vote closes once every roster member voted.
    /// Votes outside the vote phase or from outside the roster are ignored.
    pub fn receive_mode_vote(&mut self, player_id: String, mode: GameMode) -> (effects: Vec<MatchEffect>)
        requires
            old(self).wf(),
        ensures
            final(self).wf(),
            final(self).player_infos@ == old(self).player_infos@,
            !(old(self).phase == GamePhase::ModeChoice && old(self).in_roster(player_id@)) ==> *final(self)
                == *old(self) && effects@.len() == 0,
            old(self).phase == GamePhase::ModeChoice && old(self).in_roster(player_id@) ==> {
                &&& effects@.len() >= 1
                &&& effects@[0] == MatchEffect::VoteUpdate(player_id, mode)
                &&& vote_of(final(self).mode_choice.votes@, player_id@) == Some(mode)
                &&& forall|id: Seq<char>|
                    id != player_id@ ==> #[trigger] vote_of(final(self).mode_choice.votes@, id) == vote_of(
                        old(self).mode_choice.votes@,
                        id,
                    )
                &&& if final(self).mode_choice.votes@.len() >= old(self).mode_choice.required_players {
                    exists|m: GameSession|
                        #[trigger] mode_fixed(m, *final(self), effects@.drop_first()) && m.player_infos@
                            == old(self).player_infos@ && m.connections == old(self).connections
                            && m.mode_choice.votes@ == final(self).mode_choice.votes@
                } else {
                    &&& final(self).phase == GamePhase::ModeChoice
                    &&& final(self).game_state is None
                    &&& effects@.len() == 1
                }
            },
    {
        if self.phase != GamePhase::ModeChoice {
            return Vec::new();
        }
        let mut known = false;
        let mut i: usize = 0;
        while i < self.player_infos.len()
            invariant
                i <= self.player_infos@.len(),
                known == exists|j: int| 0 <= j < i && (#[trigger] self.player_infos@[j]).id@ == player_id@,
            decreases self.player_infos@.len() - i,
        {
            if self.player_infos[i].id == player_id {
                known = true;
            }
            i = i + 1;
        }
        if !known {
            return Vec::new();
        }
        let mut effects: Vec<MatchEffect> = Vec::new();
        effects.push(MatchEffect::VoteUpdate(player_id.clone(), mode));
        let all_voted = self.mode_choice.receive_mode_vote(player_id, mode);
        if all_voted {
            let ghost pre = effects@;
            let ghost m = *self;
            let mut more = self.finalize_mode_choice();
            let ghost e = more@;
            effects.append(&mut more);
            assert(effects@[0] == pre[0]);
            assert(effects@.drop_first() =~= e);
            assert(mode_fixed(m, *self, effects@.drop_first()));
        }
        effects
    }

    /// The vote deadline fired: close the vote if it is still open.
    pub fn on_mode_deadline(&mut self) -> (effects: Vec<MatchEffect>)
        requires
            old(self).wf(),
        ensures
            final(self).wf(),
            finalize_post(*old(self), *final(self), effects@),
    {
        self.finalize_mode_choice()
    }
}

/// With unique identities the action of `id` is the one at its index.
pub proof fn lemma_pending_at(pending: Seq<PendingAction>, id: Seq<char>, k: int)
    requires
        unique_pending(pending),
        pending_index(pending, id, k),
    ensures
        action_of(pending, id) == pending[k].action,
{
    let c = choose|j: int| pending_index(pending, id, j);
    if c != k {
        if c < k {
            assert(pending[c].player_id@ != pending[k].player_id@);
        } else {
            assert(pending[k].player_id@ != pending[c].player_id@);
        }
    }
}

/// No more players are alive than there are players.
pub proof fn lemma_count_alive_bound(ps: Seq<Player>)
    ensures
        count_alive(ps) <= ps.len(),
    decreases ps.len(),
{
    if ps.len() > 0 {
        lemma_count_alive_bound(ps.drop_last());
    }
}

/// Number of living players.
pub fn count_alive_players(players: &Vec<Player>) -> (r: usize)
    ensures
        r == count_alive(players@),
{
    let mut r: usize = 0;
    let mut i: usize = 0;
    while i < players.len()
        invariant
            i <= players@.len(),
            r == count_alive(players@.take(i as int)),
        decreases players@.len() - i,
    {
        proof {
            assert(players@.take(i + 1).drop_last() == players@.take(i as int));
            lemma_count_alive_bound(players@.take(i as int));
        }
        if players[i].is_alive {
            r = r + 1;
        }
        i = i + 1;
    }
    assert(players@.take(i as int) == players@);
    r
}

/// What `resolve_turn` does for `turn`: nothing unless that turn is open;
/// otherwise every action in roster order, then the end-of-turn rules, and
/// the next turn starts while more than one player lives, or the game ends.
pub open spec fn resolve_post(o: GameSession, f: GameSession, turn: u32, effects: Seq<MatchEffect>) -> bool {
    if o.can_resolve(turn) {
        let st = f.game_state->0;
        &&& f.game_state is Some
        &&& turn_resolved(o.game_state->0, st, o.player_infos@, o.pending_actions@)
        &&& st.turn == turn + 1
        &&& st.players@.len() == o.game_state->0.players@.len()
        &&& !f.can_resolve(turn)
        &&& f.pending_actions@.len() == 0
        &&& f.player_infos@ == o.player_infos@
        &&& f.mode_choice == o.mode_choice
        &&& if st.alive_count() > 1 && st.turn < u32::MAX {
            &&& f.phase == GamePhase::InProgress
            &&& f.turn_in_progress
            &&& effects == seq![MatchEffect::StartTurnTimer(st.turn), MatchEffect::BroadcastState(TURN_DURATION)]
        } else {
            &&& f.phase == GamePhase::Ended
            &&& !f.turn_in_progress
            &&& effects == seq![MatchEffect::BroadcastState(0)]
        }
    } else {
        f == o && effects.len() == 0
    }
}

/// What closing an open vote does: the mode is drawn (from a voter when
/// there are votes), the game is set up with it, the first turn opens, and
/// the effects announce the mode, cancel the deadline and start the turn.
pub open spec fn mode_fixed(o: GameSession, f: GameSession, effects: Seq<MatchEffect>) -> bool {
    let st = f.game_state->0;
    let by = f.mode_choice.chosen_by->0;
    &&& f.game_state is Some
    &&& f.mode_choice.chosen_by is Some
    &&& f.mode_choice.chosen_mode == Some(st.mode)
    &&& fresh_game(st, GRID_ROW as int, GRID_COL as int, o.player_infos@, st.mode)
    &&& o.mode_choice.votes@.len() > 0 ==> exists|k: int|
        0 <= k < o.mode_choice.votes@.len() && (#[trigger] o.mode_choice.votes@[k]).player_id == by
            && o.mode_choice.votes@[k].mode == st.mode
    &&& o.mode_choice.votes@.len() == 0 ==> exists|k: int|
        0 <= k < o.player_infos@.len() && (#[trigger] o.player_infos@[k]).id == by
    &&& f.phase == GamePhase::InProgress
    &&& f.turn_in_progress
    &&& f.pending_actions@.len() == 0
    &&& f.player_infos@ == o.player_infos@
    &&& f.connections == o.connections
    &&& f.mode_choice.votes@ == o.mode_choice.votes@
    &&& f.mode_choice.required_players == o.mode_choice.required_players
    &&& f.mode_choice.deadline == o.mode_choice.deadline
    &&& f.game_id == o.game_id
    &&& effects == seq![
        MatchEffect::ModeChosen(st.mode, by),
        MatchEffect::CancelModeTimer,
        MatchEffect::StartTurnTimer(1),
        MatchEffect::BroadcastState(TURN_DURATION),
    ]
}

/// The vote closes only from the vote phase, as `mode_fixed` says; at any
/// other time closing it changes nothing.
pub open spec fn finalize_post(o: GameSession, f: GameSession, effects: Seq<MatchEffect>) -> bool {
    if o.phase == GamePhase::ModeChoice {
        mode_fixed(o, f, effects)
    } else {
        f == o && effects.len() == 0
    }
}

impl GameSession {
    /// The action `id` submitted this turn, or staying put.
    fn action_for(&self, id: &String) -> (r: PlayerAction)
        requires
            unique_pending(self.pending_actions@),
        ensures
            r == action_of(self.pending_actions@, id@),
    {
        let mut k: usize = 0;
        while k < self.pending_actions.len()
            invariant
                k <= self.pending_actions@.len(),
                unique_pending(self.pending_actions@),
                forall|j: int| 0 <= j < k ==> !pending_index(self.pending_actions@, id@, j),
            decreases self.pending_actions@.len() - k,
        {
            if self.pending_actions[k].player_id == *id {
                proof {
                    lemma_pending_at(self.pending_actions@, id@, k as int);
                }
                return self.pending_actions[k].action;
            }
            k = k + 1;
        }
        PlayerAction::Move(Direction::Stay)
    }

    /// Resolves `turn` if it is still open: each living roster member's
    /// action (staying put when none came) is applied in roster order, the
    /// end-of-turn rules run, and the next turn starts while more than one
    /// player lives; otherwise the game ends. Resolving a turn that was
    /// already resolved, or is not the current one, does nothing.
    pub fn resolve_turn(&mut self, turn: u32) -> (effects: Vec<MatchEffect>)
        requires
            old(self).wf(),
        ensures
            final(self).wf(),
            resolve_post(*old(self), *final(self), turn, effects@),
    {
        if !(self.phase == GamePhase::InProgress && self.turn_in_progress) {
            return Vec::new();
        }
        let current = match &self.game_state {
            Some(st) => st.turn,
            None => {
                return Vec::new();
            },
        };
        if current != turn {
            return Vec::new();
        }
        let ghost o = *self;
        let mut st = match self.game_state.take() {
            Some(st) => st,
            None => {
                return Vec::new();
            },
        };
        self.turn_in_progress = false;
        let ghost st0 = st;
        let ghost mut states: Seq<GameState> = seq![st];
        let n = self.player_infos.len();
        let mut i: usize = 0;
        while i < n
            invariant
                i <= n == self.player_infos@.len() == o.player_infos@.len(),
                self.player_infos@ == o.player_infos@,
                self.pending_actions@ == o.pending_actions@,
                unique_pending(self.pending_actions@),
                st.wf(),
                st.turn == turn,
                turn < u32::MAX,
                st.players@.len() == st0.players@.len(),
                states.len() == i + 1,
                states[0] == st0,
                states.last() == st,
                forall|j: int|
                    0 <= j < i ==> resolve_step(
                        #[trigger] states[j],
                        states[j + 1],
                        j,
                        action_of(o.pending_actions@, o.player_infos@[j].id@),
                    ),
            decreases n - i,
        {
            let ghost before = st;
            if i < st.players.len() && st.players[i].is_alive {
                let action = self.action_for(&self.player_infos[i].id);
                st.apply_player_action(action, i);
            }
            proof {
                let prev = states;
                states = states.push(st);
                assert forall|j: int| 0 <= j < i + 1 implies resolve_step(
                    #[trigger] states[j],
                    states[j + 1],
                    j,
                    action_of(o.pending_actions@, o.player_infos@[j].id@),
                ) by {
                    if j < i {
                        assert(states[j] == prev[j] && states[j + 1] == prev[j + 1]);
                    } else {
                        assert(states[j] == before);
                    }
                }
            }
            i = i + 1;
        }
        assert(actions_applied(st0, st, o.player_infos@, o.pending_actions@));
        let ghost m = st;
        st.next_turn();
        assert(turn_resolved(st0, st, o.player_infos@, o.pending_actions@));
        let alive = count_alive_players(&st.players);
        let next = st.turn;
        self.game_state = Some(st);
        self.pending_actions = Vec::new();
        if alive > 1 && next < u32::MAX {
            self.start_new_turn()
        } else {
            self.phase = GamePhase::Ended;
            let mut effects: Vec<MatchEffect> = Vec::new();
            effects.push(MatchEffect::BroadcastState(0));
            assert(effects@ =~= seq![MatchEffect::BroadcastState(0)]);
            effects
        }
    }

    /// The timer of `turn` fired.
    pub fn on_turn_timer(&mut self, turn: u32) -> (effects: Vec<MatchEffect>)
        requires
            old(self).wf(),
        ensures
            final(self).wf(),
            resolve_post(*old(self), *final(self), turn, effects@),
    {
        self.resolve_turn(turn)
    }

    /// An action from `player_id` on connection `conn`. It is dropped unless
    /// `conn` is that player's live connection, a turn is open, the player is
    /// a living roster member and has not acted this turn. Once every living
    /// player has acted, the turn timer is cancelled and the turn resolves.
    pub fn process_client_message(&mut self, player_id: &String, conn: u64, action: PlayerAction) -> (effects: Vec<
        MatchEffect,
    >)
        requires
            old(self).wf(),
        ensures
            final(self).wf(),
            final(self).player_infos@ == old(self).player_infos@,
            old(self).game_state is Some ==> final(self).game_state is Some
                && final(self).game_state->0.players@.len() == old(self).game_state->0.players@.len(),
            ({
                let o = *old(self);
                let f = *final(self);
                let st = o.game_state->0;
                let accepted = conn_of(o.connections.players@, player_id@) == Some(conn) && o.phase
                    == GamePhase::InProgress && o.turn_in_progress && (exists|i: int|
                    #[trigger] roster_index(o.player_infos@, player_id@, i) && i < st.players@.len()
                        && st.players@[i].is_alive) && !has_acted(o.pending_actions@, player_id@);
                let pending = o.pending_actions@.push(PendingAction { player_id: *player_id, action });
                if !accepted {
                    f == o && effects@.len() == 0
                } else if pending.len() >= st.alive_count() {
                    exists|mid: GameSession, e: Seq<MatchEffect>|
                        #[trigger] resolve_post(mid, f, st.turn, e) && mid.pending_actions@ == pending
                            && mid.game_state == o.game_state && mid.player_infos@ == o.player_infos@
                            && mid.can_resolve(st.turn) && effects@ == seq![MatchEffect::CancelTurnTimer] + e
                } else {
                    &&& f.pending_actions@ == pending
                    &&& f.game_state == o.game_state
                    &&& f.phase == o.phase
                    &&& f.turn_in_progress == o.turn_in_progress
                    &&& effects@.len() == 0
                }
            }),
    {
        if !self.connections.is_current(player_id, conn, Role::Player) {
            return Vec::new();
        }
        if !(self.phase == GamePhase::InProgress && self.turn_in_progress) {
            return Vec::new();
        }
        let mut i: usize = 0;
        while i < self.player_infos.len() && self.player_infos[i].id != *player_id
            invariant
                i <= self.player_infos@.len(),
                forall|j: int| 0 <= j < i ==> (#[trigger] self.player_infos@[j]).id@ != player_id@,
            decreases self.player_infos@.len() - i,
        {
            i = i + 1;
        }
        if i == self.player_infos.len() {
            proof {
                assert forall|k: int| !roster_index(self.player_infos@, player_id@, k) by {}
            }
            return Vec::new();
        }
        proof {
            assert(roster_index(self.player_infos@, player_id@, i as int));
            assert forall|k: int| #[trigger] roster_index(self.player_infos@, player_id@, k) implies k == i by {
                if k < i {
                } else if k > i {
                    assert(self.player_infos@[i as int].id@ == player_id@);
                }
            }
        }
        let (alive_here, alive, turn) = match &self.game_state {
            Some(st) => (i < st.players.len() && st.players[i].is_alive, count_alive_players(&st.players), st.turn),
            None => (false, 0, 0),
        };
        if !alive_here {
            return Vec::new();
        }
        let mut k: usize = 0;
        while k < self.pending_actions.len()
            invariant
                k <= self.pending_actions@.len(),
                forall|j: int| 0 <= j < k ==> !pending_index(self.pending_actions@, player_id@, j),
                *self == *old(self),
                old(self).wf(),
                self.game_state is Some,
                alive == self.game_state->0.alive_count(),
                turn == self.game_state->0.turn,
                roster_index(self.player_infos@, player_id@, i as int),
                forall|k2: int| #[trigger] roster_index(self.player_infos@, player_id@, k2) ==> k2 == i,
                (i as int) < self.game_state->0.players@.len(),
                self.game_state->0.players@[i as int].is_alive,
                conn_of(self.connections.players@, player_id@) == Some(conn),
                self.phase == GamePhase::InProgress,
                self.turn_in_progress,
            decreases self.pending_actions@.len() - k,
        {
            if self.pending_actions[k].player_id == *player_id {
                assert(pending_index(self.pending_actions@, player_id@, k as int));
                assert(has_acted(old(self).pending_actions@, player_id@));
                return Vec::new();
            }
            k = k + 1;
        }
        let ghost o = *self;
        self.pending_actions.push(PendingAction { player_id: player_id.clone(), action });
        proof {
            let before_pending = o.pending_actions@;
            let after_pending = self.pending_actions@;
            assert forall|a: int, b: int| 0 <= a < b < after_pending.len() implies after_pending[a].player_id@ != after_pending[b].player_id@ by {
                assert(after_pending[a] == before_pending[a]);
                if b < before_pending.len() {
                    assert(after_pending[b] == before_pending[b]);
                } else {
                    assert(!pending_index(before_pending, player_id@, a));
                }
            }
        }
        if self.pending_actions.len() >= alive {
            let mut effects: Vec<MatchEffect> = Vec::new();
            effects.push(MatchEffect::CancelTurnTimer);
            let ghost mid = *self;
            let mut more = self.resolve_turn(turn);
            let ghost e = more@;
            effects.append(&mut more);
            assert(resolve_post(mid, *self, turn, e));
            assert(effects@ =~= seq![MatchEffect::CancelTurnTimer] + e);
            effects
        } else {
            Vec::new()
        }
    }
}

} // verus!
