//! The matchmaking lobby: players wait, opt in ("pay") into ready groups,
//! a countdown runs once the first group is viable, and a full or expired
//! group is handed off to match creation.
//!
//! Each handler updates the state and returns the effects the transport must
//! carry out, in order.

use vstd::prelude::*;
use crate::game::PlayerInfo;
use crate::random::new_game_id;

verus! {

/// Countdown before a viable group is launched, in seconds.
pub const COUNTDOWN_DURATION_SECS: u64 = 30;

/// Fewest players a match starts with.
pub const MIN_PLAYERS: usize = 2;

/// Most players a match holds.
pub const MAX_PLAYERS: usize = 3;

/// A participant of the lobby and its live connection.
#[derive(Debug, Clone)]
pub struct ConnectedPlayer {
    pub info: PlayerInfo,
    pub addr: u64,
}

/// A group handed off to match creation.
#[derive(Debug, Clone)]
pub struct LaunchedGame {
    pub game_id: u128,
    /// The frozen roster, in group order.
    pub players: Vec<PlayerInfo>,
    /// The members' connections, in the same order.
    pub conns: Vec<u64>,
}

/// What the transport must do after a lobby handler ran.
#[derive(Debug, Clone)]
pub enum LobbyEffect {
    /// Tell this connection another session took its identity, then close it.
    Kick(u64),
    /// Send the current lobby state to every connection.
    BroadcastState,
    /// Schedule the countdown expiry `COUNTDOWN_DURATION_SECS` from now.
    StartCountdown,
    /// Cancel the scheduled countdown expiry.
    CancelCountdown,
    /// Create the match and tell each member its id.
    GameStarted(LaunchedGame),
    /// Tell this connection its payment cannot be cancelled during a countdown.
    CancelRejected(u64),
}

/// The lobby state sent to clients.
#[derive(Debug, Clone)]
pub struct MatchmakingState {
    pub lobby_players: Vec<PlayerInfo>,
    pub ready_players: Vec<PlayerInfo>,
    pub countdown_active: bool,
    pub countdown_remaining: Option<u64>,
}

/// The lobby coordinator.
#[derive(Debug, Clone)]
pub struct MatchmakingServer {
    /// Players not yet ready.
    pub lobby_players: Vec<ConnectedPlayer>,
    /// Ready groups, first in line first.
    pub ready_groups: Vec<Vec<ConnectedPlayer>>,
    /// Start time (ms) of the running countdown.
    pub countdown: Option<u64>,
    pub min_players: usize,
    pub max_players: usize,
}

/// The identity of a connected player.
pub open spec fn pid(p: ConnectedPlayer) -> Seq<char> {
    p.info.id@
}

/// `k` is an index of `id` in `s`.
pub open spec fn at_index(s: Seq<ConnectedPlayer>, id: Seq<char>, k: int) -> bool {
    0 <= k < s.len() && pid(#[trigger] s[k]) == id
}

/// `id` occurs in `s`.
pub open spec fn in_list(s: Seq<ConnectedPlayer>, id: Seq<char>) -> bool {
    exists|k: int| at_index(s, id, k)
}

/// No identity occurs twice in `s`.
pub open spec fn distinct_ids(s: Seq<ConnectedPlayer>) -> bool {
    forall|i: int, j: int| 0 <= i < j < s.len() ==> pid(s[i]) != pid(s[j])
}

/// `id` is a member of some group.
pub open spec fn in_groups(gs: Seq<Vec<ConnectedPlayer>>, id: Seq<char>) -> bool {
    exists|g: int| 0 <= g < gs.len() && in_list(#[trigger] gs[g]@, id)
}

/// `id` is bound to `conn` in `s`.
pub open spec fn bound_in(s: Seq<ConnectedPlayer>, id: Seq<char>, conn: u64) -> bool {
    exists|k: int| at_index(s, id, k) && s[k].addr == conn
}

/// Groups are non-empty, within capacity and without repeats, and no
/// identity is in two groups.
pub open spec fn groups_wf(gs: Seq<Vec<ConnectedPlayer>>, max: usize) -> bool {
    &&& forall|g: int|
        0 <= g < gs.len() ==> 1 <= (#[trigger] gs[g]@).len() <= max && distinct_ids(gs[g]@)
    &&& forall|g1: int, g2: int, id: Seq<char>|
        0 <= g1 < g2 < gs.len() ==> !(in_list(#[trigger] gs[g1]@, id) && #[trigger] in_list(
            gs[g2]@,
            id,
        ))
}

impl MatchmakingServer {
    /// The lobby invariant: each identity is in at most one place, the lobby
    /// and the groups are disjoint, and every group holds between one and
    /// `max_players` members.
    pub open spec fn wf(&self) -> bool {
        &&& 1 <= self.min_players <= self.max_players
        &&& distinct_ids(self.lobby_players@)
        &&& groups_wf(self.ready_groups@, self.max_players)
        &&& forall|g: int, id: Seq<char>|
            0 <= g < self.ready_groups@.len() ==> !(#[trigger] in_list(self.lobby_players@, id)
                && #[trigger] in_list(self.ready_groups@[g]@, id))
    }

    /// `id` is in the lobby or in a group.
    pub open spec fn is_member(&self, id: Seq<char>) -> bool {
        in_list(self.lobby_players@, id) || in_groups(self.ready_groups@, id)
    }

    /// `id` is bound to `conn`, in the lobby or in a group.
    pub open spec fn bound(&self, id: Seq<char>, conn: u64) -> bool {
        bound_in(self.lobby_players@, id, conn) || exists|g: int|
            0 <= g < self.ready_groups@.len() && bound_in(#[trigger] self.ready_groups@[g]@, id, conn)
    }
}

/// Pushing adds exactly the pushed identity.
pub proof fn lemma_in_list_push(s: Seq<ConnectedPlayer>, p: ConnectedPlayer, id: Seq<char>)
    ensures
        in_list(s.push(p), id) == (in_list(s, id) || pid(p) == id),
{
    let t = s.push(p);
    if in_list(s, id) {
        let k = choose|k: int| at_index(s, id, k);
        assert(at_index(t, id, k));
    }
    if pid(p) == id {
        assert(at_index(t, id, s.len() as int));
    }
    if in_list(t, id) {
        let k = choose|k: int| at_index(t, id, k);
        if k < s.len() {
            assert(at_index(s, id, k));
        }
    }
}

/// Removing index `r` removes exactly its identity from a list without repeats.
pub proof fn lemma_in_list_remove(s: Seq<ConnectedPlayer>, r: int, id: Seq<char>)
    requires
        0 <= r < s.len(),
        distinct_ids(s),
    ensures
        in_list(s.remove(r), id) == (in_list(s, id) && pid(s[r]) != id),
        distinct_ids(s.remove(r)),
{
    let t = s.remove(r);
    if in_list(t, id) {
        let k = choose|k: int| at_index(t, id, k);
        let ok = if k < r { k } else { k + 1 };
        assert(t[k] == s[ok]);
        assert(at_index(s, id, ok));
        if ok < r {
            assert(pid(s[ok]) != pid(s[r]));
        } else {
            assert(pid(s[r]) != pid(s[ok]));
        }
    }
    if in_list(s, id) && pid(s[r]) != id {
        let k = choose|k: int| at_index(s, id, k);
        assert(k != r);
        let tk = if k < r { k } else { k - 1 };
        assert(t[tk] == s[k]);
        assert(at_index(t, id, tk));
    }
    assert forall|i: int, j: int| 0 <= i < j < t.len() implies pid(t[i]) != pid(t[j]) by {
        let oi = if i < r { i } else { i + 1 };
        let oj = if j < r { j } else { j + 1 };
        assert(t[i] == s[oi] && t[j] == s[oj]);
    }
}

/// Rebinding a member keeps the identities.
pub proof fn lemma_in_list_rebind(s: Seq<ConnectedPlayer>, k: int, p: ConnectedPlayer, id: Seq<char>)
    requires
        0 <= k < s.len(),
        pid(p) == pid(s[k]),
    ensures
        in_list(s.update(k, p), id) == in_list(s, id),
        distinct_ids(s) ==> distinct_ids(s.update(k, p)),
{
    let t = s.update(k, p);
    if in_list(s, id) {
        let j = choose|j: int| at_index(s, id, j);
        assert(at_index(t, id, j));
    }
    if in_list(t, id) {
        let j = choose|j: int| at_index(t, id, j);
        assert(at_index(s, id, j));
    }
    if distinct_ids(s) {
        assert forall|i: int, j: int| 0 <= i < j < t.len() implies pid(t[i]) != pid(t[j]) by {
            assert(pid(t[i]) == pid(s[i]) && pid(t[j]) == pid(s[j]));
        }
    }
}

/// A list without repeats binds each identity to one connection.
pub proof fn lemma_bound_unique(s: Seq<ConnectedPlayer>, id: Seq<char>, k: int, conn: u64)
    requires
        distinct_ids(s),
        at_index(s, id, k),
    ensures
        bound_in(s, id, conn) == (s[k].addr == conn),
{
    if bound_in(s, id, conn) {
        let j = choose|j: int| at_index(s, id, j) && s[j].addr == conn;
        if j < k {
            assert(pid(s[j]) != pid(s[k]));
        } else if j > k {
            assert(pid(s[k]) != pid(s[j]));
        }
    }
}

/// Index of `id` in `list`.
fn find_in_list(list: &Vec<ConnectedPlayer>, id: &String) -> (r: Option<usize>)
    ensures
        r matches Some(k) ==> at_index(list@, id@, k as int),
        r is None ==> !in_list(list@, id@),
{
    let mut k: usize = 0;
    while k < list.len()
        invariant
            k <= list@.len(),
            forall|j: int| 0 <= j < k ==> !at_index(list@, id@, j),
        decreases list@.len() - k,
    {
        if list[k].info.id == *id {
            return Some(k);
        }
        k = k + 1;
    }
    None
}

/// Group and index of `id` among `groups`.
fn find_in_groups(groups: &Vec<Vec<ConnectedPlayer>>, id: &String) -> (r: Option<(usize, usize)>)
    ensures
        r matches Some((g, k)) ==> g < groups@.len() && at_index(groups@[g as int]@, id@, k as int),
        r is None ==> !in_groups(groups@, id@),
{
    let mut g: usize = 0;
    while g < groups.len()
        invariant
            g <= groups@.len(),
            forall|j: int| 0 <= j < g ==> !in_list(#[trigger] groups@[j]@, id@),
        decreases groups@.len() - g,
    {
        match find_in_list(&groups[g], id) {
            Some(k) => {
                return Some((g, k));
            },
            None => {},
        }
        g = g + 1;
    }
    None
}

/// A copy of a player's identity and name.
fn copy_info(p: &PlayerInfo) -> (r: PlayerInfo)
    ensures
        r == *p,
{
    PlayerInfo { id: p.id.clone(), username: p.username.clone() }
}

/// Message: a connection opens for `player_id`.
#[derive(Debug, Clone)]
pub struct Join {
    pub player_id: String,
    pub addr: u64,
    pub username: String,
}

/// Message: a connection for `player_id` closes.
#[derive(Debug, Clone)]
pub struct Leave {
    pub player_id: String,
    pub addr: u64,
}

/// Message: `player_id` opts in to the next match.
#[derive(Debug, Clone)]
pub struct Pay {
    pub player_id: String,
    pub addr: u64,
}

/// Message: `player_id` withdraws from its ready group.
#[derive(Debug, Clone)]
pub struct CancelPayment {
    pub player_id: String,
    pub addr: u64,
}

/// `p` bound to another connection.
pub open spec fn rebind(p: ConnectedPlayer, addr: u64) -> ConnectedPlayer {
    ConnectedPlayer { addr, ..p }
}

/// Identities of `v` are among those of group `g`.
pub open spec fn subset_of(v: Seq<ConnectedPlayer>, w: Seq<ConnectedPlayer>) -> bool {
    forall|id: Seq<char>| #[trigger] in_list(v, id) ==> in_list(w, id)
}

/// Replacing group `g` by a valid group with fewer or the same identities
/// keeps the groups valid.
pub proof fn lemma_groups_update(gs: Seq<Vec<ConnectedPlayer>>, g: int, v: Vec<ConnectedPlayer>, max: usize)
    requires
        groups_wf(gs, max),
        0 <= g < gs.len(),
        1 <= v@.len() <= max,
        distinct_ids(v@),
        subset_of(v@, gs[g]@),
    ensures
        groups_wf(gs.update(g, v), max),
        forall|id: Seq<char>| #[trigger] in_groups(gs.update(g, v), id) ==> in_groups(gs, id),
{
    let t = gs.update(g, v);
    assert forall|g1: int, g2: int, id: Seq<char>|
        0 <= g1 < g2 < t.len() implies !(in_list(#[trigger] t[g1]@, id) && #[trigger] in_list(t[g2]@, id)) by {
        if in_list(t[g1]@, id) && in_list(t[g2]@, id) {
            assert(in_list(gs[g1]@, id));
            assert(in_list(gs[g2]@, id));
        }
    }
    assert forall|id: Seq<char>| #[trigger] in_groups(t, id) implies in_groups(gs, id) by {
        let h = choose|h: int| 0 <= h < t.len() && in_list(#[trigger] t[h]@, id);
        assert(in_list(gs[h]@, id));
    }
}

/// Dropping group `g` keeps the groups valid.
pub proof fn lemma_groups_remove(gs: Seq<Vec<ConnectedPlayer>>, g: int, max: usize)
    requires
        groups_wf(gs, max),
        0 <= g < gs.len(),
    ensures
        groups_wf(gs.remove(g), max),
        forall|id: Seq<char>|
            #[trigger] in_groups(gs.remove(g), id) == (in_groups(gs, id) && !in_list(gs[g]@, id)),
{
    let t = gs.remove(g);
    assert forall|h: int| 0 <= h < t.len() implies 1 <= (#[trigger] t[h]@).len() <= max && distinct_ids(t[h]@) by {
        let oh = if h < g { h } else { h + 1 };
        assert(t[h] == gs[oh]);
    }
    assert forall|g1: int, g2: int, id: Seq<char>|
        0 <= g1 < g2 < t.len() implies !(in_list(#[trigger] t[g1]@, id) && #[trigger] in_list(t[g2]@, id)) by {
        let o1 = if g1 < g { g1 } else { g1 + 1 };
        let o2 = if g2 < g { g2 } else { g2 + 1 };
        assert(t[g1] == gs[o1] && t[g2] == gs[o2]);
    }
    assert forall|id: Seq<char>| #[trigger] in_groups(t, id) == (in_groups(gs, id) && !in_list(gs[g]@, id)) by {
        if in_groups(t, id) {
            let h = choose|h: int| 0 <= h < t.len() && in_list(#[trigger] t[h]@, id);
            let oh = if h < g { h } else { h + 1 };
            assert(t[h] == gs[oh]);
            assert(in_list(gs[oh]@, id));
            if in_list(gs[g]@, id) {
                if oh < g {
                    assert(!(in_list(gs[oh]@, id) && in_list(gs[g]@, id)));
                } else {
                    assert(!(in_list(gs[g]@, id) && in_list(gs[oh]@, id)));
                }
            }
        }
        if in_groups(gs, id) && !in_list(gs[g]@, id) {
            let h = choose|h: int| 0 <= h < gs.len() && in_list(#[trigger] gs[h]@, id);
            assert(h != g);
            let th = if h < g { h } else { h - 1 };
            assert(t[th] == gs[h]);
        }
    }
}

/// Appending a valid group of newcomers keeps the groups valid.
pub proof fn lemma_groups_push(gs: Seq<Vec<ConnectedPlayer>>, v: Vec<ConnectedPlayer>, max: usize)
    requires
        groups_wf(gs, max),
        1 <= v@.len() <= max,
        distinct_ids(v@),
        forall|id: Seq<char>| #[trigger] in_list(v@, id) ==> !in_groups(gs, id),
    ensures
        groups_wf(gs.push(v), max),
        forall|id: Seq<char>| #[trigger] in_groups(gs.push(v), id) == (in_groups(gs, id) || in_list(v@, id)),
{
    let t = gs.push(v);
    let n = gs.len() as int;
    assert forall|h: int| 0 <= h < t.len() implies 1 <= (#[trigger] t[h]@).len() <= max && distinct_ids(t[h]@) by {
        if h < n {
            assert(t[h] == gs[h]);
        }
    }
    assert forall|g1: int, g2: int, id: Seq<char>|
        0 <= g1 < g2 < t.len() implies !(in_list(#[trigger] t[g1]@, id) && #[trigger] in_list(t[g2]@, id)) by {
        assert(t[g1] == gs[g1]);
        if g2 < n {
            assert(t[g2] == gs[g2]);
        } else if in_list(t[g1]@, id) && in_list(t[g2]@, id) {
            assert(in_groups(gs, id));
        }
    }
    assert forall|id: Seq<char>| #[trigger] in_groups(t, id) == (in_groups(gs, id) || in_list(v@, id)) by {
        if in_groups(t, id) {
            let h = choose|h: int| 0 <= h < t.len() && in_list(#[trigger] t[h]@, id);
            if h < n {
                assert(t[h] == gs[h]);
            }
        }
        if in_groups(gs, id) {
            let h = choose|h: int| 0 <= h < gs.len() && in_list(#[trigger] gs[h]@, id);
            assert(t[h] == gs[h]);
        }
        if in_list(v@, id) {
            assert(t[n] == v);
        }
    }
}

/// What `join` does for `id` on connection `addr` with name `username`.
pub open spec fn join_post(
    o: MatchmakingServer,
    f: MatchmakingServer,
    id: Seq<char>,
    addr: u64,
    username: Seq<char>,
    effects: Seq<LobbyEffect>,
) -> bool {
    if in_groups(o.ready_groups@, id) {
        exists|g: int, k: int|
            0 <= g < o.ready_groups@.len() && #[trigger] at_index(o.ready_groups@[g]@, id, k) && {
                let old_addr = o.ready_groups@[g]@[k].addr;
                &&& f.lobby_players@ == o.lobby_players@
                &&& f.ready_groups@.len() == o.ready_groups@.len()
                &&& forall|h: int|
                    0 <= h < o.ready_groups@.len() && h != g ==> #[trigger] f.ready_groups@[h]
                        == o.ready_groups@[h]
                &&& f.ready_groups@[g]@ == o.ready_groups@[g]@.update(
                    k,
                    rebind(o.ready_groups@[g]@[k], addr),
                )
                &&& effects == if old_addr != addr {
                    seq![LobbyEffect::Kick(old_addr), LobbyEffect::BroadcastState]
                } else {
                    seq![LobbyEffect::BroadcastState]
                }
            }
    } else if in_list(o.lobby_players@, id) {
        exists|k: int|
            #[trigger] at_index(o.lobby_players@, id, k) && {
                let old_addr = o.lobby_players@[k].addr;
                &&& f.ready_groups@ == o.ready_groups@
                &&& f.lobby_players@ == o.lobby_players@.update(
                    k,
                    rebind(o.lobby_players@[k], addr),
                )
                &&& effects == if old_addr != addr {
                    seq![LobbyEffect::Kick(old_addr), LobbyEffect::BroadcastState]
                } else {
                    seq![LobbyEffect::BroadcastState]
                }
            }
    } else {
        &&& f.ready_groups@ == o.ready_groups@
        &&& f.lobby_players@.len() == o.lobby_players@.len() + 1
        &&& f.lobby_players@.drop_last() == o.lobby_players@
        &&& pid(f.lobby_players@.last()) == id
        &&& f.lobby_players@.last().info.username@ == username
        &&& f.lobby_players@.last().addr == addr
        &&& effects == seq![LobbyEffect::BroadcastState]
    }
}

/// What `leave` does for `id` on connection `addr`.
pub open spec fn leave_post(o: MatchmakingServer, f: MatchmakingServer, id: Seq<char>, addr: u64, effects: Seq<LobbyEffect>) -> bool {
    if in_list(o.lobby_players@, id) && bound_in(o.lobby_players@, id, addr) {
        exists|k: int|
            #[trigger] at_index(o.lobby_players@, id, k) && f.lobby_players@ == o.lobby_players@.remove(k)
                && f.ready_groups@ == o.ready_groups@ && effects == seq![LobbyEffect::BroadcastState]
    } else if !in_list(o.lobby_players@, id) && o.bound(id, addr) && o.countdown is None {
        exists|g: int, k: int|
            0 <= g < o.ready_groups@.len() && #[trigger] at_index(o.ready_groups@[g]@, id, k)
                && member_removed(o.ready_groups@, f.ready_groups@, g, k) && f.lobby_players@
                == o.lobby_players@ && effects == seq![LobbyEffect::BroadcastState]
    } else {
        f == o && effects.len() == 0
    }
}

impl MatchmakingServer {
    /// An empty lobby with the default player limits.
    pub fn new() -> (r: Self)
        ensures
            r.wf(),
            r.lobby_players@.len() == 0,
            r.ready_groups@.len() == 0,
            r.countdown is None,
            r.min_players == MIN_PLAYERS,
            r.max_players == MAX_PLAYERS,
    {
        MatchmakingServer {
            lobby_players: Vec::new(),
            ready_groups: Vec::new(),
            countdown: None,
            min_players: MIN_PLAYERS,
            max_players: MAX_PLAYERS,
        }
    }

    /// An empty lobby with the given player limits.
    pub fn with_limits(min_players: usize, max_players: usize) -> (r: Self)
        requires
            1 <= min_players <= max_players,
        ensures
            r.wf(),
            r.lobby_players@.len() == 0,
            r.ready_groups@.len() == 0,
            r.countdown is None,
            r.min_players == min_players,
            r.max_players == max_players,
    {
        MatchmakingServer {
            lobby_players: Vec::new(),
            ready_groups: Vec::new(),
            countdown: None,
            min_players,
            max_players,
        }
    }

    /// This state with no countdown running.
    pub open spec fn without_countdown(self) -> MatchmakingServer {
        MatchmakingServer { countdown: None, ..self }
    }

    /// Limits and countdown are those of `o`.
    pub open spec fn same_settings(&self, o: MatchmakingServer) -> bool {
        self.countdown == o.countdown && self.min_players == o.min_players && self.max_players
            == o.max_players
    }

    /// A connection opens for an identity. A member already bound to another
    /// connection is rebound and the old connection kicked; a newcomer joins
    /// the lobby. The state is then broadcast.
    pub fn join(&mut self, msg: Join) -> (effects: Vec<LobbyEffect>)
        requires
            old(self).wf(),
        ensures
            final(self).wf(),
            final(self).same_settings(*old(self)),
            join_post(*old(self), *final(self), msg.player_id@, msg.addr, msg.username@, effects@),
    {
        let mut effects: Vec<LobbyEffect> = Vec::new();
        match find_in_groups(&self.ready_groups, &msg.player_id) {
            Some((g, k)) => {
                let old_addr = self.ready_groups[g][k].addr;
                if old_addr != msg.addr {
                    effects.push(LobbyEffect::Kick(old_addr));
                    let ghost gs0 = self.ready_groups@;
                    self.ready_groups[g][k].addr = msg.addr;
                    proof {
                        let v = self.ready_groups@[g as int];
                        lemma_in_list_rebind(gs0[g as int]@, k as int, rebind(gs0[g as int]@[k as int], msg.addr), msg.player_id@);
                        assert forall|id: Seq<char>| #[trigger] in_list(v@, id) implies in_list(gs0[g as int]@, id) by {
                            lemma_in_list_rebind(gs0[g as int]@, k as int, rebind(gs0[g as int]@[k as int], msg.addr), id);
                        }
                        lemma_groups_update(gs0, g as int, v, self.max_players);
                        assert(self.ready_groups@ == gs0.update(g as int, v));
                        assert forall|h: int, id: Seq<char>|
                            0 <= h < self.ready_groups@.len() implies !(#[trigger] in_list(self.lobby_players@, id)
                                && #[trigger] in_list(self.ready_groups@[h]@, id)) by {
                            if h == g {
                                lemma_in_list_rebind(gs0[g as int]@, k as int, rebind(gs0[g as int]@[k as int], msg.addr), id);
                            }
                        }
                    }
                }
                effects.push(LobbyEffect::BroadcastState);
                proof {
                    let o = *old(self);
                    let gi = g as int;
                    let ki = k as int;
                    assert(at_index(o.ready_groups@[gi]@, msg.player_id@, ki));
                    assert(self.ready_groups@[gi]@ =~= o.ready_groups@[gi]@.update(ki, rebind(o.ready_groups@[gi]@[ki], msg.addr)));
                    if old_addr != msg.addr {
                        assert(effects@ =~= seq![LobbyEffect::Kick(old_addr), LobbyEffect::BroadcastState]);
                    } else {
                        assert(effects@ =~= seq![LobbyEffect::BroadcastState]);
                    }
                    assert(join_post(o, *self, msg.player_id@, msg.addr, msg.username@, effects@));
                }
                return effects;
            },
            None => {},
        }
        match find_in_list(&self.lobby_players, &msg.player_id) {
            Some(k) => {
                let old_addr = self.lobby_players[k].addr;
                if old_addr != msg.addr {
                    effects.push(LobbyEffect::Kick(old_addr));
                    let ghost l0 = self.lobby_players@;
                    self.lobby_players[k].addr = msg.addr;
                    proof {
                        lemma_in_list_rebind(l0, k as int, rebind(l0[k as int], msg.addr), msg.player_id@);
                        assert forall|h: int, id: Seq<char>|
                            0 <= h < self.ready_groups@.len() implies !(#[trigger] in_list(self.lobby_players@, id)
                                && #[trigger] in_list(self.ready_groups@[h]@, id)) by {
                            lemma_in_list_rebind(l0, k as int, rebind(l0[k as int], msg.addr), id);
                        }
                    }
                }
                effects.push(LobbyEffect::BroadcastState);
                proof {
                    let o = *old(self);
                    let ki = k as int;
                    assert(at_index(o.lobby_players@, msg.player_id@, ki));
                    assert(self.lobby_players@ =~= o.lobby_players@.update(ki, rebind(o.lobby_players@[ki], msg.addr)));
                    if old_addr != msg.addr {
                        assert(effects@ =~= seq![LobbyEffect::Kick(old_addr), LobbyEffect::BroadcastState]);
                    } else {
                        assert(effects@ =~= seq![LobbyEffect::BroadcastState]);
                    }
                    assert(join_post(o, *self, msg.player_id@, msg.addr, msg.username@, effects@));
                }
                effects
            },
            None => {
                let ghost l0 = self.lobby_players@;
                let p = ConnectedPlayer {
                    info: PlayerInfo { id: msg.player_id, username: msg.username },
                    addr: msg.addr,
                };
                self.lobby_players.push(p);
                proof {
                    assert(self.lobby_players@ == l0.push(p));
                    assert forall|i: int, j: int| 0 <= i < j < self.lobby_players@.len() implies pid(self.lobby_players@[i])
                        != pid(self.lobby_players@[j]) by {
                        assert(self.lobby_players@[i] == l0[i]);
                        if j < l0.len() {
                            assert(self.lobby_players@[j] == l0[j]);
                        } else {
                            assert(at_index(l0, pid(p), i) ==> in_list(l0, pid(p)));
                        }
                    }
                    assert forall|h: int, id: Seq<char>|
                        0 <= h < self.ready_groups@.len() implies !(#[trigger] in_list(self.lobby_players@, id)
                            && #[trigger] in_list(self.ready_groups@[h]@, id)) by {
                        lemma_in_list_push(l0, p, id);
                        if id == pid(p) && in_list(self.ready_groups@[h]@, id) {
                            assert(in_groups(self.ready_groups@, id));
                        }
                    }
                    assert(self.lobby_players@.drop_last() =~= l0);
                }
                effects.push(LobbyEffect::BroadcastState);
                effects
            },
        }
    }
}

/// `f` is `o` with member `k` of group `g` removed, and the group dropped
/// when that leaves it empty.
pub open spec fn member_removed(o: Seq<Vec<ConnectedPlayer>>, f: Seq<Vec<ConnectedPlayer>>, g: int, k: int) -> bool {
    if o[g]@.len() == 1 {
        f == o.remove(g)
    } else {
        &&& f.len() == o.len()
        &&& forall|h: int| 0 <= h < o.len() && h != g ==> #[trigger] f[h] == o[h]
        &&& f[g]@ == o[g]@.remove(k)
    }
}

/// `launched` carries the roster and connections of `grp`, in order.
pub open spec fn carries(launched: LaunchedGame, grp: Seq<ConnectedPlayer>) -> bool {
    &&& launched.players@.len() == grp.len()
    &&& launched.conns@.len() == grp.len()
    &&& forall|i: int| 0 <= i < grp.len() ==> #[trigger] launched.players@[i] == grp[i].info
    &&& forall|i: int| 0 <= i < grp.len() ==> #[trigger] launched.conns@[i] == grp[i].addr
}

/// Index of the first group with at least `min` members.
pub open spec fn first_viable(gs: Seq<Vec<ConnectedPlayer>>, min: usize, g: int) -> bool {
    &&& 0 <= g < gs.len()
    &&& gs[g]@.len() >= min
    &&& forall|h: int| 0 <= h < g ==> (#[trigger] gs[h]@).len() < min
}

/// Some group has at least `min` members.
pub open spec fn has_viable(gs: Seq<Vec<ConnectedPlayer>>, min: usize) -> bool {
    exists|g: int| 0 <= g < gs.len() && (#[trigger] gs[g]@).len() >= min
}

/// Launching group `g` as `launched` at `now` leads from `o` to `f` with
/// `effects`: the group is removed, a running countdown is cancelled, and a
/// new countdown starts when another group is viable.
pub open spec fn launched_as(
    o: MatchmakingServer,
    f: MatchmakingServer,
    effects: Seq<LobbyEffect>,
    now: u64,
    g: int,
    launched: LaunchedGame,
) -> bool {
    let restart = has_viable(f.ready_groups@, f.min_players);
    &&& f.ready_groups@ == o.ready_groups@.remove(g)
    &&& o.min_players <= launched.players@.len() <= o.max_players
    &&& f.countdown == if restart {
        Some(now)
    } else {
        None
    }
    &&& effects == (if o.countdown is Some {
        seq![LobbyEffect::CancelCountdown]
    } else {
        seq![]
    }) + seq![LobbyEffect::GameStarted(launched)] + (if restart {
        seq![LobbyEffect::StartCountdown]
    } else {
        seq![]
    }) + seq![LobbyEffect::BroadcastState]
}

/// What `try_launch_next_game` does at `now`: when some group is viable, the
/// first viable one is launched and removed, a running countdown is
/// cancelled, and a new countdown starts when another group is viable.
pub open spec fn launch_post(o: MatchmakingServer, f: MatchmakingServer, effects: Seq<LobbyEffect>, now: u64) -> bool {
    &&& f.lobby_players@ == o.lobby_players@
    &&& f.min_players == o.min_players
    &&& f.max_players == o.max_players
    &&& if has_viable(o.ready_groups@, o.min_players) {
        exists|g: int, launched: LaunchedGame|
            #[trigger] first_viable(o.ready_groups@, o.min_players, g) && #[trigger] carries(
                launched,
                o.ready_groups@[g]@,
            ) && launched_as(o, f, effects, now, g, launched)
    } else {
        &&& f == o
        &&& effects.len() == 0
    }
}

/// Where `pay` places player `p`: in the first group with spare capacity,
/// or in a new group at the end.
pub open spec fn placed(o: Seq<Vec<ConnectedPlayer>>, f: Seq<Vec<ConnectedPlayer>>, p: ConnectedPlayer, max: usize) -> bool {
    if exists|j: int| 0 <= j < o.len() && (#[trigger] o[j]@).len() < max {
        exists|j: int|
            0 <= j < o.len() && (#[trigger] o[j]@).len() < max && (forall|h: int|
                0 <= h < j ==> (#[trigger] o[h]@).len() >= max) && f.len() == o.len() && f[j]@
                == o[j]@.push(p) && forall|h: int| 0 <= h < o.len() && h != j ==> #[trigger] f[h] == o[h]
    } else {
        &&& f.len() == o.len() + 1
        &&& f.drop_last() == o
        &&& f.last()@ == seq![p]
    }
}

/// What `pay` does once the player is placed: a full first group launches
/// at once (cancelling a running countdown); otherwise a viable first group
/// starts the countdown when none runs. The state is then broadcast.
pub open spec fn settle_post(m: MatchmakingServer, f: MatchmakingServer, effects: Seq<LobbyEffect>, now: u64) -> bool {
    let first = m.ready_groups@[0]@.len();
    if first >= m.max_players {
        exists|e: Seq<LobbyEffect>|
            #[trigger] launch_post(m.without_countdown(), f, e, now) && effects == (
            if m.countdown is Some {
                seq![LobbyEffect::CancelCountdown]
            } else {
                seq![]
            }) + e
    } else if first >= m.min_players && m.countdown is None {
        &&& f == MatchmakingServer { countdown: Some(now), ..m }
        &&& effects == seq![LobbyEffect::StartCountdown, LobbyEffect::BroadcastState]
    } else {
        &&& f == m
        &&& effects == seq![LobbyEffect::BroadcastState]
    }
}

/// Every ready player's identity and name, group by group.
pub open spec fn ready_infos(gs: Seq<Vec<ConnectedPlayer>>) -> Seq<PlayerInfo>
    decreases gs.len(),
{
    if gs.len() == 0 {
        seq![]
    } else {
        ready_infos(gs.drop_last()) + gs.last()@.map_values(|p: ConnectedPlayer| p.info)
    }
}

/// Seconds left of a countdown started at `start`, seen at `now`.
pub open spec fn remaining_secs(start: u64, now: u64) -> u64 {
    let elapsed = if now >= start {
        ((now - start) / 1000) as u64
    } else {
        0
    };
    if elapsed >= COUNTDOWN_DURATION_SECS {
        0
    } else {
        (COUNTDOWN_DURATION_SECS - elapsed) as u64
    }
}

impl MatchmakingServer {
    /// Removes member `k` of group `g`, dropping the group when it empties.
    fn remove_member(&mut self, g: usize, k: usize) -> (p: ConnectedPlayer)
        requires
            old(self).wf(),
            g < old(self).ready_groups@.len(),
            k < old(self).ready_groups@[g as int]@.len(),
        ensures
            final(self).wf(),
            p == old(self).ready_groups@[g as int]@[k as int],
            member_removed(old(self).ready_groups@, final(self).ready_groups@, g as int, k as int),
            final(self).lobby_players@ == old(self).lobby_players@,
            final(self).same_settings(*old(self)),
            forall|id: Seq<char>|
                #[trigger] in_groups(final(self).ready_groups@, id) == (in_groups(old(self).ready_groups@, id) && id != pid(p)),
    {
        let ghost gs0 = self.ready_groups@;
        let ghost v0 = gs0[g as int]@;
        let p = self.ready_groups[g].remove(k);
        proof {
            assert forall|id: Seq<char>| #[trigger] in_list(v0.remove(k as int), id) == (in_list(v0, id) && pid(v0[k as int]) != id) by {
                lemma_in_list_remove(v0, k as int, id);
            }
            lemma_in_list_remove(v0, k as int, pid(p));
            assert(at_index(v0, pid(p), k as int));
        }
        if self.ready_groups[g].len() == 0 {
            let ghost gs1 = self.ready_groups@;
            self.ready_groups.remove(g);
            proof {
                lemma_groups_remove(gs0, g as int, self.max_players);
                assert(gs1.remove(g as int) =~= gs0.remove(g as int)) by {
                    assert forall|h: int| 0 <= h < gs1.len() - 1 implies gs1.remove(g as int)[h] == gs0.remove(g as int)[h] by {
                        if h >= g {
                            assert(gs1[h + 1] == gs0[h + 1]);
                        }
                    }
                }
                assert forall|id: Seq<char>| #[trigger] in_groups(self.ready_groups@, id) == (in_groups(gs0, id) && id != pid(p)) by {
                    if in_list(v0, id) && id != pid(p) {
                        assert(in_list(v0.remove(k as int), id));
                    }
                }
                assert forall|h: int, id: Seq<char>|
                    0 <= h < self.ready_groups@.len() implies !(#[trigger] in_list(self.lobby_players@, id)
                        && #[trigger] in_list(self.ready_groups@[h]@, id)) by {
                    let oh = if h < g { h } else { h + 1 };
                    assert(self.ready_groups@[h] == gs0[oh]);
                }
            }
        } else {
            proof {
                let v = self.ready_groups@[g as int];
                lemma_groups_update(gs0, g as int, v, self.max_players);
                assert(self.ready_groups@ == gs0.update(g as int, v));
                assert forall|id: Seq<char>| #[trigger] in_groups(self.ready_groups@, id) == (in_groups(gs0, id) && id != pid(p)) by {
                    if in_groups(gs0, id) && id != pid(p) {
                        let h = choose|h: int| 0 <= h < gs0.len() && in_list(#[trigger] gs0[h]@, id);
                        if h == g {
                            assert(in_list(v@, id));
                        } else {
                            assert(self.ready_groups@[h] == gs0[h]);
                        }
                    }
                    if in_groups(self.ready_groups@, id) {
                        let h = choose|h: int| 0 <= h < gs0.len() && in_list(#[trigger] self.ready_groups@[h]@, id);
                        if h != g {
                            assert(self.ready_groups@[h] == gs0[h]);
                            if id == pid(p) {
                                assert(in_list(v0, id));
                                assert(!(in_list(gs0[h]@, id) && in_list(gs0[g as int]@, id)));
                                assert(!(in_list(gs0[g as int]@, id) && in_list(gs0[h]@, id)));
                            }
                        }
                    }
                }
                assert forall|h: int, id: Seq<char>|
                    0 <= h < self.ready_groups@.len() implies !(#[trigger] in_list(self.lobby_players@, id)
                        && #[trigger] in_list(self.ready_groups@[h]@, id)) by {
                    if h != g {
                        assert(self.ready_groups@[h] == gs0[h]);
                    }
                }
            }
        }
        p
    }

    /// A connection closes. The identity leaves the lobby, or its ready
    /// group, only when `addr` is its live connection; a member of a group
    /// cannot leave while a countdown runs.
    pub fn leave(&mut self, msg: Leave) -> (effects: Vec<LobbyEffect>)
        requires
            old(self).wf(),
        ensures
            final(self).wf(),
            final(self).same_settings(*old(self)),
            leave_post(*old(self), *final(self), msg.player_id@, msg.addr, effects@),
            !final(self).bound(msg.player_id@, msg.addr) || *final(self) == *old(self),
    {
        let mut effects: Vec<LobbyEffect> = Vec::new();
        match find_in_list(&self.lobby_players, &msg.player_id) {
            Some(k) => {
                proof {
                    lemma_bound_unique(self.lobby_players@, msg.player_id@, k as int, msg.addr);
                }
                if self.lobby_players[k].addr == msg.addr {
                    let ghost l0 = self.lobby_players@;
                    self.lobby_players.remove(k);
                    proof {
                        assert forall|h: int, id: Seq<char>|
                            0 <= h < self.ready_groups@.len() implies !(#[trigger] in_list(self.lobby_players@, id)
                                && #[trigger] in_list(self.ready_groups@[h]@, id)) by {
                            lemma_in_list_remove(l0, k as int, id);
                        }
                        lemma_in_list_remove(l0, k as int, msg.player_id@);
                        if in_groups(self.ready_groups@, msg.player_id@) {
                            let h = choose|h: int| 0 <= h < self.ready_groups@.len() && in_list(#[trigger] self.ready_groups@[h]@, msg.player_id@);
                            assert(at_index(l0, msg.player_id@, k as int));
                            assert(in_list(l0, msg.player_id@));
                            assert(!(in_list(l0, msg.player_id@) && in_list(self.ready_groups@[h]@, msg.player_id@)));
                        }
                        self.lemma_not_bound_when_absent(msg.player_id@, msg.addr);
                    }
                    effects.push(LobbyEffect::BroadcastState);
                }
                return effects;
            },
            None => {},
        }
        match find_in_groups(&self.ready_groups, &msg.player_id) {
            Some((g, k)) => {
                proof {
                    self.lemma_bound_in_group(msg.player_id@, g as int, k as int, msg.addr);
                }
                if self.ready_groups[g][k].addr != msg.addr || self.countdown.is_some() {
                    return effects;
                }
                let ghost pre = *self;
                let removed = self.remove_member(g, k);
                proof {
                    self.lemma_not_bound_when_absent(msg.player_id@, msg.addr);
                }
                effects.push(LobbyEffect::BroadcastState);
                effects
            },
            None => {
                proof {
                    self.lemma_not_bound_when_absent(msg.player_id@, msg.addr);
                }
                effects
            },
        }
    }

    /// A member absent from the lobby and the groups is bound to nothing.
    pub proof fn lemma_not_bound_when_absent(&self, id: Seq<char>, conn: u64)
        requires
            !self.is_member(id),
        ensures
            !self.bound(id, conn),
    {
        if bound_in(self.lobby_players@, id, conn) {
            let k = choose|k: int| at_index(self.lobby_players@, id, k) && self.lobby_players@[k].addr == conn;
            assert(in_list(self.lobby_players@, id));
        }
        if exists|g: int| 0 <= g < self.ready_groups@.len() && bound_in(#[trigger] self.ready_groups@[g]@, id, conn) {
            let g = choose|g: int| 0 <= g < self.ready_groups@.len() && bound_in(#[trigger] self.ready_groups@[g]@, id, conn);
            let k = choose|k: int| at_index(self.ready_groups@[g]@, id, k) && self.ready_groups@[g]@[k].addr == conn;
            assert(in_list(self.ready_groups@[g]@, id));
        }
    }

    /// A member found in group `g` is bound to `conn` exactly when its entry
    /// there holds `conn`.
    pub proof fn lemma_bound_in_group(&self, id: Seq<char>, g: int, k: int, conn: u64)
        requires
            self.wf(),
            0 <= g < self.ready_groups@.len(),
            at_index(self.ready_groups@[g]@, id, k),
        ensures
            self.bound(id, conn) == (self.ready_groups@[g]@[k].addr == conn),
            !in_list(self.lobby_players@, id),
    {
        assert(in_list(self.ready_groups@[g]@, id));
        lemma_bound_unique(self.ready_groups@[g]@, id, k, conn);
        if bound_in(self.lobby_players@, id, conn) {
            let j = choose|j: int| at_index(self.lobby_players@, id, j) && self.lobby_players@[j].addr == conn;
            assert(in_list(self.lobby_players@, id));
        }
        if exists|h: int| 0 <= h < self.ready_groups@.len() && bound_in(#[trigger] self.ready_groups@[h]@, id, conn) {
            let h = choose|h: int| 0 <= h < self.ready_groups@.len() && bound_in(#[trigger] self.ready_groups@[h]@, id, conn);
            let j = choose|j: int| at_index(self.ready_groups@[h]@, id, j) && self.ready_groups@[h]@[j].addr == conn;
            assert(in_list(self.ready_groups@[h]@, id));
            if h < g {
                assert(!(in_list(self.ready_groups@[h]@, id) && in_list(self.ready_groups@[g]@, id)));
            } else if h > g {
                assert(!(in_list(self.ready_groups@[g]@, id) && in_list(self.ready_groups@[h]@, id)));
            }
        }
    }
}

/// One of the first `n` entries of `s` is bound to `c`.
pub open spec fn in_lobby_prefix(s: Seq<ConnectedPlayer>, n: int, c: u64) -> bool {
    exists|j: int| 0 <= j < n && j < s.len() && #[trigger] s[j].addr == c
}

/// A member of one of the first `n` groups is bound to `c`.
pub open spec fn in_groups_prefix(gs: Seq<Vec<ConnectedPlayer>>, n: int, len: int, c: u64) -> bool {
    exists|h: int| 0 <= h < n && h < len && in_lobby_prefix(#[trigger] gs[h]@, gs[h]@.len() as int, c)
}

/// What pushing `x` adds to what a sequence contains.
pub proof fn lemma_contains_push(s: Seq<u64>, x: u64)
    ensures
        forall|c: u64| #[trigger] s.push(x).contains(c) <==> (s.contains(c) || c == x),
{
    assert forall|c: u64| #[trigger] s.push(x).contains(c) <==> (s.contains(c) || c == x) by {
        let t = s.push(x);
        if t.contains(c) {
            let w = choose|w: int| 0 <= w < t.len() && t[w] == c;
            if w < s.len() {
                assert(s[w] == c);
            }
        }
        if s.contains(c) {
            let w = choose|w: int| 0 <= w < s.len() && s[w] == c;
            assert(t[w] == c);
        }
        if c == x {
            assert(t[s.len() as int] == c);
        }
    }
}

impl MatchmakingServer {
    /// Launches the first group with at least `min_players` members: any
    /// countdown stops, the group is removed and handed off under a fresh
    /// match id, and a new countdown starts when another group is viable.
    pub fn try_launch_next_game(&mut self, now: u64) -> (effects: Vec<LobbyEffect>)
        requires
            old(self).wf(),
        ensures
            final(self).wf(),
            launch_post(*old(self), *final(self), effects@, now),
    {
        let mut g: usize = 0;
        while g < self.ready_groups.len() && self.ready_groups[g].len() < self.min_players
            invariant
                g <= self.ready_groups@.len(),
                forall|h: int| 0 <= h < g ==> (#[trigger] self.ready_groups@[h]@).len() < self.min_players,
            decreases self.ready_groups@.len() - g,
        {
            g = g + 1;
        }
        if g == self.ready_groups.len() {
            return Vec::new();
        }
        let ghost o = *self;
        assert(first_viable(o.ready_groups@, o.min_players, g as int));
        let mut effects: Vec<LobbyEffect> = Vec::new();
        if self.countdown.is_some() {
            effects.push(LobbyEffect::CancelCountdown);
        }
        let ghost pre = effects@;
        self.countdown = None;
        let group = self.ready_groups.remove(g);
        proof {
            lemma_groups_remove(o.ready_groups@, g as int, o.max_players);
            assert forall|h: int, id: Seq<char>|
                0 <= h < self.ready_groups@.len() implies !(#[trigger] in_list(self.lobby_players@, id)
                    && #[trigger] in_list(self.ready_groups@[h]@, id)) by {
                let oh = if h < g { h } else { h + 1 };
                assert(self.ready_groups@[h] == o.ready_groups@[oh]);
            }
        }
        let mut players: Vec<PlayerInfo> = Vec::new();
        let mut conns: Vec<u64> = Vec::new();
        let mut i: usize = 0;
        while i < group.len()
            invariant
                i <= group@.len(),
                players@.len() == i,
                conns@.len() == i,
                forall|j: int| 0 <= j < i ==> #[trigger] players@[j] == group@[j].info,
                forall|j: int| 0 <= j < i ==> #[trigger] conns@[j] == group@[j].addr,
            decreases group@.len() - i,
        {
            players.push(copy_info(&group[i].info));
            conns.push(group[i].addr);
            i = i + 1;
        }
        let game_id = new_game_id();
        let launched = LaunchedGame { game_id, players, conns };
        assert(carries(launched, o.ready_groups@[g as int]@));
        effects.push(LobbyEffect::GameStarted(launched));
        let mut h: usize = 0;
        let mut viable = false;
        while h < self.ready_groups.len()
            invariant
                h <= self.ready_groups@.len(),
                viable == exists|j: int| 0 <= j < h && (#[trigger] self.ready_groups@[j]@).len() >= self.min_players,
            decreases self.ready_groups@.len() - h,
        {
            if self.ready_groups[h].len() >= self.min_players {
                viable = true;
            }
            h = h + 1;
        }
        if viable {
            self.countdown = Some(now);
            effects.push(LobbyEffect::StartCountdown);
        }
        effects.push(LobbyEffect::BroadcastState);
        proof {
            let restart = has_viable(self.ready_groups@, self.min_players);
            assert(viable == restart);
            assert(effects@ =~= pre + seq![LobbyEffect::GameStarted(launched)] + (if restart {
                seq![LobbyEffect::StartCountdown]
            } else {
                seq![]
            }) + seq![LobbyEffect::BroadcastState]);
            assert(first_viable(o.ready_groups@, o.min_players, g as int) && carries(launched, o.ready_groups@[g as int]@));
            assert(launched_as(o, *self, effects@, now, g as int, launched));
        }
        effects
    }

    /// The countdown ran out: launch the first viable group. A timer that
    /// fires after its countdown was cancelled does nothing.
    pub fn on_countdown_expired(&mut self, now: u64) -> (effects: Vec<LobbyEffect>)
        requires
            old(self).wf(),
        ensures
            final(self).wf(),
            old(self).countdown is None ==> *final(self) == *old(self) && effects@.len() == 0,
            old(self).countdown is Some ==> exists|e: Seq<LobbyEffect>|
                #[trigger] launch_post(old(self).without_countdown(), *final(self), e, now)
                    && effects@ == if e.len() == 0 {
                    seq![LobbyEffect::BroadcastState]
                } else {
                    e
                },
    {
        if self.countdown.is_none() {
            return Vec::new();
        }
        self.countdown = None;
        let mut effects = self.try_launch_next_game(now);
        if effects.len() == 0 {
            effects.push(LobbyEffect::BroadcastState);
        }
        effects
    }

    /// After a player was placed: launch a full first group, or start the
    /// countdown for a viable one.
    fn settle(&mut self, now: u64) -> (effects: Vec<LobbyEffect>)
        requires
            old(self).wf(),
            old(self).ready_groups@.len() > 0,
        ensures
            final(self).wf(),
            settle_post(*old(self), *final(self), effects@, now),
    {
        let first = self.ready_groups[0].len();
        if first >= self.max_players {
            let mut effects: Vec<LobbyEffect> = Vec::new();
            if self.countdown.is_some() {
                effects.push(LobbyEffect::CancelCountdown);
            }
            let ghost pre = effects@;
            self.countdown = None;
            let ghost cleared = *self;
            let mut launched = self.try_launch_next_game(now);
            let ghost e = launched@;
            effects.append(&mut launched);
            assert(launch_post(cleared, *self, e, now));
            assert(effects@ == pre + e);
            effects
        } else if first >= self.min_players && self.countdown.is_none() {
            self.countdown = Some(now);
            let mut effects: Vec<LobbyEffect> = Vec::new();
            effects.push(LobbyEffect::StartCountdown);
            effects.push(LobbyEffect::BroadcastState);
            assert(effects@ =~= seq![LobbyEffect::StartCountdown, LobbyEffect::BroadcastState]);
            effects
        } else {
            let mut effects: Vec<LobbyEffect> = Vec::new();
            effects.push(LobbyEffect::BroadcastState);
            assert(effects@ =~= seq![LobbyEffect::BroadcastState]);
            effects
        }
    }

    /// A lobby player opts in: with `addr` as its live connection it moves
    /// into the first ready group with spare capacity, or a new group. A full
    /// first group then launches at once; a viable one starts the countdown.
    /// Anyone else (already ready, unknown, or a stale connection) is ignored.
    pub fn pay(&mut self, msg: Pay, now: u64) -> (effects: Vec<LobbyEffect>)
        requires
            old(self).wf(),
        ensures
            final(self).wf(),
            ({
                let o = *old(self);
                let f = *final(self);
                let id = msg.player_id@;
                if !in_groups(o.ready_groups@, id) && bound_in(o.lobby_players@, id, msg.addr) {
                    exists|k: int, m: MatchmakingServer|
                        #[trigger] at_index(o.lobby_players@, id, k) && #[trigger] settle_post(m, f, effects@, now)
                            && m.lobby_players@ == o.lobby_players@.remove(k) && placed(
                            o.ready_groups@,
                            m.ready_groups@,
                            o.lobby_players@[k],
                            o.max_players,
                        ) && m.same_settings(o)
                } else {
                    f == o && effects@.len() == 0
                }
            }),
    {
        match find_in_groups(&self.ready_groups, &msg.player_id) {
            Some(_) => {
                return Vec::new();
            },
            None => {},
        }
        let k = match find_in_list(&self.lobby_players, &msg.player_id) {
            Some(k) => k,
            None => {
                proof {
                    if bound_in(self.lobby_players@, msg.player_id@, msg.addr) {
                        let j = choose|j: int| at_index(self.lobby_players@, msg.player_id@, j) && self.lobby_players@[j].addr == msg.addr;
                        assert(in_list(self.lobby_players@, msg.player_id@));
                    }
                }
                return Vec::new();
            },
        };
        proof {
            lemma_bound_unique(self.lobby_players@, msg.player_id@, k as int, msg.addr);
        }
        if self.lobby_players[k].addr != msg.addr {
            return Vec::new();
        }
        let ghost o = *self;
        let p = self.lobby_players.remove(k);
        proof {
            assert forall|id: Seq<char>| #[trigger] in_list(self.lobby_players@, id) == (in_list(o.lobby_players@, id) && id != pid(p)) by {
                lemma_in_list_remove(o.lobby_players@, k as int, id);
            }
            lemma_in_list_remove(o.lobby_players@, k as int, pid(p));
        }
        let mut j: usize = 0;
        while j < self.ready_groups.len() && self.ready_groups[j].len() >= self.max_players
            invariant
                j <= self.ready_groups@.len(),
                self.ready_groups@ == o.ready_groups@,
                forall|h: int| 0 <= h < j ==> (#[trigger] self.ready_groups@[h]@).len() >= self.max_players,
            decreases self.ready_groups@.len() - j,
        {
            j = j + 1;
        }
        if j < self.ready_groups.len() {
            self.ready_groups[j].push(p);
            proof {
                let gs0 = o.ready_groups@;
                let v = self.ready_groups@[j as int];
                assert(self.ready_groups@ == gs0.update(j as int, v));
                assert forall|a: int, b: int| 0 <= a < b < v@.len() implies pid(v@[a]) != pid(v@[b]) by {
                    assert(v@[a] == gs0[j as int]@[a]);
                    if b < gs0[j as int]@.len() {
                        assert(v@[b] == gs0[j as int]@[b]);
                    } else {
                        assert(v@[b] == p);
                        if pid(v@[a]) == pid(p) {
                            assert(at_index(gs0[j as int]@, pid(p), a));
                            assert(in_list(gs0[j as int]@, pid(p)));
                            assert(in_groups(gs0, pid(p)));
                        }
                    }
                }
                assert forall|id: Seq<char>| #[trigger] in_list(v@, id) == (in_list(gs0[j as int]@, id) || id == pid(p)) by {
                    lemma_in_list_push(gs0[j as int]@, p, id);
                    assert(v@ == gs0[j as int]@.push(p));
                }
                assert forall|g1: int, g2: int, id: Seq<char>|
                    0 <= g1 < g2 < self.ready_groups@.len() implies !(in_list(#[trigger] self.ready_groups@[g1]@, id)
                        && #[trigger] in_list(self.ready_groups@[g2]@, id)) by {
                    if g1 != j as int {
                        assert(self.ready_groups@[g1] == gs0[g1]);
                    }
                    if g2 != j as int {
                        assert(self.ready_groups@[g2] == gs0[g2]);
                    }
                    if id == pid(p) {
                        if in_list(gs0[g1]@, id) {
                            assert(in_groups(gs0, id));
                        }
                        if in_list(gs0[g2]@, id) {
                            assert(in_groups(gs0, id));
                        }
                    }
                }
                assert forall|h: int| 0 <= h < self.ready_groups@.len() implies 1 <= (
                #[trigger] self.ready_groups@[h]@).len() <= self.max_players && distinct_ids(self.ready_groups@[h]@) by {
                    if h != j as int {
                        assert(self.ready_groups@[h] == gs0[h]);
                    }
                }
                assert forall|h: int, id: Seq<char>|
                    0 <= h < self.ready_groups@.len() implies !(#[trigger] in_list(self.lobby_players@, id)
                        && #[trigger] in_list(self.ready_groups@[h]@, id)) by {
                    if h != j as int {
                        assert(self.ready_groups@[h] == gs0[h]);
                    }
                }
                assert(exists|jj: int| 0 <= jj < gs0.len() && (#[trigger] gs0[jj]@).len() < o.max_players);
                assert(placed(gs0, self.ready_groups@, p, o.max_players));
            }
        } else {
            let mut v: Vec<ConnectedPlayer> = Vec::new();
            v.push(p);
            let ghost gs0 = self.ready_groups@;
            self.ready_groups.push(v);
            proof {
                assert forall|id: Seq<char>| #[trigger] in_list(v@, id) implies !in_groups(gs0, id) by {
                    let a = choose|a: int| at_index(v@, id, a);
                    assert(v@[a] == p);
                }
                lemma_groups_push(gs0, v, self.max_players);
                assert forall|h: int, id: Seq<char>|
                    0 <= h < self.ready_groups@.len() implies !(#[trigger] in_list(self.lobby_players@, id)
                        && #[trigger] in_list(self.ready_groups@[h]@, id)) by {
                    if h < gs0.len() {
                        assert(self.ready_groups@[h] == gs0[h]);
                    } else if in_list(v@, id) {
                        let a = choose|a: int| at_index(v@, id, a);
                        assert(v@[a] == p);
                    }
                }
                assert(self.ready_groups@.drop_last() =~= gs0);
                assert(v@ =~= seq![p]);
            }
        }
        let ghost m = *self;
        let effects = self.settle(now);
        proof {
            assert(at_index(o.lobby_players@, msg.player_id@, k as int));
            assert(settle_post(m, *self, effects@, now));
        }
        effects
    }

    /// A ready player withdraws: with `addr` as its live connection it goes
    /// back to the lobby, unless a countdown runs, in which case it is told
    /// so. Anyone else is ignored.
    pub fn cancel_payment(&mut self, msg: CancelPayment) -> (effects: Vec<LobbyEffect>)
        requires
            old(self).wf(),
        ensures
            final(self).wf(),
            ({
                let o = *old(self);
                let f = *final(self);
                let id = msg.player_id@;
                if in_groups(o.ready_groups@, id) && o.bound(id, msg.addr) {
                    if o.countdown is Some {
                        f == o && effects@ == seq![LobbyEffect::CancelRejected(msg.addr)]
                    } else {
                        exists|g: int, k: int|
                            0 <= g < o.ready_groups@.len() && #[trigger] at_index(o.ready_groups@[g]@, id, k)
                                && member_removed(o.ready_groups@, f.ready_groups@, g, k) && f.lobby_players@
                                == o.lobby_players@.push(o.ready_groups@[g]@[k]) && f.same_settings(o)
                                && effects@ == seq![LobbyEffect::BroadcastState]
                    }
                } else {
                    f == o && effects@.len() == 0
                }
            }),
    {
        let mut effects: Vec<LobbyEffect> = Vec::new();
        let (g, k) = match find_in_groups(&self.ready_groups, &msg.player_id) {
            Some(found) => found,
            None => {
                return effects;
            },
        };
        proof {
            self.lemma_bound_in_group(msg.player_id@, g as int, k as int, msg.addr);
        }
        if self.ready_groups[g][k].addr != msg.addr {
            return effects;
        }
        if self.countdown.is_some() {
            effects.push(LobbyEffect::CancelRejected(msg.addr));
            assert(effects@ =~= seq![LobbyEffect::CancelRejected(msg.addr)]);
            return effects;
        }
        let ghost o = *self;
        let p = self.remove_member(g, k);
        let ghost l0 = self.lobby_players@;
        self.lobby_players.push(p);
        proof {
            assert(!in_list(l0, pid(p))) by {
                assert(in_list(o.ready_groups@[g as int]@, pid(p)));
            }
            assert forall|i: int, j: int| 0 <= i < j < self.lobby_players@.len() implies pid(self.lobby_players@[i])
                != pid(self.lobby_players@[j]) by {
                assert(self.lobby_players@[i] == l0[i]);
                if j < l0.len() {
                    assert(self.lobby_players@[j] == l0[j]);
                } else {
                    assert(at_index(l0, pid(p), i) ==> in_list(l0, pid(p)));
                }
            }
            assert forall|h: int, id: Seq<char>|
                0 <= h < self.ready_groups@.len() implies !(#[trigger] in_list(self.lobby_players@, id)
                    && #[trigger] in_list(self.ready_groups@[h]@, id)) by {
                lemma_in_list_push(l0, p, id);
                if in_list(self.ready_groups@[h]@, id) {
                    assert(in_groups(self.ready_groups@, id));
                }
            }
        }
        effects.push(LobbyEffect::BroadcastState);
        effects
    }

    /// The lobby state seen at `now`.
    pub fn get_state(&self, now: u64) -> (r: MatchmakingState)
        ensures
            r.lobby_players@ == self.lobby_players@.map_values(|p: ConnectedPlayer| p.info),
            r.ready_players@ == ready_infos(self.ready_groups@),
            r.countdown_active == self.countdown is Some,
            r.countdown_remaining == match self.countdown {
                Some(start) => Some(remaining_secs(start, now)),
                None => None,
            },
    {
        let mut lobby: Vec<PlayerInfo> = Vec::new();
        let mut i: usize = 0;
        while i < self.lobby_players.len()
            invariant
                i <= self.lobby_players@.len(),
                lobby@ == self.lobby_players@.take(i as int).map_values(|p: ConnectedPlayer| p.info),
            decreases self.lobby_players@.len() - i,
        {
            lobby.push(copy_info(&self.lobby_players[i].info));
            assert(self.lobby_players@.take(i + 1).drop_last() == self.lobby_players@.take(i as int));
            i = i + 1;
        }
        assert(self.lobby_players@.take(i as int) == self.lobby_players@);
        let mut ready: Vec<PlayerInfo> = Vec::new();
        let mut g: usize = 0;
        while g < self.ready_groups.len()
            invariant
                g <= self.ready_groups@.len(),
                ready@ == ready_infos(self.ready_groups@.take(g as int)),
            decreases self.ready_groups@.len() - g,
        {
            let ghost base = ready@;
            let grp = &self.ready_groups[g];
            let mut k: usize = 0;
            while k < grp.len()
                invariant
                    k <= grp@.len(),
                    ready@ == base + grp@.take(k as int).map_values(|p: ConnectedPlayer| p.info),
                decreases grp@.len() - k,
            {
                ready.push(copy_info(&grp[k].info));
                assert(grp@.take(k + 1).drop_last() == grp@.take(k as int));
                assert(ready@ =~= base + grp@.take(k + 1).map_values(|p: ConnectedPlayer| p.info));
                k = k + 1;
            }
            assert(grp@.take(k as int) == grp@);
            assert(self.ready_groups@.take(g + 1).drop_last() == self.ready_groups@.take(g as int));
            g = g + 1;
        }
        assert(self.ready_groups@.take(g as int) == self.ready_groups@);
        let remaining = match self.countdown {
            Some(start) => {
                let elapsed = if now >= start {
                    (now - start) / 1000
                } else {
                    0
                };
                Some(
                    if elapsed >= COUNTDOWN_DURATION_SECS {
                        0
                    } else {
                        COUNTDOWN_DURATION_SECS - elapsed
                    },
                )
            },
            None => None,
        };
        MatchmakingState {
            lobby_players: lobby,
            ready_players: ready,
            countdown_active: self.countdown.is_some(),
            countdown_remaining: remaining,
        }
    }

    /// Every connection of the lobby and the ready groups.
    pub fn all_connections(&self) -> (r: Vec<u64>)
        ensures
            forall|c: u64| #[trigger] r@.contains(c) <==> exists|id: Seq<char>| self.bound(id, c),
    {
        let mut r: Vec<u64> = Vec::new();
        let mut i: usize = 0;
        while i < self.lobby_players.len()
            invariant
                i <= self.lobby_players@.len(),
                forall|c: u64| #[trigger] r@.contains(c) <==> in_lobby_prefix(self.lobby_players@, i as int, c),
            decreases self.lobby_players@.len() - i,
        {
            let ghost prev = r@;
            let x = self.lobby_players[i].addr;
            r.push(x);
            proof {
                lemma_contains_push(prev, x);
                assert forall|c: u64| #[trigger] r@.contains(c) <==> in_lobby_prefix(self.lobby_players@, i + 1, c) by {
                    if in_lobby_prefix(self.lobby_players@, i + 1, c) && c != x {
                        let j = choose|j: int| 0 <= j < i + 1 && #[trigger] self.lobby_players@[j].addr == c;
                        assert(in_lobby_prefix(self.lobby_players@, i as int, c));
                    }
                    if in_lobby_prefix(self.lobby_players@, i as int, c) {
                        let j = choose|j: int| 0 <= j < i && #[trigger] self.lobby_players@[j].addr == c;
                        assert(self.lobby_players@[j].addr == c);
                    }
                    if c == x {
                        assert(self.lobby_players@[i as int].addr == c);
                    }
                }
            }
            i = i + 1;
        }
        let mut g: usize = 0;
        while g < self.ready_groups.len()
            invariant
                g <= self.ready_groups@.len(),
                forall|c: u64| #[trigger] r@.contains(c) <==> in_lobby_prefix(self.lobby_players@, self.lobby_players@.len() as int, c)
                    || in_groups_prefix(self.ready_groups@, g as int, self.ready_groups@.len() as int, c),
            decreases self.ready_groups@.len() - g,
        {
            let grp = &self.ready_groups[g];
            let mut k: usize = 0;
            while k < grp.len()
                invariant
                    k <= grp@.len(),
                    g < self.ready_groups@.len(),
                    grp == self.ready_groups@[g as int],
                    forall|c: u64| #[trigger] r@.contains(c) <==> in_lobby_prefix(self.lobby_players@, self.lobby_players@.len() as int, c)
                        || in_groups_prefix(self.ready_groups@, g as int, self.ready_groups@.len() as int, c)
                        || in_lobby_prefix(grp@, k as int, c),
                decreases grp@.len() - k,
            {
                let ghost prev = r@;
                let x = grp[k].addr;
                r.push(x);
                proof {
                    lemma_contains_push(prev, x);
                    assert forall|c: u64| #[trigger] r@.contains(c) <==> in_lobby_prefix(self.lobby_players@, self.lobby_players@.len() as int, c)
                        || in_groups_prefix(self.ready_groups@, g as int, self.ready_groups@.len() as int, c)
                        || in_lobby_prefix(grp@, k + 1, c) by {
                        if in_lobby_prefix(grp@, k + 1, c) && c != x {
                            let j = choose|j: int| 0 <= j < k + 1 && #[trigger] grp@[j].addr == c;
                            assert(in_lobby_prefix(grp@, k as int, c));
                        }
                        if in_lobby_prefix(grp@, k as int, c) {
                            let j = choose|j: int| 0 <= j < k && #[trigger] grp@[j].addr == c;
                            assert(grp@[j].addr == c);
                        }
                        if c == x {
                            assert(grp@[k as int].addr == c);
                        }
                    }
                }
                k = k + 1;
            }
            proof {
                assert forall|c: u64| #[trigger] r@.contains(c) <==> in_lobby_prefix(self.lobby_players@, self.lobby_players@.len() as int, c)
                    || in_groups_prefix(self.ready_groups@, g + 1, self.ready_groups@.len() as int, c) by {
                    if in_groups_prefix(self.ready_groups@, g + 1, self.ready_groups@.len() as int, c) {
                        let h = choose|h: int| 0 <= h < g + 1 && h < self.ready_groups@.len() && in_lobby_prefix(#[trigger] self.ready_groups@[h]@, self.ready_groups@[h]@.len() as int, c);
                        if h < g {
                            assert(in_groups_prefix(self.ready_groups@, g as int, self.ready_groups@.len() as int, c));
                        }
                    }
                    if in_groups_prefix(self.ready_groups@, g as int, self.ready_groups@.len() as int, c) {
                        let h = choose|h: int| 0 <= h < g && h < self.ready_groups@.len() && in_lobby_prefix(#[trigger] self.ready_groups@[h]@, self.ready_groups@[h]@.len() as int, c);
                        assert(in_lobby_prefix(self.ready_groups@[h]@, self.ready_groups@[h]@.len() as int, c));
                    }
                    if in_lobby_prefix(grp@, k as int, c) {
                        assert(in_lobby_prefix(self.ready_groups@[g as int]@, self.ready_groups@[g as int]@.len() as int, c));
                    }
                }
            }
            g = g + 1;
        }
        proof {
            assert forall|c: u64| #[trigger] r@.contains(c) <==> exists|id: Seq<char>| self.bound(id, c) by {
                if in_lobby_prefix(self.lobby_players@, self.lobby_players@.len() as int, c) {
                    let j = choose|j: int| 0 <= j < self.lobby_players@.len() && #[trigger] self.lobby_players@[j].addr == c;
                    let id = pid(self.lobby_players@[j]);
                    assert(at_index(self.lobby_players@, id, j));
                    assert(self.bound(id, c));
                }
                if in_groups_prefix(self.ready_groups@, g as int, self.ready_groups@.len() as int, c) {
                    let h = choose|h: int| 0 <= h < g && h < self.ready_groups@.len() && in_lobby_prefix(#[trigger] self.ready_groups@[h]@, self.ready_groups@[h]@.len() as int, c);
                    let j = choose|j: int| 0 <= j < self.ready_groups@[h]@.len() && #[trigger] self.ready_groups@[h]@[j].addr == c;
                    let id = pid(self.ready_groups@[h]@[j]);
                    assert(at_index(self.ready_groups@[h]@, id, j));
                    assert(bound_in(self.ready_groups@[h]@, id, c));
                    assert(self.bound(id, c));
                }
                if exists|id: Seq<char>| self.bound(id, c) {
                    let id = choose|id: Seq<char>| self.bound(id, c);
                    if bound_in(self.lobby_players@, id, c) {
                        let j = choose|j: int| at_index(self.lobby_players@, id, j) && self.lobby_players@[j].addr == c;
                        assert(in_lobby_prefix(self.lobby_players@, self.lobby_players@.len() as int, c));
                    } else {
                        let h = choose|h: int| 0 <= h < self.ready_groups@.len() && bound_in(#[trigger] self.ready_groups@[h]@, id, c);
                        let j = choose|j: int| at_index(self.ready_groups@[h]@, id, j) && self.ready_groups@[h]@[j].addr == c;
                        assert(in_lobby_prefix(self.ready_groups@[h]@, self.ready_groups@[h]@.len() as int, c));
                        assert(in_groups_prefix(self.ready_groups@, g as int, self.ready_groups@.len() as int, c));
                    }
                }
            }
        }
        r
    }
}

} // verus!
