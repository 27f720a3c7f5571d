//! Properties that hold across calls, proved from the handlers' contracts.

use vstd::prelude::*;
use crate::lobby::{
    at_index, bound_in, join_post, lemma_groups_remove, lemma_in_list_push, lemma_in_list_rebind,
    lemma_in_list_remove, leave_post, member_removed, rebind,
    carries, first_viable, has_viable, in_groups, in_list, launch_post, launched_as, LaunchedGame, LobbyEffect,
    MatchmakingServer,
};
use crate::session::{finalize_post, resolve_post, GamePhase, GameSession, MatchEffect};

verus! {

/// No identity is waiting in the lobby and ready in a group at once. Every
/// lobby handler keeps `wf`, so this holds after any sequence of them.
pub proof fn lemma_lobby_and_groups_disjoint(s: MatchmakingServer, id: Seq<char>)
    requires
        s.wf(),
    ensures
        !(in_list(s.lobby_players@, id) && in_groups(s.ready_groups@, id)),
{
    if in_groups(s.ready_groups@, id) {
        let g = choose|g: int| 0 <= g < s.ready_groups@.len() && in_list(#[trigger] s.ready_groups@[g]@, id);
        assert(!(in_list(s.lobby_players@, id) && in_list(s.ready_groups@[g]@, id)));
    }
}

/// No ready group ever holds more than `max_players` members.
pub proof fn lemma_group_capacity(s: MatchmakingServer, g: int)
    requires
        s.wf(),
        0 <= g < s.ready_groups@.len(),
    ensures
        1 <= s.ready_groups@[g]@.len() <= s.max_players,
{
    assert(1 <= s.ready_groups@[g]@.len() <= s.max_players);
}

/// A group handed off at a launch has at least `min_players` and at most
/// `max_players` members.
pub proof fn lemma_launch_size(o: MatchmakingServer, f: MatchmakingServer, effects: Seq<LobbyEffect>, now: u64, k: int)
    requires
        o.wf(),
        launch_post(o, f, effects, now),
        0 <= k < effects.len(),
        effects[k] is GameStarted,
    ensures
        o.min_players <= effects[k]->GameStarted_0.players@.len() <= o.max_players,
{
    if has_viable(o.ready_groups@, o.min_players) {
        let (g, launched) = choose|g: int, launched: LaunchedGame|
            #[trigger] first_viable(o.ready_groups@, o.min_players, g) && #[trigger] carries(
                launched,
                o.ready_groups@[g]@,
            ) && launched_as(o, f, effects, now, g, launched);
        let pre: int = if o.countdown is Some { 1 } else { 0 };
        assert(effects[pre] == LobbyEffect::GameStarted(launched));
        if k != pre {
            assert(!(effects[k] is GameStarted));
        }
    }
}

/// A turn resolves at most once: when the turn timer and the last action
/// both trigger resolution of the same turn, the second trigger changes
/// nothing and has no effect.
pub proof fn lemma_turn_resolves_once(
    s0: GameSession,
    s1: GameSession,
    s2: GameSession,
    turn: u32,
    e1: Seq<MatchEffect>,
    e2: Seq<MatchEffect>,
)
    requires
        resolve_post(s0, s1, turn, e1),
        resolve_post(s1, s2, turn, e2),
    ensures
        s2 == s1,
        e2.len() == 0,
        s0.can_resolve(turn) ==> s1.game_state->0.turn == turn + 1,
{
}

/// The mode is fixed exactly once: after the vote closes a mode is set, and
/// a second close (the deadline racing the last vote) changes nothing.
pub proof fn lemma_mode_fixed_once(
    s0: GameSession,
    s1: GameSession,
    s2: GameSession,
    e1: Seq<MatchEffect>,
    e2: Seq<MatchEffect>,
)
    requires
        finalize_post(s0, s1, e1),
        finalize_post(s1, s2, e2),
        s0.phase == crate::session::GamePhase::ModeChoice,
    ensures
        s1.mode_choice.chosen_mode is Some,
        s2 == s1,
        e2.len() == 0,
{
}

/// Once a mode is chosen the vote is closed for good: a deadline firing
/// after the last vote closed it changes nothing and sends nothing.
pub proof fn lemma_no_second_choice(s: GameSession, f: GameSession, e: Seq<MatchEffect>)
    requires
        s.wf(),
        s.mode_choice.chosen_mode is Some,
        finalize_post(s, f, e),
    ensures
        f == s,
        e.len() == 0,
        s.phase != GamePhase::ModeChoice,
{
}

/// A join binds the identity to the new connection and moves nobody: every
/// ready group keeps its members, and the lobby gains the identity only when
/// it was in no ready group.
pub proof fn lemma_join_places_identity(
    o: MatchmakingServer,
    f: MatchmakingServer,
    id: Seq<char>,
    addr: u64,
    username: Seq<char>,
    effects: Seq<LobbyEffect>,
)
    requires
        o.wf(),
        join_post(o, f, id, addr, username, effects),
    ensures
        f.bound(id, addr),
        f.ready_groups@.len() == o.ready_groups@.len(),
        forall|g: int, x: Seq<char>|
            0 <= g < o.ready_groups@.len() ==> #[trigger] in_list(f.ready_groups@[g]@, x) == in_list(
                o.ready_groups@[g]@,
                x,
            ),
        forall|x: Seq<char>| x != id ==> #[trigger] in_list(f.lobby_players@, x) == in_list(o.lobby_players@, x),
        in_list(f.lobby_players@, id) == !in_groups(o.ready_groups@, id),
{
    if in_groups(o.ready_groups@, id) {
        let (g, k) = choose|g: int, k: int|
            0 <= g < o.ready_groups@.len() && #[trigger] at_index(o.ready_groups@[g]@, id, k) && {
                let old_addr = o.ready_groups@[g]@[k].addr;
                &&& f.lobby_players@ == o.lobby_players@
                &&& f.ready_groups@.len() == o.ready_groups@.len()
                &&& forall|h: int|
                    0 <= h < o.ready_groups@.len() && h != g ==> #[trigger] f.ready_groups@[h] == o.ready_groups@[h]
                &&& f.ready_groups@[g]@ == o.ready_groups@[g]@.update(k, rebind(o.ready_groups@[g]@[k], addr))
                &&& effects == if old_addr != addr {
                    seq![LobbyEffect::Kick(old_addr), LobbyEffect::BroadcastState]
                } else {
                    seq![LobbyEffect::BroadcastState]
                }
            };
        let p = rebind(o.ready_groups@[g]@[k], addr);
        assert forall|h: int, x: Seq<char>|
            0 <= h < o.ready_groups@.len() implies #[trigger] in_list(f.ready_groups@[h]@, x) == in_list(
                o.ready_groups@[h]@,
                x,
            ) by {
            if h == g {
                lemma_in_list_rebind(o.ready_groups@[g]@, k, p, x);
            } else {
                assert(f.ready_groups@[h] == o.ready_groups@[h]);
            }
        }
        assert(at_index(f.ready_groups@[g]@, id, k));
        assert(bound_in(f.ready_groups@[g]@, id, addr));
        let h = choose|h: int| 0 <= h < o.ready_groups@.len() && in_list(#[trigger] o.ready_groups@[h]@, id);
        assert(!(in_list(o.lobby_players@, id) && in_list(o.ready_groups@[h]@, id)));
    } else if in_list(o.lobby_players@, id) {
        let k = choose|k: int|
            #[trigger] at_index(o.lobby_players@, id, k) && {
                let old_addr = o.lobby_players@[k].addr;
                &&& f.ready_groups@ == o.ready_groups@
                &&& f.lobby_players@ == o.lobby_players@.update(k, rebind(o.lobby_players@[k], addr))
                &&& effects == if old_addr != addr {
                    seq![LobbyEffect::Kick(old_addr), LobbyEffect::BroadcastState]
                } else {
                    seq![LobbyEffect::BroadcastState]
                }
            };
        let p = rebind(o.lobby_players@[k], addr);
        assert forall|x: Seq<char>| x != id implies #[trigger] in_list(f.lobby_players@, x) == in_list(
            o.lobby_players@,
            x,
        ) by {
            lemma_in_list_rebind(o.lobby_players@, k, p, x);
        }
        lemma_in_list_rebind(o.lobby_players@, k, p, id);
        assert(at_index(f.lobby_players@, id, k));
        assert(bound_in(f.lobby_players@, id, addr));
    } else {
        let last = f.lobby_players@.last();
        assert(f.lobby_players@ =~= o.lobby_players@.push(last));
        assert forall|x: Seq<char>| x != id implies #[trigger] in_list(f.lobby_players@, x) == in_list(
            o.lobby_players@,
            x,
        ) by {
            lemma_in_list_push(o.lobby_players@, last, x);
        }
        lemma_in_list_push(o.lobby_players@, last, id);
        let n = o.lobby_players@.len() as int;
        assert(at_index(f.lobby_players@, id, n));
        assert(bound_in(f.lobby_players@, id, addr));
    }
}

/// A leave removes at most the leaving identity and adds or moves nobody.
pub proof fn lemma_leave_removes_only_leaver(
    o: MatchmakingServer,
    f: MatchmakingServer,
    id: Seq<char>,
    addr: u64,
    effects: Seq<LobbyEffect>,
)
    requires
        o.wf(),
        leave_post(o, f, id, addr, effects),
    ensures
        forall|x: Seq<char>| #[trigger] in_list(f.lobby_players@, x) ==> in_list(o.lobby_players@, x),
        forall|x: Seq<char>| #[trigger] in_groups(f.ready_groups@, x) ==> in_groups(o.ready_groups@, x),
        forall|x: Seq<char>|
            x != id ==> #[trigger] in_list(f.lobby_players@, x) == in_list(o.lobby_players@, x) && in_groups(
                f.ready_groups@,
                x,
            ) == in_groups(o.ready_groups@, x),
{
    if in_list(o.lobby_players@, id) && bound_in(o.lobby_players@, id, addr) {
        let k = choose|k: int|
            #[trigger] at_index(o.lobby_players@, id, k) && f.lobby_players@ == o.lobby_players@.remove(k)
                && f.ready_groups@ == o.ready_groups@ && effects == seq![LobbyEffect::BroadcastState];
        assert forall|x: Seq<char>| #[trigger] in_list(f.lobby_players@, x) == (in_list(o.lobby_players@, x) && x != id) by {
            lemma_in_list_remove(o.lobby_players@, k, x);
        }
    } else if !in_list(o.lobby_players@, id) && o.bound(id, addr) && o.countdown is None {
        let (g, k) = choose|g: int, k: int|
            0 <= g < o.ready_groups@.len() && #[trigger] at_index(o.ready_groups@[g]@, id, k) && member_removed(
                o.ready_groups@,
                f.ready_groups@,
                g,
                k,
            ) && f.lobby_players@ == o.lobby_players@ && effects == seq![LobbyEffect::BroadcastState];
        let v = o.ready_groups@[g]@;
        assert forall|x: Seq<char>| #[trigger] in_list(v.remove(k), x) == (in_list(v, x) && x != id) by {
            lemma_in_list_remove(v, k, x);
        }
        if v.len() == 1 {
            lemma_groups_remove(o.ready_groups@, g, o.max_players);
            assert forall|x: Seq<char>| in_list(v, x) implies x == id by {
                let j = choose|j: int| at_index(v, x, j);
                assert(j == k);
            }
            assert forall|x: Seq<char>| #[trigger] in_groups(f.ready_groups@, x) == (in_groups(o.ready_groups@, x) && x != id) by {
                assert(in_list(v, id));
            }
        } else {
            assert forall|x: Seq<char>| #[trigger] in_groups(f.ready_groups@, x) == (in_groups(o.ready_groups@, x) && x != id) by {
                if in_groups(f.ready_groups@, x) {
                    let h = choose|h: int| 0 <= h < f.ready_groups@.len() && in_list(#[trigger] f.ready_groups@[h]@, x);
                    if h != g {
                        assert(f.ready_groups@[h] == o.ready_groups@[h]);
                        if x == id {
                            assert(in_list(v, id));
                            if h < g {
                                assert(!(in_list(o.ready_groups@[h]@, id) && in_list(o.ready_groups@[g]@, id)));
                            } else {
                                assert(!(in_list(o.ready_groups@[g]@, id) && in_list(o.ready_groups@[h]@, id)));
                            }
                        }
                    } else {
                        assert(f.ready_groups@[g]@ == v.remove(k));
                    }
                }
                if in_groups(o.ready_groups@, x) && x != id {
                    let h = choose|h: int| 0 <= h < o.ready_groups@.len() && in_list(#[trigger] o.ready_groups@[h]@, x);
                    if h != g {
                        assert(f.ready_groups@[h] == o.ready_groups@[h]);
                    } else {
                        assert(in_list(f.ready_groups@[g]@, x));
                    }
                }
            }
        }
    }
}

} // verus!
