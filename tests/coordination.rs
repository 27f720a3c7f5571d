use lava_arena::flood_guard::{AntiSpamState, BanList, ErrorCode, Inbound, Outbound};
use lava_arena::game::{Direction, PlayerAction, PlayerInfo};
use lava_arena::lobby::{CancelPayment, Join, Leave, LobbyEffect, MatchmakingServer, Pay};
use lava_arena::manager::{EnsureOutcome, GameSessionManager, PendingGames};
use lava_arena::registry::{get_by_addr, is_addr_valid, ConnectionRegistry, Registration, Role};
use lava_arena::game::GameMode;
use lava_arena::session::{GamePhase, GameSession, MatchEffect, ModeChoice};

fn join(id: &str, addr: u64) -> Join {
    Join { player_id: id.to_string(), addr, username: format!("name-{}", id) }
}

fn pay(id: &str, addr: u64) -> Pay {
    Pay { player_id: id.to_string(), addr }
}

fn info(id: &str) -> PlayerInfo {
    PlayerInfo { id: id.to_string(), username: format!("name-{}", id) }
}

#[test]
fn flood_31st_request_bans_and_reconnect_is_refused() {
    let mut guard = AntiSpamState::new(0);
    for _ in 0..30 {
        assert!(!guard.record_request(500));
    }
    assert!(guard.record_request(500));
    assert_eq!(guard.ban_expiry(), Some(300_500));
    assert_eq!(guard.ban_remaining_secs(500), 300);
    let mut bans = BanList::new();
    bans.ban(&"w1".to_string(), guard.ban_expiry().unwrap());
    assert!(bans.is_banned(&"w1".to_string(), 10_000));
    assert!(!bans.is_banned(&"w2".to_string(), 10_000));
    assert!(!bans.is_banned(&"w1".to_string(), 300_500));
    let mut fresh = AntiSpamState::new(10_000);
    assert!(!fresh.is_banned(10_000));
    assert_eq!(fresh.screen_inbound(true, 10_000), Inbound::Proceed);
}

#[test]
fn flood_window_resets_counters() {
    let mut guard = AntiSpamState::new(0);
    for _ in 0..30 {
        assert!(!guard.record_request(100));
    }
    assert!(!guard.record_request(1100));
    assert_eq!(guard.requests_this_tick, 1);
    assert_eq!(guard.last_tick, 1100);
    guard.tick(1500);
    assert_eq!(guard.last_tick, 1100);
}

#[test]
fn flood_sixth_response_bans() {
    let mut guard = AntiSpamState::new(0);
    for _ in 0..5 {
        assert_eq!(guard.send_json_or_ban(10), Outbound::Send);
    }
    assert_eq!(guard.send_json_or_ban(10), Outbound::BanAndClose);
    assert!(guard.is_banned(10));
    assert!(!guard.is_banned(300_010));
    assert_eq!(guard.ban_remaining_secs(300_010), 0);
}

#[test]
fn repeated_errors_are_suppressed_until_a_valid_action() {
    let mut guard = AntiSpamState::new(0);
    assert!(guard.should_send_error(ErrorCode::InvalidAction));
    assert!(!guard.should_send_error(ErrorCode::InvalidAction));
    assert!(guard.should_send_error(ErrorCode::SpectatorCommand));
    guard.reset_on_valid_action();
    assert!(guard.should_send_error(ErrorCode::SpectatorCommand));
    guard.reset_error_suppression();
    assert_eq!(guard.send_error_and_maybe_ban(ErrorCode::Banned, 0), Outbound::Send);
    assert_eq!(guard.send_error_and_maybe_ban(ErrorCode::Banned, 0), Outbound::Suppress);
    assert_eq!(guard.responses_this_tick, 1);
}

#[test]
fn spectators_cannot_command() {
    let mut guard = AntiSpamState::new(0);
    assert_eq!(guard.screen_inbound(false, 0), Inbound::SpectatorCommand);
    guard.ban(0);
    assert_eq!(guard.screen_inbound(true, 1), Inbound::BanAndClose);
}

#[test]
fn error_codes_have_stable_text() {
    assert_eq!(ErrorCode::InvalidAction.as_str(), "INVALID_ACTION");
    assert_eq!(ErrorCode::SpectatorCommand.as_str(), "SPECTATOR_COMMAND");
    assert_eq!(ErrorCode::Banned.as_str(), "BANNED");
    assert_eq!(ErrorCode::SessionKicked.as_str(), "SESSION_KICKED");
    assert_eq!(ErrorCode::SerializationError.as_str(), "SERIALIZATION_ERROR");
}

#[test]
fn second_connection_kicks_first_and_stale_leave_is_ignored() {
    let mut reg = ConnectionRegistry::new();
    let w1 = "w1".to_string();
    assert_eq!(reg.register(&w1, 1, Role::Player), None);
    assert_eq!(reg.register(&w1, 2, Role::Player), Some(1));
    assert!(!reg.unregister(&w1, 1, Role::Player));
    assert!(reg.is_current(&w1, 2, Role::Player));
    assert!(!reg.is_current(&w1, 1, Role::Player));
    assert_eq!(reg.register(&w1, 3, Role::Spectator), None);
    assert!(reg.is_current(&w1, 2, Role::Player));
    assert_eq!(reg.all_connections(), vec![2, 3]);
    assert!(reg.unregister(&w1, 2, Role::Player));
    assert!(!reg.is_current(&w1, 2, Role::Player));
}

#[test]
fn address_lookups() {
    let entries = vec![
        Registration { identity: "a".to_string(), conn: 7 },
        Registration { identity: "b".to_string(), conn: 8 },
    ];
    assert!(is_addr_valid(&entries, &"b".to_string(), 8));
    assert!(!is_addr_valid(&entries, &"b".to_string(), 7));
    assert!(!is_addr_valid(&entries, &"c".to_string(), 7));
    assert_eq!(get_by_addr(&entries, &"a".to_string(), 7).map(|e| e.conn), Some(7));
    assert!(get_by_addr(&entries, &"a".to_string(), 8).is_none());
}

#[test]
fn lobby_join_kicks_duplicate_session() {
    let mut lobby = MatchmakingServer::new();
    let e = lobby.join(join("w1", 1));
    assert!(matches!(e.as_slice(), [LobbyEffect::BroadcastState]));
    let e = lobby.join(join("w1", 2));
    assert!(matches!(e.as_slice(), [LobbyEffect::Kick(1), LobbyEffect::BroadcastState]));
    assert_eq!(lobby.lobby_players.len(), 1);
    let e = lobby.leave(Leave { player_id: "w1".to_string(), addr: 1 });
    assert!(e.is_empty());
    assert_eq!(lobby.lobby_players.len(), 1);
    let e = lobby.leave(Leave { player_id: "w1".to_string(), addr: 2 });
    assert!(matches!(e.as_slice(), [LobbyEffect::BroadcastState]));
    assert!(lobby.lobby_players.is_empty());
}

#[test]
fn lobby_countdown_then_full_group_launches() {
    let mut lobby = MatchmakingServer::with_limits(2, 3);
    for (id, addr) in [("a", 1), ("b", 2), ("c", 3)] {
        lobby.join(join(id, addr));
    }
    let e = lobby.pay(pay("a", 1), 0);
    assert!(matches!(e.as_slice(), [LobbyEffect::BroadcastState]));
    assert!(lobby.countdown.is_none());
    let e = lobby.pay(pay("b", 2), 1000);
    assert!(matches!(e.as_slice(), [LobbyEffect::StartCountdown, LobbyEffect::BroadcastState]));
    assert_eq!(lobby.countdown, Some(1000));
    let e = lobby.pay(pay("c", 3), 2000);
    assert_eq!(e.len(), 3);
    assert!(matches!(e[0], LobbyEffect::CancelCountdown));
    match &e[1] {
        LobbyEffect::GameStarted(g) => {
            assert_eq!(g.players.len(), 3);
            assert_eq!(g.conns, vec![1, 2, 3]);
            assert_eq!(g.players[2].id, "c");
        },
        other => panic!("unexpected effect {:?}", other),
    }
    assert!(matches!(e[2], LobbyEffect::BroadcastState));
    assert!(lobby.countdown.is_none());
    assert!(lobby.ready_groups.is_empty());
    assert!(lobby.lobby_players.is_empty());
}

#[test]
fn lobby_countdown_expiry_launches_viable_group() {
    let mut lobby = MatchmakingServer::with_limits(2, 3);
    lobby.join(join("a", 1));
    lobby.join(join("b", 2));
    lobby.pay(pay("a", 1), 0);
    lobby.pay(pay("b", 2), 0);
    let state = lobby.get_state(5000);
    assert!(state.countdown_active);
    assert_eq!(state.countdown_remaining, Some(25));
    assert_eq!(state.ready_players.len(), 2);
    assert!(state.lobby_players.is_empty());
    let e = lobby.on_countdown_expired(30_000);
    assert!(matches!(e.as_slice(), [LobbyEffect::GameStarted(_), LobbyEffect::BroadcastState]));
    assert!(lobby.ready_groups.is_empty());
    assert!(lobby.on_countdown_expired(31_000).is_empty());
}

#[test]
fn lobby_group_is_frozen_during_countdown() {
    let mut lobby = MatchmakingServer::with_limits(2, 3);
    lobby.join(join("a", 1));
    lobby.join(join("b", 2));
    lobby.pay(pay("a", 1), 0);
    let e = lobby.cancel_payment(CancelPayment { player_id: "a".to_string(), addr: 1 });
    assert!(matches!(e.as_slice(), [LobbyEffect::BroadcastState]));
    assert_eq!(lobby.lobby_players.len(), 2);
    assert!(lobby.ready_groups.is_empty());
    lobby.pay(pay("a", 1), 0);
    lobby.pay(pay("b", 2), 0);
    let e = lobby.cancel_payment(CancelPayment { player_id: "a".to_string(), addr: 1 });
    assert!(matches!(e.as_slice(), [LobbyEffect::CancelRejected(1)]));
    let e = lobby.leave(Leave { player_id: "b".to_string(), addr: 2 });
    assert!(e.is_empty());
    assert_eq!(lobby.ready_groups[0].len(), 2);
}

#[test]
fn lobby_ignores_stale_and_unknown_payments() {
    let mut lobby = MatchmakingServer::new();
    lobby.join(join("a", 1));
    assert!(lobby.pay(pay("a", 9), 0).is_empty());
    assert!(lobby.pay(pay("zz", 1), 0).is_empty());
    assert!(lobby.cancel_payment(CancelPayment { player_id: "a".to_string(), addr: 1 }).is_empty());
    lobby.pay(pay("a", 1), 0);
    assert!(lobby.pay(pay("a", 1), 0).is_empty());
    assert_eq!(lobby.ready_groups.len(), 1);
}

#[test]
fn lobby_never_holds_an_identity_twice() {
    let mut lobby = MatchmakingServer::new();
    lobby.join(join("a", 1));
    lobby.pay(pay("a", 1), 0);
    lobby.join(join("a", 5));
    assert!(lobby.lobby_players.is_empty());
    assert_eq!(lobby.ready_groups[0][0].addr, 5);
    lobby.leave(Leave { player_id: "a".to_string(), addr: 5 });
    assert!(lobby.ready_groups.is_empty());
    lobby.join(join("a", 6));
    assert_eq!(lobby.lobby_players.len(), 1);
    assert_eq!(lobby.all_connections(), vec![6]);
}

#[test]
fn launched_games_get_distinct_ids() {
    let mut lobby = MatchmakingServer::with_limits(1, 1);
    lobby.join(join("a", 1));
    lobby.join(join("b", 2));
    let first = lobby.pay(pay("a", 1), 0);
    let second = lobby.pay(pay("b", 2), 0);
    let id = |e: &Vec<LobbyEffect>| {
        e.iter()
            .find_map(|x| match x {
                LobbyEffect::GameStarted(g) => Some(g.game_id),
                _ => None,
            })
            .unwrap()
    };
    assert_ne!(id(&first), id(&second));
}

fn started_match() -> GameSession {
    let mut m = GameSession::new(42, vec![info("a"), info("b")], 0);
    let e = m.start_mode_choice(0);
    assert!(matches!(e.as_slice(), [MatchEffect::BroadcastPreGameData, MatchEffect::StartModeTimer]));
    m.register_session(&"a".to_string(), 1, Role::Player);
    m.register_session(&"b".to_string(), 2, Role::Player);
    m
}

#[test]
fn vote_completes_and_fixes_mode_once() {
    let mut m = started_match();
    assert!(m.receive_mode_vote("zz".to_string(), lava_arena::game::GameMode::Classic).is_empty());
    let e = m.receive_mode_vote("a".to_string(), lava_arena::game::GameMode::Cracked);
    assert_eq!(e.len(), 1);
    assert_eq!(m.phase, GamePhase::ModeChoice);
    let e = m.receive_mode_vote("b".to_string(), lava_arena::game::GameMode::Cracked);
    assert!(matches!(e[0], MatchEffect::VoteUpdate(_, _)));
    assert!(matches!(e[1], MatchEffect::ModeChosen(lava_arena::game::GameMode::Cracked, _)));
    assert!(matches!(e[2], MatchEffect::CancelModeTimer));
    assert!(matches!(e[3], MatchEffect::StartTurnTimer(1)));
    assert_eq!(m.phase, GamePhase::InProgress);
    assert_eq!(m.game_state.as_ref().unwrap().mode, lava_arena::game::GameMode::Cracked);
    assert!(m.on_mode_deadline().is_empty());
    assert!(m.finalize_mode_choice().is_empty());
}

#[test]
fn deadline_without_votes_picks_a_mode() {
    let mut m = started_match();
    let e = m.on_mode_deadline();
    assert!(matches!(e[0], MatchEffect::ModeChosen(_, _)));
    let by = m.mode_choice.chosen_by.clone().unwrap();
    assert!(by == "a" || by == "b");
    assert!(m.game_state.is_some());
}

#[test]
fn full_participation_resolves_turn_once() {
    let mut m = started_match();
    m.on_mode_deadline();
    assert_eq!(m.game_state.as_ref().unwrap().turn, 1);
    let stay = PlayerAction::Move(Direction::Stay);
    assert!(m.process_client_message(&"a".to_string(), 1, stay).is_empty());
    assert!(m.process_client_message(&"a".to_string(), 1, stay).is_empty());
    assert_eq!(m.pending_actions.len(), 1);
    let e = m.process_client_message(&"b".to_string(), 2, stay);
    assert!(matches!(e[0], MatchEffect::CancelTurnTimer));
    assert_eq!(m.game_state.as_ref().unwrap().turn, 2);
    assert!(m.pending_actions.is_empty());
    let before_turn = m.game_state.as_ref().unwrap().turn;
    assert!(m.on_turn_timer(1).is_empty());
    assert!(m.process_client_message(&"ghost".to_string(), 3, stay).is_empty());
    assert_eq!(m.game_state.as_ref().unwrap().turn, before_turn);
    assert!(m.pending_actions.is_empty());
}

#[test]
fn stale_connection_actions_are_dropped() {
    let mut m = started_match();
    m.on_mode_deadline();
    let e = m.register_session(&"a".to_string(), 9, Role::Player);
    assert!(matches!(e.as_slice(), [MatchEffect::Kick(1), MatchEffect::SendState(9)]));
    let stay = PlayerAction::Move(Direction::Stay);
    assert!(m.process_client_message(&"a".to_string(), 1, stay).is_empty());
    assert!(m.pending_actions.is_empty());
    assert!(!m.unregister_session(&"a".to_string(), 1, Role::Player));
    assert!(m.unregister_session(&"a".to_string(), 9, Role::Player));
}

#[test]
fn timer_resolves_with_default_actions() {
    let mut m = started_match();
    m.on_mode_deadline();
    let e = m.on_turn_timer(1);
    assert!(!e.is_empty());
    assert_eq!(m.game_state.as_ref().unwrap().turn, 2);
    assert!(m.on_turn_timer(1).is_empty());
}

#[test]
fn pending_games_table() {
    let mut p = PendingGames::new();
    assert!(!p.contains(7));
    p.insert(7, vec![info("a")]);
    assert!(p.contains(7));
    assert_eq!(p.take(7).map(|v| v.len()), Some(1));
    assert!(p.take(7).is_none());
}

#[test]
fn ensure_game_session_creates_once() {
    let mut mgr = GameSessionManager::new();
    mgr.register_pending_game(5, vec![info("a"), info("b")]);
    assert!(matches!(mgr.ensure_game_session(5), Ok(EnsureOutcome::Created(ref v)) if v.len() == 2));
    assert!(matches!(mgr.ensure_game_session(5), Ok(EnsureOutcome::Existing)));
    assert!(mgr.ensure_game_session(6).is_err());
}

#[test]
fn injected_pick_names_that_voter() {
    let mut mc = ModeChoice::new(3, 0);
    mc.receive_mode_vote("a".to_string(), GameMode::Classic);
    mc.receive_mode_vote("b".to_string(), GameMode::Cracked);
    mc.receive_mode_vote("a".to_string(), GameMode::Cracked);
    assert_eq!(mc.votes.len(), 2);
    let roster = vec![info("a"), info("b"), info("c")];
    let (mode, by) = mc.choose_mode(&roster, 0, 0, 0);
    assert_eq!(mode, GameMode::Cracked);
    assert_eq!(by, "a");
    let mut empty = ModeChoice::new(3, 0);
    let (mode, by) = empty.choose_mode(&roster, 0, 1, 2);
    assert_eq!(mode, GameMode::Cracked);
    assert_eq!(by, "c");
    assert_eq!(empty.chosen_by.as_deref(), Some("c"));
}

#[test]
fn roster_membership() {
    let m = started_match();
    assert!(m.is_player(&"a".to_string()));
    assert!(!m.is_player(&"zz".to_string()));
}

#[test]
fn closing_the_vote_starts_the_first_turn() {
    let mut m = started_match();
    let e = m.on_mode_deadline();
    assert_eq!(e.len(), 4);
    assert!(matches!(e[1], MatchEffect::CancelModeTimer));
    assert!(matches!(e[2], MatchEffect::StartTurnTimer(1)));
    assert!(matches!(e[3], MatchEffect::BroadcastState(8)));
    assert!(m.turn_in_progress);
    let st = m.game_state.as_ref().unwrap();
    assert_eq!(st.players.len(), 2);
    assert_eq!(st.players[0].id, 1);
    assert_eq!(st.players[1].username, "name-b");
    assert!(!st.cannonballs.is_empty());
}

#[test]
fn unknown_match_error_text_and_rosters_kept() {
    let mut mgr = GameSessionManager::new();
    mgr.register_pending_game(1, vec![info("a")]);
    mgr.register_pending_game(2, vec![info("b"), info("c")]);
    mgr.register_pending_game(1, vec![info("d"), info("e"), info("f")]);
    match mgr.ensure_game_session(9) {
        Err(e) => assert_eq!(e, "No player group found for this game_id"),
        Ok(_) => panic!("unknown id accepted"),
    }
    assert!(matches!(mgr.ensure_game_session(2), Ok(EnsureOutcome::Created(ref v)) if v.len() == 2 && v[1].id == "c"));
    assert!(matches!(mgr.ensure_game_session(1), Ok(EnsureOutcome::Created(ref v)) if v.len() == 3 && v[0].id == "d"));
}
