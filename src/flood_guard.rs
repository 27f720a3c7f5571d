//! Per-connection flood protection: request and response rate limits per
//! one-second window, temporary bans, and suppression of repeated errors.
//!
//! Time is a count of milliseconds on a monotonic clock, supplied by the caller.

use vstd::prelude::*;

verus! {

/// Most responses a connection may receive in one window.
pub const MAX_RESPONSES_PER_SECOND: u32 = 5;

/// Most requests a connection may send in one window.
pub const MAX_REQUESTS_PER_SECOND: u32 = 30;

/// Length of a ban, in seconds.
pub const BAN_DURATION_SECONDS: u64 = 300;

/// Length of a ban, in milliseconds.
pub const BAN_DURATION_MS: u64 = 300_000;

/// Length of a rate window, in milliseconds.
pub const WINDOW_MS: u64 = 1000;

/// Stable error codes sent to clients.
#[derive(Debug, Clone, Copy, PartialEq, Eq, Hash, Structural)]
pub enum ErrorCode {
    InvalidAction,
    SpectatorCommand,
    Banned,
    SessionKicked,
    SerializationError,
    WsProtocolError,
    InvalidGameId,
    MissingWallet,
    GameSessionError,
    MailboxError,
}

/// The wire text of an error code.
pub open spec fn code_text(c: ErrorCode) -> Seq<char> {
    match c {
        ErrorCode::InvalidAction => "INVALID_ACTION"@,
        ErrorCode::SpectatorCommand => "SPECTATOR_COMMAND"@,
        ErrorCode::Banned => "BANNED"@,
        ErrorCode::SessionKicked => "SESSION_KICKED"@,
        ErrorCode::SerializationError => "SERIALIZATION_ERROR"@,
        ErrorCode::WsProtocolError => "WS_PROTOCOL_ERROR"@,
        ErrorCode::InvalidGameId => "INVALID_GAME_ID"@,
        ErrorCode::MissingWallet => "MISSING_WALLET"@,
        ErrorCode::GameSessionError => "GAME_SESSION_ERROR"@,
        ErrorCode::MailboxError => "MAILBOX_ERROR"@,
    }
}

impl ErrorCode {
    /// The wire text of this code.
    pub fn as_str(&self) -> (r: &'static str)
        ensures
            r@ == code_text(*self),
    {
        match self {
            ErrorCode::InvalidAction => "INVALID_ACTION",
            ErrorCode::SpectatorCommand => "SPECTATOR_COMMAND",
            ErrorCode::Banned => "BANNED",
            ErrorCode::SessionKicked => "SESSION_KICKED",
            ErrorCode::SerializationError => "SERIALIZATION_ERROR",
            ErrorCode::WsProtocolError => "WS_PROTOCOL_ERROR",
            ErrorCode::InvalidGameId => "INVALID_GAME_ID",
            ErrorCode::MissingWallet => "MISSING_WALLET",
            ErrorCode::GameSessionError => "GAME_SESSION_ERROR",
            ErrorCode::MailboxError => "MAILBOX_ERROR",
        }
    }
}

/// Flood-guard state of one connection.
#[derive(Debug, Clone, Copy, PartialEq, Eq)]
pub struct AntiSpamState {
    /// Last error code sent since the last valid action.
    pub last_error_code: Option<ErrorCode>,
    /// Start of the current rate window.
    pub last_tick: u64,
    pub responses_this_tick: u32,
    pub requests_this_tick: u32,
    /// End of the ban, if one was ever imposed.
    pub banned_until: Option<u64>,
}

/// `a + b`, capped at `u64::MAX`.
pub open spec fn sat_add(a: u64, b: u64) -> u64 {
    if a + b > u64::MAX {
        u64::MAX
    } else {
        (a + b) as u64
    }
}

/// `n + 1`, capped at `u32::MAX`.
pub open spec fn bump(n: u32) -> u32 {
    if n < u32::MAX {
        (n + 1) as u32
    } else {
        n
    }
}

impl AntiSpamState {
    /// A new window opens once a full window has passed since the last one.
    pub open spec fn window_over(&self, now: u64) -> bool {
        now >= self.last_tick && now - self.last_tick >= WINDOW_MS
    }

    /// The state after the window check at `now`.
    pub open spec fn ticked(self, now: u64) -> AntiSpamState {
        if self.window_over(now) {
            AntiSpamState { last_tick: now, responses_this_tick: 0, requests_this_tick: 0, ..self }
        } else {
            self
        }
    }

    /// Banned at `now`: a ban exists and has not yet run out.
    pub open spec fn banned_at(&self, now: u64) -> bool {
        match self.banned_until {
            Some(until) => now < until,
            None => false,
        }
    }

    /// The state after a ban imposed at `now`.
    pub open spec fn banned_from(self, now: u64) -> AntiSpamState {
        AntiSpamState { banned_until: Some(sat_add(now, BAN_DURATION_MS)), ..self }
    }

    /// What `record_request` leaves behind.
    pub open spec fn after_request(self, now: u64) -> AntiSpamState {
        let t = self.ticked(now);
        let c = AntiSpamState { requests_this_tick: bump(t.requests_this_tick), ..t };
        if c.requests_this_tick > MAX_REQUESTS_PER_SECOND {
            c.banned_from(now)
        } else {
            c
        }
    }

    /// What `record_response` leaves behind.
    pub open spec fn after_response(self, now: u64) -> AntiSpamState {
        let t = self.ticked(now);
        let c = AntiSpamState { responses_this_tick: bump(t.responses_this_tick), ..t };
        if c.responses_this_tick > MAX_RESPONSES_PER_SECOND {
            c.banned_from(now)
        } else {
            c
        }
    }

    /// A fresh state whose first window starts at `now`.
    pub fn new(now: u64) -> (r: Self)
        ensures
            r.last_error_code is None,
            r.last_tick == now,
            r.responses_this_tick == 0,
            r.requests_this_tick == 0,
            r.banned_until is None,
    {
        AntiSpamState {
            last_error_code: None,
            last_tick: now,
            responses_this_tick: 0,
            requests_this_tick: 0,
            banned_until: None,
        }
    }

    /// Counts an incoming request at `now`. Returns true when the connection
    /// is banned: by this request going over the limit, or by an earlier ban.
    pub fn record_request(&mut self, now: u64) -> (banned: bool)
        ensures
            *final(self) == old(self).after_request(now),
            banned == (final(self).requests_this_tick > MAX_REQUESTS_PER_SECOND || final(self).banned_at(now)),
    {
        self.tick(now);
        self.requests_this_tick = if self.requests_this_tick < u32::MAX {
            self.requests_this_tick + 1
        } else {
            self.requests_this_tick
        };
        if self.requests_this_tick > MAX_REQUESTS_PER_SECOND {
            self.ban(now);
            return true;
        }
        self.is_banned(now)
    }

    /// Counts an outgoing response at `now`. Returns true when the connection
    /// is banned: by this response going over the limit, or by an earlier ban.
    pub fn record_response(&mut self, now: u64) -> (banned: bool)
        ensures
            *final(self) == old(self).after_response(now),
            banned == (final(self).responses_this_tick > MAX_RESPONSES_PER_SECOND || final(self).banned_at(now)),
    {
        self.tick(now);
        self.responses_this_tick = if self.responses_this_tick < u32::MAX {
            self.responses_this_tick + 1
        } else {
            self.responses_this_tick
        };
        if self.responses_this_tick > MAX_RESPONSES_PER_SECOND {
            self.ban(now);
            return true;
        }
        self.is_banned(now)
    }

    /// Whether an error with `code` should go out: not when it repeats the
    /// last error sent since the last valid action.
    pub fn should_send_error(&mut self, code: ErrorCode) -> (send: bool)
        ensures
            send == (old(self).last_error_code != Some(code)),
            *final(self) == (AntiSpamState { last_error_code: Some(code), ..*old(self) }),
    {
        match self.last_error_code {
            Some(last) => {
                if last == code {
                    return false;
                }
            },
            None => {},
        }
        self.last_error_code = Some(code);
        true
    }

    /// A valid state-changing action ends error suppression.
    pub fn reset_on_valid_action(&mut self)
        ensures
            *final(self) == (AntiSpamState { last_error_code: None, ..*old(self) }),
    {
        self.last_error_code = None;
    }

    /// Ends error suppression (a new turn or phase).
    pub fn reset_error_suppression(&mut self)
        ensures
            *final(self) == (AntiSpamState { last_error_code: None, ..*old(self) }),
    {
        self.last_error_code = None;
    }

    /// Whether the connection is banned at `now`.
    pub fn is_banned(&self, now: u64) -> (r: bool)
        ensures
            r == self.banned_at(now),
    {
        match self.banned_until {
            Some(until) => now < until,
            None => false,
        }
    }

    /// End of the ban, if one was imposed.
    pub fn ban_expiry(&self) -> (r: Option<u64>)
        ensures
            r == self.banned_until,
    {
        self.banned_until
    }

    /// Whole seconds of ban left at `now`; 0 when not banned.
    pub fn ban_remaining_secs(&self, now: u64) -> (r: u64)
        ensures
            r == match self.banned_until {
                Some(until) => if now < until {
                    ((until - now) / 1000) as u64
                } else {
                    0
                },
                None => 0,
            },
    {
        match self.banned_until {
            Some(until) => {
                if until > now {
                    (until - now) / 1000
                } else {
                    0
                }
            },
            None => 0,
        }
    }

    /// Bans the connection for `BAN_DURATION_MS` from `now`.
    pub fn ban(&mut self, now: u64)
        ensures
            *final(self) == old(self).banned_from(now),
    {
        let until = if now > u64::MAX - BAN_DURATION_MS {
            u64::MAX
        } else {
            now + BAN_DURATION_MS
        };
        self.banned_until = Some(until);
    }

    /// Opens a new window when a full one has passed since the last.
    pub fn tick(&mut self, now: u64)
        ensures
            *final(self) == old(self).ticked(now),
    {
        if now >= self.last_tick && now - self.last_tick >= WINDOW_MS {
            self.last_tick = now;
            self.responses_this_tick = 0;
            self.requests_this_tick = 0;
        }
    }
}

/// A ban on one identity, kept across its connections.
#[derive(Debug, Clone)]
pub struct BanRecord {
    pub identity: String,
    pub until: u64,
}

/// Bans by identity, so that a banned client cannot come back on a new
/// connection before its ban runs out.
#[derive(Debug, Clone)]
pub struct BanList {
    pub records: Vec<BanRecord>,
}

/// `r` is one of the first `k` records.
pub open spec fn in_prefix(records: Seq<BanRecord>, k: int, r: BanRecord) -> bool {
    exists|j: int| 0 <= j < k && #[trigger] records[j] == r
}

/// `id` is banned at `now` according to `records`.
pub open spec fn banned_in(records: Seq<BanRecord>, id: Seq<char>, now: u64) -> bool {
    exists|k: int| 0 <= k < records.len() && (#[trigger] records[k]).identity@ == id && now < records[k].until
}

impl BanList {
    /// An empty list.
    pub fn new() -> (r: Self)
        ensures
            r.records@.len() == 0,
    {
        BanList { records: Vec::new() }
    }

    /// Bans `identity` until `until`, replacing any earlier ban of it.
    pub fn ban(&mut self, identity: &String, until: u64)
        ensures
            forall|id: Seq<char>, now: u64|
                #[trigger] banned_in(final(self).records@, id, now) == if id == identity@ {
                    now < until
                } else {
                    banned_in(old(self).records@, id, now)
                },
    {
        let mut kept: Vec<BanRecord> = Vec::new();
        let mut k: usize = 0;
        while k < self.records.len()
            invariant
                k <= self.records@.len(),
                self.records@ == old(self).records@,
                forall|i: int| 0 <= i < kept@.len() ==> (#[trigger] kept@[i]).identity@ != identity@,
                forall|i: int| 0 <= i < kept@.len() ==> in_prefix(self.records@, k as int, #[trigger] kept@[i]),
                forall|j: int|
                    0 <= j < k && (#[trigger] self.records@[j]).identity@ != identity@ ==> exists|i: int|
                        0 <= i < kept@.len() && kept@[i] == self.records@[j],
            decreases self.records@.len() - k,
        {
            let r = &self.records[k];
            if r.identity != *identity {
                let ghost before = kept@;
                kept.push(BanRecord { identity: r.identity.clone(), until: r.until });
                proof {
                    assert(kept@[before.len() as int] == self.records@[k as int]);
                    assert forall|i: int| 0 <= i < kept@.len() implies in_prefix(self.records@, k + 1, #[trigger] kept@[i]) by {
                        if i < before.len() {
                            assert(kept@[i] == before[i]);
                            assert(in_prefix(self.records@, k as int, before[i]));
                        } else {
                            assert(self.records@[k as int] == kept@[i]);
                        }
                    }
                    assert forall|j: int|
                        0 <= j < k + 1 && (#[trigger] self.records@[j]).identity@ != identity@ implies exists|i: int|
                            0 <= i < kept@.len() && kept@[i] == self.records@[j] by {
                        if j < k {
                            let i = choose|i: int| 0 <= i < before.len() && before[i] == self.records@[j];
                            assert(kept@[i] == before[i]);
                        } else {
                            assert(kept@[before.len() as int] == self.records@[j]);
                        }
                    }
                }
            }
            k = k + 1;
        }
        let ghost before = kept@;
        kept.push(BanRecord { identity: identity.clone(), until });
        self.records = kept;
        proof {
            let o = old(self).records@;
            let f = self.records@;
            assert forall|id: Seq<char>, now: u64|
                #[trigger] banned_in(f, id, now) == if id == identity@ {
                    now < until
                } else {
                    banned_in(o, id, now)
                } by {
                if id == identity@ {
                    if now < until {
                        assert(f[before.len() as int].identity@ == id);
                    }
                    if banned_in(f, id, now) {
                        let k = choose|k: int| 0 <= k < f.len() && (#[trigger] f[k]).identity@ == id && now < f[k].until;
                        if k < before.len() {
                            assert(f[k] == before[k]);
                        }
                    }
                } else {
                    if banned_in(f, id, now) {
                        let k = choose|k: int| 0 <= k < f.len() && (#[trigger] f[k]).identity@ == id && now < f[k].until;
                        assert(k < before.len());
                        assert(f[k] == before[k]);
                        assert(in_prefix(o, o.len() as int, before[k]));
                        let j = choose|j: int| 0 <= j < o.len() && #[trigger] o[j] == before[k];
                        assert(o[j].identity@ == id);
                    }
                    if banned_in(o, id, now) {
                        let j = choose|j: int| 0 <= j < o.len() && (#[trigger] o[j]).identity@ == id && now < o[j].until;
                        let i = choose|i: int| 0 <= i < before.len() && before[i] == o[j];
                        assert(f[i] == before[i]);
                    }
                }
            }
        }
    }

    /// Whether `identity` is banned at `now`.
    pub fn is_banned(&self, identity: &String, now: u64) -> (r: bool)
        ensures
            r == banned_in(self.records@, identity@, now),
    {
        let mut k: usize = 0;
        while k < self.records.len()
            invariant
                k <= self.records@.len(),
                forall|j: int|
                    0 <= j < k ==> !((#[trigger] self.records@[j]).identity@ == identity@ && now < self.records@[j].until),
            decreases self.records@.len() - k,
        {
            if self.records[k].identity == *identity && now < self.records[k].until {
                return true;
            }
            k = k + 1;
        }
        false
    }
}

/// What to do with an inbound message.
#[derive(Debug, Clone, Copy, PartialEq, Eq, Structural)]
pub enum Inbound {
    /// Send the ban notice and close the connection.
    BanAndClose,
    /// Spectators cannot send commands: answer with `SPECTATOR_COMMAND`.
    SpectatorCommand,
    /// Handle the message.
    Proceed,
}

/// What to do with an outbound message.
#[derive(Debug, Clone, Copy, PartialEq, Eq, Structural)]
pub enum Outbound {
    Send,
    /// A repeat of the last error: drop it.
    Suppress,
    /// Send the ban notice and close the connection instead.
    BanAndClose,
}

impl AntiSpamState {
    /// Screens an inbound message at `now` from a connection that plays
    /// (`is_player`) or watches: it is counted first; a banned connection is
    /// closed; a spectator's command is refused.
    pub fn screen_inbound(&mut self, is_player: bool, now: u64) -> (r: Inbound)
        ensures
            *final(self) == old(self).after_request(now),
            r == if final(self).requests_this_tick > MAX_REQUESTS_PER_SECOND || final(self).banned_at(now) {
                Inbound::BanAndClose
            } else if !is_player {
                Inbound::SpectatorCommand
            } else {
                Inbound::Proceed
            },
    {
        if self.record_request(now) {
            Inbound::BanAndClose
        } else if !is_player {
            Inbound::SpectatorCommand
        } else {
            Inbound::Proceed
        }
    }

    /// Decides on an outbound response at `now`: it is counted, and one over
    /// the limit bans the connection.
    pub fn send_json_or_ban(&mut self, now: u64) -> (r: Outbound)
        ensures
            *final(self) == old(self).after_response(now),
            r == if final(self).responses_this_tick > MAX_RESPONSES_PER_SECOND || final(self).banned_at(now) {
                Outbound::BanAndClose
            } else {
                Outbound::Send
            },
    {
        if self.record_response(now) {
            Outbound::BanAndClose
        } else {
            Outbound::Send
        }
    }

    /// Decides on an error with `code` at `now`: a repeat of the last error
    /// is dropped without being counted; any other is counted as a response.
    pub fn send_error_and_maybe_ban(&mut self, code: ErrorCode, now: u64) -> (r: Outbound)
        ensures
            old(self).last_error_code == Some(code) ==> *final(self) == *old(self) && r == Outbound::Suppress,
            old(self).last_error_code != Some(code) ==> {
                let marked = AntiSpamState { last_error_code: Some(code), ..*old(self) };
                &&& *final(self) == marked.after_response(now)
                &&& r == if final(self).responses_this_tick > MAX_RESPONSES_PER_SECOND || final(self).banned_at(now) {
                    Outbound::BanAndClose
                } else {
                    Outbound::Send
                }
            },
    {
        if !self.should_send_error(code) {
            return Outbound::Suppress;
        }
        self.send_json_or_ban(now)
    }
}

} // verus!
