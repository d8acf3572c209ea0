//! The relay's state as plain values, and what each event does to it.
//!
//! The pending table is a sequence of claims in the order they were made;
//! the session table is a sequence of sessions in the order they were
//! formed. An address resolves to the latest session that lists it.

use crate::peer::{paired, DatagramView, PeerAddr, PendingView, Session};
use crate::timer::ExpiringTimer;
use crate::wire::{ack_frame_spec, parse_establish_spec};
use vstd::prelude::*;

verus! {

/// The first claim of `token` at or after position `from`.
pub open spec fn first_claim(pending: Seq<PendingView>, token: Seq<u8>, from: int) -> Option<int>
    decreases pending.len() - from,
{
    if from < 0 || from >= pending.len() {
        None
    } else if pending[from].token == token {
        Some(from)
    } else {
        first_claim(pending, token, from + 1)
    }
}

/// The latest of the first `upto` sessions that lists `addr`.
pub open spec fn latest_session(sessions: Seq<Session>, addr: PeerAddr, upto: int) -> Option<int>
    decreases upto,
{
    if upto <= 0 || upto > sessions.len() {
        None
    } else if sessions[upto - 1].lists(addr) {
        Some(upto - 1)
    } else {
        latest_session(sessions, addr, upto - 1)
    }
}

/// The claims that are younger than `timeout` seconds at `now`.
pub open spec fn claim_is_live(now: u128, timeout: u64) -> spec_fn(PendingView) -> bool {
    |p: PendingView| !p.timer.expired(now, timeout)
}

/// The sessions in which an endpoint sent within `timeout` seconds of `now`.
pub open spec fn session_is_live(now: u128, timeout: u64) -> spec_fn(Session) -> bool {
    |s: Session| !s.idle(now, timeout)
}

/// Whether an address is an endpoint of both sessions.
pub open spec fn share_endpoint(left: Session, right: Session) -> bool {
    left.lists(right.first.addr) || left.lists(right.second.addr)
}

/// What arrived at the socket in one turn of the loop.
pub enum EventView {
    /// A datagram from `from`.
    Datagram { from: PeerAddr, payload: Seq<u8> },
    /// Nothing arrived within the wait.
    Timeout,
    /// The receive failed for another reason.
    ReceiveError,
}

/// The timeouts, in seconds, and the preshared key.
pub struct ConfigView {
    pub timeout_no_connections: u64,
    pub timeout_pairing: u64,
    pub timeout_connection_inactivities: u64,
    pub preshared_key: Seq<u8>,
}

/// Both tables and the empty-since timer.
pub struct RelayState {
    pub pending: Seq<PendingView>,
    pub sessions: Seq<Session>,
    pub empty_since: Option<ExpiringTimer>,
}

impl RelayState {
    /// No claims, no sessions, timer unset.
    pub open spec fn empty() -> RelayState {
        RelayState { pending: Seq::empty(), sessions: Seq::empty(), empty_since: None }
    }

    /// Whether both tables are empty.
    pub open spec fn is_empty(self) -> bool {
        self.pending.len() == 0 && self.sessions.len() == 0
    }

    /// Where the claim of `token` stands in the pending table.
    pub open spec fn claim_index(self, token: Seq<u8>) -> Option<int> {
        first_claim(self.pending, token, 0)
    }

    /// The claim of `token`, if it is pending.
    pub open spec fn claim_of(self, token: Seq<u8>) -> Option<PendingView> {
        match self.claim_index(token) {
            Some(i) => Some(self.pending[i]),
            None => None,
        }
    }

    /// Where the session of `addr` stands in the session table.
    pub open spec fn session_index(self, addr: PeerAddr) -> Option<int> {
        latest_session(self.sessions, addr, self.sessions.len() as int)
    }

    /// The session that `addr` resolves to.
    pub open spec fn session_of(self, addr: PeerAddr) -> Option<Session> {
        match self.session_index(addr) {
            Some(i) => Some(self.sessions[i]),
            None => None,
        }
    }

    /// Whether `addr` is in the session table.
    pub open spec fn is_paired(self, addr: PeerAddr) -> bool {
        self.session_index(addr) is Some
    }

    /// The pending table: each pending token with its claim.
    pub open spec fn pending_table(self) -> Map<Seq<u8>, PendingView> {
        Map::new(
            |token: Seq<u8>| self.claim_of(token) is Some,
            |token: Seq<u8>| self.claim_of(token)->Some_0,
        )
    }

    /// The session table: each paired address with its session.
    pub open spec fn session_table(self) -> Map<PeerAddr, Session> {
        Map::new(
            |addr: PeerAddr| self.session_of(addr) is Some,
            |addr: PeerAddr| self.session_of(addr)->Some_0,
        )
    }

    /// Whether `addr` is an endpoint of some session.
    pub open spec fn listed(self, addr: PeerAddr) -> bool {
        exists|i: int| 0 <= i < self.sessions.len() && #[trigger] self.sessions[i].lists(addr)
    }

    /// No token is pending twice.
    pub open spec fn tokens_distinct(self) -> bool {
        forall|i: int, j: int|
            0 <= i < j < self.pending.len() ==> #[trigger] self.pending[i].token
                != #[trigger] self.pending[j].token
    }

    /// The two endpoints of every session differ.
    pub open spec fn endpoints_distinct(self) -> bool {
        forall|i: int|
            0 <= i < self.sessions.len() ==> (#[trigger] self.sessions[i]).first.addr
                != self.sessions[i].second.addr
    }

    /// What holds of the tables after every event.
    pub open spec fn well_formed(self) -> bool {
        self.tokens_distinct() && self.endpoints_distinct()
    }

    /// No claimant of a pending pairing is in the session table.
    pub open spec fn claimants_unpaired(self) -> bool {
        forall|i: int|
            0 <= i < self.pending.len() ==> !self.listed((#[trigger] self.pending[i]).claimant)
    }

    /// No two sessions share an endpoint.
    pub open spec fn sessions_disjoint(self) -> bool {
        forall|i: int, j: int|
            0 <= i < j < self.sessions.len() ==> !share_endpoint(
                #[trigger] self.sessions[i],
                #[trigger] self.sessions[j],
            )
    }

    /// Every address has one place: it claims tokens, or it is an endpoint
    /// of one session.
    pub open spec fn exclusive(self) -> bool {
        self.claimants_unpaired() && self.sessions_disjoint()
    }

    /// Whether `sender` presenting `token` pairs two peers of which one still
    /// claims another token.
    pub open spec fn promotion_strands_claim(self, token: Seq<u8>, sender: PeerAddr) -> bool {
        match self.claim_index(token) {
            Some(i) => self.pending[i].claimant != sender && exists|j: int|
                0 <= j < self.pending.len() && j != i && ((#[trigger] self.pending[j]).claimant
                    == sender || self.pending[j].claimant == self.pending[i].claimant),
            None => false,
        }
    }

    /// Whether the arrival is a pairing request that pairs two peers of
    /// which one still claims another token.
    pub open spec fn step_strands_claim(self, config: ConfigView, event: EventView) -> bool {
        match event {
            EventView::Datagram { from, payload } => !self.is_paired(from) && match parse_establish_spec(
                config.preshared_key,
                payload,
            ) {
                Ok(token) => self.promotion_strands_claim(token, from),
                Err(_) => false,
            },
            _ => false,
        }
    }

    /// The state after `sender` presented `token` at `now`: a new claim, a
    /// refreshed claim, or the claim promoted to a session with `sender`.
    pub open spec fn offer(self, token: Seq<u8>, sender: PeerAddr, now: u128) -> RelayState {
        match self.claim_index(token) {
            None => RelayState {
                pending: self.pending.push(
                    PendingView { token, claimant: sender, timer: ExpiringTimer(now) },
                ),
                ..self
            },
            Some(i) => if self.pending[i].claimant == sender {
                RelayState {
                    pending: self.pending.update(
                        i,
                        PendingView { token, claimant: sender, timer: ExpiringTimer(now) },
                    ),
                    ..self
                }
            } else {
                RelayState {
                    pending: self.pending.remove(i),
                    sessions: self.sessions.push(paired(self.pending[i].claimant, sender, now)),
                    ..self
                }
            },
        }
    }

    /// What the relay answers to `sender` presenting `token`: the
    /// acknowledgement if the token was not pending, else nothing.
    pub open spec fn offer_reply(self, token: Seq<u8>, sender: PeerAddr) -> Option<DatagramView> {
        if self.claim_index(token) is None {
            Some(DatagramView { to: sender, payload: ack_frame_spec(token) })
        } else {
            None
        }
    }

    /// The state after the paired peer `sender` sent a datagram at `now`.
    pub open spec fn forward(self, sender: PeerAddr, now: u128) -> RelayState {
        match self.session_index(sender) {
            Some(i) => RelayState {
                sessions: self.sessions.update(i, self.sessions[i].touched(sender, now)),
                ..self
            },
            None => self,
        }
    }

    /// What the relay sends when `sender` sent `payload`: the same bytes to
    /// the opponent, or nothing if `sender` is not paired.
    pub open spec fn relayed(self, sender: PeerAddr, payload: Seq<u8>) -> Option<DatagramView> {
        match self.session_of(sender) {
            Some(session) => Some(
                DatagramView { to: session.opponent_of(sender).addr, payload },
            ),
            None => None,
        }
    }

    /// The state without the claims that are `timeout` seconds old at `now`.
    pub open spec fn expire_pending(self, now: u128, timeout: u64) -> RelayState {
        RelayState {
            pending: self.pending.filter(claim_is_live(now, timeout)),
            ..self
        }
    }

    /// The state without the sessions whose two endpoints have both been
    /// silent for `timeout` seconds at `now`.
    pub open spec fn expire_sessions(self, now: u128, timeout: u64) -> RelayState {
        RelayState { sessions: self.sessions.filter(session_is_live(now, timeout)), ..self }
    }

    /// Whether the relay has been empty for `timeout` seconds at `now`.
    pub open spec fn should_stop(self, now: u128, timeout: u64) -> bool {
        self.is_empty() && self.empty_since is Some && self.empty_since->Some_0.expired(
            now,
            timeout,
        )
    }

    /// The state after the empty-since timer took note of the tables: set
    /// when they are empty and it was unset, cleared when they are not.
    pub open spec fn watch_idle(self, now: u128) -> RelayState {
        if !self.is_empty() {
            RelayState { empty_since: None, ..self }
        } else if self.empty_since is None {
            RelayState { empty_since: Some(ExpiringTimer(now)), ..self }
        } else {
            self
        }
    }

    /// The state after the arrival was dealt with: forwarded for a paired
    /// sender, else decoded and offered.
    pub open spec fn dispatch(self, config: ConfigView, event: EventView, now: u128) -> RelayState {
        match event {
            EventView::Datagram { from, payload } => if self.is_paired(from) {
                self.forward(from, now)
            } else {
                match parse_establish_spec(config.preshared_key, payload) {
                    Ok(token) => self.offer(token, from, now),
                    Err(_) => self,
                }
            },
            _ => self,
        }
    }

    /// What the relay sends on the arrival.
    pub open spec fn dispatch_reply(self, config: ConfigView, event: EventView) -> Option<
        DatagramView,
    > {
        match event {
            EventView::Datagram { from, payload } => if self.is_paired(from) {
                self.relayed(from, payload)
            } else {
                match parse_establish_spec(config.preshared_key, payload) {
                    Ok(token) => self.offer_reply(token, from),
                    Err(_) => None,
                }
            },
            _ => None,
        }
    }

    /// The state after one turn of the loop: dispatch, the empty-since
    /// timer, then both expiries.
    pub open spec fn step(self, config: ConfigView, event: EventView, now: u128) -> RelayState {
        self.dispatch(config, event, now).watch_idle(now).expire_pending(
            now,
            config.timeout_pairing,
        ).expire_sessions(now, config.timeout_connection_inactivities)
    }

    /// Whether the loop ends with this turn.
    pub open spec fn step_stops(self, config: ConfigView, event: EventView, now: u128) -> bool {
        self.dispatch(config, event, now).should_stop(now, config.timeout_no_connections)
    }
}

} // verus!
