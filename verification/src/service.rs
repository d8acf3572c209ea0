//! The relay itself: both tables, the empty-since timer, and one function
//! per event that says what to send and whether to stop.

use crate::laws::{
    lemma_expiry_keeps_well_formed, lemma_forward_keeps_addresses, lemma_offer_keeps_well_formed,
    lemma_step_keeps_exclusive, lemma_step_keeps_well_formed,
};
use crate::lemmas::lemma_filter_next;
use crate::model::{
    claim_is_live, first_claim, latest_session, session_is_live, ConfigView, EventView,
    RelayState,
};
use crate::peer::{
    build_paired_peers, Datagram, DatagramView, PeerAddr, PendingPairing, PendingView, Session,
};
use crate::timer::ExpiringTimer;
use crate::wire::{ack_frame, parse_establish, parse_establish_spec, same_bytes};
use vstd::prelude::*;

verus! {

/// The timeouts, in seconds, and the preshared key.
#[derive(Debug, PartialEq, Eq)]
pub struct RelayConfig {
    pub timeout_no_connections: u64,
    pub timeout_pairing: u64,
    pub timeout_connection_inactivities: u64,
    pub preshared_key: Vec<u8>,
}

impl View for RelayConfig {
    type V = ConfigView;

    open spec fn view(&self) -> ConfigView {
        ConfigView {
            timeout_no_connections: self.timeout_no_connections,
            timeout_pairing: self.timeout_pairing,
            timeout_connection_inactivities: self.timeout_connection_inactivities,
            preshared_key: self.preshared_key@,
        }
    }
}

/// What arrived at the socket in one turn of the loop.
#[derive(Debug, PartialEq, Eq)]
pub enum Event {
    /// A datagram from `from`.
    Datagram { from: PeerAddr, payload: Vec<u8> },
    /// Nothing arrived within the wait.
    Timeout,
    /// The receive failed for another reason.
    ReceiveError,
}

impl View for Event {
    type V = EventView;

    open spec fn view(&self) -> EventView {
        match *self {
            Event::Datagram { from, payload } => EventView::Datagram { from, payload: payload@ },
            Event::Timeout => EventView::Timeout,
            Event::ReceiveError => EventView::ReceiveError,
        }
    }
}

/// What the caller has to do after one turn of the loop.
#[derive(Debug, PartialEq, Eq)]
pub struct StepOutcome {
    /// The datagram to send, if any.
    pub send: Option<Datagram>,
    /// Whether the relay has been empty for long enough to end the loop.
    pub stop: bool,
}

/// An optional datagram as plain values.
pub open spec fn sent(datagram: Option<Datagram>) -> Option<DatagramView> {
    match datagram {
        Some(d) => Some(d@),
        None => None,
    }
}

/// The claims of a pending table as plain values.
pub open spec fn claims(pending: Seq<PendingPairing>) -> Seq<PendingView> {
    pending.map_values(|p: PendingPairing| p@)
}

/// The pending table, the session table and the empty-since timer.
#[derive(Debug)]
pub struct RelayService {
    pending_pairing: Vec<PendingPairing>,
    pairing: Vec<Session>,
    no_connection_since: Option<ExpiringTimer>,
}

impl View for RelayService {
    type V = RelayState;

    closed spec fn view(&self) -> RelayState {
        RelayState {
            pending: claims(self.pending_pairing@),
            sessions: self.pairing@,
            empty_since: self.no_connection_since,
        }
    }
}

impl RelayService {
    /// A relay with nothing pending and nobody paired.
    pub fn new() -> (service: RelayService)
        ensures
            service@ == RelayState::empty(),
            service@.well_formed(),
            service@.exclusive(),
    {
        let service = RelayService {
            pending_pairing: Vec::new(),
            pairing: Vec::new(),
            no_connection_since: None,
        };
        assert(service@.pending =~= Seq::empty());
        assert(service@.sessions =~= Seq::empty());
        service
    }

    /// Whether both tables are empty.
    pub fn is_empty(&self) -> (empty: bool)
        ensures
            empty == self@.is_empty(),
    {
        self.pairing.len() == 0 && self.pending_pairing.len() == 0
    }

    /// The number of pending pairings.
    pub fn pending_count(&self) -> (count: usize)
        ensures
            count == self@.pending.len(),
    {
        self.pending_pairing.len()
    }

    /// The number of sessions.
    pub fn session_count(&self) -> (count: usize)
        ensures
            count == self@.sessions.len(),
    {
        self.pairing.len()
    }

    /// Since when both tables have been empty, if they are.
    pub fn empty_since(&self) -> (since: Option<ExpiringTimer>)
        ensures
            since == self@.empty_since,
    {
        self.no_connection_since
    }

    fn find_claim(&self, token: &[u8]) -> (found: Option<usize>)
        ensures
            match found {
                Some(i) => i < self.pending_pairing.len() && self@.claim_index(token@) == Some(
                    i as int,
                ),
                None => self@.claim_index(token@) is None,
            },
    {
        let mut i: usize = 0;
        while i < self.pending_pairing.len()
            invariant
                i <= self.pending_pairing.len(),
                first_claim(self@.pending, token@, 0) == first_claim(
                    self@.pending,
                    token@,
                    i as int,
                ),
            decreases self.pending_pairing.len() - i,
        {
            if same_bytes(self.pending_pairing[i].token.as_slice(), token) {
                return Some(i);
            }
            i += 1;
        }
        None
    }

    fn find_session(&self, addr: PeerAddr) -> (found: Option<usize>)
        ensures
            match found {
                Some(i) => i < self.pairing.len() && self@.session_index(addr) == Some(i as int),
                None => self@.session_index(addr) is None,
            },
    {
        let mut i: usize = self.pairing.len();
        while i > 0
            invariant
                i <= self.pairing.len(),
                latest_session(self@.sessions, addr, self.pairing.len() as int) == latest_session(
                    self@.sessions,
                    addr,
                    i as int,
                ),
            decreases i,
        {
            if self.pairing[i - 1].contains(addr) {
                return Some(i - 1);
            }
            i -= 1;
        }
        None
    }

    /// The claimant of `token` and the timer of the claim, if it is pending.
    pub fn claim_of(&self, token: &[u8]) -> (claim: Option<(PeerAddr, ExpiringTimer)>)
        ensures
            match claim {
                Some((claimant, timer)) => self@.claim_of(token@) is Some && self@.claim_of(
                    token@,
                )->Some_0.claimant == claimant && self@.claim_of(token@)->Some_0.timer == timer,
                None => self@.claim_of(token@) is None,
            },
    {
        match self.find_claim(token) {
            Some(i) => Some((self.pending_pairing[i].claimant, self.pending_pairing[i].timer)),
            None => None,
        }
    }

    /// The session that `addr` resolves to, if it is paired.
    pub fn session_of(&self, addr: PeerAddr) -> (session: Option<Session>)
        ensures
            session == self@.session_of(addr),
    {
        match self.find_session(addr) {
            Some(i) => Some(self.pairing[i]),
            None => None,
        }
    }

    /// Whether `addr` is in the session table.
    pub fn is_paired(&self, addr: PeerAddr) -> (paired: bool)
        ensures
            paired == self@.is_paired(addr),
    {
        self.find_session(addr).is_some()
    }

    /// Takes a pairing request for `token` from `sender`. A token that is
    /// not pending is claimed and acknowledged; a repeated claim refreshes
    /// its timer; a claim by another peer pairs the two.
    pub fn offer(&mut self, token: Vec<u8>, sender: PeerAddr, now: u128) -> (reply: Option<
        Datagram,
    >)
        ensures
            final(self)@ == old(self)@.offer(token@, sender, now),
            sent(reply) == old(self)@.offer_reply(token@, sender),
            old(self)@.well_formed() ==> final(self)@.well_formed(),
    {
        proof {
            if self@.well_formed() {
                lemma_offer_keeps_well_formed(self@, token@, sender, now);
            }
        }
        match self.find_claim(token.as_slice()) {
            None => {
                let payload = ack_frame(token.as_slice());
                self.pending_pairing.push(
                    PendingPairing { token, claimant: sender, timer: ExpiringTimer::new(now) },
                );
                assert(self@.pending =~= old(self)@.offer(token@, sender, now).pending);
                Some(Datagram { to: sender, payload })
            },
            Some(i) => {
                if self.pending_pairing[i].claimant == sender {
                    self.pending_pairing[i] = PendingPairing {
                        token,
                        claimant: sender,
                        timer: ExpiringTimer::new(now),
                    };
                    assert(self@.pending =~= old(self)@.offer(token@, sender, now).pending);
                } else {
                    let claim = self.pending_pairing.remove(i);
                    self.pairing.push(build_paired_peers(claim.claimant, sender, now));
                    assert(self@.pending =~= old(self)@.offer(token@, sender, now).pending);
                }
                None
            },
        }
    }

    /// Takes a datagram from the paired peer `sender`: notes that it sent,
    /// and hands back the same bytes addressed to its opponent. From a peer
    /// that is not paired nothing changes and nothing is sent.
    pub fn forward(&mut self, sender: PeerAddr, payload: Vec<u8>, now: u128) -> (relayed: Option<
        Datagram,
    >)
        ensures
            final(self)@ == old(self)@.forward(sender, now),
            sent(relayed) == old(self)@.relayed(sender, payload@),
            old(self)@.well_formed() ==> final(self)@.well_formed(),
    {
        proof {
            lemma_forward_keeps_addresses(self@, sender, now);
        }
        match self.find_session(sender) {
            Some(i) => {
                let mut session: Session = self.pairing[i];
                let to: PeerAddr = session.get_opponent(sender).addr;
                session.touch(sender, now);
                self.pairing[i] = session;
                Some(Datagram { to, payload })
            },
            None => None,
        }
    }

    /// Drops the pending pairings that are `config.timeout_pairing` seconds
    /// old.
    pub fn remove_expired_pairing_request(&mut self, config: &RelayConfig, now: u128)
        ensures
            final(self)@ == old(self)@.expire_pending(now, config.timeout_pairing),
            old(self)@.well_formed() ==> final(self)@.well_formed(),
    {
        proof {
            if self@.well_formed() {
                lemma_expiry_keeps_well_formed(self@, now, config.timeout_pairing);
            }
        }
        let ghost before = self@.pending;
        let ghost live = claim_is_live(now, config.timeout_pairing);
        let mut i: usize = 0;
        assert(before.take(0).filter(live) =~= Seq::empty()) by {
            reveal(Seq::filter);
        }
        while i < self.pending_pairing.len()
            invariant
                i <= self.pending_pairing.len(),
                self.pending_pairing.len() <= before.len(),
                live == claim_is_live(now, config.timeout_pairing),
                self@.pending.take(i as int) == before.take(
                    before.len() - (self.pending_pairing.len() - i),
                ).filter(live),
                self@.pending.skip(i as int) == before.skip(
                    before.len() - (self.pending_pairing.len() - i),
                ),
                self.pairing == old(self).pairing,
                self.no_connection_since == old(self).no_connection_since,
            decreases self.pending_pairing.len() - i,
        {
            let ghost k: int = before.len() - (self.pending_pairing.len() - i);
            let ghost current = self@.pending;
            proof {
                assert(current[i as int] == current.skip(i as int)[0]);
                assert(before[k] == before.skip(k)[0]);
                lemma_filter_next(before, live, k);
            }
            if self.pending_pairing[i].timer.is_expired(now, config.timeout_pairing) {
                self.pending_pairing.remove(i);
                assert(self@.pending.take(i as int) =~= current.take(i as int));
                assert(self@.pending.skip(i as int) =~= current.skip(i as int).skip(1));
                assert(before.skip(k + 1) =~= before.skip(k).skip(1));
            } else {
                i += 1;
                assert(current.take(i as int) =~= current.take(i - 1).push(current[i - 1]));
                assert(current.skip(i as int) =~= current.skip(i - 1).skip(1));
                assert(before.skip(k + 1) =~= before.skip(k).skip(1));
            }
        }
        assert(self@.pending.take(i as int) =~= self@.pending);
        assert(before.take(before.len() as int) =~= before);
    }

    /// Drops the sessions in which neither endpoint has sent for
    /// `config.timeout_connection_inactivities` seconds.
    pub fn remove_inactive_connections(&mut self, config: &RelayConfig, now: u128)
        ensures
            final(self)@ == old(self)@.expire_sessions(
                now,
                config.timeout_connection_inactivities,
            ),
            old(self)@.well_formed() ==> final(self)@.well_formed(),
    {
        proof {
            if self@.well_formed() {
                lemma_expiry_keeps_well_formed(
                    self@,
                    now,
                    config.timeout_connection_inactivities,
                );
            }
        }
        let ghost before = self@.sessions;
        let ghost live = session_is_live(now, config.timeout_connection_inactivities);
        let mut kept: Vec<Session> = Vec::new();
        let mut i: usize = 0;
        assert(before.take(0).filter(live) =~= Seq::empty()) by {
            reveal(Seq::filter);
        }
        while i < self.pairing.len()
            invariant
                i <= self.pairing.len(),
                self.pairing@ == before,
                live == session_is_live(now, config.timeout_connection_inactivities),
                kept@ == before.take(i as int).filter(live),
            decreases self.pairing.len() - i,
        {
            proof {
                lemma_filter_next(before, live, i as int);
            }
            if !self.pairing[i].is_idle(now, config.timeout_connection_inactivities) {
                kept.push(self.pairing[i]);
            }
            i += 1;
        }
        assert(before.take(before.len() as int) =~= before);
        self.pairing = kept;
    }

    /// Lets the empty-since timer take note of the tables, and says whether
    /// the relay has been empty for `config.timeout_no_connections` seconds.
    pub fn watch_idle(&mut self, config: &RelayConfig, now: u128) -> (stop: bool)
        ensures
            final(self)@ == old(self)@.watch_idle(now),
            stop == old(self)@.should_stop(now, config.timeout_no_connections),
            old(self)@.well_formed() ==> final(self)@.well_formed(),
    {
        let empty = self.is_empty();
        match self.no_connection_since {
            Some(timer) => {
                if empty {
                    timer.is_expired(now, config.timeout_no_connections)
                } else {
                    self.no_connection_since = None;
                    false
                }
            },
            None => {
                if empty {
                    self.no_connection_since = Some(ExpiringTimer::new(now));
                }
                false
            },
        }
    }

    /// Deals with what arrived: a datagram from a paired peer is forwarded,
    /// any other is taken as a pairing request.
    pub fn dispatch(&mut self, config: &RelayConfig, event: Event, now: u128) -> (reply: Option<
        Datagram,
    >)
        ensures
            final(self)@ == old(self)@.dispatch(config@, event@, now),
            sent(reply) == old(self)@.dispatch_reply(config@, event@),
            old(self)@.well_formed() ==> final(self)@.well_formed(),
    {
        match event {
            Event::Datagram { from, payload } => {
                if self.is_paired(from) {
                    self.forward(from, payload, now)
                } else {
                    process_pairing_request(config, self, payload.as_slice(), from, now)
                }
            },
            _ => None,
        }
    }

    /// One turn of the loop: deals with what arrived, updates the
    /// empty-since timer, and expires stale pairings and sessions.
    pub fn step(&mut self, config: &RelayConfig, event: Event, now: u128) -> (outcome: StepOutcome)
        ensures
            final(self)@ == old(self)@.step(config@, event@, now),
            sent(outcome.send) == old(self)@.dispatch_reply(config@, event@),
            outcome.stop == old(self)@.step_stops(config@, event@, now),
            old(self)@.well_formed() ==> final(self)@.well_formed(),
            old(self)@.exclusive() && !old(self)@.step_strands_claim(config@, event@)
                ==> final(self)@.exclusive(),
    {
        proof {
            if self@.well_formed() {
                lemma_step_keeps_well_formed(self@, config@, event@, now);
            }
            if self@.claimants_unpaired() {
                lemma_step_keeps_exclusive(self@, config@, event@, now);
            }
        }
        let send = self.dispatch(config, event, now);
        let stop = self.watch_idle(config, now);
        self.remove_expired_pairing_request(config, now);
        self.remove_inactive_connections(config, now);
        StepOutcome { send, stop }
    }
}

/// Takes a datagram from a peer that is not paired: a valid establish frame
/// is offered to the registry, anything else is dropped.
pub fn process_pairing_request(
    config: &RelayConfig,
    registry: &mut RelayService,
    buffer: &[u8],
    from: PeerAddr,
    now: u128,
) -> (reply: Option<Datagram>)
    ensures
        match parse_establish_spec(config.preshared_key@, buffer@) {
            Ok(token) => final(registry)@ == old(registry)@.offer(token, from, now) && sent(reply)
                == old(registry)@.offer_reply(token, from),
            Err(_) => final(registry)@ == old(registry)@ && reply is None,
        },
        old(registry)@.well_formed() ==> final(registry)@.well_formed(),
{
    match parse_establish(config.preshared_key.as_slice(), buffer) {
        Ok(token) => registry.offer(token, from, now),
        Err(_) => None,
    }
}

} // verus!
