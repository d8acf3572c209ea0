//! Peers, sessions between two of them, and half-open pairings.

use crate::timer::ExpiringTimer;
use vstd::prelude::*;

verus! {

/// The UDP endpoint of a peer: an IPv4 address as a big-endian number, and
/// a port.
#[derive(Clone, Copy, Debug, PartialEq, Eq, Hash, Structural)]
pub struct PeerAddr {
    pub ip: u32,
    pub port: u16,
}

/// One endpoint of a session: where it is, and when it last sent.
#[derive(Clone, Copy, Debug, PartialEq, Eq, Structural)]
pub struct RecipientData {
    pub addr: PeerAddr,
    pub last_accessed: ExpiringTimer,
}

/// Two peers that the relay forwards between.
#[derive(Clone, Copy, Debug, PartialEq, Eq, Structural)]
pub struct Session {
    pub first: RecipientData,
    pub second: RecipientData,
}

impl Session {
    /// Whether `addr` is one of the two endpoints.
    pub open spec fn lists(self, addr: PeerAddr) -> bool {
        self.first.addr == addr || self.second.addr == addr
    }

    /// The endpoint across from `addr`.
    pub open spec fn opponent_of(self, addr: PeerAddr) -> RecipientData {
        if self.first.addr == addr {
            self.second
        } else {
            self.first
        }
    }

    /// The session after `addr` sent something at `now`.
    pub open spec fn touched(self, addr: PeerAddr, now: u128) -> Session {
        if self.first.addr == addr {
            Session {
                first: RecipientData { addr, last_accessed: ExpiringTimer(now) },
                second: self.second,
            }
        } else {
            Session {
                first: self.first,
                second: RecipientData { addr: self.second.addr, last_accessed: ExpiringTimer(now) },
            }
        }
    }

    /// Whether both endpoints have been silent for `timeout` seconds.
    pub open spec fn idle(self, now: u128, timeout: u64) -> bool {
        self.first.last_accessed.expired(now, timeout) && self.second.last_accessed.expired(
            now,
            timeout,
        )
    }

    /// Whether `addr` is one of the two endpoints.
    pub fn contains(&self, addr: PeerAddr) -> (listed: bool)
        ensures
            listed == self.lists(addr),
    {
        self.first.addr == addr || self.second.addr == addr
    }

    /// The endpoint across from `addr`.
    pub fn get_opponent(&self, addr: PeerAddr) -> (opponent: RecipientData)
        ensures
            opponent == self.opponent_of(addr),
    {
        if self.first.addr == addr {
            self.second
        } else {
            self.first
        }
    }

    /// Records that `addr` sent something at `now`.
    pub fn touch(&mut self, addr: PeerAddr, now: u128)
        ensures
            *final(self) == old(self).touched(addr, now),
    {
        if self.first.addr == addr {
            self.first.last_accessed.access(now);
        } else {
            self.second.last_accessed.access(now);
        }
    }

    /// Whether both endpoints have been silent for `timeout` seconds.
    pub fn is_idle(&self, now: u128, timeout: u64) -> (idle: bool)
        ensures
            idle == self.idle(now, timeout),
    {
        self.first.last_accessed.is_expired(now, timeout) && self.second.last_accessed.is_expired(
            now,
            timeout,
        )
    }
}

/// The session that pairs `addr_1` with `addr_2` at `now`.
pub open spec fn paired(addr_1: PeerAddr, addr_2: PeerAddr, now: u128) -> Session {
    Session {
        first: RecipientData { addr: addr_1, last_accessed: ExpiringTimer(now) },
        second: RecipientData { addr: addr_2, last_accessed: ExpiringTimer(now) },
    }
}

/// Pairs two peers: each becomes the other's opponent, and both count as
/// having just sent.
pub fn build_paired_peers(addr_1: PeerAddr, addr_2: PeerAddr, now: u128) -> (session: Session)
    ensures
        session == paired(addr_1, addr_2, now),
{
    Session {
        first: RecipientData { addr: addr_1, last_accessed: ExpiringTimer::new(now) },
        second: RecipientData { addr: addr_2, last_accessed: ExpiringTimer::new(now) },
    }
}

/// A token that one peer has claimed and no partner has matched yet.
#[derive(Debug, PartialEq, Eq)]
pub struct PendingPairing {
    pub token: Vec<u8>,
    pub claimant: PeerAddr,
    pub timer: ExpiringTimer,
}

/// A pending pairing as plain values.
pub struct PendingView {
    pub token: Seq<u8>,
    pub claimant: PeerAddr,
    pub timer: ExpiringTimer,
}

impl View for PendingPairing {
    type V = PendingView;

    open spec fn view(&self) -> PendingView {
        PendingView { token: self.token@, claimant: self.claimant, timer: self.timer }
    }
}

/// A datagram for the caller to send.
#[derive(Debug, PartialEq, Eq)]
pub struct Datagram {
    pub to: PeerAddr,
    pub payload: Vec<u8>,
}

/// A datagram as plain values.
pub struct DatagramView {
    pub to: PeerAddr,
    pub payload: Seq<u8>,
}

impl View for Datagram {
    type V = DatagramView;

    open spec fn view(&self) -> DatagramView {
        DatagramView { to: self.to, payload: self.payload@ }
    }
}

} // verus!
