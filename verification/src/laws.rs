//! What holds of the relay's state whatever arrives.

use crate::lemmas::{
    lemma_claims_after_removal, lemma_filter_contains, lemma_filter_keeps_pairwise,
    lemma_first_claim, lemma_first_claim_after_push, lemma_first_claim_by_tokens,
    lemma_first_claim_is, lemma_latest_session, lemma_latest_session_within,
};
use crate::model::{
    claim_is_live, session_is_live, share_endpoint, ConfigView, EventView, RelayState,
};
use crate::peer::{paired, DatagramView, PeerAddr, PendingView, Session};
use crate::timer::ExpiringTimer;
use crate::wire::{ack_frame_spec, parse_establish_spec};
use vstd::prelude::*;

verus! {

/// An address is in the session table exactly when some session lists it.
pub proof fn lemma_paired_iff_listed(state: RelayState, addr: PeerAddr)
    ensures
        state.is_paired(addr) == state.listed(addr),
{
    lemma_latest_session(state.sessions, addr, state.sessions.len() as int);
}

/// An address in the session table resolves to a session of the table that
/// lists it as one of its two endpoints.
pub proof fn lemma_session_lists_its_address(state: RelayState, addr: PeerAddr)
    requires
        state.is_paired(addr),
    ensures
        state.session_of(addr) is Some,
        state.session_of(addr)->Some_0.lists(addr),
        state.sessions.contains(state.session_of(addr)->Some_0),
{
    lemma_latest_session(state.sessions, addr, state.sessions.len() as int);
}

/// The empty relay is well formed.
pub proof fn lemma_empty_is_well_formed()
    ensures
        RelayState::empty().well_formed(),
        RelayState::empty().claimants_unpaired(),
{
}

/// A pairing request leaves no token pending twice and pairs no peer with
/// itself.
pub proof fn lemma_offer_keeps_well_formed(
    state: RelayState,
    token: Seq<u8>,
    sender: PeerAddr,
    now: u128,
)
    requires
        state.well_formed(),
    ensures
        state.offer(token, sender, now).well_formed(),
{
    lemma_first_claim(state.pending, token, 0);
    let after = state.offer(token, sender, now);
    match state.claim_index(token) {
        None => {
            assert forall|i: int, j: int| 0 <= i < j < after.pending.len() implies (
            #[trigger] after.pending[i]).token != (#[trigger] after.pending[j]).token by {
                assert(after.pending[i] == state.pending[i]);
                if j < state.pending.len() {
                    assert(after.pending[j] == state.pending[j]);
                }
            }
        },
        Some(k) => {
            if state.pending[k].claimant == sender {
                assert forall|i: int, j: int| 0 <= i < j < after.pending.len() implies (
                #[trigger] after.pending[i]).token != (#[trigger] after.pending[j]).token by {
                    assert(after.pending[i].token == state.pending[i].token);
                    assert(after.pending[j].token == state.pending[j].token);
                }
            } else {
                assert forall|i: int, j: int| 0 <= i < j < after.pending.len() implies (
                #[trigger] after.pending[i]).token != (#[trigger] after.pending[j]).token by {
                    let i0 = if i < k { i } else { i + 1 };
                    let j0 = if j < k { j } else { j + 1 };
                    assert(after.pending[i] == state.pending[i0]);
                    assert(after.pending[j] == state.pending[j0]);
                }
                assert forall|i: int| 0 <= i < after.sessions.len() implies (
                #[trigger] after.sessions[i]).first.addr != after.sessions[i].second.addr by {
                    if i < state.sessions.len() {
                        assert(after.sessions[i] == state.sessions[i]);
                    }
                }
            }
        },
    }
}

/// Forwarding leaves the pending table, the empty-since timer and the two
/// addresses of every session as they were.
pub proof fn lemma_forward_keeps_addresses(state: RelayState, sender: PeerAddr, now: u128)
    ensures
        state.forward(sender, now).pending == state.pending,
        state.forward(sender, now).empty_since == state.empty_since,
        state.forward(sender, now).sessions.len() == state.sessions.len(),
        forall|i: int|
            0 <= i < state.sessions.len() ==> (#[trigger] state.forward(
                sender,
                now,
            ).sessions[i]).first.addr == state.sessions[i].first.addr && state.forward(
                sender,
                now,
            ).sessions[i].second.addr == state.sessions[i].second.addr,
{
    lemma_latest_session(state.sessions, sender, state.sessions.len() as int);
}

/// Neither expiry makes a token pending twice or pairs a peer with itself.
pub proof fn lemma_expiry_keeps_well_formed(state: RelayState, now: u128, timeout: u64)
    ensures
        state.tokens_distinct() ==> state.expire_pending(now, timeout).tokens_distinct()
            && state.expire_sessions(now, timeout).tokens_distinct(),
        state.endpoints_distinct() ==> state.expire_pending(now, timeout).endpoints_distinct()
            && state.expire_sessions(now, timeout).endpoints_distinct(),
{
    if state.tokens_distinct() {
        let differ = |a: PendingView, b: PendingView| a.token != b.token;
        assert forall|i: int, j: int| 0 <= i < j < state.pending.len() implies #[trigger] differ(
            state.pending[i],
            state.pending[j],
        ) by {
            assert(state.pending[i].token != state.pending[j].token);
        }
        lemma_filter_keeps_pairwise(state.pending, claim_is_live(now, timeout), differ);
        let live = state.pending.filter(claim_is_live(now, timeout));
        assert forall|i: int, j: int| 0 <= i < j < live.len() implies (#[trigger] live[i]).token
            != (#[trigger] live[j]).token by {
            assert(differ(live[i], live[j]));
        }
    }
    let kept = state.sessions.filter(session_is_live(now, timeout));
    assert forall|i: int| state.endpoints_distinct() && 0 <= i < kept.len() implies (
    #[trigger] kept[i]).first.addr != kept[i].second.addr by {
        assert(kept.contains(kept[i]));
        lemma_filter_contains(state.sessions, session_is_live(now, timeout), kept[i]);
        let k = choose|k: int| 0 <= k < state.sessions.len() && state.sessions[k] == kept[i];
        assert(state.sessions[k].first.addr != state.sessions[k].second.addr);
    }
}

/// After every turn of the loop no token is pending twice and the two
/// endpoints of every session differ.
pub proof fn lemma_step_keeps_well_formed(
    state: RelayState,
    config: ConfigView,
    event: EventView,
    now: u128,
)
    requires
        state.well_formed(),
    ensures
        state.dispatch(config, event, now).well_formed(),
        state.step(config, event, now).well_formed(),
{
    let dispatched = state.dispatch(config, event, now);
    match event {
        EventView::Datagram { from, payload } => {
            if state.is_paired(from) {
                lemma_forward_keeps_addresses(state, from, now);
            } else {
                match parse_establish_spec(config.preshared_key, payload) {
                    Ok(token) => {
                        lemma_offer_keeps_well_formed(state, token, from, now);
                    },
                    Err(_) => {},
                }
            }
        },
        _ => {},
    }
    let watched = dispatched.watch_idle(now);
    lemma_expiry_keeps_well_formed(watched, now, config.timeout_pairing);
    lemma_expiry_keeps_well_formed(
        watched.expire_pending(now, config.timeout_pairing),
        now,
        config.timeout_connection_inactivities,
    );
}

/// The state of a relay that started empty and took `arrivals` in turn, each
/// an event and the time at which it was dealt with.
pub open spec fn state_after(config: ConfigView, arrivals: Seq<(EventView, u128)>) -> RelayState
    decreases arrivals.len(),
{
    if arrivals.len() == 0 {
        RelayState::empty()
    } else {
        state_after(config, arrivals.drop_last()).step(
            config,
            arrivals.last().0,
            arrivals.last().1,
        )
    }
}

/// Whatever arrives and whenever, no token is pending twice and no peer is
/// paired with itself.
pub proof fn lemma_every_reachable_state_is_well_formed(
    config: ConfigView,
    arrivals: Seq<(EventView, u128)>,
)
    ensures
        state_after(config, arrivals).well_formed(),
    decreases arrivals.len(),
{
    if arrivals.len() > 0 {
        lemma_every_reachable_state_is_well_formed(config, arrivals.drop_last());
        lemma_step_keeps_well_formed(
            state_after(config, arrivals.drop_last()),
            config,
            arrivals.last().0,
            arrivals.last().1,
        );
    }
}

/// A pairing request from a peer outside the session table leaves no
/// claimant in the session table, unless it pairs two peers of which one
/// still claims another token; and it leaves no address in two sessions.
pub proof fn lemma_offer_keeps_exclusive(
    state: RelayState,
    token: Seq<u8>,
    sender: PeerAddr,
    now: u128,
)
    requires
        state.claimants_unpaired(),
        !state.is_paired(sender),
    ensures
        !state.promotion_strands_claim(token, sender) ==> state.offer(
            token,
            sender,
            now,
        ).claimants_unpaired(),
        state.sessions_disjoint() ==> state.offer(token, sender, now).sessions_disjoint(),
{
    lemma_first_claim(state.pending, token, 0);
    lemma_paired_iff_listed(state, sender);
    let after = state.offer(token, sender, now);
    match state.claim_index(token) {
        None => {
            assert forall|i: int| 0 <= i < after.pending.len() implies !after.listed(
                (#[trigger] after.pending[i]).claimant,
            ) by {
                if i < state.pending.len() {
                    assert(after.pending[i] == state.pending[i]);
                }
            }
        },
        Some(k) => {
            if state.pending[k].claimant == sender {
                assert forall|i: int| 0 <= i < after.pending.len() implies !after.listed(
                    (#[trigger] after.pending[i]).claimant,
                ) by {
                    assert(after.pending[i].claimant == state.pending[i].claimant);
                }
            } else {
                let claimant = state.pending[k].claimant;
                let formed = paired(claimant, sender, now);
                assert(!state.listed(claimant));
                assert forall|i: int|
                    !state.promotion_strands_claim(token, sender) && 0 <= i
                        < after.pending.len() implies !after.listed(
                    (#[trigger] after.pending[i]).claimant,
                ) by {
                    let i0 = if i < k { i } else { i + 1 };
                    assert(after.pending[i] == state.pending[i0]);
                    let addr = state.pending[i0].claimant;
                    assert(!state.listed(addr));
                    assert(addr != sender && addr != claimant);
                    if after.listed(addr) {
                        let m = choose|m: int|
                            0 <= m < after.sessions.len() && #[trigger] after.sessions[m].lists(
                                addr,
                            );
                        if m < state.sessions.len() {
                            assert(state.sessions[m].lists(addr));
                        }
                    }
                }
                assert forall|i: int, j: int|
                    state.sessions_disjoint() && 0 <= i < j
                        < after.sessions.len() implies !share_endpoint(
                    #[trigger] after.sessions[i],
                    #[trigger] after.sessions[j],
                ) by {
                    assert(after.sessions[i] == state.sessions[i]);
                    if j < state.sessions.len() {
                        assert(after.sessions[j] == state.sessions[j]);
                    } else {
                        assert(after.sessions[j] == formed);
                        assert(state.sessions[i].lists(claimant) ==> state.listed(claimant));
                        assert(state.sessions[i].lists(sender) ==> state.listed(sender));
                    }
                }
            }
        },
    }
}

/// Forwarding moves no address.
pub proof fn lemma_forward_keeps_exclusive(state: RelayState, sender: PeerAddr, now: u128)
    ensures
        state.claimants_unpaired() ==> state.forward(sender, now).claimants_unpaired(),
        state.sessions_disjoint() ==> state.forward(sender, now).sessions_disjoint(),
{
    lemma_forward_keeps_addresses(state, sender, now);
    let after = state.forward(sender, now);
    assert forall|i: int|
        state.claimants_unpaired() && 0 <= i < after.pending.len() implies !after.listed(
        (#[trigger] after.pending[i]).claimant,
    ) by {
        let addr = state.pending[i].claimant;
        assert(!state.listed(addr));
        if after.listed(addr) {
            let m = choose|m: int|
                0 <= m < after.sessions.len() && #[trigger] after.sessions[m].lists(addr);
            assert(state.sessions[m].lists(addr));
        }
    }
    assert forall|i: int, j: int|
        state.sessions_disjoint() && 0 <= i < j < after.sessions.len() implies !share_endpoint(
        #[trigger] after.sessions[i],
        #[trigger] after.sessions[j],
    ) by {
        assert(!share_endpoint(state.sessions[i], state.sessions[j]));
    }
}

/// Neither expiry puts a claimant in the session table or an address in
/// two sessions.
pub proof fn lemma_expiry_keeps_exclusive(state: RelayState, now: u128, timeout: u64)
    ensures
        state.claimants_unpaired() ==> state.expire_pending(now, timeout).claimants_unpaired()
            && state.expire_sessions(now, timeout).claimants_unpaired(),
        state.sessions_disjoint() ==> state.expire_pending(now, timeout).sessions_disjoint()
            && state.expire_sessions(now, timeout).sessions_disjoint(),
{
    let live = state.pending.filter(claim_is_live(now, timeout));
    assert forall|i: int| state.claimants_unpaired() && 0 <= i < live.len() implies !state.listed(
        (#[trigger] live[i]).claimant,
    ) by {
        assert(live.contains(live[i]));
        lemma_filter_contains(state.pending, claim_is_live(now, timeout), live[i]);
        let k = choose|k: int| 0 <= k < state.pending.len() && state.pending[k] == live[i];
        assert(!state.listed(state.pending[k].claimant));
    }
    let after = state.expire_sessions(now, timeout);
    let kept = after.sessions;
    assert forall|i: int|
        state.claimants_unpaired() && 0 <= i < after.pending.len() implies !after.listed(
        (#[trigger] after.pending[i]).claimant,
    ) by {
        let addr = state.pending[i].claimant;
        assert(!state.listed(addr));
        if after.listed(addr) {
            let m = choose|m: int| 0 <= m < kept.len() && #[trigger] kept[m].lists(addr);
            assert(kept.contains(kept[m]));
            lemma_filter_contains(state.sessions, session_is_live(now, timeout), kept[m]);
            let k = choose|k: int| 0 <= k < state.sessions.len() && state.sessions[k] == kept[m];
            assert(state.sessions[k].lists(addr));
        }
    }
    if state.sessions_disjoint() {
        let apart = |a: Session, b: Session| !share_endpoint(a, b);
        assert forall|i: int, j: int| 0 <= i < j < state.sessions.len() implies #[trigger] apart(
            state.sessions[i],
            state.sessions[j],
        ) by {
            assert(!share_endpoint(state.sessions[i], state.sessions[j]));
        }
        lemma_filter_keeps_pairwise(state.sessions, session_is_live(now, timeout), apart);
        assert forall|i: int, j: int| 0 <= i < j < kept.len() implies !share_endpoint(
            #[trigger] kept[i],
            #[trigger] kept[j],
        ) by {
            assert(apart(kept[i], kept[j]));
        }
    }
}

/// After a turn of the loop no address is both a claimant and an endpoint
/// of a session, if none was before and the turn did not pair two peers of
/// which one still claims another token. No address is then an endpoint of
/// two sessions either, if none was before.
pub proof fn lemma_step_keeps_exclusive(
    state: RelayState,
    config: ConfigView,
    event: EventView,
    now: u128,
)
    requires
        state.claimants_unpaired(),
    ensures
        !state.step_strands_claim(config, event) ==> state.step(
            config,
            event,
            now,
        ).claimants_unpaired(),
        state.sessions_disjoint() ==> state.step(config, event, now).sessions_disjoint(),
{
    let dispatched = state.dispatch(config, event, now);
    match event {
        EventView::Datagram { from, payload } => {
            if state.is_paired(from) {
                lemma_forward_keeps_exclusive(state, from, now);
            } else {
                match parse_establish_spec(config.preshared_key, payload) {
                    Ok(token) => {
                        lemma_offer_keeps_exclusive(state, token, from, now);
                    },
                    Err(_) => {},
                }
            }
        },
        _ => {},
    }
    let watched = dispatched.watch_idle(now);
    assert(watched.pending == dispatched.pending);
    assert(watched.sessions == dispatched.sessions);
    assert(dispatched.claimants_unpaired() ==> watched.claimants_unpaired());
    assert(dispatched.sessions_disjoint() ==> watched.sessions_disjoint());
    lemma_expiry_keeps_exclusive(watched, now, config.timeout_pairing);
    lemma_expiry_keeps_exclusive(
        watched.expire_pending(now, config.timeout_pairing),
        now,
        config.timeout_connection_inactivities,
    );
}

/// Whether none of `arrivals` paired two peers of which one still claimed
/// another token.
pub open spec fn never_strands_claim(config: ConfigView, arrivals: Seq<(EventView, u128)>) -> bool
    decreases arrivals.len(),
{
    arrivals.len() == 0 || (never_strands_claim(config, arrivals.drop_last()) && !state_after(
        config,
        arrivals.drop_last(),
    ).step_strands_claim(config, arrivals.last().0))
}

/// As long as no pairing leaves one of its two peers with a claim to
/// another token, no address is a claimant and an endpoint at once, and none
/// is an endpoint of two sessions.
pub proof fn lemma_reachable_states_are_exclusive(
    config: ConfigView,
    arrivals: Seq<(EventView, u128)>,
)
    requires
        never_strands_claim(config, arrivals),
    ensures
        state_after(config, arrivals).exclusive(),
    decreases arrivals.len(),
{
    if arrivals.len() > 0 {
        lemma_reachable_states_are_exclusive(config, arrivals.drop_last());
        lemma_step_keeps_exclusive(
            state_after(config, arrivals.drop_last()),
            config,
            arrivals.last().0,
            arrivals.last().1,
        );
    }
}

/// A relay that has been empty for the no-connections timeout stops with
/// the turn, unless a valid pairing request arrives in that very turn.
pub proof fn lemma_idle_relay_stops(
    state: RelayState,
    config: ConfigView,
    event: EventView,
    now: u128,
)
    requires
        state.is_empty(),
        state.empty_since is Some,
        state.empty_since->Some_0.expired(now, config.timeout_no_connections),
        !(event is Datagram && parse_establish_spec(
            config.preshared_key,
            event->payload,
        ) is Ok),
    ensures
        state.step_stops(config, event, now),
        state.step(config, event, now) == state,
{
    match event {
        EventView::Datagram { from, payload } => {
            assert(!state.is_paired(from));
        },
        _ => {},
    }
    reveal(Seq::filter);
    assert(state.pending.filter(claim_is_live(now, config.timeout_pairing)) =~= state.pending);
    assert(state.sessions.filter(session_is_live(now, config.timeout_connection_inactivities))
        =~= state.sessions);
}

/// The relay stops only when both tables were empty after dispatch and the
/// empty-since timer, set in an earlier turn, has run out.
pub proof fn lemma_stop_means_idle(
    state: RelayState,
    config: ConfigView,
    event: EventView,
    now: u128,
)
    requires
        state.step_stops(config, event, now),
    ensures
        state.dispatch(config, event, now).is_empty(),
        state.empty_since is Some,
        state.empty_since->Some_0.expired(now, config.timeout_no_connections),
{
    match event {
        EventView::Datagram { from, payload } => {
            if state.is_paired(from) {
                lemma_forward_keeps_addresses(state, from, now);
            }
        },
        _ => {},
    }
}

/// The state after the same peer presented the same token once at each of
/// `times`, in turn.
pub open spec fn offered_repeatedly(
    state: RelayState,
    token: Seq<u8>,
    sender: PeerAddr,
    times: Seq<u128>,
) -> RelayState
    decreases times.len(),
{
    if times.len() == 0 {
        state
    } else {
        offered_repeatedly(state, token, sender, times.drop_last()).offer(
            token,
            sender,
            times.last(),
        )
    }
}

/// A claim repeated by its claimant is answered with nothing and leaves
/// what the later claim alone would have left.
pub proof fn lemma_repeated_claim_is_absorbed(
    state: RelayState,
    token: Seq<u8>,
    sender: PeerAddr,
    earlier: u128,
    later: u128,
)
    requires
        state.claim_of(token) is Some ==> state.claim_of(token)->Some_0.claimant == sender,
    ensures
        state.offer(token, sender, earlier).claim_of(token) == Some(
            PendingView { token, claimant: sender, timer: ExpiringTimer(earlier) },
        ),
        state.offer(token, sender, earlier).offer_reply(token, sender) is None,
        state.offer(token, sender, earlier).offer(token, sender, later) == state.offer(
            token,
            sender,
            later,
        ),
{
    lemma_first_claim(state.pending, token, 0);
    let once = state.offer(token, sender, earlier);
    match state.claim_index(token) {
        None => {
            let at = state.pending.len() as int;
            assert forall|j: int| 0 <= j < at implies (#[trigger] once.pending[j]).token
                != token by {
                assert(once.pending[j] == state.pending[j]);
            }
            lemma_first_claim_is(once.pending, token, 0, at);
            assert(once.offer(token, sender, later).pending =~= state.offer(
                token,
                sender,
                later,
            ).pending);
        },
        Some(k) => {
            assert forall|j: int| 0 <= j < k implies (#[trigger] once.pending[j]).token
                != token by {
                assert(once.pending[j] == state.pending[j]);
            }
            lemma_first_claim_is(once.pending, token, 0, k);
            assert(once.offer(token, sender, later).pending =~= state.offer(
                token,
                sender,
                later,
            ).pending);
        },
    }
}

/// Any number of identical pairing requests for a fresh token leaves what
/// one request at the last of their times leaves: one pending pairing more
/// than before, claimed by the sender.
pub proof fn lemma_pairing_is_idempotent(
    state: RelayState,
    token: Seq<u8>,
    sender: PeerAddr,
    times: Seq<u128>,
)
    requires
        times.len() >= 1,
        state.claim_of(token) is None,
    ensures
        offered_repeatedly(state, token, sender, times) == state.offer(
            token,
            sender,
            times.last(),
        ),
        offered_repeatedly(state, token, sender, times).pending.len() == state.pending.len() + 1,
        offered_repeatedly(state, token, sender, times).sessions == state.sessions,
        offered_repeatedly(state, token, sender, times).claim_of(token) == Some(
            PendingView { token, claimant: sender, timer: ExpiringTimer(times.last()) },
        ),
    decreases times.len(),
{
    let before = times.drop_last();
    if before.len() == 0 {
        assert(offered_repeatedly(state, token, sender, before) == state);
    } else {
        lemma_pairing_is_idempotent(state, token, sender, before);
    }
    lemma_repeated_claim_is_absorbed(state, token, sender, times.last(), times.last());
    if before.len() > 0 {
        lemma_repeated_claim_is_absorbed(state, token, sender, before.last(), times.last());
    }
}

/// The first request for a token is acknowledged to its sender with the
/// acknowledgement opcode and the token.
pub proof fn lemma_fresh_claim_is_acknowledged(
    state: RelayState,
    token: Seq<u8>,
    sender: PeerAddr,
    now: u128,
)
    requires
        state.claim_of(token) is None,
    ensures
        state.offer_reply(token, sender) == Some(
            DatagramView { to: sender, payload: ack_frame_spec(token) },
        ),
        state.offer(token, sender, now).claim_of(token) == Some(
            PendingView { token, claimant: sender, timer: ExpiringTimer(now) },
        ),
{
    lemma_repeated_claim_is_absorbed(state, token, sender, now, now);
}

/// A request for a token that another peer claims pairs the two: the claim
/// leaves the pending table, nothing is sent, and each of the two resolves
/// to the new session, so that what either sends next goes to the other.
pub proof fn lemma_match_pairs_both(
    state: RelayState,
    token: Seq<u8>,
    sender: PeerAddr,
    now: u128,
    payload: Seq<u8>,
)
    requires
        state.claim_of(token) is Some,
        state.claim_of(token)->Some_0.claimant != sender,
    ensures
        state.offer_reply(token, sender) is None,
        state.offer(token, sender, now).pending.len() == state.pending.len() - 1,
        state.tokens_distinct() ==> state.offer(token, sender, now).claim_of(token) is None,
        state.offer(token, sender, now).session_of(sender) == Some(
            paired(state.claim_of(token)->Some_0.claimant, sender, now),
        ),
        state.offer(token, sender, now).session_of(state.claim_of(token)->Some_0.claimant)
            == Some(paired(state.claim_of(token)->Some_0.claimant, sender, now)),
        state.offer(token, sender, now).relayed(sender, payload) == Some(
            DatagramView { to: state.claim_of(token)->Some_0.claimant, payload },
        ),
        state.offer(token, sender, now).relayed(state.claim_of(token)->Some_0.claimant, payload)
            == Some(DatagramView { to: sender, payload }),
{
    lemma_first_claim(state.pending, token, 0);
    let after = state.offer(token, sender, now);
    let k = state.claim_index(token)->Some_0;
    if state.tokens_distinct() {
        assert forall|j: int| 0 <= j < after.pending.len() implies (
        #[trigger] after.pending[j]).token != token by {
            let j0 = if j < k { j } else { j + 1 };
            assert(after.pending[j] == state.pending[j0]);
            if j0 > k {
                assert(state.pending[k].token != state.pending[j0].token);
            }
        }
        lemma_first_claim(after.pending, token, 0);
    }
}

/// A datagram from a paired peer goes to its opponent with the payload
/// unchanged, whatever the payload holds.
pub proof fn lemma_payload_is_relayed_unchanged(
    state: RelayState,
    config: ConfigView,
    from: PeerAddr,
    payload: Seq<u8>,
)
    requires
        state.is_paired(from),
    ensures
        state.dispatch_reply(config, EventView::Datagram { from, payload }) == Some(
            DatagramView {
                to: state.session_of(from)->Some_0.opponent_of(from).addr,
                payload,
            },
        ),
        state.endpoints_distinct() ==> state.session_of(from)->Some_0.opponent_of(from).addr
            != from,
        state.session_of(from)->Some_0.lists(
            state.session_of(from)->Some_0.opponent_of(from).addr,
        ),
{
    lemma_session_lists_its_address(state, from);
    let session = state.session_of(from)->Some_0;
    let i = choose|i: int| 0 <= i < state.sessions.len() && state.sessions[i] == session;
    assert(state.endpoints_distinct() ==> state.sessions[i].first.addr
        != state.sessions[i].second.addr);
}

/// Session expiry drops exactly the sessions in which both endpoints have
/// been silent for the timeout: one in which either endpoint sent more
/// recently stays.
pub proof fn lemma_session_expiry_is_both_idle(
    state: RelayState,
    now: u128,
    timeout: u64,
    session: Session,
)
    ensures
        state.expire_sessions(now, timeout).sessions.contains(session) <==> state.sessions.contains(
            session,
        ) && !(session.first.last_accessed.expired(now, timeout)
            && session.second.last_accessed.expired(now, timeout)),
        state.expire_sessions(now, timeout).pending == state.pending,
{
    lemma_filter_contains(state.sessions, session_is_live(now, timeout), session);
}

/// Pending expiry drops exactly the claims that are as old as the timeout.
pub proof fn lemma_pending_expiry_is_by_age(
    state: RelayState,
    now: u128,
    timeout: u64,
    claim: PendingView,
)
    ensures
        state.expire_pending(now, timeout).pending.contains(claim) <==> state.pending.contains(
            claim,
        ) && !claim.timer.expired(now, timeout),
        state.expire_pending(now, timeout).sessions == state.sessions,
{
    lemma_filter_contains(state.pending, claim_is_live(now, timeout), claim);
}

/// What a pairing request does to the two tables: a token that is not
/// pending enters the pending table; a token that the sender claims has its
/// timer set anew; a token that another peer claims leaves the pending
/// table, and both peers enter the session table with their new session.
pub proof fn lemma_offer_on_tables(state: RelayState, token: Seq<u8>, sender: PeerAddr, now: u128)
    requires
        state.tokens_distinct(),
    ensures
        !state.pending_table().dom().contains(token) ==> state.offer(
            token,
            sender,
            now,
        ).pending_table() == state.pending_table().insert(
            token,
            PendingView { token, claimant: sender, timer: ExpiringTimer(now) },
        ) && state.offer(token, sender, now).session_table() == state.session_table(),
        state.pending_table().dom().contains(token) && state.pending_table()[token].claimant
            == sender ==> state.offer(token, sender, now).pending_table()
            == state.pending_table().insert(
            token,
            PendingView { token, claimant: sender, timer: ExpiringTimer(now) },
        ) && state.offer(token, sender, now).session_table() == state.session_table(),
        state.pending_table().dom().contains(token) && state.pending_table()[token].claimant
            != sender ==> state.offer(token, sender, now).pending_table()
            == state.pending_table().remove(token) && state.offer(
            token,
            sender,
            now,
        ).session_table() == state.session_table().insert(
            state.pending_table()[token].claimant,
            paired(state.pending_table()[token].claimant, sender, now),
        ).insert(sender, paired(state.pending_table()[token].claimant, sender, now)),
{
    let after = state.offer(token, sender, now);
    let claim = PendingView { token, claimant: sender, timer: ExpiringTimer(now) };
    lemma_first_claim(state.pending, token, 0);
    match state.claim_index(token) {
        None => {
            assert forall|t: Seq<u8>| #[trigger] after.claim_of(t) == (if t == token {
                Some(claim)
            } else {
                state.claim_of(t)
            }) by {
                lemma_first_claim_after_push(state.pending, claim, t);
                lemma_first_claim(state.pending, t, 0);
                if state.claim_index(t) is Some {
                    assert(after.pending[state.claim_index(t)->Some_0]
                        == state.pending[state.claim_index(t)->Some_0]);
                }
            }
            assert(after.pending_table() =~= state.pending_table().insert(token, claim));
        },
        Some(k) => {
            if state.pending[k].claimant == sender {
                assert forall|t: Seq<u8>| #[trigger] after.claim_of(t) == (if t == token {
                    Some(claim)
                } else {
                    state.claim_of(t)
                }) by {
                    lemma_first_claim_by_tokens(after.pending, state.pending, t, 0);
                    lemma_first_claim(state.pending, t, 0);
                }
                assert(after.pending_table() =~= state.pending_table().insert(token, claim));
            } else {
                let claimant = state.pending[k].claimant;
                let formed = paired(claimant, sender, now);
                assert forall|t: Seq<u8>| #[trigger] after.claim_of(t) == (if t == token {
                    None
                } else {
                    state.claim_of(t)
                }) by {
                    lemma_claims_after_removal(state.pending, k, t);
                }
                assert(after.pending_table() =~= state.pending_table().remove(token));
                assert forall|addr: PeerAddr| #[trigger] after.session_of(addr) == (if addr
                    == claimant || addr == sender {
                    Some(formed)
                } else {
                    state.session_of(addr)
                }) by {
                    lemma_latest_session_within(
                        state.sessions,
                        formed,
                        addr,
                        state.sessions.len() as int,
                    );
                    lemma_latest_session(state.sessions, addr, state.sessions.len() as int);
                    if state.session_index(addr) is Some {
                        assert(after.sessions[state.session_index(addr)->Some_0]
                            == state.sessions[state.session_index(addr)->Some_0]);
                    }
                }
                assert(after.session_table() =~= state.session_table().insert(
                    claimant,
                    formed,
                ).insert(sender, formed));
            }
        },
    }
}

/// Every address of the session table is an endpoint of the session it
/// resolves to.
pub proof fn lemma_session_table_lists_its_keys(state: RelayState)
    ensures
        forall|addr: PeerAddr| #[trigger]
            state.session_table().dom().contains(addr) ==> state.session_table()[addr].lists(
                addr,
            ),
{
    assert forall|addr: PeerAddr| #[trigger]
        state.session_table().dom().contains(addr) implies state.session_table()[addr].lists(
        addr,
    ) by {
        lemma_session_lists_its_address(state, addr);
    }
}

/// With no token pending twice, a token resolves to a claim exactly when
/// the claim stands in the pending table under that token.
pub proof fn lemma_claim_of_is_membership(state: RelayState, token: Seq<u8>, claim: PendingView)
    requires
        state.tokens_distinct(),
    ensures
        state.claim_of(token) == Some(claim) <==> state.pending.contains(claim) && claim.token
            == token,
{
    lemma_first_claim(state.pending, token, 0);
    if state.pending.contains(claim) && claim.token == token {
        let i = choose|i: int| 0 <= i < state.pending.len() && state.pending[i] == claim;
        let found = state.claim_index(token)->Some_0;
        if found < i {
            assert(state.pending[found].token != state.pending[i].token);
        }
    }
}

/// With no address in two sessions, an address resolves to a session
/// exactly when the session stands in the session table and lists it.
pub proof fn lemma_session_of_is_membership(state: RelayState, addr: PeerAddr, session: Session)
    requires
        state.sessions_disjoint(),
    ensures
        state.session_of(addr) == Some(session) <==> state.sessions.contains(session)
            && session.lists(addr),
{
    lemma_latest_session(state.sessions, addr, state.sessions.len() as int);
    if state.sessions.contains(session) && session.lists(addr) {
        let i = choose|i: int| 0 <= i < state.sessions.len() && state.sessions[i] == session;
        let found = state.session_index(addr)->Some_0;
        if i < found {
            assert(!share_endpoint(state.sessions[i], state.sessions[found]));
        }
    }
}

/// What expiry does to the two tables: a token stays pending exactly when
/// its claim is younger than the timeout, and an address stays paired
/// exactly when an endpoint of its session sent within the timeout.
pub proof fn lemma_expiry_on_tables(state: RelayState, now: u128, timeout: u64)
    ensures
        state.tokens_distinct() ==> state.expire_pending(now, timeout).pending_table() == Map::new(
            |token: Seq<u8>|
                state.pending_table().dom().contains(token)
                    && !state.pending_table()[token].timer.expired(now, timeout),
            |token: Seq<u8>| state.pending_table()[token],
        ),
        state.expire_pending(now, timeout).session_table() == state.session_table(),
        state.sessions_disjoint() ==> state.expire_sessions(now, timeout).session_table()
            == Map::new(
            |addr: PeerAddr|
                state.session_table().dom().contains(addr) && !state.session_table()[addr].idle(
                    now,
                    timeout,
                ),
            |addr: PeerAddr| state.session_table()[addr],
        ),
        state.expire_sessions(now, timeout).pending_table() == state.pending_table(),
{
    if state.tokens_distinct() {
        let after = state.expire_pending(now, timeout);
        lemma_expiry_keeps_well_formed(state, now, timeout);
        assert forall|token: Seq<u8>|
            after.claim_of(token) == (if state.claim_of(token) is Some && !state.claim_of(
                token,
            )->Some_0.timer.expired(now, timeout) {
                state.claim_of(token)
            } else {
                None
            }) by {
            if after.claim_of(token) is Some {
                let claim = after.claim_of(token)->Some_0;
                lemma_claim_of_is_membership(after, token, claim);
                lemma_filter_contains(state.pending, claim_is_live(now, timeout), claim);
                lemma_claim_of_is_membership(state, token, claim);
            }
            if state.claim_of(token) is Some {
                let claim = state.claim_of(token)->Some_0;
                lemma_claim_of_is_membership(state, token, claim);
                lemma_filter_contains(state.pending, claim_is_live(now, timeout), claim);
                lemma_claim_of_is_membership(after, token, claim);
            }
        }
        assert(after.pending_table() =~= Map::new(
            |token: Seq<u8>|
                state.pending_table().dom().contains(token)
                    && !state.pending_table()[token].timer.expired(now, timeout),
            |token: Seq<u8>| state.pending_table()[token],
        ));
    }
    if state.sessions_disjoint() {
        let after = state.expire_sessions(now, timeout);
        lemma_expiry_keeps_exclusive(state, now, timeout);
        assert forall|addr: PeerAddr|
            after.session_of(addr) == (if state.session_of(addr) is Some && !state.session_of(
                addr,
            )->Some_0.idle(now, timeout) {
                state.session_of(addr)
            } else {
                None
            }) by {
            if after.session_of(addr) is Some {
                let session = after.session_of(addr)->Some_0;
                lemma_session_of_is_membership(after, addr, session);
                lemma_filter_contains(state.sessions, session_is_live(now, timeout), session);
                lemma_session_of_is_membership(state, addr, session);
            }
            if state.session_of(addr) is Some {
                let session = state.session_of(addr)->Some_0;
                lemma_session_of_is_membership(state, addr, session);
                lemma_filter_contains(state.sessions, session_is_live(now, timeout), session);
                lemma_session_of_is_membership(after, addr, session);
            }
        }
        assert(after.session_table() =~= Map::new(
            |addr: PeerAddr|
                state.session_table().dom().contains(addr) && !state.session_table()[addr].idle(
                    now,
                    timeout,
                ),
            |addr: PeerAddr| state.session_table()[addr],
        ));
    }
}

/// Forwarding leaves the pending table alone and, with no address in two
/// sessions, sets in the session table the sender's timer, for the sender
/// and for its opponent alike.
pub proof fn lemma_forward_on_tables(state: RelayState, sender: PeerAddr, now: u128, addr: PeerAddr)
    requires
        state.sessions_disjoint(),
        state.is_paired(sender),
    ensures
        state.forward(sender, now).pending_table() == state.pending_table(),
        state.forward(sender, now).session_of(addr) == if state.session_of(addr)
            == state.session_of(sender) {
            Some(state.session_of(sender)->Some_0.touched(sender, now))
        } else {
            state.session_of(addr)
        },
{
    let after = state.forward(sender, now);
    let at = state.session_index(sender)->Some_0;
    lemma_latest_session(state.sessions, sender, state.sessions.len() as int);
    lemma_latest_session(state.sessions, addr, state.sessions.len() as int);
    lemma_latest_session(after.sessions, addr, after.sessions.len() as int);
    lemma_forward_keeps_addresses(state, sender, now);
    assert forall|i: int| 0 <= i < state.sessions.len() implies (#[trigger] after.sessions[i]).lists(
        addr,
    ) == state.sessions[i].lists(addr) by {}
    if state.session_index(addr) is Some {
        let found = state.session_index(addr)->Some_0;
        assert(after.sessions[found].lists(addr));
        if found != at && state.sessions[found] == state.sessions[at] {
            if found < at {
                assert(!share_endpoint(state.sessions[found], state.sessions[at]));
            } else {
                assert(!share_endpoint(state.sessions[at], state.sessions[found]));
            }
        }
    }
}

} // verus!
