//! Facts about the searches and filters that the relay's model is made of.

use crate::model::{first_claim, latest_session};
use crate::peer::{PeerAddr, PendingView, Session};
use vstd::prelude::*;

verus! {

/// Filtering one element further keeps it or drops it.
pub proof fn lemma_filter_next<A>(s: Seq<A>, pred: spec_fn(A) -> bool, k: int)
    requires
        0 <= k < s.len(),
    ensures
        s.take(k + 1).filter(pred) == if pred(s[k]) {
            s.take(k).filter(pred).push(s[k])
        } else {
            s.take(k).filter(pred)
        },
{
    reveal(Seq::filter);
    assert(s.take(k + 1).drop_last() =~= s.take(k));
}

/// A search for a token finds the first claim of it, and finds nothing only
/// where no claim of it stands.
pub proof fn lemma_first_claim(pending: Seq<PendingView>, token: Seq<u8>, from: int)
    requires
        0 <= from,
    ensures
        match first_claim(pending, token, from) {
            Some(i) => from <= i < pending.len() && pending[i].token == token && forall|j: int|
                from <= j < i ==> (#[trigger] pending[j]).token != token,
            None => forall|j: int|
                from <= j < pending.len() ==> (#[trigger] pending[j]).token != token,
        },
    decreases pending.len() - from,
{
    if from < pending.len() && pending[from].token != token {
        lemma_first_claim(pending, token, from + 1);
    }
}

/// A claim of the token with none before it is the one that the search finds.
pub proof fn lemma_first_claim_is(pending: Seq<PendingView>, token: Seq<u8>, from: int, i: int)
    requires
        0 <= from <= i < pending.len(),
        pending[i].token == token,
        forall|j: int| from <= j < i ==> (#[trigger] pending[j]).token != token,
    ensures
        first_claim(pending, token, from) == Some(i),
    decreases i - from,
{
    if from < i {
        lemma_first_claim_is(pending, token, from + 1, i);
    }
}

/// An address resolves to the latest session that lists it, and to none only
/// where no session lists it.
pub proof fn lemma_latest_session(sessions: Seq<Session>, addr: PeerAddr, upto: int)
    requires
        upto <= sessions.len(),
    ensures
        match latest_session(sessions, addr, upto) {
            Some(i) => 0 <= i < upto && sessions[i].lists(addr) && forall|j: int|
                i < j < upto ==> !(#[trigger] sessions[j]).lists(addr),
            None => forall|j: int| 0 <= j < upto ==> !(#[trigger] sessions[j]).lists(addr),
        },
    decreases upto,
{
    if upto > 0 && !sessions[upto - 1].lists(addr) {
        lemma_latest_session(sessions, addr, upto - 1);
    }
}

/// What a filter keeps is what was there and passes.
pub proof fn lemma_filter_contains<A>(s: Seq<A>, pred: spec_fn(A) -> bool, x: A)
    ensures
        s.filter(pred).contains(x) <==> s.contains(x) && pred(x),
    decreases s.len(),
{
    reveal(Seq::filter);
    if s.len() > 0 {
        let init = s.drop_last();
        lemma_filter_contains(init, pred, x);
        let kept = init.filter(pred);
        if s.contains(x) {
            let i = choose|i: int| 0 <= i < s.len() && s[i] == x;
            if i < s.len() - 1 {
                assert(init[i] == x);
            }
        }
        if init.contains(x) {
            let i = choose|i: int| 0 <= i < init.len() && init[i] == x;
            assert(s[i] == x);
        }
        if pred(s.last()) {
            assert(s.filter(pred) == kept.push(s.last()));
            if kept.push(s.last()).contains(x) {
                let i = choose|i: int| 0 <= i < kept.len() + 1 && kept.push(s.last())[i] == x;
                if i < kept.len() {
                    assert(kept[i] == x);
                }
            }
            if kept.contains(x) {
                let i = choose|i: int| 0 <= i < kept.len() && kept[i] == x;
                assert(kept.push(s.last())[i] == x);
            }
            assert(kept.push(s.last())[kept.len() as int] == s.last());
            assert(s[s.len() - 1] == s.last());
        }
    }
}

/// What holds of every earlier and later element of a sequence holds of
/// those that a filter keeps.
pub proof fn lemma_filter_keeps_pairwise<A>(
    s: Seq<A>,
    pred: spec_fn(A) -> bool,
    rel: spec_fn(A, A) -> bool,
)
    requires
        forall|i: int, j: int| 0 <= i < j < s.len() ==> #[trigger] rel(s[i], s[j]),
    ensures
        forall|i: int, j: int|
            0 <= i < j < s.filter(pred).len() ==> #[trigger] rel(
                s.filter(pred)[i],
                s.filter(pred)[j],
            ),
    decreases s.len(),
{
    reveal(Seq::filter);
    if s.len() > 0 {
        let init = s.drop_last();
        assert forall|i: int, j: int| 0 <= i < j < init.len() implies #[trigger] rel(
            init[i],
            init[j],
        ) by {
            assert(rel(s[i], s[j]));
        }
        lemma_filter_keeps_pairwise(init, pred, rel);
        let kept = init.filter(pred);
        let all = s.filter(pred);
        if pred(s.last()) {
            assert forall|i: int, j: int| 0 <= i < j < all.len() implies #[trigger] rel(
                all[i],
                all[j],
            ) by {
                assert(all[i] == kept[i]);
                if j < kept.len() {
                    assert(all[j] == kept[j]);
                    assert(rel(kept[i], kept[j]));
                } else {
                    assert(kept.contains(kept[i]));
                    lemma_filter_contains(init, pred, kept[i]);
                    let k = choose|k: int| 0 <= k < init.len() && init[k] == kept[i];
                    assert(rel(s[k], s[s.len() - 1]));
                }
            }
        }
    }
}

/// A claim added at the end is found where no earlier claim has its token.
pub proof fn lemma_first_claim_after_push(
    pending: Seq<PendingView>,
    claim: PendingView,
    token: Seq<u8>,
)
    ensures
        first_claim(pending.push(claim), token, 0) == match first_claim(pending, token, 0) {
            Some(i) => Some(i),
            None => if claim.token == token {
                Some(pending.len() as int)
            } else {
                None
            },
        },
{
    let longer = pending.push(claim);
    lemma_first_claim(pending, token, 0);
    lemma_first_claim(longer, token, 0);
    match first_claim(pending, token, 0) {
        Some(i) => {
            assert forall|j: int| 0 <= j < i implies (#[trigger] longer[j]).token != token by {
                assert(longer[j] == pending[j]);
            }
            assert(longer[i] == pending[i]);
            lemma_first_claim_is(longer, token, 0, i);
        },
        None => {
            assert forall|j: int| 0 <= j < pending.len() implies (#[trigger] longer[j]).token
                != token by {
                assert(longer[j] == pending[j]);
            }
            if claim.token == token {
                lemma_first_claim_is(longer, token, 0, pending.len() as int);
            } else {
                if first_claim(longer, token, 0) is Some {
                    let i = first_claim(longer, token, 0)->Some_0;
                    assert(longer[i].token == token);
                }
            }
        },
    }
}

/// A search depends on the tokens alone.
pub proof fn lemma_first_claim_by_tokens(
    left: Seq<PendingView>,
    right: Seq<PendingView>,
    token: Seq<u8>,
    from: int,
)
    requires
        left.len() == right.len(),
        forall|j: int| 0 <= j < left.len() ==> (#[trigger] left[j]).token == right[j].token,
    ensures
        first_claim(left, token, from) == first_claim(right, token, from),
    decreases left.len() - from,
{
    if 0 <= from < left.len() && left[from].token != token {
        lemma_first_claim_by_tokens(left, right, token, from + 1);
    }
}

/// With no token pending twice, taking a claim out leaves every other
/// token with its claim and the token of that claim with none.
pub proof fn lemma_claims_after_removal(pending: Seq<PendingView>, at: int, token: Seq<u8>)
    requires
        0 <= at < pending.len(),
        forall|i: int, j: int|
            0 <= i < j < pending.len() ==> (#[trigger] pending[i]).token != (
            #[trigger] pending[j]).token,
    ensures
        match first_claim(pending.remove(at), token, 0) {
            Some(i) => token != pending[at].token && first_claim(pending, token, 0) is Some
                && pending.remove(at)[i] == pending[first_claim(pending, token, 0)->Some_0],
            None => token == pending[at].token || first_claim(pending, token, 0) is None,
        },
{
    let shorter = pending.remove(at);
    lemma_first_claim(pending, token, 0);
    lemma_first_claim(shorter, token, 0);
    match first_claim(shorter, token, 0) {
        Some(i) => {
            let i0 = if i < at { i } else { i + 1 };
            assert(shorter[i] == pending[i0]);
            if i0 < at {
                assert(pending[i0].token != pending[at].token);
            } else {
                assert(pending[at].token != pending[i0].token);
            }
            let found = first_claim(pending, token, 0)->Some_0;
            if found < i0 {
                assert(pending[found].token != pending[i0].token);
            }
        },
        None => {
            if token != pending[at].token && first_claim(pending, token, 0) is Some {
                let found = first_claim(pending, token, 0)->Some_0;
                let moved = if found < at { found } else { found - 1 };
                assert(shorter[moved] == pending[found]);
            }
        },
    }
}

/// A session added at the end hides no session beyond its own endpoints.
pub proof fn lemma_latest_session_within(
    sessions: Seq<Session>,
    formed: Session,
    addr: PeerAddr,
    upto: int,
)
    requires
        upto <= sessions.len(),
    ensures
        latest_session(sessions.push(formed), addr, upto) == latest_session(sessions, addr, upto),
    decreases upto,
{
    if upto > 0 {
        assert(sessions.push(formed)[upto - 1] == sessions[upto - 1]);
        lemma_latest_session_within(sessions, formed, addr, upto - 1);
    }
}

} // verus!
