//! The rules the daemon model obeys across several operations, stated and
//! proved once rather than left implicit in the operation contracts.

use vstd::prelude::*;
use crate::registry::SubModel;
use crate::registry::tokens_unique;
use crate::registry::has_token;
use crate::registry::index_of_token;
use crate::registry::sub_of;
use crate::registry::state_of;
use crate::registry::suspend_count_of;
use crate::registry::pending_of;
use crate::registry::coalesced_of;
use crate::registry::name_of;
use crate::registry::due_of;
use crate::registry::suspend_sub;
use crate::registry::resume_sub;
use crate::registry::post_sub;
use crate::registry::after_suspend;
use crate::registry::after_resume;
use crate::registry::after_post;
use crate::registry::after_set_state;
use crate::registry::lemma_unique_index;

verus! {

/// `n` suspend calls for `token`, one after the other.
pub open spec fn after_suspends(m: Seq<SubModel>, token: i32, n: nat) -> Seq<SubModel>
    decreases n,
{
    if n == 0 {
        m
    } else {
        after_suspend(after_suspends(m, token, (n - 1) as nat), token)
    }
}

/// `n` resume calls for `token`, one after the other.
pub open spec fn after_resumes(m: Seq<SubModel>, token: i32, n: nat) -> Seq<SubModel>
    decreases n,
{
    if n == 0 {
        m
    } else {
        after_resume(after_resumes(m, token, (n - 1) as nat), token)
    }
}

/// A transition that rewrites subscriptions without touching any token
/// keeps uniqueness and keeps every token at its position.
proof fn lemma_tokenwise(m: Seq<SubModel>, m1: Seq<SubModel>, token: i32)
    requires
        tokens_unique(m),
        has_token(m, token),
        m1.len() == m.len(),
        forall|k: int| 0 <= k < m.len() ==> (#[trigger] m1[k]).token == m[k].token,
    ensures
        tokens_unique(m1),
        has_token(m1, token),
        index_of_token(m1, token) == index_of_token(m, token),
{
    let i = index_of_token(m, token);
    assert(0 <= i < m.len() && m[i].token == token);
    assert forall|a: int, b: int| 0 <= a < b < m1.len() implies m1[a].token != m1[b].token by {
        assert(m[a].token != m[b].token);
    }
    assert(m1[i].token == token);
    assert(has_token(m1, token));
    lemma_unique_index(m1, token, i);
}

/// One suspend call changes exactly the addressed subscription, by
/// `suspend_sub`.
proof fn lemma_suspend_effect(m: Seq<SubModel>, token: i32)
    requires
        tokens_unique(m),
        has_token(m, token),
    ensures
        after_suspend(m, token).len() == m.len(),
        tokens_unique(after_suspend(m, token)),
        has_token(after_suspend(m, token), token),
        sub_of(after_suspend(m, token), token) == suspend_sub(sub_of(m, token)),
{
    let m1 = after_suspend(m, token);
    assert forall|k: int| 0 <= k < m.len() implies (#[trigger] m1[k]).token == m[k].token by {}
    lemma_tokenwise(m, m1, token);
    let i = index_of_token(m, token);
    assert(0 <= i < m.len() && m[i].token == token);
    assert(m1[i] == suspend_sub(m[i]));
}

/// One resume call changes exactly the addressed subscription, by
/// `resume_sub`.
proof fn lemma_resume_effect(m: Seq<SubModel>, token: i32)
    requires
        tokens_unique(m),
        has_token(m, token),
    ensures
        after_resume(m, token).len() == m.len(),
        tokens_unique(after_resume(m, token)),
        has_token(after_resume(m, token), token),
        sub_of(after_resume(m, token), token) == resume_sub(sub_of(m, token)),
{
    let m1 = after_resume(m, token);
    assert forall|k: int| 0 <= k < m.len() implies (#[trigger] m1[k]).token == m[k].token by {}
    lemma_tokenwise(m, m1, token);
    let i = index_of_token(m, token);
    assert(0 <= i < m.len() && m[i].token == token);
    assert(m1[i] == resume_sub(m[i]));
}

/// One post changes the addressed subscription by `post_sub`.
proof fn lemma_post_effect(m: Seq<SubModel>, name: Seq<u8>, token: i32)
    requires
        tokens_unique(m),
        has_token(m, token),
    ensures
        after_post(m, name).len() == m.len(),
        tokens_unique(after_post(m, name)),
        has_token(after_post(m, name), token),
        sub_of(after_post(m, name), token) == post_sub(sub_of(m, token), name),
{
    let m1 = after_post(m, name);
    assert forall|k: int| 0 <= k < m.len() implies (#[trigger] m1[k]).token == m[k].token by {}
    lemma_tokenwise(m, m1, token);
    let i = index_of_token(m, token);
    assert(0 <= i < m.len() && m[i].token == token);
    assert(m1[i] == post_sub(m[i], name));
}

/// Law: writing a state value and then reading it yields exactly the value
/// written, for every 64-bit value, while everything else about the
/// subscription stays as it was.
pub proof fn lemma_set_get_state(m: Seq<SubModel>, token: i32, value: u64)
    requires
        tokens_unique(m),
        has_token(m, token),
    ensures
        tokens_unique(after_set_state(m, token, value)),
        has_token(after_set_state(m, token, value), token),
        state_of(after_set_state(m, token, value), token) == value,
        sub_of(after_set_state(m, token, value), token) == (SubModel {
            state: value,
            ..sub_of(m, token)
        }),
{
    let m1 = after_set_state(m, token, value);
    assert forall|k: int| 0 <= k < m.len() implies (#[trigger] m1[k]).token == m[k].token by {}
    lemma_tokenwise(m, m1, token);
    let i = index_of_token(m, token);
    assert(0 <= i < m.len() && m[i].token == token);
    assert(m1[i] == SubModel { state: value, ..m[i] });
}

/// A suspension stack of `n` levels raises the addressed subscription's
/// count by `n` and touches nothing else about it.
proof fn lemma_suspends_effect(m: Seq<SubModel>, token: i32, n: nat)
    requires
        tokens_unique(m),
        has_token(m, token),
    ensures
        tokens_unique(after_suspends(m, token, n)),
        has_token(after_suspends(m, token, n), token),
        sub_of(after_suspends(m, token, n), token) == (SubModel {
            suspend_count: sub_of(m, token).suspend_count + n,
            ..sub_of(m, token)
        }),
    decreases n,
{
    let s = sub_of(m, token);
    if n == 0 {
        assert(SubModel { suspend_count: s.suspend_count + 0, ..s } == s);
    } else {
        lemma_suspends_effect(m, token, (n - 1) as nat);
        lemma_suspend_effect(after_suspends(m, token, (n - 1) as nat), token);
    }
}

/// Fewer resumes than the suspension stack holds only lower the count:
/// nothing is delivered and nothing else about the subscription changes.
proof fn lemma_resumes_partial(m: Seq<SubModel>, token: i32, k: nat)
    requires
        tokens_unique(m),
        has_token(m, token),
        k < sub_of(m, token).suspend_count,
    ensures
        tokens_unique(after_resumes(m, token, k)),
        has_token(after_resumes(m, token, k), token),
        sub_of(after_resumes(m, token, k), token) == (SubModel {
            suspend_count: (sub_of(m, token).suspend_count - k) as nat,
            ..sub_of(m, token)
        }),
    decreases k,
{
    let s = sub_of(m, token);
    if k == 0 {
        assert(SubModel { suspend_count: (s.suspend_count - 0) as nat, ..s } == s);
    } else {
        lemma_resumes_partial(m, token, (k - 1) as nat);
        lemma_resume_effect(after_resumes(m, token, (k - 1) as nat), token);
    }
}

/// Resuming exactly as often as the stack holds brings the count to zero
/// and hands over a post that coalesced while suspended as one owed
/// delivery.
proof fn lemma_resumes_full(m: Seq<SubModel>, token: i32)
    requires
        tokens_unique(m),
        has_token(m, token),
        sub_of(m, token).suspend_count > 0,
    ensures
        tokens_unique(after_resumes(m, token, sub_of(m, token).suspend_count)),
        has_token(after_resumes(m, token, sub_of(m, token).suspend_count), token),
        sub_of(after_resumes(m, token, sub_of(m, token).suspend_count), token) == (SubModel {
            suspend_count: 0,
            pending: sub_of(m, token).pending + (if sub_of(m, token).coalesced {
                1nat
            } else {
                0nat
            }),
            coalesced: false,
            ..sub_of(m, token)
        }),
{
    let s = sub_of(m, token);
    let c = s.suspend_count;
    lemma_resumes_partial(m, token, (c - 1) as nat);
    let m1 = after_resumes(m, token, (c - 1) as nat);
    lemma_resume_effect(m1, token);
    assert(after_resumes(m, token, c) == after_resume(m1, token));
}

/// Law: a suspension stack blocks delivery until it is fully unwound.
/// After `n` suspend calls and `k < n` resume calls the subscription is
/// still suspended `n - k` deep; a post under its name while in that state
/// adds nothing to what the run loop owes it and only coalesces; and once
/// the remaining `n - k` resume calls have matched the suspends, exactly
/// one owed delivery is handed over.
pub proof fn lemma_suspend_resume_stack(
    m: Seq<SubModel>,
    token: i32,
    name: Seq<u8>,
    n: nat,
    k: nat,
)
    requires
        tokens_unique(m),
        has_token(m, token),
        suspend_count_of(m, token) == 0,
        !coalesced_of(m, token),
        name_of(m, token) == name,
        0 < n,
        k < n,
    ensures
        suspend_count_of(after_resumes(after_suspends(m, token, n), token, k), token) == n - k,
        pending_of(after_post(after_resumes(after_suspends(m, token, n), token, k), name), token)
            == pending_of(m, token),
        due_of(sub_of(after_post(after_resumes(after_suspends(m, token, n), token, k), name), token))
            == 0,
        suspend_count_of(
            after_resumes(
                after_post(after_resumes(after_suspends(m, token, n), token, k), name),
                token,
                (n - k) as nat,
            ),
            token,
        ) == 0,
        pending_of(
            after_resumes(
                after_post(after_resumes(after_suspends(m, token, n), token, k), name),
                token,
                (n - k) as nat,
            ),
            token,
        ) == pending_of(m, token) + 1,
{
    let s = sub_of(m, token);
    lemma_suspends_effect(m, token, n);
    let m1 = after_suspends(m, token, n);
    lemma_resumes_partial(m1, token, k);
    let m2 = after_resumes(m1, token, k);
    assert(sub_of(m2, token).suspend_count == n - k);
    lemma_post_effect(m2, name, token);
    let m3 = after_post(m2, name);
    assert(sub_of(m3, token) == post_sub(sub_of(m2, token), name));
    assert(sub_of(m3, token).suspend_count == n - k);
    assert(sub_of(m3, token).coalesced);
    assert(sub_of(m3, token).pending == s.pending);
    lemma_resumes_full(m3, token);
    assert(after_resumes(m3, token, (n - k) as nat) == after_resumes(
        m3,
        token,
        sub_of(m3, token).suspend_count,
    ));
}

} // verus!
