//! A verified model of the daemon's per-subscription state machine.
//!
//! The daemon itself lives outside the process and is reached only through
//! foreign calls, so nothing about its internal state can be verified
//! directly. This module states that state machine — registration, the
//! suspend/resume stack, per-token state values, pending callback
//! deliveries — as a data type with proved transitions, so that the rules
//! the facade relies on (state round-trips, stack-counted suspension,
//! delivery on post) are stated and checked rather than assumed.

use vstd::prelude::*;
use crate::error::NotifyError;
use crate::name::valid_name;
use crate::name::bytes_eq;
use crate::name::copy_bytes;

verus! {

/// The model of one live subscription, as the daemon holds it.
pub ghost struct SubModel {
    /// The handle the daemon assigned at registration.
    pub token: i32,
    /// The notification name the subscription listens on.
    pub name: Seq<u8>,
    /// How many suspensions are outstanding; delivery is blocked while
    /// this is positive.
    pub suspend_count: nat,
    /// The 64-bit state value associated with the token.
    pub state: u64,
    /// How many callback deliveries are owed and not yet pumped.
    pub pending: nat,
    /// Whether a post arrived while the subscription was suspended; such
    /// posts coalesce into a single delivery owed once fully resumed.
    pub coalesced: bool,
    /// Whether a post (or the registration itself) has not yet been
    /// observed through a check call.
    pub unchecked: bool,
}

/// One live subscription in the simulated daemon.
pub struct Subscription {
    pub token: i32,
    pub name: Vec<u8>,
    pub suspend_count: u64,
    pub state: u64,
    pub pending: u64,
    pub coalesced: bool,
    pub unchecked: bool,
}

impl View for Subscription {
    type V = SubModel;

    open spec fn view(&self) -> SubModel {
        SubModel {
            token: self.token,
            name: self.name@,
            suspend_count: self.suspend_count as nat,
            state: self.state,
            pending: self.pending as nat,
            coalesced: self.coalesced,
            unchecked: self.unchecked,
        }
    }
}

/// No two live subscriptions share a token.
pub open spec fn tokens_unique(m: Seq<SubModel>) -> bool {
    forall|i: int, j: int| 0 <= i < j < m.len() ==> m[i].token != m[j].token
}

/// Whether some live subscription carries `token`.
pub open spec fn has_token(m: Seq<SubModel>, token: i32) -> bool {
    exists|i: int| 0 <= i < m.len() && m[i].token == token
}

/// The position of the subscription carrying `token`; meaningful only when
/// `has_token` holds and tokens are unique.
pub open spec fn index_of_token(m: Seq<SubModel>, token: i32) -> int {
    choose|i: int| 0 <= i < m.len() && m[i].token == token
}

/// The subscription carrying `token`.
pub open spec fn sub_of(m: Seq<SubModel>, token: i32) -> SubModel {
    m[index_of_token(m, token)]
}

pub open spec fn state_of(m: Seq<SubModel>, token: i32) -> u64 {
    sub_of(m, token).state
}

pub open spec fn suspend_count_of(m: Seq<SubModel>, token: i32) -> nat {
    sub_of(m, token).suspend_count
}

pub open spec fn pending_of(m: Seq<SubModel>, token: i32) -> nat {
    sub_of(m, token).pending
}

pub open spec fn coalesced_of(m: Seq<SubModel>, token: i32) -> bool {
    sub_of(m, token).coalesced
}

pub open spec fn unchecked_of(m: Seq<SubModel>, token: i32) -> bool {
    sub_of(m, token).unchecked
}

pub open spec fn name_of(m: Seq<SubModel>, token: i32) -> Seq<u8> {
    sub_of(m, token).name
}

/// The subscription a successful registration creates: delivery active,
/// state zero, nothing pending, and a first check call still owed true.
pub open spec fn fresh_sub(token: i32, name: Seq<u8>) -> SubModel {
    SubModel {
        token,
        name,
        suspend_count: 0,
        state: 0,
        pending: 0,
        coalesced: false,
        unchecked: true,
    }
}

/// In any reachable daemon state a post can only have coalesced while the
/// subscription was suspended.
pub open spec fn sub_inv(s: SubModel) -> bool {
    s.suspend_count == 0 ==> !s.coalesced
}

/// When the subscription carrying `token` really holds `token` at position
/// `i` and tokens are unique, `i` is the position `index_of_token` denotes,
/// and no other position carries `token`.
pub proof fn lemma_unique_index(m: Seq<SubModel>, token: i32, i: int)
    requires
        tokens_unique(m),
        0 <= i < m.len(),
        m[i].token == token,
    ensures
        has_token(m, token),
        index_of_token(m, token) == i,
        forall|j: int| 0 <= j < m.len() && j != i ==> m[j].token != token,
{
    assert(has_token(m, token));
    let w = index_of_token(m, token);
    assert(0 <= w < m.len() && m[w].token == token);
    if w != i {
        if w < i {
            assert(m[w].token != m[i].token);
        } else {
            assert(m[i].token != m[w].token);
        }
    }
    assert forall|j: int| 0 <= j < m.len() && j != i implies m[j].token != token by {
        if j < i {
            assert(m[j].token != m[i].token);
        } else {
            assert(m[i].token != m[j].token);
        }
    }
}

/// One more level of suspension for a subscription.
pub open spec fn suspend_sub(s: SubModel) -> SubModel {
    SubModel { suspend_count: s.suspend_count + 1, ..s }
}

/// One level of suspension removed. Removing the last level hands over a
/// post that coalesced while suspended as one owed delivery; a resume
/// without a matching suspend changes nothing.
pub open spec fn resume_sub(s: SubModel) -> SubModel {
    if s.suspend_count == 0 {
        s
    } else if s.suspend_count == 1 && s.coalesced {
        SubModel { suspend_count: 0, pending: s.pending + 1, coalesced: false, ..s }
    } else {
        SubModel { suspend_count: (s.suspend_count - 1) as nat, ..s }
    }
}

/// What a post under `name` does to one subscription: a listener with
/// delivery active is owed one more delivery; a suspended listener only
/// records that a post coalesced; everyone else is untouched. Any matching
/// listener will see the post through a check call.
pub open spec fn post_sub(s: SubModel, name: Seq<u8>) -> SubModel {
    if s.name == name {
        if s.suspend_count == 0 {
            SubModel { pending: s.pending + 1, unchecked: true, ..s }
        } else {
            SubModel { coalesced: true, unchecked: true, ..s }
        }
    } else {
        s
    }
}

/// The daemon state after suspending `token`.
pub open spec fn after_suspend(m: Seq<SubModel>, token: i32) -> Seq<SubModel> {
    m.map_values(|s: SubModel| if s.token == token { suspend_sub(s) } else { s })
}

/// The daemon state after resuming `token`.
pub open spec fn after_resume(m: Seq<SubModel>, token: i32) -> Seq<SubModel> {
    m.map_values(|s: SubModel| if s.token == token { resume_sub(s) } else { s })
}

/// The daemon state after posting under `name`.
pub open spec fn after_post(m: Seq<SubModel>, name: Seq<u8>) -> Seq<SubModel> {
    m.map_values(|s: SubModel| post_sub(s, name))
}

/// The daemon state after associating `value` with `token`.
pub open spec fn after_set_state(m: Seq<SubModel>, token: i32, value: u64) -> Seq<SubModel> {
    m.map_values(|s: SubModel| if s.token == token { SubModel { state: value, ..s } } else { s })
}

/// The daemon state after a check call on `token` observed the posts so
/// far.
pub open spec fn after_check(m: Seq<SubModel>, token: i32) -> Seq<SubModel> {
    m.map_values(|s: SubModel| if s.token == token { SubModel { unchecked: false, ..s } } else { s })
}

/// The daemon state after cancelling `token`.
pub open spec fn after_cancel(m: Seq<SubModel>, token: i32) -> Seq<SubModel> {
    m.remove(index_of_token(m, token))
}

/// How many deliveries pumping the run loop owes one subscription right
/// now: all of its pending ones when delivery is active, none while it is
/// suspended.
pub open spec fn due_of(s: SubModel) -> nat {
    if s.suspend_count == 0 {
        s.pending
    } else {
        0
    }
}

/// One subscription after the run loop pumped it: an active subscription's
/// owed deliveries are handed out, a suspended one keeps them.
pub open spec fn drain_sub(s: SubModel) -> SubModel {
    if s.suspend_count == 0 {
        SubModel { pending: 0, ..s }
    } else {
        s
    }
}

/// The daemon state after the run loop pumped every owed delivery.
pub open spec fn after_drain(m: Seq<SubModel>) -> Seq<SubModel> {
    m.map_values(|s: SubModel| drain_sub(s))
}

/// `token`, `n` times over.
pub open spec fn repeat_token(token: i32, n: nat) -> Seq<i32> {
    Seq::new(n, |i: int| token)
}

/// The tokens the run loop invokes callbacks with, in registration order:
/// each subscription's token once per delivery owed to it.
pub open spec fn deliveries(m: Seq<SubModel>) -> Seq<i32>
    decreases m.len(),
{
    if m.len() == 0 {
        Seq::empty()
    } else {
        deliveries(m.drop_last()) + repeat_token(m.last().token, due_of(m.last()))
    }
}

/// The simulated daemon: the set of live subscriptions together with the
/// next handle to assign.
pub struct Registry {
    pub subs: Vec<Subscription>,
    pub next_token: i32,
}

impl View for Registry {
    type V = Seq<SubModel>;

    open spec fn view(&self) -> Seq<SubModel> {
        self.subs@.map_values(|s: Subscription| s@)
    }
}

impl Registry {
    /// Internal consistency: handles are positive, unique, below the next
    /// handle to assign, and coalesced posts exist only under suspension.
    pub open spec fn wf(self) -> bool {
        &&& tokens_unique(self@)
        &&& 0 < self.next_token
        &&& forall|i: int| 0 <= i < self@.len() ==> 0 < #[trigger] self@[i].token < self.next_token
        &&& forall|i: int| 0 <= i < self@.len() ==> sub_inv(#[trigger] self@[i])
    }

    /// An empty daemon: no subscriptions.
    pub fn new() -> (r: Registry)
        ensures
            r.wf(),
            r@ == Seq::<SubModel>::empty(),
            r.next_token == 1,
    {
        let r = Registry { subs: Vec::new(), next_token: 1 };
        proof {
            assert(r@ =~= Seq::<SubModel>::empty());
        }
        r
    }

    /// Registers a subscription under `name`. The daemon assigns a fresh
    /// token, never one carried by a live subscription, and the new
    /// subscription starts as `fresh_sub` describes. Registration of a
    /// valid name always succeeds.
    pub fn register(&mut self, name: &[u8]) -> (r: Result<i32, NotifyError>)
        requires
            old(self).wf(),
            valid_name(name@),
            old(self).next_token < i32::MAX,
        ensures
            final(self).wf(),
            r is Ok,
            !has_token(old(self)@, r->Ok_0),
            final(self)@ == old(self)@.push(fresh_sub(r->Ok_0, name@)),
            final(self).next_token == old(self).next_token + 1,
            has_token(final(self)@, r->Ok_0),
            sub_of(final(self)@, r->Ok_0) == fresh_sub(r->Ok_0, name@),
    {
        let token = self.next_token;
        self.next_token = self.next_token + 1;
        let owned_name = copy_bytes(name);
        self.subs.push(Subscription {
            token,
            name: owned_name,
            suspend_count: 0,
            state: 0,
            pending: 0,
            coalesced: false,
            unchecked: true,
        });
        proof {
            assert(self@ =~= old(self)@.push(fresh_sub(token, name@)));
            assert forall|i: int| 0 <= i < old(self)@.len() implies old(self)@[i].token != token by {
                assert(old(self)@[i].token < token);
            }
            assert(!has_token(old(self)@, token));
            let m1 = self@;
            assert(m1[m1.len() - 1].token == token);
            assert forall|a: int, b: int| 0 <= a < b < m1.len() implies m1[a].token
                != m1[b].token by {
                if b < m1.len() - 1 {
                    assert(old(self)@[a].token != old(self)@[b].token);
                } else {
                    assert(old(self)@[a].token < token);
                }
            }
            lemma_unique_index(m1, token, m1.len() - 1);
        }
        Ok(token)
    }

    /// Looks up the position of `token` among the live subscriptions.
    fn find(&self, token: i32) -> (r: Option<usize>)
        ensures
            match r {
                Some(i) => i < self@.len() && self@[i as int].token == token,
                None => !has_token(self@, token),
            },
    {
        let n = self.subs.len();
        let mut i: usize = 0;
        while i < n
            invariant
                n == self.subs.len(),
                self@.len() == n,
                0 <= i <= n,
                forall|j: int| 0 <= j < i ==> self@[j].token != token,
            decreases n - i,
        {
            proof {
                assert(self@[i as int] == self.subs@[i as int]@);
            }
            if self.subs[i].token == token {
                return Some(i);
            }
            i += 1;
        }
        None
    }

    /// One more level of suspension for `token`; delivery stays blocked
    /// until as many resume calls follow. A token no live subscription
    /// carries is rejected with `InvalidToken`.
    pub fn suspend(&mut self, token: i32) -> (r: Result<(), NotifyError>)
        requires
            old(self).wf(),
            has_token(old(self)@, token) ==> suspend_count_of(old(self)@, token) < u64::MAX,
        ensures
            final(self).wf(),
            r is Ok <==> has_token(old(self)@, token),
            r is Err ==> r == Err::<(), NotifyError>(NotifyError::InvalidToken) && final(self)@
                == old(self)@,
            r is Ok ==> final(self)@ == after_suspend(old(self)@, token),
    {
        match self.find(token) {
            None => Err(NotifyError::InvalidToken),
            Some(i) => {
                proof {
                    lemma_unique_index(old(self)@, token, i as int);
                    assert(old(self)@[i as int] == old(self).subs@[i as int]@);
                }
                let s = &mut self.subs[i];
                s.suspend_count = s.suspend_count + 1;
                proof {
                    assert(self@ =~= after_suspend(old(self)@, token));
                    self.lemma_wf_after_token_map(*old(self));
                }
                Ok(())
            },
        }
    }

    /// Removes one level of suspension from `token`. Removing the last
    /// level hands over a post that coalesced while suspended as one owed
    /// delivery; a resume without a matching suspend changes nothing.
    pub fn resume(&mut self, token: i32) -> (r: Result<(), NotifyError>)
        requires
            old(self).wf(),
            has_token(old(self)@, token) && suspend_count_of(old(self)@, token) == 1
                && coalesced_of(old(self)@, token) ==> pending_of(old(self)@, token) < u64::MAX,
        ensures
            final(self).wf(),
            r is Ok <==> has_token(old(self)@, token),
            r is Err ==> r == Err::<(), NotifyError>(NotifyError::InvalidToken) && final(self)@
                == old(self)@,
            r is Ok ==> final(self)@ == after_resume(old(self)@, token),
    {
        match self.find(token) {
            None => Err(NotifyError::InvalidToken),
            Some(i) => {
                proof {
                    lemma_unique_index(old(self)@, token, i as int);
                    assert(old(self)@[i as int] == old(self).subs@[i as int]@);
                }
                let s = &mut self.subs[i];
                if s.suspend_count == 1 {
                    s.suspend_count = 0;
                    if s.coalesced {
                        s.pending = s.pending + 1;
                        s.coalesced = false;
                    }
                } else if s.suspend_count > 1 {
                    s.suspend_count = s.suspend_count - 1;
                }
                proof {
                    assert(self@ =~= after_resume(old(self)@, token));
                    self.lemma_wf_after_token_map(*old(self));
                }
                Ok(())
            },
        }
    }

    /// Associates `value` with `token`, replacing the previous state value.
    pub fn set_state(&mut self, token: i32, value: u64) -> (r: Result<(), NotifyError>)
        requires
            old(self).wf(),
        ensures
            final(self).wf(),
            r is Ok <==> has_token(old(self)@, token),
            r is Err ==> r == Err::<(), NotifyError>(NotifyError::InvalidToken) && final(self)@
                == old(self)@,
            r is Ok ==> final(self)@ == after_set_state(old(self)@, token, value),
    {
        match self.find(token) {
            None => Err(NotifyError::InvalidToken),
            Some(i) => {
                proof {
                    lemma_unique_index(old(self)@, token, i as int);
                    assert(old(self)@[i as int] == old(self).subs@[i as int]@);
                }
                let s = &mut self.subs[i];
                s.state = value;
                proof {
                    assert(self@ =~= after_set_state(old(self)@, token, value));
                    self.lemma_wf_after_token_map(*old(self));
                }
                Ok(())
            },
        }
    }

    /// Reads the state value associated with `token`. The daemon is the
    /// single source of truth, so the read goes to the model state, never
    /// to a cache.
    pub fn get_state(&self, token: i32) -> (r: Result<u64, NotifyError>)
        requires
            self.wf(),
        ensures
            r is Ok <==> has_token(self@, token),
            has_token(self@, token) ==> r == Ok::<u64, NotifyError>(state_of(self@, token)),
            !has_token(self@, token) ==> r == Err::<u64, NotifyError>(NotifyError::InvalidToken),
    {
        match self.find(token) {
            None => Err(NotifyError::InvalidToken),
            Some(i) => {
                proof {
                    lemma_unique_index(self@, token, i as int);
                    assert(self@[i as int] == self.subs@[i as int]@);
                }
                Ok(self.subs[i].state)
            },
        }
    }

    /// Reports whether posts have been made for `token`'s name since the
    /// last check (the first check after registration also reports true),
    /// and marks them observed.
    pub fn check(&mut self, token: i32) -> (r: Result<bool, NotifyError>)
        requires
            old(self).wf(),
        ensures
            final(self).wf(),
            r is Ok <==> has_token(old(self)@, token),
            r is Err ==> r == Err::<bool, NotifyError>(NotifyError::InvalidToken) && final(self)@
                == old(self)@,
            r is Ok ==> r == Ok::<bool, NotifyError>(unchecked_of(old(self)@, token))
                && final(self)@ == after_check(old(self)@, token),
    {
        match self.find(token) {
            None => Err(NotifyError::InvalidToken),
            Some(i) => {
                proof {
                    lemma_unique_index(old(self)@, token, i as int);
                    assert(old(self)@[i as int] == old(self).subs@[i as int]@);
                }
                let s = &mut self.subs[i];
                let was = s.unchecked;
                s.unchecked = false;
                proof {
                    assert(self@ =~= after_check(old(self)@, token));
                    self.lemma_wf_after_token_map(*old(self));
                }
                Ok(was)
            },
        }
    }

    /// Cancels `token`: the subscription is removed and the token dangles
    /// from then on.
    pub fn cancel(&mut self, token: i32) -> (r: Result<(), NotifyError>)
        requires
            old(self).wf(),
        ensures
            final(self).wf(),
            r is Ok <==> has_token(old(self)@, token),
            r is Err ==> r == Err::<(), NotifyError>(NotifyError::InvalidToken) && final(self)@
                == old(self)@,
            r is Ok ==> final(self)@ == after_cancel(old(self)@, token),
            r is Ok ==> !has_token(final(self)@, token),
    {
        match self.find(token) {
            None => Err(NotifyError::InvalidToken),
            Some(i) => {
                proof {
                    lemma_unique_index(old(self)@, token, i as int);
                }
                self.subs.remove(i);
                proof {
                    let m0 = old(self)@;
                    let m1 = self@;
                    let gi = i as int;
                    assert(m1 =~= m0.remove(gi));
                    m0.remove_ensures(gi);
                    assert forall|a: int, b: int| 0 <= a < b < m1.len() implies m1[a].token
                        != m1[b].token by {
                        let a0 = if a < gi { a } else { a + 1 };
                        let b0 = if b < gi { b } else { b + 1 };
                        assert(m1[a] == m0[a0]);
                        assert(m1[b] == m0[b0]);
                    }
                    assert forall|k: int| 0 <= k < m1.len() implies 0 < (#[trigger] m1[k]).token
                        < self.next_token && sub_inv(m1[k]) && m1[k].token != token by {
                        let k0 = if k < gi { k } else { k + 1 };
                        assert(m1[k] == m0[k0]);
                    }
                }
                Ok(())
            },
        }
    }

    /// Posts a notification under `name`. Every live subscription on that
    /// name either gains one owed delivery (when active) or records the
    /// post as coalesced (when suspended). Posting with no listeners is
    /// still success: delivery loss is not an error.
    pub fn post(&mut self, name: &[u8]) -> (r: Result<(), NotifyError>)
        requires
            old(self).wf(),
            valid_name(name@),
            forall|k: int| 0 <= k < old(self)@.len() ==> (#[trigger] old(self)@[k]).pending
                < u64::MAX,
        ensures
            final(self).wf(),
            r == Ok::<(), NotifyError>(()),
            final(self)@ == after_post(old(self)@, name@),
    {
        let ghost m0 = self@;
        let ghost nt0 = self.next_token;
        let n = self.subs.len();
        let mut i: usize = 0;
        while i < n
            invariant
                n == self.subs.len(),
                self@.len() == n,
                m0.len() == n,
                self.next_token == nt0,
                0 <= i <= n,
                forall|j: int| 0 <= j < i ==> self@[j] == post_sub(#[trigger] m0[j], name@),
                forall|j: int| i <= j < n ==> #[trigger] self@[j] == m0[j],
                forall|k: int| 0 <= k < n ==> (#[trigger] m0[k]).pending < u64::MAX,
            decreases n - i,
        {
            let ghost pre = self@;
            proof {
                assert(self@[i as int] == self.subs@[i as int]@);
            }
            let name_matches = bytes_eq(self.subs[i].name.as_slice(), name);
            if name_matches {
                let s = &mut self.subs[i];
                if s.suspend_count == 0 {
                    s.pending = s.pending + 1;
                } else {
                    s.coalesced = true;
                }
                s.unchecked = true;
            }
            proof {
                assert(self@[i as int] == post_sub(m0[i as int], name@));
                assert forall|j: int| i < j < n implies #[trigger] self@[j] == m0[j] by {
                    assert(pre[j] == m0[j]);
                    assert(self@[j] == self.subs@[j]@);
                    assert(self.subs@[j]@ == pre[j]);
                }
            }
            i += 1;
        }
        proof {
            assert(self@ =~= after_post(m0, name@));
            self.lemma_wf_after_token_map(*old(self));
        }
        Ok(())
    }

    /// Pumps every delivery the daemon owes: the returned tokens are the
    /// callback invocations due, in registration order, one occurrence per
    /// owed delivery. Active subscriptions' debts are cleared; suspended
    /// subscriptions keep theirs until resumed.
    pub fn drain_deliveries(&mut self) -> (r: Vec<i32>)
        requires
            old(self).wf(),
        ensures
            final(self).wf(),
            r@ == deliveries(old(self)@),
            final(self)@ == after_drain(old(self)@),
    {
        let ghost m0 = self@;
        let ghost nt0 = self.next_token;
        let mut out: Vec<i32> = Vec::new();
        let n = self.subs.len();
        let mut i: usize = 0;
        proof {
            assert(m0.subrange(0, 0) =~= Seq::<SubModel>::empty());
            assert(out@ =~= deliveries(m0.subrange(0, 0)));
        }
        while i < n
            invariant
                n == self.subs.len(),
                self@.len() == n,
                m0.len() == n,
                self.next_token == nt0,
                0 <= i <= n,
                forall|j: int| 0 <= j < i ==> self@[j] == drain_sub(#[trigger] m0[j]),
                forall|j: int| i <= j < n ==> #[trigger] self@[j] == m0[j],
                out@ == deliveries(m0.subrange(0, i as int)),
            decreases n - i,
        {
            let ghost pre = self@;
            proof {
                assert(self@[i as int] == self.subs@[i as int]@);
            }
            let token = self.subs[i].token;
            let active = self.subs[i].suspend_count == 0;
            let mut due: u64 = 0;
            if active {
                let s = &mut self.subs[i];
                due = s.pending;
                s.pending = 0;
            }
            proof {
                assert(self@[i as int] == drain_sub(m0[i as int]));
                assert(token == m0[i as int].token);
                assert(due as nat == due_of(m0[i as int]));
                assert(out@ =~= deliveries(m0.subrange(0, i as int)) + repeat_token(token, 0));
                assert forall|j: int| i < j < n implies #[trigger] self@[j] == m0[j] by {
                    assert(pre[j] == m0[j]);
                    assert(self@[j] == self.subs@[j]@);
                    assert(self.subs@[j]@ == pre[j]);
                }
            }
            let mut j: u64 = 0;
            while j < due
                invariant
                    0 <= j <= due,
                    0 <= i < n,
                    m0.len() == n,
                    n == self.subs.len(),
                    self@.len() == n,
                    self.next_token == nt0,
                    self@[i as int] == drain_sub(m0[i as int]),
                    forall|jj: int| 0 <= jj < i ==> self@[jj] == drain_sub(#[trigger] m0[jj]),
                    forall|jj: int| i < jj < n ==> #[trigger] self@[jj] == m0[jj],
                    out@ == deliveries(m0.subrange(0, i as int)) + repeat_token(token, j as nat),
                decreases due - j,
            {
                out.push(token);
                proof {
                    assert(out@ =~= deliveries(m0.subrange(0, i as int)) + repeat_token(
                        token,
                        (j + 1) as nat,
                    ));
                }
                j += 1;
            }
            proof {
                let prefix = m0.subrange(0, i as int);
                let cur = m0.subrange(0, i as int + 1);
                assert(cur.drop_last() =~= prefix);
                assert(cur.last() == m0[i as int]);
                assert(out@ =~= deliveries(cur));
            }
            i += 1;
        }
        proof {
            assert(m0.subrange(0, n as int) =~= m0);
            assert(self@ =~= after_drain(m0));
            self.lemma_wf_after_token_map(*old(self));
        }
        out
    }

    /// A transition that rewrites subscriptions in place without touching
    /// any token keeps the registry well-formed, provided every rewritten
    /// subscription still satisfies its invariant.
    proof fn lemma_wf_after_token_map(self, prev: Registry)
        requires
            prev.wf(),
            self.next_token == prev.next_token,
            self@.len() == prev@.len(),
            forall|k: int| 0 <= k < prev@.len() ==> (#[trigger] self@[k]).token == prev@[k].token,
            forall|k: int| 0 <= k < prev@.len() ==> sub_inv(#[trigger] self@[k]),
        ensures
            self.wf(),
    {
        assert forall|a: int, b: int| 0 <= a < b < self@.len() implies self@[a].token
            != self@[b].token by {
            assert(prev@[a].token != prev@[b].token);
        }
        assert forall|k: int| 0 <= k < self@.len() implies 0 < (#[trigger] self@[k]).token
            < self.next_token by {
            assert(prev@[k].token < prev.next_token);
        }
    }
}

} // verus!
