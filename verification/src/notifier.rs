//! Telling the tasks that wait for a query that the store has changed.

use crate::bag::{filter_map, lemma_filter_map_push};
use crate::error::QueryEvaluationError;
use vstd::prelude::*;

verus! {

/// A task that can be woken, by its number.
#[derive(Clone, Copy, PartialEq, Eq, Structural, Debug)]
pub struct Waker {
    pub task: u64,
}

impl Waker {
    /// Whether waking one wakes the task of the other.
    pub fn will_wake(&self, other: &Waker) -> (result: bool)
        ensures
            result == (*self == *other),
    {
        *self == *other
    }
}

/// Tells a query to stop, and the tasks that wait for it to find out.
pub struct CancellationToken {
    pub cancelled: bool,
    pub wakers: Vec<Waker>,
}

impl CancellationToken {
    pub fn new() -> (token: Self)
        ensures
            !token.cancelled,
            token.wakers@ == Seq::<Waker>::empty(),
    {
        CancellationToken { cancelled: false, wakers: Vec::new() }
    }

    /// Cancels the query. The tasks to wake are handed out.
    pub fn cancel(&mut self) -> (wakers: Vec<Waker>)
        ensures
            final(self).cancelled,
            final(self).wakers@ == Seq::<Waker>::empty(),
            wakers@ == old(self).wakers@,
    {
        self.cancelled = true;
        let mut wakers: Vec<Waker> = Vec::new();
        wakers.append(&mut self.wakers);
        assert(wakers@ =~= old(self).wakers@);
        wakers
    }

    pub fn ensure_alive(&self) -> (result: Result<(), QueryEvaluationError>)
        ensures
            result == if self.cancelled {
                Err(QueryEvaluationError::Cancelled)
            } else {
                Ok(())
            },
    {
        if self.cancelled {
            Err(QueryEvaluationError::Cancelled)
        } else {
            Ok(())
        }
    }

    /// Notes a task to wake at a cancellation, unless it is noted already.
    pub fn register_waker(&mut self, waker: &Waker)
        ensures
            final(self).cancelled == old(self).cancelled,
            final(self).wakers@ == if old(self).wakers@.contains(*waker) {
                old(self).wakers@
            } else {
                old(self).wakers@.push(*waker)
            },
    {
        let mut next: usize = 0;
        while next < self.wakers.len()
            invariant
                *self == *old(self),
                next <= self.wakers@.len(),
                forall|i: int| 0 <= i < next ==> self.wakers@[i] != *waker,
            decreases self.wakers@.len() - next,
        {
            if self.wakers[next].will_wake(waker) {
                assert(self.wakers@[next as int] == *waker);
                return;
            }
            next = next + 1;
        }
        assert(!self.wakers@.contains(*waker));
        self.wakers.push(*waker);
    }

    /// Forgets a task.
    pub fn unregister_waker(&mut self, waker: &Waker)
        ensures
            final(self).cancelled == old(self).cancelled,
            final(self).wakers@ == old(self).wakers@.filter(|known: Waker| known != *waker),
    {
        let ghost before = self.wakers@;
        let ghost other = |known: Waker| known != *waker;
        let mut kept: Vec<Waker> = Vec::new();
        let mut next: usize = 0;
        while next < self.wakers.len()
            invariant
                *self == *old(self),
                self.wakers@ == before,
                other == (|known: Waker| known != *waker),
                next <= before.len(),
                kept@ == before.take(next as int).filter(other),
            decreases before.len() - next,
        {
            assert(before.take(next + 1).drop_last() =~= before.take(next as int));
            reveal(Seq::filter);
            if !self.wakers[next].will_wake(waker) {
                kept.push(self.wakers[next]);
            }
            next = next + 1;
        }
        assert(before.take(next as int) =~= before);
        self.wakers = kept;
    }
}

/// Query-local notification state, to which the live subscriptions of the query refer.
pub struct IncrementalQueryNotifier {
    generation: u64,
    waker: Option<Waker>,
}

impl IncrementalQueryNotifier {
    /// How many changes were observed, modulo 2^64.
    pub closed spec fn changes(&self) -> u64 {
        self.generation
    }

    /// The task to wake at the next change.
    pub closed spec fn waiting(&self) -> Option<Waker> {
        self.waker
    }

    pub fn new() -> (notifier: Self)
        ensures
            notifier.changes() == 0,
            notifier.waiting() is None,
    {
        IncrementalQueryNotifier { generation: 0, waker: None }
    }

    pub fn generation(&self) -> (generation: u64)
        ensures
            generation == self.changes(),
    {
        self.generation
    }

    pub fn register_waker(&mut self, waker: &Waker)
        ensures
            final(self).changes() == old(self).changes(),
            final(self).waiting() == Some(*waker),
    {
        let known = match &self.waker {
            Some(old_waker) => old_waker.will_wake(waker),
            None => false,
        };
        if !known {
            self.waker = Some(*waker);
        }
    }

    pub fn clear_waker(&mut self)
        ensures
            final(self).changes() == old(self).changes(),
            final(self).waiting() is None,
    {
        self.waker = None;
    }

    /// Counts a change. The task to wake, if one waits, is handed out and waits no more.
    pub fn notify(&mut self) -> (waker: Option<Waker>)
        ensures
            final(self).changes() == next_generation(old(self).changes()),
            final(self).waiting() is None,
            waker == old(self).waiting(),
    {
        self.generation = self.generation.wrapping_add(1);
        let waker = self.waker;
        self.waker = None;
        waker
    }

    /// The wait for a change after the generation `baseline`.
    pub fn changed_since(&self, baseline: u64) -> (future: NotifierChangeFuture)
        ensures
            future.baseline == baseline,
            future.cancellation_waker is None,
    {
        NotifierChangeFuture { baseline, cancellation_waker: None }
    }
}

/// The generation after one more change.
pub open spec fn next_generation(generation: u64) -> u64 {
    if generation == u64::MAX {
        0
    } else {
        (generation + 1) as u64
    }
}

/// What a poll came to.
#[derive(PartialEq, Eq, Debug)]
pub enum ChangePoll {
    Changed,
    Failed(QueryEvaluationError),
    Pending,
}

/// A wait that is over when a query notifier observes a change after `baseline`.
pub struct NotifierChangeFuture {
    pub baseline: u64,
    pub cancellation_waker: Option<Waker>,
}

/// Whether a wait is over.
pub open spec fn checked(
    baseline: u64,
    notifier: IncrementalQueryNotifier,
    token: CancellationToken,
) -> ChangePoll {
    if token.cancelled {
        ChangePoll::Failed(QueryEvaluationError::Cancelled)
    } else if notifier.changes() != baseline {
        ChangePoll::Changed
    } else {
        ChangePoll::Pending
    }
}

/// The tasks of a token after a wait has moved from one task to another.
pub open spec fn moved_wakers(
    wakers: Seq<Waker>,
    old_waker: Option<Waker>,
    waker: Waker,
) -> Seq<Waker> {
    let rest = match old_waker {
        Some(old_waker) => if old_waker == waker {
            wakers
        } else {
            wakers.filter(|known: Waker| known != old_waker)
        },
        None => wakers,
    };
    if rest.contains(waker) {
        rest
    } else {
        rest.push(waker)
    }
}

impl NotifierChangeFuture {
    /// Whether the wait is over.
    pub fn check(
        &self,
        notifier: &IncrementalQueryNotifier,
        token: &CancellationToken,
    ) -> (poll: ChangePoll)
        ensures
            poll == checked(self.baseline, *notifier, *token),
    {
        match token.ensure_alive() {
            Err(error) => ChangePoll::Failed(error),
            Ok(()) => if notifier.generation() != self.baseline {
                ChangePoll::Changed
            } else {
                ChangePoll::Pending
            },
        }
    }

    /// Makes sure that a change and a cancellation wake the task.
    pub fn register(
        &mut self,
        notifier: &mut IncrementalQueryNotifier,
        token: &mut CancellationToken,
        waker: &Waker,
    )
        ensures
            final(self).baseline == old(self).baseline,
            final(self).cancellation_waker == Some(*waker),
            final(notifier).changes() == old(notifier).changes(),
            final(notifier).waiting() == Some(*waker),
            final(token).cancelled == old(token).cancelled,
            final(token).wakers@ == moved_wakers(
                old(token).wakers@,
                old(self).cancellation_waker,
                *waker,
            ),
            final(token).wakers@.contains(*waker),
    {
        notifier.register_waker(waker);
        if let Some(old_waker) = &self.cancellation_waker {
            if !old_waker.will_wake(waker) {
                token.unregister_waker(old_waker);
            }
        }
        let ghost before = token.wakers@;
        token.register_waker(waker);
        proof {
            if !before.contains(*waker) {
                assert(token.wakers@[before.len() as int] == *waker);
            }
        }
        self.cancellation_waker = Some(*waker);
    }

    /// Checks whether the wait is over, before and again after the task was registered. A
    /// change that comes in between is seen by the second check; one that comes later
    /// wakes the task.
    pub fn poll(
        &mut self,
        notifier: &mut IncrementalQueryNotifier,
        token: &mut CancellationToken,
        waker: &Waker,
    ) -> (poll: ChangePoll)
        ensures
            waits(
                *old(self),
                *final(self),
                *old(notifier),
                *final(notifier),
                *old(token),
                *final(token),
                *waker,
                poll,
            ),
    {
        match self.check(notifier, token) {
            ChangePoll::Pending => {
                self.register(notifier, token, waker);
                self.check(notifier, token)
            },
            settled => settled,
        }
    }

    /// Ends the wait: no task is woken on its behalf any more.
    pub fn close(&mut self, notifier: &mut IncrementalQueryNotifier, token: &mut CancellationToken)
        ensures
            waits_no_more(
                *old(self),
                *final(self),
                *old(notifier),
                *final(notifier),
                *old(token),
                *final(token),
            ),
    {
        notifier.clear_waker();
        if let Some(waker) = &self.cancellation_waker {
            token.unregister_waker(waker);
        }
    }
}

/// What a poll of a wait does to the wait, to the notifier and to the token.
pub open spec fn waits(
    old_future: NotifierChangeFuture,
    future: NotifierChangeFuture,
    old_notifier: IncrementalQueryNotifier,
    notifier: IncrementalQueryNotifier,
    old_token: CancellationToken,
    token: CancellationToken,
    waker: Waker,
    poll: ChangePoll,
) -> bool {
    &&& poll == checked(old_future.baseline, old_notifier, old_token)
    &&& future.baseline == old_future.baseline
    &&& notifier.changes() == old_notifier.changes()
    &&& token.cancelled == old_token.cancelled
    &&& poll == ChangePoll::Pending ==> {
        &&& future.cancellation_waker == Some(waker)
        &&& notifier.waiting() == Some(waker)
        &&& token.wakers@ == moved_wakers(
            old_token.wakers@,
            old_future.cancellation_waker,
            waker,
        )
        &&& token.wakers@.contains(waker)
    }
    &&& poll != ChangePoll::Pending ==> {
        &&& future == old_future
        &&& notifier == old_notifier
        &&& token == old_token
    }
}

/// What the end of a wait does to the wait, to the notifier and to the token.
pub open spec fn waits_no_more(
    old_future: NotifierChangeFuture,
    future: NotifierChangeFuture,
    old_notifier: IncrementalQueryNotifier,
    notifier: IncrementalQueryNotifier,
    old_token: CancellationToken,
    token: CancellationToken,
) -> bool {
    &&& future.baseline == old_future.baseline
    &&& notifier.changes() == old_notifier.changes()
    &&& notifier.waiting() is None
    &&& token.cancelled == old_token.cancelled
    &&& token.wakers@ == match old_future.cancellation_waker {
        Some(waker) => old_token.wakers@.filter(|known: Waker| known != waker),
        None => old_token.wakers@,
    }
}

/// No wakeup is lost: a change after the baseline was taken is either seen by the check
/// that follows the registration of a task, or it comes when the task is registered and
/// wakes it. The notifier is given as it is before the change and after it.
pub proof fn law_no_lost_wakeup(
    baseline: u64,
    before: IncrementalQueryNotifier,
    after: IncrementalQueryNotifier,
    woken: Option<Waker>,
    waker: Waker,
    token: CancellationToken,
)
    requires
        before.changes() == baseline,
        after.changes() == next_generation(before.changes()),
        woken == before.waiting(),
    ensures
        checked(baseline, after, token) != ChangePoll::Pending,
        before.waiting() == Some(waker) ==> woken == Some(waker),
{
}

/// The notifiers of the queries. A notifier that was dropped is never heard of again.
pub struct NotifierRegistry {
    slots: Vec<Option<IncrementalQueryNotifier>>,
}

impl NotifierRegistry {
    pub closed spec fn view(&self) -> Seq<Option<IncrementalQueryNotifier>> {
        self.slots@
    }

    pub fn new() -> (registry: Self)
        ensures
            registry@ == Seq::<Option<IncrementalQueryNotifier>>::empty(),
    {
        NotifierRegistry { slots: Vec::new() }
    }

    /// Adds a notifier; it is known by the number that is returned.
    pub fn register(&mut self) -> (id: usize)
        ensures
            id == old(self)@.len(),
            final(self)@.len() == id + 1,
            final(self)@.drop_last() == old(self)@,
            final(self)@[id as int] matches Some(notifier) && notifier.changes() == 0
                && notifier.waiting() is None,
    {
        let id = self.slots.len();
        self.slots.push(Some(IncrementalQueryNotifier::new()));
        assert(self.slots@.drop_last() =~= old(self).slots@);
        id
    }

    /// The notifier of a number, unless it was dropped.
    pub fn get(&self, id: usize) -> (notifier: Option<&IncrementalQueryNotifier>)
        ensures
            match notifier {
                Some(notifier) => self.alive(id) && *notifier == self@[id as int]->0,
                None => !self.alive(id),
            },
    {
        if id < self.slots.len() {
            match &self.slots[id] {
                Some(notifier) => Some(notifier),
                None => None,
            }
        } else {
            None
        }
    }

    /// Whether a number is that of a notifier which was not dropped.
    pub open spec fn alive(&self, id: usize) -> bool {
        id < self@.len() && self@[id as int] is Some
    }

    /// Takes a notifier out of the registry.
    pub fn take(&mut self, id: usize) -> (notifier: Option<IncrementalQueryNotifier>)
        ensures
            match notifier {
                Some(notifier) => old(self).alive(id) && notifier == old(self)@[id as int]->0
                    && final(self)@ == old(self)@.update(id as int, None),
                None => !old(self).alive(id) && final(self)@ == old(self)@,
            },
    {
        if id < self.slots.len() {
            let ghost before = self.slots@;
            let notifier = self.slots[id].take();
            assert(self.slots@ =~= before.update(id as int, None));
            assert(notifier is None ==> self.slots@ =~= before);
            notifier
        } else {
            None
        }
    }
}

impl NotifierRegistry {
    /// Puts a notifier back that was taken out.
    pub fn restore(&mut self, id: usize, notifier: IncrementalQueryNotifier)
        requires
            id < old(self)@.len(),
        ensures
            final(self)@ == old(self)@.update(id as int, Some(notifier)),
    {
        self.slots[id] = Some(notifier);
    }
}

/// The notifiers after those with the given numbers were notified.
pub open spec fn all_notified(
    before: Seq<Option<IncrementalQueryNotifier>>,
    after: Seq<Option<IncrementalQueryNotifier>>,
    ids: Seq<usize>,
) -> bool {
    &&& after.len() == before.len()
    &&& forall|id: int|
        #![trigger after[id]]
        0 <= id < after.len() ==> match before[id] {
            None => after[id] is None,
            Some(notifier) => after[id] is Some && if ids.contains(id as usize) {
                &&& after[id]->0.changes() == next_generation(notifier.changes())
                &&& after[id]->0.waiting() is None
            } else {
                after[id] == before[id]
            },
        }
}

/// The task that waits at the notifier with a number.
pub open spec fn waiting_at(slots: Seq<Option<IncrementalQueryNotifier>>) -> spec_fn(
    usize,
) -> Option<Waker> {
    |id: usize|
        if id < slots.len() {
            match slots[id as int] {
                Some(notifier) => notifier.waiting(),
                None => None,
            }
        } else {
            None
        }
}

/// Notifies the notifiers with the given numbers, except those that were dropped. The
/// tasks to wake are handed out.
pub fn notify_incremental_changes(ids: &Vec<usize>, registry: &mut NotifierRegistry) -> (wakers: Vec<
    Waker,
>)
    requires
        ids@.no_duplicates(),
    ensures
        all_notified(old(registry)@, final(registry)@, ids@),
        wakers@ == filter_map(ids@, waiting_at(old(registry)@)),
{
    let ghost before = registry@;
    let mut wakers: Vec<Waker> = Vec::new();
    let mut next: usize = 0;
    while next < ids.len()
        invariant
            ids@.no_duplicates(),
            next <= ids@.len(),
            all_notified(before, registry@, ids@.take(next as int)),
            wakers@ == filter_map(ids@.take(next as int), waiting_at(before)),
        decreases ids@.len() - next,
    {
        let id = ids[next];
        let ghost done = ids@.take(next as int);
        let ghost current = registry@;
        proof {
            assert(ids@.take(next + 1) =~= done.push(id));
            lemma_filter_map_push(done, id, waiting_at(before));
            assert(!done.contains(id));
            if id < before.len() {
                assert(current[id as int] == before[id as int]);
            }
        }
        if let Some(mut notifier) = registry.take(id) {
            let waker = notifier.notify();
            registry.restore(id, notifier);
            if let Some(waker) = waker {
                wakers.push(waker);
            }
        }
        next = next + 1;
        proof {
            let more = ids@.take(next as int);
            assert forall|other: int|
                #![trigger registry@[other]]
                0 <= other < registry@.len() implies match before[other] {
                None => registry@[other] is None,
                Some(notifier) => registry@[other] is Some && if more.contains(other as usize) {
                    &&& registry@[other]->0.changes() == next_generation(notifier.changes())
                    &&& registry@[other]->0.waiting() is None
                } else {
                    registry@[other] == before[other]
                },
            } by {
                assert(registry.slots.len() == registry@.len());
                assert(0 <= other < current.len());
                let same = current[other];
                assert(more.contains(other as usize) <==> done.contains(other as usize) || other
                    as usize == id) by {
                    if done.contains(other as usize) {
                        let i = choose|i: int| 0 <= i < done.len() && done[i] == other as usize;
                        assert(more[i] == other as usize);
                    }
                    if more.contains(other as usize) {
                        let i = choose|i: int| 0 <= i < more.len() && more[i] == other as usize;
                        if i < done.len() {
                            assert(done[i] == other as usize);
                        }
                    }
                    assert(more[done.len() as int] == id);
                }
                if other != id {
                    assert(registry@[other] == current[other]);
                }
            }
        }
    }
    assert(ids@.take(next as int) =~= ids@);
    wakers
}

/// A generation is followed by another one, which differs from it by one where there is no
/// overflow; all generations are different until they start again.
pub proof fn law_generations_differ(generation: u64, other: u64)
    ensures
        next_generation(generation) != generation,
        generation < u64::MAX ==> next_generation(generation) == generation + 1,
        next_generation(u64::MAX) == 0,
        next_generation(generation) == next_generation(other) ==> generation == other,
{
}

/// A wait is over once the query is cancelled or the notifier has observed a change, and not
/// before.
pub proof fn law_waits_end_with_changes_and_cancellations(
    baseline: u64,
    notifier: IncrementalQueryNotifier,
    token: CancellationToken,
)
    ensures
        checked(baseline, notifier, token) == ChangePoll::Pending <==> !token.cancelled
            && notifier.changes() == baseline,
        checked(baseline, notifier, token) == ChangePoll::Changed <==> !token.cancelled
            && notifier.changes() != baseline,
        checked(baseline, notifier, token) == ChangePoll::Failed(QueryEvaluationError::Cancelled)
            <==> token.cancelled,
{
}

/// A wait that moves to another task wakes that task and no longer the old one; all other
/// tasks stay.
pub proof fn law_waits_move_from_task_to_task(
    wakers: Seq<Waker>,
    old_waker: Option<Waker>,
    waker: Waker,
    other: Waker,
)
    ensures
        moved_wakers(wakers, old_waker, waker).contains(waker),
        old_waker matches Some(old_waker) ==> old_waker != waker ==> !moved_wakers(
            wakers,
            Some(old_waker),
            waker,
        ).contains(old_waker),
        other != waker && old_waker != Some(other) ==> (moved_wakers(
            wakers,
            old_waker,
            waker,
        ).contains(other) <==> wakers.contains(other)),
{
    let moved = moved_wakers(wakers, old_waker, waker);
    let rest = match old_waker {
        Some(old_waker) => if old_waker == waker {
            wakers
        } else {
            wakers.filter(|known: Waker| known != old_waker)
        },
        None => wakers,
    };
    if let Some(old_waker) = old_waker {
        let f = |known: Waker| known != old_waker;
        lemma_filtered(wakers, f, other);
        lemma_filtered(wakers, f, old_waker);
    }
    if !rest.contains(waker) {
        assert(moved == rest.push(waker));
        assert(moved[rest.len() as int] == waker);
        lemma_contains_push(rest, waker, other);
        if let Some(old_waker) = old_waker {
            lemma_contains_push(rest, waker, old_waker);
        }
    }
}

proof fn lemma_contains_push(wakers: Seq<Waker>, waker: Waker, other: Waker)
    ensures
        wakers.push(waker).contains(other) <==> wakers.contains(other) || other == waker,
{
    let longer = wakers.push(waker);
    if wakers.contains(other) {
        let i = choose|i: int| 0 <= i < wakers.len() && wakers[i] == other;
        assert(longer[i] == other);
    }
    if other == waker {
        assert(longer[wakers.len() as int] == other);
    }
    if longer.contains(other) {
        let i = choose|i: int| 0 <= i < longer.len() && longer[i] == other;
        if i < wakers.len() {
            assert(wakers[i] == other);
        }
    }
}

/// What is left of tasks are those that fulfil a condition.
proof fn lemma_filtered(wakers: Seq<Waker>, f: spec_fn(Waker) -> bool, other: Waker)
    ensures
        wakers.filter(f).contains(other) <==> wakers.contains(other) && f(other),
{
    if wakers.filter(f).contains(other) {
        wakers.lemma_filter_contains_rev(f, other);
        let i = choose|i: int| 0 <= i < wakers.filter(f).len() && wakers.filter(f)[i] == other;
        wakers.lemma_filter_pred(f, i);
    }
    if wakers.contains(other) && f(other) {
        let i = choose|i: int| 0 <= i < wakers.len() && wakers[i] == other;
        wakers.lemma_filter_contains(f, i);
    }
}

} // verus!
