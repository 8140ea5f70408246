//! The live subscriptions of a store and the changes that wait for them.

use crate::bag::{filter_map, lemma_filter_map_contains, lemma_filter_map_push};
use crate::delta::Delta;
use crate::fx::{FxKey, FxSet};
use crate::notifier::{
    all_notified, notify_incremental_changes, waiting_at, waits, waits_no_more, CancellationToken,
    ChangePoll, IncrementalQueryNotifier, NotifierChangeFuture, NotifierRegistry, Waker,
};
use crate::numeric_encoder::EncodedQuad;
use crate::subscription::{
    component, unconstrained, wanted, watches, IncrementalQuadPattern, IncrementalSubscriptionIndex,
    QuadField,
};
use std::collections::VecDeque;
use vstd::prelude::*;

verus! {

/// A subscription: what it wants to hear of, what it has not heard yet, and whom to notify.
pub struct IncrementalSubscriber {
    pub pattern: IncrementalQuadPattern,
    pub changes: VecDeque<Delta<EncodedQuad>>,
    pub notifier: usize,
}

pub struct SubscriberView {
    pub pattern: IncrementalQuadPattern,
    pub changes: Seq<Delta<EncodedQuad>>,
    pub notifier: usize,
}

impl View for IncrementalSubscriber {
    type V = SubscriberView;

    open spec fn view(&self) -> SubscriberView {
        SubscriberView { pattern: self.pattern, changes: self.changes@, notifier: self.notifier }
    }
}

/// A change, where a subscription hears of it.
pub open spec fn hears(pattern: IncrementalQuadPattern) -> spec_fn(Delta<EncodedQuad>) -> Option<
    Delta<EncodedQuad>,
> {
    |change: Delta<EncodedQuad>|
        if watches(pattern, change.value_of()) {
            Some(change)
        } else {
            None
        }
}

/// The changes that a subscription hears of.
pub open spec fn heard(
    pattern: IncrementalQuadPattern,
    changes: Seq<Delta<EncodedQuad>>,
) -> Seq<Delta<EncodedQuad>> {
    filter_map(changes, hears(pattern))
}

/// The subscribers after changes were queued for them.
pub open spec fn queued(
    subscribers: Map<usize, SubscriberView>,
    changes: Seq<Delta<EncodedQuad>>,
) -> Map<usize, SubscriberView> {
    subscribers.map_values(
        |subscriber: SubscriberView|
            SubscriberView {
                pattern: subscriber.pattern,
                changes: subscriber.changes + heard(subscriber.pattern, changes),
                notifier: subscriber.notifier,
            },
    )
}

/// Whether a subscriber with the given notifier hears of a change.
pub open spec fn must_notify(
    subscribers: Map<usize, SubscriberView>,
    changes: Seq<Delta<EncodedQuad>>,
    notifier: usize,
) -> bool {
    exists|id: usize| #[trigger]
        subscribers.contains_key(id) && subscribers[id].notifier == notifier && heard(
            subscribers[id].pattern,
            changes,
        ).len() > 0
}

/// The subscriptions of a store.
pub struct IncrementalState {
    subscribers: Vec<Option<IncrementalSubscriber>>,
    free_subscriber_slots: Vec<usize>,
    subscription_index: IncrementalSubscriptionIndex,
    notifiers: NotifierRegistry,
}

impl IncrementalState {
    /// The live subscribers by their numbers.
    pub closed spec fn view(&self) -> Map<usize, SubscriberView> {
        Map::new(
            |id: usize| id < self.subscribers@.len() && self.subscribers@[id as int] is Some,
            |id: usize| self.subscribers@[id as int]->0@,
        )
    }

    /// The notifiers of the queries; `None` for those that were dropped.
    pub closed spec fn registry(&self) -> Seq<Option<IncrementalQueryNotifier>> {
        self.notifiers@
    }

    /// The index names each live subscription, under the terms that it asks for, and no
    /// other; the free slots are distinct slots without a subscription.
    pub closed spec fn wf(&self) -> bool {
        &&& self.subscription_index.wf()
        &&& self.index_agrees()
        &&& self.free_subscriber_slots@.no_duplicates()
        &&& forall|i: int|
            0 <= i < self.free_subscriber_slots@.len() ==> (
            #[trigger] self.free_subscriber_slots@[i]) < self.subscribers@.len()
                && self.subscribers@[self.free_subscriber_slots@[i] as int] is None
    }

    closed spec fn index_agrees(&self) -> bool {
        &&& forall|id: usize, field: QuadField, key: crate::numeric_encoder::EncodedTerm|
            #![trigger self.subscription_index.ids(field, key).contains(id)]
            self.subscription_index.ids(field, key).contains(id) <==> self.view().contains_key(id)
                && wanted(self.view()[id].pattern, field) == Some(key)
        &&& forall|id: usize| #[trigger]
            self.subscription_index.unconstrained_ids().contains(id) <==> self.view().contains_key(
                id,
            ) && unconstrained(self.view()[id].pattern)
    }

    pub fn new() -> (state: Self)
        ensures
            state.wf(),
            state@ == Map::<usize, SubscriberView>::empty(),
            state.registry() == Seq::<Option<IncrementalQueryNotifier>>::empty(),
    {
        let state = IncrementalState {
            subscribers: Vec::new(),
            free_subscriber_slots: Vec::new(),
            subscription_index: IncrementalSubscriptionIndex::new(),
            notifiers: NotifierRegistry::new(),
        };
        assert(state.view() =~= Map::<usize, SubscriberView>::empty());
        state
    }

    proof fn lemma_named(&self, quad: EncodedQuad, id: usize)
        requires
            self.wf(),
            self.view().contains_key(id),
            watches(self.view()[id].pattern, quad),
        ensures
            self.subscription_index.names(quad, id),
    {
        let pattern = self.view()[id].pattern;
        if unconstrained(pattern) {
            assert(self.subscription_index.unconstrained_ids().contains(id));
        } else {
            let field = choose|field: QuadField| !((#[trigger] wanted(pattern, field)) is None);
            let key = wanted(pattern, field)->0;
            assert(key == component(quad, field));
            assert(self.subscription_index.ids(field, key).contains(id));
        }
    }

    /// The subscribers that hear of a quad, each once.
    pub fn for_each_matching_subscriber(&self, quad: &EncodedQuad) -> (ids: Vec<usize>)
        requires
            self.wf(),
        ensures
            ids@.no_duplicates(),
            forall|id: usize| #[trigger]
                ids@.contains(id) <==> self@.contains_key(id) && watches(self@[id].pattern, *quad),
    {
        let candidates = self.subscription_index.for_each_candidate(quad);
        let mut ids: Vec<usize> = Vec::new();
        let mut next: usize = 0;
        while next < candidates.len()
            invariant
                self.wf(),
                candidates@.no_duplicates(),
                next <= candidates@.len(),
                ids@.no_duplicates(),
                forall|id: usize| #[trigger]
                    ids@.contains(id) <==> candidates@.take(next as int).contains(id)
                        && self@.contains_key(id) && watches(self@[id].pattern, *quad),
            decreases candidates@.len() - next,
        {
            let id = candidates[next];
            let ghost before = ids@;
            let ghost seen = candidates@.take(next as int);
            assert(!seen.contains(id));
            assert(!before.contains(id));
            if id < self.subscribers.len() {
                if let Some(subscriber) = &self.subscribers[id] {
                    if subscriber.pattern.matches(quad) {
                        ids.push(id);
                    }
                }
            }
            next = next + 1;
            proof {
                let more = candidates@.take(next as int);
                assert(more =~= seen.push(id));
                assert forall|other: usize| #[trigger] ids@.contains(other) <==> more.contains(other)
                    && self@.contains_key(other) && watches(self@[other].pattern, *quad) by {
                    assert(before.contains(other) <==> seen.contains(other) && self@.contains_key(
                        other,
                    ) && watches(self@[other].pattern, *quad));
                    lemma_contains_push(seen, id, other);
                    if ids@.len() > before.len() {
                        lemma_contains_push(before, id, other);
                        assert(ids@ =~= before.push(id));
                    }
                }
            }
        }
        proof {
            assert(candidates@.take(next as int) =~= candidates@);
            assert forall|id: usize| #[trigger]
                ids@.contains(id) <==> self@.contains_key(id) && watches(
                    self@[id].pattern,
                    *quad,
                ) by {
                if self@.contains_key(id) && watches(self@[id].pattern, *quad) {
                    self.lemma_named(*quad, id);
                    assert(candidates@.contains(id));
                }
            }
        }
        ids
    }

    /// Queues one change for the subscribers that hear of it and notes their notifiers.
    fn queue_change(&mut self, change: &Delta<EncodedQuad>, notifiers: &mut FxSet<usize>)
        requires
            old(self).wf(),
            old(notifiers).wf(),
        ensures
            final(self).wf(),
            final(notifiers).wf(),
            final(self).registry() == old(self).registry(),
            final(self)@.dom() == old(self)@.dom(),
            forall|id: usize| #[trigger]
                final(self)@.contains_key(id) ==> final(self)@[id] == (SubscriberView {
                    changes: if watches(old(self)@[id].pattern, change.value_of()) {
                        old(self)@[id].changes.push(*change)
                    } else {
                        old(self)@[id].changes
                    },
                    ..old(self)@[id]
                }),
            forall|notifier: usize| #[trigger]
                final(notifiers)@.contains(notifier) <==> old(notifiers)@.contains(notifier)
                    || exists|id: usize| #[trigger]
                    old(self)@.contains_key(id) && old(self)@[id].notifier == notifier && watches(
                        old(self)@[id].pattern,
                        change.value_of(),
                    ),
    {
        let ids = self.for_each_matching_subscriber(change.value());
        let ghost start = self.view();
        let ghost noted = notifiers@;
        let ghost quad = change.value_of();
        let mut next: usize = 0;
        while next < ids.len()
            invariant
                ids@.no_duplicates(),
                forall|id: usize| #[trigger]
                    ids@.contains(id) <==> start.contains_key(id) && watches(
                        start[id].pattern,
                        quad,
                    ),
                next <= ids@.len(),
                notifiers.wf(),
                self.notifiers == old(self).notifiers,
                self.subscription_index == old(self).subscription_index,
                self.free_subscriber_slots == old(self).free_subscriber_slots,
                self.subscribers@.len() == old(self).subscribers@.len(),
                forall|i: int|
                    0 <= i < self.subscribers@.len() ==> ((#[trigger] self.subscribers@[i]) is None
                        <==> old(self).subscribers@[i] is None),
                start == old(self).view(),
                self.view().dom() == start.dom(),
                forall|id: usize| #[trigger]
                    self.view().contains_key(id) ==> self.view()[id] == (SubscriberView {
                        changes: if ids@.take(next as int).contains(id) {
                            start[id].changes.push(*change)
                        } else {
                            start[id].changes
                        },
                        ..start[id]
                    }),
                forall|notifier: usize| #[trigger]
                    notifiers@.contains(notifier) <==> noted.contains(notifier) || exists|i: int|
                        0 <= i < next && start[#[trigger] ids@[i]].notifier == notifier,
            decreases ids@.len() - next,
        {
            let id = ids[next];
            let ghost seen = ids@.take(next as int);
            let ghost current = self.view();
            let ghost noted_now = notifiers@;
            assert(ids@.contains(id));
            assert(!seen.contains(id));
            assert(self.view().contains_key(id));
            let copy = Delta::with_kind(change.kind(), *change.value());
            proof {
                crate::delta::law_parts_round_trip(*change);
            }
            if let Some(subscriber) = &mut self.subscribers[id] {
                subscriber.changes.push_back(copy);
                notifiers.insert(subscriber.notifier);
            }
            next = next + 1;
            proof {
                let more = ids@.take(next as int);
                assert(more =~= seen.push(id));
                assert(self.view().dom() =~= start.dom());
                assert forall|other: usize| #[trigger] self.view().contains_key(other) implies self.view()[other]
                    == (SubscriberView {
                    changes: if more.contains(other) {
                        start[other].changes.push(*change)
                    } else {
                        start[other].changes
                    },
                    ..start[other]
                }) by {
                    lemma_contains_push(seen, id, other);
                    assert(current.contains_key(other));
                    if other == id {
                        assert(self.view()[other].changes =~= start[other].changes.push(*change));
                    } else {
                        assert(self.view()[other] == current[other]);
                    }
                }
                assert forall|notifier: usize| #[trigger]
                    notifiers@.contains(notifier) <==> noted.contains(notifier) || exists|i: int|
                        0 <= i < next && start[#[trigger] ids@[i]].notifier == notifier by {
                    assert(noted_now.contains(notifier) <==> noted.contains(notifier) || exists|
                        i: int,
                    |
                        0 <= i < next - 1 && start[#[trigger] ids@[i]].notifier == notifier);
                    assert(start[ids@[next - 1]].notifier == current[id].notifier);
                }
            }
        }
        proof {
            assert(ids@.take(next as int) =~= ids@);
            self.lemma_kept(*old(self), Set::empty());
            assert forall|i: int| 0 <= i < self.free_subscriber_slots@.len() implies (
            #[trigger] self.free_subscriber_slots@[i]) < self.subscribers@.len()
                && self.subscribers@[self.free_subscriber_slots@[i] as int] is None by {
                assert(old(self).subscribers@[old(self).free_subscriber_slots@[i] as int] is None);
            }
            assert forall|notifier: usize| #[trigger]
                notifiers@.contains(notifier) <==> noted.contains(notifier) || exists|id: usize|
                    #[trigger]
                    start.contains_key(id) && start[id].notifier == notifier && watches(
                        start[id].pattern,
                        quad,
                    ) by {
                if exists|i: int| 0 <= i < next && start[#[trigger] ids@[i]].notifier == notifier {
                    let i = choose|i: int|
                        0 <= i < next && start[#[trigger] ids@[i]].notifier == notifier;
                    assert(ids@.contains(ids@[i]));
                    assert(start.contains_key(ids@[i]));
                }
                if exists|id: usize| #[trigger]
                    start.contains_key(id) && start[id].notifier == notifier && watches(
                        start[id].pattern,
                        quad,
                    ) {
                    let id = choose|id: usize| #[trigger]
                        start.contains_key(id) && start[id].notifier == notifier && watches(
                            start[id].pattern,
                            quad,
                        );
                    assert(ids@.contains(id));
                    let i = choose|i: int| 0 <= i < ids@.len() && ids@[i] == id;
                    assert(start[ids@[i]].notifier == notifier);
                }
            }
        }
    }

    /// Queues changes, in their order, for the subscribers that hear of them. The numbers
    /// of their notifiers are returned, each once.
    pub fn queue_committed_quad_changes(&mut self, changes: &Vec<Delta<EncodedQuad>>) -> (notifiers:
        Vec<usize>)
        requires
            old(self).wf(),
        ensures
            final(self).wf(),
            final(self)@ == queued(old(self)@, changes@),
            final(self).registry() == old(self).registry(),
            notifiers@.no_duplicates(),
            forall|notifier: usize| #[trigger]
                notifiers@.contains(notifier) <==> must_notify(old(self)@, changes@, notifier),
    {
        let mut noted: FxSet<usize> = FxSet::new();
        let ghost start = self.view();
        let mut next: usize = 0;
        assert(self.view() =~= queued(start, changes@.take(0))) by {
            assert forall|id: usize| #[trigger] start.contains_key(id) implies start[id]
                == queued(start, changes@.take(0))[id] by {
                assert(start[id].changes + heard(start[id].pattern, changes@.take(0))
                    =~= start[id].changes);
            }
        }
        while next < changes.len()
            invariant
                self.wf(),
                noted.wf(),
                next <= changes@.len(),
                self.registry() == old(self).registry(),
                self.view() == queued(start, changes@.take(next as int)),
                forall|notifier: usize| #[trigger]
                    noted@.contains(notifier) <==> must_notify(
                        start,
                        changes@.take(next as int),
                        notifier,
                    ),
            decreases changes@.len() - next,
        {
            let ghost current = self.view();
            let ghost noted_now = noted@;
            let ghost done = changes@.take(next as int);
            let ghost change = changes@[next as int];
            self.queue_change(&changes[next], &mut noted);
            next = next + 1;
            proof {
                let more = changes@.take(next as int);
                assert(more =~= done.push(change));
                let expected = queued(start, more);
                assert(self.view().dom() =~= expected.dom());
                assert forall|id: usize| #[trigger] self.view().contains_key(id) implies self.view()[id]
                    == expected[id] by {
                    assert(start.contains_key(id));
                    lemma_filter_map_push(done, change, hears(start[id].pattern));
                    assert(self.view()[id].changes =~= expected[id].changes);
                }
                assert(self.view() =~= expected);
                assert forall|notifier: usize| #[trigger]
                    noted@.contains(notifier) <==> must_notify(start, more, notifier) by {
                    assert(noted_now.contains(notifier) <==> must_notify(start, done, notifier));
                    if must_notify(start, done, notifier) {
                        let id = choose|id: usize| #[trigger]
                            start.contains_key(id) && start[id].notifier == notifier && heard(
                                start[id].pattern,
                                done,
                            ).len() > 0;
                        lemma_filter_map_push(done, change, hears(start[id].pattern));
                        assert(start.contains_key(id));
                    }
                    if exists|id: usize| #[trigger]
                        current.contains_key(id) && current[id].notifier == notifier && watches(
                            current[id].pattern,
                            change.value_of(),
                        ) {
                        let id = choose|id: usize| #[trigger]
                            current.contains_key(id) && current[id].notifier == notifier
                                && watches(current[id].pattern, change.value_of());
                        assert(start.contains_key(id));
                        lemma_filter_map_push(done, change, hears(start[id].pattern));
                    }
                    if must_notify(start, more, notifier) {
                        let id = choose|id: usize| #[trigger]
                            start.contains_key(id) && start[id].notifier == notifier && heard(
                                start[id].pattern,
                                more,
                            ).len() > 0;
                        lemma_filter_map_push(done, change, hears(start[id].pattern));
                        assert(start.contains_key(id) && current.contains_key(id));
                    }
                }
            }
        }
        assert(changes@.take(next as int) =~= changes@);
        let notifiers = noted.items();
        proof {
            assert forall|i: int, j: int| 0 <= i < notifiers@.len() && 0 <= j < notifiers@.len() && i
                != j implies notifiers@[i] != notifiers@[j] by {
                if i < j {
                    assert(notifiers@[i].model() != notifiers@[j].model());
                } else {
                    assert(notifiers@[j].model() != notifiers@[i].model());
                }
            }
            assert forall|notifier: usize| #[trigger] notifiers@.contains(notifier) <==> must_notify(
                start,
                changes@,
                notifier,
            ) by {
                assert(noted@.contains(notifier) <==> must_notify(start, changes@, notifier));
                if notifiers@.contains(notifier) {
                    let i = choose|i: int| 0 <= i < notifiers@.len() && notifiers@[i] == notifier;
                    assert(noted@.contains(notifiers@[i].model()));
                }
                if noted@.contains(notifier) {
                    assert(crate::fx::occurs(notifiers@, notifier));
                }
            }
        }
        notifiers
    }

    /// Adds a subscription; it is known by the number that is returned.
    pub fn subscribe(&mut self, pattern: IncrementalQuadPattern, notifier: usize) -> (id: usize)
        requires
            old(self).wf(),
        ensures
            final(self).wf(),
            !old(self)@.contains_key(id),
            final(self)@ == old(self)@.insert(
                id,
                SubscriberView { pattern, changes: Seq::empty(), notifier },
            ),
            final(self).registry() == old(self).registry(),
    {
        let ghost before = *self;
        let slot = match self.free_subscriber_slots.pop() {
            Some(slot) => {
                proof {
                    let last = before.free_subscriber_slots@.len() - 1;
                    assert(slot == before.free_subscriber_slots@[last]);
                }
                slot
            },
            None => self.subscribers.len(),
        };
        proof {
            assert(!before.view().contains_key(slot));
            assert forall|field: QuadField, key: crate::numeric_encoder::EncodedTerm|
                !(#[trigger] self.subscription_index.ids(field, key)).contains(slot) by {
                assert(self.subscription_index.ids(field, key).contains(slot)
                    ==> before.view().contains_key(slot));
            }
        }
        self.subscription_index.insert(slot, &pattern);
        let subscriber = Some(IncrementalSubscriber { pattern, changes: VecDeque::new(), notifier });
        let ghost added = subscriber->0@;
        if slot == self.subscribers.len() {
            self.subscribers.push(subscriber);
        } else {
            self.subscribers[slot] = subscriber;
        }
        proof {
            assert(added.changes =~= Seq::empty());
            assert(self.view() =~= before.view().insert(slot, added));
            self.lemma_changed(before, slot, pattern);
            assert forall|i: int| 0 <= i < self.free_subscriber_slots@.len() implies (
            #[trigger] self.free_subscriber_slots@[i]) < self.subscribers@.len()
                && self.subscribers@[self.free_subscriber_slots@[i] as int] is None by {
                assert(before.free_subscriber_slots@[i] == self.free_subscriber_slots@[i]);
            }
        }
        slot
    }

    /// An index that names what it named but for those that are gone agrees with the
    /// subscribers that are left.
    proof fn lemma_kept(&self, before: Self, gone: Set<usize>)
        requires
            before.index_agrees(),
            forall|id: usize, field: QuadField, key: crate::numeric_encoder::EncodedTerm|
                #![trigger self.subscription_index.ids(field, key).contains(id)]
                self.subscription_index.ids(field, key).contains(
                    id,
                ) <==> before.subscription_index.ids(field, key).contains(id) && !gone.contains(
                    id,
                ),
            forall|id: usize| #[trigger]
                self.subscription_index.unconstrained_ids().contains(
                    id,
                ) <==> before.subscription_index.unconstrained_ids().contains(id) && !gone.contains(
                    id,
                ),
            forall|id: usize| #[trigger]
                self.view().contains_key(id) <==> before.view().contains_key(id) && !gone.contains(
                    id,
                ),
            forall|id: usize| #[trigger]
                self.view().contains_key(id) ==> self.view()[id].pattern
                    == before.view()[id].pattern,
        ensures
            self.index_agrees(),
    {
        assert forall|id: usize, field: QuadField, key: crate::numeric_encoder::EncodedTerm|
            #![trigger self.subscription_index.ids(field, key).contains(id)]
            self.subscription_index.ids(field, key).contains(id) <==> self.view().contains_key(id)
                && wanted(self.view()[id].pattern, field) == Some(key) by {
            assert(before.subscription_index.ids(field, key).contains(id)
                <==> before.view().contains_key(id) && wanted(before.view()[id].pattern, field)
                == Some(key));
            assert(self.view().contains_key(id) <==> before.view().contains_key(id)
                && !gone.contains(id));
        }
        assert forall|id: usize| #[trigger]
            self.subscription_index.unconstrained_ids().contains(id) <==> self.view().contains_key(
                id,
            ) && unconstrained(self.view()[id].pattern) by {
            assert(before.subscription_index.unconstrained_ids().contains(id)
                <==> before.view().contains_key(id) && unconstrained(before.view()[id].pattern));
            assert(self.view().contains_key(id) <==> before.view().contains_key(id)
                && !gone.contains(id));
        }
    }

    /// Filing a new subscription keeps the index in agreement with the subscribers.
    proof fn lemma_changed(&self, before: Self, slot: usize, pattern: IncrementalQuadPattern)
        requires
            before.wf(),
            !before.view().contains_key(slot),
            self.view().contains_key(slot),
            self.view()[slot].pattern == pattern,
            self.view() == before.view().insert(slot, self.view()[slot]),
            self.subscription_index.unconstrained_ids() == if unconstrained(pattern) {
                before.subscription_index.unconstrained_ids().insert(slot)
            } else {
                before.subscription_index.unconstrained_ids()
            },
            forall|field: QuadField, key: crate::numeric_encoder::EncodedTerm| #[trigger]
                self.subscription_index.ids(field, key) == if wanted(pattern, field) == Some(key) {
                    before.subscription_index.ids(field, key).insert(slot)
                } else {
                    before.subscription_index.ids(field, key)
                },
        ensures
            self.index_agrees(),
    {
        assert forall|id: usize, field: QuadField, key: crate::numeric_encoder::EncodedTerm|
            #![trigger self.subscription_index.ids(field, key).contains(id)]
            self.subscription_index.ids(field, key).contains(id) <==> self.view().contains_key(id)
                && wanted(self.view()[id].pattern, field) == Some(key) by {
            assert(before.subscription_index.ids(field, key).contains(id)
                <==> before.view().contains_key(id) && wanted(before.view()[id].pattern, field)
                == Some(key));
        }
        assert forall|id: usize| #[trigger]
            self.subscription_index.unconstrained_ids().contains(id) <==> self.view().contains_key(
                id,
            ) && unconstrained(self.view()[id].pattern) by {
            assert(before.subscription_index.unconstrained_ids().contains(id)
                <==> before.view().contains_key(id) && unconstrained(before.view()[id].pattern));
        }
    }

    /// Takes what waits for a subscriber out of its queue.
    pub fn take_changes(&mut self, id: usize) -> (changes: VecDeque<Delta<EncodedQuad>>)
        requires
            old(self).wf(),
        ensures
            final(self).wf(),
            final(self).registry() == old(self).registry(),
            changes@ == if old(self)@.contains_key(id) {
                old(self)@[id].changes
            } else {
                Seq::empty()
            },
            final(self)@ == if old(self)@.contains_key(id) {
                old(self)@.insert(
                    id,
                    SubscriberView { changes: Seq::empty(), ..old(self)@[id] },
                )
            } else {
                old(self)@
            },
    {
        let ghost before = *self;
        let mut changes: VecDeque<Delta<EncodedQuad>> = VecDeque::new();
        if id < self.subscribers.len() {
            if let Some(subscriber) = &mut self.subscribers[id] {
                changes.append(&mut subscriber.changes);
            }
        }
        proof {
            if before.view().contains_key(id) {
                assert(changes@ =~= before.view()[id].changes);
                assert(self.view() =~= before.view().insert(
                    id,
                    SubscriberView { changes: Seq::empty(), ..before.view()[id] },
                ));
            } else {
                assert(changes@ =~= Seq::empty());
                assert(self.view() =~= before.view());
            }
            self.lemma_kept(before, Set::empty());
            assert forall|i: int| 0 <= i < self.free_subscriber_slots@.len() implies (
            #[trigger] self.free_subscriber_slots@[i]) < self.subscribers@.len()
                && self.subscribers@[self.free_subscriber_slots@[i] as int] is None by {
                assert(before.free_subscriber_slots@[i] == self.free_subscriber_slots@[i]);
            }
        }
        changes
    }

    /// Ends a subscription. Its number may be given to another one later.
    pub fn unsubscribe(&mut self, id: usize)
        requires
            old(self).wf(),
        ensures
            final(self).wf(),
            final(self)@ == old(self)@.remove(id),
            final(self).registry() == old(self).registry(),
    {
        let ghost before = *self;
        if id < self.subscribers.len() {
            let taken = self.subscribers[id].take();
            if let Some(subscriber) = taken {
                assert(before.view().contains_key(id));
                let ghost pattern = before.view()[id].pattern;
                self.subscription_index.remove(id, &subscriber.pattern);
                proof {
                    assert forall|i: int| 0 <= i < before.free_subscriber_slots@.len() implies (
                    #[trigger] before.free_subscriber_slots@[i]) != id by {}
                    assert(!before.free_subscriber_slots@.contains(id));
                }
                self.free_subscriber_slots.push(id);
                proof {
                    assert(self.view() =~= before.view().remove(id));
                    self.lemma_kept(before, set![id]);
                    assert forall|i: int| 0 <= i < self.free_subscriber_slots@.len() implies (
                    #[trigger] self.free_subscriber_slots@[i]) < self.subscribers@.len()
                        && self.subscribers@[self.free_subscriber_slots@[i] as int] is None by {
                        if i < before.free_subscriber_slots@.len() {
                            assert(before.free_subscriber_slots@[i]
                                == self.free_subscriber_slots@[i]);
                        }
                    }
                }
                return;
            }
            assert(self.subscribers@ =~= before.subscribers@);
        }
        assert(self.view() =~= before.view());
        assert(before.view() =~= before.view().remove(id));
    }
}

impl IncrementalState {
    /// Changing only notifiers changes nothing else.
    proof fn lemma_same_subscribers(&self, before: Self)
        requires
            before.wf(),
            self.subscribers == before.subscribers,
            self.free_subscriber_slots == before.free_subscriber_slots,
            self.subscription_index == before.subscription_index,
        ensures
            self.wf(),
            self.view() == before.view(),
    {
        assert(self.view() =~= before.view());
        assert(self.index_agrees()) by {
            assert(before.index_agrees());
        }
    }

    /// Adds the notifier of a query; it is known by the number that is returned.
    pub fn register_notifier(&mut self) -> (id: usize)
        requires
            old(self).wf(),
        ensures
            final(self).wf(),
            final(self)@ == old(self)@,
            id == old(self).registry().len(),
            final(self).registry().len() == id + 1,
            final(self).registry().drop_last() == old(self).registry(),
            final(self).registry()[id as int] matches Some(notifier) && notifier.changes() == 0
                && notifier.waiting() is None,
    {
        let id = self.notifiers.register();
        proof {
            self.lemma_same_subscribers(*old(self));
        }
        id
    }

    /// Drops the notifier of a query.
    pub fn drop_notifier(&mut self, id: usize)
        requires
            old(self).wf(),
        ensures
            final(self).wf(),
            final(self)@ == old(self)@,
            final(self).registry() == if id < old(self).registry().len() {
                old(self).registry().update(id as int, None)
            } else {
                old(self).registry()
            },
    {
        let dropped = self.notifiers.take(id);
        proof {
            self.lemma_same_subscribers(*old(self));
            if dropped is None && id < old(self).registry().len() {
                assert(self.registry() =~= old(self).registry().update(id as int, None));
            }
        }
    }

    /// The number of changes that a notifier has observed, modulo 2^64.
    pub fn generation(&self, id: usize) -> (generation: Option<u64>)
        ensures
            match generation {
                Some(generation) => id < self.registry().len() && self.registry()[id as int] is Some
                    && generation == self.registry()[id as int]->0.changes(),
                None => !(id < self.registry().len() && self.registry()[id as int] is Some),
            },
    {
        match self.notifiers.get(id) {
            Some(notifier) => Some(notifier.generation()),
            None => None,
        }
    }

    /// Makes the next change wake a task.
    pub fn register_waker(&mut self, id: usize, waker: &Waker)
        requires
            old(self).wf(),
        ensures
            final(self).wf(),
            final(self)@ == old(self)@,
            only_at(old(self).registry(), final(self).registry(), id),
            id < old(self).registry().len() && old(self).registry()[id as int] is Some ==> {
                &&& final(self).registry()[id as int]->0.changes()
                    == old(self).registry()[id as int]->0.changes()
                &&& final(self).registry()[id as int]->0.waiting() == Some(*waker)
            },
    {
        if let Some(mut notifier) = self.notifiers.take(id) {
            notifier.register_waker(waker);
            self.notifiers.restore(id, notifier);
        }
        proof {
            self.lemma_same_subscribers(*old(self));
        }
    }

    /// Polls the wait for a change that a notifier is to observe. A notifier that was
    /// dropped observes none.
    pub fn poll_change(
        &mut self,
        id: usize,
        future: &mut NotifierChangeFuture,
        token: &mut CancellationToken,
        waker: &Waker,
    ) -> (poll: Option<ChangePoll>)
        requires
            old(self).wf(),
        ensures
            final(self).wf(),
            final(self)@ == old(self)@,
            only_at(old(self).registry(), final(self).registry(), id),
            match poll {
                Some(poll) => {
                    &&& id < old(self).registry().len()
                    &&& old(self).registry()[id as int] is Some
                    &&& waits(
                        *old(future),
                        *final(future),
                        old(self).registry()[id as int]->0,
                        final(self).registry()[id as int]->0,
                        *old(token),
                        *final(token),
                        *waker,
                        poll,
                    )
                },
                None => {
                    &&& !(id < old(self).registry().len() && old(self).registry()[id as int] is Some)
                    &&& *final(future) == *old(future)
                    &&& *final(token) == *old(token)
                },
            },
    {
        let poll = match self.notifiers.take(id) {
            Some(mut notifier) => {
                let poll = future.poll(&mut notifier, token, waker);
                self.notifiers.restore(id, notifier);
                Some(poll)
            },
            None => None,
        };
        proof {
            self.lemma_same_subscribers(*old(self));
        }
        poll
    }

    /// Ends the wait for a change: no task is woken on its behalf any more.
    pub fn close_wait(
        &mut self,
        id: usize,
        future: &mut NotifierChangeFuture,
        token: &mut CancellationToken,
    )
        requires
            old(self).wf(),
        ensures
            final(self).wf(),
            final(self)@ == old(self)@,
            only_at(old(self).registry(), final(self).registry(), id),
            if id < old(self).registry().len() && old(self).registry()[id as int] is Some {
                waits_no_more(
                    *old(future),
                    *final(future),
                    old(self).registry()[id as int]->0,
                    final(self).registry()[id as int]->0,
                    *old(token),
                    *final(token),
                )
            } else {
                *final(future) == *old(future) && *final(token) == *old(token)
            },
    {
        if let Some(mut notifier) = self.notifiers.take(id) {
            future.close(&mut notifier, token);
            self.notifiers.restore(id, notifier);
        }
        proof {
            self.lemma_same_subscribers(*old(self));
        }
    }

    /// Notifies the notifiers with the given numbers. The tasks to wake are handed out.
    pub fn notify(&mut self, ids: &Vec<usize>) -> (wakers: Vec<Waker>)
        requires
            old(self).wf(),
            ids@.no_duplicates(),
        ensures
            final(self).wf(),
            final(self)@ == old(self)@,
            all_notified(old(self).registry(), final(self).registry(), ids@),
            wakers@ == filter_map(ids@, waiting_at(old(self).registry())),
    {
        let wakers = notify_incremental_changes(ids, &mut self.notifiers);
        proof {
            self.lemma_same_subscribers(*old(self));
        }
        wakers
    }
}

/// Whether the notifiers differ at most in the one with the given number, and none of
/// them was dropped.
pub open spec fn only_at(
    before: Seq<Option<IncrementalQueryNotifier>>,
    after: Seq<Option<IncrementalQueryNotifier>>,
    id: usize,
) -> bool {
    &&& after.len() == before.len()
    &&& forall|other: int|
        #![trigger after[other]]
        0 <= other < after.len() ==> if other == id {
            after[other] is Some <==> before[other] is Some
        } else {
            after[other] == before[other]
        }
}

proof fn lemma_contains_push(items: Seq<usize>, item: usize, other: usize)
    ensures
        items.push(item).contains(other) <==> items.contains(other) || other == item,
{
    let more = items.push(item);
    if items.contains(other) {
        let i = choose|i: int| 0 <= i < items.len() && items[i] == other;
        assert(more[i] == other);
    }
    if more.contains(other) {
        let i = choose|i: int| 0 <= i < more.len() && more[i] == other;
        if i < items.len() {
            assert(items[i] == other);
        }
    }
    assert(more[items.len() as int] == item);
}

/// Every subscriber that a change concerns hears of it, and nobody else does.
pub proof fn law_heard_exactly(
    pattern: IncrementalQuadPattern,
    changes: Seq<Delta<EncodedQuad>>,
    change: Delta<EncodedQuad>,
)
    ensures
        heard(pattern, changes).contains(change) <==> changes.contains(change) && watches(
            pattern,
            change.value_of(),
        ),
{
    crate::bag::lemma_filter_map_contains(changes, hears(pattern), change);
    if heard(pattern, changes).contains(change) {
        let i = choose|i: int|
            0 <= i < changes.len() && hears(pattern)(#[trigger] changes[i]) == Some(change);
        assert(changes[i] == change);
    }
    if changes.contains(change) && watches(pattern, change.value_of()) {
        let i = choose|i: int| 0 <= i < changes.len() && changes[i] == change;
        assert(hears(pattern)(changes[i]) == Some(change));
    }
}

/// A subscription hears of a change exactly where it watches the quad of the change, and of
/// all such changes, in their order.
pub proof fn law_watched_changes_are_heard(
    pattern: IncrementalQuadPattern,
    first: Seq<Delta<EncodedQuad>>,
    then: Seq<Delta<EncodedQuad>>,
    change: Delta<EncodedQuad>,
)
    ensures
        heard(pattern, first + then) == heard(pattern, first) + heard(pattern, then),
        watches(pattern, change.value_of()) ==> heard(pattern, seq![change]) == seq![change],
        !watches(pattern, change.value_of()) ==> heard(pattern, seq![change]).len() == 0,
        heard(pattern, Seq::empty()).len() == 0,
    decreases then.len(),
{
    let f = hears(pattern);
    assert(seq![change].drop_last() =~= Seq::<Delta<EncodedQuad>>::empty());
    assert(filter_map(seq![change].drop_last(), f) =~= Seq::empty());
    if watches(pattern, change.value_of()) {
        assert(heard(pattern, seq![change]) =~= seq![change]);
    }
    if then.len() == 0 {
        assert(first + then =~= first);
        assert(heard(pattern, then) =~= Seq::empty());
    } else {
        law_watched_changes_are_heard(pattern, first, then.drop_last(), change);
        assert((first + then).drop_last() =~= first + then.drop_last());
    }
    assert(heard(pattern, first + then) =~= heard(pattern, first) + heard(pattern, then));
}

/// Changes are queued for every subscriber behind those that wait for it, as far as it hears
/// of them; nothing else about the subscribers changes.
pub proof fn law_changes_are_queued_for_every_subscriber(
    subscribers: Map<usize, SubscriberView>,
    changes: Seq<Delta<EncodedQuad>>,
    id: usize,
)
    ensures
        queued(subscribers, changes).contains_key(id) <==> subscribers.contains_key(id),
        subscribers.contains_key(id) ==> {
            &&& queued(subscribers, changes)[id].changes == subscribers[id].changes + heard(
                subscribers[id].pattern,
                changes,
            )
            &&& queued(subscribers, changes)[id].pattern == subscribers[id].pattern
            &&& queued(subscribers, changes)[id].notifier == subscribers[id].notifier
        },
{
}

/// A query is notified exactly where one of its subscribers watches the quad of one of the
/// changes.
pub proof fn law_queries_are_notified_of_watched_changes(
    subscribers: Map<usize, SubscriberView>,
    changes: Seq<Delta<EncodedQuad>>,
    notifier: usize,
)
    ensures
        must_notify(subscribers, changes, notifier) <==> exists|id: usize, i: int|
            #![trigger subscribers.contains_key(id), changes[i]]
            subscribers.contains_key(id) && subscribers[id].notifier == notifier && 0 <= i
                < changes.len() && watches(subscribers[id].pattern, changes[i].value_of()),
{
    if must_notify(subscribers, changes, notifier) {
        let id = choose|id: usize| #[trigger]
            subscribers.contains_key(id) && subscribers[id].notifier == notifier && heard(
                subscribers[id].pattern,
                changes,
            ).len() > 0;
        let f = hears(subscribers[id].pattern);
        let change = heard(subscribers[id].pattern, changes)[0];
        assert(heard(subscribers[id].pattern, changes).contains(change));
        lemma_filter_map_contains(changes, f, change);
        let i = choose|i: int| 0 <= i < changes.len() && f(#[trigger] changes[i]) == Some(change);
        assert(watches(subscribers[id].pattern, changes[i].value_of()));
    }
    if exists|id: usize, i: int|
        #![trigger subscribers.contains_key(id), changes[i]]
        subscribers.contains_key(id) && subscribers[id].notifier == notifier && 0 <= i
            < changes.len() && watches(subscribers[id].pattern, changes[i].value_of()) {
        let (id, i) = choose|id: usize, i: int|
            #![trigger subscribers.contains_key(id), changes[i]]
            subscribers.contains_key(id) && subscribers[id].notifier == notifier && 0 <= i
                < changes.len() && watches(subscribers[id].pattern, changes[i].value_of());
        let f = hears(subscribers[id].pattern);
        assert(f(changes[i]) == Some(changes[i]));
        lemma_filter_map_contains(changes, f, changes[i]);
        assert(heard(subscribers[id].pattern, changes).len() > 0);
    }
}

} // verus!
