//! The quads that a query reads, as the dataset specification of the query has it.

use crate::attachment::{all_sound, refilled, released};
use crate::bag::{
    count, filter_map, is, lemma_count, lemma_filter_map_same_bag, lemma_same_bag_transitive,
    lemma_weight_push, same_bag,
};
use crate::delta::{Delta, StreamingItem};
use crate::error::{non_existing_tuple_deleted, QueryEvaluationError};
use crate::fx::FxMap;
use crate::replay::{
    applies, flows, lemma_mapped_applies, lemma_mapped_count, lemma_step_count, mapped, signed,
    step, Flow,
};
use crate::source::{InternalQuad, LiveQuadDeltaSource};
use crate::storage::Storage;
use crate::streams::{
    answers, changes_left, in_order, is_pause, led_to, lemma_in_order_none,
    lemma_in_order_transitive, lemma_on_course_transitive, lemma_same_failures, lemma_sought,
    none_failing, on_course, same_failures, same_subscriptions, sought, sought_as, Given, QuadItem,
    RoundRobinStreamingIterator,
};
use crate::tally::Tally;
use vstd::prelude::*;

verus! {

/// A quad, as one of the default graph.
pub open spec fn in_default_graph(quad: InternalQuad) -> InternalQuad {
    InternalQuad { graph_name: None, ..quad }
}

pub open spec fn to_default_graph() -> spec_fn(InternalQuad) -> Option<InternalQuad> {
    |quad: InternalQuad| Some(in_default_graph(quad))
}

pub open spec fn as_it_is() -> spec_fn(InternalQuad) -> Option<InternalQuad> {
    |quad: InternalQuad| Some(quad)
}

pub open spec fn if_named() -> spec_fn(InternalQuad) -> Option<InternalQuad> {
    |quad: InternalQuad|
        if quad.graph_name is Some {
            Some(quad)
        } else {
            None
        }
}

/// The items of a sequence, each once.
pub open spec fn each_once<T>(items: Seq<T>) -> Seq<T>
    decreases items.len(),
{
    if items.len() == 0 {
        Seq::empty()
    } else {
        let front = each_once(items.drop_last());
        if front.contains(items.last()) {
            front
        } else {
            front.push(items.last())
        }
    }
}

/// Whether an item occurs, as a number.
pub open spec fn once(times: int) -> int {
    if times > 0 {
        1
    } else {
        0
    }
}

pub proof fn lemma_each_once<T>(items: Seq<T>, item: T)
    ensures
        count(each_once(items), item) == once(count(items, item)),
    decreases items.len(),
{
    if items.len() > 0 {
        let front = each_once(items.drop_last());
        let last = items.last();
        lemma_each_once(items.drop_last(), item);
        lemma_each_once(items.drop_last(), last);
        lemma_count(items.drop_last(), item);
        lemma_count(items.drop_last(), last);
        lemma_count(front, last);
        if !front.contains(last) {
            lemma_weight_push(front, last, is(item));
        }
    }
}

/// The change that was handed out last, as one of the default graph.
pub open spec fn last_copy(given: Given) -> Delta<InternalQuad> {
    Delta::made(
        given.last().1.kind_of(),
        in_default_graph(given.last().1.value_of()),
    )
}

/// How many copies of a quad there are after changes. A deletion is accepted only where there
/// is a copy.
pub open spec fn copies(given: Given, quad: InternalQuad) -> nat
    decreases given.len(),
{
    if given.len() == 0 {
        0
    } else {
        let before = copies(given.drop_last(), quad);
        if last_copy(given).value_of() != quad {
            before
        } else {
            match last_copy(given) {
                Delta::Addition(_) => before + 1,
                Delta::Deletion(_) => if before > 0 {
                    (before - 1) as nat
                } else {
                    0
                },
            }
        }
    }
}

/// Whether the last change is a deletion of a quad of which there is no copy.
pub open spec fn refused(given: Given) -> bool {
    last_copy(given) matches Delta::Deletion(quad) && copies(given.drop_last(), quad) == 0
}

/// Whether the last change makes the first copy of a quad or takes the last one away.
pub open spec fn decisive(given: Given) -> bool {
    match last_copy(given) {
        Delta::Addition(quad) => copies(given.drop_last(), quad) == 0,
        Delta::Deletion(quad) => copies(given.drop_last(), quad) == 1,
    }
}

/// What an item of the merged graphs tells of the changes that were taken from the graphs for
/// it: changes that leave a copy are passed over, the first other one is handed out, or is
/// an error if it deletes a quad of which there is no copy.
pub open spec fn merged(old_given: Given, given: Given, item: QuadItem) -> bool {
    &&& given.len() >= old_given.len()
    &&& given.take(old_given.len() as int) == old_given
    &&& forall|n: int|
        old_given.len() < n < given.len() ==> !decisive(#[trigger] given.take(n)) && !refused(
            given.take(n),
        )
    &&& match item {
        Some(Ok(StreamingItem::Item(delta))) => given.len() > old_given.len() && decisive(given)
            && delta == last_copy(given),
        Some(Err(error)) => if given.len() > old_given.len() && refused(given) {
            error == QueryEvaluationError::NonExistingTupleDeleted
        } else {
            given.len() > old_given.len() ==> !decisive(given)
        },
        _ => given.len() > old_given.len() ==> !decisive(given) && !refused(given),
    }
}

/// Turns a union of RDF graphs into an RDF graph by retaining one copy of each triple.
pub struct DeduplicatingDefaultGraphIterator {
    inner: RoundRobinStreamingIterator,
    counts: FxMap<InternalQuad, Tally>,
    held: Ghost<Seq<InternalQuad>>,
}

impl DeduplicatingDefaultGraphIterator {
    pub closed spec fn wf(&self) -> bool {
        &&& self.inner.wf()
        &&& self.counts.wf()
        &&& forall|quad: InternalQuad| #[trigger]
            self.counts@.contains_key(quad) ==> self.counts@[quad]@ > 0
        &&& forall|quad: InternalQuad| #[trigger]
            self.copies_counted(quad) == copies(self.given(), quad)
    }

    /// The changes that were taken from the graphs so far.
    pub closed spec fn given(&self) -> Given {
        self.inner.given()
    }

    /// How many copies of a quad are counted.
    pub closed spec fn copies_counted(&self, quad: InternalQuad) -> nat {
        if self.counts@.contains_key(quad) {
            self.counts@[quad]@
        } else {
            0
        }
    }

    pub closed spec fn sources(&self) -> Seq<LiveQuadDeltaSource> {
        self.inner.sources()
    }

    pub closed spec fn held(&self) -> Seq<InternalQuad> {
        self.held@
    }

    /// What the graphs have handed out, as quads of one graph.
    closed spec fn copies(&self) -> Seq<InternalQuad> {
        filter_map(self.inner.held(), to_default_graph())
    }

    /// Whether the copies are counted, and the consumer holds one of each.
    pub closed spec fn consistent(&self) -> bool {
        &&& self.inner.consistent()
        &&& self.counted()
    }

    closed spec fn counted(&self) -> bool {
        &&& forall|quad: InternalQuad| #[trigger]
            self.counts@.contains_key(quad) <==> count(self.copies(), quad) > 0
        &&& forall|quad: InternalQuad| #[trigger]
            self.counts@.contains_key(quad) ==> self.counts@[quad]@ == count(self.copies(), quad)
        &&& forall|quad: InternalQuad| #[trigger]
            count(self.held@, quad) == once(count(self.copies(), quad))
    }

    pub closed spec fn flow(&self) -> Flow<InternalQuad> {
        Flow {
            held: self.held@,
            goal: each_once(filter_map(self.inner.flow().goal, to_default_graph())),
            sound: self.inner.sound() && self.counted(),
            fuel: self.inner.fuel(),
            live: self.inner.live(),
        }
    }

    pub proof fn lemma_flow(&self)
        ensures
            self.flow().held == self.held(),
            self.flow().goal == each_once(filter_map(led_to(self.sources()), to_default_graph())),
            self.flow().sound == (self.consistent() && all_sound(self.sources())),
            self.flow().live == exists|i: int|
                0 <= i < self.sources().len() && (
                #[trigger] self.sources()[i]).subscription() is Some,
            self.flow().fuel == changes_left(self.sources()),
    {
        self.inner.lemma_sound();
        self.inner.lemma_flow();
        self.inner.lemma_live();
    }

    pub fn new(inner: RoundRobinStreamingIterator) -> (iterator: Self)
        requires
            inner.wf(),
            inner.held().len() == 0,
            inner.given().len() == 0,
        ensures
            iterator.wf(),
            iterator.given() == Given::empty(),
            iterator.sources() == inner.sources(),
            iterator.held() == Seq::<InternalQuad>::empty(),
            inner.consistent() ==> iterator.consistent(),
    {
        let iterator = DeduplicatingDefaultGraphIterator {
            inner,
            counts: FxMap::new(),
            held: Ghost(Seq::empty()),
        };
        assert(inner.held() =~= Seq::empty());
        assert(iterator.copies() =~= Seq::empty());
        assert(iterator.given() =~= Given::empty());
        iterator
    }

    pub fn next(&mut self, alive: bool) -> (item: QuadItem)
        requires
            old(self).wf(),
        ensures
            final(self).wf(),
            same_subscriptions(old(self).sources(), final(self).sources()),
            on_course(old(self).sources(), final(self).sources()),
            flows(old(self).flow(), final(self).flow(), item),
            merged(old(self).given(), final(self).given(), item),
            forall|quad: InternalQuad| #[trigger]
                final(self).copies_counted(quad) == copies(final(self).given(), quad),
            alive ==> in_order(
                old(self).sources(),
                final(self).sources(),
                old(self).given(),
                final(self).given(),
            ),
            answers(old(self).sources(), old(self).flow().sound, alive, false, item),
            old(self).flow().sound ==> (item matches Some(Ok(StreamingItem::Item(delta)))
                ==> sought_as(old(self).sources(), to_default_graph(), delta.value_of())),
            !(item matches Some(Err(_))) ==> same_failures(
                old(self).sources(),
                final(self).sources(),
            ),
            is_pause(item) ==> none_failing(final(self).sources()),
    {
        let ghost before = *self;
        proof {
            lemma_same(before.sources());
            lemma_in_order_none(before.sources(), before.given());
        }
        loop
            invariant
                self.wf(),
                before == *old(self),
                self.given().len() >= before.given().len(),
                self.given().take(before.given().len() as int) == before.given(),
                forall|n: int|
                    before.given().len() < n <= self.given().len() ==> !decisive(
                        #[trigger] self.given().take(n),
                    ) && !refused(self.given().take(n)),
                alive ==> in_order(
                    before.sources(),
                    self.sources(),
                    before.given(),
                    self.given(),
                ),
                same_subscriptions(before.sources(), self.sources()),
                on_course(before.sources(), self.sources()),
                same_failures(before.sources(), self.sources()),
                self.flow().fuel <= before.flow().fuel,
                self.flow().live == before.flow().live,
                self.held@ == before.held@,
                before.flow().sound ==> self.flow().sound && same_bag(self.inner.flow().goal, before.inner.flow().goal),
            decreases self.inner.fuel(),
        {
            let ghost current = *self;
            let item = self.inner.next(alive);
            let ghost inner_before = current.inner.flow();
            let ghost inner_after = self.inner.flow();
            proof {
                current.inner.lemma_flow();
                self.inner.lemma_flow();
                if alive {
                    lemma_in_order_transitive(
                        before.sources(),
                        current.sources(),
                        self.sources(),
                        before.given(),
                        current.given(),
                        self.given(),
                    );
                }
                if !(item matches Some(Ok(StreamingItem::Item(_)))) {
                    self.lemma_same_copies(current);
                }
                assert(self.given().take(self.given().len() as int) =~= self.given());
                assert(self.given().take(before.given().len() as int) =~= current.given().take(
                    before.given().len() as int,
                ));
                assert forall|n: int|
                    before.given().len() < n <= current.given().len() implies !decisive(
                    #[trigger] self.given().take(n),
                ) && !refused(self.given().take(n)) by {
                    assert(self.given().take(n) =~= current.given().take(n));
                }
                lemma_same_transitive(
                    before.sources(),
                    current.sources(),
                    self.sources(),
                );
                lemma_on_course_transitive(
                    before.sources(),
                    current.sources(),
                    self.sources(),
                );
                if before.flow().sound && !(item matches Some(Err(_))) {
                    crate::bag::lemma_same_bag_transitive(
                        inner_after.goal,
                        inner_before.goal,
                        before.inner.flow().goal,
                    );
                    lemma_goal_kept(*self, before);
                }
            }
            let delta = match item {
                None => {
                    proof {
                        if before.flow().sound {
                            self.lemma_pause(current);
                        }
                    }
                    return None;
                },
                Some(Ok(StreamingItem::Pending)) => {
                    proof {
                        if before.flow().sound {
                            self.lemma_pause(current);
                        }
                    }
                    return Some(Ok(StreamingItem::Pending));
                },
                Some(Err(error)) => {
                    proof {
                        if let QueryEvaluationError::Dataset(failure) = error {
                            lemma_same_failures(before.sources(), current.sources(), failure);
                        }
                    }
                    return Some(Err(error));
                },
                Some(Ok(StreamingItem::Item(delta))) => delta,
            };
            let ghost full = delta;
            let (kind, quad) = delta.into_parts();
            let quad = InternalQuad { graph_name: None, ..quad };
            let ghost image = Delta::made(full.kind_of(), quad);
            proof {
                assert(self.given().drop_last() =~= current.given());
                assert(last_copy(self.given()) == image);
                assert(current.copies_counted(quad) == copies(current.given(), quad));
                assert(mapped(to_default_graph(), full) == Some(image));
                if before.flow().sound {
                    assert forall|other: InternalQuad| #[trigger]
                        count(self.copies(), other) == count(current.copies(), other) + signed(
                            other,
                        )(image) by {
                        lemma_mapped_count(current.inner.held(), to_default_graph(), full, other);
                    }
                    lemma_mapped_applies(current.inner.held(), to_default_graph(), full);
                    lemma_count(current.copies(), quad);
                    lemma_sought(current.sources(), before.sources());
                    assert(sought(before.sources(), full.value_of()));
                }
            }
            match kind {
                crate::delta::DeltaKind::Addition => {
                    let (mut tally, is_new) = match self.counts.remove(&quad) {
                        Some(tally) => (tally, false),
                        None => (Tally::new(), true),
                    };
                    tally.add();
                    let ghost counted = tally;
                    let first = tally.count() == 1;
                    self.counts.insert(quad, tally);
                    assert(self.counts@ =~= current.counts@.insert(quad, counted));
                    if first {
                        self.held = Ghost(step(current.held@, image));
                        proof {
                            self.lemma_next_copy(current, quad);
                            if before.flow().sound {
                                self.lemma_stepped(current, image);
                            }
                        }
                        return Some(Ok(StreamingItem::Item(Delta::Addition(quad))));
                    }
                    proof {
                        self.lemma_next_copy(current, quad);
                        if before.flow().sound {
                            self.lemma_stayed(current, image);
                        }
                    }
                },
                crate::delta::DeltaKind::Deletion => {
                    match self.counts.remove(&quad) {
                        Some(mut tally) => {
                            if tally.count() > 1 {
                                tally.take();
                                let ghost counted = tally;
                                self.counts.insert(quad, tally);
                                assert(self.counts@ =~= current.counts@.insert(quad, counted));
                                proof {
                                    self.lemma_next_copy(current, quad);
                                    if before.flow().sound {
                                        self.lemma_stayed(current, image);
                                    }
                                }
                            } else {
                                self.held = Ghost(step(current.held@, image));
                                proof {
                                    assert(current.counts@.contains_key(quad));
                                    self.lemma_next_copy(current, quad);
                                    if before.flow().sound {
                                        assert(self.counts@ =~= current.counts@.remove(quad));
                                        self.lemma_stepped(current, image);
                                    }
                                }
                                return Some(Ok(StreamingItem::Item(Delta::Deletion(quad))));
                            }
                        },
                        None => {
                            proof {
                                self.lemma_next_copy(current, quad);
                            }
                            return Some(Err(non_existing_tuple_deleted()));
                        },
                    }
                },
            }
        }
    }

    /// Copies stay counted where nothing is taken from the graphs.
    proof fn lemma_same_copies(&self, before: Self)
        requires
            before.wf(),
            self.inner.wf(),
            self.counts == before.counts,
            self.given() == before.given(),
        ensures
            self.wf(),
    {
        assert forall|quad: InternalQuad| #[trigger]
            self.copies_counted(quad) == copies(self.given(), quad) by {
            assert(before.copies_counted(quad) == copies(before.given(), quad));
        }
    }

    /// Copies stay counted where one more change is taken from the graphs.
    proof fn lemma_next_copy(&self, before: Self, quad: InternalQuad)
        requires
            before.wf(),
            self.inner.wf(),
            self.counts.wf(),
            self.given().len() > 0,
            self.given().drop_last() == before.given(),
            last_copy(self.given()).value_of() == quad,
            forall|other: InternalQuad|
                other != quad ==> #[trigger] self.counts@.contains_key(other)
                    == before.counts@.contains_key(other) && self.counts@[other]
                    == before.counts@[other],
            self.counts@.contains_key(quad) ==> self.counts@[quad]@ > 0,
            self.copies_counted(quad) == match last_copy(self.given()) {
                Delta::Addition(_) => before.copies_counted(quad) + 1,
                Delta::Deletion(_) => if before.copies_counted(quad) > 0 {
                    (before.copies_counted(quad) - 1) as nat
                } else {
                    0
                },
            },
        ensures
            self.wf(),
    {
        assert forall|other: InternalQuad| #[trigger]
            self.copies_counted(other) == copies(self.given(), other) by {
            assert(before.copies_counted(other) == copies(before.given(), other));
            assert(other == quad || self.counts@.contains_key(other)
                == before.counts@.contains_key(other));
        }
        assert forall|other: InternalQuad| #[trigger]
            self.counts@.contains_key(other) implies self.counts@[other]@ > 0 by {
            if other != quad {
                assert(before.counts@.contains_key(other));
            }
        }
    }

    /// A change of the number of copies that makes or ends a quad.
    proof fn lemma_stepped(&self, before: Self, image: Delta<InternalQuad>)
        requires
            before.counted(),
            forall|other: InternalQuad| #[trigger]
                count(self.copies(), other) == count(before.copies(), other) + signed(other)(image),
            image matches Delta::Addition(quad) ==> count(before.copies(), quad) == 0
                && self.counts@.contains_key(quad) && self.counts@[quad]@ == 1 && self.counts@
                == before.counts@.insert(quad, self.counts@[quad]),
            image matches Delta::Deletion(quad) ==> count(before.copies(), quad) == 1
                && self.counts@ == before.counts@.remove(quad),
            self.held@ == step(before.held@, image),
        ensures
            self.counted(),
            applies(before.held@, image),
    {
        let quad = image.value_of();
        lemma_count(before.held@, quad);
        assert(count(before.held@, quad) == once(count(before.copies(), quad)));
        assert forall|other: InternalQuad| #[trigger]
            count(self.held@, other) == once(count(self.copies(), other)) by {
            lemma_step_count(before.held@, image, other);
            assert(count(before.held@, other) == once(count(before.copies(), other)));
            assert(count(self.copies(), other) == count(before.copies(), other) + signed(other)(
                image,
            ));
        }
        assert forall|other: InternalQuad| #[trigger]
            self.counts@.contains_key(other) <==> count(self.copies(), other) > 0 by {
            assert(before.counts@.contains_key(other) <==> count(before.copies(), other) > 0);
            assert(count(self.copies(), other) == count(before.copies(), other) + signed(other)(
                image,
            ));
        }
        assert forall|other: InternalQuad| #[trigger]
            self.counts@.contains_key(other) implies self.counts@[other]@ == count(
            self.copies(),
            other,
        ) by {
            assert(count(self.copies(), other) == count(before.copies(), other) + signed(other)(
                image,
            ));
            if other != quad {
                assert(before.counts@.contains_key(other));
            }
        }
    }

    /// A change of the number of copies that leaves at least one.
    proof fn lemma_stayed(&self, before: Self, image: Delta<InternalQuad>)
        requires
            before.counted(),
            forall|other: InternalQuad| #[trigger]
                count(self.copies(), other) == count(before.copies(), other) + signed(other)(image),
            count(before.copies(), image.value_of()) > 0,
            self.counts@.contains_key(image.value_of()),
            self.counts@ == before.counts@.insert(
                image.value_of(),
                self.counts@[image.value_of()],
            ),
            self.counts@[image.value_of()]@ == count(before.copies(), image.value_of()) + signed(
                image.value_of(),
            )(image),
            self.counts@[image.value_of()]@ > 0,
            self.held@ == before.held@,
        ensures
            self.counted(),
    {
        let quad = image.value_of();
        assert forall|other: InternalQuad| #[trigger]
            count(self.held@, other) == once(count(self.copies(), other)) by {
            assert(count(before.held@, other) == once(count(before.copies(), other)));
            assert(count(self.copies(), other) == count(before.copies(), other) + signed(other)(
                image,
            ));
        }
        assert forall|other: InternalQuad| #[trigger]
            self.counts@.contains_key(other) <==> count(self.copies(), other) > 0 by {
            assert(before.counts@.contains_key(other) <==> count(before.copies(), other) > 0);
            assert(count(self.copies(), other) == count(before.copies(), other) + signed(other)(
                image,
            ));
        }
        assert forall|other: InternalQuad| #[trigger]
            self.counts@.contains_key(other) implies self.counts@[other]@ == count(
            self.copies(),
            other,
        ) by {
            assert(count(self.copies(), other) == count(before.copies(), other) + signed(other)(
                image,
            ));
            if other != quad {
                assert(before.counts@.contains_key(other));
            }
        }
    }

    /// Graphs that have handed out everything have led to their goal.
    proof fn lemma_pause(&self, before: Self)
        requires
            before.counted(),
            self.counts == before.counts,
            self.held == before.held,
            self.inner.held() == before.inner.held(),
            same_bag(self.inner.flow().held, self.inner.flow().goal),
            self.inner.flow().held == self.inner.held(),
        ensures
            self.counted(),
            same_bag(self.held@, self.flow().goal),
    {
        let goal = self.inner.flow().goal;
        lemma_filter_map_same_bag(self.inner.held(), goal, to_default_graph());
        assert(self.counted());
        assert forall|quad: InternalQuad| #[trigger]
            count(self.held@, quad) == count(self.flow().goal, quad) by {
            lemma_each_once(filter_map(goal, to_default_graph()), quad);
            assert(count(self.copies(), quad) == count(
                filter_map(goal, to_default_graph()),
                quad,
            ));
        }
    }

    pub fn refill(&mut self, storage: &mut Storage)
        requires
            old(self).wf(),
            old(storage).wf(),
        ensures
            final(self).wf(),
            final(self).held() == old(self).held(),
            final(self).given() == old(self).given(),
            old(self).consistent() ==> final(self).consistent(),
            refilled(old(self).sources(), final(self).sources(), *old(storage), *final(storage)),
    {
        let ghost before = *self;
        self.inner.refill(storage);
        proof {
            self.lemma_same_copies(before);
            assert(self.copies() == before.copies());
            if before.consistent() {
                assert(self.counted());
            }
        }
    }

    pub fn close(self, storage: &mut Storage)
        requires
            old(storage).wf(),
        ensures
            released(self.sources(), *old(storage), *final(storage)),
    {
        self.inner.close(storage);
    }
}

proof fn lemma_goal_kept(
    after: DeduplicatingDefaultGraphIterator,
    before: DeduplicatingDefaultGraphIterator,
)
    requires
        same_bag(after.inner.flow().goal, before.inner.flow().goal),
    ensures
        same_bag(after.flow().goal, before.flow().goal),
{
    let a = filter_map(after.inner.flow().goal, to_default_graph());
    let b = filter_map(before.inner.flow().goal, to_default_graph());
    lemma_filter_map_same_bag(
        after.inner.flow().goal,
        before.inner.flow().goal,
        to_default_graph(),
    );
    lemma_each_once_same(a, b);
}

pub proof fn lemma_each_once_same<T>(a: Seq<T>, b: Seq<T>)
    requires
        same_bag(a, b),
    ensures
        same_bag(each_once(a), each_once(b)),
{
    assert forall|item: T| #[trigger] count(each_once(a), item) == count(each_once(b), item) by {
        lemma_each_once(a, item);
        lemma_each_once(b, item);
        assert(count(a, item) == count(b, item));
    }
}

pub proof fn lemma_same(sources: Seq<LiveQuadDeltaSource>)
    ensures
        same_subscriptions(sources, sources),
{
}

pub proof fn lemma_same_transitive(
    a: Seq<LiveQuadDeltaSource>,
    b: Seq<LiveQuadDeltaSource>,
    c: Seq<LiveQuadDeltaSource>,
)
    requires
        same_subscriptions(a, b),
        same_subscriptions(b, c),
    ensures
        same_subscriptions(a, c),
{
    assert forall|i: int| 0 <= i < c.len() implies (#[trigger] c[i]).subscription()
        == a[i].subscription() && c[i].pattern() == a[i].pattern() by {
        assert(b[i].subscription() == a[i].subscription());
    }
}

/// The items of a sequence, each once, are the items of the sequence, and none of them occurs
/// twice.
pub proof fn law_each_item_is_kept_once<T>(items: Seq<T>, item: T)
    ensures
        each_once(items).contains(item) <==> items.contains(item),
        each_once(items).no_duplicates(),
    decreases items.len(),
{
    lemma_each_once(items, item);
    lemma_count(items, item);
    lemma_count(each_once(items), item);
    if items.len() > 0 {
        law_each_item_is_kept_once(items.drop_last(), item);
    }
}

} // verus!
