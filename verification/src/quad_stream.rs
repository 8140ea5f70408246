//! The changes of the quads that a pattern of a query reads.

use crate::attachment::{all_sound, refilled, released};
use crate::bag::{filter_map, is, lemma_filter_map_same_bag, lemma_same_bag_transitive, same_bag};
use crate::delta::{Delta, StreamingItem};
use crate::error::QueryEvaluationError;
use crate::graphs::{
    as_it_is, each_once, if_named, lemma_each_once_same, lemma_same, lemma_same_transitive, merged,
    to_default_graph, DeduplicatingDefaultGraphIterator,
};
use crate::numeric_encoder::{EncodedQuad, EncodedTerm};
use crate::replay::{lemma_mapped_pause, lemma_mapped_step, mapped, step, Flow};
use crate::source::{internal_quad, InternalQuad, LiveQuadDeltaSource};
use crate::storage::Storage;
use crate::streams::{
    changes_left, in_order, led_to, lemma_in_order_none, lemma_in_order_transitive,
    lemma_on_course_transitive, lemma_same_failures, lemma_sought, on_course, proceeds,
    same_failures, same_subscriptions, sought, sought_as, Given, QuadItem,
    RoundRobinStreamingIterator,
};
use crate::table::{selects, QuadPattern};
use vstd::prelude::*;

verus! {

/// How the quads of the sources become the quads of a pattern.
#[derive(Clone, Copy, PartialEq, Eq, Structural, Debug)]
pub enum QuadShape {
    /// As they are.
    Plain,
    /// As quads of the default graph.
    DefaultGraph,
    /// As they are, without those of the default graph.
    NamedGraphs,
    /// As quads of the default graph, each once.
    MergedGraphs,
}

/// What a quad of a source becomes.
pub open spec fn reshaped(shape: QuadShape) -> spec_fn(InternalQuad) -> Option<InternalQuad> {
    match shape {
        QuadShape::Plain => as_it_is(),
        QuadShape::NamedGraphs => if_named(),
        QuadShape::DefaultGraph | QuadShape::MergedGraphs => to_default_graph(),
    }
}

/// What the quads of the sources become.
pub open spec fn shaped(shape: QuadShape, quads: Seq<InternalQuad>) -> Seq<InternalQuad> {
    match shape {
        QuadShape::MergedGraphs => each_once(filter_map(quads, reshaped(shape))),
        _ => filter_map(quads, reshaped(shape)),
    }
}

/// Whether all quads of a pattern have the name of a graph.
pub open spec fn all_named(shape: QuadShape, sources: Seq<LiveQuadDeltaSource>) -> bool {
    match shape {
        QuadShape::NamedGraphs => true,
        QuadShape::Plain => forall|i: int|
            0 <= i < sources.len() ==> names_graph((#[trigger] sources[i]).pattern()),
        _ => false,
    }
}

/// Whether a pattern asks for a graph that has a name.
pub open spec fn names_graph(pattern: QuadPattern) -> bool {
    pattern.graph_name matches Some(name) && name != EncodedTerm::DefaultGraph
}

/// What a source hands out has the name of a graph, if its pattern has one.
proof fn lemma_named(sources: Seq<LiveQuadDeltaSource>, quad: InternalQuad)
    requires
        sought(sources, quad),
        all_named(QuadShape::Plain, sources),
    ensures
        quad.graph_name is Some,
{
    let (i, stored) = choose|i: int, stored: EncodedQuad|
        0 <= i < sources.len() && #[trigger] selects(sources[i].pattern(), stored) && quad
            == internal_quad(stored);
    assert(names_graph(sources[i].pattern()));
}

/// The same quads become the same quads.
pub proof fn lemma_shaped_same(shape: QuadShape, a: Seq<InternalQuad>, b: Seq<InternalQuad>)
    requires
        same_bag(a, b),
    ensures
        same_bag(shaped(shape, a), shaped(shape, b)),
{
    lemma_filter_map_same_bag(a, b, reshaped(shape));
    if shape == QuadShape::MergedGraphs {
        lemma_each_once_same(filter_map(a, reshaped(shape)), filter_map(b, reshaped(shape)));
    }
}

/// What an item tells of the changes that were taken from the sources for it: those whose
/// quads become no quad of the pattern are passed over, the first other one is handed out.
pub open spec fn reshaped_item(
    shape: QuadShape,
    old_given: Given,
    given: Given,
    item: QuadItem,
) -> bool {
    let f = reshaped(shape);
    &&& given.len() >= old_given.len()
    &&& given.take(old_given.len() as int) == old_given
    &&& forall|n: int|
        old_given.len() <= n < given.len() - 1 ==> mapped(f, (#[trigger] given[n]).1) is None
    &&& match item {
        Some(Ok(StreamingItem::Item(delta))) => given.len() > old_given.len() && mapped(
            f,
            given.last().1,
        ) == Some(delta),
        _ => given.len() > old_given.len() ==> mapped(f, given.last().1) is None,
    }
}

/// What an item tells of the changes that were taken from the sources for it.
pub open spec fn shaped_item(
    shape: QuadShape,
    old_given: Given,
    given: Given,
    item: QuadItem,
) -> bool {
    match shape {
        QuadShape::MergedGraphs => merged(old_given, given, item),
        _ => reshaped_item(shape, old_given, given, item),
    }
}

/// The quads of several sources, each changed by itself.
pub struct ReshapedQuads {
    inner: RoundRobinStreamingIterator,
    shape: QuadShape,
    held: Ghost<Seq<InternalQuad>>,
}

impl ReshapedQuads {
    pub closed spec fn wf(&self) -> bool {
        self.inner.wf() && self.shape != QuadShape::MergedGraphs
    }

    pub closed spec fn shape(&self) -> QuadShape {
        self.shape
    }

    pub closed spec fn sources(&self) -> Seq<LiveQuadDeltaSource> {
        self.inner.sources()
    }

    pub closed spec fn held(&self) -> Seq<InternalQuad> {
        self.held@
    }

    /// The changes that were taken from the sources so far.
    pub closed spec fn given(&self) -> Given {
        self.inner.given()
    }

    pub closed spec fn consistent(&self) -> bool {
        &&& self.inner.consistent()
        &&& same_bag(self.held@, filter_map(self.inner.held(), reshaped(self.shape)))
    }

    pub closed spec fn fuel(&self) -> nat {
        self.inner.fuel()
    }

    pub closed spec fn live(&self) -> bool {
        self.inner.live()
    }

    pub open spec fn flow(&self) -> Flow<InternalQuad> {
        Flow {
            held: self.held(),
            goal: shaped(self.shape(), led_to(self.sources())),
            sound: self.consistent() && all_sound(self.sources()),
            fuel: self.fuel(),
            live: self.live(),
        }
    }

    pub fn new(inner: RoundRobinStreamingIterator, shape: QuadShape) -> (quads: Self)
        requires
            inner.wf(),
            inner.held().len() == 0,
            shape != QuadShape::MergedGraphs,
        ensures
            quads.wf(),
            quads.shape() == shape,
            quads.sources() == inner.sources(),
            quads.given() == inner.given(),
            quads.held() == Seq::<InternalQuad>::empty(),
            inner.consistent() ==> quads.consistent(),
    {
        let quads = ReshapedQuads { inner, shape, held: Ghost(Seq::empty()) };
        assert(inner.held() =~= Seq::empty());
        assert(filter_map(inner.held(), reshaped(shape)) =~= Seq::empty());
        quads
    }

    /// What a quad of a source becomes.
    fn reshape(&self, quad: InternalQuad) -> (image: Option<InternalQuad>)
        requires
            self.wf(),
        ensures
            image == reshaped(self.shape)(quad),
    {
        match self.shape {
            QuadShape::Plain => Some(quad),
            QuadShape::DefaultGraph | QuadShape::MergedGraphs => Some(
                InternalQuad { graph_name: None, ..quad },
            ),
            QuadShape::NamedGraphs => if quad.graph_name.is_some() {
                Some(quad)
            } else {
                None
            },
        }
    }

    /// A stream is live where one of its sources has a subscription.
    pub proof fn lemma_live(&self)
        ensures
            self.live() == exists|i: int|
                0 <= i < self.sources().len() && (
                #[trigger] self.sources()[i]).subscription() is Some,
            self.fuel() == changes_left(self.sources()),
    {
        self.inner.lemma_live();
        self.inner.lemma_flow();
    }

    pub fn next(&mut self, alive: bool) -> (item: QuadItem)
        requires
            old(self).wf(),
        ensures
            final(self).wf(),
            final(self).shape() == old(self).shape(),
            proceeds(
                old(self).flow(),
                final(self).flow(),
                old(self).sources(),
                final(self).sources(),
                alive,
                false,
                item,
            ),
            reshaped_item(old(self).shape(), old(self).given(), final(self).given(), item),
            alive ==> in_order(
                old(self).sources(),
                final(self).sources(),
                old(self).given(),
                final(self).given(),
            ),
            old(self).flow().sound ==> (item matches Some(Ok(StreamingItem::Item(delta)))
                ==> sought_as(
                old(self).sources(),
                reshaped(old(self).shape()),
                delta.value_of(),
            )),
            old(self).flow().sound && all_named(old(self).shape(), old(self).sources()) ==> (
            item matches Some(Ok(StreamingItem::Item(delta)))
                ==> delta.value_of().graph_name is Some),
    {
        let ghost before = *self;
        let ghost f = reshaped(self.shape);
        proof {
            lemma_same(before.sources());
            lemma_in_order_none(before.sources(), before.given());
        }
        loop
            invariant
                self.wf(),
                before == *old(self),
                self.given().len() >= before.given().len(),
                self.given().take(before.given().len() as int) == before.given(),
                forall|n: int|
                    before.given().len() <= n < self.given().len() ==> mapped(
                        f,
                        (#[trigger] self.given()[n]).1,
                    ) is None,
                alive ==> in_order(
                    before.sources(),
                    self.sources(),
                    before.given(),
                    self.given(),
                ),
                self.shape == before.shape,
                f == reshaped(self.shape),
                same_subscriptions(before.sources(), self.sources()),
                on_course(before.sources(), self.sources()),
                same_failures(before.sources(), self.sources()),
                self.fuel() <= before.fuel(),
                self.live() == before.live(),
                self.held@ == before.held@,
                before.flow().sound ==> self.flow().sound && same_bag(
                    led_to(self.sources()),
                    led_to(before.sources()),
                ),
            decreases self.inner.fuel(),
        {
            let ghost current = *self;
            let item = self.inner.next(alive);
            proof {
                current.inner.lemma_flow();
                self.inner.lemma_flow();
                if alive {
                    lemma_in_order_transitive(
                        before.sources(),
                        current.sources(),
                        self.sources(),
                        before.given(),
                        current.given(),
                        self.given(),
                    );
                }
                assert(self.given().take(before.given().len() as int) =~= current.given().take(
                    before.given().len() as int,
                ));
                assert forall|n: int|
                    before.given().len() <= n < current.given().len() implies mapped(
                    f,
                    (#[trigger] self.given()[n]).1,
                ) is None by {
                    assert(self.given()[n] == current.given()[n]);
                }
                if self.given().len() > before.given().len() {
                    let last = self.given().len() - 1;
                    assert(self.given()[last] == self.given().last());
                }
                lemma_same_transitive(before.sources(), current.sources(), self.sources());
                lemma_on_course_transitive(before.sources(), current.sources(), self.sources());
                if before.flow().sound && !(item matches Some(Err(_))) {
                    lemma_same_bag_transitive(
                        led_to(self.sources()),
                        led_to(current.sources()),
                        led_to(before.sources()),
                    );
                    lemma_shaped_same(
                        self.shape,
                        led_to(self.sources()),
                        led_to(before.sources()),
                    );
                }
            }
            let delta = match item {
                None => {
                    proof {
                        if before.flow().sound {
                            lemma_mapped_pause(
                                self.inner.held(),
                                led_to(self.sources()),
                                self.held@,
                                f,
                            );
                        }
                    }
                    return None;
                },
                Some(Ok(StreamingItem::Pending)) => {
                    proof {
                        if before.flow().sound {
                            lemma_mapped_pause(
                                self.inner.held(),
                                led_to(self.sources()),
                                self.held@,
                                f,
                            );
                        }
                    }
                    return Some(Ok(StreamingItem::Pending));
                },
                Some(Err(error)) => {
                    proof {
                        if let QueryEvaluationError::Dataset(failure) = error {
                            lemma_same_failures(before.sources(), current.sources(), failure);
                        }
                    }
                    return Some(Err(error));
                },
                Some(Ok(StreamingItem::Item(delta))) => delta,
            };
            let ghost full = delta;
            let (kind, quad) = delta.into_parts();
            proof {
                if before.flow().sound {
                    lemma_mapped_step(current.inner.held(), current.held@, f, full);
                }
            }
            proof {
                if before.flow().sound && all_named(before.shape(), before.sources())
                    && self.shape == QuadShape::Plain {
                    assert forall|i: int| 0 <= i < current.sources().len() implies names_graph(
                        (#[trigger] current.sources()[i]).pattern(),
                    ) by {
                        assert(names_graph(before.sources()[i].pattern()));
                    }
                    lemma_named(current.sources(), quad);
                }
            }
            proof {
                if before.flow().sound {
                    lemma_sought(current.sources(), before.sources());
                    assert(sought(before.sources(), quad));
                }
            }
            if let Some(image) = self.reshape(quad) {
                let ghost change = Delta::made(kind, image);
                assert(mapped(f, full) == Some(change));
                self.held = Ghost(step(current.held@, change));
                return Some(Ok(StreamingItem::Item(Delta::with_kind(kind, image))));
            }
        }
    }

    pub fn refill(&mut self, storage: &mut Storage)
        requires
            old(self).wf(),
            old(storage).wf(),
        ensures
            final(self).wf(),
            final(self).shape() == old(self).shape(),
            final(self).held() == old(self).held(),
            final(self).given() == old(self).given(),
            old(self).consistent() ==> final(self).consistent(),
            refilled(old(self).sources(), final(self).sources(), *old(storage), *final(storage)),
    {
        self.inner.refill(storage);
    }

    pub fn close(self, storage: &mut Storage)
        requires
            old(storage).wf(),
        ensures
            released(self.sources(), *old(storage), *final(storage)),
    {
        self.inner.close(storage);
    }
}

/// The changes of the quads that a pattern of a query reads.
pub enum QuadDeltas {
    Reshaped(ReshapedQuads),
    Merged(DeduplicatingDefaultGraphIterator),
}

impl QuadDeltas {
    pub open spec fn wf(&self) -> bool {
        match self {
            QuadDeltas::Reshaped(quads) => quads.wf(),
            QuadDeltas::Merged(quads) => quads.wf(),
        }
    }

    pub open spec fn shape(&self) -> QuadShape {
        match self {
            QuadDeltas::Reshaped(quads) => quads.shape(),
            QuadDeltas::Merged(_) => QuadShape::MergedGraphs,
        }
    }

    pub open spec fn sources(&self) -> Seq<LiveQuadDeltaSource> {
        match self {
            QuadDeltas::Reshaped(quads) => quads.sources(),
            QuadDeltas::Merged(quads) => quads.sources(),
        }
    }

    pub open spec fn held(&self) -> Seq<InternalQuad> {
        match self {
            QuadDeltas::Reshaped(quads) => quads.held(),
            QuadDeltas::Merged(quads) => quads.held(),
        }
    }

    /// The changes that were taken from the sources so far.
    pub open spec fn given(&self) -> Given {
        match self {
            QuadDeltas::Reshaped(quads) => quads.given(),
            QuadDeltas::Merged(quads) => quads.given(),
        }
    }

    pub open spec fn consistent(&self) -> bool {
        match self {
            QuadDeltas::Reshaped(quads) => quads.consistent(),
            QuadDeltas::Merged(quads) => quads.consistent(),
        }
    }

    pub open spec fn fuel(&self) -> nat {
        match self {
            QuadDeltas::Reshaped(quads) => quads.fuel(),
            QuadDeltas::Merged(quads) => quads.flow().fuel,
        }
    }

    pub open spec fn live(&self) -> bool {
        match self {
            QuadDeltas::Reshaped(quads) => quads.live(),
            QuadDeltas::Merged(quads) => quads.flow().live,
        }
    }

    /// The quads that the sources lead to.
    pub open spec fn goal(&self) -> Seq<InternalQuad> {
        shaped(self.shape(), led_to(self.sources()))
    }

    pub open spec fn flow(&self) -> Flow<InternalQuad> {
        Flow {
            held: self.held(),
            goal: self.goal(),
            sound: self.consistent() && all_sound(self.sources()),
            fuel: self.fuel(),
            live: self.live(),
        }
    }

    /// A stream is live where one of its sources has a subscription.
    pub proof fn lemma_live(&self)
        ensures
            self.live() == exists|i: int|
                0 <= i < self.sources().len() && (
                #[trigger] self.sources()[i]).subscription() is Some,
            self.fuel() == changes_left(self.sources()),
    {
        match self {
            QuadDeltas::Reshaped(quads) => quads.lemma_live(),
            QuadDeltas::Merged(quads) => quads.lemma_flow(),
        }
    }

    /// The quads of several sources.
    pub fn new(sources: Vec<LiveQuadDeltaSource>, shape: QuadShape) -> (quads: Self)
        requires
            forall|i: int|
                0 <= i < sources@.len() ==> (#[trigger] sources@[i]).wf()
                    && sources@[i].held().len() == 0,
        ensures
            quads.wf(),
            quads.shape() == shape,
            quads.sources() == sources@,
            quads.given() == Given::empty(),
            quads.held() == Seq::<InternalQuad>::empty(),
            quads.consistent(),
    {
        let inner = RoundRobinStreamingIterator::new(sources);
        match shape {
            QuadShape::MergedGraphs => QuadDeltas::Merged(
                DeduplicatingDefaultGraphIterator::new(inner),
            ),
            _ => QuadDeltas::Reshaped(ReshapedQuads::new(inner, shape)),
        }
    }

    /// The next change. `alive` tells whether the query was not cancelled.
    pub fn next(&mut self, alive: bool) -> (item: QuadItem)
        requires
            old(self).wf(),
        ensures
            final(self).wf(),
            final(self).shape() == old(self).shape(),
            proceeds(
                old(self).flow(),
                final(self).flow(),
                old(self).sources(),
                final(self).sources(),
                alive,
                false,
                item,
            ),
            shaped_item(old(self).shape(), old(self).given(), final(self).given(), item),
            alive ==> in_order(
                old(self).sources(),
                final(self).sources(),
                old(self).given(),
                final(self).given(),
            ),
            old(self).flow().sound ==> (item matches Some(Ok(StreamingItem::Item(delta)))
                ==> sought_as(
                old(self).sources(),
                reshaped(old(self).shape()),
                delta.value_of(),
            )),
            old(self).flow().sound && all_named(old(self).shape(), old(self).sources()) ==> (
            item matches Some(Ok(StreamingItem::Item(delta)))
                ==> delta.value_of().graph_name is Some),
    {
        match self {
            QuadDeltas::Reshaped(quads) => quads.next(alive),
            QuadDeltas::Merged(quads) => {
                let ghost before = *quads;
                let item = quads.next(alive);
                proof {
                    before.lemma_flow();
                    quads.lemma_flow();
                }
                item
            },
        }
    }

    /// Takes over the changes that wait for the sources.
    pub fn refill(&mut self, storage: &mut Storage)
        requires
            old(self).wf(),
            old(storage).wf(),
        ensures
            final(self).wf(),
            final(self).shape() == old(self).shape(),
            final(self).held() == old(self).held(),
            final(self).given() == old(self).given(),
            old(self).consistent() ==> final(self).consistent(),
            refilled(old(self).sources(), final(self).sources(), *old(storage), *final(storage)),
    {
        match self {
            QuadDeltas::Reshaped(quads) => quads.refill(storage),
            QuadDeltas::Merged(quads) => quads.refill(storage),
        }
    }

    /// Ends the subscriptions of the sources.
    pub fn close(self, storage: &mut Storage)
        requires
            old(storage).wf(),
        ensures
            released(self.sources(), *old(storage), *final(storage)),
    {
        match self {
            QuadDeltas::Reshaped(quads) => quads.close(storage),
            QuadDeltas::Merged(quads) => quads.close(storage),
        }
    }
}

} // verus!
