//! Streams of changes of quads: several sources as one, and graphs as one graph.

use crate::attachment::{
    all_sound, lemma_refilled_add, lemma_refilled_none, lemma_refilled_one, lemma_released_next,
    refilled, released, same_events, waiting_for,
};
use crate::bag::{
    concat, count, filter_map, is, lemma_concat_update, lemma_concat_weight, lemma_count,
    lemma_filter_map_push, lemma_weight_at_least, lemma_weight_same, lemma_weight_update, same_bag,
    weight,
};
use crate::delta::{Delta, StreamingItem};
use crate::error::{QueryEvaluationError, StorageError};
use crate::numeric_encoder::EncodedQuad;
use crate::replay::{
    applies, flows, lemma_mapped_applies, lemma_mapped_count, lemma_played_first, lemma_step_count,
    mapped, played, step, Flow,
};
use crate::source::{internal_delta, internal_quad, InternalQuad, LiveQuadDeltaSource};
use crate::storage::Storage;
use crate::table::selects;
use vstd::prelude::*;

verus! {

/// An item of a stream of changes of quads.
pub type QuadItem = Option<Result<StreamingItem<Delta<InternalQuad>>, QueryEvaluationError>>;

/// A quad as queries see it, as a partial function.
pub open spec fn to_internal() -> spec_fn(EncodedQuad) -> Option<InternalQuad> {
    |quad: EncodedQuad| Some(internal_quad(quad))
}

/// Whether none of the sources is about to fail.
pub open spec fn none_failing(sources: Seq<LiveQuadDeltaSource>) -> bool {
    forall|i: int| 0 <= i < sources.len() ==> (#[trigger] sources[i]).failure() is None
}

/// Whether an item of a stream tells that there is nothing to hand out.
pub open spec fn is_pause<T>(
    item: Option<Result<StreamingItem<T>, QueryEvaluationError>>,
) -> bool {
    match item {
        Some(Ok(StreamingItem::Pending)) => true,
        None => true,
        _ => false,
    }
}

/// Whether one of the sources is about to fail in this way.
pub open spec fn failing(sources: Seq<LiveQuadDeltaSource>, failure: StorageError) -> bool {
    exists|i: int| 0 <= i < sources.len() && (#[trigger] sources[i]).failure() == Some(failure)
}

/// Why a stream of changes may fail: because the query was cancelled, because a source
/// failed, or because the changes could not be relied on. `graphs` tells whether the
/// stream asks for the names of graphs.
pub open spec fn explained(
    error: QueryEvaluationError,
    sources: Seq<LiveQuadDeltaSource>,
    sound: bool,
    alive: bool,
    graphs: bool,
) -> bool {
    match error {
        QueryEvaluationError::Cancelled => !alive,
        QueryEvaluationError::Dataset(failure) => alive && failing(sources, failure),
        QueryEvaluationError::NonExistingTupleDeleted => alive && !sound,
        QueryEvaluationError::UnexpectedDefaultGraph => alive && graphs,
        QueryEvaluationError::Unsupported(_) => false,
        QueryEvaluationError::NotExistingSubstitutedVariable(_) => false,
    }
}

/// Whether an item of a stream is one that may come: a stream that is in order and was not
/// cancelled does not fail, and a cancelled one brings nothing but an error or its end.
pub open spec fn answers<T>(
    sources: Seq<LiveQuadDeltaSource>,
    sound: bool,
    alive: bool,
    graphs: bool,
    item: Option<Result<StreamingItem<T>, QueryEvaluationError>>,
) -> bool {
    match item {
        Some(Ok(_)) => alive,
        Some(Err(error)) => explained(error, sources, sound, alive, graphs),
        None => true,
    }
}

/// Whether a quad is one that the pattern of a source selects.
pub open spec fn sought(sources: Seq<LiveQuadDeltaSource>, quad: InternalQuad) -> bool {
    exists|i: int, stored: EncodedQuad|
        0 <= i < sources.len() && #[trigger] selects(sources[i].pattern(), stored) && quad
            == internal_quad(stored)
}

/// What an item of a stream tells of the stream and its sources, before and after it.
pub open spec fn proceeds<T>(
    before: Flow<T>,
    after: Flow<T>,
    old_sources: Seq<LiveQuadDeltaSource>,
    new_sources: Seq<LiveQuadDeltaSource>,
    alive: bool,
    graphs: bool,
    item: Option<Result<StreamingItem<Delta<T>>, QueryEvaluationError>>,
) -> bool {
    &&& same_subscriptions(old_sources, new_sources)
    &&& on_course(old_sources, new_sources)
    &&& flows(before, after, item)
    &&& answers(old_sources, before.sound, alive, graphs, item)
    &&& !(item matches Some(Err(_))) ==> same_failures(old_sources, new_sources)
    &&& is_pause(item) ==> none_failing(new_sources)
}

/// Whether sources lead where they led, as far as they could be relied on.
pub open spec fn on_course(
    before: Seq<LiveQuadDeltaSource>,
    after: Seq<LiveQuadDeltaSource>,
) -> bool {
    &&& after.len() == before.len()
    &&& forall|i: int|
        0 <= i < before.len() ==> keeps_course(before[i], #[trigger] after[i])
}

/// Whether a source leads where it led, if it could be relied on.
pub open spec fn keeps_course(before: LiveQuadDeltaSource, after: LiveQuadDeltaSource) -> bool {
    before.sound() ==> {
        &&& after.sound()
        &&& played(after.held(), after.events()) == played(before.held(), before.events())
    }
}

pub proof fn lemma_on_course_transitive(
    a: Seq<LiveQuadDeltaSource>,
    b: Seq<LiveQuadDeltaSource>,
    c: Seq<LiveQuadDeltaSource>,
)
    requires
        on_course(a, b),
        on_course(b, c),
    ensures
        on_course(a, c),
{
    assert forall|i: int| 0 <= i < a.len() implies keeps_course(a[i], #[trigger] c[i]) by {
        assert(keeps_course(a[i], b[i]));
        assert(keeps_course(b[i], c[i]));
    }
}

/// Whether sources have failed where they had failed.
pub open spec fn same_failures(
    before: Seq<LiveQuadDeltaSource>,
    after: Seq<LiveQuadDeltaSource>,
) -> bool {
    &&& after.len() == before.len()
    &&& forall|i: int|
        0 <= i < before.len() ==> (#[trigger] after[i]).failure() == before[i].failure()
}

pub proof fn lemma_same_failures(
    before: Seq<LiveQuadDeltaSource>,
    after: Seq<LiveQuadDeltaSource>,
    failure: StorageError,
)
    requires
        same_failures(before, after),
    ensures
        failing(after, failure) ==> failing(before, failure),
{
    if failing(after, failure) {
        let i = choose|i: int|
            0 <= i < after.len() && (#[trigger] after[i]).failure() == Some(failure);
        assert(before[i].failure() == Some(failure));
    }
}

/// Whether a quad is what becomes of one that the pattern of a source selects.
pub open spec fn sought_as(
    sources: Seq<LiveQuadDeltaSource>,
    becomes: spec_fn(InternalQuad) -> Option<InternalQuad>,
    quad: InternalQuad,
) -> bool {
    exists|origin: InternalQuad| #[trigger]
        sought(sources, origin) && becomes(origin) == Some(quad)
}

/// What is sought depends on the patterns alone.
pub proof fn lemma_sought(before: Seq<LiveQuadDeltaSource>, after: Seq<LiveQuadDeltaSource>)
    requires
        after.len() == before.len(),
        forall|i: int|
            0 <= i < after.len() ==> (#[trigger] after[i]).pattern() == before[i].pattern(),
    ensures
        forall|quad: InternalQuad| #[trigger] sought(before, quad) ==> sought(after, quad),
{
    assert forall|quad: InternalQuad| #[trigger] sought(before, quad) implies sought(
        after,
        quad,
    ) by {
        let (i, stored) = choose|i: int, stored: EncodedQuad|
            0 <= i < before.len() && #[trigger] selects(before[i].pattern(), stored) && quad
                == internal_quad(stored);
        assert(selects(after[i].pattern(), stored));
    }
}

/// Sources that are in order have not failed.
pub proof fn lemma_sound_sources_do_not_fail(
    sources: Seq<LiveQuadDeltaSource>,
    failure: StorageError,
)
    requires
        all_sound(sources),
    ensures
        !failing(sources, failure),
{
    if failing(sources, failure) {
        let i = choose|i: int|
            0 <= i < sources.len() && (#[trigger] sources[i]).failure() == Some(failure);
        assert(sources[i].sound());
    }
}

/// A source of a stream, and whether it has ended.
pub struct SourceSlot {
    pub source: LiveQuadDeltaSource,
    pub done: bool,
}

impl SourceSlot {
    pub open spec fn wf(&self) -> bool {
        &&& self.source.wf()
        &&& self.done ==> self.source.events().len() == 0 && self.source.failure() is None
            && self.source.subscription() is None
    }

    /// What has been handed out, as queries see it.
    pub open spec fn handed_out(&self) -> Seq<InternalQuad> {
        filter_map(self.source.held(), to_internal())
    }

    /// What handing out everything leads to, as queries see it.
    pub open spec fn leads_to(&self) -> Seq<InternalQuad> {
        filter_map(played(self.source.held(), self.source.events()), to_internal())
    }
}

pub open spec fn slot_count(quad: InternalQuad) -> spec_fn(SourceSlot) -> int {
    |slot: SourceSlot| count(slot.handed_out(), quad)
}

pub open spec fn slot_fuel() -> spec_fn(SourceSlot) -> int {
    |slot: SourceSlot| slot.source.events().len() as int
}

pub open spec fn slot_goal() -> spec_fn(SourceSlot) -> Seq<InternalQuad> {
    |slot: SourceSlot| slot.leads_to()
}

/// What a source leads to, as queries see it.
pub open spec fn source_goal() -> spec_fn(LiveQuadDeltaSource) -> Seq<InternalQuad> {
    |source: LiveQuadDeltaSource|
        filter_map(played(source.held(), source.events()), to_internal())
}

/// What sources lead to together.
pub open spec fn led_to(sources: Seq<LiveQuadDeltaSource>) -> Seq<InternalQuad> {
    concat(sources, source_goal())
}

proof fn lemma_led_to(slots: Seq<SourceSlot>)
    ensures
        concat(slots, slot_goal()) == led_to(slots.map_values(|slot: SourceSlot| slot.source)),
    decreases slots.len(),
{
    let sources = slots.map_values(|slot: SourceSlot| slot.source);
    if slots.len() > 0 {
        lemma_led_to(slots.drop_last());
        assert(sources.drop_last() =~= slots.drop_last().map_values(
            |slot: SourceSlot| slot.source,
        ));
    }
}

/// How many changes a source has to hand out.
pub open spec fn source_left() -> spec_fn(LiveQuadDeltaSource) -> int {
    |source: LiveQuadDeltaSource| source.events().len() as int
}

/// How many changes sources have to hand out together.
pub open spec fn changes_left(sources: Seq<LiveQuadDeltaSource>) -> nat {
    weight(sources, source_left()) as nat
}

/// Sources with the same changes to hand out have as many of them.
pub proof fn lemma_same_left(before: Seq<LiveQuadDeltaSource>, after: Seq<LiveQuadDeltaSource>)
    requires
        same_events(before, after),
    ensures
        changes_left(after) == changes_left(before),
    decreases before.len(),
{
    if before.len() > 0 {
        let last = before.len() - 1;
        assert(after[last].events() == before[last].events());
        assert forall|i: int| 0 <= i < last implies (
        #[trigger] after.drop_last()[i]).events() == before.drop_last()[i].events() by {
            assert(after[i].events() == before[i].events());
        }
        lemma_same_left(before.drop_last(), after.drop_last());
        lemma_left(before.drop_last());
        lemma_left(after.drop_last());
    }
}

proof fn lemma_left(sources: Seq<LiveQuadDeltaSource>)
    ensures
        weight(sources, source_left()) >= 0,
    decreases sources.len(),
{
    if sources.len() > 0 {
        lemma_left(sources.drop_last());
    }
}

/// Sources without changes to hand out have none together.
proof fn lemma_none_left(sources: Seq<LiveQuadDeltaSource>)
    requires
        forall|i: int| 0 <= i < sources.len() ==> (#[trigger] sources[i]).events().len() == 0,
    ensures
        changes_left(sources) == 0,
    decreases sources.len(),
{
    if sources.len() > 0 {
        assert(sources[sources.len() - 1].events().len() == 0);
        lemma_none_left(sources.drop_last());
        lemma_left(sources.drop_last());
    }
}

proof fn lemma_slots_left(slots: Seq<SourceSlot>)
    ensures
        weight(slots, slot_fuel()) == weight(
            slots.map_values(|slot: SourceSlot| slot.source),
            source_left(),
        ),
    decreases slots.len(),
{
    let sources = slots.map_values(|slot: SourceSlot| slot.source);
    if slots.len() > 0 {
        lemma_slots_left(slots.drop_last());
        assert(sources.drop_last() =~= slots.drop_last().map_values(
            |slot: SourceSlot| slot.source,
        ));
    }
}

/// Changes that were handed out, each with the place of the source that it came from.
pub type Given = Seq<(int, Delta<InternalQuad>)>;

/// Polls each live source once per round, so a pending source cannot starve the others.
pub struct RoundRobinStreamingIterator {
    slots: Vec<SourceSlot>,
    next: usize,
    held: Ghost<Seq<InternalQuad>>,
    given: Ghost<Given>,
}

/// Whether a source has nothing to hand out. A source that waits for changes has an error
/// to hand out once the query was cancelled.
pub open spec fn idle(source: LiveQuadDeltaSource, alive: bool) -> bool {
    &&& source.events().len() == 0
    &&& source.failure() is None
    &&& alive || source.subscription() is None
}

/// The changes that a source has to hand out, as queries see them.
pub open spec fn upcoming(source: LiveQuadDeltaSource) -> Seq<Delta<InternalQuad>> {
    source.events().map_values(|event: Delta<EncodedQuad>| internal_delta(event))
}

/// The changes that came from one source, in their order.
pub open spec fn given_by(given: Given, source: int) -> Seq<Delta<InternalQuad>> {
    filter_map(
        given,
        |entry: (int, Delta<InternalQuad>)|
            if entry.0 == source {
                Some(entry.1)
            } else {
                None
            },
    )
}

/// The changes that were handed out since others had been.
pub open spec fn since(before: Given, after: Given) -> Given {
    after.skip(before.len() as int)
}

/// Whether the changes of each source were handed out in the order in which the source has
/// them, and none was left out.
pub open spec fn in_order(
    before: Seq<LiveQuadDeltaSource>,
    after: Seq<LiveQuadDeltaSource>,
    old_given: Given,
    given: Given,
) -> bool {
    &&& after.len() == before.len()
    &&& given.len() >= old_given.len()
    &&& given.take(old_given.len() as int) == old_given
    &&& forall|i: int|
        0 <= i < before.len() ==> upcoming(before[i]) == given_by(since(old_given, given), i)
            + upcoming(#[trigger] after[i])
}

pub proof fn lemma_in_order_none(sources: Seq<LiveQuadDeltaSource>, given: Given)
    ensures
        in_order(sources, sources, given, given),
{
    assert(given.take(given.len() as int) =~= given);
    assert(since(given, given) =~= Seq::empty());
    assert forall|i: int| 0 <= i < sources.len() implies upcoming(sources[i]) == given_by(
        since(given, given),
        i,
    ) + upcoming(#[trigger] sources[i]) by {
        assert(given_by(Seq::empty(), i) =~= Seq::empty());
        assert(upcoming(sources[i]) =~= Seq::<Delta<InternalQuad>>::empty() + upcoming(sources[i]));
    }
}

pub proof fn lemma_in_order_transitive(
    a: Seq<LiveQuadDeltaSource>,
    b: Seq<LiveQuadDeltaSource>,
    c: Seq<LiveQuadDeltaSource>,
    given_a: Given,
    given_b: Given,
    given_c: Given,
)
    requires
        in_order(a, b, given_a, given_b),
        in_order(b, c, given_b, given_c),
    ensures
        in_order(a, c, given_a, given_c),
{
    assert(given_c.take(given_a.len() as int) =~= given_c.take(given_b.len() as int).take(
        given_a.len() as int,
    ));
    let first = since(given_a, given_b);
    let second = since(given_b, given_c);
    assert(since(given_a, given_c) =~= first + second) by {
        assert forall|k: int| 0 <= k < first.len() implies since(given_a, given_c)[k]
            == first[k] by {
            assert(given_c.take(given_b.len() as int)[given_a.len() + k] == given_b[given_a.len()
                + k]);
        }
    }
    assert forall|i: int| 0 <= i < a.len() implies upcoming(a[i]) == given_by(
        since(given_a, given_c),
        i,
    ) + upcoming(#[trigger] c[i]) by {
        let f = |entry: (int, Delta<InternalQuad>)|
            if entry.0 == i {
                Some(entry.1)
            } else {
                None
            };
        lemma_filter_map_add(first, second, f);
        assert(upcoming(b[i]) == given_by(second, i) + upcoming(c[i]));
        assert(given_by(first, i) + (given_by(second, i) + upcoming(c[i])) =~= (given_by(first, i)
            + given_by(second, i)) + upcoming(c[i]));
    }
}

proof fn lemma_filter_map_add<T, U>(a: Seq<T>, b: Seq<T>, f: spec_fn(T) -> Option<U>)
    ensures
        filter_map(a + b, f) == filter_map(a, f) + filter_map(b, f),
    decreases b.len(),
{
    if b.len() == 0 {
        assert(a + b =~= a);
        assert(filter_map(a, f) + filter_map(b, f) =~= filter_map(a, f));
    } else {
        lemma_filter_map_add(a, b.drop_last(), f);
        lemma_filter_map_push(a + b.drop_last(), b.last(), f);
        lemma_filter_map_push(b.drop_last(), b.last(), f);
        assert((a + b.drop_last()).push(b.last()) =~= a + b);
        assert(b.drop_last().push(b.last()) =~= b);
        if let Some(image) = f(b.last()) {
            assert(filter_map(a, f) + filter_map(b.drop_last(), f).push(image) =~= (filter_map(a, f)
                + filter_map(b.drop_last(), f)).push(image));
        }
    }
}

/// Where the k-th source of a round is, if the round begins with a given one.
pub open spec fn turn(start: int, k: int, len: int) -> int {
    if start + k < len {
        start + k
    } else {
        start + k - len
    }
}

impl RoundRobinStreamingIterator {
    pub closed spec fn wf(&self) -> bool {
        &&& self.slots@.len() > 0 ==> self.next < self.slots@.len()
        &&& forall|i: int| 0 <= i < self.slots@.len() ==> (#[trigger] self.slots@[i]).wf()
    }

    pub closed spec fn slots(&self) -> Seq<SourceSlot> {
        self.slots@
    }

    /// What the consumer holds.
    pub closed spec fn held(&self) -> Seq<InternalQuad> {
        self.held@
    }

    /// The changes that were handed out so far.
    pub closed spec fn given(&self) -> Given {
        self.given@
    }

    /// The place of the source whose turn it is.
    pub closed spec fn place(&self) -> int {
        self.next as int
    }

    /// Whether the k-th source of the round was the first one that had something to hand out,
    /// and the round goes on behind it.
    pub open spec fn turned(&self, before: Self, alive: bool, item: QuadItem, k: int) -> bool {
        let old = before.sources();
        let new = self.sources();
        let len = old.len() as int;
        let at = turn(before.place(), k, len);
        &&& 0 <= k < len
        &&& forall|j: int|
            #![trigger turn(before.place(), j, len)]
            0 <= j < k ==> idle(old[turn(before.place(), j, len)], alive)
        &&& !idle(old[at], alive)
        &&& self.place() == turn(before.place(), k + 1, len)
        &&& forall|i: int|
            0 <= i < len && i != at ==> (#[trigger] new[i]).events() == old[i].events()
                && new[i].failure() == old[i].failure()
        &&& match item {
            Some(Ok(StreamingItem::Item(delta))) => {
                &&& old[at].events().len() > 0
                &&& delta == internal_delta(old[at].events()[0])
                &&& new[at].events() == old[at].events().drop_first()
                &&& self.given() == before.given().push((at, delta))
            },
            Some(Err(error)) => {
                &&& alive ==> (old[at].failure() matches Some(failure) && error
                    == QueryEvaluationError::Dataset(failure))
                &&& alive ==> new[at].events() == old[at].events()
                &&& !alive ==> error == QueryEvaluationError::Cancelled
                &&& self.given() == before.given()
            },
            _ => false,
        }
    }

    /// What the item tells of the round: the source that it comes from is the first one, from
    /// the place where the last round ended, that has something to hand out.
    pub open spec fn took_turns(&self, before: Self, alive: bool, item: QuadItem) -> bool {
        if is_pause(item) {
            &&& self.place() == before.place()
            &&& self.given() == before.given()
            &&& forall|i: int|
                0 <= i < before.sources().len() ==> idle(#[trigger] before.sources()[i], alive)
            &&& forall|i: int|
                0 <= i < before.sources().len() ==> (#[trigger] self.sources()[i]).events()
                    == before.sources()[i].events()
        } else {
            exists|k: int| #[trigger] self.turned(before, alive, item, k)
        }
    }

    /// Taking turns leaves the changes of each source in their order.
    proof fn lemma_in_order(&self, before: Self, alive: bool, item: QuadItem)
        requires
            alive,
            self.sources().len() == before.sources().len(),
            before.place() >= 0,
            before.sources().len() > 0 ==> before.place() < before.sources().len(),
            self.took_turns(before, alive, item),
        ensures
            in_order(before.sources(), self.sources(), before.given(), self.given()),
    {
        let old = before.sources();
        let new = self.sources();
        if item matches Some(Ok(StreamingItem::Item(_))) {
            let k = choose|k: int| #[trigger] self.turned(before, alive, item, k);
            let at = turn(before.place(), k, old.len() as int);
            let delta = self.given().last().1;
            let fresh = since(before.given(), self.given());
            assert(fresh =~= seq![(at, delta)]);
            assert(self.given().take(before.given().len() as int) =~= before.given());
            assert forall|i: int| 0 <= i < old.len() implies upcoming(old[i]) == given_by(fresh, i)
                + upcoming(#[trigger] new[i]) by {
                assert(fresh.drop_last() =~= Seq::empty());
                assert(given_by(Seq::empty(), i) =~= Seq::empty());
                if i == at {
                    assert(given_by(fresh, i) =~= seq![delta]);
                    assert(upcoming(old[i]) =~= seq![delta] + upcoming(new[i]));
                } else {
                    assert(given_by(fresh, i) =~= Seq::empty());
                    assert(upcoming(old[i]) =~= Seq::<Delta<InternalQuad>>::empty() + upcoming(
                        new[i],
                    ));
                }
            }
        } else {
            assert(self.given() == before.given());
            lemma_in_order_none(old, before.given());
            assert forall|i: int| 0 <= i < old.len() implies upcoming(old[i]) == given_by(
                since(before.given(), self.given()),
                i,
            ) + upcoming(#[trigger] new[i]) by {
                assert(upcoming(old[i]) == given_by(since(before.given(), before.given()), i)
                    + upcoming(old[i]));
                if is_pause(item) {
                    assert(new[i].events() == old[i].events());
                } else {
                    let k = choose|k: int| #[trigger] self.turned(before, alive, item, k);
                    assert(new[i].events() == old[i].events());
                }
            }
        }
    }

    /// Whether the changes of each source can be applied, and the consumer holds what the
    /// sources have handed out.
    pub closed spec fn sound(&self) -> bool {
        &&& forall|i: int| 0 <= i < self.slots@.len() ==> (#[trigger] self.slots@[i]).source.sound()
        &&& self.consistent()
    }

    /// Whether the consumer holds what the sources have handed out.
    pub closed spec fn consistent(&self) -> bool {
        forall|quad: InternalQuad| #[trigger]
            count(self.held@, quad) == weight(self.slots@, slot_count(quad))
    }

    pub closed spec fn sources(&self) -> Seq<LiveQuadDeltaSource> {
        self.slots@.map_values(|slot: SourceSlot| slot.source)
    }

    /// A stream is in order where its sources are and its consumer holds what it should.
    pub proof fn lemma_sound(&self)
        ensures
            self.sound() == (self.consistent() && all_sound(self.sources())),
    {
        if all_sound(self.sources()) {
            assert forall|i: int|
                0 <= i < self.slots@.len() implies (#[trigger] self.slots@[i]).source.sound() by {
                assert(self.sources()[i].sound());
            }
        }
        if self.sound() {
            assert forall|i: int| 0 <= i < self.sources().len() implies (
            #[trigger] self.sources()[i]).sound() by {
                assert(self.slots@[i].source.sound());
            }
        }
    }

    /// What the parts of the flow are.
    pub proof fn lemma_flow(&self)
        ensures
            self.flow().held == self.held(),
            self.flow().sound == self.sound(),
            self.flow().fuel == self.fuel(),
            self.flow().live == self.live(),
            self.flow().goal == led_to(self.sources()),
            self.fuel() == changes_left(self.sources()),
            self.sound() == (self.consistent() && all_sound(self.sources())),
    {
        self.lemma_sound();
        lemma_led_to(self.slots@);
        lemma_slots_left(self.slots@);
    }

    /// A stream is live where one of its sources has a subscription.
    pub proof fn lemma_live(&self)
        ensures
            self.live() == exists|i: int|
                0 <= i < self.sources().len() && (
                #[trigger] self.sources()[i]).subscription() is Some,
    {
        if self.live() {
            let i = choose|i: int|
                0 <= i < self.slots@.len() && (
                #[trigger] self.slots@[i]).source.subscription() is Some;
            assert(self.sources()[i].subscription() is Some);
        }
        if exists|i: int|
            0 <= i < self.sources().len() && (
            #[trigger] self.sources()[i]).subscription() is Some {
            let i = choose|i: int|
                0 <= i < self.sources().len() && (
                #[trigger] self.sources()[i]).subscription() is Some;
            assert(self.slots@[i].source.subscription() is Some);
        }
    }

    pub closed spec fn fuel(&self) -> nat {
        weight(self.slots@, slot_fuel()) as nat
    }

    /// Whether a source has a subscription.
    pub closed spec fn live(&self) -> bool {
        exists|i: int|
            0 <= i < self.slots@.len() && (
            #[trigger] self.slots@[i]).source.subscription() is Some
    }

    pub closed spec fn flow(&self) -> Flow<InternalQuad> {
        Flow {
            held: self.held(),
            goal: concat(self.slots@, slot_goal()),
            sound: self.sound(),
            fuel: self.fuel(),
            live: self.live(),
        }
    }

    pub fn new(sources: Vec<LiveQuadDeltaSource>) -> (iterator: Self)
        requires
            forall|i: int|
                0 <= i < sources@.len() ==> (#[trigger] sources@[i]).wf()
                    && sources@[i].held().len() == 0,
        ensures
            iterator.wf(),
            iterator.held() == Seq::<InternalQuad>::empty(),
            iterator.given() == Given::empty(),
            iterator.place() == 0,
            iterator.sources() == sources@,
            iterator.consistent(),
    {
        let mut sources = sources;
        let ghost all = sources@;
        let mut slots: Vec<SourceSlot> = Vec::new();
        while sources.len() > 0
            invariant
                sources@.len() <= all.len(),
                slots@.len() + sources@.len() == all.len(),
                forall|i: int|
                    0 <= i < all.len() ==> (#[trigger] all[i]).wf() && all[i].held().len() == 0,
                forall|i: int| 0 <= i < sources@.len() ==> sources@[i] == all[slots@.len() + i],
                forall|i: int|
                    0 <= i < slots@.len() ==> (#[trigger] slots@[i]).source == all[i]
                        && !slots@[i].done,
            decreases sources@.len(),
        {
            let source = sources.remove(0);
            slots.push(SourceSlot { source, done: false });
        }
        let iterator = RoundRobinStreamingIterator {
            slots,
            next: 0,
            held: Ghost(Seq::empty()),
            given: Ghost(Seq::empty()),
        };
        proof {
            assert forall|i: int| 0 <= i < slots@.len() implies (#[trigger] slots@[i]).wf() by {
                assert(all[i].wf());
            }
            assert forall|quad: InternalQuad| #[trigger]
                count(iterator.held@, quad) == weight(iterator.slots@, slot_count(quad)) by {
                assert forall|i: int| 0 <= i < slots@.len() implies slot_count(quad)(
                    #[trigger] slots@[i],
                ) == 0 by {
                    assert(all[i].held() =~= Seq::empty());
                    assert(slots@[i].handed_out() =~= Seq::empty());
                }
                lemma_weight_same(slots@, slot_count(quad), |slot: SourceSlot| 0int);
                crate::bag::lemma_weight_zero(slots@);
            }
            assert(iterator.sources() =~= all);
        }
        iterator
    }

    /// Pulls one item from a source.
    fn pull(&mut self, index: usize, alive: bool) -> (item: QuadItem)
        requires
            old(self).wf(),
            index < old(self).slots@.len(),
        ensures
            final(self).wf(),
            final(self).next == old(self).next,
            final(self).slots@.len() == old(self).slots@.len(),
            forall|i: int|
                0 <= i < old(self).slots@.len() && i != index ==> (
                #[trigger] final(self).slots@[i]) == old(self).slots@[i],
            final(self).slots@[index as int].done == old(self).slots@[index as int].done,
            final(self).slots@[index as int].source.subscription()
                == old(self).slots@[index as int].source.subscription(),
            final(self).slots@[index as int].source.pattern()
                == old(self).slots@[index as int].source.pattern(),
            keeps_course(
                old(self).slots@[index as int].source,
                final(self).slots@[index as int].source,
            ),
            match item {
                Some(Ok(StreamingItem::Item(delta))) => {
                    &&& final(self).fuel() < old(self).fuel()
                    &&& final(self).held() == step(old(self).held(), delta)
                    &&& old(self).slots@[index as int].source.events().len() > 0
                    &&& delta == internal_delta(old(self).slots@[index as int].source.events()[0])
                    &&& final(self).slots@[index as int].source.events()
                        == old(self).slots@[index as int].source.events().drop_first()
                    &&& final(self).given@ == old(self).given@.push((index as int, delta))
                    &&& old(self).sound() ==> {
                        &&& final(self).sound()
                        &&& applies(old(self).held(), delta)
                        &&& final(self).flow().goal == old(self).flow().goal
                        &&& sought(old(self).sources(), delta.value_of())
                    }
                },
                Some(Ok(StreamingItem::Pending)) => {
                    &&& old(self).slots@[index as int].source.subscription() is Some
                    &&& same_streams(old(self).slots@, final(self).slots@)
                    &&& final(self).held == old(self).held
                    &&& final(self).given == old(self).given
                    &&& final(self).slots@[index as int].source.events().len() == 0
                    &&& final(self).slots@[index as int].source.failure() is None
                },
                None => {
                    &&& old(self).slots@[index as int].source.subscription() is None
                    &&& same_streams(old(self).slots@, final(self).slots@)
                    &&& final(self).held == old(self).held
                    &&& final(self).given == old(self).given
                    &&& final(self).slots@[index as int].source.events().len() == 0
                    &&& final(self).slots@[index as int].source.failure() is None
                },
                Some(Err(error)) => {
                    &&& final(self).held == old(self).held
                    &&& final(self).given == old(self).given
                    &&& alive ==> final(self).slots@[index as int].source.events()
                        == old(self).slots@[index as int].source.events()
                    &&& {
                        ||| !alive && error == QueryEvaluationError::Cancelled
                        ||| alive && (old(self).slots@[index as int].source.failure() matches Some(
                            failure,
                        ) && error == QueryEvaluationError::Dataset(failure))
                    }
                },
            },
            item is Some && item->0 is Ok ==> alive,
            idle(old(self).slots@[index as int].source, alive) == is_pause(item),
            !(item matches Some(Err(_))) ==> final(self).slots@[index as int].source.failure()
                == old(self).slots@[index as int].source.failure(),
    {
        let ghost before = *self;
        let ghost at = index as int;
        let ghost old_slot = self.slots@[at];
        assert(old_slot.wf());
        let item = self.slots[index].source.next();
        let ghost new_slot = self.slots@[at];
        proof {
            if item matches Some(Ok(StreamingItem::Item(_))) {
                lemma_played_first(old_slot.source.held(), old_slot.source.events());
            }
            assert(self.slots@ =~= before.slots@.update(at, new_slot));
        }
        match item {
            Some(Ok(StreamingItem::Item(delta))) => {
                if !alive {
                    return Some(Err(QueryEvaluationError::Cancelled));
                }
                let ghost event = old_slot.source.events()[0];
                proof {
                    lemma_weight_update(before.slots@, at, new_slot, slot_fuel());
                    lemma_fuel(before.slots@);
                    lemma_fuel(self.slots@);
                    assert(mapped(to_internal(), event) == Some(delta));
                }
                self.held = Ghost(step(before.held@, delta));
                self.given = Ghost(before.given@.push((at, delta)));
                proof {
                    if before.sound() {
                        assert(old_slot.source.sound());
                        lemma_played_first(old_slot.source.held(), old_slot.source.events());
                        lemma_mapped_applies(old_slot.source.held(), to_internal(), event);
                        if let Delta::Deletion(gone) = delta {
                            lemma_counts(before.slots@, gone);
                            lemma_weight_at_least(before.slots@, at, slot_count(gone));
                            assert(count(before.held@, gone) == weight(
                                before.slots@,
                                slot_count(gone),
                            ));
                            lemma_count(before.held@, gone);
                        }
                        assert(applies(before.held@, delta));
                        assert forall|quad: InternalQuad| #[trigger]
                            count(self.held@, quad) == weight(self.slots@, slot_count(quad)) by {
                            lemma_step_count(before.held@, delta, quad);
                            lemma_mapped_count(old_slot.source.held(), to_internal(), event, quad);
                            lemma_weight_update(before.slots@, at, new_slot, slot_count(quad));
                            assert(count(before.held@, quad) == weight(
                                before.slots@,
                                slot_count(quad),
                            ));
                        }
                        assert forall|i: int|
                            0 <= i < self.slots@.len() implies (
                        #[trigger] self.slots@[i]).source.sound() by {
                            if i != at {
                                assert(self.slots@[i] == before.slots@[i]);
                            }
                        }
                        assert(new_slot.leads_to() == old_slot.leads_to());
                        lemma_concat_update(before.slots@, at, new_slot, slot_goal());
                        assert(selects(
                            before.sources()[at].pattern(),
                            old_slot.source.events()[0].value_of(),
                        ));
                    }
                }
                Some(Ok(StreamingItem::Item(delta)))
            },
            Some(Ok(StreamingItem::Pending)) => {
                if !alive {
                    return Some(Err(QueryEvaluationError::Cancelled));
                }
                Some(Ok(StreamingItem::Pending))
            },
            Some(Err(error)) => {
                if !alive {
                    return Some(Err(QueryEvaluationError::Cancelled));
                }
                Some(Err(QueryEvaluationError::Dataset(error)))
            },
            None => None,
        }
    }

    /// The next change of any source. `alive` tells whether the query was not cancelled.
    pub fn next(&mut self, alive: bool) -> (item: QuadItem)
        requires
            old(self).wf(),
        ensures
            final(self).wf(),
            same_subscriptions(old(self).sources(), final(self).sources()),
            on_course(old(self).sources(), final(self).sources()),
            flows(old(self).flow(), final(self).flow(), item),
            final(self).took_turns(*old(self), alive, item),
            alive ==> in_order(
                old(self).sources(),
                final(self).sources(),
                old(self).given(),
                final(self).given(),
            ),
            final(self).given() == match item {
                Some(Ok(StreamingItem::Item(delta))) => old(self).given().push(
                    (final(self).given().last().0, delta),
                ),
                _ => old(self).given(),
            },
            answers(old(self).sources(), old(self).sound(), alive, false, item),
            !(item matches Some(Err(_))) ==> same_failures(
                old(self).sources(),
                final(self).sources(),
            ),
            is_pause(item) ==> none_failing(final(self).sources()),
            old(self).sound() ==> (item matches Some(Ok(StreamingItem::Item(delta))) ==> sought(
                old(self).sources(),
                delta.value_of(),
            )),
    {
        let ghost before = *self;
        if self.slots.len() == 0 {
            proof {
                assert(concat(self.slots@, slot_goal()) =~= Seq::empty());
                if self.sound() {
                    assert forall|quad: InternalQuad| #[trigger]
                        count(self.held@, quad) == count(
                            Seq::<InternalQuad>::empty(),
                            quad,
                        ) by {
                        assert(count(self.held@, quad) == weight(self.slots@, slot_count(quad)));
                    }
                }
                assert(self.sources().len() == 0);
                lemma_in_order_none(self.sources(), self.given());
            }
            return None;
        }
        let mut live = false;
        let mut polled: usize = 0;
        let ghost start = self.next as int;
        let ghost len = self.slots@.len() as int;
        while polled < self.slots.len()
            invariant
                self.wf(),
                before == *old(self),
                len == self.slots@.len(),
                len > 0,
                0 <= start < len,
                polled <= len,
                self.next == turn(start, polled as int, len),
                start == before.next,
                self.given == before.given,
                forall|k: int|
                    #![trigger turn(start, k, len)]
                    0 <= k < polled ==> idle(before.slots@[turn(start, k, len)].source, alive),
                before.slots@.len() == len,
                slots_kept(before.slots@, self.slots@),
                same_streams(before.slots@, self.slots@),
                self.held == before.held,
                forall|k: int|
                    #![trigger turn(start, k, len)]
                    0 <= k < polled ==> self.slots@[turn(start, k, len)].source.events().len() == 0
                        && self.slots@[turn(start, k, len)].source.failure() is None,
                live ==> before.live() && alive,
                !live ==> forall|k: int|
                    #![trigger turn(start, k, len)]
                    0 <= k < polled ==> self.slots@[turn(
                        start,
                        k,
                        len,
                    )].source.subscription() is None,
            decreases len - polled,
        {
            let index = self.next;
            self.next = if self.next + 1 == self.slots.len() {
                0
            } else {
                self.next + 1
            };
            let ghost current = *self;
            assert(index == turn(start, polled as int, len));
            if self.slots[index].done {
                assert(self.slots@[index as int].wf());
                proof {
                    assert(self.slots@[index as int].source.events()
                        == before.slots@[index as int].source.events());
                    assert(self.slots@[index as int].source.subscription()
                        == before.slots@[index as int].source.subscription());
                }
                polled = polled + 1;
                assert forall|k: int|
                    #![trigger turn(start, k, len)]
                    0 <= k < polled implies self.slots@[turn(start, k, len)].source.events().len()
                    == 0 && self.slots@[turn(start, k, len)].source.failure() is None by {}
                continue;
            }
            let item = self.pull(index, alive);
            proof {
                assert(idle(before.slots@[index as int].source, alive) == is_pause(item)) by {
                    assert(current.slots@[index as int].source.events()
                        == before.slots@[index as int].source.events());
                    assert(current.slots@[index as int].source.subscription()
                        == before.slots@[index as int].source.subscription());
                }
                assert(slots_kept(before.slots@, self.slots@)) by {
                    assert forall|i: int|
                        0 <= i < len implies (
                    #[trigger] self.slots@[i]).source.subscription()
                        == before.slots@[i].source.subscription() && self.slots@[i].source.pattern()
                        == before.slots@[i].source.pattern() by {
                        assert(current.slots@[i].source.subscription()
                            == before.slots@[i].source.subscription());
                    }
                }
                lemma_same_live(before, *self);
                lemma_same_flow(before, current);
            }
            match item {
                Some(Ok(StreamingItem::Pending)) => {
                    live = true;
                    proof {
                        assert(before.slots@[index as int].source.subscription() is Some) by {
                            assert(current.slots@[index as int].source.subscription()
                                == before.slots@[index as int].source.subscription());
                        }
                        assert(before.live());
                    }
                },
                Some(item) => {
                    proof {
                        lemma_kept(before, *self);
                        assert forall|i: int|
                            0 <= i < len implies keeps_course(
                            before.sources()[i],
                            #[trigger] self.sources()[i],
                        ) by {
                            assert(current.slots@[i].source.events()
                                == before.slots@[i].source.events());
                            if i != index {
                                assert(self.slots@[i] == current.slots@[i]);
                            }
                        }
                        assert(current.slots@[index as int].source.failure()
                            == before.slots@[index as int].source.failure());
                        assert(before.sources()[index as int]
                            == before.slots@[index as int].source);
                        lemma_sought(current.sources(), before.sources());
                        assert(self.turned(before, alive, Some(item), polled as int)) by {
                            assert forall|i: int| 0 <= i < len && i != index implies (
                            #[trigger] self.sources()[i]).events() == before.sources()[i].events()
                                && self.sources()[i].failure() == before.sources()[i].failure() by {
                                assert(self.slots@[i] == current.slots@[i]);
                                assert(current.slots@[i].source.events()
                                    == before.slots@[i].source.events());
                            }
                            assert forall|j: int|
                                #![trigger turn(before.place(), j, len)]
                                0 <= j < polled implies idle(
                                before.sources()[turn(before.place(), j, len)],
                                alive,
                            ) by {
                                assert(idle(before.slots@[turn(start, j, len)].source, alive));
                            }
                            assert(current.slots@[index as int].source.events()
                                == before.slots@[index as int].source.events());
                        }
                        if alive {
                            self.lemma_in_order(before, alive, Some(item));
                        }
                        if !(item is Err) {
                            assert forall|i: int|
                                0 <= i < len implies (#[trigger] self.sources()[i]).failure()
                                == before.sources()[i].failure() by {
                                assert(current.slots@[i].source.failure()
                                    == before.slots@[i].source.failure());
                                if i != index {
                                    assert(self.slots@[i] == current.slots@[i]);
                                }
                            }
                        }
                    }
                    return Some(item);
                },
                None => {
                    self.slots[index].done = true;
                },
            }
            proof {
                lemma_streams_transitive(before.slots@, current.slots@, self.slots@);
                assert forall|k: int|
                    #![trigger turn(start, k, len)]
                    0 <= k < polled + 1 implies self.slots@[turn(
                    start,
                    k,
                    len,
                )].source.events().len() == 0 && self.slots@[turn(
                    start,
                    k,
                    len,
                )].source.failure() is None by {
                    if turn(start, k, len) != index {
                        assert(self.slots@[turn(start, k, len)] == current.slots@[turn(
                            start,
                            k,
                            len,
                        )]);
                    }
                }
            }
            polled = polled + 1;
        }
        proof {
            assert forall|i: int| 0 <= i < len implies (
            #[trigger] self.slots@[i]).source.events().len() == 0
                && self.slots@[i].source.failure() is None && (!live
                ==> self.slots@[i].source.subscription() is None) && idle(
                before.sources()[i],
                alive,
            ) && self.sources()[i].events() == before.sources()[i].events() by {
                assert(self.slots@[i].source.events() == before.slots@[i].source.events());
                let k = if i >= start { i - start } else { i - start + len };
                assert(turn(start, k, len) == i);
            }
            lemma_same_live(before, *self);
            lemma_same_flow(before, *self);
            lemma_settled(*self);
            lemma_kept(before, *self);
            assert forall|i: int|
                0 <= i < len implies keeps_course(
                before.sources()[i],
                #[trigger] self.sources()[i],
            ) by {
                assert(self.slots@[i].source.events() == before.slots@[i].source.events());
            }
            assert forall|i: int|
                0 <= i < len implies (#[trigger] self.sources()[i]).failure()
                == before.sources()[i].failure() && self.sources()[i].failure() is None by {
                assert(self.slots@[i].source.failure() == before.slots@[i].source.failure());
            }
        }
        let item: QuadItem = if live {
            Some(Ok(StreamingItem::Pending))
        } else {
            None
        };
        proof {
            assert forall|i: int| 0 <= i < before.sources().len() implies idle(
                #[trigger] before.sources()[i],
                alive,
            ) by {
                assert(self.slots@[i].source.events().len() == 0);
            }
            assert forall|i: int| 0 <= i < before.sources().len() implies (
            #[trigger] self.sources()[i]).events() == before.sources()[i].events() by {
                assert(self.slots@[i].source.events().len() == 0);
            }
            assert forall|i: int| 0 <= i < self.sources().len() implies (
            #[trigger] self.sources()[i]).events().len() == 0 by {
                assert(self.slots@[i].source.events().len() == 0);
            }
            lemma_none_left(self.sources());
            lemma_slots_left(self.slots@);
            assert(turn(start, len, len) == start);
            if alive {
                self.lemma_in_order(before, alive, item);
            }
        }
        item
    }
}

/// Whether sources stand where they stood.
pub open spec fn same_streams(before: Seq<SourceSlot>, after: Seq<SourceSlot>) -> bool {
    &&& after.len() == before.len()
    &&& forall|i: int|
        0 <= i < after.len() ==> (#[trigger] after[i]).source.events()
            == before[i].source.events() && after[i].source.held() == before[i].source.held()
            && after[i].source.failure() == before[i].source.failure() && after[i].source.pattern()
            == before[i].source.pattern()
}

/// Whether sources have the subscriptions that they had, to the same quads.
pub open spec fn same_subscriptions(
    before: Seq<LiveQuadDeltaSource>,
    after: Seq<LiveQuadDeltaSource>,
) -> bool {
    &&& after.len() == before.len()
    &&& forall|i: int|
        0 <= i < after.len() ==> (#[trigger] after[i]).subscription() == before[i].subscription()
            && after[i].pattern() == before[i].pattern()
}

spec fn slots_kept(before: Seq<SourceSlot>, after: Seq<SourceSlot>) -> bool {
    &&& after.len() == before.len()
    &&& forall|i: int|
        0 <= i < after.len() ==> (#[trigger] after[i]).source.subscription()
            == before[i].source.subscription() && after[i].source.pattern()
            == before[i].source.pattern()
}

proof fn lemma_kept(before: RoundRobinStreamingIterator, after: RoundRobinStreamingIterator)
    requires
        slots_kept(before.slots@, after.slots@),
    ensures
        same_subscriptions(before.sources(), after.sources()),
{
    assert forall|i: int| 0 <= i < after.sources().len() implies (
    #[trigger] after.sources()[i]).subscription() == before.sources()[i].subscription()
        && after.sources()[i].pattern() == before.sources()[i].pattern() by {
        assert(after.slots@[i].source.subscription() == before.slots@[i].source.subscription());
    }
}

impl RoundRobinStreamingIterator {
    /// Has the sources take over what waits for them.
    pub fn refill(&mut self, storage: &mut Storage)
        requires
            old(self).wf(),
            old(storage).wf(),
        ensures
            final(self).wf(),
            final(self).held() == old(self).held(),
            final(self).given() == old(self).given(),
            final(self).place() == old(self).place(),
            old(self).consistent() ==> final(self).consistent(),
            final(self).live() == old(self).live(),
            refilled(old(self).sources(), final(self).sources(), *old(storage), *final(storage)),
    {
        let ghost before = *self;
        let ghost start = *storage;
        let ghost all = self.sources();
        let mut next: usize = 0;
        proof {
            lemma_refilled_none(*storage);
            assert(all.take(0) =~= Seq::empty());
            assert(self.sources().take(0) =~= Seq::empty());
        }
        while next < self.slots.len()
            invariant
                self.wf(),
                storage.wf(),
                all == before.sources(),
                self.held == before.held,
                self.given == before.given,
                self.next == before.next,
                self.slots@.len() == before.slots@.len(),
                next <= self.slots@.len(),
                refilled(
                    all.take(next as int),
                    self.sources().take(next as int),
                    start,
                    *storage,
                ),
                forall|i: int|
                    next <= i < self.slots@.len() ==> #[trigger] self.slots@[i] == before.slots@[i],
                forall|i: int|
                    0 <= i < self.slots@.len() ==> (#[trigger] self.slots@[i]).source.held()
                        == before.slots@[i].source.held() && self.slots@[i].source.subscription()
                        == before.slots@[i].source.subscription(),
            decreases self.slots@.len() - next,
        {
            let ghost current = *self;
            let ghost old_storage = *storage;
            let ghost slot = self.slots@[next as int];
            assert(slot.wf());
            self.slots[next].source.refill(storage);
            proof {
                let at = next as int;
                let new_slot = self.slots@[at];
                assert(self.slots@ =~= current.slots@.update(at, new_slot));
                assert(new_slot.source.events() =~= slot.source.events() + waiting_for(
                    slot.source,
                    old_storage,
                ));
                assert forall|i: int| 0 <= i < self.slots@.len() implies (
                #[trigger] self.slots@[i]).wf() by {
                    assert(current.slots@[i].wf());
                }
                lemma_refilled_one(slot.source, new_slot.source, old_storage, *storage);
                lemma_refilled_add(
                    all.take(at),
                    current.sources().take(at),
                    seq![slot.source],
                    seq![new_slot.source],
                    start,
                    old_storage,
                    *storage,
                );
                assert(all.take(at) + seq![slot.source] =~= all.take(at + 1));
                assert(current.sources().take(at) + seq![new_slot.source] =~= self.sources().take(
                    at + 1,
                ));
            }
            next = next + 1;
        }
        proof {
            assert(all.take(next as int) =~= all);
            assert(self.sources().take(next as int) =~= self.sources());
            if before.consistent() {
                assert forall|quad: InternalQuad| #[trigger]
                    count(self.held@, quad) == weight(self.slots@, slot_count(quad)) by {
                    lemma_same_held(before.slots@, self.slots@, quad);
                    assert(count(before.held@, quad) == weight(before.slots@, slot_count(quad)));
                }
            }
            if before.live() {
                let i = choose|i: int|
                    0 <= i < before.slots@.len() && (
                    #[trigger] before.slots@[i]).source.subscription() is Some;
                assert(self.slots@[i].source.subscription() is Some);
            }
            if self.live() {
                let i = choose|i: int|
                    0 <= i < self.slots@.len() && (
                    #[trigger] self.slots@[i]).source.subscription() is Some;
                assert(before.slots@[i].source.subscription() is Some);
            }
        }
    }

    /// Ends the subscriptions of the sources.
    pub fn close(self, storage: &mut Storage)
        requires
            old(storage).wf(),
        ensures
            released(self.sources(), *old(storage), *final(storage)),
    {
        let ghost start = *storage;
        let ghost all = self.sources();
        let mut slots = self.slots;
        let ghost mut done: int = 0;
        while slots.len() > 0
            invariant
                storage.wf(),
                0 <= done <= all.len(),
                slots@.len() + done == all.len(),
                forall|i: int| 0 <= i < slots@.len() ==> (#[trigger] slots@[i]).source == all[done + i],
                released(all.take(done), start, *storage),
            decreases slots@.len(),
        {
            let ghost rest = slots@;
            let slot = slots.remove(0);
            let ghost old_storage = *storage;
            slot.source.close(storage);
            proof {
                assert(slot.source == rest[0].source);
                lemma_released_next(all, done, start, old_storage, *storage);
                assert forall|i: int| 0 <= i < slots@.len() implies (#[trigger] slots@[i]).source
                    == all[done + 1 + i] by {
                    assert(slots@[i] == rest[i + 1]);
                }
                done = done + 1;
            }
        }
        assert(all.take(done) =~= all);
    }
}

proof fn lemma_same_held(a: Seq<SourceSlot>, b: Seq<SourceSlot>, quad: InternalQuad)
    requires
        a.len() == b.len(),
        forall|i: int|
            0 <= i < b.len() ==> (#[trigger] b[i]).source.held() == a[i].source.held(),
    ensures
        weight(b, slot_count(quad)) == weight(a, slot_count(quad)),
    decreases a.len(),
{
    if a.len() > 0 {
        let last = a.len() - 1;
        assert(b[last].source.held() == a[last].source.held());
        assert forall|i: int| 0 <= i < b.drop_last().len() implies (
        #[trigger] b.drop_last()[i]).source.held() == a.drop_last()[i].source.held() by {
            assert(b[i].source.held() == a[i].source.held());
        }
        lemma_same_held(a.drop_last(), b.drop_last(), quad);
    }
}

proof fn lemma_streams_transitive(a: Seq<SourceSlot>, b: Seq<SourceSlot>, c: Seq<SourceSlot>)
    requires
        same_streams(a, b),
        same_streams(b, c),
    ensures
        same_streams(a, c),
{
    assert forall|i: int| 0 <= i < c.len() implies (#[trigger] c[i]).source.events()
        == a[i].source.events() && c[i].source.held() == a[i].source.held()
        && c[i].source.failure() == a[i].source.failure() && c[i].source.pattern()
        == a[i].source.pattern() by {
        assert(b[i].source.events() == a[i].source.events());
    }
}

proof fn lemma_same_live(
    before: RoundRobinStreamingIterator,
    after: RoundRobinStreamingIterator,
)
    requires
        slots_kept(before.slots@, after.slots@),
    ensures
        after.live() == before.live(),
{
    if before.live() {
        let i = choose|i: int|
            0 <= i < before.slots@.len() && (
            #[trigger] before.slots@[i]).source.subscription() is Some;
        assert(after.slots@[i].source.subscription() is Some);
    }
    if after.live() {
        let i = choose|i: int|
            0 <= i < after.slots@.len() && (
            #[trigger] after.slots@[i]).source.subscription() is Some;
        assert(before.slots@[i].source.subscription() is Some);
    }
}

proof fn lemma_same_flow(
    before: RoundRobinStreamingIterator,
    after: RoundRobinStreamingIterator,
)
    requires
        same_streams(before.slots@, after.slots@),
        after.held == before.held,
    ensures
        after.fuel() == before.fuel(),
        before.sound() ==> after.sound(),
        after.flow().goal == before.flow().goal,
{
    let a = before.slots@;
    let b = after.slots@;
    lemma_same_slots(a, b);
    if before.sound() {
        assert forall|i: int| 0 <= i < b.len() implies (#[trigger] b[i]).source.sound() by {
            assert(a[i].source.sound());
        }
        assert forall|quad: InternalQuad| #[trigger]
            count(after.held@, quad) == weight(b, slot_count(quad)) by {
            lemma_same_counts(a, b, quad);
            assert(count(before.held@, quad) == weight(a, slot_count(quad)));
        }
    }
}

proof fn lemma_same_slots(a: Seq<SourceSlot>, b: Seq<SourceSlot>)
    requires
        same_streams(a, b),
    ensures
        weight(b, slot_fuel()) == weight(a, slot_fuel()),
        concat(b, slot_goal()) == concat(a, slot_goal()),
    decreases a.len(),
{
    if a.len() > 0 {
        let last = a.len() - 1;
        assert(b[last].source.events() == a[last].source.events());
        assert forall|i: int| 0 <= i < b.drop_last().len() implies (
        #[trigger] b.drop_last()[i]).source.events() == a.drop_last()[i].source.events()
            && b.drop_last()[i].source.held() == a.drop_last()[i].source.held()
            && b.drop_last()[i].source.failure() == a.drop_last()[i].source.failure()
            && b.drop_last()[i].source.pattern() == a.drop_last()[i].source.pattern() by {
            assert(b[i].source.events() == a[i].source.events());
        }
        lemma_same_slots(a.drop_last(), b.drop_last());
    }
}

proof fn lemma_same_counts(a: Seq<SourceSlot>, b: Seq<SourceSlot>, quad: InternalQuad)
    requires
        same_streams(a, b),
    ensures
        weight(b, slot_count(quad)) == weight(a, slot_count(quad)),
    decreases a.len(),
{
    if a.len() > 0 {
        let last = a.len() - 1;
        assert(b[last].source.held() == a[last].source.held());
        assert forall|i: int| 0 <= i < b.drop_last().len() implies (
        #[trigger] b.drop_last()[i]).source.events() == a.drop_last()[i].source.events()
            && b.drop_last()[i].source.held() == a.drop_last()[i].source.held()
            && b.drop_last()[i].source.failure() == a.drop_last()[i].source.failure()
            && b.drop_last()[i].source.pattern() == a.drop_last()[i].source.pattern() by {
            assert(b[i].source.events() == a[i].source.events());
        }
        lemma_same_counts(a.drop_last(), b.drop_last(), quad);
    }
}

/// Sources that have handed out everything have led to their goal.
proof fn lemma_settled(iterator: RoundRobinStreamingIterator)
    requires
        forall|i: int|
            0 <= i < iterator.slots@.len() ==> (
            #[trigger] iterator.slots@[i]).source.events().len() == 0,
    ensures
        iterator.sound() ==> same_bag(iterator.flow().held, iterator.flow().goal),
{
    let slots = iterator.slots@;
    if iterator.sound() {
        assert forall|quad: InternalQuad| #[trigger]
            count(iterator.held@, quad) == count(concat(slots, slot_goal()), quad) by {
            lemma_concat_weight(slots, slot_goal(), is(quad));
            let h = |slot: SourceSlot| weight(slot_goal()(slot), is(quad));
            assert forall|i: int| 0 <= i < slots.len() implies slot_count(quad)(
                #[trigger] slots[i],
            ) == h(slots[i]) by {
                assert(slots[i].source.events() =~= Seq::empty());
                assert(slots[i].leads_to() == slots[i].handed_out());
            }
            lemma_weight_same(slots, slot_count(quad), h);
            assert(count(iterator.held@, quad) == weight(slots, slot_count(quad)));
        }
    }
}

proof fn lemma_fuel(slots: Seq<SourceSlot>)
    ensures
        weight(slots, slot_fuel()) >= 0,
    decreases slots.len(),
{
    if slots.len() > 0 {
        lemma_fuel(slots.drop_last());
    }
}

proof fn lemma_counts(slots: Seq<SourceSlot>, quad: InternalQuad)
    ensures
        forall|i: int| 0 <= i < slots.len() ==> 0 <= slot_count(quad)(#[trigger] slots[i]),
{
    assert forall|i: int| 0 <= i < slots.len() implies 0 <= slot_count(quad)(
        #[trigger] slots[i],
    ) by {
        lemma_count(slots[i].handed_out(), quad);
    }
}

/// A round comes by every source once, whichever it begins with.
pub proof fn law_rounds_come_by_every_source(start: int, len: int, i: int, j: int, k: int)
    requires
        0 <= start < len,
        0 <= i < len,
        0 <= j < len,
        0 <= k < len,
    ensures
        0 <= turn(start, k, len) < len,
        turn(start, 0, len) == start,
        turn(start, j, len) == turn(start, k, len) ==> j == k,
        exists|n: int| 0 <= n < len && #[trigger] turn(start, n, len) == i,
{
    let n = if i >= start {
        i - start
    } else {
        i - start + len
    };
    assert(turn(start, n, len) == i);
}

/// Sources take turns: no source hands out two changes in a row while another one has
/// something to hand out.
pub proof fn law_sources_take_turns(
    before: RoundRobinStreamingIterator,
    middle: RoundRobinStreamingIterator,
    after: RoundRobinStreamingIterator,
    alive: bool,
    still_alive: bool,
    first: Delta<InternalQuad>,
    second: Delta<InternalQuad>,
    other: int,
)
    requires
        0 <= before.place() < before.sources().len(),
        middle.sources().len() == before.sources().len(),
        middle.took_turns(before, alive, Some(Ok(StreamingItem::Item(first)))),
        after.took_turns(middle, still_alive, Some(Ok(StreamingItem::Item(second)))),
        0 <= other < middle.sources().len(),
        other != middle.given().last().0,
        !idle(middle.sources()[other], still_alive),
    ensures
        after.given().last().0 != middle.given().last().0,
        middle.given().last().1 == first,
        after.given().last().1 == second,
{
    let len = before.sources().len() as int;
    let item: QuadItem = Some(Ok(StreamingItem::Item(first)));
    let next_item: QuadItem = Some(Ok(StreamingItem::Item(second)));
    let k = choose|k: int| #[trigger] middle.turned(before, alive, item, k);
    let n = choose|n: int| #[trigger] after.turned(middle, still_alive, next_item, n);
    let at = turn(before.place(), k, len);
    law_rounds_come_by_every_source(before.place(), len, at, k, k);
    assert(middle.place() == turn(at, 1, len));
    law_rounds_come_by_every_source(middle.place(), len, other, n, n);
    law_rounds_come_by_every_source(middle.place(), len, at, n, n);
    let m = choose|m: int| 0 <= m < len && #[trigger] turn(middle.place(), m, len) == other;
    assert(turn(middle.place(), len - 1, len) == at);
    if after.given().last().0 == at {
        assert(turn(middle.place(), n, len) == at);
        assert(n == len - 1);
        assert(m < n);
        assert(idle(middle.sources()[turn(middle.place(), m, len)], still_alive));
    }
}

} // verus!
