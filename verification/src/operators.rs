//! The operators of a query that read quads or given rows, and the projection.

use crate::attachment::{all_sound, refilled, released};
use crate::bag::{
    count, filter_map, is, lemma_count, lemma_filter_map_same_bag, lemma_same_bag_transitive,
    lemma_weight_add, same_bag, sub_bag,
};
use crate::delta::{Delta, DeltaKind, StreamingItem};
use crate::error::QueryEvaluationError;
use crate::graphs::{lemma_same, lemma_same_transitive};
use crate::join_values::delta_view;
use crate::listing::lemma_refilled_quiet;
use crate::numeric_encoder::EncodedTerm;
use crate::quad_stream::{all_named, names_graph, shaped, QuadDeltas, QuadShape};
use crate::replay::{flows, lemma_mapped_pause, lemma_mapped_step, mapped, step, Flow};
use crate::source::{InternalQuad, LiveQuadDeltaSource};
use crate::storage::Storage;
use crate::streams::{
    changes_left, failing, is_pause, led_to, lemma_on_course_transitive, lemma_same_failures,
    lemma_sound_sources_do_not_fail, none_failing, on_course, same_failures, same_subscriptions,
};
use crate::tuple::{
    bound, law_values_fit_where_a_row_has_them, put_pattern_value, rows, selected, InternalTuple,
    TupleSelector, TupleView,
};
use vstd::prelude::*;

verus! {

/// An item of a stream of changes of rows.
pub type TupleItem = Option<Result<StreamingItem<Delta<InternalTuple>>, QueryEvaluationError>>;

/// An item of a stream of changes of rows, by the rows alone.
pub open spec fn item_view(item: TupleItem) -> Option<
    Result<StreamingItem<Delta<TupleView>>, QueryEvaluationError>,
> {
    match item {
        Some(Ok(StreamingItem::Item(delta))) => Some(Ok(StreamingItem::Item(delta_view(delta)))),
        Some(Ok(StreamingItem::Pending)) => Some(Ok(StreamingItem::Pending)),
        Some(Err(error)) => Some(Err(error)),
        None => None,
    }
}

/// Whether an item of an operator is one that may come: an operator that is in order fails
/// only where the query was cancelled or where a graph without a name turns up although a
/// name is asked for, and a cancelled query does not wait.
pub open spec fn may_come(sound: bool, alive: bool, graphs: bool, item: TupleItem) -> bool {
    match item {
        Some(Ok(StreamingItem::Item(_))) => true,
        Some(Ok(StreamingItem::Pending)) => alive,
        Some(Err(error)) => sound ==> {
            ||| error == QueryEvaluationError::Cancelled && !alive
            ||| error == QueryEvaluationError::UnexpectedDefaultGraph && alive && graphs
        },
        None => true,
    }
}

/// Why an operator may fail, whether or not its changes can be relied on: a cancellation
/// and the failure of a source are not made up.
pub open spec fn justified(
    error: QueryEvaluationError,
    sources: Seq<LiveQuadDeltaSource>,
    alive: bool,
) -> bool {
    match error {
        QueryEvaluationError::Cancelled => !alive,
        QueryEvaluationError::Dataset(failure) => failing(sources, failure),
        QueryEvaluationError::UnexpectedDefaultGraph => true,
        QueryEvaluationError::NonExistingTupleDeleted => true,
        QueryEvaluationError::Unsupported(_) => false,
        QueryEvaluationError::NotExistingSubstitutedVariable(_) => false,
    }
}

/// What an item of an operator tells of the failures of its sources: none is passed over.
pub open spec fn accounted(
    before: Seq<LiveQuadDeltaSource>,
    after: Seq<LiveQuadDeltaSource>,
    alive: bool,
    item: TupleItem,
) -> bool {
    &&& !(item matches Some(Err(_))) ==> same_failures(before, after)
    &&& is_pause(item) ==> none_failing(after)
    &&& item matches Some(Err(error)) ==> justified(error, before, alive)
}

/// Given rows, as additions.
pub struct ValuesOperator {
    rows: Vec<InternalTuple>,
    held: Ghost<Seq<TupleView>>,
}

impl ValuesOperator {
    pub closed spec fn held(&self) -> Seq<TupleView> {
        self.held@
    }

    /// All rows, handed out or not.
    pub closed spec fn goal(&self) -> Seq<TupleView> {
        self.held@ + rows(self.rows@)
    }

    pub closed spec fn fuel(&self) -> nat {
        self.rows@.len()
    }

    pub open spec fn flow(&self) -> Flow<TupleView> {
        Flow {
            held: self.held(),
            goal: self.goal(),
            sound: true,
            fuel: self.fuel(),
            live: false,
        }
    }

    /// The rows that were handed out are some of all rows.
    pub proof fn lemma_within(&self)
        ensures
            sub_bag(self.held(), self.goal()),
    {
        assert forall|row: TupleView| #[trigger] count(self.held(), row) <= count(
            self.goal(),
            row,
        ) by {
            lemma_weight_add(self.held@, rows(self.rows@), is(row));
            lemma_count(rows(self.rows@), row);
        }
    }

    pub fn new(rows: Vec<InternalTuple>) -> (operator: Self)
        ensures
            operator.held() == Seq::<TupleView>::empty(),
            operator.goal() == crate::tuple::rows(rows@),
    {
        let operator = ValuesOperator { rows, held: Ghost(Seq::empty()) };
        assert(operator.goal() =~= crate::tuple::rows(rows@));
        operator
    }

    pub fn next(&mut self) -> (item: TupleItem)
        ensures
            flows(old(self).flow(), final(self).flow(), item_view(item)),
            final(self).goal() == old(self).goal(),
            match item {
                Some(Ok(StreamingItem::Item(delta))) => delta.kind_of() == DeltaKind::Addition,
                None => true,
                _ => false,
            },
    {
        let ghost before = *self;
        if self.rows.len() == 0 {
            assert(self.goal() =~= self.held@);
            return None;
        }
        let tuple = self.rows.remove(0);
        self.held = Ghost(before.held@.push(tuple@));
        assert(self.goal() =~= before.goal());
        Some(Ok(StreamingItem::Item(Delta::addition(tuple))))
    }
}

/// The row that a quad gives in the context of a row, unless it contradicts the selectors
/// or the row.
pub open spec fn matched(
    from: TupleView,
    subject: TupleSelector,
    predicate: TupleSelector,
    object: TupleSelector,
    graph_name: Option<TupleSelector>,
) -> spec_fn(InternalQuad) -> Option<TupleView> {
    |quad: InternalQuad|
        match bound(subject, quad.subject, from) {
            None => None,
            Some(row) => match bound(predicate, quad.predicate, row) {
                None => None,
                Some(row) => match bound(object, quad.object, row) {
                    None => None,
                    Some(row) => match graph_name {
                        None => Some(row),
                        Some(selector) => match quad.graph_name {
                            None => None,
                            Some(name) => bound(selector, name, row),
                        },
                    },
                },
            },
        }
}

/// A quad gives a row exactly where there is a row that has the bindings of the given one and
/// has the terms of the quad at the positions of the pattern. The row that it gives is such a
/// row, and binds no further column.
pub proof fn law_quads_match_where_a_row_has_their_terms(
    from: TupleView,
    subject: TupleSelector,
    predicate: TupleSelector,
    object: TupleSelector,
    graph_name: Option<TupleSelector>,
    quad: InternalQuad,
    other: TupleView,
)
    ensures
        ({
            &&& forall|i: int|
                (#[trigger] from.column(i)) is Some ==> other.column(i) == from.column(i)
            &&& selected(subject, other) == Some(quad.subject)
            &&& selected(predicate, other) == Some(quad.predicate)
            &&& selected(object, other) == Some(quad.object)
            &&& graph_name matches Some(selector) ==> quad.graph_name is Some && selected(
                selector,
                other,
            ) == quad.graph_name
        }) ==> matched(from, subject, predicate, object, graph_name)(quad) is Some,
        matched(from, subject, predicate, object, graph_name)(quad) matches Some(row) ==> {
            &&& selected(subject, row) == Some(quad.subject)
            &&& selected(predicate, row) == Some(quad.predicate)
            &&& selected(object, row) == Some(quad.object)
            &&& graph_name matches Some(selector) ==> quad.graph_name is Some && selected(
                selector,
                row,
            ) == quad.graph_name
            &&& row.graph_name == from.graph_name
            &&& forall|i: int|
                (#[trigger] from.column(i)) is Some ==> row.column(i) == from.column(i)
            &&& forall|i: int|
                (#[trigger] row.column(i)) is Some ==> from.column(i) is Some || subject
                    == TupleSelector::Variable(i as usize) || predicate
                    == TupleSelector::Variable(i as usize) || object == TupleSelector::Variable(
                    i as usize,
                ) || graph_name == Some(TupleSelector::Variable(i as usize))
        },
{
    law_values_fit_where_a_row_has_them(subject, quad.subject, from, other);
    if let Some(first) = bound(subject, quad.subject, from) {
        lemma_extends(subject, quad.subject, from, first, other);
        law_values_fit_where_a_row_has_them(predicate, quad.predicate, first, other);
        if let Some(second) = bound(predicate, quad.predicate, first) {
            lemma_extends(predicate, quad.predicate, first, second, other);
            law_values_fit_where_a_row_has_them(object, quad.object, second, other);
            if let Some(third) = bound(object, quad.object, second) {
                lemma_extends(object, quad.object, second, third, other);
                if let Some(selector) = graph_name {
                    if let Some(name) = quad.graph_name {
                        law_values_fit_where_a_row_has_them(selector, name, third, other);
                        if let Some(fourth) = bound(selector, name, third) {
                            lemma_extends(selector, name, third, fourth, other);
                        }
                    }
                }
            }
        }
    }
}

/// A row keeps its bindings when a value is put into it, and stays a part of a row that has
/// the value too.
proof fn lemma_extends(
    selector: TupleSelector,
    value: EncodedTerm,
    row: TupleView,
    made: TupleView,
    other: TupleView,
)
    requires
        bound(selector, value, row) == Some(made),
    ensures
        forall|i: int| (#[trigger] row.column(i)) is Some ==> made.column(i) == row.column(i),
        forall|i: int|
            (#[trigger] made.column(i)) is Some ==> row.column(i) is Some || selector
                == TupleSelector::Variable(i as usize),
        selected(selector, made) == Some(value),
        (forall|i: int|
            (#[trigger] row.column(i)) is Some ==> other.column(i) == row.column(i)) && selected(
            selector,
            other,
        ) == Some(value) ==> (forall|i: int|
            (#[trigger] made.column(i)) is Some ==> other.column(i) == made.column(i)),
{
    law_values_fit_where_a_row_has_them(selector, value, row, other);
    assert forall|i: int| (#[trigger] row.column(i)) is Some implies made.column(i) == row.column(
        i,
    ) by {
        assert(made.column(i) == row.column(i) || row.column(i) is None);
    }
}

/// The rows of the quads that a pattern reads.
pub struct QuadPatternOperator {
    quads: QuadDeltas,
    from: InternalTuple,
    subject: TupleSelector,
    predicate: TupleSelector,
    object: TupleSelector,
    graph_name: Option<TupleSelector>,
    held: Ghost<Seq<TupleView>>,
}

impl QuadPatternOperator {
    pub closed spec fn wf(&self) -> bool {
        &&& self.quads.wf()
        &&& self.subject.in_range()
        &&& self.predicate.in_range()
        &&& self.object.in_range()
        &&& self.graph_name matches Some(selector) ==> selector.in_range()
    }

    pub closed spec fn sources(&self) -> Seq<LiveQuadDeltaSource> {
        self.quads.sources()
    }

    pub closed spec fn quads(&self) -> QuadDeltas {
        self.quads
    }

    /// The row that a quad gives.
    pub closed spec fn matched(&self) -> spec_fn(InternalQuad) -> Option<TupleView> {
        matched(self.from@, self.subject, self.predicate, self.object, self.graph_name)
    }

    /// Whether a quad of a graph without a name may turn up although a name is asked for.
    pub closed spec fn blind(&self) -> bool {
        self.graph_name is Some && !all_named(self.quads.shape(), self.quads.sources())
    }

    pub closed spec fn held(&self) -> Seq<TupleView> {
        self.held@
    }

    pub closed spec fn consistent(&self) -> bool {
        &&& self.quads.consistent()
        &&& same_bag(self.held@, filter_map(self.quads.held(), self.matched()))
    }

    pub closed spec fn fuel(&self) -> nat {
        self.quads.fuel()
    }

    pub closed spec fn live(&self) -> bool {
        self.quads.live()
    }

    pub closed spec fn goal(&self) -> Seq<TupleView> {
        filter_map(self.quads.goal(), self.matched())
    }

    pub open spec fn flow(&self) -> Flow<TupleView> {
        Flow {
            held: self.held(),
            goal: self.goal(),
            sound: self.consistent() && all_sound(self.sources()),
            fuel: self.fuel(),
            live: self.live(),
        }
    }

    /// What the parts of the operator are.
    pub proof fn lemma_parts(&self)
        ensures
            self.sources() == self.quads().sources(),
            self.goal() == filter_map(
                shaped(self.quads().shape(), led_to(self.sources())),
                self.matched(),
            ),
            self.live() == exists|i: int|
                0 <= i < self.sources().len() && (
                #[trigger] self.sources()[i]).subscription() is Some,
            self.fuel() == changes_left(self.sources()),
    {
        self.quads.lemma_live();
    }

    pub fn new(
        quads: QuadDeltas,
        from: InternalTuple,
        subject: TupleSelector,
        predicate: TupleSelector,
        object: TupleSelector,
        graph_name: Option<TupleSelector>,
    ) -> (operator: Self)
        requires
            quads.wf(),
            quads.held().len() == 0,
            subject.in_range(),
            predicate.in_range(),
            object.in_range(),
            graph_name matches Some(selector) ==> selector.in_range(),
        ensures
            operator.wf(),
            operator.quads() == quads,
            operator.sources() == quads.sources(),
            operator.matched() == matched(from@, subject, predicate, object, graph_name),
            operator.blind() == (graph_name is Some && !all_named(
                quads.shape(),
                quads.sources(),
            )),
            operator.held() == Seq::<TupleView>::empty(),
            quads.consistent() ==> operator.consistent(),
    {
        let operator = QuadPatternOperator {
            quads,
            from,
            subject,
            predicate,
            object,
            graph_name,
            held: Ghost(Seq::empty()),
        };
        assert(quads.held() =~= Seq::empty());
        assert(filter_map(quads.held(), operator.matched()) =~= Seq::empty());
        operator
    }

    /// The row that a quad gives, if any.
    fn match_quad(&self, quad: InternalQuad) -> (result: Result<
        Option<InternalTuple>,
        QueryEvaluationError,
    >)
        requires
            self.wf(),
        ensures
            match result {
                Ok(Some(tuple)) => self.matched()(quad) == Some(tuple@),
                Ok(None) => self.matched()(quad) is None,
                Err(error) => error == QueryEvaluationError::UnexpectedDefaultGraph
                    && self.graph_name is Some && quad.graph_name is None,
            },
            self.graph_name is None || quad.graph_name is Some ==> result is Ok,
    {
        let mut tuple = self.from.duplicate();
        if !put_pattern_value(&self.subject, quad.subject, &mut tuple) {
            return Ok(None);
        }
        if !put_pattern_value(&self.predicate, quad.predicate, &mut tuple) {
            return Ok(None);
        }
        if !put_pattern_value(&self.object, quad.object, &mut tuple) {
            return Ok(None);
        }
        if let Some(selector) = &self.graph_name {
            let name = match quad.graph_name {
                Some(name) => name,
                None => {
                    return Err(QueryEvaluationError::UnexpectedDefaultGraph);
                },
            };
            if !put_pattern_value(selector, name, &mut tuple) {
                return Ok(None);
            }
        }
        Ok(Some(tuple))
    }

    /// The next change. `alive` tells whether the query was not cancelled.
    pub fn next(&mut self, alive: bool) -> (item: TupleItem)
        requires
            old(self).wf(),
        ensures
            final(self).wf(),
            final(self).quads().shape() == old(self).quads().shape(),
            final(self).matched() == old(self).matched(),
            final(self).blind() == old(self).blind(),
            same_subscriptions(old(self).sources(), final(self).sources()),
            on_course(old(self).sources(), final(self).sources()),
            flows(old(self).flow(), final(self).flow(), item_view(item)),
            may_come(old(self).flow().sound, alive, old(self).blind(), item),
            accounted(old(self).sources(), final(self).sources(), alive, item),
    {
        let ghost before = *self;
        let ghost f = self.matched();
        proof {
            lemma_same(before.sources());
        }
        loop
            invariant
                self.wf(),
                before == *old(self),
                self.quads.shape() == before.quads.shape(),
                f == self.matched(),
                f == before.matched(),
                self.graph_name == before.graph_name,
                same_subscriptions(before.sources(), self.sources()),
                on_course(before.sources(), self.sources()),
                same_failures(before.sources(), self.sources()),
                self.fuel() <= before.fuel(),
                self.live() == before.live(),
                self.held@ == before.held@,
                before.flow().sound ==> self.flow().sound && same_bag(
                    self.quads.goal(),
                    before.quads.goal(),
                ),
            decreases self.quads.fuel(),
        {
            let ghost current = *self;
            let item = self.quads.next(alive);
            proof {
                lemma_same_transitive(before.sources(), current.sources(), self.sources());
                lemma_on_course_transitive(before.sources(), current.sources(), self.sources());
                lemma_same_named(self.quads.shape(), before.sources(), self.sources());
                lemma_same_named(self.quads.shape(), self.sources(), before.sources());
                if before.flow().sound && !(item matches Some(Err(_))) {
                    lemma_same_bag_transitive(
                        self.quads.goal(),
                        current.quads.goal(),
                        before.quads.goal(),
                    );
                    lemma_filter_map_same_bag(self.quads.goal(), before.quads.goal(), f);
                }
            }
            let delta = match item {
                None => {
                    proof {
                        if before.flow().sound {
                            lemma_mapped_pause(
                                self.quads.held(),
                                self.quads.goal(),
                                self.held@,
                                f,
                            );
                        }
                    }
                    return None;
                },
                Some(Ok(StreamingItem::Pending)) => {
                    proof {
                        if before.flow().sound {
                            lemma_mapped_pause(
                                self.quads.held(),
                                self.quads.goal(),
                                self.held@,
                                f,
                            );
                        }
                    }
                    return Some(Ok(StreamingItem::Pending));
                },
                Some(Err(error)) => {
                    proof {
                        if let QueryEvaluationError::Dataset(failure) = error {
                            lemma_same_failures(before.sources(), current.sources(), failure);
                            if before.flow().sound {
                                lemma_sound_sources_do_not_fail(current.sources(), failure);
                            }
                        }
                    }
                    return Some(Err(error));
                },
                Some(Ok(StreamingItem::Item(delta))) => delta,
            };
            let ghost full = delta;
            let (kind, quad) = delta.into_parts();
            proof {
                if before.flow().sound {
                    lemma_mapped_step(current.quads.held(), current.held@, f, full);
                }
            }
            match self.match_quad(quad) {
                Err(error) => {
                    proof {
                        if before.flow().sound && !before.blind() {
                            lemma_same_named(
                                self.quads.shape(),
                                before.sources(),
                                current.sources(),
                            );
                        }
                    }
                    return Some(Err(error));
                },
                Ok(Some(tuple)) => {
                    let ghost change = Delta::made(kind, tuple@);
                    assert(mapped(f, full) == Some(change));
                    self.held = Ghost(step(current.held@, change));
                    return Some(Ok(StreamingItem::Item(Delta::with_kind(kind, tuple))));
                },
                Ok(None) => {},
            }
        }
    }

    /// Takes over the changes that wait for the sources.
    pub fn refill(&mut self, storage: &mut Storage)
        requires
            old(self).wf(),
            old(storage).wf(),
        ensures
            final(self).wf(),
            final(self).quads().shape() == old(self).quads().shape(),
            final(self).matched() == old(self).matched(),
            final(self).blind() == old(self).blind(),
            final(self).held() == old(self).held(),
            old(self).consistent() ==> final(self).consistent(),
            !old(self).live() ==> final(self).goal() == old(self).goal(),
            refilled(old(self).sources(), final(self).sources(), *old(storage), *final(storage)),
    {
        let ghost before = *self;
        let ghost start = *storage;
        self.quads.refill(storage);
        proof {
            lemma_same_named(self.quads.shape(), before.sources(), self.sources());
            lemma_same_named(self.quads.shape(), self.sources(), before.sources());
            if !before.live() {
                before.quads.lemma_live();
                lemma_refilled_quiet(before.sources(), self.sources(), start, *storage);
            }
        }
    }

    /// Ends the subscriptions of the sources.
    pub fn close(self, storage: &mut Storage)
        requires
            old(storage).wf(),
        ensures
            released(self.sources(), *old(storage), *final(storage)),
    {
        self.quads.close(storage);
    }
}

/// Whether quads have names depends on the patterns alone.
proof fn lemma_same_named(
    shape: QuadShape,
    before: Seq<LiveQuadDeltaSource>,
    after: Seq<LiveQuadDeltaSource>,
)
    requires
        after.len() == before.len(),
        forall|i: int|
            0 <= i < after.len() ==> (#[trigger] after[i]).pattern() == before[i].pattern(),
    ensures
        all_named(shape, before) ==> all_named(shape, after),
{
    if all_named(shape, before) && shape == QuadShape::Plain {
        assert forall|i: int| 0 <= i < after.len() implies names_graph(
            (#[trigger] after[i]).pattern(),
        ) by {
            assert(names_graph(before[i].pattern()));
        }
    }
}

/// A row extended by the columns of another row, each pair of columns being the column of
/// the other row and the column of this one; unless the rows contradict each other.
pub open spec fn projected(
    from: TupleView,
    mapping: Seq<(usize, usize)>,
    row: TupleView,
) -> Option<TupleView>
    decreases mapping.len(),
{
    if mapping.len() == 0 {
        Some(from)
    } else {
        match projected(from, mapping.drop_last(), row) {
            None => None,
            Some(output) => match row.column(mapping.last().0 as int) {
                None => Some(output),
                Some(value) => bound(TupleSelector::Variable(mapping.last().1), value, output),
            },
        }
    }
}

/// The projection as a function of the row.
pub open spec fn projection(from: TupleView, mapping: Seq<(usize, usize)>) -> spec_fn(
    TupleView,
) -> Option<TupleView> {
    |row: TupleView| projected(from, mapping, row)
}

/// A row is projected exactly where there is a row that has the bindings of the context and,
/// in each outer column, the value of the inner one. The row that it is projected to is such a
/// row, and binds no further column.
pub proof fn law_rows_are_projected_column_by_column(
    from: TupleView,
    mapping: Seq<(usize, usize)>,
    row: TupleView,
    other: TupleView,
)
    ensures
        (forall|i: int| (#[trigger] from.column(i)) is Some ==> other.column(i) == from.column(i))
            && (forall|k: int|
            0 <= k < mapping.len() && row.column((#[trigger] mapping[k]).0 as int) is Some
                ==> other.column(mapping[k].1 as int) == row.column(mapping[k].0 as int))
            ==> projected(from, mapping, row) is Some,
        projected(from, mapping, row) matches Some(output) ==> {
            &&& forall|k: int|
                0 <= k < mapping.len() && row.column((#[trigger] mapping[k]).0 as int) is Some
                    ==> output.column(mapping[k].1 as int) == row.column(mapping[k].0 as int)
            &&& forall|i: int|
                (#[trigger] from.column(i)) is Some ==> output.column(i) == from.column(i)
            &&& forall|i: int|
                (#[trigger] output.column(i)) is Some ==> from.column(i) is Some || exists|k: int|
                    0 <= k < mapping.len() && (#[trigger] mapping[k]).1 == i && row.column(
                        mapping[k].0 as int,
                    ) == output.column(i)
            &&& output.graph_name == from.graph_name
        },
{
    lemma_projected_part(from, mapping, row, other);
}

proof fn lemma_projected_part(
    from: TupleView,
    mapping: Seq<(usize, usize)>,
    row: TupleView,
    other: TupleView,
)
    ensures
        (forall|i: int| (#[trigger] from.column(i)) is Some ==> other.column(i) == from.column(i))
            && (forall|k: int|
            0 <= k < mapping.len() && row.column((#[trigger] mapping[k]).0 as int) is Some
                ==> other.column(mapping[k].1 as int) == row.column(mapping[k].0 as int))
            ==> projected(from, mapping, row) is Some && forall|i: int|
            (#[trigger] projected(from, mapping, row)->0.column(i)) is Some ==> other.column(i)
                == projected(from, mapping, row)->0.column(i),
        projected(from, mapping, row) matches Some(output) ==> {
            &&& forall|k: int|
                0 <= k < mapping.len() && row.column((#[trigger] mapping[k]).0 as int) is Some
                    ==> output.column(mapping[k].1 as int) == row.column(mapping[k].0 as int)
            &&& forall|i: int|
                (#[trigger] from.column(i)) is Some ==> output.column(i) == from.column(i)
            &&& forall|i: int|
                (#[trigger] output.column(i)) is Some ==> from.column(i) is Some || exists|k: int|
                    0 <= k < mapping.len() && (#[trigger] mapping[k]).1 == i && row.column(
                        mapping[k].0 as int,
                    ) == output.column(i)
            &&& output.graph_name == from.graph_name
        },
    decreases mapping.len(),
{
    if mapping.len() > 0 {
        let front = mapping.drop_last();
        let last = mapping.len() - 1;
        lemma_projected_part(from, front, row, other);
        if (forall|k: int|
            0 <= k < mapping.len() && row.column((#[trigger] mapping[k]).0 as int) is Some
                ==> other.column(mapping[k].1 as int) == row.column(mapping[k].0 as int)) {
            assert forall|k: int|
                0 <= k < front.len() && row.column((#[trigger] front[k]).0 as int) is Some implies other.column(
            front[k].1 as int) == row.column(front[k].0 as int) by {
                assert(mapping[k] == front[k]);
            }
            assert(mapping[last] == mapping.last());
        }
        if let Some(output) = projected(from, front, row) {
            if let Some(value) = row.column(mapping.last().0 as int) {
                let selector = TupleSelector::Variable(mapping.last().1);
                law_values_fit_where_a_row_has_them(selector, value, output, other);
                if let Some(made) = bound(selector, value, output) {
                    lemma_extends(selector, value, output, made, other);
                    assert forall|k: int|
                        0 <= k < mapping.len() && row.column(
                            (#[trigger] mapping[k]).0 as int,
                        ) is Some implies made.column(mapping[k].1 as int) == row.column(
                        mapping[k].0 as int,
                    ) by {
                        if k < last {
                            assert(front[k] == mapping[k]);
                            assert(output.column(front[k].1 as int) == row.column(
                                front[k].0 as int,
                            ));
                        }
                    }
                    assert forall|i: int|
                        (#[trigger] made.column(i)) is Some implies from.column(i) is Some
                        || exists|k: int|
                        0 <= k < mapping.len() && (#[trigger] mapping[k]).1 == i && row.column(
                            mapping[k].0 as int,
                        ) == made.column(i) by {
                        if output.column(i) is Some {
                            if from.column(i) is None {
                                let k = choose|k: int|
                                    0 <= k < front.len() && (#[trigger] front[k]).1 == i
                                        && row.column(front[k].0 as int) == output.column(i);
                                assert(mapping[k] == front[k]);
                            }
                        } else {
                            assert(mapping[last].1 == i as usize);
                            assert(i == mapping[last].1);
                        }
                    }
                }
            } else {
                assert forall|k: int|
                    0 <= k < mapping.len() && row.column((#[trigger] mapping[k]).0 as int) is Some implies output.column(
                mapping[k].1 as int) == row.column(mapping[k].0 as int) by {
                    assert(k < last);
                    assert(front[k] == mapping[k]);
                }
                assert forall|i: int|
                    (#[trigger] output.column(i)) is Some implies from.column(i) is Some
                    || exists|k: int|
                    0 <= k < mapping.len() && (#[trigger] mapping[k]).1 == i && row.column(
                        mapping[k].0 as int,
                    ) == output.column(i) by {
                    if from.column(i) is None {
                        let k = choose|k: int|
                            0 <= k < front.len() && (#[trigger] front[k]).1 == i && row.column(
                                front[k].0 as int,
                            ) == output.column(i);
                        assert(mapping[k] == front[k]);
                    }
                }
            }
        }
    }
}

/// The projection of rows to some of their columns, in the context of a row.
pub struct ProjectOperator {
    from: InternalTuple,
    mapping: Vec<(usize, usize)>,
    held: Ghost<Seq<TupleView>>,
}

impl ProjectOperator {
    pub closed spec fn wf(&self) -> bool {
        forall|i: int| 0 <= i < self.mapping@.len() ==> (#[trigger] self.mapping@[i]).1 < usize::MAX
    }

    /// What a row is projected to.
    pub closed spec fn projection(&self) -> spec_fn(TupleView) -> Option<TupleView> {
        projection(self.from@, self.mapping@)
    }

    pub closed spec fn held(&self) -> Seq<TupleView> {
        self.held@
    }

    pub fn new(from: InternalTuple, mapping: Vec<(usize, usize)>) -> (operator: Self)
        requires
            forall|i: int| 0 <= i < mapping@.len() ==> (#[trigger] mapping@[i]).1 < usize::MAX,
        ensures
            operator.wf(),
            operator.projection() == projection(from@, mapping@),
            operator.held() == Seq::<TupleView>::empty(),
    {
        ProjectOperator { from, mapping, held: Ghost(Seq::empty()) }
    }

    /// What a row is projected to.
    fn project(&self, tuple: &InternalTuple) -> (output: Option<InternalTuple>)
        requires
            self.wf(),
        ensures
            match output {
                Some(output) => self.projection()(tuple@) == Some(output@),
                None => self.projection()(tuple@) is None,
            },
    {
        let mut output = self.from.duplicate();
        let mut next: usize = 0;
        let ghost mapping = self.mapping@;
        while next < self.mapping.len()
            invariant
                self.wf(),
                mapping == self.mapping@,
                next <= mapping.len(),
                projected(self.from@, mapping.take(next as int), tuple@) == Some(output@),
            decreases mapping.len() - next,
        {
            let (input_key, output_key) = self.mapping[next];
            proof {
                assert(mapping.take(next + 1).drop_last() =~= mapping.take(next as int));
                assert(mapping.take(next + 1).last() == (input_key, output_key));
            }
            if let Some(value) = tuple.get(input_key) {
                if !put_pattern_value(&TupleSelector::Variable(output_key), value, &mut output) {
                    proof {
                        lemma_projected_none(self.from@, mapping, tuple@, next + 1);
                    }
                    return None;
                }
            }
            next = next + 1;
        }
        assert(mapping.take(next as int) =~= mapping);
        Some(output)
    }

    /// The change of a projected row that a change of a row gives, if any.
    pub fn take(&mut self, delta: Delta<InternalTuple>) -> (change: Option<Delta<InternalTuple>>)
        requires
            old(self).wf(),
        ensures
            final(self).wf(),
            final(self).projection() == old(self).projection(),
            match change {
                Some(change) => mapped(old(self).projection(), delta_view(delta)) == Some(
                    delta_view(change),
                ) && final(self).held() == step(old(self).held(), delta_view(change)),
                None => {
                    &&& mapped(old(self).projection(), delta_view(delta)) is None
                    &&& final(self).held() == old(self).held()
                },
            },
    {
        let ghost before = *self;
        let (kind, tuple) = delta.into_parts();
        match self.project(&tuple) {
            Some(output) => {
                let change = Delta::with_kind(kind, output);
                self.held = Ghost(step(before.held@, delta_view(change)));
                Some(change)
            },
            None => None,
        }
    }
}

/// A projection that fails for some columns fails for all.
proof fn lemma_projected_none(
    from: TupleView,
    mapping: Seq<(usize, usize)>,
    row: TupleView,
    at: int,
)
    requires
        0 <= at <= mapping.len(),
        projected(from, mapping.take(at), row) is None,
    ensures
        projected(from, mapping, row) is None,
    decreases mapping.len(),
{
    if at == mapping.len() {
        assert(mapping.take(at) =~= mapping);
    } else {
        assert(mapping.drop_last().take(at) =~= mapping.take(at));
        lemma_projected_none(from, mapping.drop_last(), row, at);
    }
}

} // verus!
