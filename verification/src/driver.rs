//! Queries that run and are kept up to date.

use crate::algebra::{compiled, lemma_bind_proper, proper, QueryExpression};
use crate::attachment::{
    attached, belongs, extended, law_refilled_sources_are_up_to_date, nothing_waits, refilled,
    separate, taken_over, waiting_for,
};
use crate::bag::{concat, lemma_same_bag_transitive, same_bag};
use crate::delta::{Delta, IncrementalDriverState, StreamingItem};
use crate::error::{CorruptionError, QueryEvaluationError, StorageError};
use crate::eval_dataset::EvalDataset;
use crate::evaluator::SimpleIncrementalEvaluator;
use crate::join_values::delta_view;
use crate::listing::{
    lead_to, lemma_leads_to_picked, lemma_up_to_date_sources_lead_to, lists_quads, picked,
};
use crate::live::only_at;
use crate::model::{names, Term, TermView, Variable};
use crate::node::{
    law_live_queries_have_subscriptions, law_query_leads_to_its_answer, lemma_failures_transitive,
    lemma_justified, lemma_progressed, lemma_progressed_transitive, same_node, same_shape,
    tolerable, DeltaNode,
};
use crate::notifier::{
    waits, waits_no_more, CancellationToken, ChangePoll, NotifierChangeFuture, Waker,
};
use crate::numeric_encoder::{decoded, encoded, term_entries, EncodedQuad, StrHash};
use crate::operators::justified;
use crate::opening::{at_start, damage_met, lemma_opened_from, opened};
use crate::replay::{applies, lemma_played_add, lemma_played_push, played, plays, step};
use crate::solution::{value_views, QuerySolution};
use crate::source::{law_commits_are_followed, lemma_concerns_add, LiveQuadDeltaSource};
use crate::stats::{views, EvalNodeWithStats};
use crate::storage::{Storage, StorageReader};
use crate::streams::{keeps_course, none_failing, same_failures, source_goal};
use crate::table::{reports, share};
use crate::transaction::{told, Published};
use crate::tuple::{
    column_of, law_binding_changes_one_column, law_variables_have_their_columns, InternalTuple,
    TupleView,
};
use std::sync::Arc;
use vstd::prelude::*;

verus! {

/// The values of the first columns of a row, or why they cannot be told.
pub open spec fn decoded_values(
    row: TupleView,
    width: nat,
    lookup: spec_fn(StrHash) -> Option<Seq<u8>>,
) -> Result<Seq<Option<TermView>>, CorruptionError>
    decreases width,
{
    if width == 0 {
        Ok(Seq::empty())
    } else {
        match decoded_values(row, (width - 1) as nat, lookup) {
            Err(flaw) => Err(flaw),
            Ok(front) => match row.column(width - 1) {
                None => Ok(front.push(None)),
                Some(term) => match decoded(term, lookup) {
                    Ok(value) => Ok(front.push(Some(value))),
                    Err(flaw) => Err(flaw),
                },
            },
        }
    }
}

/// Whether a change of a solution shows a change of a row.
pub open spec fn shown(
    row: Delta<TupleView>,
    change: Delta<QuerySolution>,
    names: Seq<Seq<u8>>,
    lookup: spec_fn(StrHash) -> Option<Seq<u8>>,
) -> bool {
    &&& change.kind_of() == row.kind_of()
    &&& change.value_of().names() == names
    &&& decoded_values(row.value_of(), names.len(), lookup) == Ok::<
        Seq<Option<TermView>>,
        CorruptionError,
    >(change.value_of()@)
}

/// Whether changes of solutions show changes of rows, one for one.
pub open spec fn all_shown(
    rows: Seq<Delta<TupleView>>,
    changes: Seq<Delta<QuerySolution>>,
    names: Seq<Seq<u8>>,
    lookup: spec_fn(StrHash) -> Option<Seq<u8>>,
) -> bool {
    &&& rows.len() == changes.len()
    &&& forall|i: int|
        0 <= i < changes.len() ==> shown(rows[i], #[trigger] changes[i], names, lookup)
}

/// The dataset and the notifier of a running query.
pub struct IncrementalDriverCore {
    dataset: EvalDataset,
    notifier: usize,
}

/// A SELECT query that runs and is kept up to date.
pub struct IncrementalSelectDriver {
    core: IncrementalDriverCore,
    variables: Arc<Vec<Variable>>,
    iter: DeltaNode,
    last_rows: Ghost<Seq<Delta<TupleView>>>,
}

impl IncrementalSelectDriver {
    pub closed spec fn wf(&self) -> bool {
        self.core.dataset.wf() && self.iter.wf()
    }

    pub closed spec fn dataset(&self) -> EvalDataset {
        self.core.dataset
    }

    /// The number of the notifier of the query.
    pub closed spec fn notifier(&self) -> usize {
        self.core.notifier
    }

    /// The names of the variables of the query.
    pub closed spec fn names(&self) -> Seq<Seq<u8>> {
        names(self.variables@)
    }

    pub closed spec fn node(&self) -> DeltaNode {
        self.iter
    }

    /// The changes of rows behind the changes of solutions that were handed out last.
    pub closed spec fn last_rows(&self) -> Seq<Delta<TupleView>> {
        self.last_rows@
    }

    /// The rows that the consumer holds.
    pub open spec fn held(&self) -> Seq<TupleView> {
        self.node().held()
    }

    pub open spec fn sources(&self) -> Seq<LiveQuadDeltaSource> {
        self.node().sources()
    }

    /// The rows that the query has over a list of quads.
    pub open spec fn answer(&self, listing: Seq<EncodedQuad>) -> Seq<TupleView> {
        self.node().answer(listing)
    }

    /// The view of the store that the query has.
    pub open spec fn reader(&self) -> StorageReader {
        self.dataset().dataset().reader()
    }

    /// Where the strings of the results are found.
    pub open spec fn lookup(&self, storage: Storage) -> spec_fn(StrHash) -> Option<Seq<u8>> {
        self.dataset().dataset().lookup(storage)
    }

    /// The quads that the query is about: those that are committed, or those of a view that
    /// does not change.
    pub open spec fn subject_matter(&self, storage: Storage) -> Set<EncodedQuad> {
        if self.reader().refreshes() {
            storage.table().quads()
        } else {
            self.reader().table().quads()
        }
    }

    /// Whether a source follows what the query is about.
    pub open spec fn attends(&self, source: LiveQuadDeltaSource, storage: Storage) -> bool {
        if self.reader().refreshes() {
            source.follows(storage)
        } else {
            source.reads(self.reader().table())
        }
    }

    /// Whether the query follows what it is about.
    pub open spec fn in_tune(&self, storage: Storage) -> bool {
        &&& self.node().consistent()
        &&& separate(self.sources())
        &&& forall|i: int|
            0 <= i < self.sources().len() ==> self.attends(#[trigger] self.sources()[i], storage)
    }

    /// Whether the query holds the rows that it has over what it is about.
    pub open spec fn complete(&self, storage: Storage) -> bool {
        forall|listing: Seq<EncodedQuad>|
            lists_quads(listing, self.subject_matter(storage)) ==> same_bag(
                self.held(),
                #[trigger] self.answer(listing),
            )
    }

    /// Whether nothing waits for the query in a store.
    pub open spec fn heard_all(&self, storage: Storage) -> bool {
        nothing_waits(self.sources(), storage)
    }

    /// Whether the query has nothing to hand out, and nothing waits for it in a store.
    pub open spec fn idle(&self, storage: Storage) -> bool {
        self.node().fuel() == 0 && self.heard_all(storage)
    }

    /// Whether this is the same query at another moment.
    pub open spec fn same_query(&self, other: Self) -> bool {
        &&& self.wf()
        &&& self.dataset() == other.dataset()
        &&& self.notifier() == other.notifier()
        &&& self.names() == other.names()
        &&& same_shape(other.node(), self.node())
    }

    /// Whether the notifier of the query is registered.
    pub open spec fn registered(&self, storage: Storage) -> bool {
        self.notifier() < storage.registry().len() && storage.registry()[self.notifier() as int] is Some
    }

    /// A query that follows what it is about, and has nothing to hear of, leads to its rows.
    pub proof fn lemma_goal(&self, storage: Storage, listing: Seq<EncodedQuad>)
        requires
            self.in_tune(storage),
            self.heard_all(storage),
            lists_quads(listing, self.subject_matter(storage)),
        ensures
            same_bag(self.node().goal(), self.answer(listing)),
    {
        let sources = self.sources();
        assert(lead_to(sources, listing)) by {
            if self.reader().refreshes() {
                assert forall|i: int| 0 <= i < sources.len() implies (
                #[trigger] sources[i]).subscription() is Some && sources[i].follows(storage) by {
                    assert(self.attends(sources[i], storage));
                }
                lemma_up_to_date_sources_lead_to(sources, storage, listing);
            } else {
                assert forall|i: int| 0 <= i < sources.len() implies same_bag(
                    source_goal()(#[trigger] sources[i]),
                    picked(listing, sources[i].pattern()),
                ) by {
                    assert(self.attends(sources[i], storage));
                    lemma_leads_to_picked(
                        sources[i],
                        self.reader().table().quads(),
                        listing,
                    );
                }
            }
        }
        law_query_leads_to_its_answer(self.node(), listing);
    }

    /// A query that follows what it is about, and has nothing to hear of, can be relied on.
    pub proof fn lemma_sound(&self, storage: Storage)
        requires
            self.in_tune(storage),
            self.heard_all(storage),
        ensures
            self.node().sound(),
    {
        let sources = self.sources();
        assert forall|i: int| 0 <= i < sources.len() implies (#[trigger] sources[i]).sound() by {
            assert(self.attends(sources[i], storage));
            if self.reader().refreshes() {
                let id = sources[i].subscription()->0;
                let waiting = storage.subscribers()[id].changes;
                assert(crate::storage::waiting_changes(storage.subscribers(), id).len() == 0);
                assert(waiting =~= Seq::empty());
                assert(sources[i].events() + waiting =~= sources[i].events());
            }
        }
    }

    /// A query that hands out changes follows what it is about as before.
    proof fn lemma_still_in_tune(&self, before: Self, storage: Storage)
        requires
            before.in_tune(storage),
            before.heard_all(storage),
            self.dataset() == before.dataset(),
            same_node(before.node(), self.node()),
            self.node().consistent(),
        ensures
            self.in_tune(storage),
            self.heard_all(storage),
    {
        let old_sources = before.sources();
        let sources = self.sources();
        before.lemma_sound(storage);
        assert forall|i: int, j: int|
            0 <= i < j < sources.len() && (
            #[trigger] sources[i]).subscription() is Some implies sources[i].subscription() != (
        #[trigger] sources[j]).subscription() by {
            assert(old_sources[i].subscription() != old_sources[j].subscription());
        }
        assert forall|i: int| 0 <= i < sources.len() implies self.attends(
            #[trigger] sources[i],
            storage,
        ) && (sources[i].subscription() is Some ==> crate::storage::waiting_changes(
            storage.subscribers(),
            sources[i].subscription()->0,
        ).len() == 0) by {
            assert(before.attends(old_sources[i], storage));
            assert(keeps_course(old_sources[i], sources[i]));
            assert(sources[i].subscription() == old_sources[i].subscription());
            assert(old_sources[i].sound());
            lemma_course(old_sources[i], sources[i], storage);
        }
    }

    /// A query is the same query.
    pub(crate) proof fn lemma_same_query(&self)
        requires
            self.wf(),
        ensures
            self.same_query(*self),
    {
        lemma_progressed(self.node());
        crate::graphs::lemma_same(self.iter.sources());
    }

    /// The variables of the query, in projection order.
    pub fn variables(&self) -> (variables: Arc<Vec<Variable>>)
        ensures
            names(variables@) == self.names(),
    {
        share(&self.variables)
    }

    /// How many changes the query has observed, modulo 2^64.
    pub fn change_generation(&self, storage: &Storage) -> (generation: u64)
        requires
            self.registered(*storage),
        ensures
            generation == storage.registry()[self.notifier() as int]->0.changes(),
    {
        proof {
            storage.lemma_parts();
        }
        match storage.state_ref().generation(self.core.notifier) {
            Some(generation) => generation,
            None => 0,
        }
    }

    /// Makes the next change that the query observes wake a task.
    pub fn register_waker(&self, storage: &mut Storage, waker: &Waker)
        requires
            old(storage).wf(),
            self.registered(*old(storage)),
        ensures
            final(storage).wf(),
            final(storage).table() == old(storage).table(),
            final(storage).on_disk() == old(storage).on_disk(),
            final(storage).read_only() == old(storage).read_only(),
            final(storage).subscribers() == old(storage).subscribers(),
            only_at(old(storage).registry(), final(storage).registry(), self.notifier()),
            self.registered(*final(storage)),
            final(storage).registry()[self.notifier() as int]->0.changes()
                == old(storage).registry()[self.notifier() as int]->0.changes(),
            final(storage).registry()[self.notifier() as int]->0.waiting() == Some(*waker),
    {
        proof {
            storage.lemma_parts();
        }
        storage.state_mut().register_waker(self.core.notifier, waker);
    }

    /// The wait for a change after the generation `baseline`.
    pub fn wait_for_change(&self, baseline: u64) -> (future: NotifierChangeFuture)
        ensures
            future.baseline == baseline,
            future.cancellation_waker is None,
    {
        NotifierChangeFuture { baseline, cancellation_waker: None }
    }

    /// Polls a wait for a change.
    pub fn poll_change(
        &self,
        storage: &mut Storage,
        future: &mut NotifierChangeFuture,
        token: &mut CancellationToken,
        waker: &Waker,
    ) -> (poll: ChangePoll)
        requires
            old(storage).wf(),
            self.registered(*old(storage)),
        ensures
            final(storage).wf(),
            final(storage).table() == old(storage).table(),
            final(storage).on_disk() == old(storage).on_disk(),
            final(storage).read_only() == old(storage).read_only(),
            final(storage).subscribers() == old(storage).subscribers(),
            only_at(old(storage).registry(), final(storage).registry(), self.notifier()),
            self.registered(*final(storage)),
            waits(
                *old(future),
                *final(future),
                old(storage).registry()[self.notifier() as int]->0,
                final(storage).registry()[self.notifier() as int]->0,
                *old(token),
                *final(token),
                *waker,
                poll,
            ),
    {
        proof {
            storage.lemma_parts();
        }
        match storage.state_mut().poll_change(self.core.notifier, future, token, waker) {
            Some(poll) => poll,
            None => ChangePoll::Pending,
        }
    }

    /// Ends a wait for a change: no task is woken on its behalf any more.
    pub fn close_wait(
        &self,
        storage: &mut Storage,
        future: &mut NotifierChangeFuture,
        token: &mut CancellationToken,
    )
        requires
            old(storage).wf(),
            self.registered(*old(storage)),
        ensures
            final(storage).wf(),
            final(storage).table() == old(storage).table(),
            final(storage).on_disk() == old(storage).on_disk(),
            final(storage).read_only() == old(storage).read_only(),
            final(storage).subscribers() == old(storage).subscribers(),
            only_at(old(storage).registry(), final(storage).registry(), self.notifier()),
            self.registered(*final(storage)),
            waits_no_more(
                *old(future),
                *final(future),
                old(storage).registry()[self.notifier() as int]->0,
                final(storage).registry()[self.notifier() as int]->0,
                *old(token),
                *final(token),
            ),
    {
        proof {
            storage.lemma_parts();
        }
        storage.state_mut().close_wait(self.core.notifier, future, token);
    }

    /// What was measured of the nodes of the query.
    pub fn stats(&self) -> (nodes: Vec<EvalNodeWithStats>)
        ensures
            views(nodes@) == self.node().measured(),
    {
        self.iter.stats()
    }

    /// Takes over the changes that wait for the query.
    pub fn refill(&mut self, storage: &mut Storage)
        requires
            old(self).wf(),
            old(storage).wf(),
        ensures
            final(self).same_query(*old(self)),
            final(self).held() == old(self).held(),
            final(self).last_rows() == Seq::<Delta<TupleView>>::empty(),
            taken_over(old(self).sources(), *old(storage), *final(storage)),
            old(self).in_tune(*old(storage)) ==> {
                &&& final(self).in_tune(*final(storage))
                &&& final(self).heard_all(*final(storage))
            },
            final(self).candid(*old(self), true, None),
            old(self).idle(*old(storage)) ==> final(self).node().fuel() == 0,
    {
        let ghost before = *self;
        let ghost old_storage = *storage;
        self.iter.refill(storage);
        self.last_rows = Ghost(Seq::empty());
        proof {
            if before.in_tune(old_storage) {
                self.lemma_refilled(before, old_storage, *storage);
            }
        }
    }

    proof fn lemma_refilled(&self, before: Self, old_storage: Storage, storage: Storage)
        requires
            before.in_tune(old_storage),
            self.dataset() == before.dataset(),
            self.node().consistent(),
            refilled(before.sources(), self.sources(), old_storage, storage),
        ensures
            self.in_tune(storage),
            self.heard_all(storage),
    {
        let old_sources = before.sources();
        let sources = self.sources();
        assert(attached(old_sources, old_storage)) by {
            assert forall|i: int|
                0 <= i < old_sources.len() implies if (
            #[trigger] old_sources[i]).subscription() is Some {
                old_sources[i].follows(old_storage)
            } else {
                old_sources[i].sound()
            } by {
                assert(before.attends(old_sources[i], old_storage));
            }
        }
        law_refilled_sources_are_up_to_date(old_sources, sources, old_storage, storage);
        assert forall|i: int| 0 <= i < sources.len() implies self.attends(
            #[trigger] sources[i],
            storage,
        ) by {
            assert(before.attends(old_sources[i], old_storage));
            assert(extended(old_sources[i], sources[i], waiting_for(old_sources[i], old_storage)));
            if !self.reader().refreshes() {
                assert(sources[i].events() =~= old_sources[i].events());
            }
        }
    }

    /// The next change among those that were taken over. `alive` tells whether the query was
    /// not cancelled.
    pub(crate) fn advance(&mut self, storage: &Storage, alive: bool) -> (result: Result<
        IncrementalDriverState<Delta<QuerySolution>>,
        QueryEvaluationError,
    >)
        requires
            old(self).wf(),
            storage.wf(),
        ensures
            final(self).same_query(*old(self)),
            final(self).advanced(*old(self), *storage, alive, result),
    {
        let ghost before = *self;
        let item = self.iter.next(alive);
        match item {
            Some(Ok(StreamingItem::Item(delta))) => {
                let ghost row = delta_view(delta);
                let (kind, tuple) = delta.into_parts();
                self.last_rows = Ghost(before.last_rows@.push(row));
                proof {
                    assert(self.last_rows@.drop_last() =~= before.last_rows@);
                    if before.in_tune(*storage) && before.heard_all(*storage) {
                        before.lemma_sound(*storage);
                        self.lemma_still_in_tune(before, *storage);
                    }
                }
                match self.externalize(storage, &tuple) {
                    Ok(values) => Ok(
                        IncrementalDriverState::Item(
                            Delta::with_kind(
                                kind,
                                QuerySolution::new(share(&self.variables), values),
                            ),
                        ),
                    ),
                    Err(error) => Err(error),
                }
            },
            Some(Ok(StreamingItem::Pending)) => {
                proof {
                    if before.in_tune(*storage) && before.heard_all(*storage) {
                        self.lemma_paused(before, *storage);
                    }
                }
                Ok(IncrementalDriverState::Pending)
            },
            Some(Err(error)) => {
                proof {
                    if before.in_tune(*storage) && before.heard_all(*storage) {
                        before.lemma_sound(*storage);
                    }
                }
                Err(error)
            },
            None => {
                proof {
                    if before.in_tune(*storage) && before.heard_all(*storage) {
                        self.lemma_paused(before, *storage);
                    }
                }
                Ok(IncrementalDriverState::Done)
            },
        }
    }

    proof fn lemma_paused(&self, before: Self, storage: Storage)
        requires
            before.in_tune(storage),
            before.heard_all(storage),
            self.dataset() == before.dataset(),
            same_node(before.node(), self.node()),
            before.node().sound() ==> self.node().sound() && same_bag(
                self.node().held(),
                self.node().goal(),
            ),
        ensures
            self.in_tune(storage),
            self.heard_all(storage),
            self.complete(storage),
    {
        before.lemma_sound(storage);
        self.lemma_still_in_tune(before, storage);
        assert forall|listing: Seq<EncodedQuad>|
            lists_quads(listing, self.subject_matter(storage)) implies same_bag(
            self.held(),
            #[trigger] self.answer(listing),
        ) by {
            self.lemma_goal(storage, listing);
            lemma_same_bag_transitive(self.held(), self.node().goal(), self.answer(listing));
        }
    }

    /// What steps of the query tell of the failures of its sources, as long as no error was
    /// handed out before: no failure is passed over, and none is made up.
    pub open spec fn candid(
        &self,
        before: Self,
        alive: bool,
        end: Option<Result<bool, QueryEvaluationError>>,
    ) -> bool {
        before.node().clean() ==> match end {
            None => {
                &&& self.node().clean()
                &&& same_failures(before.sources(), self.sources())
            },
            Some(Ok(_)) => {
                &&& self.node().clean()
                &&& same_failures(before.sources(), self.sources())
                &&& none_failing(self.sources())
            },
            Some(Err(error)) => justified(error, before.sources(), alive),
        }
    }

    proof fn lemma_candid(
        &self,
        last: Self,
        before: Self,
        alive: bool,
        end: Option<Result<bool, QueryEvaluationError>>,
    )
        requires
            last.candid(before, alive, None),
            self.candid(last, alive, end),
        ensures
            self.candid(before, alive, end),
    {
        if before.node().clean() {
            lemma_failures_transitive(before.sources(), last.sources(), self.sources());
            if let Some(Err(error)) = end {
                lemma_justified(error, before.sources(), last.sources(), alive);
            }
        }
    }

    /// What one step of the query tells. A change of a solution shows a change of a row; a
    /// query that has no change to hand out holds its rows; a query that follows what it is
    /// about fails only for the reasons listed.
    pub open spec fn advanced(
        &self,
        before: Self,
        storage: Storage,
        alive: bool,
        result: Result<IncrementalDriverState<Delta<QuerySolution>>, QueryEvaluationError>,
    ) -> bool {
        let ready = before.in_tune(storage) && before.heard_all(storage);
        &&& self.candid(
            before,
            alive,
            match result {
                Ok(IncrementalDriverState::Item(_)) => None,
                Ok(IncrementalDriverState::Pending) => Some(Ok(true)),
                Ok(IncrementalDriverState::Done) => Some(Ok(false)),
                Err(error) => if self.last_rows() == before.last_rows() {
                    Some(Err(error))
                } else {
                    None
                },
            },
        )
        &&& match result {
            Ok(IncrementalDriverState::Item(change)) => {
                let rows = self.last_rows();
                &&& rows.len() > 0
                &&& rows.drop_last() == before.last_rows()
                &&& shown(rows.last(), change, self.names(), self.lookup(storage))
                &&& self.node().fuel() < before.node().fuel()
                &&& self.held() == step(before.held(), rows.last())
                &&& ready ==> {
                    &&& self.in_tune(storage)
                    &&& self.heard_all(storage)
                    &&& applies(before.held(), rows.last())
                }
            },
            Ok(IncrementalDriverState::Pending) => {
                &&& alive
                &&& self.node().live()
                &&& self.node().fuel() == 0
                &&& self.last_rows() == before.last_rows()
                &&& self.held() == before.held()
                &&& ready ==> {
                    &&& self.in_tune(storage)
                    &&& self.heard_all(storage)
                    &&& self.complete(storage)
                }
            },
            Ok(IncrementalDriverState::Done) => {
                &&& !self.node().live()
                &&& self.node().fuel() == 0
                &&& self.last_rows() == before.last_rows()
                &&& self.held() == before.held()
                &&& ready ==> {
                    &&& self.in_tune(storage)
                    &&& self.heard_all(storage)
                    &&& self.complete(storage)
                }
            },
            Err(error) => {
                let rows = self.last_rows();
                if rows == before.last_rows() {
                    &&& self.held() == before.held()
                    &&& ready ==> {
                        &&& tolerable(error, alive, self.node().blind())
                        &&& error != QueryEvaluationError::Cancelled ==> self.in_tune(storage)
                            && self.heard_all(storage)
                    }
                } else {
                    &&& rows.len() > 0
                    &&& rows.drop_last() == before.last_rows()
                    &&& self.node().fuel() < before.node().fuel()
                    &&& decoded_values(
                        rows.last().value_of(),
                        self.names().len(),
                        self.lookup(storage),
                    ) matches Err(flaw) && error == QueryEvaluationError::Dataset(
                        StorageError::Corruption(flaw),
                    )
                    &&& self.held() == step(before.held(), rows.last())
                    &&& ready ==> {
                        &&& self.in_tune(storage)
                        &&& self.heard_all(storage)
                        &&& applies(before.held(), rows.last())
                    }
                }
            },
        }
    }

    /// The values of a row.
    fn externalize(&self, storage: &Storage, tuple: &InternalTuple) -> (result: Result<
        Vec<Option<Term>>,
        QueryEvaluationError,
    >)
        requires
            self.wf(),
            storage.wf(),
        ensures
            match result {
                Ok(values) => decoded_values(tuple@, self.names().len(), self.lookup(*storage))
                    == Ok::<Seq<Option<TermView>>, CorruptionError>(value_views(values@)),
                Err(error) => decoded_values(
                    tuple@,
                    self.names().len(),
                    self.lookup(*storage),
                ) matches Err(flaw) && error == QueryEvaluationError::Dataset(
                    StorageError::Corruption(flaw),
                ),
            },
    {
        let ghost lookup = self.lookup(*storage);
        let ghost width = self.names().len();
        let mut values: Vec<Option<Term>> = Vec::new();
        let mut index: usize = 0;
        assert(value_views(values@) =~= Seq::empty());
        while index < self.variables.len()
            invariant
                self.wf(),
                storage.wf(),
                lookup == self.lookup(*storage),
                width == self.variables@.len(),
                index <= width,
                decoded_values(tuple@, index as nat, lookup) == Ok::<
                    Seq<Option<TermView>>,
                    CorruptionError,
                >(value_views(values@)),
            decreases width - index,
        {
            let ghost so_far = value_views(values@);
            match tuple.get(index) {
                Some(term) => match self.core.dataset.externalize_term(storage, term) {
                    Ok(term) => {
                        values.push(Some(term));
                        assert(value_views(values@) =~= so_far.push(Some(term@)));
                    },
                    Err(error) => {
                        proof {
                            lemma_decoding_fails(tuple@, (index + 1) as nat, width, lookup);
                        }
                        return Err(error);
                    },
                },
                None => {
                    values.push(None);
                    assert(value_views(values@) =~= so_far.push(None));
                },
            }
            index = index + 1;
        }
        Ok(values)
    }

    /// Hands out the next change that is ready.
    ///
    /// A change deletes a row that was handed out before, or adds one. A query that has
    /// nothing to hand out now holds exactly the rows that it has over the committed quads.
    pub fn poll_next(&mut self, storage: &mut Storage, token: &CancellationToken) -> (result:
        Result<IncrementalDriverState<Delta<QuerySolution>>, QueryEvaluationError>)
        requires
            old(self).wf(),
            old(storage).wf(),
        ensures
            final(self).same_query(*old(self)),
            taken_over(old(self).sources(), *old(storage), *final(storage)),
            final(self).drained(
                *old(self),
                *old(storage),
                *final(storage),
                !token.cancelled,
                match result {
                    Ok(IncrementalDriverState::Item(change)) => seq![change],
                    _ => Seq::empty(),
                },
                match result {
                    Ok(IncrementalDriverState::Item(_)) => None,
                    Ok(IncrementalDriverState::Pending) => Some(Ok(true)),
                    Ok(IncrementalDriverState::Done) => Some(Ok(false)),
                    Err(error) => Some(Err(error)),
                },
            ),
    {
        let ghost before = *self;
        let alive = token.ensure_alive().is_ok();
        self.refill(storage);
        let ghost ready = *self;
        proof {
            lemma_progressed(ready.node());
            lemma_shape_transitive(before.node(), ready.node(), ready.node());
        }
        let result = self.advance(storage, alive);
        proof {
            lemma_shape_transitive(before.node(), ready.node(), self.node());
            let rows = self.last_rows();
            assert(ready.last_rows() =~= Seq::empty());
            if rows.len() > 0 {
                assert(rows.drop_last() =~= Seq::empty());
                assert(rows =~= Seq::<Delta<TupleView>>::empty().push(rows.last()));
                lemma_played_push(before.held(), Seq::empty(), rows.last());
            }
        }
        result
    }

    /// What a number of steps tell, of which the last one ended with `end`: with `Ok` if
    /// there was no further change, which may come later or not, with `Err` if it failed,
    /// with `None` if further changes are ready. Where a row could not be decoded it is the
    /// last one, and the query goes on behind it; what was handed out is not handed out again.
    /// A query that is cancelled may lose a change that it was about to hand out. A query
    /// that has nothing to hand out, and for which nothing waits, hands out nothing.
    pub open spec fn drained(
        &self,
        before: Self,
        old_storage: Storage,
        storage: Storage,
        alive: bool,
        changes: Seq<Delta<QuerySolution>>,
        end: Option<Result<bool, QueryEvaluationError>>,
    ) -> bool {
        let rows = self.last_rows();
        &&& self.held() == played(before.held(), rows)
        &&& before.in_tune(old_storage) ==> plays(before.held(), rows)
        &&& before.in_tune(old_storage) && end != Some(
            Err::<bool, QueryEvaluationError>(QueryEvaluationError::Cancelled),
        ) ==> {
            &&& self.in_tune(storage)
            &&& self.heard_all(storage)
        }
        &&& before.idle(old_storage) ==> rows.len() == 0
        &&& before.idle(old_storage) && !(end matches Some(Err(_))) ==> self.node().fuel() == 0
        &&& self.candid(
            before,
            alive,
            if rows.len() == changes.len() {
                end
            } else {
                None
            },
        )
        &&& match end {
            None => all_shown(rows, changes, self.names(), self.lookup(storage)),
            Some(Ok(live)) => {
                &&& all_shown(rows, changes, self.names(), self.lookup(storage))
                &&& self.node().live() == live
                &&& self.node().fuel() == 0
                &&& live ==> alive
                &&& before.in_tune(old_storage) ==> self.complete(storage)
            },
            Some(Err(error)) => {
                if rows.len() == changes.len() {
                    &&& all_shown(rows, changes, self.names(), self.lookup(storage))
                    &&& before.in_tune(old_storage) ==> tolerable(
                        error,
                        alive,
                        self.node().blind(),
                    )
                } else {
                    &&& rows.len() == changes.len() + 1
                    &&& all_shown(
                        rows.drop_last(),
                        changes,
                        self.names(),
                        self.lookup(storage),
                    )
                    &&& decoded_values(
                        rows.last().value_of(),
                        self.names().len(),
                        self.lookup(storage),
                    ) matches Err(flaw) && error == QueryEvaluationError::Dataset(
                        StorageError::Corruption(flaw),
                    )
                }
            },
        }
    }

    /// Hands out the changes that are ready, at most as many as `limit` says.
    pub fn drain_ready(
        &mut self,
        storage: &mut Storage,
        token: &CancellationToken,
        limit: Option<usize>,
    ) -> (result: Result<IncrementalDriverState<Vec<Delta<QuerySolution>>>, QueryEvaluationError>)
        requires
            old(self).wf(),
            old(storage).wf(),
        ensures
            final(self).same_query(*old(self)),
            taken_over(old(self).sources(), *old(storage), *final(storage)),
            match result {
                Ok(IncrementalDriverState::Item(changes)) => {
                    &&& limit matches Some(limit) ==> changes@.len() <= limit
                    &&& changes@.len() == 0 ==> limit == Some(0usize)
                    &&& if limit == Some(changes@.len() as usize) {
                        final(self).drained(
                            *old(self),
                            *old(storage),
                            *final(storage),
                            !token.cancelled,
                            changes@,
                            None,
                        )
                    } else {
                        final(self).drained(
                            *old(self),
                            *old(storage),
                            *final(storage),
                            !token.cancelled,
                            changes@,
                            Some(Ok(final(self).node().live())),
                        )
                    }
                },
                Ok(IncrementalDriverState::Pending) => limit != Some(0usize) && final(self).drained(
                    *old(self),
                    *old(storage),
                    *final(storage),
                    !token.cancelled,
                    Seq::empty(),
                    Some(Ok(true)),
                ),
                Ok(IncrementalDriverState::Done) => limit != Some(0usize) && final(self).drained(
                    *old(self),
                    *old(storage),
                    *final(storage),
                    !token.cancelled,
                    Seq::empty(),
                    Some(Ok(false)),
                ),
                Err(error) => final(self).gave_up(
                    *old(self),
                    *old(storage),
                    *final(storage),
                    !token.cancelled,
                    error,
                ),
            },
    {
        let ghost before = *self;
        let ghost old_storage = *storage;
        let alive = token.ensure_alive().is_ok();
        self.refill(storage);
        let mut results: Vec<Delta<QuerySolution>> = Vec::new();
        loop
            invariant
                storage.wf(),
                before == *old(self),
                old_storage == *old(storage),
                alive == !token.cancelled,
                self.same_query(before),
                taken_over(before.sources(), old_storage, *storage),
                self.drained(before, old_storage, *storage, alive, results@, None),
                limit matches Some(limit) ==> results@.len() <= limit,
            decreases self.node().fuel(),
        {
            if let Some(limit) = limit {
                if results.len() >= limit {
                    return Ok(IncrementalDriverState::Item(results));
                }
            }
            let ghost last = *self;
            let ghost so_far = results@;
            let state = self.advance(storage, alive);
            proof {
                lemma_shape_transitive(before.node(), last.node(), self.node());
                self.lemma_drained(last, before, old_storage, *storage, alive, so_far, state);
            }
            match state {
                Err(error) => {
                    return Err(error);
                },
                Ok(IncrementalDriverState::Item(change)) => {
                    results.push(change);
                },
                Ok(IncrementalDriverState::Pending) => {
                    if results.len() == 0 {
                        assert(results@ =~= Seq::empty());
                        return Ok(IncrementalDriverState::Pending);
                    }
                    return Ok(IncrementalDriverState::Item(results));
                },
                Ok(IncrementalDriverState::Done) => {
                    if results.len() == 0 {
                        assert(results@ =~= Seq::empty());
                        return Ok(IncrementalDriverState::Done);
                    }
                    return Ok(IncrementalDriverState::Item(results));
                },
            }
        }
    }

    /// Whether some steps ended with an error.
    pub open spec fn gave_up(
        &self,
        before: Self,
        old_storage: Storage,
        storage: Storage,
        alive: bool,
        error: QueryEvaluationError,
    ) -> bool {
        exists|changes: Seq<Delta<QuerySolution>>| #[trigger]
            self.drained(before, old_storage, storage, alive, changes, Some(Err(error)))
    }

    /// One more step after a number of steps.
    pub(crate) proof fn lemma_drained(
        &self,
        last: Self,
        before: Self,
        old_storage: Storage,
        storage: Storage,
        alive: bool,
        changes: Seq<Delta<QuerySolution>>,
        state: Result<IncrementalDriverState<Delta<QuerySolution>>, QueryEvaluationError>,
    )
        requires
            last.drained(before, old_storage, storage, alive, changes, None),
            self.advanced(last, storage, alive, state),
            self.same_query(last),
        ensures
            match state {
                Ok(IncrementalDriverState::Item(change)) => self.drained(
                    before,
                    old_storage,
                    storage,
                    alive,
                    changes.push(change),
                    None,
                ),
                Ok(IncrementalDriverState::Pending) => self.drained(
                    before,
                    old_storage,
                    storage,
                    alive,
                    changes,
                    Some(Ok(true)),
                ),
                Ok(IncrementalDriverState::Done) => self.drained(
                    before,
                    old_storage,
                    storage,
                    alive,
                    changes,
                    Some(Ok(false)),
                ),
                Err(error) => self.drained(
                    before,
                    old_storage,
                    storage,
                    alive,
                    changes,
                    Some(Err(error)),
                ),
            },
    {
        let rows = self.last_rows();
        let old_rows = last.last_rows();
        self.lemma_candid(
            last,
            before,
            alive,
            match state {
                Ok(IncrementalDriverState::Item(_)) => None,
                Ok(IncrementalDriverState::Pending) => Some(Ok(true)),
                Ok(IncrementalDriverState::Done) => Some(Ok(false)),
                Err(error) => if rows == old_rows {
                    Some(Err(error))
                } else {
                    None
                },
            },
        );
        match state {
            Ok(IncrementalDriverState::Item(change)) => {
                assert(rows =~= old_rows.push(rows.last()));
                lemma_played_push(before.held(), old_rows, rows.last());
                let more = changes.push(change);
                assert forall|i: int| 0 <= i < more.len() implies shown(
                    rows[i],
                    #[trigger] more[i],
                    self.names(),
                    self.lookup(storage),
                ) by {
                    if i < changes.len() {
                        assert(shown(old_rows[i], changes[i], last.names(), last.lookup(storage)));
                        assert(rows[i] == old_rows[i]);
                    }
                }
            },
            _ => {},
        }
    }

    /// Whether the query has ended: its subscriptions and its notifier are gone, and all
    /// else is as it was.
    pub open spec fn ended(&self, before: Storage, after: Storage) -> bool {
        &&& after.wf()
        &&& after.table() == before.table()
        &&& after.on_disk() == before.on_disk()
        &&& after.read_only() == before.read_only()
        &&& forall|id: usize| #[trigger]
            after.subscribers().contains_key(id) <==> before.subscribers().contains_key(id)
                && !belongs(self.sources(), id)
        &&& forall|id: usize| #[trigger]
            after.subscribers().contains_key(id) ==> after.subscribers()[id]
                == before.subscribers()[id]
        &&& after.registry() == if self.notifier() < before.registry().len() {
            before.registry().update(self.notifier() as int, None)
        } else {
            before.registry()
        }
    }

    /// Ends the query.
    pub fn close(self, storage: &mut Storage)
        requires
            old(storage).wf(),
        ensures
            self.ended(*old(storage), *final(storage)),
    {
        self.iter.close(storage);
        proof {
            storage.lemma_parts();
        }
        storage.state_mut().drop_notifier(self.core.notifier);
    }
}

/// The row that has the given values.
pub open spec fn initial_row(
    variables: Seq<Seq<u8>>,
    substitutions: Seq<(Variable, Term)>,
) -> TupleView
    decreases substitutions.len(),
{
    if substitutions.len() == 0 {
        TupleView { values: Seq::empty(), graph_name: None }
    } else {
        let (variable, term) = substitutions.last();
        initial_row(variables, substitutions.drop_last()).bind(
            column_of(variables, variable@),
            encoded(term@),
        )
    }
}

/// The row of the given values is proper.
proof fn lemma_initial_row_proper(variables: Seq<Seq<u8>>, substitutions: Seq<(Variable, Term)>)
    ensures
        proper(initial_row(variables, substitutions)),
    decreases substitutions.len(),
{
    if substitutions.len() > 0 {
        let (variable, term) = substitutions.last();
        lemma_initial_row_proper(variables, substitutions.drop_last());
        lemma_bind_proper(
            initial_row(variables, substitutions.drop_last()),
            column_of(variables, variable@),
            encoded(term@),
        );
    }
}

/// Whether a variable of the substitutions is not a variable of the query.
pub open spec fn strange(
    variables: Seq<Seq<u8>>,
    substitutions: Seq<(Variable, Term)>,
    at: int,
) -> bool {
    0 <= at < substitutions.len() && !variables.contains(substitutions[at].0@)
}

/// Whether all variables of the substitutions are variables of the query.
pub open spec fn all_known(variables: Seq<Seq<u8>>, substitutions: Seq<(Variable, Term)>) -> bool {
    forall|i: int| 0 <= i < substitutions.len() ==> !#[trigger] strange(variables, substitutions, i)
}

pub open spec fn substitution_entries() -> spec_fn((Variable, Term)) -> Seq<(StrHash, Seq<u8>)> {
    |substitution: (Variable, Term)| term_entries(substitution.1@)
}

/// The row that has the given values.
pub fn encode_initial_bindings(
    dataset: &mut EvalDataset,
    variables: &Vec<Variable>,
    substitutions: &Vec<(Variable, Term)>,
) -> (result: Result<InternalTuple, QueryEvaluationError>)
    requires
        old(dataset).wf(),
    ensures
        final(dataset).wf(),
        final(dataset).like(*old(dataset)),
        match result {
            Ok(tuple) => {
                &&& all_known(names(variables@), substitutions@)
                &&& tuple@ == initial_row(names(variables@), substitutions@)
                &&& final(dataset).grown(
                    *old(dataset),
                    concat(substitutions@, substitution_entries()),
                )
            },
            Err(error) => error matches QueryEvaluationError::NotExistingSubstitutedVariable(at)
                && strange(names(variables@), substitutions@, at as int) && forall|i: int|
                0 <= i < at ==> !#[trigger] strange(names(variables@), substitutions@, i),
        },
{
    let ghost before = *dataset;
    let ghost known = names(variables@);
    let ghost all = substitutions@;
    let mut tuple = InternalTuple::new();
    let mut next: usize = 0;
    proof {
        assert(all.take(0) =~= Seq::empty());
        assert(concat(all.take(0), substitution_entries()) =~= Seq::empty());
    }
    while next < substitutions.len()
        invariant
            before == *old(dataset),
            known == names(variables@),
            all == substitutions@,
            next <= all.len(),
            forall|i: int| 0 <= i < next ==> !#[trigger] strange(known, all, i),
            dataset.grown(before, concat(all.take(next as int), substitution_entries())),
            tuple@ == initial_row(known, all.take(next as int)),
        decreases all.len() - next,
    {
        let (variable, term) = &substitutions[next];
        let column = match find_variable(variables, variable) {
            Some(column) => column,
            None => {
                assert(strange(known, all, next as int));
                return Err(QueryEvaluationError::NotExistingSubstitutedVariable(next));
            },
        };
        let ghost middle = *dataset;
        let encoded_term = match dataset.internalize_term(term.duplicate()) {
            Ok(term) => term,
            Err(error) => {
                return Err(error);
            },
        };
        proof {
            EvalDataset::lemma_grown_add(
                before,
                middle,
                *dataset,
                concat(all.take(next as int), substitution_entries()),
                term_entries(term@),
            );
            assert(all.take(next + 1).drop_last() =~= all.take(next as int));
            assert(all.take(next + 1).last() == all[next as int]);
        }
        tuple.set(column, encoded_term);
        next = next + 1;
    }
    assert(all.take(next as int) =~= all);
    Ok(tuple)
}

/// The column of a variable, if it is one of the query.
fn find_variable(variables: &Vec<Variable>, variable: &Variable) -> (column: Option<usize>)
    ensures
        match column {
            Some(column) => names(variables@).contains(variable@) && column == column_of(
                names(variables@),
                variable@,
            ) && column < usize::MAX,
            None => !names(variables@).contains(variable@),
        },
{
    let ghost known = names(variables@);
    let mut next: usize = 0;
    while next < variables.len()
        invariant
            known == names(variables@),
            next <= variables@.len(),
            forall|i: int| 0 <= i < next ==> known[i] != variable@,
        decreases variables@.len() - next,
    {
        if variables[next].same(variable) {
            proof {
                assert(known[next as int] == variable@);
                known.index_of_first_ensures(variable@);
            }
            return Some(next);
        }
        next = next + 1;
    }
    None
}

impl SimpleIncrementalEvaluator {
    /// Starts a SELECT query with some of its variables given, and tells its nodes.
    pub fn evaluate_select_driver(
        &self,
        storage: &mut Storage,
        pattern: &QueryExpression,
        substitutions: &Vec<(Variable, Term)>,
    ) -> (result: (Result<IncrementalSelectDriver, QueryEvaluationError>, EvalNodeWithStats))
        requires
            self.wf(),
            old(storage).wf(),
            pattern.wf(),
        ensures
            result.1@ == pattern.outline(self.timed()),
            match compiled(*pattern, Seq::empty()) {
                Err(unsupported) => {
                    &&& result.0 matches Err(error) && error == QueryEvaluationError::Unsupported(
                        unsupported,
                    )
                    &&& *final(storage) == *old(storage)
                },
                Ok((plan, variables)) => match result.0 {
                    Err(error) => {
                        &&& error matches QueryEvaluationError::NotExistingSubstitutedVariable(at)
                            && strange(variables, substitutions@, at as int) && forall|i: int|
                            0 <= i < at ==> !#[trigger] strange(variables, substitutions@, i)
                        &&& *final(storage) == *old(storage)
                    },
                    Ok(driver) => {
                        let from = initial_row(variables, substitutions@);
                        let default_graphs = self.dataset().default_graphs();
                        let named_graphs = self.dataset().named_graphs();
                        let reader = self.dataset().dataset().reader();
                        &&& all_known(variables, substitutions@)
                        &&& driver.wf()
                        &&& driver.names() == variables
                        &&& driver.held() == Seq::<TupleView>::empty()
                        &&& driver.dataset().grown(
                            self.dataset(),
                            pattern.entries() + concat(substitutions@, substitution_entries()),
                        )
                        &&& !driver.node().blind()
                        &&& driver.node().clean()
                        &&& driver.node().outline() == seq![pattern.outline(self.timed())]
                        &&& forall|listing: Seq<EncodedQuad>| #[trigger]
                            driver.answer(listing) == plan.answer(
                                from,
                                default_graphs,
                                named_graphs,
                                listing,
                            )
                        &&& opened(
                            driver.sources(),
                            plan.asks(from, default_graphs, named_graphs),
                            reader,
                            *old(storage),
                            *final(storage),
                            driver.notifier(),
                        )
                        &&& driver.notifier() == old(storage).registry().len()
                        &&& final(storage).registry().len() == old(storage).registry().len() + 1
                        &&& final(storage).registry().drop_last() == old(storage).registry()
                        &&& driver.registered(*final(storage))
                        &&& damage_met(reader, *old(storage)) is None ==> driver.in_tune(*final(storage))
                    },
                },
            },
    {
        let mut evaluator = self.duplicate();
        let ghost first = evaluator.dataset();
        let mut variables: Vec<Variable> = Vec::new();
        assert(names(variables@) =~= Seq::empty());
        let (eval, stats) = evaluator.graph_pattern_evaluator(pattern, &mut variables);
        let plan = match eval {
            Ok(plan) => plan,
            Err(error) => {
                return (Err(error), stats);
            },
        };
        let mut dataset = evaluator.into_dataset();
        let ghost second = dataset;
        let from = match encode_initial_bindings(&mut dataset, &variables, substitutions) {
            Ok(from) => from,
            Err(error) => {
                return (Err(error), stats);
            },
        };
        let ghost row = from@;
        let ghost old_storage = *storage;
        proof {
            EvalDataset::lemma_grown_add(
                first,
                second,
                dataset,
                pattern.entries(),
                concat(substitutions@, substitution_entries()),
            );
            storage.lemma_parts();
        }
        let notifier = storage.state_mut().register_notifier();
        let ghost registered = *storage;
        let iter = plan.start(&dataset, storage, from, notifier);
        let driver = IncrementalSelectDriver {
            core: IncrementalDriverCore { dataset, notifier },
            variables: Arc::new(variables),
            iter,
            last_rows: Ghost(Seq::empty()),
        };
        proof {
            registered.lemma_parts();
            lemma_initial_row_proper(names(variables@), substitutions@);
            let reader = dataset.dataset().reader();
            let asks = plan@.asks(row, dataset.default_graphs(), dataset.named_graphs());
            lemma_opened_from(
                driver.sources(),
                asks,
                reader,
                old_storage,
                registered,
                *storage,
                notifier,
            );
            if damage_met(reader, old_storage) is None {
                assert forall|i: int| 0 <= i < driver.sources().len() implies driver.attends(
                    #[trigger] driver.sources()[i],
                    *storage,
                ) by {
                    assert(at_start(
                        driver.sources()[i],
                        asks[i],
                        reader,
                        old_storage,
                        *storage,
                        notifier,
                    ));
                }
            }
        }
        (Ok(driver), stats)
    }
}

/// What a commit tells a query keeps the query in tune.
pub proof fn law_commits_keep_queries_in_tune(
    driver: IncrementalSelectDriver,
    before: Storage,
    after: Storage,
    published: Published,
)
    requires
        driver.in_tune(before),
        told(before, after, published),
        reports(published.changes@, before.table().quads(), after.table().quads()),
    ensures
        driver.in_tune(after),
        driver.registered(before) ==> driver.registered(after),
{
    let sources = driver.sources();
    assert forall|i: int| 0 <= i < sources.len() implies driver.attends(
        #[trigger] sources[i],
        after,
    ) by {
        assert(driver.attends(sources[i], before));
        if driver.reader().refreshes() {
            law_commits_are_followed(sources[i], before, after, published);
        }
    }
    if driver.registered(before) {
        let id = driver.notifier() as int;
        assert(after.registry()[id] is Some <==> before.registry()[id] is Some);
    }
}

/// A query one of whose sources is about to fail does not come to a pause before it has
/// told of a failure.
pub proof fn law_failures_are_told(
    before: IncrementalSelectDriver,
    after: IncrementalSelectDriver,
    old_storage: Storage,
    storage: Storage,
    alive: bool,
    changes: Seq<Delta<QuerySolution>>,
    end: Result<bool, QueryEvaluationError>,
)
    requires
        before.node().clean(),
        !none_failing(before.sources()),
        after.drained(before, old_storage, storage, alive, changes, Some(end)),
    ensures
        end is Err,
        after.last_rows().len() == changes.len() ==> justified(
            end->Err_0,
            before.sources(),
            alive,
        ),
{
    if end is Ok {
        assert forall|i: int| 0 <= i < before.sources().len() implies (
        #[trigger] before.sources()[i]).failure() is None by {
            assert(after.sources()[i].failure() == before.sources()[i].failure());
        }
    }
}

/// A query to which no further changes come stays complete, whatever is committed.
pub proof fn law_finished_queries_stay_complete(
    driver: IncrementalSelectDriver,
    before: Storage,
    after: Storage,
    listing: Seq<EncodedQuad>,
)
    requires
        !driver.node().live(),
        driver.in_tune(before),
        driver.complete(before),
        lists_quads(listing, driver.subject_matter(before)),
    ensures
        driver.in_tune(after),
        driver.complete(after),
{
    let sources = driver.sources();
    if driver.reader().refreshes() {
        law_live_queries_have_subscriptions(driver.node());
        if sources.len() > 0 {
            assert(driver.attends(sources[0], before));
        }
        assert forall|other: Seq<EncodedQuad>|
            lists_quads(other, driver.subject_matter(after)) implies same_bag(
            driver.held(),
            #[trigger] driver.answer(other),
        ) by {
            law_query_leads_to_its_answer(driver.node(), listing);
            law_query_leads_to_its_answer(driver.node(), other);
            lemma_same_bag_transitive(
                driver.held(),
                driver.answer(listing),
                driver.node().goal(),
            );
            lemma_same_bag_transitive(driver.held(), driver.node().goal(), driver.answer(other));
        }
    } else {
        assert forall|i: int| 0 <= i < sources.len() implies driver.attends(
            #[trigger] sources[i],
            after,
        ) by {
            assert(driver.attends(sources[i], before));
        }
    }
}

pub(crate) proof fn lemma_shape_transitive(a: DeltaNode, b: DeltaNode, c: DeltaNode)
    requires
        same_shape(a, b),
        same_shape(b, c),
    ensures
        same_shape(a, c),
{
    crate::graphs::lemma_same_transitive(a.sources(), b.sources(), c.sources());
    lemma_progressed_transitive(a, b, c);
    assert forall|listing: Seq<EncodedQuad>| #[trigger]
        c.answer(listing) == a.answer(listing) by {
        assert(b.answer(listing) == a.answer(listing));
    }
}

/// A row that cannot be decoded in its first columns cannot be decoded.
proof fn lemma_decoding_fails(
    row: TupleView,
    at: nat,
    width: nat,
    lookup: spec_fn(StrHash) -> Option<Seq<u8>>,
)
    requires
        at <= width,
        decoded_values(row, at, lookup) is Err,
    ensures
        decoded_values(row, width, lookup) == decoded_values(row, at, lookup),
    decreases width,
{
    if at < width {
        lemma_decoding_fails(row, at, (width - 1) as nat, lookup);
    }
}

/// A source that keeps its course follows what it followed.
proof fn lemma_course(before: LiveQuadDeltaSource, after: LiveQuadDeltaSource, storage: Storage)
    requires
        keeps_course(before, after),
        before.sound(),
        after.subscription() == before.subscription(),
        after.pattern() == before.pattern(),
    ensures
        before.follows(storage) ==> after.follows(storage),
        forall|table: crate::table::QuadTable|
            #![trigger after.reads(table)]
            before.reads(table) ==> after.reads(table),
{
    if before.follows(storage) {
        let changes = storage.subscribers()[before.subscription()->0].changes;
        lemma_played_add(before.held(), before.events(), changes);
        lemma_played_add(after.held(), after.events(), changes);
        lemma_concerns_add(before.events(), changes, before.pattern());
        lemma_concerns_add(after.events(), changes, after.pattern());
    }
}

/// A solution has, for each of the first columns of its row, the term that the value of the
/// column stands for, and none where the column is not bound. There is no solution exactly
/// where one of these values stands for no term.
pub proof fn law_solutions_have_the_terms_of_their_rows(
    row: TupleView,
    width: nat,
    lookup: spec_fn(StrHash) -> Option<Seq<u8>>,
)
    ensures
        decoded_values(row, width, lookup) is Ok <==> forall|i: int|
            0 <= i < width && (#[trigger] row.column(i)) is Some ==> decoded(
                row.column(i)->0,
                lookup,
            ) is Ok,
        decoded_values(row, width, lookup) matches Ok(values) ==> {
            &&& values.len() == width
            &&& forall|i: int|
                0 <= i < width ==> match row.column(i) {
                    None => (#[trigger] values[i]) is None,
                    Some(term) => values[i] is Some && decoded(term, lookup) == Ok::<
                        TermView,
                        CorruptionError,
                    >(values[i]->0),
                }
        },
        decoded_values(row, width, lookup) matches Err(flaw) ==> exists|i: int|
            #![trigger row.column(i)]
            0 <= i < width && row.column(i) is Some && decoded(row.column(i)->0, lookup) == Err::<
                TermView,
                CorruptionError,
            >(flaw) && forall|j: int|
                0 <= j < i && (#[trigger] row.column(j)) is Some ==> decoded(
                    row.column(j)->0,
                    lookup,
                ) is Ok,
    decreases width,
{
    if width > 0 {
        law_solutions_have_the_terms_of_their_rows(row, (width - 1) as nat, lookup);
        assert(row.column(width - 1) is Some ==> (decoded(row.column(width - 1)->0, lookup) is Ok
            || decoded(row.column(width - 1)->0, lookup) is Err));
    }
}

/// The row that a query starts from has, for each given value, the value in the column of its
/// variable, and no other value. Of two values for the same variable the last one counts.
pub proof fn law_given_values_stand_in_their_columns(
    variables: Seq<Seq<u8>>,
    substitutions: Seq<(Variable, Term)>,
)
    requires
        variables.no_duplicates(),
        forall|i: int|
            0 <= i < substitutions.len() ==> variables.contains((#[trigger] substitutions[i]).0@),
    ensures
        forall|i: int, c: int|
            #![trigger substitutions[i], variables[c]]
            0 <= i < substitutions.len() && 0 <= c < variables.len() && variables[c]
                == substitutions[i].0@ && (forall|j: int|
                i < j < substitutions.len() ==> (#[trigger] substitutions[j]).0@ != variables[c])
                ==> initial_row(variables, substitutions).column(c) == Some(
                encoded(substitutions[i].1@),
            ),
        forall|c: int|
            (#[trigger] initial_row(variables, substitutions).column(c)) is Some ==> 0 <= c
                < variables.len() && exists|i: int|
                0 <= i < substitutions.len() && (#[trigger] substitutions[i]).0@ == variables[c],
        initial_row(variables, substitutions).graph_name is None,
    decreases substitutions.len(),
{
    if substitutions.len() > 0 {
        let front = substitutions.drop_last();
        let last = substitutions.len() - 1;
        assert forall|i: int| 0 <= i < front.len() implies variables.contains(
            (#[trigger] front[i]).0@,
        ) by {
            assert(front[i] == substitutions[i]);
        }
        law_given_values_stand_in_their_columns(variables, front);
        let (variable, term) = substitutions.last();
        let before = initial_row(variables, front);
        let row = initial_row(variables, substitutions);
        let column = column_of(variables, variable@);
        assert(variables.contains(substitutions[last].0@));
        law_variables_have_their_columns(variables, variable@);
        law_binding_changes_one_column(before, column, encoded(term@));
        assert(variables[column as int] == variable@);
        assert forall|i: int, c: int|
            #![trigger substitutions[i], variables[c]]
            0 <= i < substitutions.len() && 0 <= c < variables.len() && variables[c]
                == substitutions[i].0@ && (forall|j: int|
                i < j < substitutions.len() ==> (#[trigger] substitutions[j]).0@
                    != variables[c]) implies row.column(c) == Some(
            encoded(substitutions[i].1@),
        ) by {
            if i < last {
                assert(substitutions[last].0@ != variables[c]);
                assert(c != column);
                assert(front[i] == substitutions[i]);
                assert forall|j: int| i < j < front.len() implies (#[trigger] front[j]).0@
                    != variables[c] by {
                    assert(front[j] == substitutions[j]);
                }
                assert(before.column(c) == Some(encoded(front[i].1@)));
                assert(row.column(c) == before.column(c));
            } else {
                assert(c == column);
            }
        }
        assert forall|c: int| (#[trigger] row.column(c)) is Some implies 0 <= c < variables.len()
            && exists|i: int|
            0 <= i < substitutions.len() && (#[trigger] substitutions[i]).0@ == variables[c] by {
            if c == column {
                assert(substitutions[last].0@ == variables[c]);
            } else {
                assert(row.column(c) == before.column(c));
                let i = choose|i: int|
                    0 <= i < front.len() && (#[trigger] front[i]).0@ == variables[c];
                assert(substitutions[i].0@ == variables[c]);
            }
        }
    }
}

/// A given value is strange to a query exactly where its variable is none of the variables of
/// the query.
pub proof fn law_strange_variables_are_those_a_query_does_not_have(
    variables: Seq<Seq<u8>>,
    substitutions: Seq<(Variable, Term)>,
    at: int,
)
    requires
        0 <= at < substitutions.len(),
    ensures
        strange(variables, substitutions, at) <==> forall|c: int|
            0 <= c < variables.len() ==> (#[trigger] variables[c]) != substitutions[at].0@,
        all_known(variables, substitutions) ==> exists|c: int|
            0 <= c < variables.len() && (#[trigger] variables[c]) == substitutions[at].0@,
{
    if all_known(variables, substitutions) {
        assert(!strange(variables, substitutions, at));
    }
}

/// A query that follows a store is about what is committed there, now and after every commit;
/// another one is about what its view of the store has.
pub proof fn law_queries_are_about_what_they_see(
    driver: IncrementalSelectDriver,
    storage: Storage,
    quad: EncodedQuad,
)
    ensures
        driver.reader().refreshes() ==> (driver.subject_matter(storage).contains(quad)
            <==> storage.table().quads().contains(quad)),
        !driver.reader().refreshes() ==> (driver.subject_matter(storage).contains(quad)
            <==> driver.reader().table().quads().contains(quad)),
{
}

/// A query that has ended has left nothing behind in the store: none of its subscriptions, and
/// no notifier. The contents, and the subscriptions of other queries, are as they were.
pub proof fn law_ended_queries_leave_nothing_behind(
    driver: IncrementalSelectDriver,
    before: Storage,
    after: Storage,
    i: int,
    id: usize,
)
    requires
        driver.ended(before, after),
        0 <= i < driver.sources().len(),
        driver.registered(before),
    ensures
        driver.sources()[i].subscription() matches Some(own) ==> !after.subscribers().contains_key(
            own,
        ),
        !driver.registered(after),
        (forall|j: int|
            0 <= j < driver.sources().len() ==> (#[trigger] driver.sources()[j]).subscription()
                != Some(id)) && before.subscribers().contains_key(id)
            ==> after.subscribers().contains_key(id) && after.subscribers()[id]
            == before.subscribers()[id],
        id != driver.notifier() && id < before.registry().len() ==> after.registry()[id as int]
            == before.registry()[id as int],
        after.table() == before.table(),
{
    if let Some(own) = driver.sources()[i].subscription() {
        assert(belongs(driver.sources(), own));
    }
    assert(after.subscribers().contains_key(id) <==> before.subscribers().contains_key(id)
        && !belongs(driver.sources(), id));
}

} // verus!
