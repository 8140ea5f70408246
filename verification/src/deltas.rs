//! The changes of the results of queries.

use crate::attachment::taken_over;
use crate::bag::{
    count, is, lemma_count, lemma_same_bag_transitive, lemma_weight_push, lemma_weight_same_bag,
    same_bag,
};
use crate::delta::{Delta, IncrementalDriverState};
use crate::driver::{all_shown, shown, IncrementalSelectDriver};
use crate::error::QueryEvaluationError;
use crate::graph_output::{
    change_views, changes_named, entry_steps, lemma_entries_named, tells, tells_graph,
    triple_deltas, IncrementalGraphOutput,
};
use crate::listing::lists_quads;
use crate::live::only_at;
use crate::model::{names, Triple, TripleView, Variable};
use crate::notifier::{
    waits, waits_no_more, CancellationToken, ChangePoll, NotifierChangeFuture, Waker,
};
use crate::numeric_encoder::EncodedQuad;
use crate::replay::{lemma_played_add, played, plays};
use crate::results::{
    all_told, answers_of, count_solutions, keeps_strings, lemma_answers_are_solutions,
    lemma_drain_follows, lemma_same_played, lemma_shapes, lemma_solutions_stay, lemma_tallied,
    solutions_of, tallied,
};
use crate::solution::QuerySolution;
use crate::solution_set::Values;
use crate::storage::Storage;
use crate::table::share;
use crate::tally::Tally;
use crate::template::TripleTemplate;
use std::sync::Arc;
use vstd::prelude::*;

verus! {

/// An iterator over [`Delta`]s of query solutions produced by one change batch.
pub struct QuerySolutionDeltaIter {
    variables: Arc<Vec<Variable>>,
    changes: Vec<Delta<QuerySolution>>,
}

impl QuerySolutionDeltaIter {
    /// The changes that are still to come.
    pub closed spec fn rest(&self) -> Seq<Delta<QuerySolution>> {
        self.changes@
    }

    pub closed spec fn names(&self) -> Seq<Seq<u8>> {
        names(self.variables@)
    }

    pub fn new(variables: Arc<Vec<Variable>>, changes: Vec<Delta<QuerySolution>>) -> (iter: Self)
        ensures
            iter.rest() == changes@,
            iter.names() == names(variables@),
    {
        QuerySolutionDeltaIter { variables, changes }
    }

    /// The variables of the solutions.
    pub fn variables(&self) -> (variables: &Vec<Variable>)
        ensures
            names(variables@) == self.names(),
    {
        &self.variables
    }

    pub fn next(&mut self) -> (change: Option<Delta<QuerySolution>>)
        ensures
            match change {
                Some(change) => old(self).rest().len() > 0 && change == old(self).rest()[0]
                    && final(self).rest() == old(self).rest().drop_first(),
                None => old(self).rest().len() == 0 && final(self).rest() == old(self).rest(),
            },
            final(self).names() == old(self).names(),
    {
        if self.changes.len() == 0 {
            return None;
        }
        let change = self.changes.remove(0);
        assert(self.rest() =~= old(self).rest().drop_first());
        Some(change)
    }

    pub fn size_hint(&self) -> (hint: (usize, Option<usize>))
        ensures
            hint.0 == self.rest().len(),
            hint.1 == Some(hint.0),
    {
        (self.changes.len(), Some(self.changes.len()))
    }
}

/// An iterator over [`Delta`]s of triples produced by one change batch.
pub struct QueryTripleDeltaIter {
    changes: Vec<Delta<Triple>>,
}

impl QueryTripleDeltaIter {
    /// The changes that are still to come.
    pub closed spec fn rest(&self) -> Seq<Delta<Triple>> {
        self.changes@
    }

    pub fn new(changes: Vec<Delta<Triple>>) -> (iter: Self)
        ensures
            iter.rest() == changes@,
    {
        QueryTripleDeltaIter { changes }
    }

    pub fn next(&mut self) -> (change: Option<Delta<Triple>>)
        ensures
            match change {
                Some(change) => old(self).rest().len() > 0 && change == old(self).rest()[0]
                    && final(self).rest() == old(self).rest().drop_first(),
                None => old(self).rest().len() == 0 && final(self).rest() == old(self).rest(),
            },
    {
        if self.changes.len() == 0 {
            return None;
        }
        let change = self.changes.remove(0);
        assert(self.rest() =~= old(self).rest().drop_first());
        Some(change)
    }

    pub fn size_hint(&self) -> (hint: (usize, Option<usize>))
        ensures
            hint.0 == self.rest().len(),
            hint.1 == Some(hint.0),
    {
        (self.changes.len(), Some(self.changes.len()))
    }
}

/// An iterator over updated ASK boolean values.
///
/// The first batch contains the initial boolean result. Later batches contain the new value
/// only when a change flips it.
pub struct QueryBooleanDeltaIter {
    changes: Vec<bool>,
}

impl QueryBooleanDeltaIter {
    /// The values that are still to come.
    pub closed spec fn rest(&self) -> Seq<bool> {
        self.changes@
    }

    pub fn new(changes: Vec<bool>) -> (iter: Self)
        ensures
            iter.rest() == changes@,
    {
        QueryBooleanDeltaIter { changes }
    }

    pub fn next(&mut self) -> (value: Option<Result<bool, QueryEvaluationError>>)
        ensures
            match value {
                Some(value) => old(self).rest().len() > 0 && value == Ok::<
                    bool,
                    QueryEvaluationError,
                >(old(self).rest()[0]) && final(self).rest() == old(self).rest().drop_first(),
                None => old(self).rest().len() == 0 && final(self).rest() == old(self).rest(),
            },
    {
        if self.changes.len() == 0 {
            return None;
        }
        let value = self.changes.remove(0);
        assert(self.rest() =~= old(self).rest().drop_first());
        Some(Ok(value))
    }

    pub fn size_hint(&self) -> (hint: (usize, Option<usize>))
        ensures
            hint.0 == self.rest().len(),
            hint.1 == Some(hint.0),
    {
        (self.changes.len(), Some(self.changes.len()))
    }
}

/// Changes of the results of a query.
pub enum QueryResultsDelta {
    /// Changes to the solutions of a SELECT query.
    Solutions(QuerySolutionDeltaIter),
    /// Updated values of an ASK query.
    Boolean(QueryBooleanDeltaIter),
    /// Changes to the triples of a CONSTRUCT query.
    Graph(QueryTripleDeltaIter),
}

impl QueryResultsDelta {
    /// How many changes there are.
    pub open spec fn len(&self) -> nat {
        match self {
            QueryResultsDelta::Solutions(values) => values.rest().len(),
            QueryResultsDelta::Boolean(values) => values.rest().len(),
            QueryResultsDelta::Graph(values) => values.rest().len(),
        }
    }

    pub fn is_empty(&self) -> (empty: bool)
        ensures
            empty == (self.len() == 0),
    {
        match self {
            QueryResultsDelta::Solutions(values) => values.size_hint().1 == Some(0),
            QueryResultsDelta::Boolean(values) => values.size_hint().1 == Some(0),
            QueryResultsDelta::Graph(values) => values.size_hint().1 == Some(0),
        }
    }
}

/// What is kept to tell the changes of the results of a query.
pub enum IncrementalQueryOutput {
    Solutions { variables: Arc<Vec<Variable>> },
    Boolean { solution_count: Tally, initial: bool },
    Graph(IncrementalGraphOutput),
}

impl IncrementalQueryOutput {
    pub open spec fn wf(&self) -> bool {
        self matches IncrementalQueryOutput::Graph(output) ==> output.wf()
    }

    /// Whether what is kept is that of solutions with the variables of these names.
    pub open spec fn named(&self, own: Seq<Seq<u8>>) -> bool {
        match self {
            IncrementalQueryOutput::Solutions { variables } => names(variables@) == own,
            IncrementalQueryOutput::Boolean { .. } => true,
            IncrementalQueryOutput::Graph(output) => output.named(own),
        }
    }

    /// What changes of solutions make of the results, and how it is told.
    pub open spec fn tells(
        &self,
        before: Self,
        changes: Seq<Delta<QuerySolution>>,
        deltas: QueryResultsDelta,
    ) -> bool {
        &&& self.wf()
        &&& match (*self, before, deltas) {
            (
                IncrementalQueryOutput::Solutions { variables },
                IncrementalQueryOutput::Solutions { variables: old_variables },
                QueryResultsDelta::Solutions(values),
            ) => {
                &&& variables == old_variables
                &&& values.rest() == changes
                &&& values.names() == names(variables@)
            },
            (
                IncrementalQueryOutput::Boolean { solution_count, initial },
                IncrementalQueryOutput::Boolean {
                    solution_count: old_count,
                    initial: old_initial,
                },
                QueryResultsDelta::Boolean(values),
            ) => {
                &&& !initial
                &&& solution_count@ == tallied(old_count@, change_views(changes))
                &&& values.rest() == if old_initial || (old_count@ > 0) != (solution_count@ > 0) {
                    seq![solution_count@ > 0]
                } else {
                    Seq::<bool>::empty()
                }
            },
            (
                IncrementalQueryOutput::Graph(output),
                IncrementalQueryOutput::Graph(old_output),
                QueryResultsDelta::Graph(values),
            ) => {
                &&& output.template() == old_output.template()
                &&& entry_steps(
                    old_output.stored(),
                    output.stored(),
                    changes,
                    old_output.template(),
                )
                &&& same_bag(
                    output.solutions(),
                    played(old_output.solutions(), change_views(changes)),
                )
                &&& tells_graph(
                    triple_deltas(values.rest()),
                    old_output.graph(),
                    output.graph(),
                )
            },
            _ => false,
        }
    }
}

/// What comes next of the changes of the results of a query.
pub enum DeltasStep {
    /// Changes to show.
    Ready(QueryResultsDelta),
    /// Nothing will come any more.
    Finished,
    /// Nothing comes before the query observes a change after this generation.
    Wait(u64),
    Failed(QueryEvaluationError),
}

/// Stateful handle for the deltas of an incremental query.
///
/// If [`Self::deltas`] or the iterator returns an error, stop using and drop this handle.
/// The current batch may have been partly consumed. Later calls have no recovery guarantee.
pub struct IncrementalQueryDeltasState {
    driver: IncrementalSelectDriver,
    output: IncrementalQueryOutput,
    done: bool,
}

impl IncrementalQueryDeltasState {
    /// What is kept is that of solutions with the variables of the query.
    pub open spec fn wf(&self) -> bool {
        &&& self.driver().wf()
        &&& self.output().wf()
        &&& self.output().named(self.driver().names())
    }

    pub closed spec fn driver(&self) -> IncrementalSelectDriver {
        self.driver
    }

    pub closed spec fn output(&self) -> IncrementalQueryOutput {
        self.output
    }

    /// Whether no further changes come.
    pub closed spec fn done(&self) -> bool {
        self.done
    }

    /// The solutions of the rows that the query holds.
    pub open spec fn solutions(&self, storage: Storage) -> Seq<Values> {
        solutions_of(self.driver(), storage)
    }

    /// The solutions of the rows that the query has over a list of quads.
    pub open spec fn answers(&self, storage: Storage, listing: Seq<EncodedQuad>) -> Seq<Values> {
        answers_of(self.driver(), storage, listing)
    }

    /// Whether what is kept is that of the rows that the query holds.
    pub open spec fn faithful(&self, storage: Storage) -> bool {
        &&& match self.output() {
            IncrementalQueryOutput::Solutions { .. } => true,
            IncrementalQueryOutput::Boolean { solution_count, initial } => {
                &&& solution_count@ == self.solutions(storage).len()
                &&& initial ==> solution_count@ == 0
            },
            IncrementalQueryOutput::Graph(output) => same_bag(
                output.solutions(),
                self.solutions(storage),
            ),
        }
        &&& all_told(
            self.driver().held(),
            self.driver().names().len(),
            self.driver().lookup(storage),
        )
    }

    /// A SELECT query.
    pub fn new_select(driver: IncrementalSelectDriver) -> (state: Self)
        requires
            driver.wf(),
        ensures
            state.wf(),
            state.driver() == driver,
            !state.done(),
            driver.held().len() == 0 ==> forall|storage: Storage| #[trigger]
                state.faithful(storage),
            state.output() matches IncrementalQueryOutput::Solutions { variables } && names(
                variables@,
            ) == driver.names(),
    {
        let variables = driver.variables();
        IncrementalQueryDeltasState {
            driver,
            output: IncrementalQueryOutput::Solutions { variables },
            done: false,
        }
    }

    /// An ASK query.
    pub fn new_ask(driver: IncrementalSelectDriver) -> (state: Self)
        requires
            driver.wf(),
        ensures
            state.wf(),
            state.driver() == driver,
            !state.done(),
            driver.held().len() == 0 ==> forall|storage: Storage| #[trigger]
                state.faithful(storage),
            state.output() matches IncrementalQueryOutput::Boolean { solution_count, initial }
                && solution_count@ == 0 && initial,
    {
        IncrementalQueryDeltasState {
            driver,
            output: IncrementalQueryOutput::Boolean { solution_count: Tally::new(), initial: true },
            done: false,
        }
    }

    /// A CONSTRUCT query.
    pub fn new_construct(driver: IncrementalSelectDriver, template: Vec<TripleTemplate>) -> (state:
        Self)
        requires
            driver.wf(),
        ensures
            state.wf(),
            state.driver() == driver,
            !state.done(),
            driver.held().len() == 0 ==> forall|storage: Storage| #[trigger]
                state.faithful(storage),
            state.output() matches IncrementalQueryOutput::Graph(output) && output.template()
                == template@ && output.stored().len() == 0,
    {
        IncrementalQueryDeltasState {
            driver,
            output: IncrementalQueryOutput::Graph(IncrementalGraphOutput::new(template)),
            done: false,
        }
    }

    /// The variables produced by a SELECT query, in projection order.
    ///
    /// Returns `None` for ASK and graph queries.
    pub fn variables(&self) -> (variables: Option<&Vec<Variable>>)
        ensures
            match variables {
                Some(variables) => self.output() matches IncrementalQueryOutput::Solutions {
                    variables: own,
                } && own@ == variables@,
                None => !(self.output() is Solutions),
            },
    {
        match &self.output {
            IncrementalQueryOutput::Solutions { variables } => Some(&**variables),
            IncrementalQueryOutput::Boolean { .. } => None,
            IncrementalQueryOutput::Graph(_) => None,
        }
    }

    /// What a drain makes of the query.
    pub open spec fn drained(
        &self,
        before: Self,
        old_storage: Storage,
        storage: Storage,
        alive: bool,
        result: Result<Seq<Delta<QuerySolution>>, QueryEvaluationError>,
    ) -> bool {
        let driver = self.driver();
        &&& driver.same_query(before.driver())
        &&& if before.done() {
            &&& result == Ok::<Seq<Delta<QuerySolution>>, QueryEvaluationError>(Seq::empty())
            &&& self.done()
            &&& driver == before.driver()
            &&& storage == old_storage
        } else {
            &&& taken_over(before.driver().sources(), old_storage, storage)
            &&& match result {
                Ok(changes) => {
                    &&& self.done() == !driver.node().live()
                    &&& driver.drained(
                        before.driver(),
                        old_storage,
                        storage,
                        alive,
                        changes,
                        Some(Ok(driver.node().live())),
                    )
                },
                Err(error) => {
                    &&& !self.done()
                    &&& self.output() == before.output()
                    &&& driver.gave_up(before.driver(), old_storage, storage, alive, error)
                },
            }
        }
    }

    /// The changes that are ready.
    fn drain_ready(&mut self, storage: &mut Storage, token: &CancellationToken) -> (result: Result<
        Vec<Delta<QuerySolution>>,
        QueryEvaluationError,
    >)
        requires
            old(self).wf(),
            old(storage).wf(),
        ensures
            final(self).wf(),
            final(storage).wf(),
            final(self).output == old(self).output,
            match result {
                Ok(changes) => final(self).drained(
                    *old(self),
                    *old(storage),
                    *final(storage),
                    !token.cancelled,
                    Ok(changes@),
                ),
                Err(error) => final(self).drained(
                    *old(self),
                    *old(storage),
                    *final(storage),
                    !token.cancelled,
                    Err(error),
                ),
            },
    {
        let ghost before = *self;
        let ghost old_storage = *storage;
        let mut batch: Vec<Delta<QuerySolution>> = Vec::new();
        if self.done {
            proof {
                before.driver.lemma_same_query();
                assert(batch@ =~= Seq::empty());
            }
            return Ok(batch);
        }
        let alive = token.ensure_alive().is_ok();
        self.driver.refill(storage);
        loop
            invariant
                storage.wf(),
                before == *old(self),
                old_storage == *old(storage),
                alive == !token.cancelled,
                self.output == before.output,
                before.wf(),
                !before.done,
                !self.done,
                self.driver.same_query(before.driver),
                taken_over(before.driver.sources(), old_storage, *storage),
                self.driver.drained(before.driver, old_storage, *storage, alive, batch@, None),
            decreases self.driver.node().fuel(),
        {
            let ghost last = self.driver;
            let ghost so_far = batch@;
            let state = self.driver.advance(storage, alive);
            proof {
                lemma_shapes(before.driver, last, self.driver);
                self.driver.lemma_drained(
                    last,
                    before.driver,
                    old_storage,
                    *storage,
                    alive,
                    so_far,
                    state,
                );
            }
            match state {
                Ok(IncrementalDriverState::Item(change)) => {
                    batch.push(change);
                },
                Ok(IncrementalDriverState::Pending) => {
                    return Ok(batch);
                },
                Ok(IncrementalDriverState::Done) => {
                    self.done = true;
                    return Ok(batch);
                },
                Err(error) => {
                    return Err(error);
                },
            }
        }
    }

    /// Processes all currently pending dataset changes and returns them.
    ///
    /// If an error occurs, the current batch is discarded: what is kept stays as it was, and
    /// the query holds the rows of the batch already, so that they come in no later batch.
    /// Drop the state rather than retrying.
    pub fn deltas(&mut self, storage: &mut Storage, token: &CancellationToken) -> (result: Result<
        QueryResultsDelta,
        QueryEvaluationError,
    >)
        requires
            old(self).wf(),
            old(storage).wf(),
        ensures
            final(self).wf(),
            final(storage).wf(),
            match result {
                Ok(deltas) => final(self).told(
                    *old(self),
                    *old(storage),
                    *final(storage),
                    !token.cancelled,
                    deltas,
                ),
                Err(error) => final(self).drained(
                    *old(self),
                    *old(storage),
                    *final(storage),
                    !token.cancelled,
                    Err(error),
                ),
            },
    {
        let ghost before = *self;
        let ghost old_storage = *storage;
        let batch = match self.drain_ready(storage, token) {
            Ok(batch) => batch,
            Err(error) => {
                return Err(error);
            },
        };
        let ghost changes = batch@;
        let deltas = match &mut self.output {
            IncrementalQueryOutput::Solutions { variables } => QueryResultsDelta::Solutions(
                QuerySolutionDeltaIter::new(share(&*variables), batch),
            ),
            IncrementalQueryOutput::Boolean { solution_count, initial } => {
                let old_value = solution_count.count() > 0;
                count_solutions(solution_count, &batch);
                let new_value = solution_count.count() > 0;
                let mut values: Vec<bool> = Vec::new();
                if *initial || old_value != new_value {
                    values.push(new_value);
                }
                *initial = false;
                assert(values@ =~= seq![new_value] || values@ =~= Seq::<bool>::empty());
                QueryResultsDelta::Boolean(QueryBooleanDeltaIter::new(values))
            },
            IncrementalQueryOutput::Graph(output) => {
                let triples = output.apply(batch);
                QueryResultsDelta::Graph(QueryTripleDeltaIter::new(triples))
            },
        };
        proof {
            assert(changes_named(changes, self.driver.names())) by {
                if before.done {
                    assert(changes =~= Seq::empty());
                } else {
                    assert forall|i: int| 0 <= i < changes.len() implies (
                    #[trigger] changes[i]).value_of().names() == self.driver.names() by {
                        assert(shown(
                            self.driver.last_rows()[i],
                            changes[i],
                            self.driver.names(),
                            self.driver.lookup(*storage),
                        ));
                    }
                }
            }
            if let IncrementalQueryOutput::Graph(output) = &self.output {
                let old_output = before.output->Graph_0;
                lemma_entries_named(
                    old_output.stored(),
                    output.stored(),
                    changes,
                    old_output.template(),
                    self.driver.names(),
                );
            }
            assert(self.output.tells(before.output, changes, deltas));
            assert(self.drained(
                before,
                old_storage,
                *storage,
                !token.cancelled,
                Ok(changes),
            ));
        }
        Ok(deltas)
    }

    /// Whether deltas tell what a drain brought.
    pub open spec fn told(
        &self,
        before: Self,
        old_storage: Storage,
        storage: Storage,
        alive: bool,
        deltas: QueryResultsDelta,
    ) -> bool {
        exists|changes: Seq<Delta<QuerySolution>>| #[trigger]
            self.drained(before, old_storage, storage, alive, Ok(changes)) && self.output().tells(
                before.output(),
                changes,
                deltas,
            )
    }

    /// What comes next of the changes of the results: a batch that is not empty, or what to
    /// wait for.
    ///
    /// The generation to wait for a change after is the one before the changes were taken
    /// in, so that no change is missed.
    pub fn next_deltas_batch(&mut self, storage: &mut Storage, token: &CancellationToken) -> (step:
        DeltasStep)
        requires
            old(self).wf(),
            old(storage).wf(),
            old(self).driver().registered(*old(storage)),
        ensures
            final(self).wf(),
            final(storage).wf(),
            final(self).stepped(
                *old(self),
                *old(storage),
                *final(storage),
                !token.cancelled,
                step,
            ),
    {
        let baseline = self.driver.change_generation(storage);
        let deltas = match self.deltas(storage, token) {
            Ok(deltas) => deltas,
            Err(error) => {
                return DeltasStep::Failed(error);
            },
        };
        if !deltas.is_empty() {
            return DeltasStep::Ready(deltas);
        }
        if self.done {
            return DeltasStep::Finished;
        }
        DeltasStep::Wait(baseline)
    }

    /// What a step tells: a batch is shown if it is not empty.
    pub open spec fn stepped(
        &self,
        before: Self,
        old_storage: Storage,
        storage: Storage,
        alive: bool,
        step: DeltasStep,
    ) -> bool {
        match step {
            DeltasStep::Failed(error) => self.drained(
                before,
                old_storage,
                storage,
                alive,
                Err(error),
            ),
            DeltasStep::Ready(deltas) => deltas.len() > 0 && self.told(
                before,
                old_storage,
                storage,
                alive,
                deltas,
            ),
            DeltasStep::Finished => self.done() && self.told_nothing(
                before,
                old_storage,
                storage,
                alive,
            ),
            DeltasStep::Wait(baseline) => {
                &&& !self.done()
                &&& baseline
                    == old_storage.registry()[before.driver().notifier() as int]->0.changes()
                &&& self.told_nothing(before, old_storage, storage, alive)
            },
        }
    }

    /// Whether a drain brought nothing to tell.
    pub open spec fn told_nothing(
        &self,
        before: Self,
        old_storage: Storage,
        storage: Storage,
        alive: bool,
    ) -> bool {
        exists|deltas: QueryResultsDelta|
            deltas.len() == 0 && #[trigger] self.told(before, old_storage, storage, alive, deltas)
    }

    /// The wait for a change after the generation `baseline`.
    pub fn wait_for_change(&self, baseline: u64) -> (future: NotifierChangeFuture)
        ensures
            future.baseline == baseline,
            future.cancellation_waker is None,
    {
        self.driver.wait_for_change(baseline)
    }

    /// Polls a wait for a change.
    pub fn poll_change(
        &self,
        storage: &mut Storage,
        future: &mut NotifierChangeFuture,
        token: &mut CancellationToken,
        waker: &Waker,
    ) -> (poll: ChangePoll)
        requires
            old(storage).wf(),
            self.driver().registered(*old(storage)),
        ensures
            final(storage).wf(),
            final(storage).table() == old(storage).table(),
            final(storage).on_disk() == old(storage).on_disk(),
            final(storage).read_only() == old(storage).read_only(),
            final(storage).subscribers() == old(storage).subscribers(),
            only_at(
                old(storage).registry(),
                final(storage).registry(),
                self.driver().notifier(),
            ),
            self.driver().registered(*final(storage)),
            waits(
                *old(future),
                *final(future),
                old(storage).registry()[self.driver().notifier() as int]->0,
                final(storage).registry()[self.driver().notifier() as int]->0,
                *old(token),
                *final(token),
                *waker,
                poll,
            ),
    {
        self.driver.poll_change(storage, future, token, waker)
    }

    /// Ends a wait for a change.
    pub fn close_wait(
        &self,
        storage: &mut Storage,
        future: &mut NotifierChangeFuture,
        token: &mut CancellationToken,
    )
        requires
            old(storage).wf(),
            self.driver().registered(*old(storage)),
        ensures
            final(storage).wf(),
            final(storage).table() == old(storage).table(),
            final(storage).on_disk() == old(storage).on_disk(),
            final(storage).read_only() == old(storage).read_only(),
            final(storage).subscribers() == old(storage).subscribers(),
            only_at(
                old(storage).registry(),
                final(storage).registry(),
                self.driver().notifier(),
            ),
            self.driver().registered(*final(storage)),
            waits_no_more(
                *old(future),
                *final(future),
                old(storage).registry()[self.driver().notifier() as int]->0,
                final(storage).registry()[self.driver().notifier() as int]->0,
                *old(token),
                *final(token),
            ),
    {
        self.driver.close_wait(storage, future, token)
    }

    /// Ends the query.
    pub fn close(self, storage: &mut Storage)
        requires
            old(storage).wf(),
        ensures
            self.driver().ended(*old(storage), *final(storage)),
    {
        self.driver.close(storage);
    }

    /// Iterates over non-empty batches of query changes.
    ///
    /// Drop the iterator and its state if a step fails.
    pub fn iter_deltas(&mut self) -> (iter: IncrementalQueryDeltasIter<'_>)
        ensures
            *iter.state == *old(self),
            *final(self) == *final(iter.state),
    {
        IncrementalQueryDeltasIter { state: self }
    }
}

/// Iterator over batches of query changes.
pub struct IncrementalQueryDeltasIter<'s> {
    pub state: &'s mut IncrementalQueryDeltasState,
}

impl<'s> IncrementalQueryDeltasIter<'s> {
    /// What comes next of the changes of the results.
    pub fn next(&mut self, storage: &mut Storage, token: &CancellationToken) -> (step: DeltasStep)
        requires
            old(self).state.wf(),
            old(storage).wf(),
            old(self).state.driver().registered(*old(storage)),
        ensures
            final(self).state.wf(),
            final(storage).wf(),
            final(self).state.stepped(
                *old(self).state,
                *old(storage),
                *final(storage),
                !token.cancelled,
                step,
            ),
    {
        self.state.next_deltas_batch(storage, token)
    }
}

/// The changes that a query tells lead from the results of the rows that it held to the
/// results of exactly the rows that it has over the committed quads.
pub proof fn law_told_changes_lead_to_the_answer(
    before: IncrementalQueryDeltasState,
    after: IncrementalQueryDeltasState,
    old_storage: Storage,
    storage: Storage,
    alive: bool,
    deltas: QueryResultsDelta,
    listing: Seq<EncodedQuad>,
)
    requires
        before.driver().in_tune(old_storage),
        before.faithful(old_storage),
        !before.done(),
        after.told(before, old_storage, storage, alive, deltas),
        lists_quads(listing, after.driver().subject_matter(storage)),
    ensures
        after.driver().in_tune(storage),
        after.faithful(storage),
        match deltas {
            QueryResultsDelta::Solutions(values) => {
                let changes = change_views(values.rest());
                &&& plays(before.solutions(old_storage), changes)
                &&& same_bag(
                    played(before.solutions(old_storage), changes),
                    after.answers(storage, listing),
                )
            },
            QueryResultsDelta::Boolean(values) => {
                let answer = after.answers(storage, listing).len() > 0;
                &&& values.rest().len() > 0 ==> values.rest() == seq![answer]
                &&& values.rest().len() == 0 ==> answer == (before.solutions(old_storage).len()
                    > 0)
            },
            QueryResultsDelta::Graph(values) => {
                &&& before.output() matches IncrementalQueryOutput::Graph(old_output)
                &&& after.output() matches IncrementalQueryOutput::Graph(output)
                &&& tells_graph(
                    triple_deltas(values.rest()),
                    old_output.graph(),
                    output.graph(),
                )
                &&& same_bag(output.solutions(), after.answers(storage, listing))
            },
        },
{
    let changes = choose|changes: Seq<Delta<QuerySolution>>| #[trigger]
        after.drained(before, old_storage, storage, alive, Ok(changes)) && after.output().tells(
            before.output(),
            changes,
            deltas,
        );
    let views = change_views(changes);
    let old_solutions = before.solutions(old_storage);
    let solutions = after.solutions(storage);
    let answers = after.answers(storage, listing);
    lemma_drain_follows(
        before.driver(),
        after.driver(),
        old_storage,
        storage,
        alive,
        changes,
        after.driver().node().live(),
    );
    lemma_answers_are_solutions(after.driver(), storage, listing);
    lemma_weight_same_bag(solutions, answers, |values: Values| 0int);
    lemma_same_bag_transitive(played(old_solutions, views), solutions, answers);
    match after.output() {
        IncrementalQueryOutput::Solutions { .. } => {},
        IncrementalQueryOutput::Boolean { .. } => {
            lemma_tallied(old_solutions, views);
            lemma_weight_same_bag(
                played(old_solutions, views),
                solutions,
                |values: Values| 0int,
            );
        },
        IncrementalQueryOutput::Graph(output) => {
            let old_output = before.output()->Graph_0;
            lemma_same_played(old_output.solutions(), old_solutions, views);
            lemma_same_bag_transitive(
                output.solutions(),
                played(old_output.solutions(), views),
                played(old_solutions, views),
            );
            lemma_same_bag_transitive(
                output.solutions(),
                played(old_solutions, views),
                solutions,
            );
            lemma_same_bag_transitive(output.solutions(), solutions, answers);
        },
    }
}

/// What changes of triples, one after the other, make of a set of triples.
pub open spec fn applied(triples: Set<TripleView>, changes: Seq<Delta<TripleView>>) -> Set<
    TripleView,
>
    decreases changes.len(),
{
    if changes.len() == 0 {
        triples
    } else {
        let before = applied(triples, changes.drop_last());
        match changes.last() {
            Delta::Addition(triple) => before.insert(triple),
            Delta::Deletion(triple) => before.remove(triple),
        }
    }
}

proof fn lemma_applied_add(
    triples: Set<TripleView>,
    a: Seq<Delta<TripleView>>,
    b: Seq<Delta<TripleView>>,
)
    ensures
        applied(triples, a + b) == applied(applied(triples, a), b),
    decreases b.len(),
{
    if b.len() == 0 {
        assert(a + b =~= a);
    } else {
        assert((a + b).drop_last() =~= a + b.drop_last());
        lemma_applied_add(triples, a, b.drop_last());
    }
}

/// Of changes that concern a triple at most once, the one that does decides.
proof fn lemma_applied_once(
    triples: Set<TripleView>,
    changes: Seq<Delta<TripleView>>,
    triple: TripleView,
)
    requires
        count(changes, Delta::Addition(triple)) + count(changes, Delta::Deletion(triple)) <= 1,
    ensures
        applied(triples, changes).contains(triple) == (if count(changes, Delta::Addition(triple))
            > 0 {
            true
        } else {
            triples.contains(triple) && count(changes, Delta::Deletion(triple)) == 0
        }),
    decreases changes.len(),
{
    if changes.len() > 0 {
        let front = changes.drop_last();
        lemma_count(front, Delta::Addition(triple));
        lemma_count(front, Delta::Deletion(triple));
        assert(changes =~= front.push(changes.last()));
        lemma_weight_push(front, changes.last(), is(Delta::Addition(triple)));
        lemma_weight_push(front, changes.last(), is(Delta::Deletion(triple)));
        lemma_applied_once(triples, front, triple);
    }
}

/// Changes that tell what became of a set of triples lead from the one set to the other.
proof fn lemma_told_graph_applied(
    changes: Seq<Delta<TripleView>>,
    before: Set<TripleView>,
    after: Set<TripleView>,
)
    requires
        tells_graph(changes, before, after),
    ensures
        applied(before, changes) == after,
{
    assert forall|triple: TripleView| applied(before, changes).contains(triple) == after.contains(
        triple,
    ) by {
        assert(tells(changes, triple, before.contains(triple), after.contains(triple)));
        lemma_applied_once(before, changes, triple);
    }
    assert(applied(before, changes) =~= after);
}

/// The changes of solutions in batches, one after the other.
pub open spec fn solution_changes(batches: Seq<QueryResultsDelta>) -> Seq<Delta<Values>>
    decreases batches.len(),
{
    if batches.len() == 0 {
        Seq::empty()
    } else {
        solution_changes(batches.drop_last()) + match batches.last() {
            QueryResultsDelta::Solutions(values) => change_views(values.rest()),
            _ => Seq::empty(),
        }
    }
}

/// The changes of triples in batches, one after the other.
pub open spec fn triple_changes(batches: Seq<QueryResultsDelta>) -> Seq<Delta<TripleView>>
    decreases batches.len(),
{
    if batches.len() == 0 {
        Seq::empty()
    } else {
        triple_changes(batches.drop_last()) + match batches.last() {
            QueryResultsDelta::Graph(values) => triple_deltas(values.rest()),
            _ => Seq::empty(),
        }
    }
}

/// The value that batches told last, if they told one.
pub open spec fn last_value(batches: Seq<QueryResultsDelta>) -> Option<bool>
    decreases batches.len(),
{
    if batches.len() == 0 {
        None
    } else {
        match batches.last() {
            QueryResultsDelta::Boolean(values) if values.rest().len() > 0 => Some(
                values.rest().last(),
            ),
            _ => last_value(batches.drop_last()),
        }
    }
}

impl IncrementalQueryDeltasState {
    /// Whether batches, applied to nothing one after the other, give what the query holds.
    pub open spec fn adds_up(&self, storage: Storage, batches: Seq<QueryResultsDelta>) -> bool {
        match self.output() {
            IncrementalQueryOutput::Solutions { .. } => {
                &&& plays(Seq::empty(), solution_changes(batches))
                &&& same_bag(
                    played(Seq::empty(), solution_changes(batches)),
                    self.solutions(storage),
                )
            },
            IncrementalQueryOutput::Boolean { solution_count, initial } => if initial {
                last_value(batches) is None
            } else {
                last_value(batches) == Some(solution_count@ > 0)
            },
            IncrementalQueryOutput::Graph(output) => applied(
                Set::empty(),
                triple_changes(batches),
            ) == output.graph(),
        }
    }
}

/// One more call of a query, and what was told before it.
pub struct ToldCall {
    pub old_storage: Storage,
    pub storage: Storage,
    pub alive: bool,
    pub deltas: QueryResultsDelta,
}

/// The batches of calls.
pub open spec fn batches_of(calls: Seq<ToldCall>) -> Seq<QueryResultsDelta> {
    calls.map_values(|call: ToldCall| call.deltas)
}

/// Whether a call of a query that has not finished has told what it tells, and the query has
/// followed the commits since the call before it.
pub open spec fn called(
    states: Seq<IncrementalQueryDeltasState>,
    calls: Seq<ToldCall>,
    i: int,
) -> bool {
    let call = calls[i];
    &&& !states[i].done()
    &&& states[i].driver().in_tune(call.old_storage)
    &&& i > 0 ==> keeps_strings(calls[i - 1].storage, call.old_storage)
    &&& states[i + 1].told(states[i], call.old_storage, call.storage, call.alive, call.deltas)
}

/// Whether a query was called so again and again, from its start on.
pub open spec fn called_again(
    states: Seq<IncrementalQueryDeltasState>,
    calls: Seq<ToldCall>,
) -> bool {
    &&& states.len() == calls.len() + 1
    &&& states[0].driver().held().len() == 0
    &&& match states[0].output() {
        IncrementalQueryOutput::Solutions { .. } => true,
        IncrementalQueryOutput::Boolean { solution_count, initial } => initial
            && solution_count@ == 0,
        IncrementalQueryOutput::Graph(output) => output.wf() && output.stored().len() == 0,
    }
    &&& forall|i: int| 0 <= i < calls.len() ==> #[trigger] called(states, calls, i)
}

/// One more call keeps the batches adding up to what the query holds.
proof fn lemma_adds_up(
    before: IncrementalQueryDeltasState,
    after: IncrementalQueryDeltasState,
    call: ToldCall,
    batches: Seq<QueryResultsDelta>,
)
    requires
        !before.done(),
        before.driver().in_tune(call.old_storage),
        before.faithful(call.old_storage),
        before.adds_up(call.old_storage, batches),
        after.told(before, call.old_storage, call.storage, call.alive, call.deltas),
    ensures
        after.driver().in_tune(call.storage),
        after.faithful(call.storage),
        after.adds_up(call.storage, batches.push(call.deltas)),
{
    let deltas = call.deltas;
    let all = batches.push(deltas);
    assert(all.drop_last() =~= batches);
    let changes = choose|changes: Seq<Delta<QuerySolution>>| #[trigger]
        after.drained(before, call.old_storage, call.storage, call.alive, Ok(changes))
            && after.output().tells(before.output(), changes, deltas);
    let views = change_views(changes);
    let old_solutions = before.solutions(call.old_storage);
    let solutions = after.solutions(call.storage);
    lemma_drain_follows(
        before.driver(),
        after.driver(),
        call.old_storage,
        call.storage,
        call.alive,
        changes,
        after.driver().node().live(),
    );
    match after.output() {
        IncrementalQueryOutput::Solutions { .. } => {
            let told = solution_changes(batches);
            let reached = played(Seq::empty(), told);
            lemma_played_add(Seq::empty(), told, views);
            lemma_same_played(reached, old_solutions, views);
            lemma_same_bag_transitive(
                played(reached, views),
                played(old_solutions, views),
                solutions,
            );
        },
        IncrementalQueryOutput::Boolean { .. } => {
            lemma_tallied(old_solutions, views);
            lemma_weight_same_bag(
                played(old_solutions, views),
                solutions,
                |values: Values| 0int,
            );
        },
        IncrementalQueryOutput::Graph(output) => {
            let old_output = before.output()->Graph_0;
            let told = triple_deltas(deltas->Graph_0.rest());
            lemma_told_graph_applied(told, old_output.graph(), output.graph());
            lemma_applied_add(Set::empty(), triple_changes(batches), told);
            lemma_same_played(old_output.solutions(), old_solutions, views);
            lemma_same_bag_transitive(
                output.solutions(),
                played(old_output.solutions(), views),
                played(old_solutions, views),
            );
            lemma_same_bag_transitive(
                output.solutions(),
                played(old_solutions, views),
                solutions,
            );
        },
    }
}

proof fn lemma_called_again(states: Seq<IncrementalQueryDeltasState>, calls: Seq<ToldCall>)
    requires
        called_again(states, calls),
        calls.len() > 0,
    ensures
        states.last().driver().in_tune(calls.last().storage),
        states.last().faithful(calls.last().storage),
        states.last().adds_up(calls.last().storage, batches_of(calls)),
    decreases calls.len(),
{
    let n = calls.len() - 1;
    let before = states[n];
    let call = calls[n];
    let front = calls.drop_last();
    assert(called(states, calls, n));
    if n == 0 {
        assert(before.driver().held() =~= Seq::empty());
        assert(before.solutions(call.old_storage) =~= Seq::empty());
        assert(batches_of(front) =~= Seq::empty());
        if let IncrementalQueryOutput::Graph(output) = before.output() {
            assert(output.solutions() =~= Seq::empty());
            assert forall|triple: TripleView| !output.graph().contains(triple) by {
                output.law_graph_is_what_solutions_give(triple);
            }
            assert(output.graph() =~= Set::empty());
        }
    } else {
        let states_front = states.drop_last();
        assert forall|i: int| 0 <= i < front.len() implies #[trigger] called(
            states_front,
            front,
            i,
        ) by {
            assert(called(states, calls, i));
        }
        lemma_called_again(states_front, front);
        assert(states_front.last() == before);
        assert(front.last() == calls[n - 1]);
        lemma_solutions_stay(before.driver(), calls[n - 1].storage, call.old_storage);
    }
    lemma_adds_up(before, states[n + 1], call, batches_of(front));
    assert(batches_of(calls) =~= batches_of(front).push(call.deltas));
}

/// All batches that a query has told since its start, applied to nothing one after the other,
/// give the results that the query has over the committed quads: the solutions of a SELECT
/// query, and the triples that the solutions of a CONSTRUCT query give. The value that was
/// told last is that of an ASK query.
pub proof fn law_batches_add_up_to_the_answer(
    states: Seq<IncrementalQueryDeltasState>,
    calls: Seq<ToldCall>,
    listing: Seq<EncodedQuad>,
)
    requires
        called_again(states, calls),
        calls.len() > 0,
        lists_quads(listing, states.last().driver().subject_matter(calls.last().storage)),
    ensures
        ({
            let state = states.last();
            let batches = batches_of(calls);
            let answers = state.answers(calls.last().storage, listing);
            match state.output() {
                IncrementalQueryOutput::Solutions { .. } => {
                    &&& plays(Seq::empty(), solution_changes(batches))
                    &&& same_bag(played(Seq::empty(), solution_changes(batches)), answers)
                },
                IncrementalQueryOutput::Boolean { .. } => last_value(batches) == Some(
                    answers.len() > 0,
                ),
                IncrementalQueryOutput::Graph(output) => {
                    &&& applied(Set::empty(), triple_changes(batches)) == output.graph()
                    &&& same_bag(output.solutions(), answers)
                },
            }
        }),
{
    let n = calls.len() - 1;
    let state = states.last();
    let storage = calls.last().storage;
    let solutions = state.solutions(storage);
    let answers = state.answers(storage, listing);
    lemma_called_again(states, calls);
    assert(called(states, calls, n));
    let call = calls[n];
    let changes = choose|changes: Seq<Delta<QuerySolution>>| #[trigger]
        state.drained(states[n], call.old_storage, call.storage, call.alive, Ok(changes))
            && state.output().tells(states[n].output(), changes, call.deltas);
    assert(state.driver().complete(storage));
    lemma_answers_are_solutions(state.driver(), storage, listing);
    lemma_weight_same_bag(solutions, answers, |values: Values| 0int);
    match state.output() {
        IncrementalQueryOutput::Solutions { .. } => {
            lemma_same_bag_transitive(
                played(Seq::empty(), solution_changes(batches_of(calls))),
                solutions,
                answers,
            );
        },
        IncrementalQueryOutput::Boolean { .. } => {},
        IncrementalQueryOutput::Graph(output) => {
            lemma_same_bag_transitive(output.solutions(), solutions, answers);
        },
    }
}

/// A call that comes after one that succeeded tells nothing where no change waits for the
/// query.
pub proof fn law_nothing_is_told_without_changes(
    first: IncrementalQueryDeltasState,
    second: IncrementalQueryDeltasState,
    third: IncrementalQueryDeltasState,
    first_storage: Storage,
    second_storage: Storage,
    third_storage: Storage,
    last_storage: Storage,
    alive: bool,
    still_alive: bool,
    deltas: QueryResultsDelta,
    later: QueryResultsDelta,
)
    requires
        second.told(first, first_storage, second_storage, alive, deltas),
        second.driver().heard_all(third_storage),
        third.told(second, third_storage, last_storage, still_alive, later),
    ensures
        later.len() == 0,
{
    let changes = choose|changes: Seq<Delta<QuerySolution>>| #[trigger]
        third.drained(second, third_storage, last_storage, still_alive, Ok(changes))
            && third.output().tells(second.output(), changes, later);
    assert(changes.len() == 0);
    assert(changes =~= Seq::empty());
    assert(change_views(changes) =~= Seq::empty());
    if let QueryResultsDelta::Graph(values) = later {
        let told = triple_deltas(values.rest());
        let output = third.output()->Graph_0;
        let old_output = second.output()->Graph_0;
        if told.len() > 0 {
            let triple = told[0].value_of();
            output.law_graph_is_what_solutions_give(triple);
            old_output.law_graph_is_what_solutions_give(triple);
            assert(tells(
                told,
                triple,
                old_output.graph().contains(triple),
                output.graph().contains(triple),
            ));
            lemma_count(told, told[0]);
            assert(told.contains(told[0]));
        }
    }
}

/// Changes that are discarded because of an error, unless the query was cancelled, come in no
/// later batch: the next one goes on from the rows that the discarded changes led to.
pub proof fn law_discarded_changes_do_not_come_again(
    before: IncrementalQueryDeltasState,
    failed: IncrementalQueryDeltasState,
    after: IncrementalQueryDeltasState,
    old_storage: Storage,
    storage: Storage,
    new_storage: Storage,
    alive: bool,
    still_alive: bool,
    error: QueryEvaluationError,
    changes: Seq<Delta<QuerySolution>>,
    listing: Seq<EncodedQuad>,
)
    requires
        before.driver().in_tune(old_storage),
        !before.done(),
        failed.drained(before, old_storage, storage, alive, Err(error)),
        error != QueryEvaluationError::Cancelled,
        after.drained(failed, storage, new_storage, still_alive, Ok(changes)),
        lists_quads(listing, after.driver().subject_matter(new_storage)),
    ensures
        ({
            let discarded = failed.driver().last_rows();
            let rows = after.driver().last_rows();
            let held = played(before.driver().held(), discarded);
            &&& failed.output() == before.output()
            &&& plays(before.driver().held(), discarded)
            &&& plays(held, rows)
            &&& same_bag(played(held, rows), after.driver().answer(listing))
            &&& all_shown(
                rows,
                changes,
                after.driver().names(),
                after.driver().lookup(new_storage),
            )
        }),
{
    let discarded = choose|discarded: Seq<Delta<QuerySolution>>| #[trigger]
        failed.driver().drained(
            before.driver(),
            old_storage,
            storage,
            alive,
            discarded,
            Some(Err(error)),
        );
    assert(failed.driver().in_tune(storage));
}

/// What is kept stays that of the rows that the query holds while commits add strings.
pub proof fn law_told_changes_outlive_commits(
    state: IncrementalQueryDeltasState,
    before: Storage,
    after: Storage,
)
    requires
        state.faithful(before),
        keeps_strings(before, after),
    ensures
        state.faithful(after),
{
    lemma_solutions_stay(state.driver(), before, after);
}

} // verus!
