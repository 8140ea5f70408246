//! The complete results of queries that are kept up to date.

use crate::attachment::taken_over;
use crate::bag::{
    count, filter_map, lemma_count, lemma_filter_map_same_bag, lemma_same_bag_transitive,
    lemma_weight_same_bag, same_bag,
};
use crate::delta::{Delta, DeltaKind, IncrementalDriverState};
use crate::driver::{decoded_values, shown, IncrementalSelectDriver};
use crate::error::{CorruptionError, QueryEvaluationError};
use crate::fx::{distinct, occurs, FxKey};
use crate::graph_output::{
    change_view, change_views, changes_named, entry_steps, lemma_entries_named,
    IncrementalGraphOutput,
};
use crate::listing::lists_quads;
use crate::live::only_at;
use crate::model::{names, Triple, TripleView, Variable};
use crate::notifier::{
    waits, waits_no_more, CancellationToken, ChangePoll, NotifierChangeFuture, Waker,
};
use crate::numeric_encoder::{EncodedQuad, StrHash};
use crate::replay::{
    lemma_mapped_step, lemma_played_push, lemma_same_step, mapped, played, plays, step,
};
use crate::solution::QuerySolution;
use crate::solution_set::{QuerySolutionSet, QuerySolutionSetIter, Values};
use crate::storage::Storage;
use crate::tally::Tally;
use crate::template::TripleTemplate;
use crate::tuple::TupleView;
use std::sync::Arc;
use vstd::prelude::*;

verus! {

/// The solution of a row, if it can be told.
pub open spec fn told_values(
    width: nat,
    lookup: spec_fn(StrHash) -> Option<Seq<u8>>,
) -> spec_fn(TupleView) -> Option<Values> {
    |row: TupleView|
        match decoded_values(row, width, lookup) {
            Ok(values) => Some(values),
            Err(_) => None,
        }
}

/// How many solutions are left after changes, if a deletion always takes one away.
pub open spec fn tallied(solutions: nat, changes: Seq<Delta<Values>>) -> nat
    decreases changes.len(),
{
    if changes.len() == 0 {
        solutions
    } else {
        let before = tallied(solutions, changes.drop_last());
        match changes.last() {
            Delta::Addition(_) => before + 1,
            Delta::Deletion(_) => if before == 0 {
                0
            } else {
                (before - 1) as nat
            },
        }
    }
}

/// Where every deletion deletes what is there, the number of solutions is counted right.
pub proof fn lemma_tallied(solutions: Seq<Values>, changes: Seq<Delta<Values>>)
    requires
        plays(solutions, changes),
    ensures
        tallied(solutions.len(), changes) == played(solutions, changes).len(),
    decreases changes.len(),
{
    if changes.len() > 0 {
        lemma_tallied(solutions, changes.drop_last());
        let before = played(solutions, changes.drop_last());
        if let Delta::Deletion(gone) = changes.last() {
            crate::bag::lemma_weight_without(before, gone, crate::bag::is(gone));
        }
    }
}

/// What is kept of the results of a query.
pub enum IncrementalResultsOutput {
    /// One owned solution and its multiplicity per distinct row.
    Solutions { variables: Arc<Vec<Variable>>, current: QuerySolutionSet },
    Boolean { solution_count: Tally },
    Graph(IncrementalGraphOutput),
}

impl IncrementalResultsOutput {
    pub open spec fn wf(&self) -> bool {
        match self {
            IncrementalResultsOutput::Solutions { current, .. } => current.wf(),
            IncrementalResultsOutput::Boolean { .. } => true,
            IncrementalResultsOutput::Graph(output) => output.wf(),
        }
    }

    /// Whether these are the results of the given solutions.
    pub open spec fn of(&self, solutions: Seq<Values>) -> bool {
        match self {
            IncrementalResultsOutput::Solutions { current, .. } => same_bag(current@, solutions),
            IncrementalResultsOutput::Boolean { solution_count } => solution_count@
                == solutions.len(),
            IncrementalResultsOutput::Graph(output) => same_bag(output.solutions(), solutions),
        }
    }

    /// Whether the results are those of solutions with the variables of these names.
    pub open spec fn named(&self, own: Seq<Seq<u8>>) -> bool {
        match self {
            IncrementalResultsOutput::Solutions { variables, current } => names(variables@) == own
                && current.named(own),
            IncrementalResultsOutput::Boolean { .. } => true,
            IncrementalResultsOutput::Graph(output) => output.named(own),
        }
    }

    /// Whether these are results of the same kind of query.
    pub open spec fn same_form(&self, other: Self) -> bool {
        match (self, other) {
            (
                IncrementalResultsOutput::Solutions { variables, .. },
                IncrementalResultsOutput::Solutions { variables: others, .. },
            ) => *variables == others,
            (
                IncrementalResultsOutput::Boolean { .. },
                IncrementalResultsOutput::Boolean { .. },
            ) => true,
            (IncrementalResultsOutput::Graph(output), IncrementalResultsOutput::Graph(other)) =>
            output.template() == other.template(),
            _ => false,
        }
    }

    /// What changes make of the results.
    pub open spec fn became(&self, before: Self, changes: Seq<Delta<QuerySolution>>) -> bool {
        &&& self.wf()
        &&& self.same_form(before)
        &&& forall|own: Seq<Seq<u8>>| #[trigger]
            before.named(own) && changes_named(changes, own) ==> self.named(own)
        &&& match (*self, before) {
            (
                IncrementalResultsOutput::Solutions { current, .. },
                IncrementalResultsOutput::Solutions { current: old_current, .. },
            ) => current@ == played(old_current@, change_views(changes)),
            (
                IncrementalResultsOutput::Boolean { solution_count },
                IncrementalResultsOutput::Boolean { solution_count: old_count },
            ) => solution_count@ == tallied(old_count@, change_views(changes)),
            (IncrementalResultsOutput::Graph(output), IncrementalResultsOutput::Graph(old_output)) => {
                &&& entry_steps(
                    old_output.stored(),
                    output.stored(),
                    changes,
                    old_output.template(),
                )
                &&& same_bag(
                    output.solutions(),
                    played(old_output.solutions(), change_views(changes)),
                )
            },
            _ => false,
        }
    }

    /// Whether two outputs hold the same results.
    pub open spec fn same_results(&self, other: Self) -> bool {
        match (*self, other) {
            (
                IncrementalResultsOutput::Solutions { current, .. },
                IncrementalResultsOutput::Solutions { current: others, .. },
            ) => current@ == others@,
            (
                IncrementalResultsOutput::Boolean { solution_count },
                IncrementalResultsOutput::Boolean { solution_count: other_count },
            ) => solution_count@ == other_count@,
            (
                IncrementalResultsOutput::Graph(output),
                IncrementalResultsOutput::Graph(other_output),
            ) => output.stored() == other_output.stored(),
            _ => false,
        }
    }

    /// Applies changes of solutions. Tells whether there are some.
    pub fn apply_changes(&mut self, changes: Vec<Delta<QuerySolution>>) -> (changed: bool)
        requires
            old(self).wf(),
        ensures
            final(self).became(*old(self), changes@),
            changed == (changes@.len() > 0),
    {
        let ghost all = change_views(changes@);
        let ghost given = changes@;
        let changed = changes.len() > 0;
        match self {
            IncrementalResultsOutput::Solutions { current, .. } => {
                let ghost first = current@;
                let ghost start = *current;
                let mut changes = changes;
                let ghost mut done: int = 0;
                assert(all.take(0) =~= Seq::empty());
                while changes.len() > 0
                    invariant
                        current.wf(),
                        0 <= done,
                        done + changes@.len() == all.len(),
                        forall|i: int|
                            0 <= i < changes@.len() ==> change_view(#[trigger] changes@[i])
                                == all[done + i],
                        current@ == played(first, all.take(done)),
                        given.len() == all.len(),
                        changes@ == given.skip(done),
                        forall|own: Seq<Seq<u8>>| #[trigger]
                            start.named(own) && changes_named(given, own) ==> current.named(own),
                    decreases changes@.len(),
                {
                    let ghost waiting = changes@;
                    let ghost last = *current;
                    let change = changes.remove(0);
                    proof {
                        assert(changes@ =~= given.skip(done + 1));
                        assert(change == given[done]);
                        lemma_next_change(waiting, changes@, all, done);
                        lemma_played_push(first, all.take(done), all[done]);
                        assert(all.take(done).push(all[done]) =~= all.take(done + 1));
                        done = done + 1;
                    }
                    match change {
                        Delta::Addition(solution) => current.insert(solution),
                        Delta::Deletion(solution) => current.remove_one(&solution),
                    }
                    proof {
                        assert forall|own: Seq<Seq<u8>>| #[trigger]
                            start.named(own) && changes_named(given, own) implies current.named(
                            own,
                        ) by {
                            assert(last.named(own));
                            assert(given[done - 1].value_of().names() == own);
                            assert forall|values: Values| #[trigger]
                                current@.contains(values) implies current.names_of(values)
                                == own by {
                                if last@.contains(values) {
                                    assert(last.names_of(values) == own);
                                }
                            }
                        }
                    }
                }
                assert(all.take(done) =~= all);
            },
            IncrementalResultsOutput::Boolean { solution_count } => {
                count_solutions(solution_count, &changes);
            },
            IncrementalResultsOutput::Graph(output) => {
                let ghost start = *output;
                let _ = output.apply(changes);
                proof {
                    assert forall|own: Seq<Seq<u8>>| #[trigger]
                        start.named(own) && changes_named(given, own) implies output.named(own) by {
                        lemma_entries_named(
                            start.stored(),
                            output.stored(),
                            given,
                            start.template(),
                            own,
                        );
                    }
                }
            },
        }
        changed
    }
}

/// The change that is next, and those that are left.
pub proof fn lemma_next_change(
    waiting: Seq<Delta<QuerySolution>>,
    left: Seq<Delta<QuerySolution>>,
    all: Seq<Delta<Values>>,
    done: int,
)
    requires
        waiting.len() > 0,
        left == waiting.remove(0),
        0 <= done,
        done + waiting.len() == all.len(),
        forall|i: int|
            0 <= i < waiting.len() ==> change_view(#[trigger] waiting[i]) == all[done + i],
    ensures
        change_view(waiting[0]) == all[done],
        forall|i: int|
            0 <= i < left.len() ==> change_view(#[trigger] left[i]) == all[done + 1 + i],
{
    assert(change_view(waiting[0]) == all[done + 0]);
    assert forall|i: int| 0 <= i < left.len() implies change_view(#[trigger] left[i]) == all[done
        + 1 + i] by {
        assert(left[i] == waiting[i + 1]);
        assert(change_view(waiting[i + 1]) == all[done + (i + 1)]);
    }
}

/// Counts solutions.
pub fn count_solutions(solution_count: &mut Tally, changes: &Vec<Delta<QuerySolution>>)
    ensures
        final(solution_count)@ == tallied(old(solution_count)@, change_views(changes@)),
{
    let ghost all = change_views(changes@);
    let ghost first = solution_count@;
    let mut next: usize = 0;
    assert(all.take(0) =~= Seq::empty());
    while next < changes.len()
        invariant
            all == change_views(changes@),
            next <= all.len(),
            solution_count@ == tallied(first, all.take(next as int)),
        decreases all.len() - next,
    {
        proof {
            assert(all.take(next + 1).drop_last() =~= all.take(next as int));
            assert(all.take(next + 1).last() == change_view(changes@[next as int]));
        }
        match changes[next].kind() {
            DeltaKind::Addition => solution_count.add(),
            DeltaKind::Deletion => solution_count.take(),
        }
        next = next + 1;
    }
    assert(all.take(next as int) =~= all);
}

/// A view of the current results of a query.
pub enum IncrementalQueryResults<'a> {
    /// Solutions of a SELECT query.
    Solutions(IncrementalSelectResults<'a>),
    /// Result of an ASK query.
    Boolean(bool),
    /// Triples of a CONSTRUCT query.
    Graph(IncrementalGraphResults),
}

impl<'a> IncrementalQueryResults<'a> {
    /// Whether this shows what is kept of the results of a query.
    pub open spec fn shows(&self, output: IncrementalResultsOutput) -> bool {
        match (self, output) {
            (
                IncrementalQueryResults::Solutions(results),
                IncrementalResultsOutput::Solutions { current, .. },
            ) => {
                &&& results.wf()
                &&& same_bag(results.rest(), current@)
                &&& forall|own: Seq<Seq<u8>>| #[trigger]
                    current.named(own) ==> results.named(own)
            },
            (
                IncrementalQueryResults::Boolean(value),
                IncrementalResultsOutput::Boolean { solution_count },
            ) => *value == (solution_count@ > 0),
            (
                IncrementalQueryResults::Graph(results),
                IncrementalResultsOutput::Graph(output),
            ) => {
                &&& distinct(results.rest())
                &&& forall|triple: TripleView|
                    output.graph().contains(triple) <==> #[trigger] occurs(results.rest(), triple)
            },
            _ => false,
        }
    }
}

/// The current solutions of a SELECT query.
pub struct IncrementalSelectResults<'a> {
    current: QuerySolutionSetIter<'a>,
}

impl<'a> IncrementalSelectResults<'a> {
    pub closed spec fn wf(&self) -> bool {
        self.current.wf()
    }

    /// The solutions that are still to come.
    pub closed spec fn rest(&self) -> Seq<Values> {
        self.current.rest()
    }

    /// Whether all solutions have the variables of these names.
    pub closed spec fn named(&self, own: Seq<Seq<u8>>) -> bool {
        self.current.named(own)
    }

    pub fn new(current: QuerySolutionSetIter<'a>) -> (results: Self)
        requires
            current.wf(),
        ensures
            results.wf(),
            results.rest() == current.rest(),
            forall|own: Seq<Seq<u8>>| #[trigger] results.named(own) == current.named(own),
    {
        IncrementalSelectResults { current }
    }

    pub fn next(&mut self) -> (solution: Option<QuerySolution>)
        requires
            old(self).wf(),
        ensures
            final(self).wf(),
            match solution {
                Some(solution) => old(self).rest().len() > 0 && solution@ == old(self).rest()[0]
                    && final(self).rest() == old(self).rest().drop_first(),
                None => old(self).rest().len() == 0 && final(self).rest() == old(self).rest(),
            },
            forall|own: Seq<Seq<u8>>| #[trigger]
                old(self).named(own) ==> final(self).named(own) && (solution matches Some(solution)
                    ==> solution.names() == own),
    {
        match self.current.next() {
            Some((solution, _)) => Some(solution),
            None => None,
        }
    }
}

/// The current triples of a CONSTRUCT query.
pub struct IncrementalGraphResults {
    current: Vec<Triple>,
}

impl IncrementalGraphResults {
    /// The triples that are still to come.
    pub closed spec fn rest(&self) -> Seq<Triple> {
        self.current@
    }

    pub fn next(&mut self) -> (triple: Option<Triple>)
        ensures
            match triple {
                Some(triple) => old(self).rest().len() > 0 && triple == old(self).rest()[0]
                    && final(self).rest() == old(self).rest().drop_first(),
                None => old(self).rest().len() == 0 && final(self).rest() == old(self).rest(),
            },
    {
        if self.current.len() == 0 {
            return None;
        }
        let triple = self.current.remove(0);
        assert(self.rest() =~= old(self).rest().drop_first());
        Some(triple)
    }
}

/// What comes next of a stream of results.
#[derive(PartialEq, Eq, Debug)]
pub enum NextStep {
    /// There is something to show.
    Ready,
    /// Nothing will come any more.
    Finished,
    /// Nothing comes before the query observes a change after this generation.
    Wait(u64),
    Failed(QueryEvaluationError),
}

/// Stateful handle for complete results of an incremental query.
///
/// If [`Self::results`] or the iterator returns an error, stop using and drop this handle.
/// Errors do not mark the handle as done, and later calls have no recovery guarantee.
pub struct IncrementalQueryResultsState {
    driver: IncrementalSelectDriver,
    output: IncrementalResultsOutput,
    done: bool,
    emitted_initial: bool,
    last_changes: Ghost<Seq<Delta<QuerySolution>>>,
}

/// Whether changes of solutions show changes of rows, one for one.
pub open spec fn values_shown(
    rows: Seq<Delta<TupleView>>,
    changes: Seq<Delta<Values>>,
    width: nat,
    lookup: spec_fn(StrHash) -> Option<Seq<u8>>,
) -> bool {
    &&& rows.len() == changes.len()
    &&& forall|i: int|
        0 <= i < changes.len() ==> (#[trigger] changes[i]).kind_of() == rows[i].kind_of()
            && told_values(width, lookup)(rows[i].value_of()) == Some(changes[i].value_of())
}

/// One who holds the solutions of the rows that another holds keeps doing so by applying
/// the changes that show the changes of the rows.
pub proof fn lemma_values_follow(
    held: Seq<TupleView>,
    solutions: Seq<Values>,
    rows: Seq<Delta<TupleView>>,
    changes: Seq<Delta<Values>>,
    width: nat,
    lookup: spec_fn(StrHash) -> Option<Seq<u8>>,
)
    requires
        same_bag(solutions, filter_map(held, told_values(width, lookup))),
        values_shown(rows, changes, width, lookup),
        plays(held, rows),
        all_told(held, width, lookup),
    ensures
        all_told(played(held, rows), width, lookup),
        plays(solutions, changes),
        same_bag(
            played(solutions, changes),
            filter_map(played(held, rows), told_values(width, lookup)),
        ),
    decreases rows.len(),
{
    if rows.len() > 0 {
        let f = told_values(width, lookup);
        let old_rows = rows.drop_last();
        let old_changes = changes.drop_last();
        let last = rows.len() - 1;
        assert forall|i: int| 0 <= i < old_changes.len() implies (
        #[trigger] old_changes[i]).kind_of() == old_rows[i].kind_of() && told_values(
            width,
            lookup,
        )(old_rows[i].value_of()) == Some(old_changes[i].value_of()) by {
            assert(changes[i].kind_of() == rows[i].kind_of());
        }
        lemma_values_follow(held, solutions, old_rows, old_changes, width, lookup);
        assert(changes[last].kind_of() == rows[last].kind_of());
        assert(mapped(f, rows[last]) == Some(changes[last]));
        lemma_mapped_step(
            played(held, old_rows),
            played(solutions, old_changes),
            f,
            rows[last],
        );
        let before = played(held, old_rows);
        let after = played(held, rows);
        assert forall|i: int| 0 <= i < after.len() implies told_values(width, lookup)(
            #[trigger] after[i],
        ) is Some by {
            match rows[last] {
                Delta::Addition(row) => {
                    if i < before.len() {
                        assert(after[i] == before[i]);
                    }
                },
                Delta::Deletion(row) => {
                    let at = before.index_of(row);
                    let k = if i < at {
                        i
                    } else {
                        i + 1
                    };
                    assert(after[i] == before[k]);
                },
            }
        }
    }
}

/// The changes that a query hands out lead from the solutions of the rows that it held to
/// those of the rows that it holds.
pub proof fn lemma_drain_follows(
    before: IncrementalSelectDriver,
    after: IncrementalSelectDriver,
    old_storage: Storage,
    storage: Storage,
    alive: bool,
    changes: Seq<Delta<QuerySolution>>,
    live: bool,
)
    requires
        after.same_query(before),
        taken_over(before.sources(), old_storage, storage),
        after.drained(before, old_storage, storage, alive, changes, Some(Ok(live))),
    ensures
        values_shown(
            after.last_rows(),
            change_views(changes),
            after.names().len(),
            after.lookup(storage),
        ),
        before.in_tune(old_storage) && all_told(
            before.held(),
            before.names().len(),
            before.lookup(old_storage),
        ) ==> {
            &&& plays(solutions_of(before, old_storage), change_views(changes))
            &&& same_bag(
                played(solutions_of(before, old_storage), change_views(changes)),
                solutions_of(after, storage),
            )
            &&& all_told(after.held(), after.names().len(), after.lookup(storage))
        },
{
    let rows = after.last_rows();
    let views = change_views(changes);
    let width = after.names().len();
    let lookup = after.lookup(storage);
    assert forall|i: int| 0 <= i < views.len() implies (#[trigger] views[i]).kind_of()
        == rows[i].kind_of() && told_values(width, lookup)(rows[i].value_of()) == Some(
        views[i].value_of(),
    ) by {
        assert(shown(rows[i], changes[i], after.names(), lookup));
    }
    if before.in_tune(old_storage) && all_told(
        before.held(),
        before.names().len(),
        before.lookup(old_storage),
    ) {
        lemma_same_lookup(before, old_storage, storage);
        lemma_values_follow(
            before.held(),
            solutions_of(before, old_storage),
            rows,
            views,
            width,
            lookup,
        );
    }
}

/// The solutions of the rows that a query holds.
pub open spec fn solutions_of(driver: IncrementalSelectDriver, storage: Storage) -> Seq<Values> {
    filter_map(driver.held(), told_values(driver.names().len(), driver.lookup(storage)))
}

/// The solutions of the rows that a query has over a list of quads.
pub open spec fn answers_of(
    driver: IncrementalSelectDriver,
    storage: Storage,
    listing: Seq<EncodedQuad>,
) -> Seq<Values> {
    filter_map(driver.answer(listing), told_values(driver.names().len(), driver.lookup(storage)))
}

/// Whether every row of a list can be told.
pub open spec fn all_told(
    rows: Seq<TupleView>,
    width: nat,
    lookup: spec_fn(StrHash) -> Option<Seq<u8>>,
) -> bool {
    forall|i: int|
        0 <= i < rows.len() ==> told_values(width, lookup)(#[trigger] rows[i]) is Some
}

impl IncrementalQueryResultsState {
    /// The results are those of solutions with the variables of the query.
    pub open spec fn wf(&self) -> bool {
        &&& self.driver().wf()
        &&& self.output().wf()
        &&& self.output().named(self.driver().names())
    }

    pub closed spec fn driver(&self) -> IncrementalSelectDriver {
        self.driver
    }

    pub closed spec fn output(&self) -> IncrementalResultsOutput {
        self.output
    }

    /// Whether no further changes come.
    pub closed spec fn done(&self) -> bool {
        self.done
    }

    /// Whether the first results were shown.
    pub closed spec fn emitted_initial(&self) -> bool {
        self.emitted_initial
    }

    /// The changes of solutions that were applied last.
    pub closed spec fn last_changes(&self) -> Seq<Delta<QuerySolution>> {
        self.last_changes@
    }

    /// The solutions of the rows that the query holds.
    pub open spec fn solutions(&self, storage: Storage) -> Seq<Values> {
        solutions_of(self.driver(), storage)
    }

    /// The solutions of the rows that the query has over a list of quads.
    pub open spec fn answers(&self, storage: Storage, listing: Seq<EncodedQuad>) -> Seq<Values> {
        answers_of(self.driver(), storage, listing)
    }

    /// Whether the results are those of the rows that the query holds.
    pub open spec fn faithful(&self, storage: Storage) -> bool {
        &&& self.output().of(self.solutions(storage))
        &&& all_told(
            self.driver().held(),
            self.driver().names().len(),
            self.driver().lookup(storage),
        )
    }

    /// A SELECT query.
    pub fn new_select(driver: IncrementalSelectDriver) -> (state: Self)
        requires
            driver.wf(),
        ensures
            state.starts(driver),
            driver.held().len() == 0 ==> forall|storage: Storage| #[trigger]
                state.faithful(storage),
            state.output() matches IncrementalResultsOutput::Solutions { variables, .. } && names(
                variables@,
            ) == driver.names(),
    {
        let variables = driver.variables();
        let state = IncrementalQueryResultsState {
            driver,
            output: IncrementalResultsOutput::Solutions {
                variables,
                current: QuerySolutionSet::new(),
            },
            done: false,
            emitted_initial: false,
            last_changes: Ghost(Seq::empty()),
        };
        state
    }

    /// An ASK query.
    pub fn new_ask(driver: IncrementalSelectDriver) -> (state: Self)
        requires
            driver.wf(),
        ensures
            state.starts(driver),
            driver.held().len() == 0 ==> forall|storage: Storage| #[trigger]
                state.faithful(storage),
            state.output() is Boolean,
    {
        IncrementalQueryResultsState {
            driver,
            output: IncrementalResultsOutput::Boolean { solution_count: Tally::new() },
            done: false,
            emitted_initial: false,
            last_changes: Ghost(Seq::empty()),
        }
    }

    /// A CONSTRUCT query.
    pub fn new_construct(driver: IncrementalSelectDriver, template: Vec<TripleTemplate>) -> (state:
        Self)
        requires
            driver.wf(),
        ensures
            state.starts(driver),
            driver.held().len() == 0 ==> forall|storage: Storage| #[trigger]
                state.faithful(storage),
            state.output() matches IncrementalResultsOutput::Graph(output) && output.template()
                == template@,
    {
        let state = IncrementalQueryResultsState {
            driver,
            output: IncrementalResultsOutput::Graph(IncrementalGraphOutput::new(template)),
            done: false,
            emitted_initial: false,
            last_changes: Ghost(Seq::empty()),
        };
        proof {
            if let IncrementalResultsOutput::Graph(output) = &state.output {
                assert(output.solutions() =~= Seq::<Values>::empty());
            }
        }
        state
    }

    /// Whether nothing was shown yet.
    pub open spec fn starts(&self, driver: IncrementalSelectDriver) -> bool {
        &&& self.wf()
        &&& self.driver() == driver
        &&& !self.done()
        &&& !self.emitted_initial()
        &&& self.output().of(Seq::empty())
    }

    /// The variables produced by a SELECT query, in projection order.
    ///
    /// Returns `None` for ASK and CONSTRUCT queries.
    pub fn variables(&self) -> (variables: Option<&Vec<Variable>>)
        ensures
            match variables {
                Some(variables) => self.output() matches IncrementalResultsOutput::Solutions {
                    variables: own,
                    ..
                } && own@ == variables@,
                None => !(self.output() is Solutions),
            },
    {
        match &self.output {
            IncrementalResultsOutput::Solutions { variables, .. } => Some(&**variables),
            IncrementalResultsOutput::Boolean { .. } => None,
            IncrementalResultsOutput::Graph(_) => None,
        }
    }

    /// What a drain makes of the state.
    pub open spec fn drained(
        &self,
        before: Self,
        old_storage: Storage,
        storage: Storage,
        alive: bool,
        result: Result<bool, QueryEvaluationError>,
    ) -> bool {
        let driver = self.driver();
        &&& self.wf()
        &&& driver.same_query(before.driver())
        &&& self.emitted_initial() == before.emitted_initial()
        &&& self.output().same_form(before.output())
        &&& if before.done() {
            &&& result == Ok::<bool, QueryEvaluationError>(false)
            &&& self.done()
            &&& driver == before.driver()
            &&& self.output() == before.output()
            &&& storage == old_storage
        } else {
            &&& taken_over(before.driver().sources(), old_storage, storage)
            &&& match result {
                Ok(changed) => {
                    &&& self.done() == !driver.node().live()
                    &&& self.output().became(before.output(), self.last_changes())
                    &&& changed == (self.last_changes().len() > 0)
                    &&& driver.drained(
                        before.driver(),
                        old_storage,
                        storage,
                        alive,
                        self.last_changes(),
                        Some(Ok(driver.node().live())),
                    )
                    &&& before.driver().in_tune(old_storage) && before.faithful(old_storage)
                        ==> self.faithful(storage)
                },
                Err(error) => {
                    &&& !self.done()
                    &&& self.output().became(before.output(), self.last_changes())
                    &&& driver.drained(
                        before.driver(),
                        old_storage,
                        storage,
                        alive,
                        self.last_changes(),
                        Some(Err(error)),
                    )
                },
            }
        }
    }

    /// Takes in the changes that are ready. Tells whether there were some. Those that came
    /// before an error are taken in all the same.
    pub fn drain_ready(&mut self, storage: &mut Storage, token: &CancellationToken) -> (result:
        Result<bool, QueryEvaluationError>)
        requires
            old(self).wf(),
            old(storage).wf(),
        ensures
            final(self).drained(
                *old(self),
                *old(storage),
                *final(storage),
                !token.cancelled,
                result,
            ),
            final(storage).wf(),
    {
        let ghost before = *self;
        let ghost old_storage = *storage;
        if self.done {
            proof {
                before.lemma_idle();
            }
            return Ok(false);
        }
        let alive = token.ensure_alive().is_ok();
        self.driver.refill(storage);
        let mut changes: Vec<Delta<QuerySolution>> = Vec::new();
        let ghost mut ended = false;
        let mut failure: Option<QueryEvaluationError> = None;
        loop
            invariant_except_break
                self.driver.drained(
                    before.driver,
                    old_storage,
                    *storage,
                    alive,
                    changes@,
                    None,
                ),
                failure is None,
                !self.done,
            invariant
                storage.wf(),
                before == *old(self),
                old_storage == *old(storage),
                alive == !token.cancelled,
                self.output == before.output,
                self.emitted_initial == before.emitted_initial,
                self.driver.same_query(before.driver),
                taken_over(before.driver.sources(), old_storage, *storage),
            ensures
                self.done ==> failure is None,
                self.driver.drained(
                    before.driver,
                    old_storage,
                    *storage,
                    alive,
                    changes@,
                    match failure {
                        Some(error) => Some(Err(error)),
                        None => Some(Ok(!self.done)),
                    },
                ),
            decreases self.driver.node().fuel(),
        {
            let ghost last = self.driver;
            let ghost so_far = changes@;
            let state = self.driver.advance(storage, alive);
            proof {
                lemma_shapes(before.driver, last, self.driver);
                self.driver.lemma_drained(
                    last,
                    before.driver,
                    old_storage,
                    *storage,
                    alive,
                    so_far,
                    state,
                );
            }
            match state {
                Ok(IncrementalDriverState::Item(change)) => {
                    changes.push(change);
                },
                Ok(IncrementalDriverState::Pending) => {
                    break;
                },
                Ok(IncrementalDriverState::Done) => {
                    self.done = true;
                    break;
                },
                Err(error) => {
                    failure = Some(error);
                    break;
                },
            }
        }
        let ghost all = changes@;
        let changed = self.output.apply_changes(changes);
        self.last_changes = Ghost(all);
        proof {
            assert(changes_named(all, self.driver.names())) by {
                assert forall|i: int| 0 <= i < all.len() implies (
                #[trigger] all[i]).value_of().names() == self.driver.names() by {
                    let rows = self.driver.last_rows();
                    if failure is Some && rows.len() != all.len() {
                        assert(shown(
                            rows.drop_last()[i],
                            all[i],
                            self.driver.names(),
                            self.driver.lookup(*storage),
                        ));
                    } else {
                        assert(shown(
                            rows[i],
                            all[i],
                            self.driver.names(),
                            self.driver.lookup(*storage),
                        ));
                    }
                }
            }
            assert(before.output.named(self.driver.names()));
        }
        match failure {
            Some(error) => Err(error),
            None => {
                proof {
                    self.lemma_taken(before, old_storage, *storage, alive, all);
                }
                Ok(changed)
            },
        }
    }

    proof fn lemma_idle(&self)
        requires
            self.wf(),
        ensures
            self.driver.same_query(self.driver),
            self.output.same_form(self.output),
    {
        self.driver.lemma_same_query();
    }

    proof fn lemma_taken(
        &self,
        before: Self,
        old_storage: Storage,
        storage: Storage,
        alive: bool,
        changes: Seq<Delta<QuerySolution>>,
    )
        requires
            self.driver.same_query(before.driver),
            taken_over(before.driver.sources(), old_storage, storage),
            self.driver.drained(
                before.driver,
                old_storage,
                storage,
                alive,
                changes,
                Some(Ok(!self.done)),
            ),
            self.output.became(before.output, changes),
        ensures
            before.driver.in_tune(old_storage) && before.faithful(old_storage) ==> self.faithful(
                storage,
            ),
    {
        lemma_drain_follows(
            before.driver,
            self.driver,
            old_storage,
            storage,
            alive,
            changes,
            !self.done,
        );
        if before.driver.in_tune(old_storage) && before.faithful(old_storage) {
            lemma_of(
                before.output,
                self.output,
                before.solutions(old_storage),
                changes,
                self.solutions(storage),
            );
        }
    }

    /// The current results.
    pub fn snapshot(&self) -> (results: IncrementalQueryResults<'_>)
        requires
            self.wf(),
        ensures
            results.shows(self.output()),
    {
        match &self.output {
            IncrementalResultsOutput::Solutions { current, .. } => {
                IncrementalQueryResults::Solutions(IncrementalSelectResults::new(current.iter()))
            },
            IncrementalResultsOutput::Boolean { solution_count } => {
                IncrementalQueryResults::Boolean(solution_count.count() > 0)
            },
            IncrementalResultsOutput::Graph(output) => {
                IncrementalQueryResults::Graph(
                    IncrementalGraphResults { current: output.triples() },
                )
            },
        }
    }
}

impl IncrementalQueryResultsState {
    /// Processes all currently pending dataset changes and returns the current complete
    /// results.
    ///
    /// This is the pull-based counterpart of a regular query execution: calling it again
    /// after the dataset changed returns the updated results. Drop the state if this call
    /// returns an error.
    pub fn results(&mut self, storage: &mut Storage, token: &CancellationToken) -> (results: Result<
        IncrementalQueryResults<'_>,
        QueryEvaluationError,
    >)
        requires
            old(self).wf(),
            old(storage).wf(),
        ensures
            final(storage).wf(),
            match results {
                Ok(results) => {
                    &&& final(self).updated(
                        *old(self),
                        *old(storage),
                        *final(storage),
                        !token.cancelled,
                    )
                    &&& results.shows(final(self).output())
                },
                Err(error) => final(self).drained(
                    *old(self),
                    *old(storage),
                    *final(storage),
                    !token.cancelled,
                    Err(error),
                ),
            },
    {
        match self.drain_ready(storage, token) {
            Ok(_) => Ok(self.snapshot()),
            Err(error) => Err(error),
        }
    }

    /// What comes next of the complete results: the first results at once, and then complete
    /// results whenever changes are ready.
    ///
    /// The generation to wait for a change after is the one before the changes were taken
    /// in, so that no change is missed.
    pub fn next_results_snapshot(&mut self, storage: &mut Storage, token: &CancellationToken) -> (
    step: NextStep)
        requires
            old(self).wf(),
            old(storage).wf(),
            old(self).driver().registered(*old(storage)),
        ensures
            final(storage).wf(),
            final(self).stepped(
                *old(self),
                *old(storage),
                *final(storage),
                !token.cancelled,
                step,
            ),
    {
        let baseline = self.driver.change_generation(storage);
        let ghost before = *self;
        let ghost old_storage = *storage;
        let changed = match self.drain_ready(storage, token) {
            Ok(changed) => changed,
            Err(error) => {
                return NextStep::Failed(error);
            },
        };
        if !self.emitted_initial {
            let ghost drained = *self;
            self.emitted_initial = true;
            assert(self.shown_after(before, old_storage, *storage, !token.cancelled, changed));
            return NextStep::Ready;
        }
        if changed {
            assert(self.shown_after(before, old_storage, *storage, !token.cancelled, changed));
            return NextStep::Ready;
        }
        if self.done {
            return NextStep::Finished;
        }
        NextStep::Wait(baseline)
    }

    /// What a step of the results tells: results are shown if they are the first ones or if
    /// there were changes that were ready.
    pub open spec fn stepped(
        &self,
        before: Self,
        old_storage: Storage,
        storage: Storage,
        alive: bool,
        step: NextStep,
    ) -> bool {
        match step {
            NextStep::Failed(error) => self.drained(
                before,
                old_storage,
                storage,
                alive,
                Err(error),
            ),
            NextStep::Ready => {
                &&& self.emitted_initial()
                &&& if before.emitted_initial() {
                    self.shown_after(before, old_storage, storage, alive, true)
                } else {
                    self.first_shown_after(before, old_storage, storage, alive)
                }
            },
            NextStep::Finished => {
                &&& before.emitted_initial()
                &&& self.done()
                &&& self.drained(before, old_storage, storage, alive, Ok(false))
            },
            NextStep::Wait(baseline) => {
                &&& before.emitted_initial()
                &&& !self.done()
                &&& baseline
                    == old_storage.registry()[before.driver().notifier() as int]->0.changes()
                &&& self.drained(before, old_storage, storage, alive, Ok(false))
            },
        }
    }

    /// Whether a drain, which did not fail, has made this of a state.
    pub open spec fn updated(
        &self,
        before: Self,
        old_storage: Storage,
        storage: Storage,
        alive: bool,
    ) -> bool {
        exists|changed: bool| #[trigger]
            self.drained(before, old_storage, storage, alive, Ok(changed))
    }

    /// What a drain makes of the state, after which the first results are shown.
    pub open spec fn first_shown_after(
        &self,
        before: Self,
        old_storage: Storage,
        storage: Storage,
        alive: bool,
    ) -> bool {
        exists|changed: bool| #[trigger]
            self.shown_after(before, old_storage, storage, alive, changed)
    }

    /// What a drain makes of the state, after which the results are shown.
    pub open spec fn shown_after(
        &self,
        before: Self,
        old_storage: Storage,
        storage: Storage,
        alive: bool,
        changed: bool,
    ) -> bool {
        exists|drained: Self|
            {
                &&& #[trigger] drained.drained(before, old_storage, storage, alive, Ok(changed))
                &&& self.wf()
                &&& self.driver() == drained.driver()
                &&& self.output() == drained.output()
                &&& self.done() == drained.done()
                &&& self.last_changes() == drained.last_changes()
            }
    }
}

impl IncrementalQueryResultsState {
    /// Awaits the next committed change to the underlying dataset.
    ///
    /// Lost-wakeup-safe: the generation is taken before changes are taken in, and the wait
    /// checks it before and after registering the task.
    pub fn wait_for_change(&self, baseline: u64) -> (future: NotifierChangeFuture)
        ensures
            future.baseline == baseline,
            future.cancellation_waker is None,
    {
        self.driver.wait_for_change(baseline)
    }

    /// Polls a wait for a change.
    pub fn poll_change(
        &self,
        storage: &mut Storage,
        future: &mut NotifierChangeFuture,
        token: &mut CancellationToken,
        waker: &Waker,
    ) -> (poll: ChangePoll)
        requires
            old(storage).wf(),
            self.driver().registered(*old(storage)),
        ensures
            final(storage).wf(),
            final(storage).table() == old(storage).table(),
            final(storage).on_disk() == old(storage).on_disk(),
            final(storage).read_only() == old(storage).read_only(),
            final(storage).subscribers() == old(storage).subscribers(),
            only_at(
                old(storage).registry(),
                final(storage).registry(),
                self.driver().notifier(),
            ),
            self.driver().registered(*final(storage)),
            waits(
                *old(future),
                *final(future),
                old(storage).registry()[self.driver().notifier() as int]->0,
                final(storage).registry()[self.driver().notifier() as int]->0,
                *old(token),
                *final(token),
                *waker,
                poll,
            ),
    {
        self.driver.poll_change(storage, future, token, waker)
    }

    /// Ends a wait for a change.
    pub fn close_wait(
        &self,
        storage: &mut Storage,
        future: &mut NotifierChangeFuture,
        token: &mut CancellationToken,
    )
        requires
            old(storage).wf(),
            self.driver().registered(*old(storage)),
        ensures
            final(storage).wf(),
            final(storage).table() == old(storage).table(),
            final(storage).on_disk() == old(storage).on_disk(),
            final(storage).read_only() == old(storage).read_only(),
            final(storage).subscribers() == old(storage).subscribers(),
            only_at(
                old(storage).registry(),
                final(storage).registry(),
                self.driver().notifier(),
            ),
            self.driver().registered(*final(storage)),
            waits_no_more(
                *old(future),
                *final(future),
                old(storage).registry()[self.driver().notifier() as int]->0,
                final(storage).registry()[self.driver().notifier() as int]->0,
                *old(token),
                *final(token),
            ),
    {
        self.driver.close_wait(storage, future, token)
    }

    /// Ends the query.
    pub fn close(self, storage: &mut Storage)
        requires
            old(storage).wf(),
        ensures
            self.driver().ended(*old(storage), *final(storage)),
    {
        self.driver.close(storage);
    }

    /// Iterates over complete result snapshots.
    ///
    /// The first step shows the initial results. Each later step takes in the changes that
    /// are ready: if there are some, it shows the complete results afresh, otherwise it tells
    /// what to wait for. It ends only once the query is exhausted. Drop the iterator and its
    /// state if a step fails.
    pub fn iter_results(&mut self) -> (iter: IncrementalQueryResultsIter<'_>)
        ensures
            *iter.state == *old(self),
            *final(self) == *final(iter.state),
    {
        IncrementalQueryResultsIter { state: self }
    }
}

/// Iterator over complete result snapshots.
pub struct IncrementalQueryResultsIter<'s> {
    pub state: &'s mut IncrementalQueryResultsState,
}

impl<'s> IncrementalQueryResultsIter<'s> {
    /// What comes next of the complete results.
    pub fn next(&mut self, storage: &mut Storage, token: &CancellationToken) -> (step: NextStep)
        requires
            old(self).state.wf(),
            old(storage).wf(),
            old(self).state.driver().registered(*old(storage)),
        ensures
            final(storage).wf(),
            final(self).state.stepped(
                *old(self).state,
                *old(storage),
                *final(storage),
                !token.cancelled,
                step,
            ),
    {
        self.state.next_results_snapshot(storage, token)
    }
}

/// A query that has taken in everything shows the results of exactly the rows that it has
/// over the committed quads.
pub proof fn law_results_are_the_answer(
    state: IncrementalQueryResultsState,
    storage: Storage,
    listing: Seq<EncodedQuad>,
)
    requires
        state.wf(),
        state.faithful(storage),
        state.driver().complete(storage),
        lists_quads(listing, state.driver().subject_matter(storage)),
    ensures
        state.output().of(state.answers(storage, listing)),
        state.output().named(state.driver().names()),
        all_told(
            state.driver().answer(listing),
            state.driver().names().len(),
            state.driver().lookup(storage),
        ),
{
    let solutions = state.solutions(storage);
    let answers = state.answers(storage, listing);
    lemma_answers_are_solutions(state.driver(), storage, listing);
    match state.output() {
        IncrementalResultsOutput::Solutions { current, .. } => {
            lemma_same_bag_transitive(current@, solutions, answers);
        },
        IncrementalResultsOutput::Boolean { .. } => {
            lemma_weight_same_bag(solutions, answers, |values: Values| 0int);
        },
        IncrementalResultsOutput::Graph(output) => {
            lemma_same_bag_transitive(output.solutions(), solutions, answers);
        },
    }
}

/// A call that comes after one that succeeded finds the results as they were where no change
/// waits for the query.
pub proof fn law_results_stay_without_changes(
    first: IncrementalQueryResultsState,
    second: IncrementalQueryResultsState,
    third: IncrementalQueryResultsState,
    first_storage: Storage,
    second_storage: Storage,
    third_storage: Storage,
    last_storage: Storage,
    alive: bool,
    still_alive: bool,
    changed: bool,
    changed_again: bool,
)
    requires
        second.drained(first, first_storage, second_storage, alive, Ok(changed)),
        second.driver().heard_all(third_storage),
        third.drained(second, third_storage, last_storage, still_alive, Ok(changed_again)),
    ensures
        !changed_again,
        third.output().same_results(second.output()),
{
    if !second.done() {
        assert(third.last_changes() =~= Seq::empty());
        assert(change_views(third.last_changes()) =~= Seq::empty());
    }
}

/// The rows that a query holds and has taken in completely have the solutions of the rows
/// that the query has over the committed quads.
pub proof fn lemma_answers_are_solutions(
    driver: IncrementalSelectDriver,
    storage: Storage,
    listing: Seq<EncodedQuad>,
)
    requires
        driver.complete(storage),
        lists_quads(listing, driver.subject_matter(storage)),
        all_told(driver.held(), driver.names().len(), driver.lookup(storage)),
    ensures
        same_bag(solutions_of(driver, storage), answers_of(driver, storage, listing)),
        all_told(driver.answer(listing), driver.names().len(), driver.lookup(storage)),
{
    let f = told_values(driver.names().len(), driver.lookup(storage));
    let held = driver.held();
    let answer = driver.answer(listing);
    assert(same_bag(held, answer));
    lemma_filter_map_same_bag(held, answer, f);
    assert forall|i: int| 0 <= i < answer.len() implies f(#[trigger] answer[i]) is Some by {
        lemma_count(answer, answer[i]);
        lemma_count(held, answer[i]);
        assert(answer.contains(answer[i]));
        assert(count(held, answer[i]) == count(answer, answer[i]));
        let k = choose|k: int| 0 <= k < held.len() && held[k] == answer[i];
        assert(f(held[k]) is Some);
    }
}

/// Whether the strings that were known are known still.
pub open spec fn keeps_strings(before: Storage, after: Storage) -> bool {
    forall|key: StrHash| #[trigger]
        before.table().strings().contains_key(key) ==> after.table().strings().contains_key(key)
            && after.table().strings()[key] == before.table().strings()[key]
}

/// Results stay the results of what the query holds while commits add strings.
pub proof fn law_results_outlive_commits(
    state: IncrementalQueryResultsState,
    before: Storage,
    after: Storage,
)
    requires
        state.faithful(before),
        keeps_strings(before, after),
    ensures
        state.faithful(after),
{
    lemma_solutions_stay(state.driver(), before, after);
}

/// The rows that a query holds keep their solutions while commits add strings.
pub proof fn lemma_solutions_stay(
    driver: IncrementalSelectDriver,
    before: Storage,
    after: Storage,
)
    requires
        all_told(driver.held(), driver.names().len(), driver.lookup(before)),
        keeps_strings(before, after),
    ensures
        solutions_of(driver, after) == solutions_of(driver, before),
        all_told(driver.held(), driver.names().len(), driver.lookup(after)),
{
    let held = driver.held();
    let width = driver.names().len();
    let old_lookup = driver.lookup(before);
    let lookup = driver.lookup(after);
    assert forall|key: StrHash| old_lookup(key) is Some implies #[trigger] lookup(key)
        == old_lookup(key) by {}
    assert forall|i: int| 0 <= i < held.len() implies told_values(width, old_lookup)(
        #[trigger] held[i],
    ) == told_values(width, lookup)(held[i]) by {
        assert(told_values(width, old_lookup)(held[i]) is Some);
        lemma_told_stays(held[i], width, old_lookup, lookup);
    }
    lemma_filter_map_same(held, told_values(width, old_lookup), told_values(width, lookup));
    assert forall|i: int| 0 <= i < held.len() implies told_values(width, lookup)(
        #[trigger] held[i],
    ) is Some by {
        assert(told_values(width, old_lookup)(held[i]) is Some);
    }
}

/// What can be told can be told with more strings.
proof fn lemma_told_stays(
    row: TupleView,
    width: nat,
    old_lookup: spec_fn(StrHash) -> Option<Seq<u8>>,
    lookup: spec_fn(StrHash) -> Option<Seq<u8>>,
)
    requires
        decoded_values(row, width, old_lookup) is Ok,
        forall|key: StrHash| old_lookup(key) is Some ==> #[trigger] lookup(key) == old_lookup(key),
    ensures
        decoded_values(row, width, lookup) == decoded_values(row, width, old_lookup),
    decreases width,
{
    if width > 0 {
        lemma_told_stays(row, (width - 1) as nat, old_lookup, lookup);
    }
}

proof fn lemma_filter_map_same<T, U>(
    items: Seq<T>,
    f: spec_fn(T) -> Option<U>,
    g: spec_fn(T) -> Option<U>,
)
    requires
        forall|i: int| 0 <= i < items.len() ==> f(#[trigger] items[i]) == g(items[i]),
    ensures
        filter_map(items, f) == filter_map(items, g),
    decreases items.len(),
{
    if items.len() > 0 {
        let front = items.drop_last();
        let last = items.len() - 1;
        assert forall|i: int| 0 <= i < front.len() implies f(#[trigger] front[i]) == g(front[i]) by {
            assert(f(items[i]) == g(items[i]));
        }
        lemma_filter_map_same(front, f, g);
        assert(f(items[last]) == g(items[last]));
    }
}

/// Taking over changes does not change which strings are known.
pub proof fn lemma_same_lookup(
    driver: IncrementalSelectDriver,
    old_storage: Storage,
    storage: Storage,
)
    requires
        taken_over(driver.sources(), old_storage, storage),
    ensures
        driver.lookup(storage) == driver.lookup(old_storage),
{
    assert(driver.lookup(storage) =~= driver.lookup(old_storage));
}

pub proof fn lemma_shapes(
    a: IncrementalSelectDriver,
    b: IncrementalSelectDriver,
    c: IncrementalSelectDriver,
)
    requires
        b.same_query(a),
        c.same_query(b),
    ensures
        c.same_query(a),
{
    crate::driver::lemma_shape_transitive(a.node(), b.node(), c.node());
}

/// Results of solutions become the results of the solutions after the changes.
proof fn lemma_of(
    before: IncrementalResultsOutput,
    after: IncrementalResultsOutput,
    solutions: Seq<Values>,
    given: Seq<Delta<QuerySolution>>,
    new_solutions: Seq<Values>,
)
    requires
        before.of(solutions),
        after.became(before, given),
        plays(solutions, change_views(given)),
        same_bag(played(solutions, change_views(given)), new_solutions),
    ensures
        after.of(new_solutions),
{
    let changes = change_views(given);
    match (after, before) {
        (
            IncrementalResultsOutput::Solutions { current, .. },
            IncrementalResultsOutput::Solutions { current: old_current, .. },
        ) => {
            lemma_same_played(old_current@, solutions, changes);
            lemma_same_bag_transitive(current@, played(solutions, changes), new_solutions);
        },
        (
            IncrementalResultsOutput::Boolean { .. },
            IncrementalResultsOutput::Boolean { .. },
        ) => {
            lemma_tallied(solutions, changes);
            lemma_weight_same_bag(
                played(solutions, changes),
                new_solutions,
                |values: Values| 0int,
            );
        },
        (IncrementalResultsOutput::Graph(output), IncrementalResultsOutput::Graph(old_output)) => {
            lemma_same_played(old_output.solutions(), solutions, changes);
            lemma_same_bag_transitive(
                output.solutions(),
                played(old_output.solutions(), changes),
                played(solutions, changes),
            );
            lemma_same_bag_transitive(output.solutions(), played(solutions, changes), new_solutions);
        },
        _ => {},
    }
}

/// Bags of the same solutions stay so under the same changes.
pub proof fn lemma_same_played(a: Seq<Values>, b: Seq<Values>, changes: Seq<Delta<Values>>)
    requires
        same_bag(a, b),
    ensures
        plays(a, changes) <==> plays(b, changes),
        same_bag(played(a, changes), played(b, changes)),
    decreases changes.len(),
{
    if changes.len() > 0 {
        lemma_same_played(a, b, changes.drop_last());
        lemma_same_step(
            played(a, changes.drop_last()),
            played(b, changes.drop_last()),
            changes.last(),
        );
    }
}

/// Results that are shown are those of the solutions that they are kept of: the solutions
/// themselves, each as often as it is one; whether there is any; or the triples that one of
/// them gave, each once.
pub proof fn law_shown_results_are_those_of_the_solutions(
    results: IncrementalQueryResults,
    output: IncrementalResultsOutput,
    solutions: Seq<Values>,
    values: Values,
    triple: TripleView,
)
    requires
        output.wf(),
        output.of(solutions),
        results.shows(output),
    ensures
        match results {
            IncrementalQueryResults::Solutions(results) => output is Solutions && count(
                results.rest(),
                values,
            ) == count(solutions, values),
            IncrementalQueryResults::Boolean(value) => output is Boolean && (value
                <==> solutions.len() != 0),
            IncrementalQueryResults::Graph(results) => output matches IncrementalResultsOutput::Graph(
                kept,
            ) && {
                &&& (exists|k: int|
                    0 <= k < results.rest().len() && (#[trigger] results.rest()[k])@ == triple)
                    <==> (exists|i: int|
                    0 <= i < kept.stored().len() && (
                    #[trigger] kept.stored()[i]).triples.contains(triple))
                &&& forall|j: int, k: int|
                    0 <= j < k < results.rest().len() ==> (#[trigger] results.rest()[j])@ != (
                    #[trigger] results.rest()[k])@
                &&& count(kept.solutions(), values) == count(solutions, values)
            },
        },
{
    match results {
        IncrementalQueryResults::Graph(results) => {
            if let IncrementalResultsOutput::Graph(kept) = output {
                kept.law_graph_is_what_solutions_give(triple);
                assert(kept.graph().contains(triple) <==> occurs(results.rest(), triple));
                if exists|k: int|
                    0 <= k < results.rest().len() && (#[trigger] results.rest()[k])@ == triple {
                    let k = choose|k: int|
                        0 <= k < results.rest().len() && (#[trigger] results.rest()[k])@ == triple;
                    assert(results.rest()[k].model() == triple);
                }
                assert forall|j: int, k: int|
                    0 <= j < k < results.rest().len() implies (#[trigger] results.rest()[j])@ != (
                #[trigger] results.rest()[k])@ by {
                    assert(results.rest()[j].model() != results.rest()[k].model());
                }
            }
        },
        _ => {},
    }
}

/// The solutions of a query are those of its rows, one for one, where every row can be told.
pub proof fn law_every_row_has_its_solution(
    driver: IncrementalSelectDriver,
    storage: Storage,
    listing: Seq<EncodedQuad>,
)
    requires
        all_told(driver.answer(listing), driver.names().len(), driver.lookup(storage)),
    ensures
        answers_of(driver, storage, listing).len() == driver.answer(listing).len(),
        forall|k: int|
            0 <= k < driver.answer(listing).len() ==> decoded_values(
                driver.answer(listing)[k],
                driver.names().len(),
                driver.lookup(storage),
            ) == Ok::<Values, CorruptionError>(#[trigger] answers_of(driver, storage, listing)[k]),
{
    lemma_told_one_for_one(
        driver.answer(listing),
        driver.names().len(),
        driver.lookup(storage),
    );
}

proof fn lemma_told_one_for_one(
    rows: Seq<TupleView>,
    width: nat,
    lookup: spec_fn(StrHash) -> Option<Seq<u8>>,
)
    requires
        all_told(rows, width, lookup),
    ensures
        filter_map(rows, told_values(width, lookup)).len() == rows.len(),
        forall|k: int|
            0 <= k < rows.len() ==> decoded_values(rows[k], width, lookup) == Ok::<
                Values,
                CorruptionError,
            >(#[trigger] filter_map(rows, told_values(width, lookup))[k]),
    decreases rows.len(),
{
    if rows.len() > 0 {
        let front = rows.drop_last();
        assert forall|i: int| 0 <= i < front.len() implies told_values(width, lookup)(
            #[trigger] front[i],
        ) is Some by {
            assert(told_values(width, lookup)(rows[i]) is Some);
        }
        lemma_told_one_for_one(front, width, lookup);
        assert(told_values(width, lookup)(rows[rows.len() - 1]) is Some);
        assert forall|k: int| 0 <= k < rows.len() implies decoded_values(rows[k], width, lookup)
            == Ok::<Values, CorruptionError>(
            #[trigger] filter_map(rows, told_values(width, lookup))[k],
        ) by {
            if k < front.len() {
                assert(filter_map(front, told_values(width, lookup))[k] == filter_map(
                    rows,
                    told_values(width, lookup),
                )[k]);
            }
        }
    }
}

} // verus!
