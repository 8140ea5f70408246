//! Compiling and starting queries that are kept up to date.

use crate::algebra::{
    columns_of, compiled, given_row, given_rows, node_pattern_entries, node_selector, numbered,
    row_entries, term_pattern_entries, term_selector, value_entries, with_variables, JoinAlgorithm,
    NamedNodePattern, QueryExpression, TermPattern,
};
use crate::bag::concat;
use crate::dataset::{brought, DatasetView};
use crate::error::{PatternForm, QueryEvaluationError, UnsupportedPattern};
use crate::eval_dataset::{EvalDataset, QueryDatasetSpecification};
use crate::model::{names, Term, Variable};
use crate::numeric_encoder::{encoded, term_entries, EncodedTerm, StrHash};
use crate::plan::Plan;
use crate::stats::{views, EvalNodeWithStats, NodeLabel};
use crate::tally::Tally;
use crate::tuple::{encode_variable, rows, InternalTuple, TupleSelector};
use vstd::prelude::*;

verus! {

/// The columns of a list of variables; new variables get the next free columns.
pub fn encode_variables(known: &mut Vec<Variable>, variables: &Vec<Variable>) -> (columns: Vec<
    usize,
>)
    ensures
        names(final(known)@) == with_variables(names(old(known)@), names(variables@)),
        columns@ == columns_of(names(old(known)@), names(variables@)),
        columns@.len() == variables@.len(),
        forall|i: int| 0 <= i < columns@.len() ==> (#[trigger] columns@[i]) < usize::MAX,
{
    let ghost first = names(known@);
    let ghost more = names(variables@);
    let mut columns: Vec<usize> = Vec::new();
    let mut next: usize = 0;
    assert(more.take(0) =~= Seq::empty());
    while next < variables.len()
        invariant
            first == names(old(known)@),
            more == names(variables@),
            next <= variables@.len(),
            names(known@) == with_variables(first, more.take(next as int)),
            columns@ == columns_of(first, more.take(next as int)),
            columns@.len() == next,
            forall|i: int| 0 <= i < columns@.len() ==> (#[trigger] columns@[i]) < usize::MAX,
        decreases variables@.len() - next,
    {
        let column = encode_variable(known, &variables[next]);
        columns.push(column);
        proof {
            assert(more.take(next + 1).drop_last() =~= more.take(next as int));
            assert(more.take(next + 1).last() == variables@[next as int]@);
        }
        next = next + 1;
    }
    assert(more.take(next as int) =~= more);
    columns
}

impl TupleSelector {
    /// What a position of a pattern asks for.
    pub fn from_term_pattern(
        pattern: &TermPattern,
        variables: &mut Vec<Variable>,
        dataset: &mut EvalDataset,
    ) -> (selector: Result<TupleSelector, QueryEvaluationError>)
        requires
            old(dataset).wf(),
        ensures
            final(dataset).grown(*old(dataset), term_pattern_entries(*pattern)),
            match selector {
                Ok(selector) => selector.in_range() && (selector, names(final(variables)@))
                    == term_selector(*pattern, names(old(variables)@)),
                Err(_) => false,
            },
    {
        match pattern {
            TermPattern::Term(term) => match dataset.internalize_term(term.duplicate()) {
                Ok(term) => Ok(TupleSelector::Constant(term)),
                Err(error) => Err(error),
            },
            TermPattern::Variable(variable) => {
                let column = encode_variable(variables, variable);
                Ok(TupleSelector::Variable(column))
            },
        }
    }

    /// What a position of a pattern asks for.
    pub fn from_named_node_pattern(
        pattern: &NamedNodePattern,
        variables: &mut Vec<Variable>,
        dataset: &mut EvalDataset,
    ) -> (selector: Result<TupleSelector, QueryEvaluationError>)
        requires
            old(dataset).wf(),
        ensures
            final(dataset).grown(*old(dataset), node_pattern_entries(*pattern)),
            match selector {
                Ok(selector) => selector.in_range() && (selector, names(final(variables)@))
                    == node_selector(*pattern, names(old(variables)@)),
                Err(_) => false,
            },
    {
        match pattern {
            NamedNodePattern::NamedNode(node) => match dataset.internalize_term(
                Term::NamedNode(node.duplicate()),
            ) {
                Ok(term) => Ok(TupleSelector::Constant(term)),
                Err(error) => Err(error),
            },
            NamedNodePattern::Variable(variable) => {
                let column = encode_variable(variables, variable);
                Ok(TupleSelector::Variable(column))
            },
        }
    }
}

/// The kind of node of a pattern.
pub fn eval_node_label(pattern: &QueryExpression) -> (label: NodeLabel)
    ensures
        label == pattern.label(),
{
    match pattern {
        QueryExpression::Values { .. } => NodeLabel::Values,
        QueryExpression::QuadPattern { .. } => NodeLabel::QuadPattern,
        QueryExpression::Join { .. } => NodeLabel::Join,
        QueryExpression::Project { .. } => NodeLabel::Project,
        QueryExpression::Unsupported(pattern) => match pattern.form {
            PatternForm::Path => NodeLabel::Path,
            PatternForm::Graph => NodeLabel::Graph,
            PatternForm::Minus => NodeLabel::Minus,
            PatternForm::LeftJoin => NodeLabel::LeftJoin,
            PatternForm::Filter => NodeLabel::Filter,
            PatternForm::Union => NodeLabel::Union,
            PatternForm::Extend => NodeLabel::Extend,
            PatternForm::OrderBy => NodeLabel::OrderBy,
            PatternForm::Distinct => NodeLabel::Distinct,
            PatternForm::Reduced => NodeLabel::Reduced,
            PatternForm::Slice => NodeLabel::Slice,
            PatternForm::Group => NodeLabel::Group,
            PatternForm::Service => NodeLabel::Service,
        },
    }
}

/// The error for a pattern that cannot be kept up to date from changes.
pub fn unsupported_incremental_pattern(pattern: &UnsupportedPattern) -> (error:
    QueryEvaluationError)
    ensures
        error == QueryEvaluationError::Unsupported(*pattern),
{
    QueryEvaluationError::Unsupported(pattern.duplicate())
}

/// Evaluates queries so that their results are kept up to date from changes.
pub struct SimpleIncrementalEvaluator {
    dataset: EvalDataset,
    run_stats: bool,
}

impl SimpleIncrementalEvaluator {
    pub closed spec fn wf(&self) -> bool {
        self.dataset.wf()
    }

    pub closed spec fn dataset(&self) -> EvalDataset {
        self.dataset
    }

    /// Whether time is measured.
    pub closed spec fn timed(&self) -> bool {
        self.run_stats
    }

    pub fn new(
        dataset: DatasetView,
        dataset_spec: QueryDatasetSpecification,
        run_stats: bool,
    ) -> (evaluator: Result<Self, QueryEvaluationError>)
        requires
            dataset.wf(),
        ensures
            match evaluator {
                Ok(evaluator) => {
                    &&& evaluator.wf()
                    &&& evaluator.timed() == run_stats
                    &&& evaluator.dataset().dataset().reader() == dataset.reader()
                    &&& evaluator.dataset().dataset().extra() == brought(
                        dataset.extra(),
                        dataset.reader().table().strings(),
                        dataset_spec.entries(),
                    )
                    &&& evaluator.dataset().default_graphs() == dataset_spec.default_graphs()
                    &&& evaluator.dataset().named_graphs() == dataset_spec.named_graphs()
                },
                Err(_) => false,
            },
    {
        match EvalDataset::new(dataset, dataset_spec) {
            Ok(dataset) => Ok(SimpleIncrementalEvaluator { dataset, run_stats }),
            Err(error) => Err(error),
        }
    }

    /// A copy of the evaluator.
    pub fn duplicate(&self) -> (copy: Self)
        requires
            self.wf(),
        ensures
            copy.wf(),
            copy.timed() == self.timed(),
            copy.dataset().like(self.dataset()),
            copy.dataset().dataset().extra() == self.dataset().dataset().extra(),
    {
        SimpleIncrementalEvaluator {
            dataset: self.dataset.duplicate(),
            run_stats: self.run_stats,
        }
    }

    /// The dataset alone.
    pub(crate) fn into_dataset(self) -> (dataset: EvalDataset)
        requires
            self.wf(),
        ensures
            dataset.wf(),
            dataset == self.dataset(),
    {
        self.dataset
    }

    /// The plan of a pattern, or why there is none, and the nodes of the pattern.
    pub fn graph_pattern_evaluator(
        &mut self,
        pattern: &QueryExpression,
        encoded_variables: &mut Vec<Variable>,
    ) -> (result: (Result<Plan, QueryEvaluationError>, EvalNodeWithStats))
        requires
            old(self).wf(),
            pattern.wf(),
        ensures
            final(self).wf(),
            final(self).timed() == old(self).timed(),
            final(self).dataset().like(old(self).dataset()),
            result.1@ == pattern.outline(old(self).timed()),
            match result.0 {
                Ok(plan) => {
                    &&& plan.wf()
                    &&& compiled(*pattern, names(old(encoded_variables)@)) == Ok::<
                        _,
                        UnsupportedPattern,
                    >((plan@, names(final(encoded_variables)@)))
                    &&& plan.outline() == seq![pattern.outline(old(self).timed())]
                    &&& final(self).dataset().grown(old(self).dataset(), pattern.entries())
                },
                Err(error) => compiled(*pattern, names(old(encoded_variables)@)) matches Err(
                    unsupported,
                ) && error == QueryEvaluationError::Unsupported(unsupported),
            },
        decreases pattern, 1nat,
    {
        let mut stat_children: Vec<EvalNodeWithStats> = Vec::new();
        let evaluator = self.build_graph_pattern_evaluator(
            pattern,
            encoded_variables,
            &mut stat_children,
        );
        let label = eval_node_label(pattern);
        let stats = EvalNodeWithStats {
            label,
            children: stat_children,
            exec_count: Tally::new(),
            exec_duration: if self.run_stats {
                Some(0)
            } else {
                None
            },
        };
        proof {
            assert(stats@.children =~= views(stat_children@));
        }
        match evaluator {
            Ok(plan) => (
                Ok(Plan::Stats { inner: Box::new(plan), label, run_stats: self.run_stats }),
                stats,
            ),
            Err(error) => (Err(error), stats),
        }
    }

    /// The plan of a pattern, or why there is none. The nodes of its parts are added to
    /// `stat_children`.
    fn build_graph_pattern_evaluator(
        &mut self,
        pattern: &QueryExpression,
        encoded_variables: &mut Vec<Variable>,
        stat_children: &mut Vec<EvalNodeWithStats>,
    ) -> (result: Result<Plan, QueryEvaluationError>)
        requires
            old(self).wf(),
            pattern.wf(),
            old(stat_children)@.len() == 0,
        ensures
            final(self).wf(),
            final(self).timed() == old(self).timed(),
            final(self).dataset().like(old(self).dataset()),
            views(final(stat_children)@) == pattern.outline(old(self).timed()).children,
            match result {
                Ok(plan) => {
                    &&& plan.wf()
                    &&& compiled(*pattern, names(old(encoded_variables)@)) == Ok::<
                        _,
                        UnsupportedPattern,
                    >((plan@, names(final(encoded_variables)@)))
                    &&& plan.outline() == pattern.outline(old(self).timed()).children
                    &&& final(self).dataset().grown(old(self).dataset(), pattern.entries())
                },
                Err(error) => compiled(*pattern, names(old(encoded_variables)@)) matches Err(
                    unsupported,
                ) && error == QueryEvaluationError::Unsupported(unsupported),
            },
        decreases pattern, 0nat,
    {
        let ghost before = *self;
        let ghost known = names(encoded_variables@);
        proof {
            assert(views(stat_children@) =~= Seq::empty());
        }
        match pattern {
            QueryExpression::Values { variables, bindings } => {
                let encoding = encode_variables(encoded_variables, variables);
                match self.encode_rows(&encoding, bindings) {
                    Ok(tuples) => Ok(Plan::Values { tuples }),
                    Err(error) => Err(error),
                }
            },
            QueryExpression::QuadPattern { subject, predicate, object, graph_name } => {
                let subject_selector = match TupleSelector::from_term_pattern(
                    subject,
                    encoded_variables,
                    &mut self.dataset,
                ) {
                    Ok(selector) => selector,
                    Err(error) => {
                        return Err(error);
                    },
                };
                let ghost second = self.dataset;
                let predicate_selector = match TupleSelector::from_named_node_pattern(
                    predicate,
                    encoded_variables,
                    &mut self.dataset,
                ) {
                    Ok(selector) => selector,
                    Err(error) => {
                        return Err(error);
                    },
                };
                let ghost third = self.dataset;
                let object_selector = match TupleSelector::from_term_pattern(
                    object,
                    encoded_variables,
                    &mut self.dataset,
                ) {
                    Ok(selector) => selector,
                    Err(error) => {
                        return Err(error);
                    },
                };
                let ghost fourth = self.dataset;
                let ghost subject_entries = term_pattern_entries(*subject);
                let ghost predicate_entries = node_pattern_entries(*predicate);
                let ghost object_entries = term_pattern_entries(*object);
                proof {
                    EvalDataset::lemma_grown_add(
                        before.dataset,
                        second,
                        third,
                        subject_entries,
                        predicate_entries,
                    );
                    EvalDataset::lemma_grown_add(
                        before.dataset,
                        third,
                        fourth,
                        subject_entries + predicate_entries,
                        object_entries,
                    );
                }
                let graph_name_selector = match graph_name {
                    Some(graph_name) => match TupleSelector::from_named_node_pattern(
                        graph_name,
                        encoded_variables,
                        &mut self.dataset,
                    ) {
                        Ok(selector) => {
                            proof {
                                EvalDataset::lemma_grown_add(
                                    before.dataset,
                                    fourth,
                                    self.dataset,
                                    subject_entries + predicate_entries + object_entries,
                                    node_pattern_entries(*graph_name),
                                );
                            }
                            Some(selector)
                        },
                        Err(error) => {
                            return Err(error);
                        },
                    },
                    None => {
                        assert(subject_entries + predicate_entries + object_entries + Seq::<
                            (StrHash, Seq<u8>),
                        >::empty() =~= subject_entries + predicate_entries + object_entries);
                        None
                    },
                };
                Ok(
                    Plan::QuadPattern {
                        subject: subject_selector,
                        predicate: predicate_selector,
                        object: object_selector,
                        graph_name: graph_name_selector,
                    },
                )
            },
            QueryExpression::Join { left, right, algorithm } => {
                let (left_plan, left_stats) = self.graph_pattern_evaluator(
                    left,
                    encoded_variables,
                );
                let ghost middle = *self;
                let ghost middle_known = names(encoded_variables@);
                let ghost left_view = left_stats@;
                stat_children.push(left_stats);
                let (right_plan, right_stats) = self.graph_pattern_evaluator(
                    right,
                    encoded_variables,
                );
                let ghost right_view = right_stats@;
                stat_children.push(right_stats);
                proof {
                    assert(views(stat_children@) =~= seq![left_view, right_view]);
                }
                let left_plan = match left_plan {
                    Ok(plan) => plan,
                    Err(error) => {
                        return Err(error);
                    },
                };
                let right_plan = match right_plan {
                    Ok(plan) => plan,
                    Err(error) => {
                        return Err(error);
                    },
                };
                proof {
                    EvalDataset::lemma_grown_add(
                        before.dataset,
                        middle.dataset,
                        self.dataset,
                        left.entries(),
                        right.entries(),
                    );
                    assert(left_plan.outline() + right_plan.outline() =~= seq![
                        left_view,
                        right_view,
                    ]);
                }
                let keys = match algorithm {
                    JoinAlgorithm::HashBuildLeftProbeRight { keys } => encode_variables(
                        encoded_variables,
                        keys,
                    ),
                };
                Ok(
                    Plan::Join {
                        left: Box::new(left_plan),
                        right: Box::new(right_plan),
                        keys,
                    },
                )
            },
            QueryExpression::Project { inner, variables } => {
                let mut inner_encoded_variables = crate::model::duplicate_variables(variables);
                let (child, child_stats) = self.graph_pattern_evaluator(
                    inner,
                    &mut inner_encoded_variables,
                );
                let ghost child_view = child_stats@;
                stat_children.push(child_stats);
                proof {
                    assert(views(stat_children@) =~= seq![child_view]);
                }
                let child = match child {
                    Ok(plan) => plan,
                    Err(error) => {
                        return Err(error);
                    },
                };
                let columns = encode_variables(encoded_variables, variables);
                let mapping = number_columns(&columns);
                Ok(Plan::Project { inner: Box::new(child), mapping })
            },
            QueryExpression::Unsupported(unsupported) => Err(
                unsupported_incremental_pattern(unsupported),
            ),
        }
    }

    /// Encodes given rows.
    fn encode_rows(&mut self, encoding: &Vec<usize>, bindings: &Vec<Vec<Option<Term>>>) -> (result:
        Result<Vec<InternalTuple>, QueryEvaluationError>)
        requires
            old(self).wf(),
            forall|i: int|
                0 <= i < bindings@.len() ==> (#[trigger] bindings@[i])@.len() <= encoding@.len(),
            forall|i: int| 0 <= i < encoding@.len() ==> (#[trigger] encoding@[i]) < usize::MAX,
        ensures
            final(self).wf(),
            final(self).timed() == old(self).timed(),
            final(self).dataset().grown(old(self).dataset(), concat(bindings@, row_entries())),
            match result {
                Ok(tuples) => rows(tuples@) == given_rows(encoding@, bindings@),
                Err(_) => false,
            },
    {
        let ghost before = *self;
        let mut tuples: Vec<InternalTuple> = Vec::new();
        let mut next: usize = 0;
        proof {
            assert(bindings@.take(0) =~= Seq::empty());
            assert(concat(bindings@.take(0), row_entries()) =~= Seq::empty());
        }
        while next < bindings.len()
            invariant
                self.wf(),
                self.run_stats == before.run_stats,
                before == *old(self),
                next <= bindings@.len(),
                forall|i: int|
                    0 <= i < bindings@.len() ==> (#[trigger] bindings@[i])@.len()
                        <= encoding@.len(),
                forall|i: int| 0 <= i < encoding@.len() ==> (#[trigger] encoding@[i]) < usize::MAX,
                self.dataset.grown(
                    before.dataset,
                    concat(bindings@.take(next as int), row_entries()),
                ),
                rows(tuples@) == given_rows(encoding@, bindings@.take(next as int)),
            decreases bindings@.len() - next,
        {
            let ghost middle = *self;
            let ghost so_far = rows(tuples@);
            assert(bindings@[next as int]@.len() <= encoding@.len());
            let tuple = match self.encode_row(encoding, &bindings[next]) {
                Ok(tuple) => tuple,
                Err(error) => {
                    return Err(error);
                },
            };
            proof {
                EvalDataset::lemma_grown_add(
                    before.dataset,
                    middle.dataset,
                    self.dataset,
                    concat(bindings@.take(next as int), row_entries()),
                    row_entries()(bindings@[next as int]),
                );
                assert(bindings@.take(next + 1).drop_last() =~= bindings@.take(next as int));
            }
            tuples.push(tuple);
            proof {
                assert(rows(tuples@) =~= so_far.push(tuple@));
                assert(given_rows(encoding@, bindings@.take(next + 1)) =~= so_far.push(
                    given_row(encoding@, bindings@[next as int]@),
                ));
            }
            next = next + 1;
        }
        assert(bindings@.take(next as int) =~= bindings@);
        Ok(tuples)
    }

    /// Encodes a given row.
    fn encode_row(&mut self, encoding: &Vec<usize>, row: &Vec<Option<Term>>) -> (result: Result<
        InternalTuple,
        QueryEvaluationError,
    >)
        requires
            old(self).wf(),
            row@.len() <= encoding@.len(),
            forall|i: int| 0 <= i < encoding@.len() ==> (#[trigger] encoding@[i]) < usize::MAX,
        ensures
            final(self).wf(),
            final(self).timed() == old(self).timed(),
            final(self).dataset().grown(old(self).dataset(), row_entries()(*row)),
            match result {
                Ok(tuple) => tuple@ == given_row(encoding@, row@),
                Err(_) => false,
            },
    {
        let ghost before = *self;
        let mut tuple = InternalTuple::new();
        let mut key: usize = 0;
        proof {
            assert(row@.take(0) =~= Seq::empty());
            assert(concat(row@.take(0), value_entries()) =~= Seq::empty());
        }
        while key < row.len()
            invariant
                self.wf(),
                self.run_stats == before.run_stats,
                before == *old(self),
                key <= row@.len() <= encoding@.len(),
                forall|i: int| 0 <= i < encoding@.len() ==> (#[trigger] encoding@[i]) < usize::MAX,
                self.dataset.grown(
                    before.dataset,
                    concat(row@.take(key as int), value_entries()),
                ),
                tuple@ == given_row(encoding@, row@.take(key as int)),
            decreases row@.len() - key,
        {
            let ghost middle = *self;
            let ghost list = concat(row@.take(key as int), value_entries());
            assert(row@.take(key + 1).drop_last() =~= row@.take(key as int));
            assert(row@.take(key + 1).last() == row@[key as int]);
            if let Some(term) = &row[key] {
                let encoded_term = match self.encode_term(term) {
                    Ok(term) => term,
                    Err(error) => {
                        return Err(error);
                    },
                };
                proof {
                    EvalDataset::lemma_grown_add(
                        before.dataset,
                        middle.dataset,
                        self.dataset,
                        list,
                        term_entries(term@),
                    );
                    assert(encoding@[key as int] < usize::MAX);
                }
                tuple.set(encoding[key], encoded_term);
            } else {
                assert(list + Seq::<(StrHash, Seq<u8>)>::empty() =~= list);
            }
            key = key + 1;
        }
        assert(row@.take(key as int) =~= row@);
        Ok(tuple)
    }

    fn encode_term(&mut self, term: &Term) -> (result: Result<EncodedTerm, QueryEvaluationError>)
        requires
            old(self).wf(),
        ensures
            final(self).wf(),
            final(self).timed() == old(self).timed(),
            final(self).dataset().grown(old(self).dataset(), term_entries(term@)),
            result == Ok::<EncodedTerm, QueryEvaluationError>(encoded(term@)),
    {
        self.dataset.internalize_term(term.duplicate())
    }
}

/// Columns with their numbers.
fn number_columns(columns: &Vec<usize>) -> (mapping: Vec<(usize, usize)>)
    requires
        forall|i: int| 0 <= i < columns@.len() ==> (#[trigger] columns@[i]) < usize::MAX,
    ensures
        mapping@ == numbered(columns@),
        forall|i: int|
            0 <= i < mapping@.len() ==> (#[trigger] mapping@[i]).0 < usize::MAX && mapping@[i].1
                < usize::MAX,
{
    let mut mapping: Vec<(usize, usize)> = Vec::new();
    let mut next: usize = 0;
    while next < columns.len()
        invariant
            next <= columns@.len(),
            forall|i: int| 0 <= i < columns@.len() ==> (#[trigger] columns@[i]) < usize::MAX,
            mapping@.len() == next,
            forall|i: int| 0 <= i < next ==> (#[trigger] mapping@[i]) == (i as usize, columns@[i]),
        decreases columns@.len() - next,
    {
        mapping.push((next, columns[next]));
        next = next + 1;
    }
    proof {
        assert(mapping@ =~= numbered(columns@));
        assert forall|i: int| 0 <= i < mapping@.len() implies (#[trigger] mapping@[i]).0
            < usize::MAX && mapping@[i].1 < usize::MAX by {
            assert(columns@[i] < usize::MAX);
        }
    }
    mapping
}

} // verus!
