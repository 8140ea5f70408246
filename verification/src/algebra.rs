//! Queries, and what they mean.

use crate::bag::{concat, filter_map};
use crate::error::{PatternForm, UnsupportedPattern};
use crate::eval_dataset::{asked, graphs_read};
use crate::join::{by_bindings, by_key, joined, Pairing};
use crate::listing::all_picked;
use crate::model::{names, NamedNode, Term, TermView, Variable};
use crate::numeric_encoder::{encoded, term_entries, EncodedQuad, EncodedTerm, StrHash};
use crate::operators::{matched, projection};
use crate::quad_stream::shaped;
use crate::stats::{no_time, NodeLabel, StatsView};
use crate::subscription::{read_pattern, IncrementalQuadPattern};
use crate::tuple::{column_of, combined, selected, with_variable, TupleSelector, TupleView};
use vstd::prelude::*;

verus! {

/// A term or a variable.
pub enum TermPattern {
    Term(Term),
    Variable(Variable),
}

/// A named node or a variable.
pub enum NamedNodePattern {
    NamedNode(NamedNode),
    Variable(Variable),
}

/// How two patterns are joined.
pub enum JoinAlgorithm {
    /// By the hash of key variables. Without any, all rows are compared.
    HashBuildLeftProbeRight { keys: Vec<Variable> },
}

/// A query pattern.
pub enum QueryExpression {
    /// Given rows.
    Values { variables: Vec<Variable>, bindings: Vec<Vec<Option<Term>>> },
    /// The quads of a graph; without a graph name, of the default graph.
    QuadPattern {
        subject: TermPattern,
        predicate: NamedNodePattern,
        object: TermPattern,
        graph_name: Option<NamedNodePattern>,
    },
    Join { left: Box<QueryExpression>, right: Box<QueryExpression>, algorithm: JoinAlgorithm },
    Project { inner: Box<QueryExpression>, variables: Vec<Variable> },
    /// A pattern that cannot be kept up to date from changes.
    Unsupported(UnsupportedPattern),
}

/// The kind of node that a pattern of a form that is not supported would be.
pub open spec fn unsupported_label(form: PatternForm) -> NodeLabel {
    match form {
        PatternForm::Path => NodeLabel::Path,
        PatternForm::Graph => NodeLabel::Graph,
        PatternForm::Minus => NodeLabel::Minus,
        PatternForm::LeftJoin => NodeLabel::LeftJoin,
        PatternForm::Filter => NodeLabel::Filter,
        PatternForm::Union => NodeLabel::Union,
        PatternForm::Extend => NodeLabel::Extend,
        PatternForm::OrderBy => NodeLabel::OrderBy,
        PatternForm::Distinct => NodeLabel::Distinct,
        PatternForm::Reduced => NodeLabel::Reduced,
        PatternForm::Slice => NodeLabel::Slice,
        PatternForm::Group => NodeLabel::Group,
        PatternForm::Service => NodeLabel::Service,
    }
}

impl QueryExpression {
    /// Whether no given row has more values than there are variables.
    pub open spec fn wf(&self) -> bool
        decreases self,
    {
        match self {
            QueryExpression::Values { variables, bindings } => forall|i: int|
                0 <= i < bindings@.len() ==> (#[trigger] bindings@[i])@.len() <= variables@.len(),
            QueryExpression::QuadPattern { .. } => true,
            QueryExpression::Join { left, right, .. } => left.wf() && right.wf(),
            QueryExpression::Project { inner, .. } => inner.wf(),
            QueryExpression::Unsupported(_) => true,
        }
    }

    /// The kind of node of the pattern.
    pub open spec fn label(&self) -> NodeLabel {
        match self {
            QueryExpression::Values { .. } => NodeLabel::Values,
            QueryExpression::QuadPattern { .. } => NodeLabel::QuadPattern,
            QueryExpression::Join { .. } => NodeLabel::Join,
            QueryExpression::Project { .. } => NodeLabel::Project,
            QueryExpression::Unsupported(pattern) => unsupported_label(pattern.form),
        }
    }

    /// The kinds of the nodes of the pattern, before anything is measured.
    pub open spec fn outline(&self, timed: bool) -> StatsView
        decreases self,
    {
        StatsView {
            label: self.label(),
            children: match self {
                QueryExpression::Join { left, right, .. } => seq![
                    left.outline(timed),
                    right.outline(timed),
                ],
                QueryExpression::Project { inner, .. } => seq![inner.outline(timed)],
                _ => Seq::empty(),
            },
            exec_count: 0,
            exec_duration: no_time(timed),
        }
    }

    /// The strings of the terms of the pattern.
    pub open spec fn entries(&self) -> Seq<(StrHash, Seq<u8>)>
        decreases self,
    {
        match self {
            QueryExpression::Values { bindings, .. } => concat(bindings@, row_entries()),
            QueryExpression::QuadPattern { subject, predicate, object, graph_name } => {
                term_pattern_entries(*subject) + node_pattern_entries(*predicate)
                    + term_pattern_entries(*object) + match graph_name {
                    Some(graph_name) => node_pattern_entries(*graph_name),
                    None => Seq::empty(),
                }
            },
            QueryExpression::Join { left, right, .. } => left.entries() + right.entries(),
            QueryExpression::Project { inner, .. } => inner.entries(),
            QueryExpression::Unsupported(_) => Seq::empty(),
        }
    }
}

pub open spec fn value_entries() -> spec_fn(Option<Term>) -> Seq<(StrHash, Seq<u8>)> {
    |value: Option<Term>|
        match value {
            Some(term) => term_entries(term@),
            None => Seq::empty(),
        }
}

pub open spec fn row_entries() -> spec_fn(Vec<Option<Term>>) -> Seq<(StrHash, Seq<u8>)> {
    |row: Vec<Option<Term>>| concat(row@, value_entries())
}

pub open spec fn term_pattern_entries(pattern: TermPattern) -> Seq<(StrHash, Seq<u8>)> {
    match pattern {
        TermPattern::Term(term) => term_entries(term@),
        TermPattern::Variable(_) => Seq::empty(),
    }
}

pub open spec fn node_pattern_entries(pattern: NamedNodePattern) -> Seq<(StrHash, Seq<u8>)> {
    match pattern {
        NamedNodePattern::NamedNode(node) => term_entries(TermView::NamedNode(node@)),
        NamedNodePattern::Variable(_) => Seq::empty(),
    }
}

/// A query whose variables are columns and whose terms are encoded.
pub enum PlanView {
    Values { rows: Seq<TupleView> },
    QuadPattern {
        subject: TupleSelector,
        predicate: TupleSelector,
        object: TupleSelector,
        graph_name: Option<TupleSelector>,
    },
    Join { left: Box<PlanView>, right: Box<PlanView>, keys: Seq<usize> },
    Project { inner: Box<PlanView>, mapping: Seq<(usize, usize)> },
}

impl PlanView {
    /// Whether all rows are given, and none comes from a dataset.
    pub open spec fn given(&self) -> bool
        decreases self,
    {
        match self {
            PlanView::Values { .. } => true,
            PlanView::QuadPattern { .. } => false,
            PlanView::Join { left, right, .. } => left.given() && right.given(),
            PlanView::Project { inner, .. } => inner.given(),
        }
    }
}

/// The variables after a list of variables has been met.
pub open spec fn with_variables(known: Seq<Seq<u8>>, more: Seq<Seq<u8>>) -> Seq<Seq<u8>>
    decreases more.len(),
{
    if more.len() == 0 {
        known
    } else {
        with_variable(with_variables(known, more.drop_last()), more.last())
    }
}

/// The columns of a list of variables.
pub open spec fn columns_of(known: Seq<Seq<u8>>, more: Seq<Seq<u8>>) -> Seq<usize>
    decreases more.len(),
{
    if more.len() == 0 {
        Seq::empty()
    } else {
        columns_of(known, more.drop_last()).push(
            column_of(with_variables(known, more.drop_last()), more.last()) as usize,
        )
    }
}

/// A row of given values, each in the column of its variable.
pub open spec fn given_row(columns: Seq<usize>, values: Seq<Option<Term>>) -> TupleView
    decreases values.len(),
{
    if values.len() == 0 {
        TupleView { values: Seq::empty(), graph_name: None }
    } else {
        let front = given_row(columns, values.drop_last());
        match values.last() {
            Some(term) => front.bind(columns[values.len() - 1] as nat, encoded(term@)),
            None => front,
        }
    }
}

/// The rows of given values.
pub open spec fn given_rows(columns: Seq<usize>, bindings: Seq<Vec<Option<Term>>>) -> Seq<
    TupleView,
> {
    bindings.map_values(|row: Vec<Option<Term>>| given_row(columns, row@))
}

/// What a position of a pattern asks for, and the variables after it.
pub open spec fn term_selector(pattern: TermPattern, known: Seq<Seq<u8>>) -> (
    TupleSelector,
    Seq<Seq<u8>>,
) {
    match pattern {
        TermPattern::Term(term) => (TupleSelector::Constant(encoded(term@)), known),
        TermPattern::Variable(variable) => (
            TupleSelector::Variable(column_of(known, variable@) as usize),
            with_variable(known, variable@),
        ),
    }
}

/// What a position of a pattern asks for, and the variables after it.
pub open spec fn node_selector(pattern: NamedNodePattern, known: Seq<Seq<u8>>) -> (
    TupleSelector,
    Seq<Seq<u8>>,
) {
    match pattern {
        NamedNodePattern::NamedNode(node) => (
            TupleSelector::Constant(encoded(TermView::NamedNode(node@))),
            known,
        ),
        NamedNodePattern::Variable(variable) => (
            TupleSelector::Variable(column_of(known, variable@) as usize),
            with_variable(known, variable@),
        ),
    }
}

/// The columns of an inner query and those of the outer one that have the same variable.
pub open spec fn numbered(columns: Seq<usize>) -> Seq<(usize, usize)> {
    Seq::new(columns.len(), |i: int| (i as usize, columns[i]))
}

/// The plan of a pattern and the variables after it, given the variables before it; or why
/// there is none.
pub open spec fn compiled(expression: QueryExpression, known: Seq<Seq<u8>>) -> Result<
    (PlanView, Seq<Seq<u8>>),
    UnsupportedPattern,
>
    decreases expression,
{
    match expression {
        QueryExpression::Values { variables, bindings } => Ok(
            (
                PlanView::Values {
                    rows: given_rows(columns_of(known, names(variables@)), bindings@),
                },
                with_variables(known, names(variables@)),
            ),
        ),
        QueryExpression::QuadPattern { subject, predicate, object, graph_name } => {
            let (subject, known) = term_selector(subject, known);
            let (predicate, known) = node_selector(predicate, known);
            let (object, known) = term_selector(object, known);
            match graph_name {
                Some(graph_name) => {
                    let (graph_name, known) = node_selector(graph_name, known);
                    Ok(
                        (
                            PlanView::QuadPattern {
                                subject,
                                predicate,
                                object,
                                graph_name: Some(graph_name),
                            },
                            known,
                        ),
                    )
                },
                None => Ok(
                    (PlanView::QuadPattern { subject, predicate, object, graph_name: None }, known),
                ),
            }
        },
        QueryExpression::Join { left, right, algorithm } => match compiled(*left, known) {
            Err(error) => Err(error),
            Ok((left, known)) => match compiled(*right, known) {
                Err(error) => Err(error),
                Ok((right, known)) => {
                    let JoinAlgorithm::HashBuildLeftProbeRight { keys } = algorithm;
                    Ok(
                        (
                            PlanView::Join {
                                left: Box::new(left),
                                right: Box::new(right),
                                keys: columns_of(known, names(keys@)),
                            },
                            with_variables(known, names(keys@)),
                        ),
                    )
                },
            },
        },
        QueryExpression::Project { inner, variables } => match compiled(
            *inner,
            names(variables@),
        ) {
            Err(error) => Err(error),
            Ok((inner, _)) => Ok(
                (
                    PlanView::Project {
                        inner: Box::new(inner),
                        mapping: numbered(columns_of(known, names(variables@))),
                    },
                    with_variables(known, names(variables@)),
                ),
            ),
        },
        QueryExpression::Unsupported(pattern) => Err(pattern),
    }
}

/// The graph that a pattern asks for in the context of a row.
pub open spec fn graph_of(selector: Option<TupleSelector>, from: TupleView) -> Option<
    Option<EncodedTerm>,
> {
    match selector {
        Some(selector) => match selected(selector, from) {
            Some(name) => Some(Some(name)),
            None => None,
        },
        None => Some(from.graph_name),
    }
}

/// How the rows of two plans are joined.
pub open spec fn pairing_of(keys: Seq<usize>) -> Pairing {
    if keys.len() == 0 {
        by_bindings()
    } else {
        by_key(keys)
    }
}

/// The row in whose context an inner query is evaluated.
pub open spec fn inner_row(from: TupleView, mapping: Seq<(usize, usize)>) -> TupleView
    decreases mapping.len(),
{
    if mapping.len() == 0 {
        TupleView { values: Seq::empty(), graph_name: from.graph_name }
    } else {
        let front = inner_row(from, mapping.drop_last());
        match from.column(mapping.last().1 as int) {
            Some(value) => front.bind(mapping.last().0 as nat, value),
            None => front,
        }
    }
}

impl PlanView {
    /// What a plan asks of a store in the context of a row.
    pub open spec fn asks(
        self,
        from: TupleView,
        default_graphs: Option<Seq<Option<EncodedTerm>>>,
        named_graphs: Option<Seq<EncodedTerm>>,
    ) -> Seq<IncrementalQuadPattern>
        decreases self,
    {
        match self {
            PlanView::Values { .. } => Seq::empty(),
            PlanView::QuadPattern { subject, predicate, object, graph_name } => asked(
                selected(subject, from),
                selected(predicate, from),
                selected(object, from),
                graphs_read(default_graphs, named_graphs, graph_of(graph_name, from)).0,
            ),
            PlanView::Join { left, right, .. } => left.asks(from, default_graphs, named_graphs)
                + right.asks(from, default_graphs, named_graphs),
            PlanView::Project { inner, mapping } => inner.asks(
                inner_row(from, mapping),
                default_graphs,
                named_graphs,
            ),
        }
    }

    /// The rows that a plan has in the context of a row, over a list of quads.
    pub open spec fn answer(
        self,
        from: TupleView,
        default_graphs: Option<Seq<Option<EncodedTerm>>>,
        named_graphs: Option<Seq<EncodedTerm>>,
        listing: Seq<EncodedQuad>,
    ) -> Seq<TupleView>
        decreases self,
    {
        match self {
            PlanView::Values { rows } => filter_map(
                rows,
                |row: TupleView| combined(from, row),
            ),
            PlanView::QuadPattern { subject, predicate, object, graph_name } => {
                let (graphs, shape) = graphs_read(
                    default_graphs,
                    named_graphs,
                    graph_of(graph_name, from),
                );
                let patterns = asked(
                    selected(subject, from),
                    selected(predicate, from),
                    selected(object, from),
                    graphs,
                ).map_values(|ask: IncrementalQuadPattern| read_pattern(ask));
                filter_map(
                    shaped(shape, all_picked(listing, patterns)),
                    matched(from, subject, predicate, object, graph_name),
                )
            },
            PlanView::Join { left, right, keys } => joined(
                left.answer(from, default_graphs, named_graphs, listing),
                right.answer(from, default_graphs, named_graphs, listing),
                pairing_of(keys),
            ),
            PlanView::Project { inner, mapping } => filter_map(
                inner.answer(inner_row(from, mapping), default_graphs, named_graphs, listing),
                projection(from, mapping),
            ),
        }
    }
}

/// Whether no column of a row has the default graph for its value.
pub open spec fn proper(row: TupleView) -> bool {
    forall|i: int| (#[trigger] row.column(i)) != Some(EncodedTerm::DefaultGraph)
}

/// An inner query is evaluated in the context of a proper row, if the outer one is.
pub proof fn lemma_inner_row_proper(from: TupleView, mapping: Seq<(usize, usize)>)
    requires
        proper(from),
    ensures
        proper(inner_row(from, mapping)),
    decreases mapping.len(),
{
    if mapping.len() > 0 {
        lemma_inner_row_proper(from, mapping.drop_last());
        let front = inner_row(from, mapping.drop_last());
        if let Some(value) = from.column(mapping.last().1 as int) {
            lemma_bind_proper(front, mapping.last().0 as nat, value);
        }
    }
}

/// A proper row stays so with one more value.
pub proof fn lemma_bind_proper(row: TupleView, index: nat, value: EncodedTerm)
    requires
        proper(row),
        value != EncodedTerm::DefaultGraph,
    ensures
        proper(row.bind(index, value)),
{
    assert forall|i: int| (#[trigger] row.bind(index, value).column(i)) != Some(
        EncodedTerm::DefaultGraph,
    ) by {
        assert(row.column(i) != Some(EncodedTerm::DefaultGraph));
    }
}

} // verus!
