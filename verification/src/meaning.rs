//! What holds of the plans of queries, and of the rows that plans have.

use crate::algebra::{
    columns_of, compiled, given_row, inner_row, node_pattern_entries, pairing_of, row_entries,
    term_pattern_entries, unsupported_label, value_entries, with_variables, JoinAlgorithm,
    NamedNodePattern, PlanView, QueryExpression, TermPattern,
};
use crate::bag::{concat, filter_map, lemma_filter_map_contains, lemma_filter_map_push};
use crate::error::{PatternForm, UnsupportedPattern};
use crate::join::{
    by_bindings, by_key, joined, law_every_pair_that_agrees_is_joined,
    law_every_pair_with_the_same_key_is_joined, law_joined_rows_come_from_pairs,
    law_rows_joined_by_key_come_from_pairs,
};
use crate::model::{names, Term, TermView, Variable};
use crate::numeric_encoder::{encoded, term_entries, EncodedQuad, EncodedTerm, StrHash};
use crate::operators::{law_rows_are_projected_column_by_column, projected, projection};
use crate::tuple::{
    agree, combined, law_binding_changes_one_column, law_combined_bindings,
    law_rows_combine_where_they_agree, law_variables_have_their_columns, row_key, with_variable,
    TupleSelector, TupleView,
};
use crate::listing::{all_picked, if_selected, picked};
use crate::subscription::{read_pattern, watches, IncrementalQuadPattern};
use crate::table::{selects, QuadPattern};
use vstd::prelude::*;

verus! {

/// Every variable of a list has a column, whose number is the place of the name among all
/// variables. The variables that were there before keep their columns, no variable gets two,
/// and no other name is added.
pub proof fn law_every_variable_has_a_column(known: Seq<Seq<u8>>, more: Seq<Seq<u8>>)
    ensures
        known.len() <= with_variables(known, more).len() <= known.len() + more.len(),
        forall|i: int|
            0 <= i < known.len() ==> (#[trigger] with_variables(known, more)[i]) == known[i],
        known.no_duplicates() ==> with_variables(known, more).no_duplicates(),
        columns_of(known, more).len() == more.len(),
        with_variables(known, more).len() <= usize::MAX ==> forall|i: int|
            0 <= i < more.len() ==> (#[trigger] columns_of(known, more)[i]) < with_variables(
                known,
                more,
            ).len() && with_variables(known, more)[columns_of(known, more)[i] as int] == more[i],
        forall|i: int|
            0 <= i < with_variables(known, more).len() ==> known.contains(
                #[trigger] with_variables(known, more)[i],
            ) || more.contains(with_variables(known, more)[i]),
    decreases more.len(),
{
    if more.len() == 0 {
        assert forall|i: int| 0 <= i < with_variables(known, more).len() implies known.contains(
            #[trigger] with_variables(known, more)[i],
        ) by {
            assert(known[i] == with_variables(known, more)[i]);
        }
    } else {
        let front = more.drop_last();
        law_every_variable_has_a_column(known, front);
        let before = with_variables(known, front);
        let after = with_variables(known, more);
        law_variables_have_their_columns(before, more.last());
        assert forall|i: int| 0 <= i < known.len() implies (#[trigger] after[i]) == known[i] by {
            assert(after[i] == before[i]);
        }
        assert forall|i: int| 0 <= i < more.len() && after.len() <= usize::MAX implies (
        #[trigger] columns_of(known, more)[i]) < after.len() && after[columns_of(known, more)[i] as int]
            == more[i] by {
            if i < front.len() {
                assert(columns_of(known, more)[i] == columns_of(known, front)[i]);
                assert(before[columns_of(known, front)[i] as int] == front[i]);
                assert(after[columns_of(known, front)[i] as int] == before[columns_of(
                    known,
                    front,
                )[i] as int]);
            }
        }
        assert forall|i: int| 0 <= i < after.len() implies known.contains(#[trigger] after[i])
            || more.contains(after[i]) by {
            if i < before.len() {
                assert(after[i] == before[i]);
                if front.contains(before[i]) {
                    let k = choose|k: int| 0 <= k < front.len() && front[k] == before[i];
                    assert(more[k] == after[i]);
                }
            } else {
                assert(after[i] == more[more.len() - 1]);
            }
        }
    }
}

/// A given row has in the column of each variable the value that is given for it, whatever is
/// given for the others, and nothing where none is given. It has no value in another column.
pub proof fn law_given_rows_have_their_values(columns: Seq<usize>, values: Seq<Option<Term>>)
    requires
        columns.no_duplicates(),
        values.len() <= columns.len(),
    ensures
        forall|i: int|
            0 <= i < values.len() ==> given_row(columns, values).column(
                (#[trigger] columns[i]) as int,
            ) == match values[i] {
                Some(term) => Some(encoded(term@)),
                None => None,
            },
        forall|c: int|
            (forall|i: int| 0 <= i < values.len() ==> (#[trigger] columns[i]) != c) ==> (
            #[trigger] given_row(columns, values).column(c)) is None,
        given_row(columns, values).graph_name is None,
    decreases values.len(),
{
    if values.len() > 0 {
        let front = values.drop_last();
        let last = values.len() - 1;
        law_given_rows_have_their_values(columns, front);
        let before = given_row(columns, front);
        let row = given_row(columns, values);
        if let Some(term) = values.last() {
            law_binding_changes_one_column(before, columns[last] as nat, encoded(term@));
        }
        assert(before.column(columns[last] as int) is None);
        assert forall|i: int| 0 <= i < values.len() implies row.column(
            (#[trigger] columns[i]) as int,
        ) == (match values[i] {
            Some(term) => Some(encoded(term@)),
            None => None,
        }) by {
            if i < last {
                assert(front[i] == values[i]);
                assert(columns[i] != columns[last]);
                assert(row.column(columns[i] as int) == before.column(columns[i] as int));
            }
        }
        assert forall|c: int|
            (forall|i: int| 0 <= i < values.len() ==> (#[trigger] columns[i]) != c) implies (
        #[trigger] row.column(c)) is None by {
            assert(columns[last] != c);
            assert(before.column(c) is None);
            assert(row.column(c) == before.column(c));
        }
    }
}

/// A plan keeps the columns of the variables that are known before it, and gives no variable
/// two columns.
pub proof fn law_plans_keep_columns(expression: QueryExpression, known: Seq<Seq<u8>>)
    ensures
        compiled(expression, known) matches Ok((_, after)) ==> {
            &&& known.len() <= after.len()
            &&& forall|i: int| 0 <= i < known.len() ==> (#[trigger] after[i]) == known[i]
            &&& known.no_duplicates() ==> after.no_duplicates()
        },
    decreases expression,
{
    match expression {
        QueryExpression::Values { variables, bindings } => {
            law_every_variable_has_a_column(known, names(variables@));
        },
        QueryExpression::QuadPattern { subject, predicate, object, graph_name } => {
            let first = match subject {
                TermPattern::Variable(variable) => with_variable(known, variable@),
                TermPattern::Term(_) => known,
            };
            let second = match predicate {
                NamedNodePattern::Variable(variable) => with_variable(first, variable@),
                NamedNodePattern::NamedNode(_) => first,
            };
            let third = match object {
                TermPattern::Variable(variable) => with_variable(second, variable@),
                TermPattern::Term(_) => second,
            };
            if let TermPattern::Variable(variable) = subject {
                law_variables_have_their_columns(known, variable@);
            }
            if let NamedNodePattern::Variable(variable) = predicate {
                law_variables_have_their_columns(first, variable@);
            }
            if let TermPattern::Variable(variable) = object {
                law_variables_have_their_columns(second, variable@);
            }
            if let Some(NamedNodePattern::Variable(variable)) = graph_name {
                law_variables_have_their_columns(third, variable@);
            }
        },
        QueryExpression::Join { left, right, algorithm } => {
            law_plans_keep_columns(*left, known);
            if let Ok((_, middle)) = compiled(*left, known) {
                law_plans_keep_columns(*right, middle);
                if let Ok((_, last)) = compiled(*right, middle) {
                    let JoinAlgorithm::HashBuildLeftProbeRight { keys } = algorithm;
                    law_every_variable_has_a_column(last, names(keys@));
                    assert forall|i: int| 0 <= i < known.len() implies (
                    #[trigger] with_variables(last, names(keys@))[i]) == known[i] by {
                        assert(with_variables(last, names(keys@))[i] == last[i]);
                        assert(last[i] == middle[i]);
                        assert(middle[i] == known[i]);
                    }
                }
            }
        },
        QueryExpression::Project { inner, variables } => {
            law_every_variable_has_a_column(known, names(variables@));
        },
        QueryExpression::Unsupported(_) => {},
    }
}

/// The rows of a plan of given values have, for each variable, the value that is given for it.
#[verifier::rlimit(40)]
pub proof fn law_plans_of_given_values_have_them(
    variables: Vec<Variable>,
    bindings: Vec<Vec<Option<Term>>>,
    known: Seq<Seq<u8>>,
)
    requires
        known.no_duplicates(),
        known.len() + variables@.len() <= usize::MAX,
        forall|i: int, j: int|
            0 <= i < j < variables@.len() ==> (#[trigger] variables@[i])@ != (
            #[trigger] variables@[j])@,
        forall|r: int|
            0 <= r < bindings@.len() ==> (#[trigger] bindings@[r])@.len() <= variables@.len(),
    ensures
        compiled(QueryExpression::Values { variables, bindings }, known) matches Ok((plan, after))
            && plan matches PlanView::Values { rows } && {
            &&& rows.len() == bindings@.len()
            &&& forall|r: int, i: int, c: int|
                #![trigger bindings@[r]@[i], rows[r].column(c)]
                0 <= r < rows.len() && 0 <= i < bindings@[r]@.len() && 0 <= c < after.len()
                    && after[c] == variables@[i]@ ==> rows[r].column(c) == match bindings@[r]@[i] {
                    Some(term) => Some(encoded(term@)),
                    None => None,
                }
            &&& forall|r: int, c: int|
                #![trigger rows[r].column(c)]
                0 <= r < rows.len() && rows[r].column(c) is Some ==> 0 <= c < after.len()
                    && exists|i: int|
                    0 <= i < bindings@[r]@.len() && after[c] == (#[trigger] variables@[i])@
        },
{
    let list = names(variables@);
    let columns = columns_of(known, list);
    let after = with_variables(known, list);
    law_every_variable_has_a_column(known, list);
    assert(columns.no_duplicates()) by {
        assert forall|i: int, j: int|
            0 <= i < columns.len() && 0 <= j < columns.len() && i != j implies columns[i]
            != columns[j] by {
            assert(after[columns[i] as int] == list[i]);
            assert(after[columns[j] as int] == list[j]);
            if i < j {
                assert(variables@[i]@ != variables@[j]@);
            } else {
                assert(variables@[j]@ != variables@[i]@);
            }
        }
    }
    let rows = compiled(QueryExpression::Values { variables, bindings }, known)->Ok_0.0->rows;
    assert forall|r: int, i: int, c: int|
        #![trigger bindings@[r]@[i], rows[r].column(c)]
        0 <= r < rows.len() && 0 <= i < bindings@[r]@.len() && 0 <= c < after.len() && after[c]
            == variables@[i]@ implies rows[r].column(c) == (match bindings@[r]@[i] {
        Some(term) => Some(encoded(term@)),
        None => None,
    }) by {
        assert(rows[r] == given_row(columns, bindings@[r]@));
        law_given_rows_have_their_values(columns, bindings@[r]@);
        assert(after[columns[i] as int] == list[i]);
        assert(c == columns[i]);
    }
    assert forall|r: int, c: int|
        #![trigger rows[r].column(c)]
        0 <= r < rows.len() && rows[r].column(c) is Some implies 0 <= c < after.len()
        && exists|i: int|
        0 <= i < bindings@[r]@.len() && after[c] == (#[trigger] variables@[i])@ by {
        assert(rows[r] == given_row(columns, bindings@[r]@));
        law_given_rows_have_their_values(columns, bindings@[r]@);
        let i = choose|i: int|
            0 <= i < bindings@[r]@.len() && (#[trigger] columns[i]) == c;
        assert(after[columns[i] as int] == list[i]);
        assert(after[c] == variables@[i]@);
    }
}

/// The plan of a quad pattern asks at each position for what stands there: a term for itself,
/// a variable for the value of its own column.
pub proof fn law_plans_of_quad_patterns_ask_for_them(
    subject: TermPattern,
    predicate: NamedNodePattern,
    object: TermPattern,
    graph_name: Option<NamedNodePattern>,
    known: Seq<Seq<u8>>,
)
    requires
        known.len() + 4 <= usize::MAX,
    ensures
        compiled(
            QueryExpression::QuadPattern { subject, predicate, object, graph_name },
            known,
        ) matches Ok((plan, after)) && plan matches PlanView::QuadPattern {
            subject: s,
            predicate: p,
            object: o,
            graph_name: g,
        } && {
            &&& match subject {
                TermPattern::Term(term) => s == TupleSelector::Constant(encoded(term@)),
                TermPattern::Variable(variable) => s matches TupleSelector::Variable(c) && c
                    < after.len() && after[c as int] == variable@,
            }
            &&& match predicate {
                NamedNodePattern::NamedNode(node) => p == TupleSelector::Constant(
                    encoded(TermView::NamedNode(node@)),
                ),
                NamedNodePattern::Variable(variable) => p matches TupleSelector::Variable(c) && c
                    < after.len() && after[c as int] == variable@,
            }
            &&& match object {
                TermPattern::Term(term) => o == TupleSelector::Constant(encoded(term@)),
                TermPattern::Variable(variable) => o matches TupleSelector::Variable(c) && c
                    < after.len() && after[c as int] == variable@,
            }
            &&& match graph_name {
                None => g is None,
                Some(NamedNodePattern::NamedNode(node)) => g == Some(
                    TupleSelector::Constant(encoded(TermView::NamedNode(node@))),
                ),
                Some(NamedNodePattern::Variable(variable)) => g matches Some(
                    TupleSelector::Variable(c),
                ) && c < after.len() && after[c as int] == variable@,
            }
        },
{
    let first = match subject {
        TermPattern::Variable(variable) => with_variable(known, variable@),
        TermPattern::Term(_) => known,
    };
    let second = match predicate {
        NamedNodePattern::Variable(variable) => with_variable(first, variable@),
        NamedNodePattern::NamedNode(_) => first,
    };
    let third = match object {
        TermPattern::Variable(variable) => with_variable(second, variable@),
        TermPattern::Term(_) => second,
    };
    if let TermPattern::Variable(variable) = subject {
        law_variables_have_their_columns(known, variable@);
    }
    if let NamedNodePattern::Variable(variable) = predicate {
        law_variables_have_their_columns(first, variable@);
    }
    if let TermPattern::Variable(variable) = object {
        law_variables_have_their_columns(second, variable@);
    }
    if let Some(NamedNodePattern::Variable(variable)) = graph_name {
        law_variables_have_their_columns(third, variable@);
    }
}

/// The sides of a join are planned over the same variables: a column of either side has the
/// same variable in the join. The keys are the columns of the key variables.
pub proof fn law_sides_of_a_join_share_their_columns(
    left: QueryExpression,
    right: QueryExpression,
    keys: Vec<Variable>,
    known: Seq<Seq<u8>>,
)
    ensures
        compiled(
            QueryExpression::Join {
                left: Box::new(left),
                right: Box::new(right),
                algorithm: JoinAlgorithm::HashBuildLeftProbeRight { keys },
            },
            known,
        ) matches Ok((plan, after)) ==> {
            &&& plan matches PlanView::Join { left: l, right: r, keys: k }
            &&& exists|start: Seq<Seq<u8>>|
                {
                    &&& (#[trigger] compiled(left, start)) matches Ok((side, others))
                    &&& side == *l
                    &&& others.len() <= after.len()
                    &&& forall|i: int|
                        0 <= i < others.len() ==> (#[trigger] others[i]) == after[i]
                }
            &&& exists|start: Seq<Seq<u8>>|
                {
                    &&& (#[trigger] compiled(right, start)) matches Ok((side, others))
                    &&& side == *r
                    &&& others.len() <= after.len()
                    &&& forall|i: int|
                        0 <= i < others.len() ==> (#[trigger] others[i]) == after[i]
                }
            &&& k.len() == keys@.len()
            &&& after.len() <= usize::MAX ==> forall|i: int|
                0 <= i < k.len() ==> (#[trigger] k[i]) < after.len() && after[k[i] as int]
                    == keys@[i]@
        },
{
    if let Ok((_, middle)) = compiled(left, known) {
        law_plans_keep_columns(right, middle);
        if let Ok((_, last)) = compiled(right, middle) {
            law_every_variable_has_a_column(last, names(keys@));
            let after = with_variables(last, names(keys@));
            assert forall|i: int| 0 <= i < middle.len() implies (#[trigger] middle[i])
                == after[i] by {
                assert(after[i] == last[i]);
                assert(last[i] == middle[i]);
            }
            assert forall|i: int| 0 <= i < last.len() implies (#[trigger] last[i])
                == after[i] by {
                assert(after[i] == last[i]);
            }
        }
    }
}

/// The inner pattern of a projection is planned over variables of its own, of which the
/// selected ones are the first. Each pair of columns of a projection is the column that a
/// selected variable has inside and the column that it has outside.
pub proof fn law_projections_pair_the_columns_of_a_variable(
    inner: QueryExpression,
    variables: Vec<Variable>,
    known: Seq<Seq<u8>>,
)
    requires
        known.len() + variables@.len() <= usize::MAX,
    ensures
        compiled(
            QueryExpression::Project { inner: Box::new(inner), variables },
            known,
        ) matches Ok((plan, after)) ==> {
            &&& plan matches PlanView::Project { inner: p, mapping }
            &&& mapping.len() == variables@.len()
            &&& exists|start: Seq<Seq<u8>>|
                {
                    &&& (#[trigger] compiled(inner, start)) matches Ok((side, own))
                    &&& side == *p
                    &&& forall|i: int|
                        0 <= i < mapping.len() ==> (#[trigger] mapping[i]).0 < own.len()
                            && own[mapping[i].0 as int] == variables@[i]@
                }
            &&& forall|i: int|
                0 <= i < mapping.len() ==> (#[trigger] mapping[i]).1 < after.len()
                    && after[mapping[i].1 as int] == variables@[i]@
        },
{
    let list = names(variables@);
    law_plans_keep_columns(inner, list);
    law_every_variable_has_a_column(known, list);
    if let Ok((side, own)) = compiled(inner, list) {
        let mapping = compiled(
            QueryExpression::Project { inner: Box::new(inner), variables },
            known,
        )->Ok_0.0->mapping;
        assert forall|i: int| 0 <= i < mapping.len() implies (#[trigger] mapping[i]).0 < own.len()
            && own[mapping[i].0 as int] == variables@[i]@ by {
            assert(own[i] == list[i]);
        }
        assert forall|i: int| 0 <= i < mapping.len() implies (#[trigger] mapping[i]).1
            < with_variables(known, list).len() && with_variables(known, list)[mapping[i].1 as int]
            == variables@[i]@ by {
            assert(mapping[i].1 == columns_of(known, list)[i]);
        }
    }
}

/// There is a plan exactly where no part of a pattern is of a form that is not supported; the
/// first such part is the reason. The variables that are known before have no part in it.
pub proof fn law_plans_fail_for_unsupported_parts(
    left: QueryExpression,
    right: QueryExpression,
    algorithm: JoinAlgorithm,
    variables: Vec<Variable>,
    bindings: Vec<Vec<Option<Term>>>,
    subject: TermPattern,
    predicate: NamedNodePattern,
    object: TermPattern,
    graph_name: Option<NamedNodePattern>,
    pattern: UnsupportedPattern,
    known: Seq<Seq<u8>>,
    other: Seq<Seq<u8>>,
)
    ensures
        compiled(QueryExpression::Values { variables, bindings }, known) is Ok,
        compiled(
            QueryExpression::QuadPattern { subject, predicate, object, graph_name },
            known,
        ) is Ok,
        compiled(QueryExpression::Unsupported(pattern), known) == Err::<
            (PlanView, Seq<Seq<u8>>),
            _,
        >(pattern),
        compiled(
            QueryExpression::Project { inner: Box::new(left), variables },
            known,
        ) is Ok <==> compiled(left, other) is Ok,
        compiled(left, other) matches Err(error) ==> compiled(
            QueryExpression::Project { inner: Box::new(left), variables },
            known,
        ) == Err::<(PlanView, Seq<Seq<u8>>), _>(error),
        ({
            let join = QueryExpression::Join {
                left: Box::new(left),
                right: Box::new(right),
                algorithm,
            };
            &&& compiled(join, known) is Ok <==> compiled(left, other) is Ok && compiled(
                right,
                other,
            ) is Ok
            &&& compiled(left, other) matches Err(error) ==> compiled(join, known) == Err::<
                (PlanView, Seq<Seq<u8>>),
                _,
            >(error)
            &&& compiled(right, other) matches Err(error) ==> compiled(left, other) is Ok
                ==> compiled(join, known) == Err::<(PlanView, Seq<Seq<u8>>), _>(error)
        }),
{
    lemma_failures(left, names(variables@), other);
    lemma_failures(left, known, other);
    if let Ok((_, middle)) = compiled(left, known) {
        lemma_failures(right, middle, other);
    }
}

/// Whether there is a plan does not depend on the variables that are known before.
proof fn lemma_failures(expression: QueryExpression, known: Seq<Seq<u8>>, other: Seq<Seq<u8>>)
    ensures
        compiled(expression, known) is Ok <==> compiled(expression, other) is Ok,
        compiled(expression, known) matches Err(error) ==> compiled(expression, other) == Err::<
            (PlanView, Seq<Seq<u8>>),
            _,
        >(error),
    decreases expression,
{
    match expression {
        QueryExpression::Join { left, right, .. } => {
            lemma_failures(*left, known, other);
            if let Ok((_, middle)) = compiled(*left, known) {
                if let Ok((_, other_middle)) = compiled(*left, other) {
                    lemma_failures(*right, middle, other_middle);
                }
            }
        },
        _ => {},
    }
}

/// In the context of a row without bindings, given rows are answered as they are, one for
/// one.
pub proof fn law_given_rows_are_answered(
    rows: Seq<TupleView>,
    from: TupleView,
    default_graphs: Option<Seq<Option<EncodedTerm>>>,
    named_graphs: Option<Seq<EncodedTerm>>,
    listing: Seq<EncodedQuad>,
)
    requires
        forall|c: int| (#[trigger] from.column(c)) is None,
        from.graph_name is None,
    ensures
        (PlanView::Values { rows }).answer(from, default_graphs, named_graphs, listing).len()
            == rows.len(),
        forall|k: int, c: int|
            0 <= k < rows.len() ==> (#[trigger] (PlanView::Values { rows }).answer(
                from,
                default_graphs,
                named_graphs,
                listing,
            )[k].column(c)) == rows[k].column(c),
{
    lemma_given_rows_kept(rows, from, |row: TupleView| combined(from, row));
}

proof fn lemma_given_rows_kept(
    rows: Seq<TupleView>,
    from: TupleView,
    f: spec_fn(TupleView) -> Option<TupleView>,
)
    requires
        forall|c: int| (#[trigger] from.column(c)) is None,
        from.graph_name is None,
        forall|row: TupleView| #[trigger] f(row) == combined(from, row),
    ensures
        filter_map(rows, f).len() == rows.len(),
        forall|k: int, c: int|
            0 <= k < rows.len() ==> (#[trigger] filter_map(rows, f)[k].column(c)) == rows[k].column(
                c,
            ),
    decreases rows.len(),
{
    if rows.len() > 0 {
        lemma_given_rows_kept(rows.drop_last(), from, f);
        law_rows_combine_where_they_agree(from, rows.last());
        assert(f(rows.last()) is Some);
        assert forall|k: int, c: int| 0 <= k < rows.len() implies (#[trigger] filter_map(
            rows,
            f,
        )[k].column(c)) == rows[k].column(c) by {
            if k < rows.len() - 1 {
                assert(filter_map(rows, f)[k] == filter_map(rows.drop_last(), f)[k]);
                assert(filter_map(rows.drop_last(), f)[k].column(c) == rows.drop_last()[k].column(
                    c,
                ));
            }
        }
    }
}

/// In the context of a row, every given row that agrees with it is answered, together with it.
pub proof fn law_given_rows_that_agree_are_answered(
    rows: Seq<TupleView>,
    k: int,
    from: TupleView,
    default_graphs: Option<Seq<Option<EncodedTerm>>>,
    named_graphs: Option<Seq<EncodedTerm>>,
    listing: Seq<EncodedQuad>,
)
    requires
        0 <= k < rows.len(),
        forall|c: int|
            (#[trigger] from.column(c)) is None || rows[k].column(c) is None || from.column(c)
                == rows[k].column(c),
        from.graph_name is None || rows[k].graph_name is None || from.graph_name
            == rows[k].graph_name,
    ensures
        exists|row: TupleView| #[trigger]
            (PlanView::Values { rows }).answer(
                from,
                default_graphs,
                named_graphs,
                listing,
            ).contains(row) && forall|c: int|
                (#[trigger] row.column(c)) == if from.column(c) is Some {
                    from.column(c)
                } else {
                    rows[k].column(c)
                },
{
    law_rows_combine_where_they_agree(from, rows[k]);
    let f = |row: TupleView| combined(from, row);
    let row = combined(from, rows[k])->0;
    assert(f(rows[k]) == Some(row));
    lemma_filter_map_contains(rows, f, row);
    assert((PlanView::Values { rows }).answer(from, default_graphs, named_graphs, listing).contains(
        row,
    ));
}

/// Every answer of given rows is one of them, together with the row of the context, with which
/// it agrees.
pub proof fn law_answers_of_given_rows_are_given(
    rows: Seq<TupleView>,
    from: TupleView,
    default_graphs: Option<Seq<Option<EncodedTerm>>>,
    named_graphs: Option<Seq<EncodedTerm>>,
    listing: Seq<EncodedQuad>,
    row: TupleView,
)
    requires
        (PlanView::Values { rows }).answer(from, default_graphs, named_graphs, listing).contains(row),
    ensures
        exists|k: int|
            #![trigger rows[k]]
            0 <= k < rows.len() && forall|c: int|
                (#[trigger] row.column(c)) == (if from.column(c) is Some {
                    from.column(c)
                } else {
                    rows[k].column(c)
                }) && (from.column(c) is None || rows[k].column(c) is None || from.column(c)
                    == rows[k].column(c)),
{
    let f = |row: TupleView| combined(from, row);
    lemma_filter_map_contains(rows, f, row);
    let k = choose|k: int| 0 <= k < rows.len() && f(#[trigger] rows[k]) == Some(row);
    assert(combined(from, rows[k]) == Some(row));
    assert(rows[k] == rows[k]);
    assert forall|c: int|
        (#[trigger] row.column(c)) == (if from.column(c) is Some {
            from.column(c)
        } else {
            rows[k].column(c)
        }) && (from.column(c) is None || rows[k].column(c) is None || from.column(c)
            == rows[k].column(c)) by {
        law_combined_bindings(from, rows[k], c);
        assert(agree(from.column(c), rows[k].column(c)));
    }
}

/// An inner query is evaluated in the context of a row that has, in each inner column, the
/// value that the outer row has in the outer column, and no other value.
pub proof fn law_inner_rows_have_the_outer_values(from: TupleView, mapping: Seq<(usize, usize)>)
    requires
        forall|i: int, j: int|
            0 <= i < j < mapping.len() ==> (#[trigger] mapping[i]).0 != (#[trigger] mapping[j]).0,
    ensures
        forall|k: int|
            0 <= k < mapping.len() ==> inner_row(from, mapping).column(
                (#[trigger] mapping[k]).0 as int,
            ) == from.column(mapping[k].1 as int),
        forall|c: int|
            (forall|k: int| 0 <= k < mapping.len() ==> (#[trigger] mapping[k]).0 != c) ==> (
            #[trigger] inner_row(from, mapping).column(c)) is None,
        inner_row(from, mapping).graph_name == from.graph_name,
    decreases mapping.len(),
{
    if mapping.len() > 0 {
        let front = mapping.drop_last();
        let last = mapping.len() - 1;
        assert forall|i: int, j: int| 0 <= i < j < front.len() implies (#[trigger] front[i]).0 != (
        #[trigger] front[j]).0 by {
            assert(mapping[i].0 != mapping[j].0);
        }
        law_inner_rows_have_the_outer_values(from, front);
        let before = inner_row(from, front);
        let row = inner_row(from, mapping);
        if let Some(value) = from.column(mapping.last().1 as int) {
            law_binding_changes_one_column(before, mapping.last().0 as nat, value);
        }
        assert(before.column(mapping[last].0 as int) is None) by {
            assert forall|k: int| 0 <= k < front.len() implies (#[trigger] front[k]).0
                != mapping[last].0 as int by {
                assert(mapping[k].0 != mapping[last].0);
            }
        }
        assert forall|k: int| 0 <= k < mapping.len() implies row.column(
            (#[trigger] mapping[k]).0 as int,
        ) == from.column(mapping[k].1 as int) by {
            if k < last {
                assert(front[k] == mapping[k]);
                assert(mapping[k].0 != mapping[last].0);
                assert(row.column(mapping[k].0 as int) == before.column(front[k].0 as int));
            }
        }
        assert forall|c: int|
            (forall|k: int| 0 <= k < mapping.len() ==> (#[trigger] mapping[k]).0 != c) implies (
        #[trigger] row.column(c)) is None by {
            assert(mapping[last].0 != c);
            assert forall|k: int| 0 <= k < front.len() implies (#[trigger] front[k]).0 != c by {
                assert(mapping[k].0 != c);
            }
            assert(before.column(c) is None);
            assert(row.column(c) == before.column(c));
        }
    }
}

/// Every row of an inner query that agrees with the outer row is projected to an answer,
/// which has the outer bindings and, in each outer column, the value of the inner one.
pub proof fn law_rows_of_an_inner_query_are_projected(
    inner: PlanView,
    mapping: Seq<(usize, usize)>,
    from: TupleView,
    default_graphs: Option<Seq<Option<EncodedTerm>>>,
    named_graphs: Option<Seq<EncodedTerm>>,
    listing: Seq<EncodedQuad>,
    row: TupleView,
    other: TupleView,
)
    requires
        inner.answer(inner_row(from, mapping), default_graphs, named_graphs, listing).contains(row),
        forall|i: int| (#[trigger] from.column(i)) is Some ==> other.column(i) == from.column(i),
        forall|k: int|
            0 <= k < mapping.len() && row.column((#[trigger] mapping[k]).0 as int) is Some
                ==> other.column(mapping[k].1 as int) == row.column(mapping[k].0 as int),
    ensures
        exists|output: TupleView| #[trigger]
            (PlanView::Project { inner: Box::new(inner), mapping }).answer(
                from,
                default_graphs,
                named_graphs,
                listing,
            ).contains(output) && {
                &&& forall|k: int|
                    0 <= k < mapping.len() && row.column((#[trigger] mapping[k]).0 as int) is Some
                        ==> output.column(mapping[k].1 as int) == row.column(mapping[k].0 as int)
                &&& forall|i: int|
                    (#[trigger] from.column(i)) is Some ==> output.column(i) == from.column(i)
                &&& forall|i: int|
                    (#[trigger] output.column(i)) is Some ==> from.column(i) is Some || exists|
                        k: int,
                    |
                        0 <= k < mapping.len() && (#[trigger] mapping[k]).1 == i && row.column(
                            mapping[k].0 as int,
                        ) == output.column(i)
            },
{
    law_rows_are_projected_column_by_column(from, mapping, row, other);
    let rows = inner.answer(inner_row(from, mapping), default_graphs, named_graphs, listing);
    let f = projection(from, mapping);
    let output = projected(from, mapping, row)->0;
    let k = choose|k: int| 0 <= k < rows.len() && rows[k] == row;
    assert(f(rows[k]) == Some(output));
    lemma_filter_map_contains(rows, f, output);
    assert((PlanView::Project { inner: Box::new(inner), mapping }).answer(
        from,
        default_graphs,
        named_graphs,
        listing,
    ).contains(output));
}

/// Every answer of a projection is the projection of a row of the inner query.
pub proof fn law_answers_of_a_projection_are_projected(
    inner: PlanView,
    mapping: Seq<(usize, usize)>,
    from: TupleView,
    default_graphs: Option<Seq<Option<EncodedTerm>>>,
    named_graphs: Option<Seq<EncodedTerm>>,
    listing: Seq<EncodedQuad>,
    output: TupleView,
)
    requires
        (PlanView::Project { inner: Box::new(inner), mapping }).answer(
            from,
            default_graphs,
            named_graphs,
            listing,
        ).contains(output),
    ensures
        exists|row: TupleView| #[trigger]
            inner.answer(
                inner_row(from, mapping),
                default_graphs,
                named_graphs,
                listing,
            ).contains(row) && {
                &&& forall|k: int|
                    0 <= k < mapping.len() && row.column((#[trigger] mapping[k]).0 as int) is Some
                        ==> output.column(mapping[k].1 as int) == row.column(mapping[k].0 as int)
                &&& forall|i: int|
                    (#[trigger] from.column(i)) is Some ==> output.column(i) == from.column(i)
                &&& forall|i: int|
                    (#[trigger] output.column(i)) is Some ==> from.column(i) is Some || exists|
                        k: int,
                    |
                        0 <= k < mapping.len() && (#[trigger] mapping[k]).1 == i && row.column(
                            mapping[k].0 as int,
                        ) == output.column(i)
            },
{
    let rows = inner.answer(inner_row(from, mapping), default_graphs, named_graphs, listing);
    let f = projection(from, mapping);
    lemma_filter_map_contains(rows, f, output);
    let k = choose|k: int| 0 <= k < rows.len() && f(#[trigger] rows[k]) == Some(output);
    law_rows_are_projected_column_by_column(from, mapping, rows[k], output);
    assert(rows.contains(rows[k]));
}

/// Whether a row binds some variables to the values that another row binds them to, and no
/// other variable. The variables of the columns are those of the lists.
pub open spec fn binds_alike(
    variables: Seq<Variable>,
    row: TupleView,
    own: Seq<Seq<u8>>,
    output: TupleView,
    after: Seq<Seq<u8>>,
) -> bool {
    &&& forall|a: int, b: int|
        #![trigger row.column(a), output.column(b)]
        0 <= a < own.len() && 0 <= b < after.len() && own[a] == after[b] && (exists|i: int|
            0 <= i < variables.len() && (#[trigger] variables[i])@ == own[a]) ==> output.column(b)
            == row.column(a)
    &&& forall|b: int|
        (#[trigger] output.column(b)) is Some ==> 0 <= b < after.len() && exists|i: int|
            0 <= i < variables.len() && (#[trigger] variables[i])@ == after[b]
}

/// A query that selects variables of a pattern has, for each solution of the pattern, a
/// solution that binds the selected variables to the same values and binds no other variable;
/// and it has no other solutions.
#[verifier::rlimit(40)]
pub proof fn law_projections_keep_the_values_of_their_variables(
    inner: QueryExpression,
    variables: Vec<Variable>,
    known: Seq<Seq<u8>>,
    default_graphs: Option<Seq<Option<EncodedTerm>>>,
    named_graphs: Option<Seq<EncodedTerm>>,
    listing: Seq<EncodedQuad>,
)
    requires
        known.no_duplicates(),
        known.len() + variables@.len() <= usize::MAX,
        forall|i: int, j: int|
            0 <= i < j < variables@.len() ==> (#[trigger] variables@[i])@ != (
            #[trigger] variables@[j])@,
        compiled(QueryExpression::Project { inner: Box::new(inner), variables }, known) is Ok,
    ensures
        ({
            let from = TupleView { values: Seq::empty(), graph_name: None };
            exists|start: Seq<Seq<u8>>|
                {
                    &&& compiled(
                        QueryExpression::Project { inner: Box::new(inner), variables },
                        known,
                    ) matches Ok((plan, after))
                    &&& (#[trigger] compiled(inner, start)) matches Ok((side, own))
                    &&& forall|output: TupleView| #[trigger]
                        plan.answer(from, default_graphs, named_graphs, listing).contains(output)
                            ==> exists|row: TupleView| #[trigger]
                            side.answer(from, default_graphs, named_graphs, listing).contains(row)
                                && binds_alike(variables@, row, own, output, after)
                    &&& forall|row: TupleView| #[trigger]
                        side.answer(from, default_graphs, named_graphs, listing).contains(row)
                            ==> exists|output: TupleView| #[trigger]
                            plan.answer(from, default_graphs, named_graphs, listing).contains(
                                output,
                            ) && binds_alike(variables@, row, own, output, after)
                }
        }),
{
    let from = TupleView { values: Seq::empty(), graph_name: None };
    let project = QueryExpression::Project { inner: Box::new(inner), variables };
    lemma_selected_columns(inner, variables, known);
    let (plan, after) = compiled(project, known)->Ok_0;
    let (side, own) = compiled(inner, names(variables@))->Ok_0;
    let mapping = plan->mapping;
    lemma_inner_row_without_bindings(mapping);
    assert(plan == PlanView::Project { inner: Box::new(side), mapping });
    assert forall|output: TupleView| #[trigger]
        plan.answer(from, default_graphs, named_graphs, listing).contains(output) implies exists|
        row: TupleView,
    | #[trigger]
        side.answer(from, default_graphs, named_graphs, listing).contains(row) && binds_alike(
            variables@,
            row,
            own,
            output,
            after,
        ) by {
        law_answers_of_a_projection_are_projected(
            side,
            mapping,
            from,
            default_graphs,
            named_graphs,
            listing,
            output,
        );
        let row = choose|row: TupleView| #[trigger]
            side.answer(from, default_graphs, named_graphs, listing).contains(row) && paired(
                from,
                mapping,
                row,
                output,
            );
        lemma_paired_by_name(variables, from, mapping, row, own, output, after);
    }
    assert forall|row: TupleView| #[trigger]
        side.answer(from, default_graphs, named_graphs, listing).contains(row) implies exists|
        output: TupleView,
    | #[trigger]
        plan.answer(from, default_graphs, named_graphs, listing).contains(output) && binds_alike(
            variables@,
            row,
            own,
            output,
            after,
        ) by {
        let other = lemma_spread(mapping, row);
        law_rows_of_an_inner_query_are_projected(
            side,
            mapping,
            from,
            default_graphs,
            named_graphs,
            listing,
            row,
            other,
        );
        let output = choose|output: TupleView| #[trigger]
            plan.answer(from, default_graphs, named_graphs, listing).contains(output) && paired(
                from,
                mapping,
                row,
                output,
            );
        lemma_paired_by_name(variables, from, mapping, row, own, output, after);
    }
}

/// The columns of a projection, inside and outside.
proof fn lemma_selected_columns(
    inner: QueryExpression,
    variables: Vec<Variable>,
    known: Seq<Seq<u8>>,
)
    requires
        known.no_duplicates(),
        known.len() + variables@.len() <= usize::MAX,
        forall|i: int, j: int|
            0 <= i < j < variables@.len() ==> (#[trigger] variables@[i])@ != (
            #[trigger] variables@[j])@,
        compiled(QueryExpression::Project { inner: Box::new(inner), variables }, known) is Ok,
    ensures
        ({
            let (plan, after) = compiled(
                QueryExpression::Project { inner: Box::new(inner), variables },
                known,
            )->Ok_0;
            let (side, own) = compiled(inner, names(variables@))->Ok_0;
            let mapping = plan->mapping;
            &&& compiled(inner, names(variables@)) is Ok
            &&& plan == PlanView::Project { inner: Box::new(side), mapping }
            &&& own.no_duplicates()
            &&& after.no_duplicates()
            &&& mapping.len() == variables@.len()
            &&& mapping.len() <= own.len()
            &&& forall|k: int|
                0 <= k < mapping.len() ==> (#[trigger] mapping[k]).0 == k && own[k]
                    == variables@[k]@
            &&& forall|k: int|
                0 <= k < mapping.len() ==> (#[trigger] mapping[k]).1 < after.len()
                    && after[mapping[k].1 as int] == variables@[k]@
            &&& forall|i: int, j: int|
                0 <= i < j < mapping.len() ==> (#[trigger] mapping[i]).1 != (
                #[trigger] mapping[j]).1
        }),
{
    let list = names(variables@);
    let project = QueryExpression::Project { inner: Box::new(inner), variables };
    law_projections_pair_the_columns_of_a_variable(inner, variables, known);
    law_plans_keep_columns(project, known);
    law_plans_keep_columns(inner, list);
    assert(list.no_duplicates()) by {
        assert forall|i: int, j: int|
            0 <= i < list.len() && 0 <= j < list.len() && i != j implies list[i] != list[j] by {
            if i < j {
                assert(variables@[i]@ != variables@[j]@);
            } else {
                assert(variables@[j]@ != variables@[i]@);
            }
        }
    }
    let (plan, after) = compiled(project, known)->Ok_0;
    let (side, own) = compiled(inner, list)->Ok_0;
    let mapping = plan->mapping;
    assert forall|k: int| 0 <= k < mapping.len() implies (#[trigger] mapping[k]).0 == k && own[k]
        == variables@[k]@ by {
        assert(own[k] == list[k]);
    }
    assert forall|i: int, j: int| 0 <= i < j < mapping.len() implies (#[trigger] mapping[i]).1 != (
    #[trigger] mapping[j]).1 by {
        assert(variables@[i]@ != variables@[j]@);
    }
}

/// A query that selects variables of a pattern has as many solutions as the pattern.
pub proof fn law_projections_keep_the_number_of_solutions(
    inner: PlanView,
    mapping: Seq<(usize, usize)>,
    default_graphs: Option<Seq<Option<EncodedTerm>>>,
    named_graphs: Option<Seq<EncodedTerm>>,
    listing: Seq<EncodedQuad>,
)
    requires
        forall|i: int, j: int|
            0 <= i < j < mapping.len() ==> (#[trigger] mapping[i]).1 != (#[trigger] mapping[j]).1,
    ensures
        ({
            let from = TupleView { values: Seq::empty(), graph_name: None };
            (PlanView::Project { inner: Box::new(inner), mapping }).answer(
                from,
                default_graphs,
                named_graphs,
                listing,
            ).len() == inner.answer(from, default_graphs, named_graphs, listing).len()
        }),
{
    let from = TupleView { values: Seq::empty(), graph_name: None };
    lemma_inner_row_without_bindings(mapping);
    let rows = inner.answer(from, default_graphs, named_graphs, listing);
    assert forall|k: int| 0 <= k < rows.len() implies projection(from, mapping)(
        #[trigger] rows[k],
    ) is Some by {
        let other = lemma_spread(mapping, rows[k]);
        law_rows_are_projected_column_by_column(from, mapping, rows[k], other);
    }
    lemma_filter_map_all(rows, projection(from, mapping));
}

/// Whether a row was projected to another.
spec fn paired(
    from: TupleView,
    mapping: Seq<(usize, usize)>,
    row: TupleView,
    output: TupleView,
) -> bool {
    &&& forall|k: int|
        0 <= k < mapping.len() && row.column((#[trigger] mapping[k]).0 as int) is Some
            ==> output.column(mapping[k].1 as int) == row.column(mapping[k].0 as int)
    &&& forall|i: int| (#[trigger] from.column(i)) is Some ==> output.column(i) == from.column(i)
    &&& forall|i: int|
        (#[trigger] output.column(i)) is Some ==> from.column(i) is Some || exists|k: int|
            0 <= k < mapping.len() && (#[trigger] mapping[k]).1 == i && row.column(
                mapping[k].0 as int,
            ) == output.column(i)
}

/// A row without bindings is the context of an inner query too.
proof fn lemma_inner_row_without_bindings(mapping: Seq<(usize, usize)>)
    ensures
        ({
            let from = TupleView { values: Seq::empty(), graph_name: None };
            inner_row(from, mapping) == from
        }),
    decreases mapping.len(),
{
    if mapping.len() > 0 {
        lemma_inner_row_without_bindings(mapping.drop_last());
    }
}

/// A row that has the values of the inner columns in the outer ones.
proof fn lemma_spread(mapping: Seq<(usize, usize)>, row: TupleView) -> (other: TupleView)
    requires
        forall|i: int, j: int|
            0 <= i < j < mapping.len() ==> (#[trigger] mapping[i]).1 != (#[trigger] mapping[j]).1,
    ensures
        forall|k: int|
            0 <= k < mapping.len() ==> other.column((#[trigger] mapping[k]).1 as int)
                == row.column(mapping[k].0 as int),
{
    let values = Seq::new(
        usize::MAX as nat + 1,
        |c: int|
            if exists|k: int| 0 <= k < mapping.len() && (#[trigger] mapping[k]).1 == c {
                row.column(
                    mapping[choose|k: int|
                        0 <= k < mapping.len() && (#[trigger] mapping[k]).1 == c].0 as int,
                )
            } else {
                None
            },
    );
    let other = TupleView { values, graph_name: None };
    assert forall|k: int| 0 <= k < mapping.len() implies other.column(
        (#[trigger] mapping[k]).1 as int,
    ) == row.column(mapping[k].0 as int) by {
        let c = mapping[k].1 as int;
        let j = choose|j: int| 0 <= j < mapping.len() && (#[trigger] mapping[j]).1 == c;
        if j < k {
            assert(mapping[j].1 != mapping[k].1);
        }
        if k < j {
            assert(mapping[k].1 != mapping[j].1);
        }
    }
    other
}

/// What is projected column by column is projected variable by variable.
proof fn lemma_paired_by_name(
    variables: Vec<Variable>,
    from: TupleView,
    mapping: Seq<(usize, usize)>,
    row: TupleView,
    own: Seq<Seq<u8>>,
    output: TupleView,
    after: Seq<Seq<u8>>,
)
    requires
        paired(from, mapping, row, output),
        from.values.len() == 0,
        own.no_duplicates(),
        after.no_duplicates(),
        mapping.len() == variables@.len(),
        mapping.len() <= own.len(),
        forall|k: int|
            0 <= k < mapping.len() ==> (#[trigger] mapping[k]).0 == k && own[k] == variables@[k]@,
        forall|k: int|
            0 <= k < mapping.len() ==> (#[trigger] mapping[k]).1 < after.len()
                && after[mapping[k].1 as int] == variables@[k]@,
    ensures
        binds_alike(variables@, row, own, output, after),
{
    assert forall|a: int, b: int|
        #![trigger row.column(a), output.column(b)]
        0 <= a < own.len() && 0 <= b < after.len() && own[a] == after[b] && (exists|i: int|
            0 <= i < variables@.len() && (#[trigger] variables@[i])@ == own[a]) implies output.column(
    b) == row.column(a) by {
        let i = choose|i: int| 0 <= i < variables@.len() && (#[trigger] variables@[i])@ == own[a];
        assert(mapping[i].0 == i);
        assert(own[i] == own[a]);
        assert(i == a);
        assert(after[mapping[i].1 as int] == after[b]);
        assert(mapping[i].1 == b);
        if output.column(b) is Some && row.column(a) is None {
            let k = choose|k: int|
                0 <= k < mapping.len() && (#[trigger] mapping[k]).1 == b && row.column(
                    mapping[k].0 as int,
                ) == output.column(b);
            assert(own[k] == after[mapping[k].1 as int]);
            assert(own[k] == own[a]);
            assert(k == a);
        }
    }
    assert forall|b: int| (#[trigger] output.column(b)) is Some implies 0 <= b < after.len()
        && exists|i: int| 0 <= i < variables@.len() && (#[trigger] variables@[i])@ == after[b] by {
        let k = choose|k: int|
            0 <= k < mapping.len() && (#[trigger] mapping[k]).1 == b && row.column(
                mapping[k].0 as int,
            ) == output.column(b);
        assert(variables@[k]@ == after[b]);
    }
}

/// A function that has an image for every item gives as many images as there are items.
proof fn lemma_filter_map_all<T, U>(items: Seq<T>, f: spec_fn(T) -> Option<U>)
    requires
        forall|i: int| 0 <= i < items.len() ==> f(#[trigger] items[i]) is Some,
    ensures
        filter_map(items, f).len() == items.len(),
    decreases items.len(),
{
    if items.len() > 0 {
        let front = items.drop_last();
        assert forall|i: int| 0 <= i < front.len() implies f(#[trigger] front[i]) is Some by {
            assert(f(items[i]) is Some);
        }
        lemma_filter_map_all(front, f);
        assert(f(items[items.len() - 1]) is Some);
    }
}

/// The answers of a join are those of pairs of answers of its sides that agree and have the
/// same values in the key columns.
pub proof fn law_answers_that_agree_are_joined(
    left: PlanView,
    right: PlanView,
    keys: Seq<usize>,
    from: TupleView,
    default_graphs: Option<Seq<Option<EncodedTerm>>>,
    named_graphs: Option<Seq<EncodedTerm>>,
    listing: Seq<EncodedQuad>,
    a: TupleView,
    b: TupleView,
)
    requires
        left.answer(from, default_graphs, named_graphs, listing).contains(a),
        right.answer(from, default_graphs, named_graphs, listing).contains(b),
        forall|c: int|
            (#[trigger] a.column(c)) is None || b.column(c) is None || a.column(c) == b.column(c),
        a.graph_name is None || b.graph_name is None || a.graph_name == b.graph_name,
        forall|k: int|
            0 <= k < keys.len() ==> a.column((#[trigger] keys[k]) as int) == b.column(
                keys[k] as int,
            ),
    ensures
        exists|row: TupleView| #[trigger]
            (PlanView::Join { left: Box::new(left), right: Box::new(right), keys }).answer(
                from,
                default_graphs,
                named_graphs,
                listing,
            ).contains(row) && forall|c: int|
                (#[trigger] row.column(c)) == if a.column(c) is Some {
                    a.column(c)
                } else {
                    b.column(c)
                },
{
    let lefts = left.answer(from, default_graphs, named_graphs, listing);
    let rights = right.answer(from, default_graphs, named_graphs, listing);
    let i = choose|i: int| 0 <= i < lefts.len() && lefts[i] == a;
    let j = choose|j: int| 0 <= j < rights.len() && rights[j] == b;
    if keys.len() == 0 {
        law_every_pair_that_agrees_is_joined(lefts, rights, i, j);
        let row = choose|row: TupleView| #[trigger]
            joined(lefts, rights, by_bindings()).contains(row) && forall|c: int|
                (#[trigger] row.column(c)) == if lefts[i].column(c) is Some {
                    lefts[i].column(c)
                } else {
                    rights[j].column(c)
                };
        assert((PlanView::Join { left: Box::new(left), right: Box::new(right), keys }).answer(
            from,
            default_graphs,
            named_graphs,
            listing,
        ).contains(row));
    } else {
        law_every_pair_with_the_same_key_is_joined(keys, lefts, rights, i, j);
        let row = choose|row: TupleView| #[trigger]
            joined(lefts, rights, by_key(keys)).contains(row) && forall|c: int|
                (#[trigger] row.column(c)) == if lefts[i].column(c) is Some {
                    lefts[i].column(c)
                } else {
                    rights[j].column(c)
                };
        assert((PlanView::Join { left: Box::new(left), right: Box::new(right), keys }).answer(
            from,
            default_graphs,
            named_graphs,
            listing,
        ).contains(row));
    }
}

/// Every answer of a join has the bindings of an answer of each side, which agree and, where
/// there are key columns, have the same hash of them.
pub proof fn law_answers_of_a_join_are_joined(
    left: PlanView,
    right: PlanView,
    keys: Seq<usize>,
    from: TupleView,
    default_graphs: Option<Seq<Option<EncodedTerm>>>,
    named_graphs: Option<Seq<EncodedTerm>>,
    listing: Seq<EncodedQuad>,
    row: TupleView,
)
    requires
        (PlanView::Join { left: Box::new(left), right: Box::new(right), keys }).answer(
            from,
            default_graphs,
            named_graphs,
            listing,
        ).contains(row),
    ensures
        exists|a: TupleView, b: TupleView|
            #![trigger left.answer(from, default_graphs, named_graphs, listing).contains(a), right.answer(from, default_graphs, named_graphs, listing).contains(b)]
            {
                &&& left.answer(from, default_graphs, named_graphs, listing).contains(a)
                &&& right.answer(from, default_graphs, named_graphs, listing).contains(b)
                &&& keys.len() > 0 ==> row_key(keys, a) == row_key(keys, b)
                &&& forall|c: int|
                    (#[trigger] row.column(c)) == (if a.column(c) is Some {
                        a.column(c)
                    } else {
                        b.column(c)
                    }) && (a.column(c) is None || b.column(c) is None || a.column(c) == b.column(c))
            },
{
    let lefts = left.answer(from, default_graphs, named_graphs, listing);
    let rights = right.answer(from, default_graphs, named_graphs, listing);
    let all = joined(lefts, rights, pairing_of(keys));
    let n = choose|n: int| 0 <= n < all.len() && all[n] == row;
    let (i, j) = if keys.len() == 0 {
        law_joined_rows_come_from_pairs(lefts, rights, n);
        choose|i: int, j: int|
            #![trigger lefts[i], rights[j]]
            0 <= i < lefts.len() && 0 <= j < rights.len() && forall|c: int|
                (#[trigger] row.column(c)) == (if lefts[i].column(c) is Some {
                    lefts[i].column(c)
                } else {
                    rights[j].column(c)
                }) && (lefts[i].column(c) is None || rights[j].column(c) is None
                    || lefts[i].column(c) == rights[j].column(c))
    } else {
        law_rows_joined_by_key_come_from_pairs(keys, lefts, rights, n);
        choose|i: int, j: int|
            #![trigger lefts[i], rights[j]]
            0 <= i < lefts.len() && 0 <= j < rights.len() && row_key(keys, lefts[i]) == row_key(
                keys,
                rights[j],
            ) && forall|c: int|
                (#[trigger] row.column(c)) == (if lefts[i].column(c) is Some {
                    lefts[i].column(c)
                } else {
                    rights[j].column(c)
                }) && (lefts[i].column(c) is None || rights[j].column(c) is None
                    || lefts[i].column(c) == rights[j].column(c))
    };
    assert(lefts.contains(lefts[i]) && rights.contains(rights[j]));
}

/// A plan asks a store for every quad that matters to it: a quad that has none of the patterns
/// that the plan asks for changes no answer.
pub proof fn law_quads_that_are_not_asked_for_change_nothing(
    plan: PlanView,
    from: TupleView,
    default_graphs: Option<Seq<Option<EncodedTerm>>>,
    named_graphs: Option<Seq<EncodedTerm>>,
    listing: Seq<EncodedQuad>,
    quad: EncodedQuad,
)
    requires
        forall|i: int|
            0 <= i < plan.asks(from, default_graphs, named_graphs).len() ==> !watches(
                #[trigger] plan.asks(from, default_graphs, named_graphs)[i],
                quad,
            ),
    ensures
        plan.answer(from, default_graphs, named_graphs, listing.push(quad)) == plan.answer(
            from,
            default_graphs,
            named_graphs,
            listing,
        ),
    decreases plan,
{
    let asks = plan.asks(from, default_graphs, named_graphs);
    match plan {
        PlanView::Values { .. } => {},
        PlanView::QuadPattern { subject, predicate, object, graph_name } => {
            let patterns = asks.map_values(|ask: IncrementalQuadPattern| read_pattern(ask));
            assert forall|i: int| 0 <= i < patterns.len() implies !selects(
                #[trigger] patterns[i],
                quad,
            ) by {
                assert(!watches(asks[i], quad));
            }
            lemma_nothing_more_picked(listing, quad, patterns);
        },
        PlanView::Join { left, right, .. } => {
            let lefts = left.asks(from, default_graphs, named_graphs);
            let rights = right.asks(from, default_graphs, named_graphs);
            assert forall|i: int| 0 <= i < lefts.len() implies !watches(
                #[trigger] lefts[i],
                quad,
            ) by {
                assert(asks[i] == lefts[i]);
            }
            assert forall|i: int| 0 <= i < rights.len() implies !watches(
                #[trigger] rights[i],
                quad,
            ) by {
                assert(asks[lefts.len() + i] == rights[i]);
            }
            law_quads_that_are_not_asked_for_change_nothing(
                *left,
                from,
                default_graphs,
                named_graphs,
                listing,
                quad,
            );
            law_quads_that_are_not_asked_for_change_nothing(
                *right,
                from,
                default_graphs,
                named_graphs,
                listing,
                quad,
            );
        },
        PlanView::Project { inner, mapping } => {
            law_quads_that_are_not_asked_for_change_nothing(
                *inner,
                inner_row(from, mapping),
                default_graphs,
                named_graphs,
                listing,
                quad,
            );
        },
    }
}

/// Patterns that do not select a quad pick nothing more of a list with the quad.
proof fn lemma_nothing_more_picked(
    listing: Seq<EncodedQuad>,
    quad: EncodedQuad,
    patterns: Seq<QuadPattern>,
)
    requires
        forall|i: int| 0 <= i < patterns.len() ==> !selects(#[trigger] patterns[i], quad),
    ensures
        all_picked(listing.push(quad), patterns) == all_picked(listing, patterns),
    decreases patterns.len(),
{
    if patterns.len() > 0 {
        let front = patterns.drop_last();
        assert forall|i: int| 0 <= i < front.len() implies !selects(#[trigger] front[i], quad) by {
            assert(front[i] == patterns[i]);
        }
        lemma_nothing_more_picked(listing, quad, front);
        assert(!selects(patterns[patterns.len() - 1], quad));
        lemma_filter_map_push(listing, quad, if_selected(patterns.last()));
        assert(picked(listing.push(quad), patterns.last()) == picked(listing, patterns.last()));
        assert(all_picked(listing.push(quad), patterns) =~= all_picked(listing.push(quad), front)
            + picked(listing.push(quad), patterns.last()));
        assert(all_picked(listing, patterns) =~= all_picked(listing, front) + picked(
            listing,
            patterns.last(),
        ));
    }
}

/// Kinds of nodes tell the forms of patterns apart: no two forms have the same kind.
pub proof fn law_labels_tell_patterns_apart(
    a: PatternForm,
    b: PatternForm,
    left: QueryExpression,
    right: QueryExpression,
)
    ensures
        unsupported_label(a) == unsupported_label(b) ==> a == b,
        left.label() == right.label() ==> match (left, right) {
            (QueryExpression::Values { .. }, QueryExpression::Values { .. }) => true,
            (QueryExpression::QuadPattern { .. }, QueryExpression::QuadPattern { .. }) => true,
            (QueryExpression::Join { .. }, QueryExpression::Join { .. }) => true,
            (QueryExpression::Project { .. }, QueryExpression::Project { .. }) => true,
            (
                QueryExpression::Unsupported(pattern),
                QueryExpression::Unsupported(other),
            ) => pattern.form == other.form,
            _ => false,
        },
{
}

/// The strings of a pattern are those of the terms that stand in it: of the given values, of
/// the positions of a quad pattern, and of the parts of a pattern.
pub proof fn law_strings_of_patterns_are_those_of_their_terms(
    left: QueryExpression,
    right: QueryExpression,
    algorithm: JoinAlgorithm,
    variables: Vec<Variable>,
    bindings: Vec<Vec<Option<Term>>>,
    subject: TermPattern,
    predicate: NamedNodePattern,
    object: TermPattern,
    graph_name: Option<NamedNodePattern>,
    entry: (StrHash, Seq<u8>),
)
    ensures
        (QueryExpression::Project { inner: Box::new(left), variables }).entries().contains(entry)
            <==> left.entries().contains(entry),
        (QueryExpression::Join {
            left: Box::new(left),
            right: Box::new(right),
            algorithm,
        }).entries().contains(entry) <==> left.entries().contains(entry)
            || right.entries().contains(entry),
        (QueryExpression::QuadPattern {
            subject,
            predicate,
            object,
            graph_name,
        }).entries().contains(entry) <==> {
            ||| subject matches TermPattern::Term(term) && term_entries(term@).contains(entry)
            ||| predicate matches NamedNodePattern::NamedNode(node) && term_entries(
                TermView::NamedNode(node@),
            ).contains(entry)
            ||| object matches TermPattern::Term(term) && term_entries(term@).contains(entry)
            ||| graph_name matches Some(NamedNodePattern::NamedNode(node)) && term_entries(
                TermView::NamedNode(node@),
            ).contains(entry)
        },
        (QueryExpression::Values { variables, bindings }).entries().contains(entry) <==> exists|
            r: int,
            i: int,
        |
            #![trigger bindings@[r]@[i]]
            0 <= r < bindings@.len() && 0 <= i < bindings@[r]@.len() && (
            bindings@[r]@[i] matches Some(term) && term_entries(term@).contains(entry)),
{
    lemma_contains_either(left.entries(), right.entries(), entry);
    let a = term_pattern_entries(subject);
    let b = node_pattern_entries(predicate);
    let c = term_pattern_entries(object);
    let d = match graph_name {
        Some(graph_name) => node_pattern_entries(graph_name),
        None => Seq::empty(),
    };
    lemma_contains_either(a, b, entry);
    lemma_contains_either(a + b, c, entry);
    lemma_contains_either(a + b + c, d, entry);
    assert((QueryExpression::QuadPattern { subject, predicate, object, graph_name }).entries()
        =~= a + b + c + d);
    lemma_concat_contains(bindings@, row_entries(), entry);
    if (QueryExpression::Values { variables, bindings }).entries().contains(entry) {
        let r = choose|r: int|
            0 <= r < bindings@.len() && row_entries()(#[trigger] bindings@[r]).contains(entry);
        lemma_concat_contains(bindings@[r]@, value_entries(), entry);
        let i = choose|i: int|
            0 <= i < bindings@[r]@.len() && value_entries()(
                #[trigger] bindings@[r]@[i],
            ).contains(entry);
        assert(bindings@[r]@[i] is Some);
    }
    if exists|r: int, i: int|
        #![trigger bindings@[r]@[i]]
        0 <= r < bindings@.len() && 0 <= i < bindings@[r]@.len() && (bindings@[r]@[i] matches Some(
            term,
        ) && term_entries(term@).contains(entry)) {
        let (r, i) = choose|r: int, i: int|
            #![trigger bindings@[r]@[i]]
            0 <= r < bindings@.len() && 0 <= i < bindings@[r]@.len() && (
            bindings@[r]@[i] matches Some(term) && term_entries(term@).contains(entry));
        lemma_concat_contains(bindings@[r]@, value_entries(), entry);
        assert(value_entries()(bindings@[r]@[i]).contains(entry));
        assert(row_entries()(bindings@[r]).contains(entry));
    }
}

proof fn lemma_contains_either<T>(a: Seq<T>, b: Seq<T>, item: T)
    ensures
        (a + b).contains(item) <==> a.contains(item) || b.contains(item),
{
    if a.contains(item) {
        let i = choose|i: int| 0 <= i < a.len() && a[i] == item;
        assert((a + b)[i] == item);
    }
    if b.contains(item) {
        let i = choose|i: int| 0 <= i < b.len() && b[i] == item;
        assert((a + b)[a.len() + i] == item);
    }
    if (a + b).contains(item) {
        let i = choose|i: int| 0 <= i < (a + b).len() && (a + b)[i] == item;
        if i < a.len() {
            assert(a[i] == item);
        } else {
            assert(b[i - a.len()] == item);
        }
    }
}

proof fn lemma_concat_contains<T, U>(items: Seq<T>, f: spec_fn(T) -> Seq<U>, image: U)
    ensures
        concat(items, f).contains(image) <==> exists|i: int|
            0 <= i < items.len() && f(#[trigger] items[i]).contains(image),
    decreases items.len(),
{
    if items.len() > 0 {
        let front = items.drop_last();
        let last = items.len() - 1;
        lemma_concat_contains(front, f, image);
        lemma_contains_either(concat(front, f), f(items.last()), image);
        if concat(front, f).contains(image) {
            let i = choose|i: int| 0 <= i < front.len() && f(#[trigger] front[i]).contains(image);
            assert(f(items[i]).contains(image));
        }
        if f(items.last()).contains(image) {
            assert(f(items[last]).contains(image));
        }
        if exists|i: int| 0 <= i < items.len() && f(#[trigger] items[i]).contains(image) {
            let i = choose|i: int| 0 <= i < items.len() && f(#[trigger] items[i]).contains(image);
            if i < last {
                assert(f(front[i]).contains(image));
            }
        }
    }
}

/// The outline of a pattern has a node for the pattern and, below it, the outlines of its
/// parts. Nothing is measured yet, and a time is told only where times are measured.
pub proof fn law_outlines_follow_patterns(
    left: QueryExpression,
    right: QueryExpression,
    algorithm: JoinAlgorithm,
    variables: Vec<Variable>,
    timed: bool,
)
    ensures
        left.outline(timed).label == left.label(),
        left.outline(timed).exec_count == 0,
        left.outline(timed).exec_duration is Some <==> timed,
        timed ==> left.outline(timed).exec_duration == Some(0i128),
        !(left is Join || left is Project) ==> left.outline(timed).children.len() == 0,
        ({
            let join = QueryExpression::Join {
                left: Box::new(left),
                right: Box::new(right),
                algorithm,
            };
            let children = join.outline(timed).children;
            children.len() == 2 && children[0] == left.outline(timed) && children[1]
                == right.outline(timed)
        }),
        ({
            let project = QueryExpression::Project { inner: Box::new(left), variables };
            let children = project.outline(timed).children;
            children.len() == 1 && children[0] == left.outline(timed)
        }),
{
}

}
