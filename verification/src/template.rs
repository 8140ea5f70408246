//! Templates of triples, and the triples that solutions give.

use crate::bag::{
    concat, count, filter_map, is, lemma_count, lemma_filter_map_contains, lemma_filter_map_push,
    lemma_weight_add,
};
use crate::fx::{FxKey, FxMap};
use crate::graphs::{each_once, lemma_each_once};
use crate::model::{
    BlankNode, BlankNodeView, NamedNode, NamedOrBlankNode, Term, TermView, Triple, TripleView,
    Variable,
};
use crate::algebra::NamedNodePattern;
use crate::solution::{law_values_stand_where_their_variables_stand, value_of, QuerySolution};
use vstd::prelude::*;

verus! {

/// A term of a template.
pub enum TermTemplate {
    NamedNode(NamedNode),
    BlankNode(BlankNode),
    Literal(Term),
    Variable(Variable),
}

/// A template of a triple.
pub struct TripleTemplate {
    pub subject: TermTemplate,
    pub predicate: NamedNodePattern,
    pub object: TermTemplate,
}

/// The first digit of a number that is written with base 16.
pub open spec fn first_digit(number: nat) -> nat
    decreases number,
{
    if number < 16 {
        number
    } else {
        first_digit(number / 16)
    }
}

/// Whether a number is one that a new blank node may have: written with base 16 it begins
/// with a letter.
pub open spec fn drawable(id: u128) -> bool {
    first_digit(id as nat) >= 10
}

/// `oxrdf::BlankNode::default`: a new blank node. It has a number, which is random; the
/// number begins with a letter when it is written with base 16, and nothing else is claimed
/// of it.
#[verifier::external_body]
fn fresh_blank_node() -> (id: Option<u128>)
    ensures
        id matches Some(id) && drawable(id),
{
    oxrdf::BlankNode::default().as_ref().unique_id()
}

/// What the blank nodes of a template stand for.
pub type Naming = Map<BlankNodeView, BlankNodeView>;

/// The term of a template for a solution.
pub open spec fn term_instance(
    template: TermTemplate,
    variables: Seq<Seq<u8>>,
    values: Seq<Option<TermView>>,
    naming: Naming,
) -> Option<TermView> {
    match template {
        TermTemplate::NamedNode(node) => Some(TermView::NamedNode(node@)),
        TermTemplate::BlankNode(node) => Some(TermView::BlankNode(naming[node@])),
        TermTemplate::Literal(term) => Some(term@),
        TermTemplate::Variable(variable) => value_of(variables, values, variable@),
    }
}

/// The predicate of a template for a solution.
pub open spec fn predicate_instance(
    template: NamedNodePattern,
    variables: Seq<Seq<u8>>,
    values: Seq<Option<TermView>>,
) -> Option<Seq<u8>> {
    match template {
        NamedNodePattern::NamedNode(node) => Some(node@),
        NamedNodePattern::Variable(variable) => match value_of(variables, values, variable@) {
            Some(TermView::NamedNode(iri)) => Some(iri),
            _ => None,
        },
    }
}

/// Whether a term can be a subject.
pub open spec fn is_node(term: TermView) -> bool {
    term is NamedNode || term is BlankNode
}

/// The triple of a template for a solution, if there is one.
pub open spec fn triple_instance(
    variables: Seq<Seq<u8>>,
    values: Seq<Option<TermView>>,
    naming: Naming,
) -> spec_fn(TripleTemplate) -> Option<TripleView> {
    |template: TripleTemplate|
        match (
            term_instance(template.subject, variables, values, naming),
            predicate_instance(template.predicate, variables, values),
            term_instance(template.object, variables, values, naming),
        ) {
            (Some(subject), Some(predicate), Some(object)) => if is_node(subject) {
                Some(TripleView { subject, predicate, object })
            } else {
                None
            },
            _ => None,
        }
}

/// The triples of templates for a solution.
pub open spec fn triple_instances(
    templates: Seq<TripleTemplate>,
    variables: Seq<Seq<u8>>,
    values: Seq<Option<TermView>>,
    naming: Naming,
) -> Seq<TripleView> {
    filter_map(templates, triple_instance(variables, values, naming))
}

/// The views of triples.
pub open spec fn triple_views(triples: Seq<Triple>) -> Seq<TripleView> {
    triples.map_values(|triple: Triple| triple@)
}

/// The blank node of a term of a template, if it is one.
pub open spec fn blank_node_of(template: TermTemplate) -> Seq<BlankNodeView> {
    match template {
        TermTemplate::BlankNode(node) => seq![node@],
        _ => Seq::empty(),
    }
}

/// Whether a term of a template gives a term for a solution.
pub open spec fn gives_term(
    template: TermTemplate,
    variables: Seq<Seq<u8>>,
    values: Seq<Option<TermView>>,
) -> bool {
    template matches TermTemplate::Variable(variable) ==> value_of(
        variables,
        values,
        variable@,
    ) is Some
}

/// The blank nodes of a template that are looked at for a solution: that of the object only
/// where there are a subject and a predicate.
pub open spec fn looked_at(
    variables: Seq<Seq<u8>>,
    values: Seq<Option<TermView>>,
) -> spec_fn(TripleTemplate) -> Seq<BlankNodeView> {
    |template: TripleTemplate|
        if gives_term(template.subject, variables, values) && predicate_instance(
            template.predicate,
            variables,
            values,
        ) is Some {
            blank_node_of(template.subject) + blank_node_of(template.object)
        } else {
            blank_node_of(template.subject)
        }
}

/// The blank nodes of templates that are looked at for a solution, each once, in the order
/// in which they are met.
pub open spec fn met(
    templates: Seq<TripleTemplate>,
    variables: Seq<Seq<u8>>,
    values: Seq<Option<TermView>>,
) -> Seq<BlankNodeView> {
    each_once(concat(templates, looked_at(variables, values)))
}

/// What blank nodes stand for, if the k-th of them stands for the k-th number.
pub open spec fn numbered(nodes: Seq<BlankNodeView>, ids: Seq<u128>) -> Naming {
    Map::new(
        |node: BlankNodeView| nodes.contains(node),
        |node: BlankNodeView| BlankNodeView::Anonymous(ids[nodes.index_of(node)]),
    )
}

/// The triples of templates for a solution, if the k-th blank node that is met stands for
/// the one with the k-th number.
pub open spec fn numbered_instances(
    templates: Seq<TripleTemplate>,
    variables: Seq<Seq<u8>>,
    values: Seq<Option<TermView>>,
    ids: Seq<u128>,
) -> Seq<TripleView> {
    triple_instances(
        templates,
        variables,
        values,
        numbered(met(templates, variables, values), ids),
    )
}

/// Whether these are as many numbers of new blank nodes as are wanted.
pub open spec fn drawn(ids: Seq<u128>, wanted: nat) -> bool {
    &&& ids.len() == wanted
    &&& forall|i: int| 0 <= i < ids.len() ==> drawable(#[trigger] ids[i])
}

/// Whether triples are those of templates for a solution, with a new blank node for each
/// blank node of the templates that is met.
pub open spec fn instantiates(
    triples: Seq<TripleView>,
    templates: Seq<TripleTemplate>,
    variables: Seq<Seq<u8>>,
    values: Seq<Option<TermView>>,
) -> bool {
    exists|ids: Seq<u128>|
        drawn(ids, met(templates, variables, values).len()) && triples
            == #[trigger] numbered_instances(templates, variables, values, ids)
}

/// A solution fills a template with its own values: a template whose variables are all bound
/// gives the triple that has the values of the variables in their places, whatever kinds of
/// terms they are, and the terms of the template in the other ones; if its subject can be one
/// and its predicate is a named node.
pub proof fn law_templates_are_filled_with_values(
    templates: Seq<TripleTemplate>,
    variables: Seq<Seq<u8>>,
    values: Seq<Option<TermView>>,
    naming: Naming,
    k: int,
    subject: TermView,
    predicate: Seq<u8>,
    object: TermView,
)
    requires
        variables.no_duplicates(),
        0 <= k < templates.len(),
        subject is NamedNode || subject is BlankNode,
        match templates[k].subject {
            TermTemplate::NamedNode(node) => subject == TermView::NamedNode(node@),
            TermTemplate::BlankNode(node) => naming.contains_key(node@) && subject
                == TermView::BlankNode(naming[node@]),
            TermTemplate::Literal(term) => subject == term@,
            TermTemplate::Variable(variable) => exists|i: int|
                0 <= i < variables.len() && i < values.len() && (#[trigger] variables[i])
                    == variable@ && values[i] == Some(subject),
        },
        match templates[k].predicate {
            NamedNodePattern::NamedNode(node) => predicate == node@,
            NamedNodePattern::Variable(variable) => exists|i: int|
                0 <= i < variables.len() && i < values.len() && (#[trigger] variables[i])
                    == variable@ && values[i] == Some(TermView::NamedNode(predicate)),
        },
        match templates[k].object {
            TermTemplate::NamedNode(node) => object == TermView::NamedNode(node@),
            TermTemplate::BlankNode(node) => naming.contains_key(node@) && object
                == TermView::BlankNode(naming[node@]),
            TermTemplate::Literal(term) => object == term@,
            TermTemplate::Variable(variable) => exists|i: int|
                0 <= i < variables.len() && i < values.len() && (#[trigger] variables[i])
                    == variable@ && values[i] == Some(object),
        },
    ensures
        triple_instances(templates, variables, values, naming).contains(
            TripleView { subject, predicate, object },
        ),
{
    lemma_filled(templates[k], variables, values, naming, subject, predicate, object);
    lemma_filter_map_contains(
        templates,
        triple_instance(variables, values, naming),
        TripleView { subject, predicate, object },
    );
}

proof fn lemma_filled(
    template: TripleTemplate,
    variables: Seq<Seq<u8>>,
    values: Seq<Option<TermView>>,
    naming: Naming,
    subject: TermView,
    predicate: Seq<u8>,
    object: TermView,
)
    requires
        variables.no_duplicates(),
        subject is NamedNode || subject is BlankNode,
        match template.subject {
            TermTemplate::NamedNode(node) => subject == TermView::NamedNode(node@),
            TermTemplate::BlankNode(node) => naming.contains_key(node@) && subject
                == TermView::BlankNode(naming[node@]),
            TermTemplate::Literal(term) => subject == term@,
            TermTemplate::Variable(variable) => exists|i: int|
                0 <= i < variables.len() && i < values.len() && (#[trigger] variables[i])
                    == variable@ && values[i] == Some(subject),
        },
        match template.predicate {
            NamedNodePattern::NamedNode(node) => predicate == node@,
            NamedNodePattern::Variable(variable) => exists|i: int|
                0 <= i < variables.len() && i < values.len() && (#[trigger] variables[i])
                    == variable@ && values[i] == Some(TermView::NamedNode(predicate)),
        },
        match template.object {
            TermTemplate::NamedNode(node) => object == TermView::NamedNode(node@),
            TermTemplate::BlankNode(node) => naming.contains_key(node@) && object
                == TermView::BlankNode(naming[node@]),
            TermTemplate::Literal(term) => object == term@,
            TermTemplate::Variable(variable) => exists|i: int|
                0 <= i < variables.len() && i < values.len() && (#[trigger] variables[i])
                    == variable@ && values[i] == Some(object),
        },
    ensures
        triple_instance(variables, values, naming)(template) == Some(
            TripleView { subject, predicate, object },
        ),
{
    if let TermTemplate::Variable(variable) = template.subject {
        law_values_stand_where_their_variables_stand(variables, values, variable@);
    }
    if let NamedNodePattern::Variable(variable) = template.predicate {
        law_values_stand_where_their_variables_stand(variables, values, variable@);
    }
    if let TermTemplate::Variable(variable) = template.object {
        law_values_stand_where_their_variables_stand(variables, values, variable@);
    }
}

/// Every triple that a solution gives is that of a template, with the values of the solution
/// in the places of the variables. A template without a triple has a variable that is not
/// bound, or not to a term that can stand there.
pub proof fn law_triples_come_from_templates(
    templates: Seq<TripleTemplate>,
    variables: Seq<Seq<u8>>,
    values: Seq<Option<TermView>>,
    naming: Naming,
    triple: TripleView,
)
    requires
        triple_instances(templates, variables, values, naming).contains(triple),
    ensures
        triple.subject is NamedNode || triple.subject is BlankNode,
        exists|k: int|
            #![trigger templates[k]]
            {
                &&& 0 <= k < templates.len()
                &&& match templates[k].subject {
                    TermTemplate::NamedNode(node) => triple.subject == TermView::NamedNode(node@),
                    TermTemplate::BlankNode(node) => triple.subject
                        == TermView::BlankNode(naming[node@]),
                    TermTemplate::Literal(term) => triple.subject == term@,
                    TermTemplate::Variable(variable) => exists|i: int|
                        0 <= i < variables.len() && i < values.len() && (#[trigger] variables[i])
                            == variable@ && values[i] == Some(triple.subject),
                }
                &&& match templates[k].predicate {
                    NamedNodePattern::NamedNode(node) => triple.predicate == node@,
                    NamedNodePattern::Variable(variable) => exists|i: int|
                        0 <= i < variables.len() && i < values.len() && (#[trigger] variables[i])
                            == variable@ && values[i] == Some(TermView::NamedNode(triple.predicate)),
                }
                &&& match templates[k].object {
                    TermTemplate::NamedNode(node) => triple.object == TermView::NamedNode(node@),
                    TermTemplate::BlankNode(node) => triple.object
                        == TermView::BlankNode(naming[node@]),
                    TermTemplate::Literal(term) => triple.object == term@,
                    TermTemplate::Variable(variable) => exists|i: int|
                        0 <= i < variables.len() && i < values.len() && (#[trigger] variables[i])
                            == variable@ && values[i] == Some(triple.object),
                }
            },
{
    let f = triple_instance(variables, values, naming);
    lemma_filter_map_contains(templates, f, triple);
    let k = choose|k: int| 0 <= k < templates.len() && f(#[trigger] templates[k]) == Some(triple);
    let template = templates[k];
    if let TermTemplate::Variable(variable) = template.subject {
        law_values_stand_where_their_variables_stand(variables, values, variable@);
    }
    if let NamedNodePattern::Variable(variable) = template.predicate {
        law_values_stand_where_their_variables_stand(variables, values, variable@);
    }
    if let TermTemplate::Variable(variable) = template.object {
        law_values_stand_where_their_variables_stand(variables, values, variable@);
    }
}

/// Templates are filled one by one, each with at most one triple.
pub proof fn law_templates_are_filled_one_by_one(
    templates: Seq<TripleTemplate>,
    more: Seq<TripleTemplate>,
    template: TripleTemplate,
    variables: Seq<Seq<u8>>,
    values: Seq<Option<TermView>>,
    naming: Naming,
)
    ensures
        triple_instances(templates + more, variables, values, naming) == triple_instances(
            templates,
            variables,
            values,
            naming,
        ) + triple_instances(more, variables, values, naming),
        triple_instances(seq![template], variables, values, naming).len() <= 1,
    decreases more.len(),
{
    let f = triple_instance(variables, values, naming);
    assert(seq![template].drop_last() =~= Seq::<TripleTemplate>::empty());
    assert(filter_map(seq![template].drop_last(), f).len() == 0);
    if more.len() == 0 {
        assert(templates + more =~= templates);
        assert(filter_map(more, f) =~= Seq::empty());
    } else {
        law_templates_are_filled_one_by_one(
            templates,
            more.drop_last(),
            template,
            variables,
            values,
            naming,
        );
        assert((templates + more).drop_last() =~= templates + more.drop_last());
    }
    assert(filter_map(templates + more, f) =~= filter_map(templates, f) + filter_map(more, f));
}

/// The triples of a solution are those of the templates, with a new blank node for each blank
/// node of the templates: one that is met twice stands for the same blank node both times.
pub proof fn law_new_blank_nodes_stand_for_those_of_templates(
    triples: Seq<TripleView>,
    templates: Seq<TripleTemplate>,
    variables: Seq<Seq<u8>>,
    values: Seq<Option<TermView>>,
)
    requires
        instantiates(triples, templates, variables, values),
    ensures
        exists|naming: Naming|
            {
                &&& triples == #[trigger] triple_instances(templates, variables, values, naming)
                &&& forall|node: BlankNodeView| #[trigger]
                    naming.contains_key(node) ==> (naming[node] matches BlankNodeView::Anonymous(id)
                        && drawable(id))
                &&& forall|k: int|
                    0 <= k < templates.len() ==> ((#[trigger] templates[k]).subject matches
                        TermTemplate::BlankNode(node) ==> naming.contains_key(node@))
                &&& forall|k: int|
                    0 <= k < templates.len() && triple_instance(variables, values, naming)(
                        #[trigger] templates[k],
                    ) is Some ==> (templates[k].object matches TermTemplate::BlankNode(node)
                        ==> naming.contains_key(node@))
            },
{
    let nodes = met(templates, variables, values);
    let ids = choose|ids: Seq<u128>|
        drawn(ids, nodes.len()) && triples == #[trigger] numbered_instances(
            templates,
            variables,
            values,
            ids,
        );
    let naming = numbered(nodes, ids);
    let f = looked_at(variables, values);
    assert forall|node: BlankNodeView| #[trigger]
        naming.contains_key(node) implies (naming[node] matches BlankNodeView::Anonymous(id)
        && drawable(id)) by {
        let i = nodes.index_of(node);
        assert(0 <= i < nodes.len() && nodes[i] == node);
        assert(drawable(ids[i]));
    }
    assert forall|k: int| 0 <= k < templates.len() implies ((#[trigger] templates[k]).subject
        matches TermTemplate::BlankNode(node) ==> naming.contains_key(node@)) by {
        if let TermTemplate::BlankNode(node) = templates[k].subject {
            assert(f(templates[k])[0] == node@);
            lemma_met(templates, variables, values, k, node@);
        }
    }
    assert forall|k: int|
        0 <= k < templates.len() && triple_instance(variables, values, naming)(
            #[trigger] templates[k],
        ) is Some implies (templates[k].object matches TermTemplate::BlankNode(node)
        ==> naming.contains_key(node@)) by {
        if let TermTemplate::BlankNode(node) = templates[k].object {
            let list = f(templates[k]);
            assert(list[list.len() - 1] == node@);
            lemma_met(templates, variables, values, k, node@);
        }
    }
    assert(triples == triple_instances(templates, variables, values, naming));
}

/// The blank nodes that are met are all different, and the k-th of them stands for the one
/// with the k-th number.
pub proof fn law_blank_nodes_are_numbered_in_order(
    templates: Seq<TripleTemplate>,
    variables: Seq<Seq<u8>>,
    values: Seq<Option<TermView>>,
    ids: Seq<u128>,
    k: int,
)
    requires
        0 <= k < met(templates, variables, values).len(),
    ensures
        met(templates, variables, values).no_duplicates(),
        numbered(met(templates, variables, values), ids).contains_key(
            met(templates, variables, values)[k],
        ),
        numbered(met(templates, variables, values), ids)[met(templates, variables, values)[k]]
            == BlankNodeView::Anonymous(ids[k]),
{
    let nodes = met(templates, variables, values);
    lemma_each_once_distinct(concat(templates, looked_at(variables, values)));
    assert(nodes.contains(nodes[k]));
    assert(nodes.index_of(nodes[k]) == k);
}

/// The views of blank nodes.
pub open spec fn node_views(nodes: Seq<BlankNode>) -> Seq<BlankNodeView> {
    nodes.map_values(|node: BlankNode| node@)
}

/// Notes a term of a template that is looked at, if it is a blank node that was not met yet.
fn note_blank_node(
    template: &TermTemplate,
    nodes: &mut Vec<BlankNode>,
    Ghost(list): Ghost<Seq<BlankNodeView>>,
)
    requires
        node_views(old(nodes)@) == each_once(list),
    ensures
        node_views(final(nodes)@) == each_once(list + blank_node_of(*template)),
{
    let ghost known = node_views(nodes@);
    if let TermTemplate::BlankNode(node) = template {
        assert((list + seq![node@]).drop_last() =~= list);
        let mut next: usize = 0;
        while next < nodes.len()
            invariant
                known == node_views(nodes@),
                known == each_once(list),
                (list + seq![node@]).drop_last() == list,
                *template == TermTemplate::BlankNode(*node),
                nodes == old(nodes),
                next <= nodes@.len(),
                forall|i: int| 0 <= i < next ==> known[i] != node@,
            decreases nodes@.len() - next,
        {
            if FxKey::same(&nodes[next], node) {
                assert(known[next as int] == node@);
                assert(known.contains(node@));
                return ;
            }
            next = next + 1;
        }
        assert(!known.contains(node@));
        nodes.push(FxKey::duplicate(node));
        assert(node_views(nodes@) =~= known.push(node@));
    } else {
        assert(list + blank_node_of(*template) =~= list);
    }
}

/// The predicate of a template for a solution, if there is one.
fn instantiate_predicate(template: &NamedNodePattern, solution: &QuerySolution) -> (predicate:
    Option<NamedNode>)
    ensures
        match predicate {
            Some(node) => predicate_instance(*template, solution.names(), solution@) == Some(
                node@,
            ),
            None => predicate_instance(*template, solution.names(), solution@) is None,
        },
{
    match template {
        NamedNodePattern::NamedNode(node) => Some(node.duplicate()),
        NamedNodePattern::Variable(variable) => match solution.get(variable) {
            Some(Term::NamedNode(node)) => Some(node.duplicate()),
            _ => None,
        },
    }
}

/// The blank nodes of templates that are looked at for a solution, in the order in which they
/// are met.
pub fn blank_nodes_to_draw(template: &Vec<TripleTemplate>, solution: &QuerySolution) -> (nodes: Vec<
    BlankNode,
>)
    ensures
        node_views(nodes@) == met(template@, solution.names(), solution@),
{
    let ghost f = looked_at(solution.names(), solution@);
    let ghost all = template@;
    let mut nodes: Vec<BlankNode> = Vec::new();
    let mut next: usize = 0;
    proof {
        assert(all.take(0) =~= Seq::empty());
        assert(concat(all.take(0), f) =~= Seq::empty());
        assert(node_views(nodes@) =~= each_once(concat(all.take(0), f)));
    }
    while next < template.len()
        invariant
            f == looked_at(solution.names(), solution@),
            all == template@,
            next <= all.len(),
            node_views(nodes@) == each_once(concat(all.take(next as int), f)),
        decreases all.len() - next,
    {
        let ghost list = concat(all.take(next as int), f);
        let item = &template[next];
        note_blank_node(&item.subject, &mut nodes, Ghost(list));
        let has_subject = match &item.subject {
            TermTemplate::Variable(variable) => solution.get(variable).is_some(),
            _ => true,
        };
        if has_subject && instantiate_predicate(&item.predicate, solution).is_some() {
            note_blank_node(
                &item.object,
                &mut nodes,
                Ghost(list + blank_node_of(item.subject)),
            );
        }
        next = next + 1;
        proof {
            assert(all.take(next as int).drop_last() =~= all.take(next - 1));
            assert(all.take(next as int).last() == *item);
            assert((list + blank_node_of(item.subject)) + blank_node_of(item.object) =~= list + (
            blank_node_of(item.subject) + blank_node_of(item.object)));
            assert(concat(all.take(next as int), f) == list + f(*item));
        }
    }
    assert(all.take(next as int) =~= all);
    nodes
}

/// What blank nodes stand for, by their views.
pub open spec fn naming_of(bnodes: Map<BlankNodeView, BlankNode>) -> Naming {
    Map::new(|node: BlankNodeView| bnodes.contains_key(node), |node: BlankNodeView| bnodes[node]@)
}

/// The term of a template for a solution. `bnodes` tells what the blank nodes stand for.
pub fn instantiate_term(
    template: &TermTemplate,
    solution: &QuerySolution,
    bnodes: &FxMap<BlankNode, BlankNode>,
) -> (term: Option<Term>)
    requires
        bnodes.wf(),
        template matches TermTemplate::BlankNode(node) ==> bnodes@.contains_key(node@),
    ensures
        match term {
            Some(term) => term_instance(
                *template,
                solution.names(),
                solution@,
                naming_of(bnodes@),
            ) == Some(term@),
            None => term_instance(
                *template,
                solution.names(),
                solution@,
                naming_of(bnodes@),
            ) is None,
        },
{
    match template {
        TermTemplate::NamedNode(node) => Some(Term::NamedNode(node.duplicate())),
        TermTemplate::BlankNode(node) => match bnodes.get(node) {
            Some(known) => Some(Term::BlankNode(FxKey::duplicate(known))),
            None => None,
        },
        TermTemplate::Literal(term) => Some(term.duplicate()),
        TermTemplate::Variable(variable) => match solution.get(variable) {
            Some(term) => Some(term.duplicate()),
            None => None,
        },
    }
}

/// The triple of a template for a solution, if there is one.
fn instantiate_triple(
    template: &TripleTemplate,
    solution: &QuerySolution,
    bnodes: &FxMap<BlankNode, BlankNode>,
) -> (triple: Option<Triple>)
    requires
        bnodes.wf(),
        forall|node: BlankNodeView| #[trigger]
            looked_at(solution.names(), solution@)(*template).contains(node)
                ==> bnodes@.contains_key(node),
    ensures
        match triple {
            Some(triple) => triple_instance(solution.names(), solution@, naming_of(bnodes@))(
                *template,
            ) == Some(triple@),
            None => triple_instance(solution.names(), solution@, naming_of(bnodes@))(
                *template,
            ) is None,
        },
{
    let ghost nodes = looked_at(solution.names(), solution@)(*template);
    proof {
        if let TermTemplate::BlankNode(node) = &template.subject {
            assert(nodes[0] == node@);
            assert(nodes.contains(node@));
        }
    }
    let subject = match instantiate_term(&template.subject, solution, bnodes) {
        Some(subject) => subject,
        None => {
            return None;
        },
    };
    let predicate = match instantiate_predicate(&template.predicate, solution) {
        Some(predicate) => predicate,
        None => {
            return None;
        },
    };
    proof {
        if let TermTemplate::BlankNode(node) = &template.object {
            assert(nodes[nodes.len() - 1] == node@);
            assert(nodes.contains(node@));
        }
    }
    let object = match instantiate_term(&template.object, solution, bnodes) {
        Some(object) => object,
        None => {
            return None;
        },
    };
    let subject = match subject {
        Term::NamedNode(node) => NamedOrBlankNode::NamedNode(node),
        Term::BlankNode(node) => NamedOrBlankNode::BlankNode(node),
        _ => {
            return None;
        },
    };
    Some(Triple { subject, predicate, object })
}

/// What is looked at for one of the templates is looked at for all of them.
proof fn lemma_met(
    templates: Seq<TripleTemplate>,
    variables: Seq<Seq<u8>>,
    values: Seq<Option<TermView>>,
    at: int,
    node: BlankNodeView,
)
    requires
        0 <= at < templates.len(),
        looked_at(variables, values)(templates[at]).contains(node),
    ensures
        met(templates, variables, values).contains(node),
{
    let f = looked_at(variables, values);
    let all = concat(templates, f);
    lemma_count(f(templates[at]), node);
    lemma_concat_part(templates, f, at, node);
    lemma_each_once(all, node);
    lemma_count(each_once(all), node);
}

/// What occurs in a part occurs in the whole.
proof fn lemma_concat_part(
    templates: Seq<TripleTemplate>,
    f: spec_fn(TripleTemplate) -> Seq<BlankNodeView>,
    at: int,
    node: BlankNodeView,
)
    requires
        0 <= at < templates.len(),
        count(f(templates[at]), node) > 0,
    ensures
        count(concat(templates, f), node) > 0,
    decreases templates.len(),
{
    let front = templates.drop_last();
    lemma_weight_add(concat(front, f), f(templates.last()), is(node));
    lemma_count(concat(front, f), node);
    lemma_count(f(templates.last()), node);
    if at < front.len() {
        assert(front[at] == templates[at]);
        lemma_concat_part(front, f, at, node);
    }
}

/// Nodes that occur once are found where they are.
proof fn lemma_each_once_distinct<T>(items: Seq<T>)
    ensures
        each_once(items).no_duplicates(),
    decreases items.len(),
{
    if items.len() > 0 {
        lemma_each_once_distinct(items.drop_last());
    }
}

/// The triples of templates for a solution, if the k-th blank node of the templates that is
/// met stands for the one with the k-th number.
pub fn instantiate_template_with(
    template: &Vec<TripleTemplate>,
    solution: &QuerySolution,
    ids: &Vec<u128>,
) -> (triples: Vec<Triple>)
    requires
        ids@.len() == met(template@, solution.names(), solution@).len(),
    ensures
        triple_views(triples@) == numbered_instances(
            template@,
            solution.names(),
            solution@,
            ids@,
        ),
{
    let ghost variables = solution.names();
    let ghost values = solution@;
    let ghost all = template@;
    let nodes = blank_nodes_to_draw(template, solution);
    let ghost known = node_views(nodes@);
    let mut bnodes: FxMap<BlankNode, BlankNode> = FxMap::new();
    let mut next: usize = 0;
    proof {
        lemma_each_once_distinct(concat(all, looked_at(variables, values)));
    }
    while next < nodes.len()
        invariant
            bnodes.wf(),
            known == node_views(nodes@),
            known.no_duplicates(),
            ids@.len() == known.len(),
            next <= known.len(),
            forall|node: BlankNodeView| #[trigger]
                bnodes@.contains_key(node) <==> known.take(next as int).contains(node),
            forall|i: int| 0 <= i < next ==> bnodes@[#[trigger] known[i]]
                == BlankNode::Anonymous(ids@[i]),
        decreases known.len() - next,
    {
        let ghost before = bnodes@;
        let ghost node = known[next as int];
        bnodes.insert(FxKey::duplicate(&nodes[next]), BlankNode::Anonymous(ids[next]));
        next = next + 1;
        proof {
            let seen = known.take(next - 1);
            let more = known.take(next as int);
            assert(more =~= seen.push(node));
            assert forall|other: BlankNodeView| #[trigger]
                bnodes@.contains_key(other) <==> more.contains(other) by {
                assert(before.contains_key(other) <==> seen.contains(other));
                if seen.contains(other) {
                    let i = choose|i: int| 0 <= i < seen.len() && seen[i] == other;
                    assert(more[i] == other);
                }
                assert(more[seen.len() as int] == node);
                if more.contains(other) && other != node {
                    let i = choose|i: int| 0 <= i < more.len() && more[i] == other;
                    assert(seen[i] == other);
                }
            }
        }
    }
    proof {
        assert(known.take(next as int) =~= known);
        assert(naming_of(bnodes@) =~= numbered(known, ids@)) by {
            assert forall|node: BlankNodeView| #[trigger]
                naming_of(bnodes@).dom().contains(node) <==> numbered(
                    known,
                    ids@,
                ).dom().contains(node) by {
                assert(bnodes@.contains_key(node) <==> known.take(next as int).contains(node));
            }
            assert forall|node: BlankNodeView| #[trigger]
                naming_of(bnodes@).dom().contains(node) implies naming_of(bnodes@)[node]
                == numbered(known, ids@)[node] by {
                assert(bnodes@.contains_key(node) <==> known.take(next as int).contains(node));
                let i = known.index_of(node);
                assert(known[i] == node);
            }
        }
    }
    let ghost naming = naming_of(bnodes@);
    let ghost f = triple_instance(variables, values, naming);
    let mut triples: Vec<Triple> = Vec::new();
    let mut next: usize = 0;
    proof {
        assert(all.take(0) =~= Seq::empty());
        assert(triple_views(triples@) =~= filter_map(all.take(0), f));
    }
    while next < template.len()
        invariant
            bnodes.wf(),
            variables == solution.names(),
            values == solution@,
            all == template@,
            known == met(all, variables, values),
            forall|node: BlankNodeView| #[trigger]
                bnodes@.contains_key(node) <==> known.contains(node),
            f == triple_instance(variables, values, naming_of(bnodes@)),
            next <= all.len(),
            triple_views(triples@) == filter_map(all.take(next as int), f),
        decreases all.len() - next,
    {
        let ghost so_far = triple_views(triples@);
        let ghost seen = all.take(next as int);
        proof {
            assert forall|node: BlankNodeView| #[trigger]
                looked_at(variables, values)(all[next as int]).contains(
                    node,
                ) implies bnodes@.contains_key(node) by {
                lemma_met(all, variables, values, next as int, node);
            }
        }
        let triple = instantiate_triple(&template[next], solution, &bnodes);
        proof {
            lemma_filter_map_push(seen, all[next as int], f);
            assert(seen.push(all[next as int]) =~= all.take(next + 1));
        }
        if let Some(triple) = triple {
            triples.push(triple);
            assert(triple_views(triples@) =~= so_far.push(triple@));
        }
        next = next + 1;
    }
    assert(all.take(next as int) =~= all);
    triples
}

/// The numbers of new blank nodes.
fn draw(wanted: usize) -> (ids: Vec<u128>)
    ensures
        drawn(ids@, wanted as nat),
{
    let mut ids: Vec<u128> = Vec::new();
    while ids.len() < wanted
        invariant
            ids@.len() <= wanted,
            forall|i: int| 0 <= i < ids@.len() ==> drawable(#[trigger] ids@[i]),
        decreases wanted - ids@.len(),
    {
        if let Some(id) = fresh_blank_node() {
            ids.push(id);
        }
    }
    ids
}

/// The triples of templates for a solution, with a new blank node for each blank node of the
/// templates that is met.
pub fn instantiate_template(template: &Vec<TripleTemplate>, solution: &QuerySolution) -> (triples:
    Vec<Triple>)
    ensures
        instantiates(triple_views(triples@), template@, solution.names(), solution@),
{
    let nodes = blank_nodes_to_draw(template, solution);
    let ids = draw(nodes.len());
    let triples = instantiate_template_with(template, solution, &ids);
    assert(triple_views(triples@) == numbered_instances(
        template@,
        solution.names(),
        solution@,
        ids@,
    ));
    triples
}

} // verus!
