use oxlive::algebra::NamedNodePattern;
use oxlive::delta::{Delta, DeltaKind};
use oxlive::fx::{FxKey, FxMap};
use oxlive::graph_output::{solution_key, IncrementalGraphOutput};
use oxlive::model::{BlankNode, NamedNode, NamedOrBlankNode, Term, Text, Triple, Variable};
use oxlive::results::{count_solutions, IncrementalResultsOutput};
use oxlive::solution::QuerySolution;
use oxlive::solution_set::QuerySolutionSet;
use oxlive::tally::Tally;
use oxlive::template::{
    blank_nodes_to_draw, instantiate_template, instantiate_template_with, instantiate_term,
    TermTemplate, TripleTemplate,
};
use std::sync::Arc;

fn text(value: &str) -> Text {
    Text::new(value.as_bytes().to_vec())
}

fn node(name: &str) -> NamedNode {
    NamedNode { iri: text(name) }
}

fn variable(name: &str) -> Variable {
    Variable { name: text(name) }
}

/// A solution of `x` and `y`; an empty name is no value.
fn solution(x: &str, y: &str) -> QuerySolution {
    let value = |name: &str| {
        if name.is_empty() {
            None
        } else {
            Some(Term::NamedNode(node(name)))
        }
    };
    QuerySolution::new(Arc::new(vec![variable("x"), variable("y")]), vec![value(x), value(y)])
}

fn thing(name: &str) -> TermTemplate {
    TermTemplate::NamedNode(node(name))
}

fn blank(label: &str) -> TermTemplate {
    TermTemplate::BlankNode(BlankNode::Named(text(label)))
}

fn of(name: &str) -> TermTemplate {
    TermTemplate::Variable(variable(name))
}

fn triple_template(subject: TermTemplate, predicate: &str, object: TermTemplate) -> TripleTemplate {
    TripleTemplate { subject, predicate: NamedNodePattern::NamedNode(node(predicate)), object }
}

fn fresh(triple: &Triple) -> u128 {
    match &triple.subject {
        NamedOrBlankNode::BlankNode(BlankNode::Anonymous(id)) => *id,
        _ => panic!("the subject is a fresh blank node"),
    }
}

#[test]
fn a_solution_gives_the_values_of_its_variables() {
    let first = solution("a", "");
    assert!(first.get(&variable("x")).unwrap().same(&Term::NamedNode(node("a"))));
    assert!(first.get(&variable("y")).is_none());
    assert!(first.get(&variable("z")).is_none());
    assert!(first.same_values(&solution("a", "")));
    assert!(!first.same_values(&solution("a", "b")));
    assert!(first.duplicate().same_values(&first));
    assert_eq!(first.key(), solution("a", "").key());
    assert_eq!(first.key(), solution_key(&first));
    assert_ne!(first.key(), solution("b", "").key());
    assert_ne!(solution("a", "").words(), solution("", "a").words());
}

#[test]
fn a_solution_set_counts_equal_solutions() {
    let mut set = QuerySolutionSet::new();
    set.insert(solution("a", "b"));
    set.insert(solution("a", "b"));
    set.insert(solution("c", "d"));
    set.remove_one(&solution("unknown", ""));
    let mut total: usize = 0;
    let mut iter = set.iter();
    let mut left: Vec<usize> = vec![];
    while let Some((_, remaining)) = iter.next() {
        total += 1;
        left.push(remaining);
    }
    assert_eq!(total, 3);
    set.remove_one(&solution("a", "b"));
    set.remove_one(&solution("c", "d"));
    set.remove_one(&solution("c", "d"));
    let mut iter = set.iter();
    assert!(iter.next().unwrap().0.same_values(&solution("a", "b")));
    assert!(iter.next().is_none());
}

#[test]
fn templates_take_the_values_of_variables() {
    let template: Vec<TripleTemplate> = vec![
        triple_template(of("x"), "p", of("y")),
        triple_template(thing("s"), "p", TermTemplate::Literal(Term::StringLiteral(text("o")))),
    ];
    let triples = instantiate_template(&template, &solution("a", "b"));
    assert_eq!(triples.len(), 2);
    assert!(triples[0].subject.same(&NamedOrBlankNode::NamedNode(node("a"))));
    assert!(triples[0].predicate.same(&node("p")));
    assert!(triples[0].object.same(&Term::NamedNode(node("b"))));
    assert!(triples[1].object.same(&Term::StringLiteral(text("o"))));
    let partial = instantiate_template(&template, &solution("a", ""));
    assert_eq!(partial.len(), 1);
    assert!(partial[0].subject.same(&NamedOrBlankNode::NamedNode(node("s"))));
}

#[test]
fn a_literal_is_no_subject_and_a_blank_node_no_predicate() {
    let literal = Some(Term::StringLiteral(text("x")));
    let bnode = Some(Term::BlankNode(BlankNode::Anonymous(1)));
    let values = QuerySolution::new(Arc::new(vec![variable("x"), variable("y")]), vec![literal, bnode]);
    let wrong: Vec<TripleTemplate> = vec![
        triple_template(of("x"), "p", thing("o")),
        TripleTemplate {
            subject: thing("s"),
            predicate: NamedNodePattern::Variable(variable("y")),
            object: thing("o"),
        },
    ];
    assert_eq!(instantiate_template(&wrong, &values).len(), 0);
    let right: Vec<TripleTemplate> = vec![triple_template(of("y"), "p", of("x"))];
    assert_eq!(instantiate_template(&right, &values).len(), 1);
    let predicate: Vec<TripleTemplate> = vec![TripleTemplate {
        subject: thing("s"),
        predicate: NamedNodePattern::Variable(variable("x")),
        object: thing("o"),
    }];
    let found = instantiate_template(&predicate, &solution("q", ""));
    assert!(found[0].predicate.same(&node("q")));
}

#[test]
fn a_blank_node_of_a_template_is_new_in_each_solution() {
    let template: Vec<TripleTemplate> = vec![
        triple_template(blank("b"), "p", of("x")),
        triple_template(blank("b"), "q", of("y")),
        triple_template(blank("c"), "q", of("y")),
    ];
    let first = instantiate_template(&template, &solution("a", "b"));
    let second = instantiate_template(&template, &solution("a", "b"));
    assert_eq!(fresh(&first[0]), fresh(&first[1]));
    assert_ne!(fresh(&first[0]), fresh(&first[2]));
    assert_ne!(fresh(&first[0]), fresh(&second[0]));
}

#[test]
fn a_term_is_instantiated_once_per_naming() {
    let mut naming: FxMap<BlankNode, BlankNode> = FxMap::new();
    naming.insert(BlankNode::Named(text("b")), BlankNode::Anonymous(7));
    let first = instantiate_term(&blank("b"), &solution("", ""), &naming).unwrap();
    let second = instantiate_term(&blank("b"), &solution("", ""), &naming).unwrap();
    assert!(first.same(&second));
    assert!(first.same(&Term::BlankNode(BlankNode::Anonymous(7))));
    assert!(instantiate_term(&of("x"), &solution("", "a"), &naming).is_none());
}

#[test]
fn blank_nodes_get_their_numbers_in_the_order_in_which_they_are_met() {
    let template: Vec<TripleTemplate> = vec![
        triple_template(of("y"), "p", blank("unmet")),
        triple_template(blank("b"), "p", blank("a")),
        triple_template(blank("a"), "p", blank("b")),
    ];
    let values = solution("x", "");
    let nodes = blank_nodes_to_draw(&template, &values);
    let labels = vec![BlankNode::Named(text("b")), BlankNode::Named(text("a"))];
    assert_eq!(nodes.len(), 2);
    assert!(nodes.iter().zip(&labels).all(|(found, label)| FxKey::same(found, label)));
    let triples = instantiate_template_with(&template, &values, &vec![11, 12]);
    assert_eq!(triples.len(), 2);
    assert_eq!((fresh(&triples[0]), fresh(&triples[1])), (11, 12));
    assert!(triples[0].object.same(&Term::BlankNode(BlankNode::Anonymous(12))));
    assert!(triples[1].object.same(&Term::BlankNode(BlankNode::Anonymous(11))));
}

#[test]
fn numbers_that_are_drawn_begin_with_a_letter() {
    let template = vec![triple_template(blank("b"), "p", thing("o"))];
    for _ in 0..20 {
        let triples = instantiate_template(&template, &solution("", ""));
        let number = format!("{:x}", fresh(&triples[0]));
        assert!(matches!(number.as_bytes()[0], b'a'..=b'f'));
    }
}

fn signs(changes: &Vec<Delta<Triple>>) -> (usize, usize) {
    let added = changes.iter().filter(|change| change.kind() == DeltaKind::Addition).count();
    (added, changes.len() - added)
}

#[test]
fn a_graph_has_the_triples_that_some_solution_gives() {
    let mut output = IncrementalGraphOutput::new(vec![triple_template(of("x"), "p", thing("o"))]);
    let batch = vec![Delta::addition(solution("a", "1")), Delta::addition(solution("a", "2"))];
    assert_eq!(signs(&output.apply(batch)), (1, 0));
    assert_eq!(output.triples().len(), 1);
    let batch = vec![Delta::deletion(solution("a", "1")), Delta::addition(solution("b", "1"))];
    assert_eq!(signs(&output.apply(batch)), (1, 0));
    assert_eq!(output.triples().len(), 2);
    assert_eq!(signs(&output.apply(vec![Delta::deletion(solution("a", "2"))])), (0, 1));
    assert_eq!(signs(&output.apply(vec![Delta::deletion(solution("unknown", "2"))])), (0, 0));
    let there_and_back = vec![Delta::addition(solution("c", "")), Delta::deletion(solution("c", ""))];
    assert_eq!(signs(&output.apply(there_and_back)), (0, 0));
    assert_eq!(output.triples().len(), 1);
}

#[test]
fn a_deleted_solution_takes_its_own_blank_nodes_along() {
    let mut output = IncrementalGraphOutput::new(vec![triple_template(blank("b"), "p", of("x"))]);
    let added = output.apply(vec![Delta::addition(solution("a", ""))]);
    let made = fresh(added[0].value());
    let deleted = output.apply(vec![Delta::deletion(solution("a", ""))]);
    assert_eq!(deleted[0].kind(), DeltaKind::Deletion);
    assert_eq!(fresh(deleted[0].value()), made);
    assert_eq!(output.triples().len(), 0);
}

#[test]
fn outputs_tell_whether_there_were_changes() {
    let mut solutions = IncrementalResultsOutput::Solutions {
        variables: Arc::new(vec![variable("x"), variable("y")]),
        current: QuerySolutionSet::new(),
    };
    assert!(!solutions.apply_changes(vec![]));
    assert!(solutions.apply_changes(vec![Delta::addition(solution("a", "b"))]));
    let mut answer = IncrementalResultsOutput::Boolean { solution_count: Tally::new() };
    assert!(answer.apply_changes(vec![Delta::addition(solution("a", "b"))]));
    assert!(answer.apply_changes(vec![Delta::addition(solution("a", "c"))]));
    assert!(answer.apply_changes(vec![Delta::deletion(solution("a", "c"))]));
    assert!(!answer.apply_changes(vec![]));
    assert!(answer.apply_changes(vec![Delta::deletion(solution("a", "b"))]));
    let template = vec![triple_template(thing("s"), "p", of("x"))];
    let mut graph = IncrementalResultsOutput::Graph(IncrementalGraphOutput::new(template));
    assert!(graph.apply_changes(vec![Delta::addition(solution("a", "b"))]));
    assert!(graph.apply_changes(vec![Delta::addition(solution("a", "c"))]));
    assert!(!graph.apply_changes(vec![]));
    let mut count = Tally::new();
    count_solutions(
        &mut count,
        &vec![
            Delta::addition(solution("a", "")),
            Delta::addition(solution("b", "")),
            Delta::deletion(solution("a", "")),
        ],
    );
    assert_eq!(count.count(), 1);
}
