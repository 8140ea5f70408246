//! The dataset of a query: a view of a store, and the graphs that the query names.

use crate::bag::concat;
use crate::dataset::{brought, lemma_brought_add, DatasetView};
use crate::error::{CorruptionError, QueryEvaluationError, StorageError};
use crate::model::{GraphName, NamedOrBlankNode, Term, TermView};
use crate::numeric_encoder::{decoded, encoded, term_entries, EncodedTerm, StrHash};
use crate::opening::{at_start, lemma_opened_add, lemma_opened_none, lemma_opened_one, opened};
use crate::quad_stream::{QuadDeltas, QuadShape};
use crate::source::{InternalQuad, LiveQuadDeltaSource};
use crate::storage::Storage;
use crate::streams::Given;
use crate::subscription::IncrementalQuadPattern;
use vstd::prelude::*;

verus! {

/// The graphs that a query names as its default graph and as its named graphs.
pub struct QueryDatasetSpecification {
    pub default: Option<Vec<GraphName>>,
    pub named: Option<Vec<NamedOrBlankNode>>,
}

/// A graph name, encoded; `None` for the default graph.
pub open spec fn encoded_name() -> spec_fn(GraphName) -> Option<EncodedTerm> {
    |name: GraphName|
        match name@ {
            Some(term) => Some(encoded(term)),
            None => None,
        }
}

/// The strings of a graph name.
pub open spec fn name_entries() -> spec_fn(GraphName) -> Seq<(StrHash, Seq<u8>)> {
    |name: GraphName|
        match name@ {
            Some(term) => term_entries(term),
            None => Seq::empty(),
        }
}

pub open spec fn encoded_node() -> spec_fn(NamedOrBlankNode) -> EncodedTerm {
    |node: NamedOrBlankNode| encoded(node@)
}

pub open spec fn node_entries() -> spec_fn(NamedOrBlankNode) -> Seq<(StrHash, Seq<u8>)> {
    |node: NamedOrBlankNode| term_entries(node@)
}

impl QueryDatasetSpecification {
    /// The graphs that make up the default graph, encoded.
    pub open spec fn default_graphs(&self) -> Option<Seq<Option<EncodedTerm>>> {
        match self.default {
            Some(names) => Some(names@.map_values(encoded_name())),
            None => None,
        }
    }

    /// The named graphs, encoded.
    pub open spec fn named_graphs(&self) -> Option<Seq<EncodedTerm>> {
        match self.named {
            Some(nodes) => Some(nodes@.map_values(encoded_node())),
            None => None,
        }
    }

    /// The strings of the graph names.
    pub open spec fn entries(&self) -> Seq<(StrHash, Seq<u8>)> {
        (match self.default {
            Some(names) => concat(names@, name_entries()),
            None => Seq::empty(),
        }) + (match self.named {
            Some(nodes) => concat(nodes@, node_entries()),
            None => Seq::empty(),
        })
    }
}

/// The graphs to read, each as a pattern asks for it, and what becomes of their quads.
pub open spec fn graphs_read(
    default_graphs: Option<Seq<Option<EncodedTerm>>>,
    named_graphs: Option<Seq<EncodedTerm>>,
    graph_name: Option<Option<EncodedTerm>>,
) -> (Seq<Option<Option<EncodedTerm>>>, QuadShape) {
    match graph_name {
        Some(Some(name)) => match named_graphs {
            Some(names) => if names.contains(name) {
                (seq![graph_name], QuadShape::Plain)
            } else {
                (Seq::empty(), QuadShape::Plain)
            },
            None => (seq![graph_name], QuadShape::Plain),
        },
        Some(None) => match default_graphs {
            Some(names) => (
                names.map_values(|name: Option<EncodedTerm>| Some(name)),
                if names.len() == 1 {
                    QuadShape::DefaultGraph
                } else {
                    QuadShape::MergedGraphs
                },
            ),
            None => (seq![None], QuadShape::MergedGraphs),
        },
        None => match named_graphs {
            Some(names) => (
                names.map_values(|name: EncodedTerm| Some(Some(name))),
                QuadShape::Plain,
            ),
            None => (seq![None], QuadShape::NamedGraphs),
        },
    }
}

/// What is asked of the store, graph by graph.
pub open spec fn asked(
    subject: Option<EncodedTerm>,
    predicate: Option<EncodedTerm>,
    object: Option<EncodedTerm>,
    graphs: Seq<Option<Option<EncodedTerm>>>,
) -> Seq<IncrementalQuadPattern> {
    graphs.map_values(
        |graph_name: Option<Option<EncodedTerm>>|
            IncrementalQuadPattern { subject, predicate, object, graph_name },
    )
}

/// A view of a store, and the graphs that a query names.
pub struct EvalDataset {
    dataset: DatasetView,
    default_graphs: Option<Vec<Option<EncodedTerm>>>,
    named_graphs: Option<Vec<EncodedTerm>>,
}

impl EvalDataset {
    pub open spec fn wf(&self) -> bool {
        &&& self.dataset().wf()
        &&& self.named_graphs() matches Some(names) ==> forall|i: int|
            0 <= i < names.len() ==> (#[trigger] names[i]) != EncodedTerm::DefaultGraph
    }

    pub closed spec fn dataset(&self) -> DatasetView {
        self.dataset
    }

    pub closed spec fn default_graphs(&self) -> Option<Seq<Option<EncodedTerm>>> {
        match self.default_graphs {
            Some(names) => Some(names@),
            None => None,
        }
    }

    pub closed spec fn named_graphs(&self) -> Option<Seq<EncodedTerm>> {
        match self.named_graphs {
            Some(names) => Some(names@),
            None => None,
        }
    }

    pub fn new(dataset: DatasetView, specification: QueryDatasetSpecification) -> (result: Result<
        Self,
        QueryEvaluationError,
    >)
        requires
            dataset.wf(),
        ensures
            match result {
                Ok(result) => result.wf() && result.dataset().reader() == dataset.reader()
                    && result.dataset().extra() == brought(
                    dataset.extra(),
                    dataset.reader().table().strings(),
                    specification.entries(),
                ) && result.default_graphs() == specification.default_graphs()
                    && result.named_graphs() == specification.named_graphs(),
                Err(_) => false,
            },
    {
        let mut dataset = dataset;
        let ghost start = dataset;
        let ghost known = dataset.reader().table().strings();
        let ghost mut list: Seq<(StrHash, Seq<u8>)> = Seq::empty();
        let default_graphs = match &specification.default {
            Some(names) => {
                let mut encoded_names: Vec<Option<EncodedTerm>> = Vec::new();
                let mut next: usize = 0;
                while next < names.len()
                    invariant
                        dataset.wf(),
                        dataset.reader() == start.reader(),
                        known == start.reader().table().strings(),
                        next <= names@.len(),
                        encoded_names@ == names@.take(next as int).map_values(encoded_name()),
                        dataset.extra() == brought(
                            start.extra(),
                            known,
                            concat(names@.take(next as int), name_entries()),
                        ),
                    decreases names@.len() - next,
                {
                    proof {
                        lemma_next(names@, next as int, name_entries());
                        lemma_brought_add(
                            start.extra(),
                            known,
                            concat(names@.take(next as int), name_entries()),
                            name_entries()(names@[next as int]),
                        );
                    }
                    let name = match &names[next] {
                        GraphName::Node(node) => match dataset.internalize_term(
                            node.duplicate().into_term(),
                        ) {
                            Ok(term) => Some(term),
                            Err(error) => {
                                return Err(QueryEvaluationError::Dataset(error));
                            },
                        },
                        GraphName::DefaultGraph => None,
                    };
                    encoded_names.push(name);
                    assert(encoded_names@ =~= names@.take(next + 1).map_values(encoded_name()));
                    next = next + 1;
                }
                proof {
                    assert(names@.take(next as int) =~= names@);
                    list = concat(names@, name_entries());
                }
                Some(encoded_names)
            },
            None => None,
        };
        assert(list =~= list + Seq::<(StrHash, Seq<u8>)>::empty());
        let named_graphs = match &specification.named {
            Some(nodes) => {
                let mut encoded_nodes: Vec<EncodedTerm> = Vec::new();
                let mut next: usize = 0;
                proof {
                    assert(nodes@.take(0) =~= Seq::empty());
                    assert(concat(nodes@.take(0), node_entries()) =~= Seq::empty());
                    assert(list + concat(nodes@.take(0), node_entries()) =~= list);
                }
                while next < nodes.len()
                    invariant
                        dataset.wf(),
                        dataset.reader() == start.reader(),
                        known == start.reader().table().strings(),
                        next <= nodes@.len(),
                        encoded_nodes@ == nodes@.take(next as int).map_values(encoded_node()),
                        dataset.extra() == brought(
                            start.extra(),
                            known,
                            list + concat(nodes@.take(next as int), node_entries()),
                        ),
                    decreases nodes@.len() - next,
                {
                    let ghost seen = list + concat(nodes@.take(next as int), node_entries());
                    proof {
                        lemma_next(nodes@, next as int, node_entries());
                        lemma_brought_add(
                            start.extra(),
                            known,
                            seen,
                            node_entries()(nodes@[next as int]),
                        );
                        assert(seen + node_entries()(nodes@[next as int]) =~= list + concat(
                            nodes@.take(next + 1),
                            node_entries(),
                        ));
                    }
                    match dataset.internalize_term(nodes[next].duplicate().into_term()) {
                        Ok(term) => {
                            encoded_nodes.push(term);
                        },
                        Err(error) => {
                            return Err(QueryEvaluationError::Dataset(error));
                        },
                    }
                    assert(encoded_nodes@ =~= nodes@.take(next + 1).map_values(encoded_node()));
                    next = next + 1;
                }
                assert(nodes@.take(next as int) =~= nodes@);
                Some(encoded_nodes)
            },
            None => None,
        };
        Ok(EvalDataset { dataset, default_graphs, named_graphs })
    }

    /// Encodes a term and brings its strings along.
    pub fn internalize_term(&mut self, term: Term) -> (result: Result<
        EncodedTerm,
        QueryEvaluationError,
    >)
        requires
            old(self).wf(),
        ensures
            final(self).grown(*old(self), term_entries(term@)),
            result == Ok::<EncodedTerm, QueryEvaluationError>(encoded(term@)),
    {
        match self.dataset.internalize_term(term) {
            Ok(term) => Ok(term),
            Err(error) => Err(QueryEvaluationError::Dataset(error)),
        }
    }

    /// Whether a dataset is another one that has brought more strings along.
    pub open spec fn grown(&self, before: EvalDataset, list: Seq<(StrHash, Seq<u8>)>) -> bool {
        &&& self.wf()
        &&& self.like(before)
        &&& self.dataset().extra() == brought(
            before.dataset().extra(),
            before.dataset().reader().table().strings(),
            list,
        )
    }

    /// Whether a dataset is another one but for the strings that were brought along.
    pub open spec fn like(&self, before: EvalDataset) -> bool {
        &&& self.dataset().reader() == before.dataset().reader()
        &&& self.default_graphs() == before.default_graphs()
        &&& self.named_graphs() == before.named_graphs()
    }

    /// Bringing strings along in two goes is bringing them along at once.
    pub proof fn lemma_grown_add(
        a: EvalDataset,
        b: EvalDataset,
        c: EvalDataset,
        first: Seq<(StrHash, Seq<u8>)>,
        second: Seq<(StrHash, Seq<u8>)>,
    )
        requires
            b.grown(a, first),
            c.grown(b, second),
        ensures
            c.grown(a, first + second),
    {
        lemma_brought_add(
            a.dataset().extra(),
            a.dataset().reader().table().strings(),
            first,
            second,
        );
    }

    /// The term that an encoded term stands for.
    pub fn externalize_term(&self, storage: &Storage, term: EncodedTerm) -> (result: Result<
        Term,
        QueryEvaluationError,
    >)
        requires
            self.wf(),
            storage.wf(),
        ensures
            match result {
                Ok(found) => decoded(term, self.dataset().lookup(*storage)) == Ok::<
                    TermView,
                    CorruptionError,
                >(found@),
                Err(error) => decoded(term, self.dataset().lookup(*storage)) matches Err(flaw)
                    && error == QueryEvaluationError::Dataset(StorageError::Corruption(flaw)),
            },
    {
        match self.dataset.externalize_term(storage, term) {
            Ok(term) => Ok(term),
            Err(error) => Err(QueryEvaluationError::Dataset(error)),
        }
    }

    pub fn duplicate(&self) -> (copy: Self)
        requires
            self.wf(),
        ensures
            copy.wf(),
            copy.dataset().reader() == self.dataset().reader(),
            copy.dataset().extra() == self.dataset().extra(),
            copy.default_graphs() == self.default_graphs(),
            copy.named_graphs() == self.named_graphs(),
    {
        EvalDataset {
            dataset: self.dataset.duplicate(),
            default_graphs: match &self.default_graphs {
                Some(names) => Some(copied_list(names)),
                None => None,
            },
            named_graphs: match &self.named_graphs {
                Some(names) => Some(copied_list(names)),
                None => None,
            },
        }
    }

    /// The graphs to read for the graph that a pattern asks for. Of the graph name the
    /// outer `None` stands for any named graph and the inner `None` for the default graph.
    pub fn graphs_to_read(&self, graph_name: Option<Option<EncodedTerm>>) -> (reading: (
        Vec<Option<Option<EncodedTerm>>>,
        QuadShape,
    ))
        ensures
            (reading.0@, reading.1) == graphs_read(
                self.default_graphs(),
                self.named_graphs(),
                graph_name,
            ),
    {
        let mut graphs: Vec<Option<Option<EncodedTerm>>> = Vec::new();
        match graph_name {
            Some(Some(name)) => {
                let allowed = match &self.named_graphs {
                    Some(names) => listed(names, name),
                    None => true,
                };
                if allowed {
                    graphs.push(graph_name);
                }
                assert(graphs@ =~= graphs_read(
                    self.default_graphs(),
                    self.named_graphs(),
                    graph_name,
                ).0);
                (graphs, QuadShape::Plain)
            },
            Some(None) => match &self.default_graphs {
                Some(names) => {
                    let mut next: usize = 0;
                    while next < names.len()
                        invariant
                            next <= names@.len(),
                            graphs@ == names@.take(next as int).map_values(
                                |name: Option<EncodedTerm>| Some(name),
                            ),
                        decreases names@.len() - next,
                    {
                        graphs.push(Some(names[next]));
                        assert(graphs@ =~= names@.take(next + 1).map_values(
                            |name: Option<EncodedTerm>| Some(name),
                        ));
                        next = next + 1;
                    }
                    assert(names@.take(next as int) =~= names@);
                    if names.len() == 1 {
                        (graphs, QuadShape::DefaultGraph)
                    } else {
                        (graphs, QuadShape::MergedGraphs)
                    }
                },
                None => {
                    graphs.push(None);
                    assert(graphs@ =~= seq![None]);
                    (graphs, QuadShape::MergedGraphs)
                },
            },
            None => match &self.named_graphs {
                Some(names) => {
                    let mut next: usize = 0;
                    while next < names.len()
                        invariant
                            next <= names@.len(),
                            graphs@ == names@.take(next as int).map_values(
                                |name: EncodedTerm| Some(Some(name)),
                            ),
                        decreases names@.len() - next,
                    {
                        graphs.push(Some(Some(names[next])));
                        assert(graphs@ =~= names@.take(next + 1).map_values(
                            |name: EncodedTerm| Some(Some(name)),
                        ));
                        next = next + 1;
                    }
                    assert(names@.take(next as int) =~= names@);
                    (graphs, QuadShape::Plain)
                },
                None => {
                    graphs.push(None);
                    assert(graphs@ =~= seq![None]);
                    (graphs, QuadShape::NamedGraphs)
                },
            },
        }
    }

    /// The changes of the quads that have the given terms, with the graphs that the query
    /// names in the place of the graph asked for.
    pub fn internal_quad_deltas_for_pattern(
        &self,
        storage: &mut Storage,
        subject: Option<EncodedTerm>,
        predicate: Option<EncodedTerm>,
        object: Option<EncodedTerm>,
        graph_name: Option<Option<EncodedTerm>>,
        notifier: usize,
    ) -> (quads: QuadDeltas)
        requires
            self.wf(),
            old(storage).wf(),
        ensures
            quads.wf(),
            quads.given() == Given::empty(),
            quads.held() == Seq::<InternalQuad>::empty(),
            quads.consistent(),
            final(storage).registry() == old(storage).registry(),
            ({
                let (graphs, shape) = graphs_read(
                    self.default_graphs(),
                    self.named_graphs(),
                    graph_name,
                );
                &&& quads.shape() == shape
                &&& opened(
                    quads.sources(),
                    asked(subject, predicate, object, graphs),
                    self.dataset().reader(),
                    *old(storage),
                    *final(storage),
                    notifier,
                )
            }),
    {
        let (graphs, shape) = self.graphs_to_read(graph_name);
        let ghost start = *storage;
        let ghost reader = self.dataset.reader();
        let ghost asks = asked(subject, predicate, object, graphs@);
        let mut sources: Vec<LiveQuadDeltaSource> = Vec::new();
        let mut next: usize = 0;
        proof {
            lemma_opened_none(reader, *storage, notifier);
            assert(asks.take(0) =~= Seq::empty());
        }
        while next < graphs.len()
            invariant
                self.wf(),
                reader == self.dataset.reader(),
                storage.wf(),
                next <= graphs@.len(),
                asks == asked(subject, predicate, object, graphs@),
                opened(sources@, asks.take(next as int), reader, start, *storage, notifier),
                storage.registry() == start.registry(),
            decreases graphs@.len() - next,
        {
            let ghost current = *storage;
            let ghost seen = sources@;
            let source = self.dataset.internal_quad_deltas_for_pattern(
                storage,
                subject.as_ref(),
                predicate.as_ref(),
                object.as_ref(),
                graphs[next],
                notifier,
            );
            sources.push(source);
            proof {
                let ask = asks[next as int];
                lemma_opened_one(source, ask, reader, current, *storage, notifier);
                lemma_opened_add(
                    seen,
                    asks.take(next as int),
                    seq![source],
                    seq![ask],
                    reader,
                    start,
                    current,
                    *storage,
                    notifier,
                );
                assert(seen + seq![source] =~= sources@);
                assert(asks.take(next as int) + seq![ask] =~= asks.take(next + 1));
            }
            next = next + 1;
        }
        proof {
            assert(asks.take(next as int) =~= asks);
            assert forall|i: int| 0 <= i < sources@.len() implies (#[trigger] sources@[i]).wf()
                && sources@[i].held().len() == 0 by {
                assert(at_start(sources@[i], asks[i], reader, start, *storage, notifier));
            }
        }
        QuadDeltas::new(sources, shape)
    }
}

/// A copy of a list.
fn copied_list<T: Copy>(list: &Vec<T>) -> (copy: Vec<T>)
    ensures
        copy@ == list@,
{
    let mut copy: Vec<T> = Vec::new();
    let mut next: usize = 0;
    while next < list.len()
        invariant
            next <= list@.len(),
            copy@ == list@.take(next as int),
        decreases list@.len() - next,
    {
        copy.push(list[next]);
        next = next + 1;
    }
    assert(copy@ =~= list@);
    copy
}

/// Whether a name is in a list.
fn listed(names: &Vec<EncodedTerm>, name: EncodedTerm) -> (result: bool)
    ensures
        result == names@.contains(name),
{
    let mut next: usize = 0;
    while next < names.len()
        invariant
            next <= names@.len(),
            forall|i: int| 0 <= i < next ==> names@[i] != name,
        decreases names@.len() - next,
    {
        if names[next] == name {
            assert(names@[next as int] == name);
            return true;
        }
        next = next + 1;
    }
    false
}

proof fn lemma_next<T, U>(items: Seq<T>, at: int, f: spec_fn(T) -> Seq<U>)
    requires
        0 <= at < items.len(),
    ensures
        concat(items.take(at + 1), f) == concat(items.take(at), f) + f(items[at]),
{
    assert(items.take(at + 1).drop_last() =~= items.take(at));
}

/// The graphs of a dataset are those of the query, one for one: a graph that has a name by
/// its encoded name, the default graph without one.
pub proof fn law_graphs_are_those_of_the_query(specification: QueryDatasetSpecification)
    ensures
        specification.default is None <==> specification.default_graphs() is None,
        specification.named is None <==> specification.named_graphs() is None,
        specification.default matches Some(names) ==> {
            let graphs = specification.default_graphs()->0;
            &&& graphs.len() == names@.len()
            &&& forall|i: int|
                0 <= i < graphs.len() ==> match names@[i]@ {
                    Some(name) => (#[trigger] graphs[i]) == Some(encoded(name)),
                    None => graphs[i] is None,
                }
        },
        specification.named matches Some(nodes) ==> {
            let graphs = specification.named_graphs()->0;
            &&& graphs.len() == nodes@.len()
            &&& forall|i: int|
                0 <= i < graphs.len() ==> (#[trigger] graphs[i]) == encoded(nodes@[i]@)
        },
{
}

/// A store is asked, graph by graph, for the quads that have the terms that are asked for.
pub proof fn law_every_graph_is_asked_for_the_same_terms(
    subject: Option<EncodedTerm>,
    predicate: Option<EncodedTerm>,
    object: Option<EncodedTerm>,
    graphs: Seq<Option<Option<EncodedTerm>>>,
)
    ensures
        asked(subject, predicate, object, graphs).len() == graphs.len(),
        forall|i: int|
            0 <= i < graphs.len() ==> {
                let ask = #[trigger] asked(subject, predicate, object, graphs)[i];
                &&& ask.graph_name == graphs[i]
                &&& ask.subject == subject
                &&& ask.predicate == predicate
                &&& ask.object == object
            },
{
}

} // verus!
