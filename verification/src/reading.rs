//! What holds of the quads that a pattern reads from a store.

use crate::bag::{
    concat, count, filter_map, is, lemma_concat_weight, lemma_count, lemma_count_unique,
    lemma_filter_map_contains, lemma_filter_map_weight, lemma_weight_more, lemma_weight_same,
    lemma_weight_zero, through, weight,
};
use crate::algebra::{graph_of, PlanView};
use crate::eval_dataset::{asked, graphs_read};
use crate::graphs::{lemma_each_once, to_default_graph};
use crate::listing::{all_picked, if_selected, picked};
use crate::numeric_encoder::{EncodedQuad, EncodedTerm};
use crate::operators::{law_quads_match_where_a_row_has_their_terms, matched};
use crate::quad_stream::{reshaped, shaped, QuadShape};
use crate::source::{internal_quad, InternalQuad};
use crate::streams::to_internal;
use crate::subscription::{read_pattern, IncrementalQuadPattern};
use crate::table::{selects, QuadPattern};
use crate::tuple::{selected, TupleSelector, TupleView};
use vstd::prelude::*;

verus! {

/// The quad of a store that a query sees as this one.
spec fn stored(quad: InternalQuad) -> EncodedQuad {
    EncodedQuad {
        subject: quad.subject,
        predicate: quad.predicate,
        object: quad.object,
        graph_name: match quad.graph_name {
            Some(name) => name,
            None => EncodedTerm::DefaultGraph,
        },
    }
}

/// A pattern picks a quad of a list exactly where it selects it, once.
proof fn lemma_picked_count(listing: Seq<EncodedQuad>, pattern: QuadPattern, quad: InternalQuad)
    requires
        listing.no_duplicates(),
        quad.graph_name != Some(EncodedTerm::DefaultGraph),
    ensures
        count(picked(listing, pattern), quad) == if selects(pattern, stored(quad))
            && listing.contains(stored(quad)) {
            1int
        } else {
            0int
        },
{
    let chosen = filter_map(listing, if_selected(pattern));
    lemma_filter_map_weight(chosen, to_internal(), is(quad));
    lemma_filter_map_weight(listing, if_selected(pattern), through(to_internal(), is(quad)));
    let g = through(if_selected(pattern), through(to_internal(), is(quad)));
    lemma_count_unique(listing, stored(quad));
    assert forall|other: EncodedQuad| #[trigger] to_internal()(other) == Some(quad) <==> other
        == stored(quad) by {}
    if selects(pattern, stored(quad)) {
        lemma_weight_same(listing, g, is(stored(quad)));
    } else {
        lemma_weight_same(listing, g, |other: EncodedQuad| 0int);
        lemma_weight_zero(listing);
    }
    lemma_count(listing, stored(quad));
}

/// A quad is among what patterns pick of a list exactly where one of them selects it.
proof fn lemma_all_picked_contains(
    listing: Seq<EncodedQuad>,
    patterns: Seq<QuadPattern>,
    quad: InternalQuad,
)
    requires
        quad.graph_name != Some(EncodedTerm::DefaultGraph),
    ensures
        all_picked(listing, patterns).contains(quad) <==> listing.contains(stored(quad)) && exists|
            i: int,
        |
            0 <= i < patterns.len() && selects(#[trigger] patterns[i], stored(quad)),
    decreases patterns.len(),
{
    let f = |pattern: QuadPattern| picked(listing, pattern);
    if patterns.len() > 0 {
        let front = patterns.drop_last();
        let last = patterns.len() - 1;
        lemma_all_picked_contains(listing, front, quad);
        let chosen = filter_map(listing, if_selected(patterns.last()));
        lemma_filter_map_contains(chosen, to_internal(), quad);
        lemma_filter_map_contains(listing, if_selected(patterns.last()), stored(quad));
        assert(picked(listing, patterns.last()).contains(quad) <==> listing.contains(stored(quad))
            && selects(patterns[last], stored(quad))) by {
            if picked(listing, patterns.last()).contains(quad) {
                let k = choose|k: int|
                    0 <= k < chosen.len() && to_internal()(#[trigger] chosen[k]) == Some(quad);
                assert(chosen[k] == stored(quad));
                assert(chosen.contains(stored(quad)));
                let j = choose|j: int|
                    0 <= j < listing.len() && if_selected(patterns.last())(#[trigger] listing[j])
                        == Some(stored(quad));
                assert(listing[j] == stored(quad));
            }
            if listing.contains(stored(quad)) && selects(patterns[last], stored(quad)) {
                let j = choose|j: int| 0 <= j < listing.len() && listing[j] == stored(quad);
                assert(if_selected(patterns.last())(listing[j]) == Some(stored(quad)));
                assert(chosen.contains(stored(quad)));
                let k = choose|k: int| 0 <= k < chosen.len() && chosen[k] == stored(quad);
                assert(to_internal()(chosen[k]) == Some(quad));
            }
        }
        let before = all_picked(listing, front);
        let more = picked(listing, patterns.last());
        assert(all_picked(listing, patterns) =~= before + more);
        if before.contains(quad) {
            let k = choose|k: int| 0 <= k < before.len() && before[k] == quad;
            assert((before + more)[k] == quad);
            let i = choose|i: int|
                0 <= i < front.len() && selects(#[trigger] front[i], stored(quad));
            assert(selects(patterns[i], stored(quad)));
        }
        if more.contains(quad) {
            let k = choose|k: int| 0 <= k < more.len() && more[k] == quad;
            assert((before + more)[before.len() + k] == quad);
        }
        if (before + more).contains(quad) {
            let k = choose|k: int| 0 <= k < (before + more).len() && (before + more)[k] == quad;
            if k < before.len() {
                assert(before[k] == quad);
            } else {
                assert(more[k - before.len()] == quad);
            }
        }
        if exists|i: int|
            0 <= i < patterns.len() && selects(#[trigger] patterns[i], stored(quad)) {
            let i = choose|i: int|
                0 <= i < patterns.len() && selects(#[trigger] patterns[i], stored(quad));
            if i < last {
                assert(selects(front[i], stored(quad)));
            }
        }
    }
}

/// A pattern that asks for a graph by its name reads the quads of that graph that have the
/// terms that it asks for, each once, if the graph is one of the named graphs; and none
/// otherwise.
pub proof fn law_named_graph_is_read(
    listing: Seq<EncodedQuad>,
    default_graphs: Option<Seq<Option<EncodedTerm>>>,
    named_graphs: Option<Seq<EncodedTerm>>,
    name: EncodedTerm,
    subject: Option<EncodedTerm>,
    predicate: Option<EncodedTerm>,
    object: Option<EncodedTerm>,
    quad: InternalQuad,
)
    requires
        listing.no_duplicates(),
        name != EncodedTerm::DefaultGraph,
        quad.graph_name != Some(EncodedTerm::DefaultGraph),
    ensures
        ({
            let (graphs, shape) = graphs_read(default_graphs, named_graphs, Some(Some(name)));
            count(
                shaped(
                    shape,
                    all_picked(
                        listing,
                        asked(subject, predicate, object, graphs).map_values(
                            |ask: IncrementalQuadPattern| read_pattern(ask),
                        ),
                    ),
                ),
                quad,
            ) == if {
                &&& quad.graph_name == Some(name)
                &&& subject is None || subject == Some(quad.subject)
                &&& predicate is None || predicate == Some(quad.predicate)
                &&& object is None || object == Some(quad.object)
                &&& named_graphs matches Some(names) ==> names.contains(name)
                &&& listing.contains(
                    EncodedQuad {
                        subject: quad.subject,
                        predicate: quad.predicate,
                        object: quad.object,
                        graph_name: name,
                    },
                )
            } {
                1int
            } else {
                0int
            }
        }),
{
    let (graphs, shape) = graphs_read(default_graphs, named_graphs, Some(Some(name)));
    let patterns = asked(subject, predicate, object, graphs).map_values(
        |ask: IncrementalQuadPattern| read_pattern(ask),
    );
    let all = all_picked(listing, patterns);
    lemma_kept(all, quad);
    if graphs.len() == 1 {
        assert(patterns.drop_last() =~= Seq::empty());
        assert(all =~= picked(listing, patterns[0])) by {
            reveal_with_fuel(concat, 2);
        }
        lemma_picked_count(listing, patterns[0], quad);
    } else {
        assert(patterns =~= Seq::empty());
        assert(all =~= Seq::empty());
    }
}

/// Quads that are taken as they are stay as they are.
proof fn lemma_kept(quads: Seq<InternalQuad>, quad: InternalQuad)
    ensures
        count(shaped(QuadShape::Plain, quads), quad) == count(quads, quad),
{
    let f = reshaped(QuadShape::Plain);
    lemma_filter_map_weight(quads, f, is(quad));
    lemma_weight_same(quads, through(f, is(quad)), is(quad));
}

/// A pattern that asks for every named graph reads the quads that have the terms that it asks
/// for: of each graph as often as the graph is listed among the named graphs, or once of each
/// graph that has a name if none are listed.
pub proof fn law_named_graphs_are_read(
    listing: Seq<EncodedQuad>,
    default_graphs: Option<Seq<Option<EncodedTerm>>>,
    named_graphs: Option<Seq<EncodedTerm>>,
    subject: Option<EncodedTerm>,
    predicate: Option<EncodedTerm>,
    object: Option<EncodedTerm>,
    quad: InternalQuad,
)
    requires
        listing.no_duplicates(),
        named_graphs matches Some(names) ==> !names.contains(EncodedTerm::DefaultGraph),
        quad.graph_name != Some(EncodedTerm::DefaultGraph),
    ensures
        ({
            let (graphs, shape) = graphs_read(default_graphs, named_graphs, None);
            let read = shaped(
                shape,
                all_picked(
                    listing,
                    asked(subject, predicate, object, graphs).map_values(
                        |ask: IncrementalQuadPattern| read_pattern(ask),
                    ),
                ),
            );
            match quad.graph_name {
                None => count(read, quad) == 0,
                Some(name) => count(read, quad) == if {
                    &&& subject is None || subject == Some(quad.subject)
                    &&& predicate is None || predicate == Some(quad.predicate)
                    &&& object is None || object == Some(quad.object)
                    &&& listing.contains(
                        EncodedQuad {
                            subject: quad.subject,
                            predicate: quad.predicate,
                            object: quad.object,
                            graph_name: name,
                        },
                    )
                } {
                    match named_graphs {
                        Some(names) => count(names, name),
                        None => 1int,
                    }
                } else {
                    0int
                },
            }
        }),
{
    let (graphs, shape) = graphs_read(default_graphs, named_graphs, None);
    let patterns = asked(subject, predicate, object, graphs).map_values(
        |ask: IncrementalQuadPattern| read_pattern(ask),
    );
    let all = all_picked(listing, patterns);
    match named_graphs {
        Some(names) => {
            lemma_kept(all, quad);
            lemma_graph_by_graph(listing, names, subject, predicate, object, patterns, quad);
        },
        None => {
            assert(patterns.drop_last() =~= Seq::empty());
            assert(all =~= picked(listing, patterns[0])) by {
                reveal_with_fuel(concat, 2);
            }
            lemma_picked_count(listing, patterns[0], quad);
            let f = reshaped(QuadShape::NamedGraphs);
            lemma_filter_map_weight(all, f, is(quad));
            if quad.graph_name is Some {
                lemma_weight_same(all, through(f, is(quad)), is(quad));
            } else {
                lemma_weight_same(all, through(f, is(quad)), |other: InternalQuad| 0int);
                lemma_weight_zero(all);
            }
        },
    }
}

/// Where each of some graphs is read, a quad is read as often as its graph is among them.
proof fn lemma_graph_by_graph(
    listing: Seq<EncodedQuad>,
    names: Seq<EncodedTerm>,
    subject: Option<EncodedTerm>,
    predicate: Option<EncodedTerm>,
    object: Option<EncodedTerm>,
    patterns: Seq<QuadPattern>,
    quad: InternalQuad,
)
    requires
        listing.no_duplicates(),
        !names.contains(EncodedTerm::DefaultGraph),
        quad.graph_name != Some(EncodedTerm::DefaultGraph),
        patterns.len() == names.len(),
        forall|i: int|
            0 <= i < names.len() ==> (#[trigger] patterns[i]) == (QuadPattern {
                subject,
                predicate,
                object,
                graph_name: Some(names[i]),
            }),
    ensures
        count(all_picked(listing, patterns), quad) == if {
            &&& quad.graph_name is Some
            &&& subject is None || subject == Some(quad.subject)
            &&& predicate is None || predicate == Some(quad.predicate)
            &&& object is None || object == Some(quad.object)
            &&& listing.contains(stored(quad))
        } {
            count(names, quad.graph_name->0)
        } else {
            0int
        },
{
    let f = |pattern: QuadPattern| picked(listing, pattern);
    let fitting = {
        &&& quad.graph_name is Some
        &&& subject is None || subject == Some(quad.subject)
        &&& predicate is None || predicate == Some(quad.predicate)
        &&& object is None || object == Some(quad.object)
        &&& listing.contains(stored(quad))
    };
    lemma_concat_weight(patterns, f, is(quad));
    let g = |pattern: QuadPattern| weight(f(pattern), is(quad));
    assert forall|i: int| 0 <= i < patterns.len() implies g(#[trigger] patterns[i]) == if fitting
        && names[i] == quad.graph_name->0 {
        1int
    } else {
        0int
    } by {
        lemma_picked_count(listing, patterns[i], quad);
        assert(names.contains(names[i]));
    }
    lemma_same_weights(
        patterns,
        g,
        names,
        |name: EncodedTerm|
            if fitting {
                is(quad.graph_name->0)(name)
            } else {
                0int
            },
    );
    if fitting {
        lemma_weight_same(
            names,
            |name: EncodedTerm|
                if fitting {
                    is(quad.graph_name->0)(name)
                } else {
                    0int
                },
            is(quad.graph_name->0),
        );
    } else {
        lemma_weight_same(
            names,
            |name: EncodedTerm|
                if fitting {
                    is(quad.graph_name->0)(name)
                } else {
                    0int
                },
            |name: EncodedTerm| 0int,
        );
        lemma_weight_zero(names);
    }
}

/// Items of two sequences that weigh the same one by one weigh the same together.
proof fn lemma_same_weights<T, U>(
    a: Seq<T>,
    g: spec_fn(T) -> int,
    b: Seq<U>,
    h: spec_fn(U) -> int,
)
    requires
        a.len() == b.len(),
        forall|i: int| #![trigger a[i], b[i]] 0 <= i < a.len() ==> g(a[i]) == h(b[i]),
    ensures
        weight(a, g) == weight(b, h),
    decreases a.len(),
{
    if a.len() > 0 {
        let last = a.len() - 1;
        assert(g(a[last]) == h(b[last]));
        assert forall|i: int|
            #![trigger a.drop_last()[i], b.drop_last()[i]]
            0 <= i < a.drop_last().len() implies g(a.drop_last()[i]) == h(b.drop_last()[i]) by {
            assert(g(a[i]) == h(b[i]));
        }
        lemma_same_weights(a.drop_last(), g, b.drop_last(), h);
    }
}

/// A pattern that asks for the default graph reads the triples that have the terms that it
/// asks for and that one of the graphs that make it up has, or any graph if none are listed.
/// It reads each triple once, whatever the number of the graphs that have it.
#[verifier::rlimit(40)]
pub proof fn law_default_graph_is_read(
    listing: Seq<EncodedQuad>,
    default_graphs: Option<Seq<Option<EncodedTerm>>>,
    named_graphs: Option<Seq<EncodedTerm>>,
    subject: Option<EncodedTerm>,
    predicate: Option<EncodedTerm>,
    object: Option<EncodedTerm>,
    quad: InternalQuad,
)
    requires
        listing.no_duplicates(),
    ensures
        ({
            let (graphs, shape) = graphs_read(default_graphs, named_graphs, Some(None));
            count(
                shaped(
                    shape,
                    all_picked(
                        listing,
                        asked(subject, predicate, object, graphs).map_values(
                            |ask: IncrementalQuadPattern| read_pattern(ask),
                        ),
                    ),
                ),
                quad,
            ) == if {
                &&& quad.graph_name is None
                &&& subject is None || subject == Some(quad.subject)
                &&& predicate is None || predicate == Some(quad.predicate)
                &&& object is None || object == Some(quad.object)
                &&& exists|graph: EncodedTerm| #[trigger]
                    listing.contains(
                        EncodedQuad {
                            subject: quad.subject,
                            predicate: quad.predicate,
                            object: quad.object,
                            graph_name: graph,
                        },
                    ) && match default_graphs {
                        Some(names) => names.contains(Some(graph)) || (graph
                            == EncodedTerm::DefaultGraph && names.contains(None)),
                        None => true,
                    }
            } {
                1int
            } else {
                0int
            }
        }),
{
    let (graphs, shape) = graphs_read(default_graphs, named_graphs, Some(None));
    let patterns = asked(subject, predicate, object, graphs).map_values(
        |ask: IncrementalQuadPattern| read_pattern(ask),
    );
    let all = all_picked(listing, patterns);
    let moved = filter_map(all, to_default_graph());
    if shape == QuadShape::MergedGraphs {
        lemma_each_once(moved, quad);
        lemma_count(moved, quad);
        if moved.contains(quad) {
            let (graph, i) = lemma_moved_from(listing, patterns, quad);
            assert(selects(patterns[i], made(quad, graph)));
            assert(listing.contains(
                EncodedQuad {
                    subject: quad.subject,
                    predicate: quad.predicate,
                    object: quad.object,
                    graph_name: graph,
                },
            ));
            if let Some(names) = default_graphs {
                assert(graphs[i] == Some(names[i]));
                assert(names.contains(names[i]));
            }
        }
        if {
            &&& quad.graph_name is None
            &&& subject is None || subject == Some(quad.subject)
            &&& predicate is None || predicate == Some(quad.predicate)
            &&& object is None || object == Some(quad.object)
            &&& exists|graph: EncodedTerm| #[trigger]
                listing.contains(
                    EncodedQuad {
                        subject: quad.subject,
                        predicate: quad.predicate,
                        object: quad.object,
                        graph_name: graph,
                    },
                ) && match default_graphs {
                    Some(names) => names.contains(Some(graph)) || (graph
                        == EncodedTerm::DefaultGraph && names.contains(None)),
                    None => true,
                }
        } {
            let graph = choose|graph: EncodedTerm| #[trigger]
                listing.contains(
                    EncodedQuad {
                        subject: quad.subject,
                        predicate: quad.predicate,
                        object: quad.object,
                        graph_name: graph,
                    },
                ) && match default_graphs {
                    Some(names) => names.contains(Some(graph)) || (graph
                        == EncodedTerm::DefaultGraph && names.contains(None)),
                    None => true,
                };
            let i = match default_graphs {
                Some(names) => if names.contains(Some(graph)) {
                    choose|i: int| 0 <= i < names.len() && names[i] == Some(graph)
                } else {
                    choose|i: int| 0 <= i < names.len() && names[i] == None::<EncodedTerm>
                },
                None => 0int,
            };
            assert(selects(patterns[i], made(quad, graph)));
            lemma_moved(listing, patterns, quad, graph, i);
        }
    } else {
        let name = default_graphs->0[0];
        let graph = match name {
            Some(name) => name,
            None => EncodedTerm::DefaultGraph,
        };
        assert(patterns.drop_last() =~= Seq::empty());
        assert(all =~= picked(listing, patterns[0])) by {
            reveal_with_fuel(concat, 2);
        }
        lemma_one_graph_moved(listing, patterns[0], graph, quad);
        assert(default_graphs->0.contains(name));
        assert(listing.contains(made(quad, graph)) ==> listing.contains(
            EncodedQuad {
                subject: quad.subject,
                predicate: quad.predicate,
                object: quad.object,
                graph_name: graph,
            },
        ));
    }
}

/// The quad of a store that has the terms of another in a graph.
spec fn made(quad: InternalQuad, graph: EncodedTerm) -> EncodedQuad {
    EncodedQuad {
        subject: quad.subject,
        predicate: quad.predicate,
        object: quad.object,
        graph_name: graph,
    }
}

/// A quad that was moved to the default graph was selected in some graph.
proof fn lemma_moved_from(
    listing: Seq<EncodedQuad>,
    patterns: Seq<QuadPattern>,
    quad: InternalQuad,
) -> (from: (EncodedTerm, int))
    requires
        filter_map(all_picked(listing, patterns), to_default_graph()).contains(quad),
    ensures
        quad.graph_name is None,
        listing.contains(made(quad, from.0)),
        0 <= from.1 < patterns.len(),
        selects(patterns[from.1], made(quad, from.0)),
{
    let all = all_picked(listing, patterns);
    lemma_filter_map_contains(all, to_default_graph(), quad);
    let k = choose|k: int| 0 <= k < all.len() && to_default_graph()(#[trigger] all[k]) == Some(
        quad,
    );
    assert(all.contains(all[k]));
    lemma_all_picked_proper(listing, patterns, all[k]);
    lemma_all_picked_contains(listing, patterns, all[k]);
    let i = choose|i: int|
        0 <= i < patterns.len() && selects(#[trigger] patterns[i], stored(all[k]));
    assert(stored(all[k]) == made(quad, stored(all[k]).graph_name));
    (stored(all[k]).graph_name, i)
}

/// What is picked of a list has a name of a graph or none.
proof fn lemma_all_picked_proper(
    listing: Seq<EncodedQuad>,
    patterns: Seq<QuadPattern>,
    quad: InternalQuad,
)
    requires
        all_picked(listing, patterns).contains(quad),
    ensures
        quad.graph_name != Some(EncodedTerm::DefaultGraph),
    decreases patterns.len(),
{
    if patterns.len() > 0 {
        let front = patterns.drop_last();
        let before = all_picked(listing, front);
        let more = picked(listing, patterns.last());
        assert(all_picked(listing, patterns) =~= before + more);
        let k = choose|k: int| 0 <= k < (before + more).len() && (before + more)[k] == quad;
        if k < before.len() {
            assert(before[k] == quad);
            lemma_all_picked_proper(listing, front, quad);
        } else {
            assert(more[k - before.len()] == quad);
            lemma_filter_map_contains(
                filter_map(listing, if_selected(patterns.last())),
                to_internal(),
                quad,
            );
        }
    }
}

/// A quad that is selected in some graph is moved to the default graph.
proof fn lemma_moved(
    listing: Seq<EncodedQuad>,
    patterns: Seq<QuadPattern>,
    quad: InternalQuad,
    graph: EncodedTerm,
    i: int,
)
    requires
        quad.graph_name is None,
        listing.contains(made(quad, graph)),
        0 <= i < patterns.len(),
        selects(patterns[i], made(quad, graph)),
    ensures
        filter_map(all_picked(listing, patterns), to_default_graph()).contains(quad),
{
    let all = all_picked(listing, patterns);
    let seen = internal_quad(made(quad, graph));
    assert(stored(seen) == made(quad, graph));
    lemma_all_picked_contains(listing, patterns, seen);
    let k = choose|k: int| 0 <= k < all.len() && all[k] == seen;
    assert(to_default_graph()(all[k]) == Some(quad));
    lemma_filter_map_contains(all, to_default_graph(), quad);
}

/// The quads of one graph are moved to the default graph one for one.
proof fn lemma_one_graph_moved(
    listing: Seq<EncodedQuad>,
    pattern: QuadPattern,
    graph: EncodedTerm,
    quad: InternalQuad,
)
    requires
        listing.no_duplicates(),
        pattern.graph_name == Some(graph),
    ensures
        count(filter_map(picked(listing, pattern), to_default_graph()), quad) == if {
            &&& quad.graph_name is None
            &&& selects(pattern, made(quad, graph))
            &&& listing.contains(made(quad, graph))
        } {
            1int
        } else {
            0int
        },
{
    let f = to_default_graph();
    let chosen = filter_map(listing, if_selected(pattern));
    lemma_filter_map_weight(picked(listing, pattern), f, is(quad));
    lemma_filter_map_weight(chosen, to_internal(), through(f, is(quad)));
    lemma_filter_map_weight(listing, if_selected(pattern), through(to_internal(), through(f, is(quad))));
    let g = through(if_selected(pattern), through(to_internal(), through(f, is(quad))));
    let e = made(quad, graph);
    lemma_count_unique(listing, e);
    lemma_count(listing, e);
    if quad.graph_name is None && selects(pattern, e) {
        assert forall|k: int| 0 <= k < listing.len() implies g(#[trigger] listing[k]) == is(e)(
            listing[k],
        ) by {
            if selects(pattern, listing[k]) {
                assert(listing[k].graph_name == graph);
            }
        }
        lemma_weight_same(listing, g, is(e));
    } else {
        assert forall|k: int| 0 <= k < listing.len() implies g(#[trigger] listing[k]) == 0 by {
            if selects(pattern, listing[k]) && f(internal_quad(listing[k])) == Some(quad) {
                assert(listing[k] == e);
            }
        }
        lemma_weight_same(listing, g, |other: EncodedQuad| 0int);
        lemma_weight_zero(listing);
    }
}

/// Every graph that is listed among the named graphs is asked for where every named graph is
/// wanted, as often as it is listed, and no other graph is. So is every graph that is listed
/// as a part of the default graph where that is wanted.
pub proof fn law_every_listed_graph_is_asked_for(
    default_names: Seq<Option<EncodedTerm>>,
    named_graphs: Option<Seq<EncodedTerm>>,
    default_graphs: Option<Seq<Option<EncodedTerm>>>,
    names: Seq<EncodedTerm>,
    part: Option<EncodedTerm>,
    name: EncodedTerm,
)
    ensures
        count(graphs_read(default_graphs, Some(names), None).0, Some(Some(name))) == count(
            names,
            name,
        ),
        graphs_read(default_graphs, Some(names), None).0.len() == names.len(),
        count(graphs_read(Some(default_names), named_graphs, Some(None)).0, Some(part)) == count(
            default_names,
            part,
        ),
        graphs_read(Some(default_names), named_graphs, Some(None)).0.len() == default_names.len(),
        graphs_read(default_graphs, Some(names), Some(Some(name))).0.len() == if names.contains(
            name,
        ) {
            1nat
        } else {
            0nat
        },
{
    let graphs = graphs_read(default_graphs, Some(names), None).0;
    lemma_same_weights(graphs, is(Some(Some(name))), names, is(name));
    let parts = graphs_read(Some(default_names), named_graphs, Some(None)).0;
    lemma_same_weights(parts, is(Some(part)), default_names, is(part));
}

/// A quad that is read has the name of a graph or none.
proof fn lemma_read_proper(
    listing: Seq<EncodedQuad>,
    patterns: Seq<QuadPattern>,
    shape: QuadShape,
    quad: InternalQuad,
)
    requires
        shaped(shape, all_picked(listing, patterns)).contains(quad),
    ensures
        quad.graph_name != Some(EncodedTerm::DefaultGraph),
{
    let all = all_picked(listing, patterns);
    let images = filter_map(all, reshaped(shape));
    if shape == QuadShape::MergedGraphs {
        lemma_each_once(images, quad);
        lemma_count(images, quad);
        lemma_count(shaped(shape, all), quad);
    }
    lemma_filter_map_contains(all, reshaped(shape), quad);
    let k = choose|k: int| 0 <= k < all.len() && reshaped(shape)(#[trigger] all[k]) == Some(quad);
    assert(all.contains(all[k]));
    lemma_all_picked_proper(listing, patterns, all[k]);
}

/// Every stored quad of a graph that a pattern is about has an answer, if a row that has the
/// bindings of the given one has the terms of the quad at the positions of the pattern. The
/// answer is such a row, and binds no further column.
#[verifier::rlimit(40)]
pub proof fn law_stored_quads_that_fit_are_answered(
    subject: TupleSelector,
    predicate: TupleSelector,
    object: TupleSelector,
    graph_name: Option<TupleSelector>,
    from: TupleView,
    default_graphs: Option<Seq<Option<EncodedTerm>>>,
    named_graphs: Option<Seq<EncodedTerm>>,
    listing: Seq<EncodedQuad>,
    quad: EncodedQuad,
    other: TupleView,
)
    requires
        listing.no_duplicates(),
        listing.contains(quad),
        named_graphs matches Some(names) ==> !names.contains(EncodedTerm::DefaultGraph),
        graph_name matches Some(selector) ==> selected(selector, from) != Some(
            EncodedTerm::DefaultGraph,
        ),
        from.graph_name != Some(EncodedTerm::DefaultGraph),
        forall|i: int| (#[trigger] from.column(i)) is Some ==> other.column(i) == from.column(i),
        selected(subject, other) == Some(quad.subject),
        selected(predicate, other) == Some(quad.predicate),
        selected(object, other) == Some(quad.object),
        match graph_name {
            Some(selector) => selected(selector, other) == Some(quad.graph_name) && quad.graph_name
                != EncodedTerm::DefaultGraph && (named_graphs matches Some(names)
                ==> names.contains(quad.graph_name)),
            None => match from.graph_name {
                Some(name) => name == quad.graph_name && (named_graphs matches Some(names)
                    ==> names.contains(quad.graph_name)),
                None => default_graphs matches Some(names) ==> names.contains(
                    Some(quad.graph_name),
                ) || (quad.graph_name == EncodedTerm::DefaultGraph && names.contains(None)),
            },
        },
    ensures
        exists|row: TupleView| #[trigger]
            (PlanView::QuadPattern { subject, predicate, object, graph_name }).answer(
                from,
                default_graphs,
                named_graphs,
                listing,
            ).contains(row) && {
                &&& selected(subject, row) == Some(quad.subject)
                &&& selected(predicate, row) == Some(quad.predicate)
                &&& selected(object, row) == Some(quad.object)
                &&& graph_name matches Some(selector) ==> selected(selector, row) == Some(
                    quad.graph_name,
                )
                &&& forall|i: int|
                    (#[trigger] from.column(i)) is Some ==> row.column(i) == from.column(i)
                &&& forall|i: int|
                    (#[trigger] row.column(i)) is Some ==> from.column(i) is Some || subject
                        == TupleSelector::Variable(i as usize) || predicate
                        == TupleSelector::Variable(i as usize) || object
                        == TupleSelector::Variable(i as usize) || graph_name == Some(
                        TupleSelector::Variable(i as usize),
                    )
            },
{
    let (s, p, o) = (selected(subject, from), selected(predicate, from), selected(object, from));
    let wanted = graph_of(graph_name, from);
    let (graphs, shape) = graphs_read(default_graphs, named_graphs, wanted);
    let patterns = asked(s, p, o, graphs).map_values(
        |ask: IncrementalQuadPattern| read_pattern(ask),
    );
    let read = shaped(shape, all_picked(listing, patterns));
    let seen = InternalQuad {
        subject: quad.subject,
        predicate: quad.predicate,
        object: quad.object,
        graph_name: if wanted == Some(None::<EncodedTerm>) {
            None
        } else {
            Some(quad.graph_name)
        },
    };
    assert(quad == EncodedQuad {
        subject: seen.subject,
        predicate: seen.predicate,
        object: seen.object,
        graph_name: quad.graph_name,
    });
    match wanted {
        None => {
            law_named_graphs_are_read(listing, default_graphs, named_graphs, s, p, o, seen);
            if let Some(names) = named_graphs {
                lemma_count(names, quad.graph_name);
            }
        },
        Some(None) => {
            law_default_graph_is_read(listing, default_graphs, named_graphs, s, p, o, seen);
        },
        Some(Some(name)) => {
            law_named_graph_is_read(listing, default_graphs, named_graphs, name, s, p, o, seen);
        },
    }
    lemma_count(read, seen);
    assert(read.contains(seen));
    let k = choose|k: int| 0 <= k < read.len() && read[k] == seen;
    law_quads_match_where_a_row_has_their_terms(
        from,
        subject,
        predicate,
        object,
        graph_name,
        seen,
        other,
    );
    let f = matched(from, subject, predicate, object, graph_name);
    let row = f(seen)->0;
    assert(f(read[k]) == Some(row));
    lemma_filter_map_contains(read, f, row);
    assert((PlanView::QuadPattern { subject, predicate, object, graph_name }).answer(
        from,
        default_graphs,
        named_graphs,
        listing,
    ) =~= filter_map(read, f));
}

/// Every answer of a quad pattern has the terms of a stored quad of a graph that the pattern
/// is about, at the positions of the pattern.
#[verifier::rlimit(40)]
pub proof fn law_answers_of_quad_patterns_are_stored(
    subject: TupleSelector,
    predicate: TupleSelector,
    object: TupleSelector,
    graph_name: Option<TupleSelector>,
    from: TupleView,
    default_graphs: Option<Seq<Option<EncodedTerm>>>,
    named_graphs: Option<Seq<EncodedTerm>>,
    listing: Seq<EncodedQuad>,
    row: TupleView,
)
    requires
        listing.no_duplicates(),
        named_graphs matches Some(names) ==> !names.contains(EncodedTerm::DefaultGraph),
        graph_name matches Some(selector) ==> selected(selector, from) != Some(
            EncodedTerm::DefaultGraph,
        ),
        from.graph_name != Some(EncodedTerm::DefaultGraph),
        (PlanView::QuadPattern { subject, predicate, object, graph_name }).answer(
            from,
            default_graphs,
            named_graphs,
            listing,
        ).contains(row),
    ensures
        exists|quad: EncodedQuad| #[trigger]
            listing.contains(quad) && {
                &&& selected(subject, row) == Some(quad.subject)
                &&& selected(predicate, row) == Some(quad.predicate)
                &&& selected(object, row) == Some(quad.object)
                &&& match graph_name {
                    Some(selector) => selected(selector, row) == Some(quad.graph_name)
                        && quad.graph_name != EncodedTerm::DefaultGraph && (
                    named_graphs matches Some(names) ==> names.contains(quad.graph_name)),
                    None => match from.graph_name {
                        Some(name) => name == quad.graph_name && (named_graphs matches Some(names)
                            ==> names.contains(quad.graph_name)),
                        None => default_graphs matches Some(names) ==> names.contains(
                            Some(quad.graph_name),
                        ) || (quad.graph_name == EncodedTerm::DefaultGraph && names.contains(None)),
                    },
                }
            },
        forall|i: int| (#[trigger] from.column(i)) is Some ==> row.column(i) == from.column(i),
        forall|i: int|
            (#[trigger] row.column(i)) is Some ==> from.column(i) is Some || subject
                == TupleSelector::Variable(i as usize) || predicate == TupleSelector::Variable(
                i as usize,
            ) || object == TupleSelector::Variable(i as usize) || graph_name == Some(
                TupleSelector::Variable(i as usize),
            ),
{
    let (s, p, o) = (selected(subject, from), selected(predicate, from), selected(object, from));
    let wanted = graph_of(graph_name, from);
    let (graphs, shape) = graphs_read(default_graphs, named_graphs, wanted);
    let patterns = asked(s, p, o, graphs).map_values(
        |ask: IncrementalQuadPattern| read_pattern(ask),
    );
    let read = shaped(shape, all_picked(listing, patterns));
    let f = matched(from, subject, predicate, object, graph_name);
    assert((PlanView::QuadPattern { subject, predicate, object, graph_name }).answer(
        from,
        default_graphs,
        named_graphs,
        listing,
    ) =~= filter_map(read, f));
    lemma_filter_map_contains(read, f, row);
    let k = choose|k: int| 0 <= k < read.len() && f(#[trigger] read[k]) == Some(row);
    let seen = read[k];
    assert(read.contains(seen));
    lemma_read_proper(listing, patterns, shape, seen);
    lemma_count(read, seen);
    law_quads_match_where_a_row_has_their_terms(
        from,
        subject,
        predicate,
        object,
        graph_name,
        seen,
        row,
    );
    match wanted {
        None => {
            law_named_graphs_are_read(listing, default_graphs, named_graphs, s, p, o, seen);
            if let Some(names) = named_graphs {
                lemma_count(names, seen.graph_name->0);
            }
        },
        Some(None) => {
            law_default_graph_is_read(listing, default_graphs, named_graphs, s, p, o, seen);
        },
        Some(Some(name)) => {
            law_named_graph_is_read(listing, default_graphs, named_graphs, name, s, p, o, seen);
        },
    }
}

/// Where every named graph is asked for, a stored quad that fits has its answer as often as
/// its graph is listed among the named graphs.
#[verifier::rlimit(40)]
pub proof fn law_quads_are_answered_as_often_as_their_graphs_are_listed(
    subject: TupleSelector,
    predicate: TupleSelector,
    object: TupleSelector,
    selector: TupleSelector,
    from: TupleView,
    default_graphs: Option<Seq<Option<EncodedTerm>>>,
    names: Seq<EncodedTerm>,
    listing: Seq<EncodedQuad>,
    quad: EncodedQuad,
    other: TupleView,
)
    requires
        listing.no_duplicates(),
        listing.contains(quad),
        !names.contains(EncodedTerm::DefaultGraph),
        names.contains(quad.graph_name),
        selected(selector, from) is None,
        forall|i: int| (#[trigger] from.column(i)) is Some ==> other.column(i) == from.column(i),
        selected(subject, other) == Some(quad.subject),
        selected(predicate, other) == Some(quad.predicate),
        selected(object, other) == Some(quad.object),
        selected(selector, other) == Some(quad.graph_name),
    ensures
        exists|row: TupleView|
            {
                &&& #[trigger] count(
                    (PlanView::QuadPattern {
                        subject,
                        predicate,
                        object,
                        graph_name: Some(selector),
                    }).answer(from, default_graphs, Some(names), listing),
                    row,
                ) >= count(names, quad.graph_name)
                &&& selected(subject, row) == Some(quad.subject)
                &&& selected(predicate, row) == Some(quad.predicate)
                &&& selected(object, row) == Some(quad.object)
                &&& selected(selector, row) == Some(quad.graph_name)
            },
{
    let (s, p, o) = (selected(subject, from), selected(predicate, from), selected(object, from));
    let (graphs, shape) = graphs_read(default_graphs, Some(names), None);
    let patterns = asked(s, p, o, graphs).map_values(
        |ask: IncrementalQuadPattern| read_pattern(ask),
    );
    let read = shaped(shape, all_picked(listing, patterns));
    let seen = InternalQuad {
        subject: quad.subject,
        predicate: quad.predicate,
        object: quad.object,
        graph_name: Some(quad.graph_name),
    };
    assert(quad == EncodedQuad {
        subject: seen.subject,
        predicate: seen.predicate,
        object: seen.object,
        graph_name: quad.graph_name,
    });
    assert(quad.graph_name != EncodedTerm::DefaultGraph);
    law_named_graphs_are_read(listing, default_graphs, Some(names), s, p, o, seen);
    law_quads_match_where_a_row_has_their_terms(
        from,
        subject,
        predicate,
        object,
        Some(selector),
        seen,
        other,
    );
    let f = matched(from, subject, predicate, object, Some(selector));
    let row = f(seen)->0;
    lemma_filter_map_weight(read, f, is(row));
    lemma_weight_more(read, is(seen), through(f, is(row)));
    let answer = (PlanView::QuadPattern {
        subject,
        predicate,
        object,
        graph_name: Some(selector),
    }).answer(from, default_graphs, Some(names), listing);
    assert(answer =~= filter_map(read, f));
    assert(count(read, seen) == count(names, quad.graph_name));
    assert(count(answer, row) >= count(names, quad.graph_name));
}

}
