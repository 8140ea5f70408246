//! What every commit keeps: the graph of every quad is listed, and every string that a quad
//! refers to is known.

use crate::model::{Quad, TermView};
use crate::numeric_encoder::{
    encoded, encoded_quad, quad_entries, string_ids, term_entries, EncodedQuad, EncodedTerm,
    StrHash,
};
use crate::storage::{first_unknown, is_valid, quad_string_ids};
use crate::table::{
    graphs_after, graphs_written, quads_after, quads_written, ClearScope, QuadTable, WriteOp,
};
use crate::transaction::{law_strings_stay, strings_written};
use vstd::prelude::*;

verus! {

/// Whether a string is among those that are put.
pub open spec fn supplies(entries: Seq<(StrHash, Seq<u8>)>, id: StrHash) -> bool {
    exists|k: int| 0 <= k < entries.len() && (#[trigger] entries[k]).0 == id
}

/// Whether all strings of a list are among those that are put.
pub open spec fn supplies_all(entries: Seq<(StrHash, Seq<u8>)>, ids: Seq<StrHash>) -> bool {
    forall|i: int| 0 <= i < ids.len() ==> supplies(entries, #[trigger] ids[i])
}

/// Whether a step leaves valid contents valid, as one of the steps of a write: the strings of
/// a quad are put with it, and names of graphs are removed only right after the quads of the
/// graphs.
pub open spec fn tidy_at(
    ops: Seq<WriteOp>,
    entries: Seq<(StrHash, Seq<u8>)>,
    i: int,
) -> bool {
    match ops[i] {
        WriteOp::PutQuad(quad) => supplies_all(entries, quad_string_ids(quad)),
        WriteOp::DeleteGraph(name) => i > 0 && ops[i - 1] == WriteOp::ClearQuads(
            ClearScope::Graph(name),
        ),
        WriteOp::ForgetGraphs => i > 0 && (ops[i - 1] == WriteOp::ClearQuads(
            ClearScope::NamedGraphs,
        ) || ops[i - 1] == WriteOp::ClearQuads(ClearScope::AllGraphs)),
        WriteOp::DeleteQuad(_) | WriteOp::ClearQuads(_) | WriteOp::PutGraph(_) => true,
    }
}

/// Whether the steps of a write leave valid contents valid.
pub open spec fn tidy(ops: Seq<WriteOp>, entries: Seq<(StrHash, Seq<u8>)>) -> bool {
    forall|i: int| #![trigger ops[i]] 0 <= i < ops.len() ==> tidy_at(ops, entries, i)
}

/// Whether the graph of a quad is listed.
pub open spec fn graph_listed(graphs: Set<EncodedTerm>, quad: EncodedQuad) -> bool {
    quad.graph_name == EncodedTerm::DefaultGraph || graphs.contains(quad.graph_name)
}

/// Whether all strings that a quad refers to are known.
pub open spec fn strings_known(strings: Map<StrHash, Seq<u8>>, quad: EncodedQuad) -> bool {
    forall|i: int|
        0 <= i < quad_string_ids(quad).len() ==> strings.contains_key(
            #[trigger] quad_string_ids(quad)[i],
        )
}

/// Whether the graph of every quad is listed, and every string that a quad refers to is known.
pub open spec fn all_valid(
    quads: Set<EncodedQuad>,
    graphs: Set<EncodedTerm>,
    strings: Map<StrHash, Seq<u8>>,
) -> bool {
    forall|quad: EncodedQuad| #[trigger]
        quads.contains(quad) ==> graph_listed(graphs, quad) && strings_known(strings, quad)
}

/// Whether nothing is wrong with any quad of a store.
pub open spec fn table_valid(table: QuadTable) -> bool {
    all_valid(table.quads(), table.graphs(), table.strings())
}

/// A store of which all rows can be read is valid exactly if nothing is wrong with any quad.
pub proof fn law_valid_stores_have_no_flaw(table: QuadTable)
    ensures
        table_valid(table) <==> forall|quad: EncodedQuad| #[trigger]
            table.quads().contains(quad) ==> is_valid(table, quad),
{
    assert forall|quad: EncodedQuad| is_valid(table, quad) == (graph_listed(table.graphs(), quad)
        && strings_known(table.strings(), quad)) by {
        lemma_first_unknown(table.strings(), quad_string_ids(quad));
    }
}

proof fn lemma_first_unknown(strings: Map<StrHash, Seq<u8>>, ids: Seq<StrHash>)
    ensures
        first_unknown(strings, ids) is None <==> forall|i: int|
            0 <= i < ids.len() ==> strings.contains_key(#[trigger] ids[i]),
    decreases ids.len(),
{
    if ids.len() > 0 {
        let front = ids.drop_last();
        let last = ids.len() - 1;
        lemma_first_unknown(strings, front);
        if first_unknown(strings, ids) is None {
            assert forall|i: int| 0 <= i < ids.len() implies strings.contains_key(
                #[trigger] ids[i],
            ) by {
                if i < last {
                    assert(strings.contains_key(front[i]));
                }
            }
        }
        if forall|i: int| 0 <= i < ids.len() ==> strings.contains_key(#[trigger] ids[i]) {
            assert forall|i: int| 0 <= i < front.len() implies strings.contains_key(
                #[trigger] front[i],
            ) by {
                assert(strings.contains_key(ids[i]));
            }
            assert(strings.contains_key(ids[last]));
        }
    }
}

/// What is put is known.
pub proof fn lemma_supplied(
    strings: Map<StrHash, Seq<u8>>,
    entries: Seq<(StrHash, Seq<u8>)>,
    id: StrHash,
)
    requires
        supplies(entries, id),
    ensures
        strings_written(strings, entries).contains_key(id),
    decreases entries.len(),
{
    let k = choose|k: int| 0 <= k < entries.len() && (#[trigger] entries[k]).0 == id;
    let front = entries.drop_last();
    if k < front.len() {
        assert(front[k].0 == id);
        lemma_supplied(strings, front, id);
    }
}

/// A commit of a write whose steps are tidy leaves a valid store valid.
pub proof fn law_commits_keep_stores_valid(
    quads: Set<EncodedQuad>,
    graphs: Set<EncodedTerm>,
    strings: Map<StrHash, Seq<u8>>,
    ops: Seq<WriteOp>,
    entries: Seq<(StrHash, Seq<u8>)>,
)
    requires
        all_valid(quads, graphs, strings),
        tidy(ops, entries),
    ensures
        all_valid(
            quads_written(quads, ops),
            graphs_written(graphs, ops),
            strings_written(strings, entries),
        ),
    decreases ops.len(),
{
    let known = strings_written(strings, entries);
    if ops.len() == 0 {
        assert forall|quad: EncodedQuad| #[trigger] quads.contains(quad) implies graph_listed(
            graphs,
            quad,
        ) && strings_known(known, quad) by {
            assert forall|i: int| 0 <= i < quad_string_ids(quad).len() implies known.contains_key(
                #[trigger] quad_string_ids(quad)[i],
            ) by {
                law_strings_stay(strings, entries, quad_string_ids(quad)[i]);
            }
        }
    } else {
        let front = ops.drop_last();
        let last = ops.len() - 1;
        let op = ops.last();
        assert(tidy(front, entries)) by {
            assert forall|i: int| #![trigger front[i]] 0 <= i < front.len() implies tidy_at(
                front,
                entries,
                i,
            ) by {
                assert(front[i] == ops[i]);
                assert(tidy_at(ops, entries, i));
                if i > 0 {
                    assert(front[i - 1] == ops[i - 1]);
                }
            }
        }
        law_commits_keep_stores_valid(quads, graphs, strings, front, entries);
        assert(ops[last] == op);
        assert(tidy_at(ops, entries, last));
        let old_quads = quads_written(quads, front);
        let old_graphs = graphs_written(graphs, front);
        let new_quads = quads_after(old_quads, op);
        let new_graphs = graphs_after(old_graphs, op);
        if last > 0 {
            assert(front.last() == ops[last - 1]);
        }
        assert forall|quad: EncodedQuad| #[trigger] new_quads.contains(quad) implies graph_listed(
            new_graphs,
            quad,
        ) && strings_known(known, quad) by {
            if old_quads.contains(quad) {
                assert(graph_listed(old_graphs, quad) && strings_known(known, quad));
            } else {
                assert forall|i: int| 0 <= i
                    < quad_string_ids(quad).len() implies known.contains_key(
                    #[trigger] quad_string_ids(quad)[i],
                ) by {
                    lemma_supplied(strings, entries, quad_string_ids(quad)[i]);
                }
            }
        }
    }
}

/// More strings supply what fewer do.
proof fn lemma_supplies_more(
    entries: Seq<(StrHash, Seq<u8>)>,
    more: Seq<(StrHash, Seq<u8>)>,
    ids: Seq<StrHash>,
)
    ensures
        supplies_all(entries, ids) ==> supplies_all(entries + more, ids),
        supplies_all(more, ids) ==> supplies_all(entries + more, ids),
{
    let all = entries + more;
    assert forall|id: StrHash| supplies(entries, id) || supplies(more, id) implies #[trigger] supplies(
        all,
        id,
    ) by {
        if supplies(entries, id) {
            let k = choose|k: int| 0 <= k < entries.len() && (#[trigger] entries[k]).0 == id;
            assert(all[k].0 == id);
        } else {
            let k = choose|k: int| 0 <= k < more.len() && (#[trigger] more[k]).0 == id;
            assert(all[entries.len() + k].0 == id);
        }
    }
}

/// The strings of a term are those that it refers to.
proof fn lemma_term_supplied(term: TermView)
    ensures
        supplies_all(term_entries(term), string_ids(encoded(term))),
{
    let entries = term_entries(term);
    let ids = string_ids(encoded(term));
    assert(ids.len() == entries.len());
    assert forall|i: int| 0 <= i < ids.len() implies supplies(entries, #[trigger] ids[i]) by {
        assert(entries[i].0 == ids[i]);
    }
}

/// The strings of a quad are those that it refers to.
pub proof fn lemma_quad_supplied(quad: Quad)
    ensures
        supplies_all(quad_entries(quad), quad_string_ids(encoded_quad(quad))),
{
    let stored = encoded_quad(quad);
    let entries = quad_entries(quad);
    let ids = quad_string_ids(stored);
    let a = term_entries(quad.subject@);
    let b = term_entries(TermView::NamedNode(quad.predicate@));
    let c = term_entries(quad.object@);
    let d = match quad.graph_name@ {
        Some(name) => term_entries(name),
        None => Seq::empty(),
    };
    lemma_term_supplied(quad.subject@);
    lemma_term_supplied(TermView::NamedNode(quad.predicate@));
    lemma_term_supplied(quad.object@);
    if let Some(name) = quad.graph_name@ {
        lemma_term_supplied(name);
    }
    let p = string_ids(stored.subject);
    let q = string_ids(stored.predicate);
    let r = string_ids(stored.object);
    let s = string_ids(stored.graph_name);
    lemma_supplies_more(a, b, p);
    lemma_supplies_more(a, b, q);
    lemma_supplies_more(a + b, c, p);
    lemma_supplies_more(a + b, c, q);
    lemma_supplies_more(a + b, c, r);
    lemma_supplies_more(a + b + c, d, p);
    lemma_supplies_more(a + b + c, d, q);
    lemma_supplies_more(a + b + c, d, r);
    lemma_supplies_more(a + b + c, d, s);
    assert(entries == a + b + c + d);
    assert forall|i: int| 0 <= i < ids.len() implies supplies(entries, #[trigger] ids[i]) by {
        if i < p.len() {
            assert(ids[i] == p[i]);
        } else if i < p.len() + q.len() {
            assert(ids[i] == q[i - p.len()]);
        } else if i < p.len() + q.len() + r.len() {
            assert(ids[i] == r[i - p.len() - q.len()]);
        } else {
            assert(ids[i] == s[i - p.len() - q.len() - r.len()]);
        }
    }
}

/// A write that was tidy stays so by one more step, if the step is.
pub proof fn lemma_tidy_push(
    ops: Seq<WriteOp>,
    entries: Seq<(StrHash, Seq<u8>)>,
    op: WriteOp,
    more: Seq<(StrHash, Seq<u8>)>,
)
    requires
        tidy(ops, entries),
        tidy_at(ops.push(op), entries + more, ops.len() as int),
    ensures
        tidy(ops.push(op), entries + more),
{
    let all = ops.push(op);
    assert forall|i: int| #![trigger all[i]] 0 <= i < all.len() implies tidy_at(
        all,
        entries + more,
        i,
    ) by {
        if i < ops.len() {
            assert(all[i] == ops[i]);
            assert(tidy_at(ops, entries, i));
            if i > 0 {
                assert(all[i - 1] == ops[i - 1]);
            }
            if let WriteOp::PutQuad(quad) = ops[i] {
                lemma_supplies_more(entries, more, quad_string_ids(quad));
            }
        }
    }
}

/// A write that was tidy stays so when a quad is put with its strings.
pub proof fn lemma_tidy_insert(
    ops: Seq<WriteOp>,
    entries: Seq<(StrHash, Seq<u8>)>,
    quad: Quad,
)
    requires
        tidy(ops, entries),
    ensures
        tidy(ops.push(WriteOp::PutQuad(encoded_quad(quad))), entries + quad_entries(quad)),
{
    let op = WriteOp::PutQuad(encoded_quad(quad));
    lemma_quad_supplied(quad);
    lemma_supplies_more(entries, quad_entries(quad), quad_string_ids(encoded_quad(quad)));
    assert(ops.push(op)[ops.len() as int] == op);
    lemma_tidy_push(ops, entries, op, quad_entries(quad));
}

/// A write that was tidy stays so by one more step that needs no strings.
pub proof fn lemma_tidy_alone(ops: Seq<WriteOp>, entries: Seq<(StrHash, Seq<u8>)>, op: WriteOp)
    requires
        tidy(ops, entries),
        tidy_at(ops.push(op), entries, ops.len() as int),
    ensures
        tidy(ops.push(op), entries),
{
    let none = Seq::<(StrHash, Seq<u8>)>::empty();
    assert(entries + none =~= entries);
    lemma_tidy_push(ops, entries, op, none);
}

} // verus!
