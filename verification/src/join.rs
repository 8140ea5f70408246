//! Joins of two bags of rows that are kept up to date from the changes of either side.

use crate::bag::{
    concat, count, filter_map, is, lemma_concat_weight, lemma_count, lemma_filter_map_contains,
    lemma_filter_map_push, lemma_filter_map_same_bag, lemma_filter_map_sub_bag,
    lemma_filter_map_weight, lemma_weight_add, lemma_weight_at_least, lemma_weight_more,
    lemma_weight_push, lemma_weight_same, lemma_weight_same_bag, lemma_weight_sub_bag,
    lemma_weight_sum, lemma_weight_without, same_bag, sub_bag, through, weight,
};
use crate::delta::Delta;
use crate::replay::{applies, step};
use crate::tuple::{
    combined, law_combined_bindings, law_rows_combine_where_they_agree,
    law_rows_that_disagree_do_not_combine, row_key, rows, TupleView,
};
use vstd::prelude::*;

verus! {

/// How two rows are joined, if they are.
pub type Pairing = spec_fn(TupleView, TupleView) -> Option<TupleView>;

/// Rows are joined where they are compatible.
pub open spec fn by_bindings() -> Pairing {
    |left: TupleView, right: TupleView| combined(left, right)
}

/// Rows are joined where they are compatible and their key columns have the same hash.
pub open spec fn by_key(key: Seq<usize>) -> Pairing {
    |left: TupleView, right: TupleView|
        if row_key(key, left) == row_key(key, right) {
            combined(left, right)
        } else {
            None
        }
}

/// What a row on the right is joined to with a given row on the left.
pub open spec fn after_left(pairing: Pairing, left: TupleView) -> spec_fn(TupleView) -> Option<
    TupleView,
> {
    |right: TupleView| pairing(left, right)
}

/// What a row on the left is joined to with a given row on the right.
pub open spec fn before_right(pairing: Pairing, right: TupleView) -> spec_fn(TupleView) -> Option<
    TupleView,
> {
    |left: TupleView| pairing(left, right)
}

pub open spec fn row_joined(right: Seq<TupleView>, pairing: Pairing) -> spec_fn(TupleView) -> Seq<
    TupleView,
> {
    |left: TupleView| filter_map(right, after_left(pairing, left))
}

/// The rows that two bags of rows are joined to.
pub open spec fn joined(left: Seq<TupleView>, right: Seq<TupleView>, pairing: Pairing) -> Seq<
    TupleView,
> {
    concat(left, row_joined(right, pairing))
}

/// How often rows of the right become `row` with a given row of the left.
pub open spec fn times(
    right: Seq<TupleView>,
    pairing: Pairing,
    row: TupleView,
) -> spec_fn(TupleView) -> int {
    |left: TupleView| weight(row_joined(right, pairing)(left), is(row))
}

pub proof fn lemma_joined_count(
    left: Seq<TupleView>,
    right: Seq<TupleView>,
    pairing: Pairing,
    row: TupleView,
)
    ensures
        count(joined(left, right, pairing), row) == weight(left, times(right, pairing, row)),
{
    lemma_concat_weight(left, row_joined(right, pairing), is(row));
    lemma_weight_same(
        left,
        |l: TupleView| weight(row_joined(right, pairing)(l), is(row)),
        times(right, pairing, row),
    );
}

/// A change on the left changes the joined rows by what it is joined to on the right.
pub proof fn lemma_joined_left(
    left: Seq<TupleView>,
    right: Seq<TupleView>,
    pairing: Pairing,
    delta: Delta<TupleView>,
    row: TupleView,
)
    requires
        applies(left, delta),
    ensures
        count(joined(step(left, delta), right, pairing), row) == count(
            joined(left, right, pairing),
            row,
        ) + if delta is Addition {
            count(filter_map(right, after_left(pairing, delta.value_of())), row)
        } else {
            -count(filter_map(right, after_left(pairing, delta.value_of())), row)
        },
{
    let g = times(right, pairing, row);
    lemma_joined_count(left, right, pairing, row);
    lemma_joined_count(step(left, delta), right, pairing, row);
    match delta {
        Delta::Addition(value) => {
            lemma_weight_push(left, value, g);
        },
        Delta::Deletion(value) => {
            lemma_weight_without(left, value, g);
        },
    }
}

/// A change on the right changes the joined rows by what it is joined to on the left.
pub proof fn lemma_joined_right(
    left: Seq<TupleView>,
    right: Seq<TupleView>,
    pairing: Pairing,
    delta: Delta<TupleView>,
    row: TupleView,
)
    requires
        applies(right, delta),
    ensures
        count(joined(left, step(right, delta), pairing), row) == count(
            joined(left, right, pairing),
            row,
        ) + if delta is Addition {
            count(filter_map(left, before_right(pairing, delta.value_of())), row)
        } else {
            -count(filter_map(left, before_right(pairing, delta.value_of())), row)
        },
{
    let value = delta.value_of();
    let after = step(right, delta);
    let one = through(before_right(pairing, value), is(row));
    lemma_joined_count(left, right, pairing, row);
    lemma_joined_count(left, after, pairing, row);
    lemma_filter_map_weight(left, before_right(pairing, value), is(row));
    assert forall|l: TupleView| #[trigger]
        times(after, pairing, row)(l) == times(right, pairing, row)(l) + if delta is Addition {
            one(l)
        } else {
            -one(l)
        } by {
        let h = through(after_left(pairing, l), is(row));
        lemma_filter_map_weight(right, after_left(pairing, l), is(row));
        lemma_filter_map_weight(after, after_left(pairing, l), is(row));
        match delta {
            Delta::Addition(value) => {
                lemma_weight_push(right, value, h);
            },
            Delta::Deletion(value) => {
                lemma_weight_without(right, value, h);
            },
        }
        assert(h(value) == one(l));
    }
    match delta {
        Delta::Addition(_) => {
            assert forall|i: int| 0 <= i < left.len() implies times(after, pairing, row)(
                #[trigger] left[i],
            ) == times(right, pairing, row)(left[i]) + one(left[i]) by {}
            lemma_weight_sum(
                left,
                times(right, pairing, row),
                one,
                times(after, pairing, row),
            );
        },
        Delta::Deletion(_) => {
            assert forall|i: int| 0 <= i < left.len() implies times(right, pairing, row)(
                #[trigger] left[i],
            ) == times(after, pairing, row)(left[i]) + one(left[i]) by {
                assert(times(after, pairing, row)(left[i]) == times(right, pairing, row)(left[i])
                    - one(left[i]));
            }
            lemma_weight_sum(
                left,
                times(after, pairing, row),
                one,
                times(right, pairing, row),
            );
        },
    }
}

/// Bags of the same rows are joined to the same rows.
pub proof fn lemma_joined_same(
    left: Seq<TupleView>,
    other_left: Seq<TupleView>,
    right: Seq<TupleView>,
    other_right: Seq<TupleView>,
    pairing: Pairing,
)
    requires
        same_bag(left, other_left),
        same_bag(right, other_right),
    ensures
        same_bag(joined(left, right, pairing), joined(other_left, other_right, pairing)),
{
    assert forall|row: TupleView| #[trigger]
        count(joined(left, right, pairing), row) == count(
            joined(other_left, other_right, pairing),
            row,
        ) by {
        let g = times(right, pairing, row);
        let h = times(other_right, pairing, row);
        lemma_joined_count(left, right, pairing, row);
        lemma_joined_count(other_left, other_right, pairing, row);
        lemma_weight_same_bag(left, other_left, g);
        assert forall|i: int| 0 <= i < other_left.len() implies g(#[trigger] other_left[i]) == h(
            other_left[i],
        ) by {
            lemma_filter_map_same_bag(
                right,
                other_right,
                after_left(pairing, other_left[i]),
            );
            assert(count(filter_map(right, after_left(pairing, other_left[i])), row) == count(
                filter_map(other_right, after_left(pairing, other_left[i])),
                row,
            ));
        }
        lemma_weight_same(other_left, g, h);
    }
}

/// Rows are joined one by one: the rows that a bag is joined to are those that its parts are
/// joined to.
pub proof fn law_parts_are_joined_by_themselves(
    left: Seq<TupleView>,
    more_left: Seq<TupleView>,
    right: Seq<TupleView>,
    more_right: Seq<TupleView>,
    pairing: Pairing,
    row: TupleView,
)
    ensures
        count(joined(left + more_left, right, pairing), row) == count(
            joined(left, right, pairing),
            row,
        ) + count(joined(more_left, right, pairing), row),
        count(joined(left, right + more_right, pairing), row) == count(
            joined(left, right, pairing),
            row,
        ) + count(joined(left, more_right, pairing), row),
{
    lemma_joined_count(left + more_left, right, pairing, row);
    lemma_joined_count(left, right, pairing, row);
    lemma_joined_count(more_left, right, pairing, row);
    lemma_weight_add(left, more_left, times(right, pairing, row));
    lemma_joined_count(left, right + more_right, pairing, row);
    lemma_joined_count(left, more_right, pairing, row);
    let g = times(right, pairing, row);
    let h = times(more_right, pairing, row);
    let both = times(right + more_right, pairing, row);
    assert forall|i: int| 0 <= i < left.len() implies both(#[trigger] left[i]) == g(left[i]) + h(
        left[i],
    ) by {
        let f = after_left(pairing, left[i]);
        lemma_filter_map_weight(right + more_right, f, is(row));
        lemma_filter_map_weight(right, f, is(row));
        lemma_filter_map_weight(more_right, f, is(row));
        lemma_weight_add(right, more_right, through(f, is(row)));
    }
    lemma_weight_sum(left, g, h, both);
}

/// Two rows that bind no column to different values, and are not in different graphs, are
/// joined to one row, which has the bindings of both; all other pairs are joined to none.
pub proof fn law_single_rows_are_joined_where_they_agree(a: TupleView, b: TupleView)
    ensures
        (forall|i: int|
            (#[trigger] a.column(i)) is None || b.column(i) is None || a.column(i) == b.column(i))
            && (a.graph_name is None || b.graph_name is None || a.graph_name == b.graph_name)
            ==> joined(seq![a], seq![b], by_bindings()).len() == 1 && forall|i: int|
            (#[trigger] joined(seq![a], seq![b], by_bindings())[0].column(i)) == if a.column(
                i,
            ) is Some {
                a.column(i)
            } else {
                b.column(i)
            },
        (exists|i: int|
            (#[trigger] a.column(i)) is Some && b.column(i) is Some && a.column(i) != b.column(i))
            || (a.graph_name is Some && b.graph_name is Some && a.graph_name != b.graph_name)
            ==> joined(seq![a], seq![b], by_bindings()).len() == 0,
{
    let f = after_left(by_bindings(), a);
    lemma_filter_map_push(Seq::<TupleView>::empty(), b, f);
    assert(seq![b] =~= Seq::<TupleView>::empty().push(b));
    assert(filter_map(Seq::<TupleView>::empty(), f) =~= Seq::empty());
    assert(seq![a].drop_last() =~= Seq::<TupleView>::empty());
    assert(concat(seq![a].drop_last(), row_joined(seq![b], by_bindings())) =~= Seq::empty());
    assert(joined(seq![a], seq![b], by_bindings()) =~= filter_map(seq![b], f));
    if (forall|i: int|
        (#[trigger] a.column(i)) is None || b.column(i) is None || a.column(i) == b.column(i))
        && (a.graph_name is None || b.graph_name is None || a.graph_name == b.graph_name) {
        law_rows_combine_where_they_agree(a, b);
    }
    if (exists|i: int|
        (#[trigger] a.column(i)) is Some && b.column(i) is Some && a.column(i) != b.column(i)) || (
    a.graph_name is Some && b.graph_name is Some && a.graph_name != b.graph_name) {
        law_rows_that_disagree_do_not_combine(a, b);
    }
}

/// A join has a row for every pair of rows of its sides that bind no column to different
/// values and are not in different graphs.
pub proof fn law_every_pair_that_agrees_is_joined(
    left: Seq<TupleView>,
    right: Seq<TupleView>,
    i: int,
    j: int,
)
    requires
        0 <= i < left.len(),
        0 <= j < right.len(),
        forall|c: int|
            (#[trigger] left[i].column(c)) is None || right[j].column(c) is None
                || left[i].column(c) == right[j].column(c),
        left[i].graph_name is None || right[j].graph_name is None || left[i].graph_name
            == right[j].graph_name,
    ensures
        exists|row: TupleView| #[trigger]
            joined(left, right, by_bindings()).contains(row) && forall|c: int|
                (#[trigger] row.column(c)) == if left[i].column(c) is Some {
                    left[i].column(c)
                } else {
                    right[j].column(c)
                },
{
    law_rows_combine_where_they_agree(left[i], right[j]);
    let row = combined(left[i], right[j])->0;
    lemma_joined_contains(left, right, by_bindings(), i, j, row);
}

/// A row of a pair of rows is among those that the sides are joined to.
proof fn lemma_joined_contains(
    left: Seq<TupleView>,
    right: Seq<TupleView>,
    pairing: Pairing,
    i: int,
    j: int,
    row: TupleView,
)
    requires
        0 <= i < left.len(),
        0 <= j < right.len(),
        pairing(left[i], right[j]) == Some(row),
    ensures
        joined(left, right, pairing).contains(row),
{
    let g = times(right, pairing, row);
    lemma_joined_count(left, right, pairing, row);
    assert forall|k: int| 0 <= k < left.len() implies 0 <= g(#[trigger] left[k]) by {
        lemma_count(row_joined(right, pairing)(left[k]), row);
    }
    lemma_filter_map_contains(right, after_left(pairing, left[i]), row);
    lemma_count(row_joined(right, pairing)(left[i]), row);
    lemma_weight_at_least(left, i, g);
    lemma_count(joined(left, right, pairing), row);
}

/// Every row of a join is that of a pair of rows of its sides that agree.
pub proof fn law_joined_rows_come_from_pairs(
    left: Seq<TupleView>,
    right: Seq<TupleView>,
    k: int,
)
    requires
        0 <= k < joined(left, right, by_bindings()).len(),
    ensures
        exists|i: int, j: int|
            #![trigger left[i], right[j]]
            0 <= i < left.len() && 0 <= j < right.len() && forall|c: int|
                (#[trigger] joined(left, right, by_bindings())[k].column(c)) == (
                if left[i].column(c) is Some {
                    left[i].column(c)
                } else {
                    right[j].column(c)
                }) && (left[i].column(c) is None || right[j].column(c) is None
                    || left[i].column(c) == right[j].column(c)),
{
    let (i, j) = lemma_joined_from(left, right, by_bindings(), k);
    assert(left[i] == left[i] && right[j] == right[j]);
}

/// Every row of a join by the hash of key columns is that of a pair of rows of its sides that
/// agree.
pub proof fn law_rows_joined_by_key_come_from_pairs(
    key: Seq<usize>,
    left: Seq<TupleView>,
    right: Seq<TupleView>,
    k: int,
)
    requires
        0 <= k < joined(left, right, by_key(key)).len(),
    ensures
        exists|i: int, j: int|
            #![trigger left[i], right[j]]
            0 <= i < left.len() && 0 <= j < right.len() && row_key(key, left[i]) == row_key(
                key,
                right[j],
            ) && forall|c: int|
                (#[trigger] joined(left, right, by_key(key))[k].column(c)) == (
                if left[i].column(c) is Some {
                    left[i].column(c)
                } else {
                    right[j].column(c)
                }) && (left[i].column(c) is None || right[j].column(c) is None
                    || left[i].column(c) == right[j].column(c)),
{
    let (i, j) = lemma_joined_from(left, right, by_key(key), k);
    assert(by_key(key)(left[i], right[j]) is Some);
    assert(left[i] == left[i] && right[j] == right[j]);
}

proof fn lemma_joined_from(
    left: Seq<TupleView>,
    right: Seq<TupleView>,
    pairing: Pairing,
    k: int,
) -> (pair: (int, int))
    requires
        0 <= k < joined(left, right, pairing).len(),
        forall|a: TupleView, b: TupleView|
            (#[trigger] pairing(a, b)) is Some ==> pairing(a, b) == combined(a, b),
    ensures
        0 <= pair.0 < left.len(),
        0 <= pair.1 < right.len(),
        pairing(left[pair.0], right[pair.1]) is Some,
        forall|c: int|
            (#[trigger] joined(left, right, pairing)[k].column(c)) == (
            if left[pair.0].column(c) is Some {
                left[pair.0].column(c)
            } else {
                right[pair.1].column(c)
            }) && (left[pair.0].column(c) is None || right[pair.1].column(c) is None
                || left[pair.0].column(c) == right[pair.1].column(c)),
{
    let row = joined(left, right, pairing)[k];
    let g = times(right, pairing, row);
    lemma_joined_count(left, right, pairing, row);
    lemma_count(joined(left, right, pairing), row);
    let i = lemma_weight_from(left, g);
    let f = after_left(pairing, left[i]);
    lemma_count(row_joined(right, pairing)(left[i]), row);
    lemma_filter_map_contains(right, f, row);
    let j = choose|j: int| 0 <= j < right.len() && f(#[trigger] right[j]) == Some(row);
    assert(pairing(left[i], right[j]) == Some(row));
    assert(combined(left[i], right[j]) == Some(row));
    assert(left[i] == left[i] && right[j] == right[j]);
    assert forall|c: int|
        (#[trigger] row.column(c)) == (if left[i].column(c) is Some {
            left[i].column(c)
        } else {
            right[j].column(c)
        }) && (left[i].column(c) is None || right[j].column(c) is None || left[i].column(c)
            == right[j].column(c)) by {
        law_combined_bindings(left[i], right[j], c);
        assert(crate::tuple::agree(left[i].column(c), right[j].column(c)));
    }
    (i, j)
}

/// Where items weigh something together, one of them does.
proof fn lemma_weight_from(items: Seq<TupleView>, g: spec_fn(TupleView) -> int) -> (i: int)
    requires
        weight(items, g) > 0,
    ensures
        0 <= i < items.len(),
        g(items[i]) > 0,
    decreases items.len(),
{
    if g(items.last()) > 0 {
        items.len() - 1
    } else {
        lemma_weight_from(items.drop_last(), g)
    }
}

/// The join of parts of bags is a part of the join of the bags.
pub proof fn lemma_joined_sub_bag(
    left: Seq<TupleView>,
    more_left: Seq<TupleView>,
    right: Seq<TupleView>,
    more_right: Seq<TupleView>,
    pairing: Pairing,
)
    requires
        sub_bag(left, more_left),
        sub_bag(right, more_right),
    ensures
        sub_bag(joined(left, right, pairing), joined(more_left, more_right, pairing)),
{
    assert forall|row: TupleView| #[trigger]
        count(joined(left, right, pairing), row) <= count(
            joined(more_left, more_right, pairing),
            row,
        ) by {
        let g = times(right, pairing, row);
        let h = times(more_right, pairing, row);
        lemma_joined_count(left, right, pairing, row);
        lemma_joined_count(more_left, more_right, pairing, row);
        assert forall|l: TupleView| 0 <= #[trigger] g(l) by {
            lemma_count(row_joined(right, pairing)(l), row);
        }
        assert forall|l: TupleView| #[trigger] g(l) <= h(l) by {
            lemma_filter_map_sub_bag(right, more_right, after_left(pairing, l));
            assert(count(row_joined(right, pairing)(l), row) <= count(
                row_joined(more_right, pairing)(l),
                row,
            ));
        }
        lemma_weight_sub_bag(left, more_left, g);
        lemma_weight_more(more_left, g, h);
    }
}

/// Whether all rows of a bag bind all key columns.
pub open spec fn all_bind(key: Seq<usize>, rows: Seq<TupleView>) -> bool {
    forall|i: int, k: int|
        0 <= i < rows.len() && 0 <= k < key.len() ==> (#[trigger] rows[i]).column(
            (#[trigger] key[k]) as int,
        ) is Some
}

/// Compatible rows that bind all key columns have the same key.
proof fn lemma_same_key(key: Seq<usize>, left: TupleView, right: TupleView)
    requires
        combined(left, right) is Some,
        forall|k: int| 0 <= k < key.len() ==> left.column((#[trigger] key[k]) as int) is Some,
        forall|k: int| 0 <= k < key.len() ==> right.column((#[trigger] key[k]) as int) is Some,
    ensures
        crate::tuple::key_words(key, left) == crate::tuple::key_words(key, right),
    decreases key.len(),
{
    if key.len() > 0 {
        let last = key.len() - 1;
        assert(left.column(key[last] as int) is Some);
        assert(right.column(key[last] as int) is Some);
        assert(crate::tuple::agree(
            left.column(key[last] as int),
            right.column(key[last] as int),
        ));
        let front = key.drop_last();
        assert forall|k: int| 0 <= k < front.len() implies left.column(
            (#[trigger] front[k]) as int,
        ) is Some by {
            assert(left.column(key[k] as int) is Some);
        }
        assert forall|k: int| 0 <= k < front.len() implies right.column(
            (#[trigger] front[k]) as int,
        ) is Some by {
            assert(right.column(key[k] as int) is Some);
        }
        lemma_same_key(front, left, right);
    }
}

/// A join by the hash of key columns has a row for every pair of rows of its sides that agree
/// and have the same values in the key columns.
pub proof fn law_every_pair_with_the_same_key_is_joined(
    key: Seq<usize>,
    left: Seq<TupleView>,
    right: Seq<TupleView>,
    i: int,
    j: int,
)
    requires
        0 <= i < left.len(),
        0 <= j < right.len(),
        forall|c: int|
            (#[trigger] left[i].column(c)) is None || right[j].column(c) is None
                || left[i].column(c) == right[j].column(c),
        left[i].graph_name is None || right[j].graph_name is None || left[i].graph_name
            == right[j].graph_name,
        forall|k: int|
            0 <= k < key.len() ==> left[i].column((#[trigger] key[k]) as int) == right[j].column(
                key[k] as int,
            ),
    ensures
        exists|row: TupleView| #[trigger]
            joined(left, right, by_key(key)).contains(row) && forall|c: int|
                (#[trigger] row.column(c)) == if left[i].column(c) is Some {
                    left[i].column(c)
                } else {
                    right[j].column(c)
                },
{
    law_rows_combine_where_they_agree(left[i], right[j]);
    lemma_equal_keys(key, left[i], right[j]);
    let row = combined(left[i], right[j])->0;
    lemma_joined_contains(left, right, by_key(key), i, j, row);
}

/// Rows with the same values in the key columns have the same key.
proof fn lemma_equal_keys(key: Seq<usize>, left: TupleView, right: TupleView)
    requires
        forall|k: int|
            0 <= k < key.len() ==> left.column((#[trigger] key[k]) as int) == right.column(
                key[k] as int,
            ),
    ensures
        crate::tuple::key_words(key, left) == crate::tuple::key_words(key, right),
    decreases key.len(),
{
    if key.len() > 0 {
        let last = key.len() - 1;
        assert(left.column(key[last] as int) == right.column(key[last] as int));
        let front = key.drop_last();
        assert forall|k: int| 0 <= k < front.len() implies left.column((#[trigger] front[k]) as int)
            == right.column(front[k] as int) by {
            assert(left.column(key[k] as int) == right.column(key[k] as int));
        }
        lemma_equal_keys(front, left, right);
    }
}

/// Where every row binds every key column, joining by the hash of the key columns joins
/// exactly the compatible rows.
pub proof fn law_keyed_join_is_the_join(
    key: Seq<usize>,
    left: Seq<TupleView>,
    right: Seq<TupleView>,
)
    requires
        all_bind(key, left),
        all_bind(key, right),
    ensures
        joined(left, right, by_key(key)) == joined(left, right, by_bindings()),
    decreases left.len(),
{
    if left.len() > 0 {
        let front = left.drop_last();
        let last = left.len() - 1;
        assert(all_bind(key, front)) by {
            assert forall|i: int, k: int|
                0 <= i < front.len() && 0 <= k < key.len() implies (#[trigger] front[i]).column(
                (#[trigger] key[k]) as int,
            ) is Some by {
                assert(left[i].column(key[k] as int) is Some);
            }
        }
        law_keyed_join_is_the_join(key, front, right);
        assert(forall|k: int|
            0 <= k < key.len() ==> left[last].column((#[trigger] key[k]) as int) is Some);
        lemma_keyed_row(key, left[last], right);
    }
}

proof fn lemma_keyed_row(key: Seq<usize>, row: TupleView, right: Seq<TupleView>)
    requires
        forall|k: int| 0 <= k < key.len() ==> row.column((#[trigger] key[k]) as int) is Some,
        all_bind(key, right),
    ensures
        filter_map(right, after_left(by_key(key), row)) == filter_map(
            right,
            after_left(by_bindings(), row),
        ),
    decreases right.len(),
{
    if right.len() > 0 {
        let front = right.drop_last();
        let last = right.len() - 1;
        assert(all_bind(key, front)) by {
            assert forall|i: int, k: int|
                0 <= i < front.len() && 0 <= k < key.len() implies (#[trigger] front[i]).column(
                (#[trigger] key[k]) as int,
            ) is Some by {
                assert(right[i].column(key[k] as int) is Some);
            }
        }
        lemma_keyed_row(key, row, front);
        assert(forall|k: int|
            0 <= k < key.len() ==> right[last].column((#[trigger] key[k]) as int) is Some);
        if combined(row, right[last]) is Some {
            lemma_same_key(key, row, right[last]);
        }
    }
}

} // verus!
