//! Sequences read as bags: what counts is how often an item occurs, not where.

use vstd::prelude::*;

verus! {

/// The sum of what `g` gives for the items.
pub open spec fn weight<T>(items: Seq<T>, g: spec_fn(T) -> int) -> int
    decreases items.len(),
{
    if items.len() == 0 {
        0
    } else {
        weight(items.drop_last(), g) + g(items.last())
    }
}

/// One for `item`, zero for anything else.
pub open spec fn is<T>(item: T) -> spec_fn(T) -> int {
    |other: T|
        if other == item {
            1int
        } else {
            0int
        }
}

/// How often `item` occurs.
pub open spec fn count<T>(items: Seq<T>, item: T) -> int {
    weight(items, is(item))
}

/// The items with the first occurrence of `item` taken out.
pub open spec fn without<T>(items: Seq<T>, item: T) -> Seq<T> {
    items.remove(items.index_of(item))
}

/// Whether two sequences hold the same items equally often.
pub open spec fn same_bag<T>(a: Seq<T>, b: Seq<T>) -> bool {
    forall|item: T| #[trigger] count(a, item) == count(b, item)
}

pub proof fn lemma_weight_push<T>(items: Seq<T>, item: T, g: spec_fn(T) -> int)
    ensures
        weight(items.push(item), g) == weight(items, g) + g(item),
{
    assert(items.push(item).drop_last() =~= items);
}

pub proof fn lemma_weight_add<T>(a: Seq<T>, b: Seq<T>, g: spec_fn(T) -> int)
    ensures
        weight(a + b, g) == weight(a, g) + weight(b, g),
    decreases b.len(),
{
    if b.len() == 0 {
        assert(a + b =~= a);
    } else {
        assert((a + b).drop_last() =~= a + b.drop_last());
        lemma_weight_add(a, b.drop_last(), g);
    }
}

pub proof fn lemma_weight_remove<T>(items: Seq<T>, at: int, g: spec_fn(T) -> int)
    requires
        0 <= at < items.len(),
    ensures
        weight(items.remove(at), g) == weight(items, g) - g(items[at]),
    decreases items.len(),
{
    if at == items.len() - 1 {
        assert(items.remove(at) =~= items.drop_last());
    } else {
        assert(items.remove(at).drop_last() =~= items.drop_last().remove(at));
        lemma_weight_remove(items.drop_last(), at, g);
    }
}

pub proof fn lemma_weight_update<T>(items: Seq<T>, at: int, item: T, g: spec_fn(T) -> int)
    requires
        0 <= at < items.len(),
    ensures
        weight(items.update(at, item), g) == weight(items, g) - g(items[at]) + g(item),
    decreases items.len(),
{
    if at == items.len() - 1 {
        assert(items.update(at, item).drop_last() =~= items.drop_last());
    } else {
        assert(items.update(at, item).drop_last() =~= items.drop_last().update(at, item));
        lemma_weight_update(items.drop_last(), at, item, g);
    }
}

/// Taking an item out by putting the last one in its place.
pub proof fn lemma_weight_swap_remove<T>(items: Seq<T>, at: int, g: spec_fn(T) -> int)
    requires
        0 <= at < items.len(),
    ensures
        weight(items.update(at, items.last()).drop_last(), g) == weight(items, g) - g(items[at]),
{
    lemma_weight_update(items, at, items.last(), g);
}

pub proof fn lemma_weight_without<T>(items: Seq<T>, item: T, g: spec_fn(T) -> int)
    requires
        items.contains(item),
    ensures
        weight(without(items, item), g) == weight(items, g) - g(item),
        without(items, item).len() == items.len() - 1,
{
    lemma_weight_remove(items, items.index_of(item), g);
}

pub proof fn lemma_weight_same<T>(items: Seq<T>, g: spec_fn(T) -> int, h: spec_fn(T) -> int)
    requires
        forall|i: int| 0 <= i < items.len() ==> g(#[trigger] items[i]) == h(items[i]),
    ensures
        weight(items, g) == weight(items, h),
    decreases items.len(),
{
    if items.len() > 0 {
        let front = items.drop_last();
        assert forall|i: int| 0 <= i < front.len() implies g(#[trigger] front[i]) == h(front[i]) by {
            assert(front[i] == items[i]);
        }
        lemma_weight_same(front, g, h);
        assert(g(items[items.len() - 1]) == h(items[items.len() - 1]));
    }
}

pub proof fn lemma_weight_bounds<T>(items: Seq<T>, g: spec_fn(T) -> int)
    requires
        forall|i: int| 0 <= i < items.len() ==> 0 <= g(#[trigger] items[i]) <= 1,
    ensures
        0 <= weight(items, g) <= items.len(),
        weight(items, g) > 0 <==> exists|i: int| 0 <= i < items.len() && g(#[trigger] items[i]) == 1,
    decreases items.len(),
{
    if items.len() > 0 {
        let front = items.drop_last();
        let last = items.len() - 1;
        assert forall|i: int| 0 <= i < front.len() implies 0 <= g(#[trigger] front[i]) <= 1 by {
            assert(front[i] == items[i]);
        }
        lemma_weight_bounds(front, g);
        assert(0 <= g(items[last]) <= 1);
        if weight(front, g) > 0 {
            let i = choose|i: int| 0 <= i < front.len() && g(#[trigger] front[i]) == 1;
            assert(g(items[i]) == 1);
        }
        if exists|i: int| 0 <= i < items.len() && g(#[trigger] items[i]) == 1 {
            let i = choose|i: int| 0 <= i < items.len() && g(#[trigger] items[i]) == 1;
            if i < last {
                assert(g(front[i]) == 1);
            }
        }
    }
}

/// An item occurs if and only if its count is positive.
pub proof fn lemma_count<T>(items: Seq<T>, item: T)
    ensures
        0 <= count(items, item) <= items.len(),
        count(items, item) > 0 <==> items.contains(item),
{
    lemma_weight_bounds(items, is(item));
    if items.contains(item) {
        let i = choose|i: int| 0 <= i < items.len() && items[i] == item;
        assert(is(item)(items[i]) == 1);
    }
    if count(items, item) > 0 {
        let i = choose|i: int| 0 <= i < items.len() && is(item)(#[trigger] items[i]) == 1;
        assert(items[i] == item);
    }
}

/// In a sequence without repetitions each item occurs at most once.
pub proof fn lemma_count_unique<T>(items: Seq<T>, item: T)
    requires
        items.no_duplicates(),
    ensures
        count(items, item) == if items.contains(item) {
            1int
        } else {
            0int
        },
    decreases items.len(),
{
    lemma_count(items, item);
    if items.contains(item) {
        let i = choose|i: int| 0 <= i < items.len() && items[i] == item;
        lemma_weight_remove(items, i, is(item));
        let rest = items.remove(i);
        lemma_count(rest, item);
        if rest.contains(item) {
            let j = choose|j: int| 0 <= j < rest.len() && rest[j] == item;
            let k = if j < i { j } else { j + 1 };
            assert(items[k] == item);
        }
    }
}

/// Bags of the same items weigh the same.
pub proof fn lemma_weight_same_bag<T>(a: Seq<T>, b: Seq<T>, g: spec_fn(T) -> int)
    requires
        same_bag(a, b),
    ensures
        weight(a, g) == weight(b, g),
        a.len() == b.len(),
    decreases a.len(),
{
    if a.len() == 0 {
        if b.len() > 0 {
            lemma_count(b, b[0]);
            assert(b.contains(b[0]));
            assert(count(a, b[0]) == count(b, b[0]));
        }
    } else {
        let x = a.last();
        let at = a.len() - 1;
        assert(a[at] == x);
        lemma_count(a, x);
        lemma_count(b, x);
        assert(count(a, x) == count(b, x));
        assert(a.contains(x));
        let i = choose|i: int| 0 <= i < b.len() && b[i] == x;
        let rest = b.remove(i);
        assert forall|item: T| #[trigger] count(a.drop_last(), item) == count(rest, item) by {
            lemma_weight_remove(b, i, is(item));
            assert(count(a, item) == count(b, item));
        }
        lemma_weight_same_bag(a.drop_last(), rest, g);
        lemma_weight_remove(b, i, g);
    }
}

pub proof fn lemma_same_bag_transitive<T>(a: Seq<T>, b: Seq<T>, c: Seq<T>)
    requires
        same_bag(a, b),
        same_bag(b, c),
    ensures
        same_bag(a, c),
{
    assert forall|item: T| #[trigger] count(a, item) == count(c, item) by {
        assert(count(a, item) == count(b, item));
        assert(count(b, item) == count(c, item));
    }
}

pub proof fn lemma_weight_zero<T>(items: Seq<T>)
    ensures
        weight(items, |item: T| 0int) == 0,
    decreases items.len(),
{
    if items.len() > 0 {
        lemma_weight_zero(items.drop_last());
    }
}

/// The sum of two weights, item by item.
pub proof fn lemma_weight_sum<T>(
    items: Seq<T>,
    g: spec_fn(T) -> int,
    h: spec_fn(T) -> int,
    sum: spec_fn(T) -> int,
)
    requires
        forall|i: int|
            0 <= i < items.len() ==> sum(#[trigger] items[i]) == g(items[i]) + h(items[i]),
    ensures
        weight(items, sum) == weight(items, g) + weight(items, h),
    decreases items.len(),
{
    if items.len() > 0 {
        let front = items.drop_last();
        assert forall|i: int| 0 <= i < front.len() implies sum(#[trigger] front[i]) == g(front[i])
            + h(front[i]) by {
            assert(front[i] == items[i]);
        }
        lemma_weight_sum(front, g, h, sum);
        let last = items.len() - 1;
        assert(sum(items[last]) == g(items[last]) + h(items[last]));
    }
}

/// What is left when a sequence is passed through a partial function.
pub open spec fn filter_map<T, U>(items: Seq<T>, f: spec_fn(T) -> Option<U>) -> Seq<U>
    decreases items.len(),
{
    if items.len() == 0 {
        Seq::empty()
    } else {
        let front = filter_map(items.drop_last(), f);
        match f(items.last()) {
            Some(image) => front.push(image),
            None => front,
        }
    }
}

/// The weight of an item by the weight of its image.
pub open spec fn through<T, U>(f: spec_fn(T) -> Option<U>, g: spec_fn(U) -> int) -> spec_fn(
    T,
) -> int {
    |item: T|
        match f(item) {
            Some(image) => g(image),
            None => 0int,
        }
}

pub proof fn lemma_filter_map_push<T, U>(items: Seq<T>, item: T, f: spec_fn(T) -> Option<U>)
    ensures
        filter_map(items.push(item), f) == match f(item) {
            Some(image) => filter_map(items, f).push(image),
            None => filter_map(items, f),
        },
{
    assert(items.push(item).drop_last() =~= items);
}

/// An image occurs exactly when an item with that image does.
pub proof fn lemma_filter_map_contains<T, U>(items: Seq<T>, f: spec_fn(T) -> Option<U>, image: U)
    ensures
        filter_map(items, f).contains(image) <==> exists|i: int|
            0 <= i < items.len() && f(#[trigger] items[i]) == Some(image),
    decreases items.len(),
{
    if items.len() > 0 {
        let front = items.drop_last();
        let last = items.len() - 1;
        lemma_filter_map_contains(front, f, image);
        let mapped = filter_map(items, f);
        let mapped_front = filter_map(front, f);
        if mapped.contains(image) {
            let j = choose|j: int| 0 <= j < mapped.len() && mapped[j] == image;
            if j < mapped_front.len() {
                assert(mapped_front[j] == image);
                let i = choose|i: int| 0 <= i < front.len() && f(#[trigger] front[i]) == Some(image);
                assert(f(items[i]) == Some(image));
            } else {
                assert(f(items[last]) == Some(image));
            }
        }
        if exists|i: int| 0 <= i < items.len() && f(#[trigger] items[i]) == Some(image) {
            let i = choose|i: int| 0 <= i < items.len() && f(#[trigger] items[i]) == Some(image);
            if i < last {
                assert(f(front[i]) == Some(image));
                let j = choose|j: int| 0 <= j < mapped_front.len() && mapped_front[j] == image;
                assert(mapped[j] == image);
            } else {
                assert(mapped[mapped.len() - 1] == image);
            }
        }
    }
}

pub proof fn lemma_filter_map_weight<T, U>(
    items: Seq<T>,
    f: spec_fn(T) -> Option<U>,
    g: spec_fn(U) -> int,
)
    ensures
        weight(filter_map(items, f), g) == weight(items, through(f, g)),
    decreases items.len(),
{
    if items.len() > 0 {
        lemma_filter_map_weight(items.drop_last(), f, g);
        match f(items.last()) {
            Some(image) => {
                lemma_weight_push(filter_map(items.drop_last(), f), image, g);
            },
            None => {},
        }
    }
}

/// Equal bags have equal bags of images.
pub proof fn lemma_filter_map_same_bag<T, U>(a: Seq<T>, b: Seq<T>, f: spec_fn(T) -> Option<U>)
    requires
        same_bag(a, b),
    ensures
        same_bag(filter_map(a, f), filter_map(b, f)),
{
    assert forall|image: U| #[trigger] count(filter_map(a, f), image) == count(
        filter_map(b, f),
        image,
    ) by {
        lemma_filter_map_weight(a, f, is(image));
        lemma_filter_map_weight(b, f, is(image));
        lemma_weight_same_bag(a, b, through(f, is(image)));
    }
}

/// Where nothing weighs less than nothing, all weighs at least as much as a part.
pub proof fn lemma_weight_at_least<T>(items: Seq<T>, at: int, g: spec_fn(T) -> int)
    requires
        0 <= at < items.len(),
        forall|i: int| 0 <= i < items.len() ==> 0 <= g(#[trigger] items[i]),
    ensures
        weight(items, g) >= g(items[at]),
        weight(items, g) >= 0,
    decreases items.len(),
{
    let front = items.drop_last();
    assert(0 <= g(items[items.len() - 1]));
    assert forall|i: int| 0 <= i < front.len() implies 0 <= g(#[trigger] front[i]) by {
        assert(front[i] == items[i]);
    }
    if at < front.len() {
        lemma_weight_at_least(front, at, g);
    } else if front.len() > 0 {
        lemma_weight_at_least(front, 0, g);
    }
}

/// Sequences of which each starts where the one before ends.
pub open spec fn concat<T, U>(items: Seq<T>, f: spec_fn(T) -> Seq<U>) -> Seq<U>
    decreases items.len(),
{
    if items.len() == 0 {
        Seq::empty()
    } else {
        concat(items.drop_last(), f) + f(items.last())
    }
}

pub proof fn lemma_concat_update<T, U>(
    items: Seq<T>,
    at: int,
    item: T,
    f: spec_fn(T) -> Seq<U>,
)
    requires
        0 <= at < items.len(),
        f(item) == f(items[at]),
    ensures
        concat(items.update(at, item), f) == concat(items, f),
    decreases items.len(),
{
    let changed = items.update(at, item);
    if at == items.len() - 1 {
        assert(changed.drop_last() =~= items.drop_last());
    } else {
        assert(changed.drop_last() =~= items.drop_last().update(at, item));
        lemma_concat_update(items.drop_last(), at, item, f);
    }
}

pub proof fn lemma_concat_weight<T, U>(
    items: Seq<T>,
    f: spec_fn(T) -> Seq<U>,
    g: spec_fn(U) -> int,
)
    ensures
        weight(concat(items, f), g) == weight(items, |item: T| weight(f(item), g)),
    decreases items.len(),
{
    if items.len() > 0 {
        lemma_concat_weight(items.drop_last(), f, g);
        lemma_weight_add(concat(items.drop_last(), f), f(items.last()), g);
    }
}

/// Whether everything occurs in `b` at least as often as in `a`.
pub open spec fn sub_bag<T>(a: Seq<T>, b: Seq<T>) -> bool {
    forall|item: T| #[trigger] count(a, item) <= count(b, item)
}

proof fn lemma_weight_positive<T>(items: Seq<T>, g: spec_fn(T) -> int)
    requires
        forall|item: T| 0 <= #[trigger] g(item),
    ensures
        0 <= weight(items, g),
    decreases items.len(),
{
    if items.len() > 0 {
        lemma_weight_positive(items.drop_last(), g);
    }
}

/// Where nothing weighs less than nothing, a part of a bag weighs at most as much as the bag.
pub proof fn lemma_weight_sub_bag<T>(a: Seq<T>, b: Seq<T>, g: spec_fn(T) -> int)
    requires
        sub_bag(a, b),
        forall|item: T| 0 <= #[trigger] g(item),
    ensures
        weight(a, g) <= weight(b, g),
    decreases a.len(),
{
    if a.len() == 0 {
        lemma_weight_positive(b, g);
    } else {
        let item = a.last();
        let front = a.drop_last();
        assert(a =~= front.push(item));
        assert(b.contains(item)) by {
            lemma_count(front, item);
            lemma_weight_push(front, item, is(item));
            assert(count(a, item) <= count(b, item));
            lemma_count(b, item);
        }
        let rest = without(b, item);
        assert forall|other: T| #[trigger] count(front, other) <= count(rest, other) by {
            lemma_weight_push(front, item, is(other));
            lemma_weight_without(b, item, is(other));
            assert(count(a, other) <= count(b, other));
        }
        lemma_weight_sub_bag(front, rest, g);
        lemma_weight_without(b, item, g);
    }
}

/// What weighs more item by item weighs more together.
pub proof fn lemma_weight_more<T>(items: Seq<T>, g: spec_fn(T) -> int, h: spec_fn(T) -> int)
    requires
        forall|item: T| #[trigger] g(item) <= h(item),
    ensures
        weight(items, g) <= weight(items, h),
    decreases items.len(),
{
    if items.len() > 0 {
        lemma_weight_more(items.drop_last(), g, h);
        assert(g(items.last()) <= h(items.last()));
    }
}

/// The images of a part of a bag are a part of the images of the bag.
pub proof fn lemma_filter_map_sub_bag<T, U>(a: Seq<T>, b: Seq<T>, f: spec_fn(T) -> Option<U>)
    requires
        sub_bag(a, b),
    ensures
        sub_bag(filter_map(a, f), filter_map(b, f)),
{
    assert forall|image: U| #[trigger] count(filter_map(a, f), image) <= count(
        filter_map(b, f),
        image,
    ) by {
        lemma_filter_map_weight(a, f, is(image));
        lemma_filter_map_weight(b, f, is(image));
        lemma_weight_sub_bag(a, b, through(f, is(image)));
    }
}

/// A part of a bag has at most as many items as the bag.
pub proof fn lemma_sub_bag_len<T>(a: Seq<T>, b: Seq<T>)
    requires
        sub_bag(a, b),
    ensures
        a.len() <= b.len(),
{
    let one = |item: T| 1int;
    lemma_weight_sub_bag(a, b, one);
    lemma_weight_len(a);
    lemma_weight_len(b);
}

proof fn lemma_weight_len<T>(items: Seq<T>)
    ensures
        weight(items, |item: T| 1int) == items.len(),
    decreases items.len(),
{
    if items.len() > 0 {
        lemma_weight_len(items.drop_last());
    }
}

} // verus!
