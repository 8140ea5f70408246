//! Rows of bindings as the evaluator passes them between operators.

use crate::bag::{
    count, filter_map, is, lemma_count, lemma_filter_map_weight, lemma_weight_push,
    lemma_weight_same_bag, lemma_weight_swap_remove, lemma_weight_without, same_bag, through,
    weight, without,
};
use crate::fx::{fx_get, fx_insert, fx_new, fx_remove, hash_words, words_hash};
use crate::model::{names, Variable};
use crate::numeric_encoder::{encoded_words, EncodedTerm};
use rustc_hash::FxHashMap;
use vstd::prelude::*;

verus! {

/// A row: the values of the columns that are bound, and the graph it is evaluated in
/// where that is not the default graph.
pub struct InternalTuple {
    pub values: Vec<Option<EncodedTerm>>,
    pub graph_name: Option<EncodedTerm>,
}

pub struct TupleView {
    pub values: Seq<Option<EncodedTerm>>,
    pub graph_name: Option<EncodedTerm>,
}

impl View for InternalTuple {
    type V = TupleView;

    open spec fn view(&self) -> TupleView {
        TupleView { values: self.values@, graph_name: self.graph_name }
    }
}

impl TupleView {
    /// The value of a column, if it is bound.
    pub open spec fn column(self, index: int) -> Option<EncodedTerm> {
        if 0 <= index < self.values.len() {
            self.values[index]
        } else {
            None
        }
    }

    /// The row with a column bound to a value.
    pub open spec fn bind(self, index: nat, value: EncodedTerm) -> TupleView {
        TupleView {
            values: Seq::new(
                longer(self.values.len(), index + 1),
                |i: int|
                    if i == index {
                        Some(value)
                    } else {
                        self.column(i)
                    },
            ),
            graph_name: self.graph_name,
        }
    }
}

/// The larger of two lengths.
pub open spec fn longer(a: nat, b: nat) -> nat {
    if a < b {
        b
    } else {
        a
    }
}

/// Whether two optional values do not contradict each other.
pub open spec fn agree(a: Option<EncodedTerm>, b: Option<EncodedTerm>) -> bool {
    a is None || b is None || a == b
}

/// The first value, or the second one where there is no first.
pub open spec fn either(a: Option<EncodedTerm>, b: Option<EncodedTerm>) -> Option<EncodedTerm> {
    match a {
        Some(value) => Some(value),
        None => b,
    }
}

/// Whether two rows bind no column to different values.
pub open spec fn compatible(a: TupleView, b: TupleView) -> bool {
    &&& forall|i: int| agree(#[trigger] a.column(i), b.column(i))
    &&& agree(a.graph_name, b.graph_name)
}

/// The row that has the bindings of both rows, if they are compatible.
pub open spec fn combined(a: TupleView, b: TupleView) -> Option<TupleView> {
    if compatible(a, b) {
        Some(
            TupleView {
                values: Seq::new(
                    longer(a.values.len(), b.values.len()),
                    |i: int| either(a.column(i), b.column(i)),
                ),
                graph_name: either(a.graph_name, b.graph_name),
            },
        )
    } else {
        None
    }
}

/// It does not matter which of two rows is combined with the other.
pub proof fn law_combined_symmetric(a: TupleView, b: TupleView)
    ensures
        combined(a, b) == combined(b, a),
{
    if compatible(a, b) {
        assert forall|i: int| agree(#[trigger] b.column(i), a.column(i)) by {
            assert(agree(a.column(i), b.column(i)));
        }
        let left = combined(a, b)->0.values;
        let right = combined(b, a)->0.values;
        assert forall|i: int| 0 <= i < left.len() implies left[i] == right[i] by {
            assert(agree(a.column(i), b.column(i)));
        }
        assert(left =~= right);
    } else if compatible(b, a) {
        assert forall|i: int| agree(#[trigger] a.column(i), b.column(i)) by {
            assert(agree(b.column(i), a.column(i)));
        }
    }
}

/// A combined row has every binding of both rows and no other.
pub proof fn law_combined_bindings(a: TupleView, b: TupleView, index: int)
    requires
        compatible(a, b),
    ensures
        combined(a, b)->0.column(index) == either(a.column(index), b.column(index)),
        a.column(index) is Some ==> combined(a, b)->0.column(index) == a.column(index),
        b.column(index) is Some ==> combined(a, b)->0.column(index) == b.column(index),
{
    assert(agree(a.column(index), b.column(index)));
}

/// Two rows that bind no column to different values, and are not in different graphs, combine
/// to the row that has the bindings of both and no other.
pub proof fn law_rows_combine_where_they_agree(a: TupleView, b: TupleView)
    requires
        forall|i: int|
            (#[trigger] a.column(i)) is None || b.column(i) is None || a.column(i) == b.column(i),
        a.graph_name is None || b.graph_name is None || a.graph_name == b.graph_name,
    ensures
        combined(a, b) matches Some(row) && {
            &&& forall|i: int|
                (#[trigger] row.column(i)) == if a.column(i) is Some {
                    a.column(i)
                } else {
                    b.column(i)
                }
            &&& row.graph_name == if a.graph_name is Some {
                a.graph_name
            } else {
                b.graph_name
            }
            &&& row.values.len() == if a.values.len() < b.values.len() {
                b.values.len()
            } else {
                a.values.len()
            }
        },
{
    assert forall|i: int| agree(#[trigger] a.column(i), b.column(i)) by {}
}

/// Two rows that bind a column to different values, or are in different graphs, do not combine.
pub proof fn law_rows_that_disagree_do_not_combine(a: TupleView, b: TupleView)
    requires
        (exists|i: int|
            (#[trigger] a.column(i)) is Some && b.column(i) is Some && a.column(i) != b.column(i))
            || (a.graph_name is Some && b.graph_name is Some && a.graph_name != b.graph_name),
    ensures
        combined(a, b) is None,
{
    if compatible(a, b) {
        assert forall|i: int|
            !((#[trigger] a.column(i)) is Some && b.column(i) is Some && a.column(i)
                != b.column(i)) by {
            assert(agree(a.column(i), b.column(i)));
        }
    }
}

/// A row combines with itself to itself.
pub proof fn law_row_combines_with_itself(row: TupleView)
    ensures
        combined(row, row) == Some(row),
{
    law_rows_combine_where_they_agree(row, row);
    let same = combined(row, row)->0;
    assert forall|i: int| 0 <= i < row.values.len() implies same.values[i] == row.values[i] by {
        assert(same.column(i) == row.column(i));
    }
    assert(same.values =~= row.values);
}

/// A row has the values that stand in it, each in its column, and no other.
pub proof fn law_columns_are_the_values(row: TupleView)
    ensures
        forall|i: int| 0 <= i < row.values.len() ==> (#[trigger] row.column(i)) == row.values[i],
        forall|i: int| !(0 <= i < row.values.len()) ==> (#[trigger] row.column(i)) is None,
{
}

/// Binding a column changes that column and nothing else.
pub proof fn law_binding_changes_one_column(row: TupleView, index: nat, value: EncodedTerm)
    ensures
        row.bind(index, value).column(index as int) == Some(value),
        forall|i: int|
            i != index ==> (#[trigger] row.bind(index, value).column(i)) == row.column(i),
        row.bind(index, value).graph_name == row.graph_name,
{
}

impl InternalTuple {
    /// A row without bindings.
    pub fn new() -> (tuple: Self)
        ensures
            tuple@ == (TupleView { values: Seq::empty(), graph_name: None }),
    {
        InternalTuple { values: Vec::new(), graph_name: None }
    }

    pub fn get(&self, index: usize) -> (value: Option<EncodedTerm>)
        ensures
            value == self@.column(index as int),
    {
        if index < self.values.len() {
            self.values[index]
        } else {
            None
        }
    }

    pub fn set(&mut self, index: usize, value: EncodedTerm)
        requires
            index < usize::MAX,
        ensures
            final(self)@ == old(self)@.bind(index as nat, value),
    {
        let ghost before = self@;
        while self.values.len() <= index
            invariant
                self.graph_name == before.graph_name,
                self.values@.len() >= before.values.len(),
                self.values@.len() <= longer(before.values.len(), (index + 1) as nat),
                forall|i: int| 0 <= i < self.values@.len() ==> self.values@[i] == before.column(i),
            decreases index + 1 - self.values@.len(),
        {
            self.values.push(None);
        }
        self.values[index] = Some(value);
        assert(self@.values =~= before.bind(index as nat, value).values);
    }

    pub fn duplicate(&self) -> (tuple: Self)
        ensures
            tuple@ == self@,
    {
        let mut values: Vec<Option<EncodedTerm>> = Vec::new();
        let mut next: usize = 0;
        while next < self.values.len()
            invariant
                next <= self.values@.len(),
                values@ == self.values@.take(next as int),
            decreases self.values@.len() - next,
        {
            values.push(self.values[next]);
            next = next + 1;
        }
        assert(values@ =~= self.values@);
        InternalTuple { values, graph_name: self.graph_name }
    }

    pub fn same(&self, other: &InternalTuple) -> (result: bool)
        ensures
            result == (self@ == other@),
    {
        if self.graph_name != other.graph_name || self.values.len() != other.values.len() {
            return false;
        }
        let mut next: usize = 0;
        while next < self.values.len()
            invariant
                self.values@.len() == other.values@.len(),
                next <= self.values@.len(),
                forall|i: int| 0 <= i < next ==> self.values@[i] == other.values@[i],
            decreases self.values@.len() - next,
        {
            if self.values[next] != other.values[next] {
                return false;
            }
            next = next + 1;
        }
        assert(self.values@ =~= other.values@);
        true
    }

    /// The row that has the bindings of both rows, if they are compatible.
    pub fn combine_with(&self, other: &InternalTuple) -> (tuple: Option<InternalTuple>)
        ensures
            match tuple {
                Some(tuple) => combined(self@, other@) == Some(tuple@),
                None => combined(self@, other@) is None,
            },
    {
        if self.graph_name.is_some() && other.graph_name.is_some() && self.graph_name
            != other.graph_name {
            return None;
        }
        let length = if self.values.len() < other.values.len() {
            other.values.len()
        } else {
            self.values.len()
        };
        let mut values: Vec<Option<EncodedTerm>> = Vec::new();
        let mut next: usize = 0;
        while next < length
            invariant
                length == longer(self@.values.len(), other@.values.len()),
                next <= length,
                values@.len() == next,
                forall|i: int|
                    0 <= i < next ==> agree(#[trigger] self@.column(i), other@.column(i)),
                forall|i: int|
                    0 <= i < next ==> values@[i] == either(self@.column(i), other@.column(i)),
            decreases length - next,
        {
            let left = self.get(next);
            let right = other.get(next);
            if left.is_some() && right.is_some() && left != right {
                assert(!agree(self@.column(next as int), other@.column(next as int)));
                return None;
            }
            values.push(
                if left.is_some() {
                    left
                } else {
                    right
                },
            );
            next = next + 1;
        }
        let graph_name = if self.graph_name.is_some() {
            self.graph_name
        } else {
            other.graph_name
        };
        proof {
            assert forall|i: int| agree(#[trigger] self@.column(i), other@.column(i)) by {}
            assert(values@ =~= combined(self@, other@)->0.values);
        }
        Some(InternalTuple { values, graph_name })
    }
}

/// The views of a list of rows.
pub open spec fn rows(tuples: Seq<InternalTuple>) -> Seq<TupleView> {
    tuples.map_values(|tuple: InternalTuple| tuple@)
}

/// Where in a list of rows a row is first found.
pub fn position(tuples: &Vec<InternalTuple>, tuple: &InternalTuple) -> (position: Option<usize>)
    ensures
        match position {
            Some(position) => position < tuples@.len() && rows(tuples@)[position as int] == tuple@
                && rows(tuples@).contains(tuple@),
            None => !rows(tuples@).contains(tuple@),
        },
{
    let mut next: usize = 0;
    while next < tuples.len()
        invariant
            next <= tuples@.len(),
            forall|i: int| 0 <= i < next ==> rows(tuples@)[i] != tuple@,
        decreases tuples@.len() - next,
    {
        if tuples[next].same(tuple) {
            assert(rows(tuples@)[next as int] == tuple@);
            return Some(next);
        }
        next = next + 1;
    }
    None
}

/// Where a variable stands in a list of variables; behind the last one if nowhere.
pub open spec fn column_of(variables: Seq<Seq<u8>>, name: Seq<u8>) -> nat {
    if variables.contains(name) {
        variables.index_of_first(name)->0 as nat
    } else {
        variables.len()
    }
}

/// The list with a variable appended, unless it is there already.
pub open spec fn with_variable(variables: Seq<Seq<u8>>, name: Seq<u8>) -> Seq<Seq<u8>> {
    if variables.contains(name) {
        variables
    } else {
        variables.push(name)
    }
}

/// The column of a variable; a new variable gets the next free column.
pub fn encode_variable(variables: &mut Vec<Variable>, variable: &Variable) -> (column: usize)
    ensures
        names(final(variables)@) == with_variable(names(old(variables)@), variable@),
        column == column_of(names(old(variables)@), variable@),
        column < names(final(variables)@).len(),
        column < usize::MAX,
        names(final(variables)@)[column as int] == variable@,
{
    let ghost known = names(variables@);
    let mut next: usize = 0;
    while next < variables.len()
        invariant
            known == names(variables@),
            *variables == *old(variables),
            next <= variables@.len(),
            forall|i: int| 0 <= i < next ==> known[i] != variable@,
        decreases variables@.len() - next,
    {
        if variables[next].same(variable) {
            proof {
                assert(known[next as int] == variable@);
                known.index_of_first_ensures(variable@);
            }
            return next;
        }
        next = next + 1;
    }
    variables.push(variable.duplicate());
    assert(!known.contains(variable@));
    assert(names(variables@) =~= known.push(variable@));
    variables.len() - 1
}

/// What a position of a pattern asks for: a given value, or the value of a column.
#[derive(Clone, Copy, PartialEq, Eq, Structural, Debug)]
pub enum TupleSelector {
    Constant(EncodedTerm),
    Variable(usize),
}

/// The value that a selector asks for in the context of a row.
pub open spec fn selected(selector: TupleSelector, from: TupleView) -> Option<EncodedTerm> {
    match selector {
        TupleSelector::Constant(term) => Some(term),
        TupleSelector::Variable(index) => from.column(index as int),
    }
}

/// The row after a value was found at the position of a selector, unless the value
/// contradicts the selector or the row.
pub open spec fn bound(selector: TupleSelector, value: EncodedTerm, row: TupleView) -> Option<
    TupleView,
> {
    match selector {
        TupleSelector::Constant(term) => if term == value {
            Some(row)
        } else {
            None
        },
        TupleSelector::Variable(index) => match row.column(index as int) {
            Some(known) => if known == value {
                Some(row)
            } else {
                None
            },
            None => Some(row.bind(index as nat, value)),
        },
    }
}

impl TupleSelector {
    /// Whether the column of the selector has a place in a row.
    pub open spec fn in_range(self) -> bool {
        self matches TupleSelector::Variable(index) ==> index < usize::MAX
    }

    pub fn get_pattern_value(&self, from: &InternalTuple) -> (value: Option<EncodedTerm>)
        ensures
            value == selected(*self, from@),
    {
        match *self {
            TupleSelector::Constant(term) => Some(term),
            TupleSelector::Variable(index) => from.get(index),
        }
    }
}

/// Adds the value found at the position of a selector to a row. Tells whether it fits.
pub fn put_pattern_value(
    selector: &TupleSelector,
    value: EncodedTerm,
    tuple: &mut InternalTuple,
) -> (fits: bool)
    requires
        selector.in_range(),
    ensures
        match bound(*selector, value, old(tuple)@) {
            Some(row) => fits && final(tuple)@ == row,
            None => !fits && final(tuple)@ == old(tuple)@,
        },
{
    match *selector {
        TupleSelector::Constant(term) => term == value,
        TupleSelector::Variable(index) => match tuple.get(index) {
            Some(known) => known == value,
            None => {
                tuple.set(index, value);
                true
            },
        },
    }
}

/// A value that was put at the position of a selector can be read back there.
pub proof fn law_bound_value_is_selected(
    selector: TupleSelector,
    value: EncodedTerm,
    row: TupleView,
)
    requires
        bound(selector, value, row) is Some,
    ensures
        selected(selector, bound(selector, value, row)->0) == Some(value),
{
}

/// A selector asks for the value of its column in a row, or for the same value in every row.
pub proof fn law_selectors_ask_for_values(row: TupleView, index: usize, term: EncodedTerm)
    ensures
        selected(TupleSelector::Variable(index), row) == row.column(index as int),
        selected(TupleSelector::Constant(term), row) == Some(term),
{
}

/// A value fits the position of a selector exactly where a row that has the bindings of the
/// given one has the value there. The row that it makes binds nothing but the column of the
/// selector.
pub proof fn law_values_fit_where_a_row_has_them(
    selector: TupleSelector,
    value: EncodedTerm,
    row: TupleView,
    other: TupleView,
)
    ensures
        (forall|i: int|
            (#[trigger] row.column(i)) is Some ==> other.column(i) == row.column(i)) && selected(
            selector,
            other,
        ) == Some(value) ==> bound(selector, value, row) is Some,
        bound(selector, value, row) matches Some(made) ==> {
            &&& selected(selector, made) == Some(value)
            &&& made.graph_name == row.graph_name
            &&& forall|i: int|
                (#[trigger] made.column(i)) == row.column(i) || (row.column(i) is None
                    && selector == TupleSelector::Variable(i as usize) && made.column(i) == Some(
                    value,
                ))
        },
{
    if let TupleSelector::Variable(index) = selector {
        assert(row.column(index as int) is Some ==> bound(selector, value, row) is Some || row.column(
            index as int,
        ) != Some(value));
        if let Some(made) = bound(selector, value, row) {
            assert forall|i: int|
                (#[trigger] made.column(i)) == row.column(i) || (row.column(i) is None && selector
                    == TupleSelector::Variable(i as usize) && made.column(i) == Some(value)) by {
                if i == index {
                    assert(i as usize == index);
                }
            }
        }
    }
}

/// The column of a variable is the place of its name in the list of the variables. A variable
/// that is not in the list gets the place behind the last one, and is then in the list; the
/// variables that are there keep their places.
pub proof fn law_variables_have_their_columns(variables: Seq<Seq<u8>>, name: Seq<u8>)
    ensures
        column_of(variables, name) < with_variable(variables, name).len(),
        with_variable(variables, name)[column_of(variables, name) as int] == name,
        variables.len() <= with_variable(variables, name).len() <= variables.len() + 1,
        forall|i: int|
            0 <= i < variables.len() ==> (#[trigger] with_variable(variables, name)[i])
                == variables[i],
        variables.no_duplicates() ==> with_variable(variables, name).no_duplicates(),
        forall|i: int|
            0 <= i < variables.len() && (#[trigger] variables[i]) == name ==> with_variable(
                variables,
                name,
            ) == variables && column_of(variables, name) <= i,
{
    if variables.contains(name) {
        variables.index_of_first_ensures(name);
    }
    assert forall|i: int| 0 <= i < variables.len() && (#[trigger] variables[i])
        == name implies with_variable(variables, name) == variables && column_of(variables, name)
        <= i by {
        assert(variables.contains(name));
    }
}

/// The words of the bound key columns of a row.
pub open spec fn key_words(key: Seq<usize>, row: TupleView) -> Seq<u64>
    decreases key.len(),
{
    if key.len() == 0 {
        Seq::empty()
    } else {
        let front = key_words(key.drop_last(), row);
        match row.column(key.last() as int) {
            Some(value) => front + encoded_words(value),
            None => front,
        }
    }
}

/// The hash of the bound key columns of a row.
pub open spec fn row_key(key: Seq<usize>, row: TupleView) -> u64 {
    words_hash(key_words(key, row))
}

/// A bag of rows, kept by the hash of their key columns.
pub struct InternalTupleSet {
    key: Vec<usize>,
    buckets: FxHashMap<u64, Vec<InternalTuple>>,
    all: Ghost<Seq<TupleView>>,
}

impl InternalTupleSet {
    /// The rows of a bucket.
    pub closed spec fn bucket(&self, hash: u64) -> Seq<TupleView> {
        if self.buckets@.contains_key(hash) {
            rows(self.buckets@[hash]@)
        } else {
            Seq::empty()
        }
    }

    /// The key columns.
    pub closed spec fn columns(&self) -> Seq<usize> {
        self.key@
    }

    /// All rows.
    pub closed spec fn view(&self) -> Seq<TupleView> {
        self.all@
    }

    /// Every row is in the bucket of its key.
    pub closed spec fn wf(&self) -> bool {
        &&& forall|hash: u64, row: TupleView| #[trigger]
            count(self.bucket(hash), row) == if hash == row_key(self.key@, row) {
                count(self@, row)
            } else {
                0
            }
    }

    pub fn new(key: Vec<usize>) -> (set: Self)
        ensures
            set.wf(),
            set@ == Seq::<TupleView>::empty(),
            set.columns() == key@,
    {
        InternalTupleSet { key, buckets: fx_new(), all: Ghost(Seq::empty()) }
    }

    /// The hash of the bound key columns of a row.
    pub fn tuple_key(&self, tuple: &InternalTuple) -> (hash: u64)
        ensures
            hash == row_key(self.columns(), tuple@),
    {
        let mut words: Vec<u64> = Vec::new();
        let mut next: usize = 0;
        while next < self.key.len()
            invariant
                next <= self.key@.len(),
                words@ == key_words(self.key@.take(next as int), tuple@),
            decreases self.key@.len() - next,
        {
            assert(self.key@.take(next + 1).drop_last() =~= self.key@.take(next as int));
            if let Some(value) = tuple.get(self.key[next]) {
                value.push_words(&mut words);
            }
            next = next + 1;
        }
        assert(self.key@.take(next as int) =~= self.key@);
        hash_words(&words)
    }

    pub fn insert(&mut self, hash: u64, tuple: InternalTuple)
        requires
            old(self).wf(),
            hash == row_key(old(self).columns(), tuple@),
        ensures
            final(self).wf(),
            final(self).columns() == old(self).columns(),
            final(self)@ == old(self)@.push(tuple@),
    {
        let ghost before = *self;
        let ghost row = tuple@;
        let mut bucket = match fx_remove(&mut self.buckets, hash) {
            Some(bucket) => bucket,
            None => Vec::new(),
        };
        assert(rows(bucket@) =~= before.bucket(hash));
        bucket.push(tuple);
        assert(rows(bucket@) =~= before.bucket(hash).push(row));
        fx_insert(&mut self.buckets, hash, bucket);
        self.all = Ghost(before.all@.push(row));
        proof {
            assert forall|h: u64, r: TupleView| #[trigger]
                count(self.bucket(h), r) == if h == row_key(self.key@, r) {
                    count(self@, r)
                } else {
                    0
                } by {
                assert(count(before.bucket(h), r) == if h == row_key(before.key@, r) {
                    count(before@, r)
                } else {
                    0
                });
                lemma_weight_push(before@, row, is(r));
                if h == hash {
                    lemma_weight_push(before.bucket(h), row, is(r));
                } else {
                    assert(self.bucket(h) == before.bucket(h));
                }
            }
        }
    }

    /// The rows of a bucket.
    pub fn get(&self, hash: u64) -> (found: Option<&Vec<InternalTuple>>)
        ensures
            match found {
                Some(found) => rows(found@) == self.bucket(hash),
                None => self.bucket(hash).len() == 0,
            },
    {
        fx_get(&self.buckets, hash)
    }

    /// What the rows of a bucket weigh is what the rows with its key weigh.
    pub proof fn lemma_bucket_weight(&self, hash: u64, g: spec_fn(TupleView) -> int)
        requires
            self.wf(),
        ensures
            weight(self.bucket(hash), g) == weight(
                self@,
                |row: TupleView|
                    if row_key(self.columns(), row) == hash {
                        g(row)
                    } else {
                        0
                    },
            ),
    {
        let pick = |row: TupleView|
            if row_key(self.columns(), row) == hash {
                Some(row)
            } else {
                None
            };
        let picked = filter_map(self@, pick);
        assert(same_bag(self.bucket(hash), picked)) by {
            assert forall|row: TupleView| #[trigger]
                count(self.bucket(hash), row) == count(picked, row) by {
                lemma_filter_map_weight(self@, pick, is(row));
                let left = through(pick, is(row));
                if row_key(self.columns(), row) == hash {
                    crate::bag::lemma_weight_same(self@, left, is(row));
                } else {
                    crate::bag::lemma_weight_same(self@, left, |r: TupleView| 0int);
                    crate::bag::lemma_weight_zero(self@);
                }
            }
        }
        lemma_weight_same_bag(self.bucket(hash), picked, g);
        lemma_filter_map_weight(self@, pick, g);
        crate::bag::lemma_weight_same(
            self@,
            through(pick, g),
            |row: TupleView|
                if row_key(self.columns(), row) == hash {
                    g(row)
                } else {
                    0
                },
        );
    }

    /// Takes one occurrence of a row out, if there is one.
    pub fn remove_one(&mut self, hash: u64, tuple: &InternalTuple) -> (removed: bool)
        requires
            old(self).wf(),
            hash == row_key(old(self).columns(), tuple@),
        ensures
            final(self).wf(),
            final(self).columns() == old(self).columns(),
            removed == old(self)@.contains(tuple@),
            final(self)@ == if removed {
                without(old(self)@, tuple@)
            } else {
                old(self)@
            },
    {
        let ghost before = *self;
        let ghost row = tuple@;
        proof {
            lemma_count(before@, row);
            lemma_count(before.bucket(hash), row);
            assert(count(before.bucket(hash), row) == count(before@, row));
        }
        let mut bucket = match fx_remove(&mut self.buckets, hash) {
            Some(bucket) => bucket,
            None => {
                assert(self.buckets@ =~= before.buckets@);
                assert forall|h: u64| #[trigger] self.bucket(h) == before.bucket(h) by {}
                return false;
            },
        };
        let ghost old_rows = rows(bucket@);
        assert(old_rows == before.bucket(hash));
        let next = match position(&bucket, tuple) {
            Some(next) => next,
            None => {
                fx_insert(&mut self.buckets, hash, bucket);
                assert(self.buckets@ =~= before.buckets@);
                assert forall|h: u64| #[trigger] self.bucket(h) == before.bucket(h) by {}
                return false;
            },
        };
        bucket.swap_remove(next);
        let ghost new_rows = rows(bucket@);
        assert(new_rows =~= old_rows.update(next as int, old_rows.last()).drop_last());
        if bucket.len() > 0 {
            fx_insert(&mut self.buckets, hash, bucket);
        } else {
            assert(new_rows =~= Seq::empty());
        }
        self.all = Ghost(without(before.all@, row));
        proof {
            assert(self.bucket(hash) =~= new_rows);
            assert forall|h: u64, r: TupleView| #[trigger]
                count(self.bucket(h), r) == if h == row_key(self.key@, r) {
                    count(self@, r)
                } else {
                    0
                } by {
                assert(count(before.bucket(h), r) == if h == row_key(before.key@, r) {
                    count(before@, r)
                } else {
                    0
                });
                lemma_weight_without(before@, row, is(r));
                if h == hash {
                    lemma_weight_swap_remove(old_rows, next as int, is(r));
                } else {
                    assert(self.bucket(h) == before.bucket(h));
                }
            }
        }
        true
    }
}

} // verus!
