//! Which quads a transaction adds and removes, as far as that can be told before it commits.

use crate::delta::Delta;
use crate::error::StorageError;
use crate::fx::{lists, lists_keys, occurs, FxKey, FxMap};
use crate::model::Quad;
use crate::numeric_encoder::{encoded_quad, EncodedQuad, EncodedTerm};
use crate::storage::{pattern_of, Storage, StorageReader};
use crate::subscription::{read_pattern, watches, IncrementalQuadPattern};
use crate::table::{
    any_quad, covers, differs, quads_written, reported, reports, selects, ClearScope, QuadPattern,
    WriteOp,
};
use crate::tally::Tally;
use vstd::prelude::*;

verus! {

/// Whether a quad is to be there after the commit.
#[derive(Clone, Copy, PartialEq, Eq, Structural, Debug)]
pub enum DesiredQuadState {
    Present,
    Absent,
}

/// What the last operation on a quad was, and its number.
#[derive(Clone, Copy, PartialEq, Eq, Structural, Debug)]
pub struct PendingQuadState {
    pub desired: DesiredQuadState,
    pub operation: usize,
}

/// An operation that removes quads which are not known yet, and its number.
#[derive(Clone, Copy, PartialEq, Eq, Structural, Debug)]
pub enum RangeClear {
    Pattern(IncrementalQuadPattern, usize),
    NamedGraphs(usize),
}

/// Whether a clearing removes a quad.
pub open spec fn clears(clear: RangeClear, quad: EncodedQuad) -> bool {
    match clear {
        RangeClear::Pattern(pattern, _) => watches(pattern, quad),
        RangeClear::NamedGraphs(_) => quad.graph_name != EncodedTerm::DefaultGraph,
    }
}

/// The number of a clearing.
pub open spec fn clear_number(clear: RangeClear) -> usize {
    match clear {
        RangeClear::Pattern(_, operation) => operation,
        RangeClear::NamedGraphs(operation) => operation,
    }
}

/// The quads that a transaction touches at once.
#[derive(Clone, Copy, PartialEq, Eq, Structural, Debug)]
pub enum Touched {
    Pattern(QuadPattern),
    NamedGraphs,
}

pub open spec fn touches(touched: Touched, quad: EncodedQuad) -> bool {
    match touched {
        Touched::Pattern(pattern) => selects(pattern, quad),
        Touched::NamedGraphs => quad.graph_name != EncodedTerm::DefaultGraph,
    }
}

impl Touched {
    fn includes(&self, quad: &EncodedQuad) -> (result: bool)
        ensures
            result == touches(*self, *quad),
    {
        match self {
            Touched::Pattern(pattern) => pattern.matches(quad),
            Touched::NamedGraphs => !quad.graph_name.is_default_graph(),
        }
    }
}

/// The states after quads were removed: those that have a state, and those that were there
/// when the transaction began.
pub open spec fn touched_states(
    states: Map<EncodedQuad, PendingQuadState>,
    initial: Set<EncodedQuad>,
    touched: Touched,
    operation: usize,
) -> Map<EncodedQuad, PendingQuadState> {
    Map::new(
        |quad: EncodedQuad|
            states.contains_key(quad) || (initial.contains(quad) && touches(touched, quad)),
        |quad: EncodedQuad|
            if !states.contains_key(quad) {
                PendingQuadState { desired: DesiredQuadState::Absent, operation }
            } else if touches(touched, quad) {
                PendingQuadState {
                    desired: DesiredQuadState::Absent,
                    operation: states[quad].operation,
                }
            } else {
                states[quad]
            },
    )
}

/// The states after a clearing has met the quads that are there and those that have a state.
pub open spec fn settled_by(
    states: Map<EncodedQuad, PendingQuadState>,
    clear: RangeClear,
    before: Set<EncodedQuad>,
) -> Map<EncodedQuad, PendingQuadState> {
    Map::new(
        |quad: EncodedQuad|
            states.contains_key(quad) || (before.contains(quad) && clears(clear, quad)),
        |quad: EncodedQuad| settled_state(states, clear, quad),
    )
}

/// The state of a quad after a clearing, which does not undo later operations.
pub open spec fn settled_state(
    states: Map<EncodedQuad, PendingQuadState>,
    clear: RangeClear,
    quad: EncodedQuad,
) -> PendingQuadState {
    if !states.contains_key(quad) || (clears(clear, quad) && states[quad].operation
        <= clear_number(clear)) {
        PendingQuadState {
            desired: DesiredQuadState::Absent,
            operation: clear_number(clear),
        }
    } else {
        states[quad]
    }
}

/// The states after all clearings have met the quads that are there.
pub open spec fn settled(
    states: Map<EncodedQuad, PendingQuadState>,
    range_clears: Seq<RangeClear>,
    before: Set<EncodedQuad>,
) -> Map<EncodedQuad, PendingQuadState>
    decreases range_clears.len(),
{
    if range_clears.len() == 0 {
        states
    } else {
        settled_by(
            settled(states, range_clears.drop_last(), before),
            range_clears.last(),
            before,
        )
    }
}

/// The quads that are to be there after the commit.
pub open spec fn intended(
    states: Map<EncodedQuad, PendingQuadState>,
    before: Set<EncodedQuad>,
) -> Set<EncodedQuad> {
    Set::new(
        |quad: EncodedQuad|
            if states.contains_key(quad) {
                states[quad].desired == DesiredQuadState::Present
            } else {
                before.contains(quad)
            },
    )
}

/// The quads of which an addition is published when they have become visible.
pub open spec fn newly_visible(
    states: Map<EncodedQuad, PendingQuadState>,
    before: Set<EncodedQuad>,
    after: Set<EncodedQuad>,
) -> Set<EncodedQuad> {
    Set::new(
        |quad: EncodedQuad|
            states.contains_key(quad) && states[quad].desired == DesiredQuadState::Present
                && after.contains(quad) && !before.contains(quad),
    )
}

/// What a transaction has done so far, in the form in which its changes are told.
pub struct IncrementalTransactionState {
    initial_snapshot: Option<StorageReader>,
    quad_states: FxMap<EncodedQuad, PendingQuadState>,
    trackable: bool,
    range_clears: Vec<RangeClear>,
    next_operation: Tally,
}

impl IncrementalTransactionState {
    pub closed spec fn wf(&self) -> bool {
        &&& self.quad_states.wf()
        &&& self.initial_snapshot matches Some(reader) ==> reader.wf()
        &&& self.trackable ==> self.initial_snapshot is Some
    }

    /// Whether the changes are told from what is recorded here.
    pub closed spec fn tracking(&self) -> bool {
        self.trackable
    }

    pub closed spec fn states(&self) -> Map<EncodedQuad, PendingQuadState> {
        self.quad_states@
    }

    pub closed spec fn range_clears(&self) -> Seq<RangeClear> {
        self.range_clears@
    }

    /// The number of the next operation.
    pub closed spec fn next_number(&self) -> nat {
        self.next_operation@
    }

    /// The quads that were there when the transaction began.
    pub closed spec fn initial_quads(&self) -> Set<EncodedQuad> {
        match self.initial_snapshot {
            Some(reader) => reader.table().quads(),
            None => Set::empty(),
        }
    }

    /// Why not all of the quads could be read that were there when the transaction began.
    pub closed spec fn initial_damage(&self) -> Option<StorageError> {
        match self.initial_snapshot {
            Some(reader) => reader.table().damage(),
            None => None,
        }
    }

    pub fn new(storage: &Storage) -> (state: Self)
        requires
            storage.wf(),
        ensures
            state.wf(),
            state.tracking() == storage.on_disk(),
            state.states() == Map::<EncodedQuad, PendingQuadState>::empty(),
            state.range_clears() == Seq::<RangeClear>::empty(),
            state.next_number() == 0,
            state.tracking() ==> state.initial_quads() == storage.table().quads(),
            state.tracking() ==> state.initial_damage() == storage.table().damage(),
    {
        let trackable = storage.is_on_disk();
        IncrementalTransactionState {
            initial_snapshot: if trackable {
                Some(storage.snapshot())
            } else {
                None
            },
            quad_states: FxMap::new(),
            trackable,
            range_clears: Vec::new(),
            next_operation: Tally::new(),
        }
    }

    fn take_number(&mut self) -> (operation: usize)
        requires
            old(self).wf(),
        ensures
            final(self).wf(),
            operation == old(self).next_number(),
            final(self).next_number() == old(self).next_number() + 1,
            final(self).states() == old(self).states(),
            final(self).range_clears() == old(self).range_clears(),
            final(self).tracking() == old(self).tracking(),
            final(self).initial_quads() == old(self).initial_quads(),
            final(self).initial_damage() == old(self).initial_damage(),
    {
        let operation = self.next_operation.count();
        self.next_operation.add();
        operation
    }

    /// Records that a quad is put or deleted.
    pub fn set_quad_state(&mut self, quad: &Quad, state: DesiredQuadState)
        requires
            old(self).wf(),
        ensures
            final(self).wf(),
            final(self).tracking() == old(self).tracking(),
            final(self).initial_quads() == old(self).initial_quads(),
            final(self).initial_damage() == old(self).initial_damage(),
            final(self).range_clears() == old(self).range_clears(),
            !old(self).tracking() ==> *final(self) == *old(self),
            old(self).tracking() ==> {
                &&& final(self).next_number() == old(self).next_number() + 1
                &&& old(self).next_number() <= usize::MAX
                &&& final(self).states() == old(self).states().insert(
                    encoded_quad(*quad),
                    PendingQuadState {
                        desired: state,
                        operation: old(self).next_number() as usize,
                    },
                )
            },
    {
        if self.trackable {
            let operation = self.take_number();
            self.quad_states.insert(
                EncodedQuad::from_quad(quad),
                PendingQuadState { desired: state, operation },
            );
        }
    }

    /// Records that the quads that a pattern selects are deleted, whichever they are.
    pub fn mark_range_clear(&mut self, pattern: IncrementalQuadPattern)
        requires
            old(self).wf(),
        ensures
            final(self).wf(),
            final(self).tracking() == old(self).tracking(),
            final(self).initial_quads() == old(self).initial_quads(),
            final(self).initial_damage() == old(self).initial_damage(),
            final(self).states() == old(self).states(),
            !old(self).tracking() ==> *final(self) == *old(self),
            old(self).tracking() ==> {
                &&& final(self).next_number() == old(self).next_number() + 1
                &&& old(self).next_number() <= usize::MAX
                &&& final(self).range_clears() == old(self).range_clears().push(
                    RangeClear::Pattern(pattern, old(self).next_number() as usize),
                )
            },
    {
        if self.trackable {
            let operation = self.take_number();
            self.range_clears.push(RangeClear::Pattern(pattern, operation));
        }
    }

    /// Records that the quads of the named graphs are deleted, whichever they are.
    pub fn mark_range_clear_named_graphs(&mut self)
        requires
            old(self).wf(),
        ensures
            final(self).wf(),
            final(self).tracking() == old(self).tracking(),
            final(self).initial_quads() == old(self).initial_quads(),
            final(self).initial_damage() == old(self).initial_damage(),
            final(self).states() == old(self).states(),
            !old(self).tracking() ==> *final(self) == *old(self),
            old(self).tracking() ==> {
                &&& final(self).next_number() == old(self).next_number() + 1
                &&& old(self).next_number() <= usize::MAX
                &&& final(self).range_clears() == old(self).range_clears().push(
                    RangeClear::NamedGraphs(old(self).next_number() as usize),
                )
            },
    {
        if self.trackable {
            let operation = self.take_number();
            self.range_clears.push(RangeClear::NamedGraphs(operation));
        }
    }

    /// Records that quads are deleted: those put earlier in the transaction, and those
    /// that were there when it began.
    pub fn touch_quads_for_pattern(
        &mut self,
        subject: Option<&EncodedTerm>,
        predicate: Option<&EncodedTerm>,
        object: Option<&EncodedTerm>,
        graph_name: Option<&EncodedTerm>,
    ) -> (result: Result<(), StorageError>)
        requires
            old(self).wf(),
        ensures
            final(self).touched_since(
                *old(self),
                Touched::Pattern(pattern_of(subject, predicate, object, graph_name)),
                result,
            ),
    {
        let pattern = QuadPattern {
            subject: crate::storage::copied(subject),
            predicate: crate::storage::copied(predicate),
            object: crate::storage::copied(object),
            graph_name: crate::storage::copied(graph_name),
        };
        self.touch(Touched::Pattern(pattern))
    }

    /// Records that the quads of the named graphs are deleted: those put earlier in the
    /// transaction, and those that were there when it began.
    pub fn touch_all_named_graph_quads(&mut self) -> (result: Result<(), StorageError>)
        requires
            old(self).wf(),
        ensures
            final(self).touched_since(*old(self), Touched::NamedGraphs, result),
    {
        self.touch(Touched::NamedGraphs)
    }

    /// What touching quads does, and when it fails.
    pub open spec fn touched_since(
        &self,
        before: Self,
        touched: Touched,
        result: Result<(), StorageError>,
    ) -> bool {
        &&& self.wf()
        &&& self.tracking() == before.tracking()
        &&& self.initial_quads() == before.initial_quads()
        &&& self.initial_damage() == before.initial_damage()
        &&& self.range_clears() == before.range_clears()
        &&& self.next_number() == before.next_number()
        &&& !before.tracking() ==> *self == before && result == Ok::<(), StorageError>(())
        &&& before.tracking() ==> {
            &&& before.next_number() <= usize::MAX
            &&& self.states() == touched_states(
                before.states(),
                before.initial_quads(),
                touched,
                before.next_number() as usize,
            )
            &&& result == match before.initial_damage() {
                Some(error) => Err(error),
                None => Ok::<(), StorageError>(()),
            }
        }
    }

    fn touch(&mut self, touched: Touched) -> (result: Result<(), StorageError>)
        requires
            old(self).wf(),
        ensures
            final(self).touched_since(*old(self), touched, result),
    {
        if !self.trackable {
            return Ok(());
        }
        let pattern = match touched {
            Touched::Pattern(pattern) => pattern,
            Touched::NamedGraphs => QuadPattern::any(),
        };
        let mut quads = match &self.initial_snapshot {
            Some(reader) => reader.read(&pattern),
            None => {
                return Ok(());
            },
        };
        let operation = self.next_operation.count();
        let ghost start = *self;
        let ghost initial = self.initial_quads();
        let ghost expected = touched_states(start.states(), initial, touched, operation);
        let known = self.quad_states.keys();
        let mut next: usize = 0;
        while next < known.len()
            invariant
                self.quad_states.wf(),
                self.initial_snapshot == start.initial_snapshot,
                self.trackable == start.trackable,
                self.range_clears == start.range_clears,
                self.next_operation == start.next_operation,
                lists_keys(known@, start.quad_states@),
                next <= known@.len(),
                self.quad_states@.dom() == start.quad_states@.dom(),
                forall|quad: EncodedQuad| #[trigger]
                    self.quad_states@.contains_key(quad) ==> self.quad_states@[quad] == if touches(
                        touched,
                        quad,
                    ) && occurs(known@.take(next as int), quad) {
                        PendingQuadState {
                            desired: DesiredQuadState::Absent,
                            operation: start.quad_states@[quad].operation,
                        }
                    } else {
                        start.quad_states@[quad]
                    },
            decreases known@.len() - next,
        {
            let quad = known[next];
            let ghost seen = known@.take(next as int);
            let ghost current = self.quad_states@;
            assert(start.quad_states@.contains_key(known@[next as int].model()));
            if touched.includes(&quad) {
                self.mark_absent(quad, operation);
            }
            next = next + 1;
            proof {
                let more = known@.take(next as int);
                assert(self.quad_states@.dom() =~= start.quad_states@.dom());
                assert forall|q: EncodedQuad| #[trigger]
                    self.quad_states@.contains_key(q) implies self.quad_states@[q] == if touches(
                    touched,
                    q,
                ) && occurs(more, q) {
                    PendingQuadState {
                        desired: DesiredQuadState::Absent,
                        operation: start.quad_states@[q].operation,
                    }
                } else {
                    start.quad_states@[q]
                } by {
                    assert(current.contains_key(q));
                    lemma_occurs_next(known@, next - 1, q);
                }
            }
        }
        assert(known@.take(next as int) =~= known@);
        let ghost marked = self.quad_states@;
        let ghost all = quads.rest();
        let ghost wanted = initial.filter(|quad: EncodedQuad| selects(pattern, quad));
        let ghost damage = self.initial_damage();
        let ghost mut done: int = 0;
        assert forall|quad: EncodedQuad| #[trigger] marked.contains_key(quad) implies marked[quad]
            == expected[quad] by {
            assert(occurs(known@, quad));
        }
        loop
            invariant
                start == *old(self),
                start.wf(),
                start.trackable,
                initial == start.initial_quads(),
                damage == start.initial_damage(),
                operation == start.next_number(),
                self.quad_states.wf(),
                self.initial_snapshot == start.initial_snapshot,
                self.trackable == start.trackable,
                self.range_clears == start.range_clears,
                self.next_operation == start.next_operation,
                expected == touched_states(start.states(), initial, touched, operation),
                marked.dom() == start.states().dom(),
                forall|quad: EncodedQuad| #[trigger]
                    marked.contains_key(quad) ==> marked[quad] == expected[quad],
                wanted == initial.filter(|quad: EncodedQuad| selects(pattern, quad)),
                touched matches Touched::Pattern(wanted_pattern) ==> wanted_pattern == pattern,
                touched is NamedGraphs ==> pattern == any_quad(),
                lists(all, wanted),
                0 <= done <= all.len(),
                quads.rest() == all.skip(done),
                quads.failure() == damage,
                forall|quad: EncodedQuad| #[trigger]
                    self.quad_states@.contains_key(quad) <==> marked.contains_key(quad) || (touches(
                        touched,
                        quad,
                    ) && occurs(all.take(done), quad)),
                forall|quad: EncodedQuad| #[trigger]
                    self.quad_states@.contains_key(quad) ==> self.quad_states@[quad]
                        == expected[quad],
            decreases quads.rest().len(),
        {
            let ghost current = self.quad_states@;
            match quads.next() {
                Some(Ok(quad)) => {
                    proof {
                        assert(quad == all[done]);
                        assert(all.skip(done).drop_first() =~= all.skip(done + 1));
                        assert(wanted.contains(all[done].model()));
                        assert(initial.contains(quad));
                    }
                    if touched.includes(&quad) {
                        self.mark_absent(quad, operation);
                    }
                    proof {
                        assert forall|q: EncodedQuad| #[trigger]
                            self.quad_states@.contains_key(q) <==> marked.contains_key(q) || (
                            touches(touched, q) && occurs(all.take(done + 1), q)) by {
                            assert(current.contains_key(q) <==> marked.contains_key(q) || (touches(
                                touched,
                                q,
                            ) && occurs(all.take(done), q)));
                            lemma_occurs_next(all, done, q);
                        }
                        assert forall|q: EncodedQuad| #[trigger]
                            self.quad_states@.contains_key(q) implies self.quad_states@[q]
                            == expected[q] by {
                            if q == quad && touches(touched, quad) {
                                if current.contains_key(q) {
                                    assert(current[q] == expected[q]);
                                }
                            } else {
                                assert(current.contains_key(q));
                            }
                        }
                        done = done + 1;
                    }
                },
                Some(Err(error)) => {
                    proof {
                        assert(all.take(done) =~= all);
                        assert(self.states() =~= expected) by {
                            lemma_all_touched(
                                self.states(),
                                expected,
                                start.states(),
                                initial,
                                touched,
                                operation,
                                pattern,
                                all,
                            );
                        }
                    }
                    return Err(error);
                },
                None => {
                    proof {
                        assert(all.take(done) =~= all);
                        assert(self.states() =~= expected) by {
                            lemma_all_touched(
                                self.states(),
                                expected,
                                start.states(),
                                initial,
                                touched,
                                operation,
                                pattern,
                                all,
                            );
                        }
                    }
                    return Ok(());
                },
            }
        }
    }

    /// Notes that a quad is to be absent; a quad without a state gets the given number.
    fn mark_absent(&mut self, quad: EncodedQuad, operation: usize)
        requires
            old(self).quad_states.wf(),
        ensures
            final(self).quad_states.wf(),
            final(self).initial_snapshot == old(self).initial_snapshot,
            final(self).trackable == old(self).trackable,
            final(self).range_clears == old(self).range_clears,
            final(self).next_operation == old(self).next_operation,
            final(self).quad_states@ == old(self).quad_states@.insert(
                quad,
                PendingQuadState {
                    desired: DesiredQuadState::Absent,
                    operation: if old(self).quad_states@.contains_key(quad) {
                        old(self).quad_states@[quad].operation
                    } else {
                        operation
                    },
                },
            ),
    {
        let number = match self.quad_states.get(&quad) {
            Some(pending) => pending.operation,
            None => operation,
        };
        self.quad_states.insert(
            quad,
            PendingQuadState { desired: DesiredQuadState::Absent, operation: number },
        );
    }

    /// Gives up telling changes.
    pub fn disable(&mut self)
        requires
            old(self).wf(),
        ensures
            final(self).wf(),
            !final(self).tracking(),
            final(self).states() == Map::<EncodedQuad, PendingQuadState>::empty(),
            final(self).range_clears() == Seq::<RangeClear>::empty(),
    {
        self.trackable = false;
        self.quad_states.clear();
        self.range_clears.clear();
    }

    /// The recorded quads that have become visible from one view of the store to another.
    /// What is visible is not recorded any more.
    pub fn take_visible_additions(
        &mut self,
        before: &StorageReader,
        after: &StorageReader,
    ) -> (result: Result<Vec<Delta<EncodedQuad>>, StorageError>)
        requires
            old(self).wf(),
            before.wf(),
            after.wf(),
        ensures
            final(self).wf(),
            final(self).tracking() == old(self).tracking(),
            final(self).initial_quads() == old(self).initial_quads(),
            final(self).initial_damage() == old(self).initial_damage(),
            final(self).range_clears() == old(self).range_clears(),
            final(self).next_number() == old(self).next_number(),
            result is Ok,
            !old(self).tracking() ==> *final(self) == *old(self) && result->Ok_0@.len() == 0,
            old(self).tracking() ==> {
                &&& reports(
                    result->Ok_0@,
                    before.table().quads(),
                    before.table().quads().union(
                        newly_visible(
                            old(self).states(),
                            before.table().quads(),
                            after.table().quads(),
                        ),
                    ),
                )
                &&& final(self).states() == old(self).states().remove_keys(
                    after.table().quads(),
                )
            },
    {
        if !self.trackable {
            return Ok(Vec::new());
        }
        let ghost start = self.quad_states@;
        let ghost earlier = before.table().quads();
        let ghost later = after.table().quads();
        let ghost added = newly_visible(start, earlier, later);
        let known = self.quad_states.keys();
        let mut changes: Vec<Delta<EncodedQuad>> = Vec::new();
        let mut next: usize = 0;
        while next < known.len()
            invariant
                self.quad_states.wf(),
                before.wf(),
                after.wf(),
                self.initial_snapshot == old(self).initial_snapshot,
                self.trackable == old(self).trackable,
                self.range_clears == old(self).range_clears,
                self.next_operation == old(self).next_operation,
                earlier == before.table().quads(),
                later == after.table().quads(),
                added == newly_visible(start, earlier, later),
                lists_keys(known@, start),
                next <= known@.len(),
                forall|quad: EncodedQuad| #[trigger]
                    self.quad_states@.contains_key(quad) <==> start.contains_key(quad)
                        && !(later.contains(quad) && occurs(known@.take(next as int), quad)),
                forall|quad: EncodedQuad| #[trigger]
                    self.quad_states@.contains_key(quad) ==> self.quad_states@[quad] == start[quad],
                told(changes@, added, known@.take(next as int)),
            decreases known@.len() - next,
        {
            let quad = known[next];
            let ghost seen = known@.take(next as int);
            let ghost current = self.quad_states@;
            let ghost old_changes = changes@;
            proof {
                assert(start.contains_key(known@[next as int].model()));
                lemma_not_yet(known@, next as int);
            }
            assert(current.contains_key(quad));
            let is_visible = match after.contains(&quad) {
                Ok(result) => result,
                Err(error) => {
                    return Err(error);
                },
            };
            if is_visible {
                if let Some(pending) = self.quad_states.get(&quad) {
                    if pending.desired == DesiredQuadState::Present {
                        let was_visible = match before.contains(&quad) {
                            Ok(result) => result,
                            Err(error) => {
                                return Err(error);
                            },
                        };
                        if !was_visible {
                            changes.push(Delta::addition(quad));
                        }
                    }
                }
                self.quad_states.remove(&quad);
            }
            next = next + 1;
            proof {
                assert forall|q: EncodedQuad| #[trigger]
                    self.quad_states@.contains_key(q) <==> start.contains_key(q) && !(
                    later.contains(q) && occurs(known@.take(next as int), q)) by {
                    assert(current.contains_key(q) <==> start.contains_key(q) && !(later.contains(
                        q,
                    ) && occurs(seen, q)));
                    lemma_occurs_next(known@, next - 1, q);
                }
                assert forall|q: EncodedQuad| #[trigger]
                    self.quad_states@.contains_key(q) implies self.quad_states@[q] == start[q] by {
                    assert(current.contains_key(q));
                }
                if added.contains(quad) {
                    assert(changes@ =~= old_changes.push(Delta::Addition(quad)));
                } else {
                    assert(changes@ =~= old_changes);
                }
                lemma_told_next(old_changes, changes@, added, known@, next - 1);
            }
        }
        proof {
            assert(known@.take(next as int) =~= known@);
            lemma_told_all(changes@, added, known@, start, earlier);
            assert(self.quad_states@ =~= start.remove_keys(later)) by {
                assert forall|q: EncodedQuad| #[trigger]
                    self.quad_states@.dom().contains(q) <==> start.remove_keys(
                        later,
                    ).dom().contains(q) by {
                    assert(self.quad_states@.contains_key(q) <==> start.contains_key(q) && !(
                    later.contains(q) && occurs(known@, q)));
                    assert(start.contains_key(q) <==> occurs(known@, q));
                }
            }
        }
        Ok(changes)
    }
}

/// Whether additions are exactly those of a list of quads that are in a set.
spec fn told(
    changes: Seq<Delta<EncodedQuad>>,
    added: Set<EncodedQuad>,
    seen: Seq<EncodedQuad>,
) -> bool {
    &&& forall|i: int|
        0 <= i < changes.len() ==> (#[trigger] changes[i]) is Addition && added.contains(
            changes[i].value_of(),
        ) && occurs(seen, changes[i].value_of())
    &&& forall|i: int, j: int|
        0 <= i < j < changes.len() ==> (#[trigger] changes[i]).value_of() != (
        #[trigger] changes[j]).value_of()
    &&& forall|quad: EncodedQuad|
        added.contains(quad) && occurs(seen, quad) ==> #[trigger] reported(changes, quad)
}

proof fn lemma_occurs_next(items: Seq<EncodedQuad>, at: int, quad: EncodedQuad)
    requires
        0 <= at < items.len(),
    ensures
        occurs(items.take(at + 1), quad) <==> occurs(items.take(at), quad) || quad == items[at],
{
    let seen = items.take(at);
    let more = items.take(at + 1);
    if occurs(seen, quad) {
        let i = choose|i: int| 0 <= i < seen.len() && (#[trigger] seen[i]).model() == quad;
        assert(more[i].model() == quad);
    }
    if occurs(more, quad) {
        let i = choose|i: int| 0 <= i < more.len() && (#[trigger] more[i]).model() == quad;
        if i < at {
            assert(seen[i].model() == quad);
        }
    }
    assert(more[at].model() == items[at]);
}

proof fn lemma_not_yet(items: Seq<EncodedQuad>, at: int)
    requires
        0 <= at < items.len(),
        crate::fx::distinct(items),
    ensures
        !occurs(items.take(at), items[at]),
{
    if occurs(items.take(at), items[at]) {
        let i = choose|i: int|
            0 <= i < at && (#[trigger] items.take(at)[i]).model() == items[at];
        assert(items[i].model() != items[at].model());
    }
}

proof fn lemma_told_next(
    fewer: Seq<Delta<EncodedQuad>>,
    changes: Seq<Delta<EncodedQuad>>,
    added: Set<EncodedQuad>,
    known: Seq<EncodedQuad>,
    at: int,
)
    requires
        0 <= at < known.len(),
        crate::fx::distinct(known),
        told(fewer, added, known.take(at)),
        changes == if added.contains(known[at]) {
            fewer.push(Delta::Addition(known[at]))
        } else {
            fewer
        },
    ensures
        told(changes, added, known.take(at + 1)),
{
    let seen = known.take(at);
    let more = known.take(at + 1);
    lemma_not_yet(known, at);
    assert forall|i: int| 0 <= i < changes.len() implies (#[trigger] changes[i]) is Addition
        && added.contains(changes[i].value_of()) && occurs(more, changes[i].value_of()) by {
        lemma_occurs_next(known, at, changes[i].value_of());
        if i < fewer.len() {
            assert(changes[i] == fewer[i]);
        }
    }
    assert forall|i: int, j: int| 0 <= i < j < changes.len() implies (
    #[trigger] changes[i]).value_of() != (#[trigger] changes[j]).value_of() by {
        assert(changes[i] == fewer[i]);
        if j < fewer.len() {
            assert(changes[j] == fewer[j]);
        } else {
            assert(occurs(seen, fewer[i].value_of()));
        }
    }
    assert forall|quad: EncodedQuad|
        added.contains(quad) && occurs(more, quad) implies #[trigger] reported(changes, quad) by {
        lemma_occurs_next(known, at, quad);
        if occurs(seen, quad) {
            assert(reported(fewer, quad));
            let i = choose|i: int|
                0 <= i < fewer.len() && (#[trigger] fewer[i]).value_of() == quad;
            assert(changes[i].value_of() == quad);
        } else {
            assert(changes[fewer.len() as int].value_of() == quad);
        }
    }
}

proof fn lemma_told_all(
    changes: Seq<Delta<EncodedQuad>>,
    added: Set<EncodedQuad>,
    known: Seq<EncodedQuad>,
    states: Map<EncodedQuad, PendingQuadState>,
    before: Set<EncodedQuad>,
)
    requires
        told(changes, added, known),
        lists_keys(known, states),
        forall|quad: EncodedQuad| #[trigger]
            added.contains(quad) ==> states.contains_key(quad) && !before.contains(quad),
    ensures
        reports(changes, before, before.union(added)),
{
    let after = before.union(added);
    assert forall|i: int| 0 <= i < changes.len() implies differs(
        #[trigger] changes[i],
        before,
        after,
    ) by {
        assert(added.contains(changes[i].value_of()));
    }
    assert forall|quad: EncodedQuad|
        before.contains(quad) != after.contains(quad) implies #[trigger] reported(changes, quad) by {
        assert(added.contains(quad));
        assert(occurs(known, quad));
    }
}

proof fn lemma_all_touched(
    states: Map<EncodedQuad, PendingQuadState>,
    expected: Map<EncodedQuad, PendingQuadState>,
    start: Map<EncodedQuad, PendingQuadState>,
    initial: Set<EncodedQuad>,
    touched: Touched,
    operation: usize,
    pattern: QuadPattern,
    all: Seq<EncodedQuad>,
)
    requires
        expected == touched_states(start, initial, touched, operation),
        touched matches Touched::Pattern(wanted_pattern) ==> wanted_pattern == pattern,
        touched is NamedGraphs ==> pattern == any_quad(),
        lists(all, initial.filter(|quad: EncodedQuad| selects(pattern, quad))),
        forall|quad: EncodedQuad| #[trigger]
            states.contains_key(quad) <==> start.contains_key(quad) || (touches(touched, quad)
                && occurs(all, quad)),
        forall|quad: EncodedQuad| #[trigger]
            states.contains_key(quad) ==> states[quad] == expected[quad],
    ensures
        states == expected,
{
    let wanted = initial.filter(|quad: EncodedQuad| selects(pattern, quad));
    assert forall|quad: EncodedQuad| #[trigger]
        states.dom().contains(quad) <==> expected.dom().contains(quad) by {
        assert(states.contains_key(quad) <==> start.contains_key(quad) || (touches(touched, quad)
            && occurs(all, quad)));
        assert(wanted.contains(quad) <==> occurs(all, quad));
    }
    assert(states =~= expected);
}

/// The quads that have a change to be told among those that were looked at.
spec fn sorted_out(
    changes: Seq<Delta<EncodedQuad>>,
    states: Map<EncodedQuad, PendingQuadState>,
    before: Set<EncodedQuad>,
    seen: Seq<EncodedQuad>,
) -> bool {
    &&& forall|i: int|
        0 <= i < changes.len() ==> differs(#[trigger] changes[i], before, intended(states, before))
            && occurs(seen, changes[i].value_of())
    &&& forall|i: int, j: int|
        0 <= i < j < changes.len() ==> (#[trigger] changes[i]).value_of() != (
        #[trigger] changes[j]).value_of()
    &&& forall|quad: EncodedQuad|
        occurs(seen, quad) && before.contains(quad) != intended(states, before).contains(quad)
            ==> #[trigger] reported(changes, quad)
}

proof fn lemma_sorted_out_next(
    fewer: Seq<Delta<EncodedQuad>>,
    changes: Seq<Delta<EncodedQuad>>,
    states: Map<EncodedQuad, PendingQuadState>,
    before: Set<EncodedQuad>,
    known: Seq<EncodedQuad>,
    at: int,
)
    requires
        0 <= at < known.len(),
        crate::fx::distinct(known),
        sorted_out(fewer, states, before, known.take(at)),
        before.contains(known[at]) == intended(states, before).contains(known[at]) ==> changes
            == fewer,
        before.contains(known[at]) != intended(states, before).contains(known[at])
            ==> changes.len() == fewer.len() + 1 && changes.drop_last() == fewer && differs(
            changes.last(),
            before,
            intended(states, before),
        ) && changes.last().value_of() == known[at],
    ensures
        sorted_out(changes, states, before, known.take(at + 1)),
{
    let seen = known.take(at);
    let more = known.take(at + 1);
    let after = intended(states, before);
    lemma_not_yet(known, at);
    assert forall|i: int| 0 <= i < changes.len() implies differs(
        #[trigger] changes[i],
        before,
        after,
    ) && occurs(more, changes[i].value_of()) by {
        lemma_occurs_next(known, at, changes[i].value_of());
        if i < fewer.len() {
            assert(changes[i] == fewer[i]);
        }
    }
    assert forall|i: int, j: int| 0 <= i < j < changes.len() implies (
    #[trigger] changes[i]).value_of() != (#[trigger] changes[j]).value_of() by {
        assert(changes[i] == fewer[i]);
        if j < fewer.len() {
            assert(changes[j] == fewer[j]);
        } else {
            assert(occurs(seen, fewer[i].value_of()));
        }
    }
    assert forall|quad: EncodedQuad|
        occurs(more, quad) && before.contains(quad) != after.contains(
            quad,
        ) implies #[trigger] reported(changes, quad) by {
        lemma_occurs_next(known, at, quad);
        if occurs(seen, quad) {
            assert(reported(fewer, quad));
            let i = choose|i: int|
                0 <= i < fewer.len() && (#[trigger] fewer[i]).value_of() == quad;
            assert(changes[i].value_of() == quad);
        } else {
            assert(changes[changes.len() - 1].value_of() == quad);
        }
    }
}

impl RangeClear {
    /// Whether a quad is cleared.
    fn includes(&self, quad: &EncodedQuad) -> (result: bool)
        ensures
            result == clears(*self, *quad),
    {
        match self {
            RangeClear::Pattern(pattern, _) => pattern.matches(quad),
            RangeClear::NamedGraphs(_) => !quad.graph_name.is_default_graph(),
        }
    }

    /// The number of the clearing.
    fn number(&self) -> (number: usize)
        ensures
            number == clear_number(*self),
    {
        match self {
            RangeClear::Pattern(_, operation) => *operation,
            RangeClear::NamedGraphs(operation) => *operation,
        }
    }
}

impl IncrementalTransactionState {
    /// Lets a clearing meet the quads that have a state.
    fn settle_known(&mut self, clear: RangeClear)
        requires
            old(self).wf(),
        ensures
            final(self).wf(),
            final(self).range_clears() == old(self).range_clears(),
            final(self).states() == settled_by(old(self).states(), clear, Set::empty()),
    {
        let operation = clear.number();
        let ghost start = self.quad_states@;
        let ghost expected = settled_by(start, clear, Set::empty());
        let known = self.quad_states.keys();
        let mut next: usize = 0;
        while next < known.len()
            invariant
                self.wf(),
                self.range_clears() == old(self).range_clears(),
                operation == clear_number(clear),
                expected == settled_by(start, clear, Set::empty()),
                lists_keys(known@, start),
                next <= known@.len(),
                self.quad_states@.dom() == start.dom(),
                forall|quad: EncodedQuad| #[trigger]
                    self.quad_states@.contains_key(quad) ==> self.quad_states@[quad] == if occurs(
                        known@.take(next as int),
                        quad,
                    ) {
                        expected[quad]
                    } else {
                        start[quad]
                    },
            decreases known@.len() - next,
        {
            let quad = known[next];
            let ghost current = self.quad_states@;
            proof {
                assert(start.contains_key(known@[next as int].model()));
                lemma_not_yet(known@, next as int);
            }
            let unsettled = match self.quad_states.get(&quad) {
                Some(pending) => pending.operation <= operation,
                None => false,
            };
            if unsettled && clear.includes(&quad) {
                self.quad_states.insert(
                    quad,
                    PendingQuadState { desired: DesiredQuadState::Absent, operation },
                );
            }
            next = next + 1;
            proof {
                let more = known@.take(next as int);
                assert(self.quad_states@.dom() =~= start.dom());
                assert forall|q: EncodedQuad| #[trigger]
                    self.quad_states@.contains_key(q) implies self.quad_states@[q] == if occurs(
                    more,
                    q,
                ) {
                    expected[q]
                } else {
                    start[q]
                } by {
                    assert(current.contains_key(q));
                    lemma_occurs_next(known@, next - 1, q);
                }
            }
        }
        proof {
            assert(known@.take(next as int) =~= known@);
            assert forall|quad: EncodedQuad| #[trigger]
                self.quad_states@.contains_key(quad) implies self.quad_states@[quad]
                == expected[quad] by {
                assert(occurs(known@, quad));
            }
            assert(self.quad_states@ =~= expected);
        }
    }

    /// Lets a clearing meet the quads that are there and those that have a state.
    fn settle(&mut self, clear: RangeClear, before: &StorageReader) -> (result: Result<
        (),
        StorageError,
    >)
        requires
            old(self).wf(),
            before.wf(),
        ensures
            final(self).wf(),
            final(self).range_clears() == old(self).range_clears(),
            final(self).states() == settled_by(
                old(self).states(),
                clear,
                before.table().quads(),
            ),
            result == match before.table().damage() {
                Some(error) => Err(error),
                None => Ok::<(), StorageError>(()),
            },
    {
        let (pattern, operation, named_graphs_only) = match clear {
            RangeClear::Pattern(pattern, operation) => (
                pattern.to_read_pattern(),
                operation,
                false,
            ),
            RangeClear::NamedGraphs(operation) => (QuadPattern::any(), operation, true),
        };
        let ghost present = before.table().quads();
        self.settle_known(clear);
        let mut quads = before.read(&pattern);
        let ghost start = self.quad_states@;
        let ghost expected = settled_by(start, clear, present);
        let ghost all = quads.rest();
        let ghost wanted = present.filter(|quad: EncodedQuad| selects(pattern, quad));
        let ghost damage = before.table().damage();
        assert(expected =~= settled_by(old(self).states(), clear, present));
        let ghost mut done: int = 0;
        assert(start =~= settled_by(start, clear, Set::empty()));
        loop
            invariant
                self.wf(),
                self.range_clears() == old(self).range_clears(),
                start == settled_by(start, clear, Set::empty()),
                start == settled_by(old(self).states(), clear, Set::empty()),
                present == before.table().quads(),
                damage == before.table().damage(),
                expected == settled_by(start, clear, present),
                expected == settled_by(old(self).states(), clear, present),
                wanted == present.filter(|quad: EncodedQuad| selects(pattern, quad)),
                lists(all, wanted),
                0 <= done <= all.len(),
                quads.rest() == all.skip(done),
                quads.failure() == damage,
                operation == clear_number(clear),
                named_graphs_only == clear is NamedGraphs,
                clear matches RangeClear::Pattern(p, _) ==> pattern == read_pattern(p),
                clear is NamedGraphs ==> pattern == any_quad(),
                forall|quad: EncodedQuad| #[trigger]
                    self.quad_states@.contains_key(quad) <==> start.contains_key(quad) || (clears(
                        clear,
                        quad,
                    ) && occurs(all.take(done), quad)),
                forall|quad: EncodedQuad| #[trigger]
                    self.quad_states@.contains_key(quad) ==> self.quad_states@[quad] == if clears(
                        clear,
                        quad,
                    ) && occurs(all.take(done), quad) {
                        expected[quad]
                    } else {
                        start[quad]
                    },
            decreases quads.rest().len(),
        {
            let ghost current = self.quad_states@;
            match quads.next() {
                Some(Ok(quad)) => {
                    proof {
                        assert(quad == all[done]);
                        assert(all.skip(done).drop_first() =~= all.skip(done + 1));
                        assert(wanted.contains(all[done].model()));
                        assert(present.contains(quad));
                        lemma_not_yet(all, done);
                    }
                    if !(named_graphs_only && quad.graph_name.is_default_graph()) {
                        assert(clears(clear, quad));
                        let unsettled = match self.quad_states.get(&quad) {
                            Some(pending) => pending.operation <= operation,
                            None => true,
                        };
                        if unsettled {
                            self.quad_states.insert(
                                quad,
                                PendingQuadState {
                                    desired: DesiredQuadState::Absent,
                                    operation,
                                },
                            );
                        }
                    }
                    proof {
                        assert forall|q: EncodedQuad| #[trigger]
                            self.quad_states@.contains_key(q) <==> start.contains_key(q) || (clears(
                                clear,
                                q,
                            ) && occurs(all.take(done + 1), q)) by {
                            assert(current.contains_key(q) <==> start.contains_key(q) || (clears(
                                clear,
                                q,
                            ) && occurs(all.take(done), q)));
                            lemma_occurs_next(all, done, q);
                        }
                        assert forall|q: EncodedQuad| #[trigger]
                            self.quad_states@.contains_key(q) implies self.quad_states@[q]
                            == if clears(clear, q) && occurs(all.take(done + 1), q) {
                            expected[q]
                        } else {
                            start[q]
                        } by {
                            lemma_occurs_next(all, done, q);
                            if q != quad {
                                assert(current.contains_key(q));
                            }
                        }
                        done = done + 1;
                    }
                },
                Some(Err(error)) => {
                    proof {
                        assert(all.take(done) =~= all);
                        lemma_all_settled(self.states(), start, clear, present, pattern, all);
                    }
                    return Err(error);
                },
                None => {
                    proof {
                        assert(all.take(done) =~= all);
                        lemma_all_settled(self.states(), start, clear, present, pattern, all);
                    }
                    return Ok(());
                },
            }
        }
    }

    /// The changes that the commit of what is recorded here makes to a store: what is there
    /// immediately before the commit is what counts, so that transactions that overlap do
    /// not tell a change twice.
    pub fn prepare_changes(self, storage: &Storage) -> (result: Result<
        Vec<Delta<EncodedQuad>>,
        StorageError,
    >)
        requires
            self.wf(),
            storage.wf(),
        ensures
            self.changes_prepared(
                *storage,
                match result {
                    Ok(changes) => Ok(changes@),
                    Err(error) => Err(error),
                },
            ),
    {
        let mut state = self;
        if !state.trackable || (state.quad_states.is_empty() && state.range_clears.len() == 0) {
            return Ok(Vec::new());
        }
        let ghost start = state;
        let before = storage.snapshot();
        let ghost present = before.table().quads();
        let mut next: usize = 0;
        assert(state.range_clears@.take(0) =~= Seq::empty());
        while next < state.range_clears.len()
            invariant
                state.wf(),
                before.wf(),
                start == self,
                start.tracking(),
                !(start.states() == Map::<EncodedQuad, PendingQuadState>::empty()
                    && start.range_clears().len() == 0),
                before.table() == storage.table(),
                present == before.table().quads(),
                state.range_clears() == start.range_clears(),
                next <= state.range_clears@.len(),
                state.states() == settled(
                    start.states(),
                    start.range_clears().take(next as int),
                    present,
                ),
                next > 0 ==> before.table().damage() is None,
            decreases state.range_clears@.len() - next,
        {
            let clear = state.range_clears[next];
            assert(start.range_clears().take(next + 1).drop_last() =~= start.range_clears().take(
                next as int,
            ));
            match state.settle(clear, &before) {
                Ok(()) => {},
                Err(error) => {
                    return Err(error);
                },
            }
            next = next + 1;
        }
        assert(start.range_clears().take(next as int) =~= start.range_clears());
        let ghost states = state.quad_states@;
        let known = state.quad_states.keys();
        let mut changes: Vec<Delta<EncodedQuad>> = Vec::new();
        let mut next: usize = 0;
        while next < known.len()
            invariant
                state.wf(),
                before.wf(),
                present == before.table().quads(),
                states == state.quad_states@,
                lists_keys(known@, states),
                next <= known@.len(),
                sorted_out(changes@, states, present, known@.take(next as int)),
            decreases known@.len() - next,
        {
            let quad = known[next];
            let ghost old_changes = changes@;
            assert(states.contains_key(known@[next as int].model()));
            let had_before = match before.contains(&quad) {
                Ok(result) => result,
                Err(error) => {
                    return Err(error);
                },
            };
            if let Some(pending) = state.quad_states.get(&quad) {
                match (had_before, pending.desired) {
                    (false, DesiredQuadState::Present) => {
                        changes.push(Delta::addition(quad));
                    },
                    (true, DesiredQuadState::Absent) => {
                        changes.push(Delta::deletion(quad));
                    },
                    _ => {},
                }
            }
            next = next + 1;
            proof {
                if present.contains(quad) != intended(states, present).contains(quad) {
                    assert(changes@.drop_last() =~= old_changes);
                }
                lemma_sorted_out_next(old_changes, changes@, states, present, known@, next - 1);
            }
        }
        proof {
            assert(known@.take(next as int) =~= known@);
            let after = intended(states, present);
            assert forall|quad: EncodedQuad|
                present.contains(quad) != after.contains(quad) implies #[trigger] reported(
                changes@,
                quad,
            ) by {
                assert(states.contains_key(quad));
                assert(occurs(known@, quad));
            }
            assert(reports(changes@, present, after));
        }
        Ok(changes)
    }

    /// Why the changes that a commit makes cannot be told: a clearing has to be compared with
    /// all that is there, and not all of it can be read.
    pub open spec fn untellable(&self, storage: Storage) -> Option<StorageError> {
        if self.tracking() && self.range_clears().len() > 0 {
            storage.table().damage()
        } else {
            None
        }
    }

    /// The changes that a commit makes, and when they cannot be told.
    pub open spec fn changes_prepared(
        &self,
        storage: Storage,
        result: Result<Seq<Delta<EncodedQuad>>, StorageError>,
    ) -> bool {
        if !self.tracking() || (self.states() == Map::<EncodedQuad, PendingQuadState>::empty()
            && self.range_clears().len() == 0) {
            result == Ok::<Seq<Delta<EncodedQuad>>, StorageError>(Seq::empty())
        } else if let Some(error) = self.untellable(storage) {
            result == Err::<Seq<Delta<EncodedQuad>>, StorageError>(error)
        } else {
            result matches Ok(changes) && reports(
                changes,
                storage.table().quads(),
                self.published(storage.table().quads()),
            )
        }
    }

    /// The quads that are there after the commit, as far as what is recorded tells.
    pub open spec fn published(&self, before: Set<EncodedQuad>) -> Set<EncodedQuad> {
        intended(settled(self.states(), self.range_clears(), before), before)
    }
}

proof fn lemma_all_settled(
    states: Map<EncodedQuad, PendingQuadState>,
    start: Map<EncodedQuad, PendingQuadState>,
    clear: RangeClear,
    present: Set<EncodedQuad>,
    pattern: QuadPattern,
    all: Seq<EncodedQuad>,
)
    requires
        clear matches RangeClear::Pattern(p, _) ==> pattern == read_pattern(p),
        clear is NamedGraphs ==> pattern == any_quad(),
        lists(all, present.filter(|quad: EncodedQuad| selects(pattern, quad))),
        start == settled_by(start, clear, Set::empty()),
        forall|quad: EncodedQuad| #[trigger]
            states.contains_key(quad) <==> start.contains_key(quad) || (clears(clear, quad)
                && occurs(all, quad)),
        forall|quad: EncodedQuad| #[trigger]
            states.contains_key(quad) ==> states[quad] == if clears(clear, quad) && occurs(
                all,
                quad,
            ) {
                settled_by(start, clear, present)[quad]
            } else {
                start[quad]
            },
    ensures
        states == settled_by(start, clear, present),
{
    let expected = settled_by(start, clear, present);
    let wanted = present.filter(|quad: EncodedQuad| selects(pattern, quad));
    assert forall|quad: EncodedQuad| #[trigger]
        states.dom().contains(quad) <==> expected.dom().contains(quad) by {
        assert(states.contains_key(quad) <==> start.contains_key(quad) || (clears(clear, quad)
            && occurs(all, quad)));
        assert(wanted.contains(quad) <==> occurs(all, quad));
    }
    assert forall|quad: EncodedQuad| #[trigger] states.dom().contains(quad) implies states[quad]
        == expected[quad] by {
        assert(states.contains_key(quad));
        assert(wanted.contains(quad) <==> occurs(all, quad));
        if start.contains_key(quad) {
            assert(settled_by(start, clear, Set::empty())[quad] == start[quad]);
        }
    }
    assert(states =~= expected);
}

/// What is recorded of the steps of a write.
pub struct Track {
    pub states: Map<EncodedQuad, PendingQuadState>,
    pub range_clears: Seq<RangeClear>,
    pub next_number: nat,
}

/// The clearing that is recorded for a range of graphs.
pub open spec fn clear_of(scope: ClearScope, number: usize) -> RangeClear {
    match scope {
        ClearScope::Graph(name) => RangeClear::Pattern(
            IncrementalQuadPattern {
                subject: None,
                predicate: None,
                object: None,
                graph_name: Some(Some(name)),
            },
            number,
        ),
        ClearScope::NamedGraphs => RangeClear::NamedGraphs(number),
        ClearScope::AllGraphs => RangeClear::Pattern(
            IncrementalQuadPattern {
                subject: None,
                predicate: None,
                object: None,
                graph_name: None,
            },
            number,
        ),
    }
}

/// What is recorded after one more step.
pub open spec fn track_step(track: Track, op: WriteOp) -> Track {
    let number = track.next_number as usize;
    match op {
        WriteOp::PutQuad(quad) => Track {
            states: track.states.insert(
                quad,
                PendingQuadState { desired: DesiredQuadState::Present, operation: number },
            ),
            next_number: track.next_number + 1,
            ..track
        },
        WriteOp::DeleteQuad(quad) => Track {
            states: track.states.insert(
                quad,
                PendingQuadState { desired: DesiredQuadState::Absent, operation: number },
            ),
            next_number: track.next_number + 1,
            ..track
        },
        WriteOp::ClearQuads(scope) => Track {
            range_clears: track.range_clears.push(clear_of(scope, number)),
            next_number: track.next_number + 1,
            ..track
        },
        WriteOp::PutGraph(_) | WriteOp::DeleteGraph(_) | WriteOp::ForgetGraphs => track,
    }
}

/// What is recorded of a sequence of steps.
pub open spec fn track(ops: Seq<WriteOp>) -> Track
    decreases ops.len(),
{
    if ops.len() == 0 {
        Track { states: Map::empty(), range_clears: Seq::empty(), next_number: 0 }
    } else {
        track_step(track(ops.drop_last()), ops.last())
    }
}

/// One more step is recorded as the next one.
pub proof fn lemma_track_push(ops: Seq<WriteOp>, op: WriteOp)
    ensures
        track(ops.push(op)) == track_step(track(ops), op),
{
    assert(ops.push(op).drop_last() =~= ops);
}

/// Whether a clearing with a number above a given one removes a quad.
pub open spec fn cleared_after(
    range_clears: Seq<RangeClear>,
    quad: EncodedQuad,
    number: int,
) -> bool {
    exists|i: int|
        0 <= i < range_clears.len() && clears(#[trigger] range_clears[i], quad) && clear_number(
            range_clears[i],
        ) > number
}

spec fn numbered(track: Track) -> bool {
    &&& forall|i: int, j: int|
        0 <= i < j < track.range_clears.len() ==> clear_number(#[trigger] track.range_clears[i])
            < clear_number(#[trigger] track.range_clears[j])
    &&& forall|i: int|
        0 <= i < track.range_clears.len() ==> clear_number(#[trigger] track.range_clears[i])
            < track.next_number
    &&& forall|quad: EncodedQuad| #[trigger]
        track.states.contains_key(quad) ==> track.states[quad].operation < track.next_number
    &&& forall|quad: EncodedQuad, i: int|
        #![trigger track.states.contains_key(quad), track.range_clears[i]]
        track.states.contains_key(quad) && 0 <= i < track.range_clears.len()
            ==> track.states[quad].operation != clear_number(track.range_clears[i])
}

/// Operations are numbered in their order.
proof fn lemma_numbered(ops: Seq<WriteOp>)
    requires
        track(ops).next_number <= usize::MAX + 1,
    ensures
        numbered(track(ops)),
    decreases ops.len(),
{
    if ops.len() > 0 {
        let before = track(ops.drop_last());
        lemma_numbered(ops.drop_last());
        let after = track(ops);
        assert forall|quad: EncodedQuad, i: int|
            #![trigger after.states.contains_key(quad), after.range_clears[i]]
            after.states.contains_key(quad) && 0 <= i
                < after.range_clears.len() implies after.states[quad].operation != clear_number(
            after.range_clears[i],
        ) by {
            if before.states.contains_key(quad) && i < before.range_clears.len() {
                assert(before.states[quad].operation != clear_number(before.range_clears[i]));
            }
            if i < before.range_clears.len() {
                assert(after.range_clears[i] == before.range_clears[i]);
            }
        }
        assert forall|i: int, j: int| 0 <= i < j < after.range_clears.len() implies clear_number(
            #[trigger] after.range_clears[i],
        ) < clear_number(#[trigger] after.range_clears[j]) by {
            assert(after.range_clears[i] == before.range_clears[i]);
            if j < before.range_clears.len() {
                assert(after.range_clears[j] == before.range_clears[j]);
            }
        }
        assert forall|i: int| 0 <= i < after.range_clears.len() implies clear_number(
            #[trigger] after.range_clears[i],
        ) < after.next_number by {
            if i < before.range_clears.len() {
                assert(after.range_clears[i] == before.range_clears[i]);
            }
        }
    }
}

/// Whether a quad is there after a write, told from what is recorded of the write.
pub open spec fn written_by_track(
    track: Track,
    before: Set<EncodedQuad>,
    quad: EncodedQuad,
) -> bool {
    if track.states.contains_key(quad) {
        track.states[quad].desired == DesiredQuadState::Present && !cleared_after(
            track.range_clears,
            quad,
            track.states[quad].operation as int,
        )
    } else {
        before.contains(quad) && !cleared_after(track.range_clears, quad, -1)
    }
}

proof fn lemma_cleared_push(
    range_clears: Seq<RangeClear>,
    clear: RangeClear,
    quad: EncodedQuad,
    number: int,
)
    ensures
        cleared_after(range_clears.push(clear), quad, number) <==> cleared_after(
            range_clears,
            quad,
            number,
        ) || (clears(clear, quad) && clear_number(clear) > number),
{
    let more = range_clears.push(clear);
    if cleared_after(range_clears, quad, number) {
        let i = choose|i: int|
            0 <= i < range_clears.len() && clears(#[trigger] range_clears[i], quad)
                && clear_number(range_clears[i]) > number;
        assert(clears(more[i], quad));
    }
    if cleared_after(more, quad, number) {
        let i = choose|i: int|
            0 <= i < more.len() && clears(#[trigger] more[i], quad) && clear_number(more[i])
                > number;
        if i < range_clears.len() {
            assert(clears(range_clears[i], quad));
        }
    }
    assert(more[range_clears.len() as int] == clear);
}

/// What is recorded of a write tells which quads are there after it.
proof fn lemma_written_by_track(
    ops: Seq<WriteOp>,
    before: Set<EncodedQuad>,
    quad: EncodedQuad,
)
    requires
        track(ops).next_number <= usize::MAX + 1,
    ensures
        quads_written(before, ops).contains(quad) <==> written_by_track(track(ops), before, quad),
    decreases ops.len(),
{
    if ops.len() > 0 {
        let op = ops.last();
        let earlier = track(ops.drop_last());
        lemma_written_by_track(ops.drop_last(), before, quad);
        lemma_numbered(ops.drop_last());
        match op {
            WriteOp::PutQuad(own) => {
                if own == quad {
                    if cleared_after(earlier.range_clears, quad, earlier.next_number as int) {
                        let i = choose|i: int|
                            0 <= i < earlier.range_clears.len() && clears(
                                #[trigger] earlier.range_clears[i],
                                quad,
                            ) && clear_number(earlier.range_clears[i]) > earlier.next_number;
                        assert(clear_number(earlier.range_clears[i]) < earlier.next_number);
                    }
                }
            },
            WriteOp::DeleteQuad(own) => {},
            WriteOp::ClearQuads(scope) => {
                let number = earlier.next_number as usize;
                let clear = clear_of(scope, number);
                assert(clears(clear, quad) == covers(scope, quad));
                lemma_cleared_push(earlier.range_clears, clear, quad, -1);
                if earlier.states.contains_key(quad) {
                    lemma_cleared_push(
                        earlier.range_clears,
                        clear,
                        quad,
                        earlier.states[quad].operation as int,
                    );
                }
            },
            WriteOp::PutGraph(_) | WriteOp::DeleteGraph(_) | WriteOp::ForgetGraphs => {},
        }
    }
}

/// Settling makes a quad absent exactly when a later clearing does.
proof fn lemma_settled(
    states: Map<EncodedQuad, PendingQuadState>,
    range_clears: Seq<RangeClear>,
    before: Set<EncodedQuad>,
    quad: EncodedQuad,
)
    requires
        forall|i: int, j: int|
            0 <= i < j < range_clears.len() ==> clear_number(#[trigger] range_clears[i])
                < clear_number(#[trigger] range_clears[j]),
        forall|i: int|
            states.contains_key(quad) && 0 <= i < range_clears.len() ==> states[quad].operation
                != clear_number(#[trigger] range_clears[i]),
    ensures
        ({
            let result = settled(states, range_clears, before);
            let kept = states.contains_key(quad) && !cleared_after(
                range_clears,
                quad,
                states[quad].operation as int,
            );
            &&& result.contains_key(quad) <==> states.contains_key(quad) || (before.contains(quad)
                && cleared_after(range_clears, quad, -1))
            &&& kept ==> result[quad] == states[quad]
            &&& result.contains_key(quad) && !kept ==> result[quad].desired
                == DesiredQuadState::Absent && range_clears.len() > 0 && result[quad].operation
                <= clear_number(range_clears.last())
        }),
    decreases range_clears.len(),
{
    if range_clears.len() > 0 {
        let front = range_clears.drop_last();
        let clear = range_clears.last();
        let last = range_clears.len() - 1;
        assert(range_clears[last] == clear);
        assert forall|i: int, j: int| 0 <= i < j < front.len() implies clear_number(
            #[trigger] front[i],
        ) < clear_number(#[trigger] front[j]) by {
            assert(clear_number(range_clears[i]) < clear_number(range_clears[j]));
        }
        assert forall|i: int|
            states.contains_key(quad) && 0 <= i < front.len() implies states[quad].operation
            != clear_number(#[trigger] front[i]) by {
            assert(front[i] == range_clears[i]);
        }
        lemma_settled(states, front, before, quad);
        assert(front.push(clear) =~= range_clears);
        lemma_cleared_push(front, clear, quad, -1);
        if states.contains_key(quad) {
            lemma_cleared_push(front, clear, quad, states[quad].operation as int);
        }
        if front.len() > 0 {
            assert(clear_number(range_clears[front.len() - 1]) < clear_number(range_clears[last]));
        }
    }
}

/// What is published of a write is what the write does to the store.
pub proof fn law_published_is_written(ops: Seq<WriteOp>, before: Set<EncodedQuad>)
    requires
        track(ops).next_number <= usize::MAX + 1,
    ensures
        intended(settled(track(ops).states, track(ops).range_clears, before), before)
            == quads_written(before, ops),
{
    let record = track(ops);
    let result = settled(record.states, record.range_clears, before);
    lemma_numbered(ops);
    assert forall|quad: EncodedQuad| intended(result, before).contains(quad) <==> quads_written(
        before,
        ops,
    ).contains(quad) by {
        lemma_written_by_track(ops, before, quad);
        assert forall|i: int|
            record.states.contains_key(quad) && 0 <= i
                < record.range_clears.len() implies record.states[quad].operation
            != clear_number(#[trigger] record.range_clears[i]) by {}
        lemma_settled(record.states, record.range_clears, before, quad);
        if record.states.contains_key(quad) && cleared_after(
            record.range_clears,
            quad,
            record.states[quad].operation as int,
        ) {
            let i = choose|i: int|
                0 <= i < record.range_clears.len() && clears(
                    #[trigger] record.range_clears[i],
                    quad,
                ) && clear_number(record.range_clears[i]) > record.states[quad].operation;
            assert(clears(record.range_clears[i], quad));
        }
    }
    assert(intended(result, before) =~= quads_written(before, ops));
}

impl IncrementalTransactionState {
    /// Whether exactly the steps of a write are recorded.
    pub open spec fn records(&self, ops: Seq<WriteOp>) -> bool {
        &&& self.tracking()
        &&& self.states() == track(ops).states
        &&& self.range_clears() == track(ops).range_clears
        &&& self.next_number() == track(ops).next_number
    }

    /// Operation numbers do not run out.
    pub proof fn lemma_limit(&self)
        ensures
            self.next_number() <= usize::MAX,
    {
        self.next_operation.lemma_limit();
    }
}

/// A removal of quads makes those absent that it touches, as far as they were there when the
/// write began or were written since, and leaves every other quad as it was meant to be.
pub proof fn law_removals_make_the_touched_quads_absent(
    states: Map<EncodedQuad, PendingQuadState>,
    initial: Set<EncodedQuad>,
    touched: Touched,
    operation: usize,
    before: Set<EncodedQuad>,
    quad: EncodedQuad,
)
    ensures
        intended(touched_states(states, initial, touched, operation), before).contains(quad) <==> {
            &&& intended(states, before).contains(quad)
            &&& !(touches(touched, quad) && (states.contains_key(quad) || initial.contains(quad)))
        },
        touches(Touched::NamedGraphs, quad) <==> quad.graph_name != EncodedTerm::DefaultGraph,
        forall|pattern: QuadPattern|
            touches(Touched::Pattern(pattern), quad) <==> #[trigger] selects(pattern, quad),
{
}

/// Quads are told to have become visible exactly where they are there after a write, were not
/// there before, and were meant to be there.
pub proof fn law_newly_visible_quads_were_written(
    states: Map<EncodedQuad, PendingQuadState>,
    before: Set<EncodedQuad>,
    after: Set<EncodedQuad>,
    quad: EncodedQuad,
)
    ensures
        newly_visible(states, before, after).contains(quad) <==> {
            &&& after.contains(quad) && !before.contains(quad)
            &&& states.contains_key(quad) && intended(states, Set::empty()).contains(quad)
        },
        intended(states, before).contains(quad) && !before.contains(quad) ==> states.contains_key(
            quad,
        ),
{
}

} // verus!
