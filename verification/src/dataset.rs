//! A view of a store as the dataset of a query.

use crate::error::{CorruptionError, StorageError};
use crate::fx::{lists_keys, occurs, FxKey, FxMap};
use crate::model::{BlankNode, ExpressionTerm, NamedNode, NativeLiteral, Term, TermView, Text};
use crate::numeric_encoder::{
    decoded, decoded_id, decoded_str, encoded, entries, insert_term, law_term_round_trip, native_of,
    term_entries, EncodedStr, EncodedTerm, StrHash,
};
use crate::source::{
    internal_quad, internal_triple, InternalQuad, InternalTriple, LiveQuadDeltaSource,
};
use crate::storage::{
    graph_asked, looked_up, pattern_of, spec_copied, DecodingGraphIterator, DecodingQuadIterator,
    Storage, StorageReader,
};
use crate::subscription::graph_wanted;
use crate::table::{selects, share, QuadPattern};
use std::sync::Arc;
use vstd::prelude::*;

verus! {

/// A view of a store, with the strings that a query brings along.
pub struct DatasetView {
    reader: Arc<StorageReader>,
    extra: FxMap<StrHash, Text>,
}

/// The strings after more of them were brought along: a string that is known already, by
/// its hash, is not.
pub open spec fn brought(
    extra: Map<StrHash, Seq<u8>>,
    known: Map<StrHash, Seq<u8>>,
    list: Seq<(StrHash, Seq<u8>)>,
) -> Map<StrHash, Seq<u8>>
    decreases list.len(),
{
    if list.len() == 0 {
        extra
    } else {
        let front = brought(extra, known, list.drop_last());
        let (key, text) = list.last();
        if front.contains_key(key) || known.contains_key(key) {
            front
        } else {
            front.insert(key, text)
        }
    }
}

/// The value of a boolean expression, for the terms that have one.
pub open spec fn effective_boolean_value(term: EncodedTerm) -> Option<bool> {
    match term {
        EncodedTerm::BooleanLiteral(value) => Some(value),
        EncodedTerm::SmallStringLiteral(value) => Some(value.text().len() > 0),
        EncodedTerm::BigStringLiteral { .. } => Some(true),
        EncodedTerm::FloatLiteral(bits) => Some(0 < bits % 0x8000_0000 <= 0x7f80_0000),
        EncodedTerm::DoubleLiteral(bits) => Some(
            0 < bits % 0x8000_0000_0000_0000 <= 0x7ff0_0000_0000_0000,
        ),
        EncodedTerm::IntegerLiteral(value) => Some(value != 0),
        EncodedTerm::DecimalLiteral(value) => Some(value != 0),
        _ => None,
    }
}

/// The outcome of decoding, as an outcome of the store.
pub open spec fn as_stored(result: Result<TermView, CorruptionError>) -> Result<
    TermView,
    StorageError,
> {
    match result {
        Ok(term) => Ok(term),
        Err(error) => Err(StorageError::Corruption(error)),
    }
}

/// The view of a term, in an outcome.
pub open spec fn viewed(result: Result<Term, StorageError>) -> Result<TermView, StorageError> {
    match result {
        Ok(term) => Ok(term@),
        Err(error) => Err(error),
    }
}

impl DatasetView {
    pub closed spec fn wf(&self) -> bool {
        self.reader.wf() && self.extra.wf()
    }

    /// The view of the store.
    pub closed spec fn reader(&self) -> StorageReader {
        *self.reader
    }

    /// The strings that were brought along.
    pub closed spec fn extra(&self) -> Map<StrHash, Seq<u8>> {
        Map::new(|key: StrHash| self.extra@.contains_key(key), |key: StrHash| self.extra@[key]@)
    }

    /// The string that is found for a hash.
    pub open spec fn lookup(&self, storage: Storage) -> spec_fn(StrHash) -> Option<Seq<u8>> {
        |key: StrHash|
            if self.extra().contains_key(key) {
                Some(self.extra()[key])
            } else {
                looked_up(self.reader(), storage, key)
            }
    }

    pub fn new(reader: StorageReader) -> (view: Self)
        requires
            reader.wf(),
        ensures
            view.wf(),
            view.reader() == reader,
            view.extra() == Map::<StrHash, Seq<u8>>::empty(),
    {
        let view = DatasetView { reader: Arc::new(reader), extra: FxMap::new() };
        assert(view.extra() =~= Map::<StrHash, Seq<u8>>::empty());
        view
    }

    /// The same view with the same strings.
    pub fn duplicate(&self) -> (view: Self)
        requires
            self.wf(),
        ensures
            view.wf(),
            view.reader() == self.reader(),
            view.extra() == self.extra(),
    {
        let keys = self.extra.keys();
        let mut extra: FxMap<StrHash, Text> = FxMap::new();
        let mut next: usize = 0;
        while next < keys.len()
            invariant
                self.wf(),
                extra.wf(),
                next <= keys@.len(),
                lists_keys(keys@, self.extra@),
                forall|key: StrHash| #[trigger]
                    extra@.contains_key(key) <==> occurs(keys@.take(next as int), key),
                forall|key: StrHash| #[trigger]
                    extra@.contains_key(key) ==> self.extra@.contains_key(key) && extra@[key]@
                        == self.extra@[key]@,
            decreases keys@.len() - next,
        {
            let key = keys[next];
            let ghost seen = keys@.take(next as int);
            let ghost more = keys@.take(next + 1);
            proof {
                assert(self.extra@.contains_key(keys@[next as int].model()));
                assert forall|k: StrHash| #[trigger] occurs(more, k) <==> occurs(seen, k) || k
                    == key by {
                    if occurs(seen, k) {
                        let i = choose|i: int| 0 <= i < seen.len() && (
                        #[trigger] seen[i]).model() == k;
                        assert(more[i].model() == k);
                    }
                    if occurs(more, k) {
                        let i = choose|i: int| 0 <= i < more.len() && (
                        #[trigger] more[i]).model() == k;
                        if i < next {
                            assert(seen[i].model() == k);
                        }
                    }
                    assert(more[next as int].model() == key);
                }
            }
            if let Some(text) = self.extra.get(&key) {
                extra.insert(key, text.duplicate());
            }
            next = next + 1;
        }
        let view = DatasetView { reader: share(&self.reader), extra };
        proof {
            assert(keys@.take(next as int) =~= keys@);
            assert forall|key: StrHash|
                #![trigger view.extra().contains_key(key)]
                view.extra().contains_key(key) == self.extra().contains_key(key) by {
                assert(self.extra@.contains_key(key) <==> occurs(keys@, key));
            }
            assert(view.extra() =~= self.extra());
        }
        view
    }

    /// Brings a string along, unless its hash is known already.
    pub fn insert_str(&mut self, key: &StrHash, value: Text)
        requires
            old(self).wf(),
        ensures
            final(self).wf(),
            final(self).reader() == old(self).reader(),
            final(self).extra() == brought(
                old(self).extra(),
                old(self).reader().table().strings(),
                seq![(*key, value@)],
            ),
    {
        let ghost before = *self;
        let ghost list = seq![(*key, value@)];
        assert(list.drop_last() =~= Seq::empty());
        assert(brought(
            before.extra(),
            before.reader().table().strings(),
            list.drop_last(),
        ) == before.extra());
        if !self.extra.contains_key(key) {
            let known = match self.reader.contains_str(key) {
                Ok(known) => known,
                Err(_) => false,
            };
            if !known {
                self.extra.insert(*key, value);
                assert(self.extra() =~= before.extra().insert(*key, value@));
            }
        }
    }

    /// The quads that have the given terms. Of the graph name the outer `None` stands for
    /// any graph and the inner `None` for the default graph.
    pub fn internal_quads_for_pattern(
        &self,
        subject: Option<&EncodedTerm>,
        predicate: Option<&EncodedTerm>,
        object: Option<&EncodedTerm>,
        graph_name: Option<Option<EncodedTerm>>,
    ) -> (quads: InternalQuadIterator)
        requires
            self.wf(),
        ensures
            quads.quads.reads(
                self.reader().table(),
                QuadPattern {
                    subject: spec_copied(subject),
                    predicate: spec_copied(predicate),
                    object: spec_copied(object),
                    graph_name: graph_wanted(graph_name),
                },
            ),
    {
        let graph_name = crate::subscription::wanted_graph(graph_name);
        InternalQuadIterator {
            quads: self.reader.quads_for_pattern(
                subject,
                predicate,
                object,
                match &graph_name {
                    Some(graph_name) => Some(graph_name),
                    None => None,
                },
            ),
        }
    }

    /// The triples of the quads that have the given terms and are in one of the given
    /// graphs, or in any graph, each once, and the errors of rows that cannot be read.
    pub fn internal_triples_for_pattern(
        &self,
        subject: Option<&EncodedTerm>,
        predicate: Option<&EncodedTerm>,
        object: Option<&EncodedTerm>,
        graph_names: Option<&Vec<Option<EncodedTerm>>>,
    ) -> (triples: Vec<Result<InternalTriple, StorageError>>)
        requires
            self.wf(),
        ensures
            forall|i: int, j: int|
                0 <= i < j < triples@.len() && (#[trigger] triples@[i]) is Ok ==> triples@[i]
                    != #[trigger] triples@[j],
            forall|triple: InternalTriple| #[trigger]
                triples@.contains(Ok::<InternalTriple, StorageError>(triple)) <==> exists|
                    quad: crate::numeric_encoder::EncodedQuad,
                |
                    #[trigger] self.reader().table().quads().contains(quad) && internal_triple(
                        crate::numeric_encoder::triple_of(quad),
                    ) == triple && selects(pattern_of(subject, predicate, object, None), quad)
                        && graph_asked(graph_names, quad.graph_name),
            forall|i: int|
                0 <= i < triples@.len() && (#[trigger] triples@[i]) is Err
                    ==> self.reader().table().damage() == Some(triples@[i]->Err_0),
    {
        let found = self.reader.triples_for_pattern(subject, predicate, object, graph_names);
        let mut triples: Vec<Result<InternalTriple, StorageError>> = Vec::new();
        let mut next: usize = 0;
        while next < found.len()
            invariant
                next <= found@.len(),
                triples@.len() == next,
                forall|i: int|
                    0 <= i < next ==> (#[trigger] triples@[i]) == match found@[i] {
                        Ok(triple) => Ok::<InternalTriple, StorageError>(internal_triple(triple)),
                        Err(error) => Err(error),
                    },
            decreases found@.len() - next,
        {
            triples.push(
                match found[next] {
                    Ok(triple) => Ok(InternalTriple::from_encoded(triple)),
                    Err(error) => Err(error),
                },
            );
            next = next + 1;
        }
        proof {
            assert forall|i: int, j: int|
                0 <= i < j < triples@.len() && (#[trigger] triples@[i]) is Ok implies triples@[i]
                != #[trigger] triples@[j] by {
                assert(found@[i] != found@[j]);
            }
            assert forall|triple: InternalTriple| #[trigger]
                triples@.contains(Ok::<InternalTriple, StorageError>(triple)) <==> found@.contains(
                    Ok(
                        crate::numeric_encoder::EncodedTriple {
                            subject: triple.subject,
                            predicate: triple.predicate,
                            object: triple.object,
                        },
                    ),
                ) by {
                let plain = crate::numeric_encoder::EncodedTriple {
                    subject: triple.subject,
                    predicate: triple.predicate,
                    object: triple.object,
                };
                if triples@.contains(Ok::<InternalTriple, StorageError>(triple)) {
                    let i = choose|i: int|
                        0 <= i < triples@.len() && triples@[i] == Ok::<
                            InternalTriple,
                            StorageError,
                        >(triple);
                    assert(found@[i] == Ok::<
                        crate::numeric_encoder::EncodedTriple,
                        StorageError,
                    >(plain));
                }
                if found@.contains(Ok(plain)) {
                    let i = choose|i: int|
                        0 <= i < found@.len() && found@[i] == Ok::<
                            crate::numeric_encoder::EncodedTriple,
                            StorageError,
                        >(plain);
                    assert(triples@[i] == Ok::<InternalTriple, StorageError>(triple));
                }
            }
            assert forall|i: int|
                0 <= i < triples@.len() && (
                #[trigger] triples@[i]) is Err implies self.reader().table().damage() == Some(
                triples@[i]->Err_0,
            ) by {
                let error = triples@[i]->Err_0;
                assert(found@[i] == Err::<crate::numeric_encoder::EncodedTriple, StorageError>(
                    error,
                ));
                crate::bag::lemma_count(
                    found@,
                    Err::<crate::numeric_encoder::EncodedTriple, StorageError>(error),
                );
                assert(found@.contains(found@[i]));
            }
        }
        triples
    }

    /// The names of the named graphs.
    pub fn internal_named_graphs(&self) -> (graphs: DecodingGraphIterator)
        requires
            self.wf(),
        ensures
            crate::fx::lists(graphs.rest(), self.reader().table().graphs()),
            graphs.failure() == self.reader().table().damage(),
    {
        self.reader.named_graphs()
    }

    pub fn contains_internal_graph_name(&self, graph_name: &EncodedTerm) -> (result: Result<
        bool,
        StorageError,
    >)
        requires
            self.wf(),
        ensures
            result == Ok::<bool, StorageError>(
                self.reader().table().graphs().contains(*graph_name),
            ),
    {
        self.reader.contains_named_graph(graph_name)
    }

    /// Encodes a term and brings its strings along.
    pub fn internalize_term(&mut self, term: Term) -> (result: Result<EncodedTerm, StorageError>)
        requires
            old(self).wf(),
        ensures
            final(self).wf(),
            result == Ok::<EncodedTerm, StorageError>(encoded(term@)),
            final(self).reader() == old(self).reader(),
            final(self).extra() == brought(
                old(self).extra(),
                old(self).reader().table().strings(),
                term_entries(term@),
            ),
    {
        let encoded_term = EncodedTerm::from_term(&term);
        let mut strings: Vec<(StrHash, Text)> = Vec::new();
        insert_term(&term, &mut strings);
        let ghost list = entries(strings@);
        assert(list =~= term_entries(term@));
        let ghost extra = self.extra();
        let ghost known = self.reader().table().strings();
        let mut next: usize = 0;
        assert(list.take(0) =~= Seq::empty());
        while next < strings.len()
            invariant
                self.wf(),
                self.reader() == old(self).reader(),
                known == self.reader().table().strings(),
                list == entries(strings@),
                next <= strings@.len(),
                self.extra() == brought(extra, known, list.take(next as int)),
            decreases strings@.len() - next,
        {
            let ghost seen = list.take(next as int);
            let ghost one = seq![list[next as int]];
            proof {
                assert(list.take(next + 1).drop_last() =~= seen);
                assert(one.drop_last() =~= Seq::empty());
                assert(brought(self.extra(), known, one.drop_last()) == self.extra());
            }
            let key = strings[next].0;
            self.insert_str(&key, strings[next].1.duplicate());
            next = next + 1;
        }
        assert(list.take(next as int) =~= list);
        Ok(encoded_term)
    }

    fn decode_id(&self, storage: &Storage, id: &StrHash) -> (text: Result<Text, StorageError>)
        requires
            self.wf(),
            storage.wf(),
        ensures
            match text {
                Ok(text) => decoded_id(*id, self.lookup(*storage)) == Ok::<
                    Seq<u8>,
                    CorruptionError,
                >(text@),
                Err(error) => error == StorageError::Corruption(
                    CorruptionError::MissingString(*id),
                ) && decoded_id(*id, self.lookup(*storage)) == Err::<Seq<u8>, CorruptionError>(
                    CorruptionError::MissingString(*id),
                ),
            },
    {
        match self.get_str(storage, id) {
            Ok(Some(text)) => Ok(text),
            Ok(None) => Err(StorageError::Corruption(CorruptionError::MissingString(*id))),
            Err(error) => Err(error),
        }
    }

    fn decode_str(&self, storage: &Storage, value: &EncodedStr) -> (text: Result<
        Text,
        StorageError,
    >)
        requires
            self.wf(),
            storage.wf(),
        ensures
            match text {
                Ok(text) => decoded_str(*value, self.lookup(*storage)) == Ok::<
                    Seq<u8>,
                    CorruptionError,
                >(text@),
                Err(error) => decoded_str(*value, self.lookup(*storage)) is Err && error
                    == StorageError::Corruption(
                    decoded_str(*value, self.lookup(*storage))->Err_0,
                ),
            },
    {
        match value {
            EncodedStr::Small(small) => Ok(small.to_text()),
            EncodedStr::Big(id) => self.decode_id(storage, id),
        }
    }

    /// The term that an encoded term stands for.
    pub fn decode_term(&self, storage: &Storage, term: &EncodedTerm) -> (result: Result<
        Term,
        StorageError,
    >)
        requires
            self.wf(),
            storage.wf(),
        ensures
            viewed(result) == as_stored(decoded(*term, self.lookup(*storage))),
    {
        match term {
            EncodedTerm::DefaultGraph => Err(
                StorageError::Corruption(CorruptionError::UnexpectedDefaultGraph),
            ),
            EncodedTerm::NamedNode { iri_id } => match self.decode_id(storage, iri_id) {
                Ok(iri) => Ok(Term::NamedNode(NamedNode { iri })),
                Err(error) => Err(error),
            },
            EncodedTerm::NumericalBlankNode { id } => Ok(
                Term::BlankNode(BlankNode::Anonymous(*id)),
            ),
            EncodedTerm::SmallBlankNode(small) => Ok(
                Term::BlankNode(BlankNode::Named(small.to_text())),
            ),
            EncodedTerm::BigBlankNode { id_id } => match self.decode_id(storage, id_id) {
                Ok(label) => Ok(Term::BlankNode(BlankNode::Named(label))),
                Err(error) => Err(error),
            },
            EncodedTerm::SmallStringLiteral(small) => Ok(Term::StringLiteral(small.to_text())),
            EncodedTerm::BigStringLiteral { value_id } => match self.decode_id(storage, value_id) {
                Ok(value) => Ok(Term::StringLiteral(value)),
                Err(error) => Err(error),
            },
            EncodedTerm::LangStringLiteral { value, language } => {
                let value = match self.decode_str(storage, value) {
                    Ok(value) => value,
                    Err(error) => {
                        return Err(error);
                    },
                };
                match self.decode_str(storage, language) {
                    Ok(language) => Ok(Term::LangStringLiteral { value, language }),
                    Err(error) => Err(error),
                }
            },
            EncodedTerm::TypedLiteral { value, datatype_id } => {
                let value = match self.decode_str(storage, value) {
                    Ok(value) => value,
                    Err(error) => {
                        return Err(error);
                    },
                };
                match self.decode_id(storage, datatype_id) {
                    Ok(iri) => Ok(Term::OtherTypedLiteral { value, datatype: NamedNode { iri } }),
                    Err(error) => Err(error),
                }
            },
            _ => match term.to_native() {
                Some(native) => Ok(Term::NativeLiteral(native)),
                None => Err(StorageError::Corruption(CorruptionError::UnexpectedDefaultGraph)),
            },
        }
    }

    /// The term that an encoded term stands for.
    pub fn externalize_term(&self, storage: &Storage, term: EncodedTerm) -> (result: Result<
        Term,
        StorageError,
    >)
        requires
            self.wf(),
            storage.wf(),
        ensures
            viewed(result) == as_stored(decoded(term, self.lookup(*storage))),
    {
        self.decode_term(storage, &term)
    }

    /// The term that an encoded term stands for, as expressions compute with it.
    pub fn externalize_expression_term(
        &self,
        storage: &Storage,
        term: EncodedTerm,
    ) -> (result: Result<ExpressionTerm, StorageError>)
        requires
            self.wf(),
            storage.wf(),
        ensures
            viewed(result) == as_stored(decoded(term, self.lookup(*storage))),
            native_of(term) matches Some(native) ==> viewed(result) == Ok::<
                TermView,
                StorageError,
            >(TermView::NativeLiteral(native)),
    {
        if term.is_default_graph() {
            return Err(StorageError::Corruption(CorruptionError::UnexpectedDefaultGraph));
        }
        match term.to_native() {
            Some(native) => Ok(Term::NativeLiteral(native)),
            None => self.decode_term(storage, &term),
        }
    }

    /// Encodes a term that an expression has computed. The value of a native literal is
    /// kept as it is.
    pub fn internalize_expression_term(&mut self, term: ExpressionTerm) -> (result: Result<
        EncodedTerm,
        StorageError,
    >)
        requires
            old(self).wf(),
        ensures
            final(self).wf(),
            result == Ok::<EncodedTerm, StorageError>(encoded(term@)),
            final(self).reader() == old(self).reader(),
            final(self).extra() == brought(
                old(self).extra(),
                old(self).reader().table().strings(),
                term_entries(term@),
            ),
    {
        match &term {
            Term::NativeLiteral(native) => {
                return Ok(EncodedTerm::from_native(*native));
            },
            _ => {},
        }
        self.internalize_term(term)
    }

    /// The value of a term as a boolean expression, if it has one.
    pub fn internal_term_effective_boolean_value(&self, term: EncodedTerm) -> (result: Result<
        Option<bool>,
        StorageError,
    >)
        ensures
            result == Ok::<Option<bool>, StorageError>(effective_boolean_value(term)),
    {
        Ok(
            match term {
                EncodedTerm::BooleanLiteral(value) => Some(value),
                EncodedTerm::SmallStringLiteral(value) => Some(!value.is_empty()),
                EncodedTerm::BigStringLiteral { .. } => Some(true),
                EncodedTerm::FloatLiteral(bits) => {
                    let magnitude = bits % 0x8000_0000;
                    Some(0 < magnitude && magnitude <= 0x7f80_0000)
                },
                EncodedTerm::DoubleLiteral(bits) => {
                    let magnitude = bits % 0x8000_0000_0000_0000;
                    Some(0 < magnitude && magnitude <= 0x7ff0_0000_0000_0000)
                },
                EncodedTerm::IntegerLiteral(value) => Some(value != 0),
                EncodedTerm::DecimalLiteral(value) => Some(value != 0),
                _ => None,
            },
        )
    }

    /// The string with a hash.
    pub fn get_str(&self, storage: &Storage, key: &StrHash) -> (text: Result<
        Option<Text>,
        StorageError,
    >)
        requires
            self.wf(),
            storage.wf(),
        ensures
            text matches Ok(text) && match text {
                Some(text) => self.lookup(*storage)(*key) == Some(text@),
                None => self.lookup(*storage)(*key) is None,
            },
    {
        match self.extra.get(key) {
            Some(value) => Ok(Some(value.duplicate())),
            None => self.reader.get_str(storage, key),
        }
    }

    /// Starts to follow the quads that have the given terms.
    pub fn internal_quad_deltas_for_pattern(
        &self,
        storage: &mut Storage,
        subject: Option<&EncodedTerm>,
        predicate: Option<&EncodedTerm>,
        object: Option<&EncodedTerm>,
        graph_name: Option<Option<EncodedTerm>>,
        notifier: usize,
    ) -> (source: LiveQuadDeltaSource)
        requires
            self.wf(),
            old(storage).wf(),
        ensures
            source.starts(
                self.reader(),
                *old(storage),
                *final(storage),
                spec_copied(subject),
                spec_copied(predicate),
                spec_copied(object),
                graph_name,
                notifier,
            ),
    {
        LiveQuadDeltaSource::new(
            share(&self.reader),
            storage,
            subject,
            predicate,
            object,
            graph_name,
            notifier,
        )
    }
}

/// What was internalized can be externalized again: a view that has brought the strings of
/// a term along gives the term back, unless one of these strings shares its hash with
/// another string that was known before.
pub proof fn law_internalized_term_comes_back(
    before: DatasetView,
    after: DatasetView,
    storage: Storage,
    term: TermView,
)
    requires
        after.reader() == before.reader(),
        after.extra() == brought(
            before.extra(),
            before.reader().table().strings(),
            term_entries(term),
        ),
        forall|i: int, j: int|
            0 <= i < term_entries(term).len() && 0 <= j < term_entries(term).len() && (
            #[trigger] term_entries(term)[i]).0 == (#[trigger] term_entries(term)[j]).0
                ==> term_entries(term)[i] == term_entries(term)[j],
        forall|i: int|
            0 <= i < term_entries(term).len() ==> ({
                let (key, text) = #[trigger] term_entries(term)[i];
                &&& before.extra().contains_key(key) ==> before.extra()[key] == text
                &&& before.reader().table().strings().contains_key(key)
                    ==> before.reader().table().strings()[key] == text
            }),
    ensures
        decoded(encoded(term), after.lookup(storage)) == Ok::<TermView, CorruptionError>(term),
{
    let list = term_entries(term);
    assert forall|i: int| 0 <= i < list.len() implies after.lookup(storage)(
        (#[trigger] list[i]).0,
    ) == Some(list[i].1) by {
        lemma_brought(
            before.extra(),
            before.reader().table().strings(),
            list,
            list[i].0,
            list[i].1,
        );
        assert(list.contains(list[i]));
    }
    law_term_round_trip(term, after.lookup(storage));
}

/// Bringing strings along in two goes is bringing them along at once.
pub proof fn lemma_brought_add(
    extra: Map<StrHash, Seq<u8>>,
    known: Map<StrHash, Seq<u8>>,
    a: Seq<(StrHash, Seq<u8>)>,
    b: Seq<(StrHash, Seq<u8>)>,
)
    ensures
        brought(brought(extra, known, a), known, b) == brought(extra, known, a + b),
    decreases b.len(),
{
    if b.len() == 0 {
        assert(a + b =~= a);
    } else {
        assert((a + b).drop_last() =~= a + b.drop_last());
        lemma_brought_add(extra, known, a, b.drop_last());
    }
}

proof fn lemma_brought(
    extra: Map<StrHash, Seq<u8>>,
    known: Map<StrHash, Seq<u8>>,
    list: Seq<(StrHash, Seq<u8>)>,
    key: StrHash,
    text: Seq<u8>,
)
    requires
        forall|i: int| 0 <= i < list.len() && (#[trigger] list[i]).0 == key ==> list[i].1 == text,
        extra.contains_key(key) ==> extra[key] == text,
    ensures
        brought(extra, known, list).contains_key(key) ==> brought(extra, known, list)[key] == text,
        list.contains((key, text)) ==> brought(extra, known, list).contains_key(key)
            || known.contains_key(key),
    decreases list.len(),
{
    if list.len() > 0 {
        let front = list.drop_last();
        assert forall|i: int|
            0 <= i < front.len() && (#[trigger] front[i]).0 == key implies front[i].1 == text by {
            assert(front[i] == list[i]);
        }
        lemma_brought(extra, known, front, key, text);
        assert(list[list.len() - 1] == list.last());
        if list.contains((key, text)) {
            let i = choose|i: int| 0 <= i < list.len() && list[i] == (key, text);
            if i < front.len() {
                assert(front[i] == (key, text));
            }
        }
    }
}

/// The quads of a read as queries see them, one after the other.
pub struct InternalQuadIterator {
    pub quads: DecodingQuadIterator,
}

impl InternalQuadIterator {
    pub fn next(&mut self) -> (quad: Option<Result<InternalQuad, StorageError>>)
        ensures
            match quad {
                Some(Ok(quad)) => old(self).quads.rest().len() > 0 && quad == internal_quad(
                    old(self).quads.rest()[0],
                ) && final(self).quads.rest() == old(self).quads.rest().drop_first()
                    && final(self).quads.failure() == old(self).quads.failure(),
                Some(Err(error)) => old(self).quads.rest().len() == 0
                    && old(self).quads.failure() == Some(error) && final(self).quads.rest()
                    == old(self).quads.rest() && final(self).quads.failure() is None,
                None => old(self).quads.rest().len() == 0 && old(self).quads.failure() is None
                    && *final(self) == *old(self),
            },
    {
        match self.quads.next() {
            Some(Ok(quad)) => Some(Ok(InternalQuad::from_encoded(quad))),
            Some(Err(error)) => Some(Err(error)),
            None => None,
        }
    }
}

/// A string that is brought along is found under its hash, unless another one was known under
/// the same hash before; what was brought along before stays, and nothing else is added.
pub proof fn law_strings_are_brought_along(
    extra: Map<StrHash, Seq<u8>>,
    known: Map<StrHash, Seq<u8>>,
    list: Seq<(StrHash, Seq<u8>)>,
    key: StrHash,
)
    ensures
        extra.contains_key(key) ==> brought(extra, known, list).contains_key(key) && brought(
            extra,
            known,
            list,
        )[key] == extra[key],
        brought(extra, known, list).contains_key(key) <==> extra.contains_key(key) || (
        !known.contains_key(key) && exists|i: int|
            0 <= i < list.len() && (#[trigger] list[i]).0 == key),
        !extra.contains_key(key) && brought(extra, known, list).contains_key(key) ==> exists|i: int|
            #![trigger list[i]]
            0 <= i < list.len() && list[i] == (key, brought(extra, known, list)[key]) && forall|
                j: int,
            |
                0 <= j < i ==> (#[trigger] list[j]).0 != key,
    decreases list.len(),
{
    if list.len() > 0 {
        let front = list.drop_last();
        let last = list.len() - 1;
        law_strings_are_brought_along(extra, known, front, key);
        if exists|i: int| 0 <= i < list.len() && (#[trigger] list[i]).0 == key {
            let i = choose|i: int| 0 <= i < list.len() && (#[trigger] list[i]).0 == key;
            if i < last {
                assert(front[i].0 == key);
            }
        }
        if exists|i: int| 0 <= i < front.len() && (#[trigger] front[i]).0 == key {
            let i = choose|i: int| 0 <= i < front.len() && (#[trigger] front[i]).0 == key;
            assert(list[i].0 == key);
        }
        if !extra.contains_key(key) && brought(extra, known, front).contains_key(key) {
            let i = choose|i: int|
                #![trigger front[i]]
                0 <= i < front.len() && front[i] == (key, brought(extra, known, front)[key])
                    && forall|j: int| 0 <= j < i ==> (#[trigger] front[j]).0 != key;
            assert(list[i] == front[i]);
            assert forall|j: int| 0 <= j < i implies (#[trigger] list[j]).0 != key by {
                assert(front[j] == list[j]);
            }
        }
        if !extra.contains_key(key) && !brought(extra, known, front).contains_key(key) && brought(
            extra,
            known,
            list,
        ).contains_key(key) {
            assert(list[last] == (key, brought(extra, known, list)[key]));
            assert forall|j: int| 0 <= j < last implies (#[trigger] list[j]).0 != key by {
                assert(front[j] == list[j]);
            }
        }
    }
}

/// The strings of a view are those that were brought along, and those of the store behind
/// them.
pub proof fn law_strings_brought_along_are_found_first(
    view: DatasetView,
    storage: Storage,
    key: StrHash,
)
    ensures
        view.extra().contains_key(key) ==> view.lookup(storage)(key) == Some(view.extra()[key]),
        !view.extra().contains_key(key) ==> view.lookup(storage)(key) == looked_up(
            view.reader(),
            storage,
            key,
        ),
{
}

/// The boolean value of the terms that have one: a string is false where it is empty, a number
/// where it is zero or not a number. A binary floating point number is zero where neither its
/// exponent nor its fraction has a bit, and not a number where its exponent has all bits and
/// its fraction has any; its sign does not matter. No other term has a boolean value.
pub proof fn law_boolean_values_of_terms(term: TermView)
    ensures
        match term {
            TermView::StringLiteral(value) => effective_boolean_value(encoded(term)) == Some(
                value.len() != 0,
            ),
            TermView::NativeLiteral(NativeLiteral::Boolean(value)) => effective_boolean_value(
                encoded(term),
            ) == Some(value),
            TermView::NativeLiteral(NativeLiteral::Integer(value)) => effective_boolean_value(
                encoded(term),
            ) == Some(value != 0),
            TermView::NativeLiteral(NativeLiteral::Decimal(value)) => effective_boolean_value(
                encoded(term),
            ) == Some(value != 0),
            TermView::NativeLiteral(NativeLiteral::Float(bits)) => {
                let fraction = bits % 0x80_0000;
                let exponent = bits / 0x80_0000 % 0x100;
                effective_boolean_value(encoded(term)) == Some(
                    !(exponent == 0 && fraction == 0) && !(exponent == 0xff && fraction != 0),
                )
            },
            TermView::NativeLiteral(NativeLiteral::Double(bits)) => {
                let fraction = bits % 0x10_0000_0000_0000;
                let exponent = bits / 0x10_0000_0000_0000 % 0x800;
                effective_boolean_value(encoded(term)) == Some(
                    !(exponent == 0 && fraction == 0) && !(exponent == 0x7ff && fraction != 0),
                )
            },
            _ => effective_boolean_value(encoded(term)) is None,
        },
{
    if let TermView::StringLiteral(value) = term {
        law_term_round_trip(term, |key: StrHash| Some(value));
    }
}

} // verus!
