use oxlive::delta::{Delta, DeltaKind};
use oxlive::error::{CorruptionError, StorageError};
use oxlive::model::{GraphName, NamedNode, NamedOrBlankNode, Quad, Term, Text};
use oxlive::numeric_encoder::{EncodedQuad, EncodedTerm, StrHash};
use oxlive::storage::{RocksDbStorageOptions, Storage, StorageOptions, StorageReader};
use oxlive::table::{QuadTable, WriteOp};

fn text(value: &str) -> Text {
    Text::new(value.as_bytes().to_vec())
}

fn node(name: &str) -> NamedNode {
    NamedNode { iri: text(&format!("http://example.com/{name}")) }
}

fn graph(name: &str) -> GraphName {
    if name.is_empty() {
        GraphName::DefaultGraph
    } else {
        GraphName::Node(NamedOrBlankNode::NamedNode(node(name)))
    }
}

fn quad(subject: &str, predicate: &str, object: &str, graph_name: &str) -> Quad {
    Quad {
        subject: NamedOrBlankNode::NamedNode(node(subject)),
        predicate: node(predicate),
        object: Term::NamedNode(node(object)),
        graph_name: graph(graph_name),
    }
}

fn encoded(subject: &str, predicate: &str, object: &str, graph_name: &str) -> EncodedQuad {
    EncodedQuad::from_quad(&quad(subject, predicate, object, graph_name))
}

fn term(name: &str) -> EncodedTerm {
    EncodedTerm::from_named_node(&node(name))
}

fn no_write() -> Result<(), StorageError> {
    panic!("nothing is written to disk")
}

fn disk() -> Storage {
    Storage::open(|| Ok(QuadTable::new())).unwrap()
}

fn kinds(changes: Vec<Delta<EncodedQuad>>) -> Vec<(DeltaKind, EncodedQuad)> {
    let mut parts: Vec<(DeltaKind, EncodedQuad)> =
        changes.into_iter().map(|change| change.into_parts()).collect();
    parts.sort_by_key(|part| format!("{part:?}"));
    parts
}

fn expected(additions: Vec<EncodedQuad>, deletions: Vec<EncodedQuad>) -> Vec<(DeltaKind, EncodedQuad)> {
    let mut all: Vec<Delta<EncodedQuad>> = additions.into_iter().map(Delta::addition).collect();
    all.extend(deletions.into_iter().map(Delta::deletion));
    kinds(all)
}

fn insert_all(storage: &mut Storage, quads: Vec<Quad>) -> Vec<(DeltaKind, EncodedQuad)> {
    let mut transaction = storage.start_transaction().unwrap();
    for quad in quads {
        transaction.insert(quad);
    }
    kinds(transaction.commit(storage, || Ok(())).ok().unwrap().changes)
}

fn listed(reader: &StorageReader, graph_name: Option<&EncodedTerm>) -> Vec<EncodedQuad> {
    let mut quads = reader.quads_for_pattern(None, None, None, graph_name);
    let mut all: Vec<EncodedQuad> = vec![];
    while let Some(quad) = quads.next() {
        all.push(quad.unwrap());
    }
    all.sort_by_key(|quad| format!("{quad:?}"));
    all
}

fn sorted(mut quads: Vec<EncodedQuad>) -> Vec<EncodedQuad> {
    quads.sort_by_key(|quad| format!("{quad:?}"));
    quads
}

#[test]
fn a_new_store_is_empty() {
    let storage = Storage::new().unwrap();
    let reader = storage.snapshot();
    assert!(!storage.is_on_disk());
    assert!(!storage.is_read_only());
    assert_eq!(reader.len(), Ok(0));
    assert_eq!(reader.is_empty(), Ok(true));
    assert!(reader.named_graphs().next().is_none());
    assert_eq!(reader.validate(), Ok(()));
}

#[test]
fn inserted_quads_are_found_and_told() {
    let stores: Vec<Storage> = vec![Storage::new().unwrap(), disk()];
    for mut storage in stores {
        let told = insert_all(&mut storage, vec![quad("a", "p", "b", ""), quad("a", "p", "c", "g")]);
        assert_eq!(told, expected(vec![encoded("a", "p", "b", ""), encoded("a", "p", "c", "g")], vec![]));
        let reader = storage.snapshot();
        assert_eq!(reader.len(), Ok(2));
        assert_eq!(reader.is_empty(), Ok(false));
        assert_eq!(reader.contains(&encoded("a", "p", "b", "")), Ok(true));
        assert_eq!(reader.contains(&encoded("a", "p", "b", "g")), Ok(false));
        assert_eq!(reader.contains_named_graph(&term("g")), Ok(true));
        assert_eq!(reader.contains_named_graph(&term("a")), Ok(false));
        assert_eq!(reader.contains_str(&StrHash::new(&text("http://example.com/p"))), Ok(true));
        assert_eq!(reader.contains_str(&StrHash::new(&text("http://example.com/q"))), Ok(false));
        assert_eq!(reader.validate(), Ok(()));
    }
}

#[test]
fn nothing_is_told_of_quads_that_were_there_already() {
    let stores: Vec<Storage> = vec![Storage::new().unwrap(), disk()];
    for mut storage in stores {
        insert_all(&mut storage, vec![quad("a", "p", "b", "")]);
        assert_eq!(insert_all(&mut storage, vec![quad("a", "p", "b", "")]), vec![]);
        let mut transaction = storage.start_transaction().unwrap();
        transaction.remove(&quad("a", "p", "other", ""));
        transaction.remove(&quad("a", "p", "b", ""));
        transaction.insert(quad("a", "p", "b", ""));
        transaction.insert(quad("a", "p", "c", ""));
        transaction.remove(&quad("a", "p", "c", ""));
        let published = transaction.commit(&mut storage, || Ok(())).ok().unwrap();
        assert_eq!(kinds(published.changes), vec![]);
        assert_eq!(storage.snapshot().len(), Ok(1));
    }
}

#[test]
fn a_snapshot_does_not_change() {
    let mut storage = Storage::new().unwrap();
    insert_all(&mut storage, vec![quad("a", "p", "b", "")]);
    let reader = storage.snapshot();
    let copy = reader.duplicate();
    assert!(reader.can_refresh());
    insert_all(&mut storage, vec![quad("a", "p", "c", "")]);
    assert_eq!(reader.len(), Ok(1));
    assert_eq!(copy.len(), Ok(1));
    assert_eq!(storage.snapshot().len(), Ok(2));
}

#[test]
fn quads_are_found_by_their_terms() {
    let mut storage = Storage::new().unwrap();
    insert_all(
        &mut storage,
        vec![quad("a", "p", "b", ""), quad("a", "q", "b", "g"), quad("b", "p", "b", "g")],
    );
    let reader = storage.snapshot();
    assert_eq!(listed(&reader, None).len(), 3);
    assert_eq!(listed(&reader, Some(&EncodedTerm::DefaultGraph)), vec![encoded("a", "p", "b", "")]);
    assert_eq!(
        listed(&reader, Some(&term("g"))),
        sorted(vec![encoded("a", "q", "b", "g"), encoded("b", "p", "b", "g")]),
    );
    let mut found = reader.quads_for_pattern(Some(&term("a")), Some(&term("q")), None, None);
    assert_eq!(found.next().unwrap(), Ok(encoded("a", "q", "b", "g")));
    assert!(found.next().is_none());
}

#[test]
fn a_triple_of_two_graphs_is_listed_once() {
    let mut storage = Storage::new().unwrap();
    insert_all(
        &mut storage,
        vec![quad("a", "p", "b", ""), quad("a", "p", "b", "g"), quad("a", "p", "c", "h")],
    );
    let reader = storage.snapshot();
    assert_eq!(reader.triples_for_pattern(None, None, None, None).len(), 2);
    let one: Vec<Option<EncodedTerm>> = vec![Some(term("g"))];
    assert_eq!(reader.triples_for_pattern(None, None, None, Some(&one)).len(), 1);
    let both: Vec<Option<EncodedTerm>> = vec![None, Some(term("g"))];
    let triples = reader.triples_for_pattern(Some(&term("a")), None, None, Some(&both));
    assert_eq!(triples, vec![Ok(encoded("a", "p", "b", "").triple())]);
    let none: Vec<Option<EncodedTerm>> = vec![];
    assert_eq!(reader.triples_for_pattern(None, None, None, Some(&none)).len(), 0);
}

#[test]
fn named_graphs_are_kept_when_their_quads_go() {
    let stores: Vec<Storage> = vec![Storage::new().unwrap(), disk()];
    for mut storage in stores {
        insert_all(&mut storage, vec![quad("a", "p", "b", "g"), quad("a", "p", "b", "")]);
        let mut transaction = storage.start_transaction().unwrap();
        transaction.insert_named_graph(NamedOrBlankNode::NamedNode(node("empty")));
        transaction.clear_all_named_graphs();
        let published = transaction.commit(&mut storage, || Ok(())).ok().unwrap();
        assert_eq!(kinds(published.changes), expected(vec![], vec![encoded("a", "p", "b", "g")]));
        let reader = storage.snapshot();
        assert_eq!(reader.contains_named_graph(&term("g")), Ok(true));
        assert_eq!(reader.contains_named_graph(&term("empty")), Ok(true));
        assert_eq!(listed(&reader, None), vec![encoded("a", "p", "b", "")]);
        let mut transaction = storage.start_transaction().unwrap();
        transaction.remove_all_named_graphs();
        assert_eq!(transaction.commit(&mut storage, || Ok(())).ok().unwrap().changes.len(), 0);
        assert!(storage.snapshot().named_graphs().next().is_none());
        assert_eq!(storage.snapshot().len(), Ok(1));
    }
}

#[test]
fn clearing_tells_the_deletion_of_what_was_there() {
    let stores: Vec<Storage> = vec![Storage::new().unwrap(), disk()];
    for mut storage in stores {
        insert_all(&mut storage, vec![quad("a", "p", "b", "g"), quad("a", "p", "b", "")]);
        let mut transaction = storage.start_transaction().unwrap();
        transaction.clear_default_graph();
        transaction.insert(quad("a", "p", "new", ""));
        let published = transaction.commit(&mut storage, || Ok(())).ok().unwrap();
        assert_eq!(
            kinds(published.changes),
            expected(vec![encoded("a", "p", "new", "")], vec![encoded("a", "p", "b", "")]),
        );
        let mut transaction = storage.start_transaction().unwrap();
        transaction.clear_all_graphs();
        let published = transaction.commit(&mut storage, || Ok(())).ok().unwrap();
        assert_eq!(
            kinds(published.changes),
            expected(vec![], vec![encoded("a", "p", "b", "g"), encoded("a", "p", "new", "")]),
        );
        assert_eq!(storage.snapshot().is_empty(), Ok(true));
        assert_eq!(storage.snapshot().contains_named_graph(&term("g")), Ok(true));
        let mut transaction = storage.start_transaction().unwrap();
        transaction.clear();
        transaction.commit(&mut storage, || Ok(())).ok().unwrap();
        assert_eq!(storage.snapshot().contains_named_graph(&term("g")), Ok(false));
    }
}

#[test]
fn an_insertion_that_a_later_clear_undoes_is_not_told() {
    let stores: Vec<Storage> = vec![Storage::new().unwrap(), disk()];
    for mut storage in stores {
        let mut transaction = storage.start_transaction().unwrap();
        transaction.insert(quad("a", "p", "b", ""));
        transaction.insert(quad("a", "p", "b", "g"));
        transaction.clear_default_graph();
        let published = transaction.commit(&mut storage, || Ok(())).ok().unwrap();
        assert_eq!(storage.snapshot().len(), Ok(1));
        assert_eq!(kinds(published.changes), expected(vec![encoded("a", "p", "b", "g")], vec![]));
        let mut transaction = storage.start_transaction().unwrap();
        transaction.insert(quad("a", "p", "c", "g"));
        transaction.clear_all_graphs();
        transaction.insert(quad("a", "p", "c", "g"));
        let published = transaction.commit(&mut storage, || Ok(())).ok().unwrap();
        assert_eq!(
            kinds(published.changes),
            expected(vec![encoded("a", "p", "c", "g")], vec![encoded("a", "p", "b", "g")]),
        );
    }
}

#[test]
fn nothing_is_written_where_the_changes_cannot_be_told() {
    let damage = StorageError::Corruption(CorruptionError::UnexpectedDefaultGraph);
    let mut storage = Storage::open(|| Ok(QuadTable::new().with_damage(damage))).unwrap();
    let mut transaction = storage.start_transaction().unwrap();
    transaction.clear_default_graph();
    let result = transaction.commit(&mut storage, || panic!("nothing is to be written"));
    assert_eq!(result.err(), Some(damage));
}

#[test]
fn commits_leave_a_store_valid() {
    let stores: Vec<Storage> = vec![Storage::new().unwrap(), disk()];
    for mut storage in stores {
        insert_all(&mut storage, vec![quad("a", "p", "b", "g"), quad("a", "p", "b", "h")]);
        assert_eq!(storage.snapshot().validate(), Ok(()));
        let mut transaction = storage.start_readable_transaction().unwrap();
        transaction.insert(quad("c", "p", "d", "i"));
        transaction.remove_named_graph(&graph_node("g")).unwrap();
        assert!(transaction.commit(&mut storage, || Ok(())).is_ok());
        assert_eq!(storage.snapshot().validate(), Ok(()));
        assert_eq!(storage.snapshot().contains_named_graph(&term("g")), Ok(false));
        let mut transaction = storage.start_transaction().unwrap();
        transaction.remove_all_named_graphs();
        transaction.insert(quad("e", "p", "f", "g"));
        assert!(transaction.commit(&mut storage, || Ok(())).is_ok());
        assert_eq!(storage.snapshot().validate(), Ok(()));
        assert_eq!(storage.snapshot().len(), Ok(1));
    }
}

fn graph_node(name: &str) -> NamedOrBlankNode {
    NamedOrBlankNode::NamedNode(node(name))
}

#[test]
fn a_write_that_fails_changes_nothing() {
    let mut storage = disk();
    insert_all(&mut storage, vec![quad("a", "p", "b", "")]);
    let mut transaction = storage.start_transaction().unwrap();
    transaction.remove(&quad("a", "p", "b", ""));
    let result = transaction.commit(&mut storage, || Err(StorageError::Io(28)));
    assert_eq!(result.err(), Some(StorageError::Io(28)));
    assert_eq!(storage.snapshot().len(), Ok(1));
}

#[test]
fn a_store_for_reading_alone_takes_no_writes() {
    let mut table = QuadTable::new();
    table.apply(WriteOp::PutQuad(encoded("a", "p", "b", "")));
    let storage = Storage::open_read_only(|| Ok(table)).unwrap();
    assert!(storage.is_read_only());
    assert!(storage.is_on_disk());
    assert_eq!(storage.start_transaction().err(), Some(StorageError::ReadOnly));
    assert_eq!(storage.start_readable_transaction().err(), Some(StorageError::ReadOnly));
    assert_eq!(storage.snapshot().len(), Ok(1));
    let failed = Storage::open_read_only(|| Err(StorageError::Io(2)));
    assert_eq!(failed.err(), Some(StorageError::Io(2)));
}

#[test]
fn the_options_are_handed_to_the_files() {
    let options = StorageOptions::new(Some(100), Some(7));
    let storage = Storage::open_with_options(
        |disk_options: RocksDbStorageOptions| {
            assert_eq!(disk_options.max_open_files, Some(100));
            assert_eq!(disk_options.fd_reserve, Some(7));
            Ok(QuadTable::new())
        },
        options,
    )
    .unwrap();
    assert!(storage.is_on_disk());
    assert_eq!(Storage::open(|| Err(StorageError::Io(13))).err(), Some(StorageError::Io(13)));
}

#[test]
fn only_files_are_flushed_compacted_and_copied() {
    let memory = Storage::new().unwrap();
    assert_eq!(memory.flush(no_write), Ok(()));
    assert_eq!(memory.compact(no_write), Ok(()));
    assert_eq!(memory.backup(no_write), Err(StorageError::InMemoryBackup));
    let files = disk();
    assert_eq!(files.flush(|| Err(StorageError::Io(1))), Err(StorageError::Io(1)));
    assert_eq!(files.compact(|| Err(StorageError::Io(2))), Err(StorageError::Io(2)));
    assert_eq!(files.backup(|| Ok(())), Ok(()));
}

#[test]
fn damage_is_reported_when_rows_are_read() {
    let damage = StorageError::Corruption(CorruptionError::UndecodableRow(5));
    let storage = Storage::open(|| Ok(QuadTable::new().with_damage(damage))).unwrap();
    let reader = storage.snapshot();
    assert_eq!(reader.validate(), Err(damage));
    let mut quads = reader.quads_for_pattern(None, None, None, None);
    assert_eq!(quads.next(), Some(Err(damage)));
}

#[test]
fn invalid_data_is_found() {
    let mut table = QuadTable::new();
    table.apply(WriteOp::PutQuad(encoded("a", "p", "b", "")));
    let storage = Storage::open(|| Ok(table)).unwrap();
    assert!(matches!(
        storage.snapshot().validate(),
        Err(StorageError::Corruption(CorruptionError::MissingString(_))),
    ));
    let mut table = QuadTable::new();
    let names: Vec<&str> = vec!["a", "p", "b", "g"];
    for name in names {
        let iri = text(&format!("http://example.com/{name}"));
        table.put_string(StrHash::new(&iri), iri);
    }
    table.apply(WriteOp::PutQuad(encoded("a", "p", "b", "g")));
    table.apply(WriteOp::DeleteGraph(term("g")));
    let storage = Storage::open(|| Ok(table)).unwrap();
    assert_eq!(
        storage.snapshot().validate(),
        Err(StorageError::Corruption(CorruptionError::UnlistedGraph)),
    );
}

#[test]
fn a_readable_transaction_reads_its_own_writes() {
    let stores: Vec<Storage> = vec![Storage::new().unwrap(), disk()];
    for mut storage in stores {
        insert_all(&mut storage, vec![quad("a", "p", "b", "g"), quad("a", "p", "b", "h")]);
        let mut transaction = storage.start_readable_transaction().unwrap();
        transaction.insert(quad("a", "p", "c", ""));
        assert_eq!(transaction.reader().contains(&encoded("a", "p", "c", "")), Ok(true));
        assert!(!transaction.reader().can_refresh());
        assert_eq!(storage.snapshot().contains(&encoded("a", "p", "c", "")), Ok(false));
        transaction.clear_graph(&graph("g")).unwrap();
        assert_eq!(transaction.reader().len(), Ok(2));
        transaction.remove_named_graph(&NamedOrBlankNode::NamedNode(node("h"))).unwrap();
        assert_eq!(transaction.reader().len(), Ok(1));
        transaction.insert_named_graph(NamedOrBlankNode::NamedNode(node("k")));
        transaction.remove(&quad("a", "p", "x", ""));
        let published = transaction.commit(&mut storage, || Ok(())).ok().unwrap();
        assert_eq!(
            kinds(published.changes),
            expected(
                vec![encoded("a", "p", "c", "")],
                vec![encoded("a", "p", "b", "g"), encoded("a", "p", "b", "h")],
            ),
        );
        let reader = storage.snapshot();
        assert_eq!(listed(&reader, None), vec![encoded("a", "p", "c", "")]);
        assert_eq!(reader.contains_named_graph(&term("g")), Ok(true));
        assert_eq!(reader.contains_named_graph(&term("h")), Ok(false));
        assert_eq!(reader.contains_named_graph(&term("k")), Ok(true));
    }
}

#[test]
fn a_readable_transaction_clears_what_it_wrote() {
    let stores: Vec<Storage> = vec![Storage::new().unwrap(), disk()];
    for mut storage in stores {
        insert_all(&mut storage, vec![quad("a", "p", "b", "g"), quad("a", "p", "b", "")]);
        let mut transaction = storage.start_readable_transaction().unwrap();
        transaction.insert(quad("a", "p", "new", "g"));
        transaction.clear_all_named_graphs().unwrap();
        assert_eq!(listed(&transaction.reader(), None), vec![encoded("a", "p", "b", "")]);
        transaction.clear_all_graphs().unwrap();
        assert_eq!(transaction.reader().is_empty(), Ok(true));
        transaction.remove_all_named_graphs().unwrap();
        assert!(transaction.reader().named_graphs().next().is_none());
        transaction.insert(quad("a", "p", "last", ""));
        transaction.clear().unwrap();
        let published = transaction.commit(&mut storage, || Ok(())).ok().unwrap();
        assert_eq!(
            kinds(published.changes),
            expected(vec![], vec![encoded("a", "p", "b", ""), encoded("a", "p", "b", "g")]),
        );
        assert_eq!(storage.snapshot().is_empty(), Ok(true));
    }
}

#[test]
fn a_batch_becomes_visible_when_it_is_committed() {
    let mut storage = Storage::new().unwrap();
    let mut loader = storage.bulk_loader();
    let quads: Vec<Quad> = vec![quad("a", "p", "b", ""), quad("a", "p", "b", ""), quad("a", "p", "c", "g")];
    let batch = loader.load_batch(&mut storage, quads, 4, |_| panic!("no files")).ok().unwrap();
    assert_eq!(batch.changes.len(), 0);
    assert_eq!(storage.snapshot().len(), Ok(0));
    let published = loader.commit(&mut storage, no_write).ok().unwrap();
    assert_eq!(
        kinds(published.changes),
        expected(vec![encoded("a", "p", "b", ""), encoded("a", "p", "c", "g")], vec![]),
    );
    assert_eq!(storage.snapshot().len(), Ok(2));
}

#[test]
fn a_batch_on_disk_is_published_as_it_becomes_visible() {
    let mut storage = disk();
    let mut loader = storage.bulk_loader().without_atomicity().on_progress();
    assert!(loader.reports_progress());
    let quads: Vec<Quad> = vec![quad("a", "p", "b", ""), quad("a", "p", "c", "")];
    let batch = loader
        .load_batch(&mut storage, quads, 3, |threads| {
            assert_eq!(threads, 3);
            Ok(1)
        })
        .ok()
        .unwrap();
    assert_eq!(kinds(batch.changes), expected(vec![encoded("a", "p", "b", "")], vec![]));
    assert_eq!(storage.snapshot().len(), Ok(1));
    let failed = loader.load_batch(&mut storage, vec![], 1, |_| Err(StorageError::Io(5)));
    assert_eq!(failed.err(), Some(StorageError::Io(5)));
    let published = loader.commit(&mut storage, || Ok(())).ok().unwrap();
    assert_eq!(kinds(published.changes), expected(vec![encoded("a", "p", "c", "")], vec![]));
    assert_eq!(storage.snapshot().len(), Ok(2));
}

#[test]
fn an_atomic_batch_on_disk_is_published_as_a_whole() {
    let mut storage = disk();
    insert_all(&mut storage, vec![quad("a", "p", "b", "")]);
    let mut loader = storage.bulk_loader();
    assert!(!loader.reports_progress());
    let quads: Vec<Quad> = vec![quad("a", "p", "b", ""), quad("a", "p", "c", "")];
    let batch = loader.load_batch(&mut storage, quads, 1, |_| Ok(0)).ok().unwrap();
    assert_eq!(batch.changes.len(), 0);
    assert_eq!(storage.snapshot().len(), Ok(1));
    let published = loader.commit(&mut storage, || Ok(())).ok().unwrap();
    assert_eq!(kinds(published.changes), expected(vec![encoded("a", "p", "c", "")], vec![]));
}

#[test]
fn errors_have_messages() {
    let missing = CorruptionError::MissingString(StrHash { hash: 1 });
    let cases: Vec<(StorageError, &str)> = vec![
        (StorageError::Io(1), "input or output failed"),
        (StorageError::Corruption(missing), "Not able to find a string in the storage"),
        (StorageError::InMemoryBackup, "It is not possible to backup an in-memory database"),
        (StorageError::ReadOnly, "Transactions are only possible on read-write instances"),
    ];
    for (error, message) in cases {
        assert_eq!(error.message(), message);
    }
}

#[test]
fn the_changes_between_two_tables() {
    let mut earlier = QuadTable::new();
    earlier.apply(WriteOp::PutQuad(encoded("a", "p", "b", "")));
    earlier.apply(WriteOp::PutQuad(encoded("a", "p", "c", "")));
    let mut later = earlier.duplicate();
    later.apply(WriteOp::DeleteQuad(encoded("a", "p", "b", "")));
    later.apply(WriteOp::PutQuad(encoded("a", "p", "d", "g")));
    let mut changes = later.changes_since(&earlier);
    changes.sort_by_key(|change| change.1);
    assert_eq!(changes, vec![(encoded("a", "p", "b", ""), false), (encoded("a", "p", "d", "g"), true)]);
    assert!(later.contains_graph(&term("g")));
    assert!(!earlier.contains_graph(&term("g")));
    assert_eq!(later.graph_names(), vec![term("g")]);
}

#[test]
fn strings_that_are_known_stay_known() {
    let mut storage = Storage::new().unwrap();
    let key = StrHash::new(&text("http://example.com/a"));
    insert_all(&mut storage, vec![quad("a", "p", "b", "")]);
    let reader = storage.snapshot();
    let mut transaction = storage.start_transaction().unwrap();
    transaction.clear();
    transaction.insert(quad("c", "p", "d", ""));
    assert!(transaction.commit(&mut storage, no_write).is_ok());
    assert_eq!(storage.snapshot().contains_str(&key), Ok(true));
    let later = StrHash::new(&text("http://example.com/c"));
    assert_eq!(reader.contains_str(&later), Ok(false));
    assert!(reader.get_str(&storage, &later).unwrap().unwrap().same(&text("http://example.com/c")));
    assert!(reader.get_str(&storage, &StrHash { hash: 5 }).unwrap().is_none());
}
