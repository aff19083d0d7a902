use kvs::backend::SerdeBackend;
use kvs::error::KvStoreError;
use kvs::mem;
use kvs::store::SequentialWriter;

#[test]
fn mem_store_set_get_remove() {
    let mut store = mem::KvStore::new();
    assert_eq!(store.get("a".to_string()), None);
    store.set("a".to_string(), "1".to_string());
    store.set("b".to_string(), "2".to_string());
    store.set("a".to_string(), "3".to_string());
    assert_eq!(store.get("a".to_string()), Some("3".to_string()));
    assert_eq!(store.get("b".to_string()), Some("2".to_string()));
    store.remove("a".to_string());
    assert_eq!(store.get("a".to_string()), None);
    assert_eq!(store.get("b".to_string()), Some("2".to_string()));
}

#[test]
fn sequential_writer_counts_what_it_writes() {
    let mut w = SequentialWriter::new(Vec::new(), 0);
    assert_eq!(w.bytes_written(), 0);
    w.write(&"hello".chars().collect::<Vec<char>>());
    assert_eq!(w.bytes_written(), 5);
    w.write(&" world".chars().collect::<Vec<char>>());
    assert_eq!(w.bytes_written(), 11);
    w.flush();
    assert_eq!(w.bytes_written(), 11);
    let inner: String = w.into_inner().into_iter().collect();
    assert_eq!(inner, "hello world");
}

#[test]
fn sequential_writer_buffer_reads_back() {
    let mut w = SequentialWriter::new("ab".chars().collect(), 2);
    w.write(&"cd".chars().collect::<Vec<char>>());
    let buf: String = w.get_mut().iter().collect();
    assert_eq!(buf, "abcd");
}

#[test]
fn serde_backend_remembers_its_path() {
    let b = SerdeBackend::new("./database.test".to_string()).unwrap();
    assert_eq!(b.path().as_str(), "./database.test");
}

#[test]
fn error_messages_name_the_trouble() {
    let e = KvStoreError::KeyNotFound { key: "a".to_string() };
    assert_eq!(e.message(), "key not found: a");
    let e = KvStoreError::RequestError { reason: "boom".to_string() };
    assert_eq!(e.message(), "boom");
    let e = KvStoreError::CliUnknownCommand;
    assert_eq!(e.message(), "unknown command");
}
