use std::collections::BTreeMap;

use kvs::gendir::gen_filename;
use kvs::gendir::parse_gen_filename;
use kvs::store::DiskAction;
use kvs::KvStore;

/// The mirrored store directory: file name to file contents.
type Disk = BTreeMap<String, String>;

/// Performs the queued disk actions on the mirrored directory.
fn apply_actions(disk: &mut Disk, actions: Vec<DiskAction>) {
    for action in actions {
        match action {
            DiskAction::Create { generation } => {
                disk.insert(gen_filename(generation), String::new());
            }
            DiskAction::Append { generation, data } => {
                let chunk: String = data.into_iter().collect();
                disk.get_mut(&gen_filename(generation))
                    .expect("append to a file that was never created")
                    .push_str(&chunk);
            }
            DiskAction::Delete { generation } => {
                disk.remove(&gen_filename(generation));
            }
        }
    }
}

/// Drains the store's queued actions into the mirrored directory.
fn sync(disk: &mut Disk, store: &mut KvStore) {
    let actions = store.take_actions();
    apply_actions(disk, actions);
}

/// Opens a store over the mirrored directory, as a restart would.
fn reopen(disk: &Disk) -> KvStore {
    let mut files: Vec<(u64, Vec<char>)> = Vec::new();
    for (name, content) in disk.iter() {
        if let Some(g) = parse_gen_filename(name.as_str()) {
            files.push((g, content.chars().collect()));
        }
    }
    files.sort_by_key(|p| p.0);
    KvStore::open(files).unwrap()
}

fn fresh() -> (Disk, KvStore) {
    let mut disk = Disk::new();
    let mut store = KvStore::open(Vec::new()).unwrap();
    sync(&mut disk, &mut store);
    (disk, store)
}

#[test]
fn create_backend() {
    let (_disk, backend) = fresh();
    assert_eq!(backend.generation_cnt(), 0);
}

#[test]
fn create_backend_file_exists() {
    let (mut disk, mut backend) = fresh();
    assert_eq!(backend.generation_cnt(), 0);
    sync(&mut disk, &mut backend);
    drop(backend);
    let backend = reopen(&disk);
    assert_eq!(backend.generation_cnt(), 1);
}

#[test]
fn write_log() {
    let (mut disk, mut backend) = fresh();
    for i in 0..100 {
        backend.set(i.to_string(), "233".to_string()).unwrap();
    }
    sync(&mut disk, &mut backend);
}

#[test]
fn write_log_multiple_generation() {
    let mut disk = Disk::new();
    for _j in 0..10 {
        let mut backend = reopen(&disk);
        for i in 0..100 {
            backend.set(i.to_string(), "233".to_string()).unwrap();
        }
        sync(&mut disk, &mut backend);
    }
}

#[test]
fn write_log_replay() {
    let mut disk = Disk::new();
    {
        let mut backend = reopen(&disk);
        for i in 0..100 {
            backend.set(i.to_string(), "233".to_string()).unwrap();
        }
        sync(&mut disk, &mut backend);
    }
    let backend = reopen(&disk);
    for i in 0..100 {
        assert!(backend.contains_key(&i.to_string()));
    }
}

#[test]
fn write_log_replay_latest() {
    let mut disk = Disk::new();
    {
        for j in 0..10 {
            let mut backend = reopen(&disk);
            for i in 0..100 {
                backend.set(i.to_string(), j.to_string()).unwrap();
            }
            sync(&mut disk, &mut backend);
        }
    }
    let mut backend = reopen(&disk);
    for i in 0..100 {
        assert!(backend.contains_key(&i.to_string()));
        assert_eq!(backend.get(i.to_string()).unwrap(), Some("9".to_string()));
    }
}

#[test]
fn get_nonexist_key() {
    let (_disk, mut backend) = fresh();
    assert_eq!(backend.get("2333".into()).unwrap(), None);
}

#[test]
fn get_current_key() {
    let (_disk, mut backend) = fresh();
    backend.set("2333".into(), "2333".into()).unwrap();
    assert_eq!(backend.get("2333".into()).unwrap(), Some("2333".into()));
}

#[test]
fn compaction() {
    let (mut disk, mut backend) = fresh();
    backend.set("2333".into(), "2333".into()).unwrap();
    backend.set("2333".into(), "2334".into()).unwrap();
    backend.compaction().unwrap();
    sync(&mut disk, &mut backend);
    assert_eq!(backend.generation_cnt(), 1);
    assert!(!disk.contains_key("0.db"));
    assert_eq!(backend.get("2333".into()).unwrap(), Some("2334".into()));
}

#[test]
fn auto_compaction() {
    let (mut disk, mut backend) = fresh();
    for j in 0..10 {
        for i in 0..1000 {
            backend.set(i.to_string(), j.to_string()).unwrap();
        }
    }
    sync(&mut disk, &mut backend);
    assert_ne!(backend.generation_cnt(), 0);
}

#[test]
fn fresh_set_get_survives_restart() {
    let (mut disk, mut backend) = fresh();
    backend.set("a".into(), "1".into()).unwrap();
    assert_eq!(backend.get("a".into()).unwrap(), Some("1".into()));
    sync(&mut disk, &mut backend);
    drop(backend);
    let mut backend = reopen(&disk);
    assert_eq!(backend.get("a".into()).unwrap(), Some("1".into()));
}

#[test]
fn overwrite_survives_restart() {
    let (mut disk, mut backend) = fresh();
    backend.set("a".into(), "1".into()).unwrap();
    backend.set("a".into(), "2".into()).unwrap();
    assert_eq!(backend.get("a".into()).unwrap(), Some("2".into()));
    sync(&mut disk, &mut backend);
    drop(backend);
    let mut backend = reopen(&disk);
    assert_eq!(backend.get("a".into()).unwrap(), Some("2".into()));
}

#[test]
fn remove_then_get_and_remove_again() {
    let (_disk, mut backend) = fresh();
    backend.set("a".into(), "1".into()).unwrap();
    backend.remove("a".into()).unwrap();
    assert_eq!(backend.get("a".into()).unwrap(), None);
    match backend.remove("a".into()) {
        Err(kvs::KvStoreError::KeyNotFound { key }) => assert_eq!(key, "a"),
        other => panic!("expected KeyNotFound, got {:?}", other.is_ok()),
    }
}

#[test]
fn remove_missing_key_writes_nothing() {
    let (mut disk, mut backend) = fresh();
    sync(&mut disk, &mut backend);
    match backend.remove("absent".into()) {
        Err(kvs::KvStoreError::KeyNotFound { key }) => assert_eq!(key, "absent"),
        other => panic!("expected KeyNotFound, got {:?}", other.is_ok()),
    }
    let actions = backend.take_actions();
    assert_eq!(actions.len(), 0);
}

#[test]
fn open_empty_directory_is_generation_zero() {
    let backend = KvStore::open(Vec::new()).unwrap();
    assert_eq!(backend.generation_cnt(), 0);
}

#[test]
fn open_gap_generations_preserves_live_keys() {
    // Generations {0, 1, 3} on disk: the next generation is 4, and every
    // live key from each file survives.
    let mut disk = Disk::new();
    {
        let mut s = reopen(&disk); // creates 0.db
        s.set("a".into(), "1".into()).unwrap();
        s.set("b".into(), "2".into()).unwrap();
        sync(&mut disk, &mut s);
    }
    {
        let mut s = reopen(&disk); // creates 1.db
        s.set("a".into(), "3".into()).unwrap();
        sync(&mut disk, &mut s);
    }
    {
        let mut s = reopen(&disk); // creates 2.db
        s.set("c".into(), "4".into()).unwrap();
        sync(&mut disk, &mut s);
    }
    // Rename generation 2 to 3, leaving the gap the listing must tolerate.
    let content = disk.remove("2.db").unwrap();
    disk.insert("3.db".to_string(), content);
    let mut s = reopen(&disk);
    assert_eq!(s.generation_cnt(), 4);
    assert_eq!(s.get("a".into()).unwrap(), Some("3".into()));
    assert_eq!(s.get("b".into()).unwrap(), Some("2".into()));
    assert_eq!(s.get("c".into()).unwrap(), Some("4".into()));
}

#[test]
fn corrupted_tail_is_discarded_on_reopen() {
    let mut disk = Disk::new();
    {
        let mut s = reopen(&disk);
        s.set("a".into(), "1".into()).unwrap();
        s.set("b".into(), "2".into()).unwrap();
        sync(&mut disk, &mut s);
    }
    // Corrupt the tail of the latest generation: everything after the first
    // record is garbage, and a whole record hides behind it.
    {
        let file = disk.get_mut("0.db").unwrap();
        let keep = file.find("{\"Set\":{\"key\":\"b\"").unwrap();
        file.truncate(keep);
        file.push_str("{\"Set\":{\"key");
    }
    let mut s = reopen(&disk);
    assert_eq!(s.get("a".into()).unwrap(), Some("1".into()));
    assert_eq!(s.get("b".into()).unwrap(), None);
}

#[test]
fn compaction_is_idempotent_on_live_pairs() {
    let (mut disk, mut backend) = fresh();
    backend.set("a".into(), "1".into()).unwrap();
    backend.set("b".into(), "2".into()).unwrap();
    backend.set("a".into(), "3".into()).unwrap();
    backend.compaction().unwrap();
    let gen_after_first = backend.generation_cnt();
    backend.compaction().unwrap();
    sync(&mut disk, &mut backend);
    assert_eq!(backend.generation_cnt(), gen_after_first + 1);
    assert_eq!(disk.len(), 1);
    assert_eq!(backend.get("a".into()).unwrap(), Some("3".into()));
    assert_eq!(backend.get("b".into()).unwrap(), Some("2".into()));
}

#[test]
fn leading_zero_file_is_replayed_on_reopen() {
    let mut disk = Disk::new();
    {
        let mut s = reopen(&disk);
        s.set("a".into(), "1".into()).unwrap();
        sync(&mut disk, &mut s);
    }
    // A zero-padded name spells the same generation; its records count.
    let content = disk.remove("0.db").unwrap();
    disk.insert("00.db".to_string(), content);
    let mut s = reopen(&disk);
    assert_eq!(s.generation_cnt(), 1);
    assert_eq!(s.get("a".into()).unwrap(), Some("1".into()));
}
