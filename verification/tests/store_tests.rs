//! Tests of the storage engine: the set/get/remove contract, persistence
//! through the effect queue, reopening, and compaction.
use kvs::Error;
use kvs::KvStore;
use kvs::kvstore::COMPACTION_THRESHOLD;
use kvs::kvstore::Effect;

/// A simulated database directory: segment files as (id, contents).
struct Dir {
    files: Vec<(u64, Vec<char>)>,
}

impl Dir {
    fn new() -> Dir {
        Dir { files: Vec::new() }
    }

    /// Apply drained effects the way the persistence shell applies them
    /// to real files.
    fn apply(&mut self, effects: Vec<Effect>) {
        for e in effects {
            match e {
                Effect::Create { id } => self.files.push((id, Vec::new())),
                Effect::Append { id, data } => {
                    for f in self.files.iter_mut() {
                        if f.0 == id {
                            f.1.extend(data.iter().cloned());
                        }
                    }
                }
                Effect::Delete { id } => self.files.retain(|f| f.0 != id),
            }
        }
        self.files.sort_by_key(|f| f.0);
    }

    fn total_bytes(&self) -> usize {
        self.files.iter().map(|f| f.1.len()).sum()
    }
}

fn sync(dir: &mut Dir, store: &mut KvStore) {
    let effs = store.take_effects();
    dir.apply(effs);
}

#[test]
fn set_get_reopen() {
    let mut dir = Dir::new();
    let mut store = KvStore::new();
    store.set("k".to_owned(), "v1".to_owned()).unwrap();
    assert_eq!(store.get("k".to_owned()).unwrap(), Some("v1".to_owned()));
    store.set("k".to_owned(), "v2".to_owned()).unwrap();
    assert_eq!(store.get("k".to_owned()).unwrap(), Some("v2".to_owned()));
    sync(&mut dir, &mut store);
    drop(store);

    let mut reopened = KvStore::open(dir.files.clone()).unwrap();
    assert_eq!(reopened.get("k".to_owned()).unwrap(), Some("v2".to_owned()));
    // and the reopened store keeps working
    reopened.set("other".to_owned(), "x".to_owned()).unwrap();
    assert_eq!(reopened.get("other".to_owned()).unwrap(), Some("x".to_owned()));
}

#[test]
fn remove_and_missing_keys() {
    let mut store = KvStore::new();
    store.set("a".to_owned(), "1".to_owned()).unwrap();
    store.set("b".to_owned(), "2".to_owned()).unwrap();
    store.remove("a".to_owned()).unwrap();
    assert_eq!(store.get("a".to_owned()).unwrap(), None);
    assert!(matches!(store.remove("a".to_owned()), Err(Error::KeyNotFound)));
    assert_eq!(store.get("b".to_owned()).unwrap(), Some("2".to_owned()));
}

#[test]
fn remove_of_fresh_store_fails() {
    let mut store = KvStore::new();
    assert!(matches!(store.remove("nope".to_owned()), Err(Error::KeyNotFound)));
    assert_eq!(store.get("nope".to_owned()).unwrap(), None);
}

#[test]
fn empty_keys_and_values_are_allowed() {
    let mut store = KvStore::new();
    store.set("".to_owned(), "".to_owned()).unwrap();
    assert_eq!(store.get("".to_owned()).unwrap(), Some("".to_owned()));
    store.remove("".to_owned()).unwrap();
    assert_eq!(store.get("".to_owned()).unwrap(), None);
}

#[test]
fn removed_keys_stay_removed_after_reopen() {
    let mut dir = Dir::new();
    let mut store = KvStore::new();
    store.set("a".to_owned(), "1".to_owned()).unwrap();
    store.set("b".to_owned(), "2".to_owned()).unwrap();
    store.remove("a".to_owned()).unwrap();
    sync(&mut dir, &mut store);
    drop(store);

    let reopened = KvStore::open(dir.files.clone()).unwrap();
    assert_eq!(reopened.get("a".to_owned()).unwrap(), None);
    assert_eq!(reopened.get("b".to_owned()).unwrap(), Some("2".to_owned()));
}

#[test]
fn reopen_after_every_mutation_matches() {
    let mut dir = Dir::new();
    let mut store = KvStore::new();
    let script: Vec<(&str, &str)> = vec![
        ("set", "a"),
        ("set", "b"),
        ("rm", "a"),
        ("set", "c"),
        ("set", "b"),
        ("rm", "c"),
    ];
    let mut counter = 0;
    for (op, key) in script {
        match op {
            "set" => {
                counter += 1;
                store.set(key.to_owned(), format!("v{}", counter)).unwrap();
            }
            _ => {
                store.remove(key.to_owned()).unwrap();
            }
        }
        sync(&mut dir, &mut store);
        let reopened = KvStore::open(dir.files.clone()).unwrap();
        for probe in ["a", "b", "c"] {
            assert_eq!(
                reopened.get(probe.to_owned()).unwrap(),
                store.get(probe.to_owned()).unwrap(),
                "after {:?} {:?}",
                op,
                key
            );
        }
    }
}

#[test]
fn open_rejects_corrupt_files() {
    // not a record at all
    let garbage: Vec<char> = "hello".chars().collect();
    assert!(matches!(KvStore::open(vec![(0, garbage)]), Err(Error::Corruption)));
    // a file that ends mid-record
    let mut store = KvStore::new();
    store.set("k".to_owned(), "v".to_owned()).unwrap();
    let mut dir = Dir::new();
    sync(&mut dir, &mut store);
    let (id, mut data) = dir.files.pop().unwrap();
    data.pop();
    assert!(matches!(KvStore::open(vec![(id, data)]), Err(Error::Corruption)));
    // a persisted Get record
    let get_frame: Vec<char> = "{\"Get\":{\"key\":\"k\"}}".chars().collect();
    assert!(matches!(KvStore::open(vec![(0, get_frame)]), Err(Error::Corruption)));
}

#[test]
fn open_of_empty_directory_is_a_fresh_store() {
    let store = KvStore::open(Vec::new()).unwrap();
    assert_eq!(store.get("k".to_owned()).unwrap(), None);
}

#[test]
fn open_tolerates_an_empty_segment() {
    let store = KvStore::open(vec![(0, Vec::new())]).unwrap();
    assert_eq!(store.get("k".to_owned()).unwrap(), None);
}

#[test]
fn first_effects_create_the_initial_segment() {
    let mut store = KvStore::new();
    let effs = store.take_effects();
    assert!(matches!(effs.as_slice(), [Effect::Create { id: 0 }]));
    assert!(store.take_effects().is_empty());
}

#[test]
fn compaction_converges_disk_usage() {
    let mut dir = Dir::new();
    let mut store = KvStore::new();
    let value: String = "x".repeat(1024);
    let rounds = 1200usize;
    for i in 0..rounds {
        let key = format!("k{}", i);
        store.set(key.clone(), value.clone()).unwrap();
        store.set(key, value.clone()).unwrap();
        sync(&mut dir, &mut store);
    }
    for i in 0..rounds {
        assert_eq!(store.get(format!("k{}", i)).unwrap(), Some(value.clone()));
    }
    // live data is about rounds * 1KiB; the directory must stay within a
    // small constant multiple of that (the threshold padding aside)
    let live: usize = rounds * value.len();
    let on_disk = dir.total_bytes();
    assert!(
        on_disk < 3 * live + 2 * (COMPACTION_THRESHOLD as usize),
        "on disk {} vs live {}",
        on_disk,
        live
    );
    // and the compacted directory still reopens exactly
    let reopened = KvStore::open(dir.files.clone()).unwrap();
    assert_eq!(reopened.get("k0".to_owned()).unwrap(), Some(value.clone()));
    assert_eq!(
        reopened.get(format!("k{}", rounds - 1)).unwrap(),
        Some(value)
    );
}

#[test]
fn updated_values_survive_compaction_and_reopen() {
    let mut dir = Dir::new();
    let mut store = KvStore::new();
    let big: String = "y".repeat(4096);
    for round in 0..2 {
        for i in 0..200usize {
            store
                .set(format!("key{}", i), format!("{}r{}", big, round))
                .unwrap();
        }
        sync(&mut dir, &mut store);
    }
    store.remove("key0".to_owned()).unwrap();
    sync(&mut dir, &mut store);
    let reopened = KvStore::open(dir.files.clone()).unwrap();
    assert_eq!(reopened.get("key0".to_owned()).unwrap(), None);
    assert_eq!(
        reopened.get("key7".to_owned()).unwrap(),
        Some(format!("{}r1", big))
    );
}

#[test]
fn works_through_the_engine_trait() {
    fn exercise<E: kvs::KvsEngine>(engine: &mut E) {
        engine.set("t".to_owned(), "1".to_owned()).unwrap();
        assert_eq!(engine.get("t".to_owned()).unwrap(), Some("1".to_owned()));
        engine.remove("t".to_owned()).unwrap();
        assert!(matches!(engine.remove("t".to_owned()), Err(Error::KeyNotFound)));
    }
    let mut store = KvStore::default();
    exercise(&mut store);
}

#[test]
fn equal_value_overwrites_still_count_as_stale() {
    // a Set that stores the identical value supersedes the prior record
    // all the same: no content comparison. 300 writes of the same 4KiB
    // pair push the superseded bytes over the threshold, compaction runs,
    // and the directory shrinks back to roughly one live record; were
    // equal values not booked stale, all 300 copies would remain.
    let mut dir = Dir::new();
    let mut store = KvStore::new();
    let value: String = "z".repeat(4 * 1024);
    for _ in 0..300 {
        store.set("k".to_owned(), value.clone()).unwrap();
        sync(&mut dir, &mut store);
    }
    assert_eq!(store.get("k".to_owned()).unwrap(), Some(value.clone()));
    let live = value.len();
    assert!(
        dir.total_bytes() < live + 300 * 1024,
        "duplicates were not compacted away: {} on disk for {} live",
        dir.total_bytes(),
        live
    );
    let reopened = KvStore::open(dir.files.clone()).unwrap();
    assert_eq!(reopened.get("k".to_owned()).unwrap(), Some(value));
}
