use sstkv::db::{DBOps, EngineError, Phase, ReadStep, DB};
use sstkv::sst::file::reader::{lookup, Lookup};
use sstkv::sst::file::writer::{SstFile, StoreError, WriteError};
use std::collections::HashMap;

/// An object store in memory, and the loop that drives the state machine.
struct Objects {
    held: HashMap<String, Vec<u8>>,
    down: bool,
    fetches: Vec<String>,
}

impl Objects {
    fn new() -> Objects {
        Objects { held: HashMap::new(), down: false, fetches: Vec::new() }
    }

    fn put(&mut self, file: &SstFile) -> Result<(), StoreError> {
        if self.down {
            return Err(StoreError { reason: "down".to_string() });
        }
        self.held.insert(file.handle.object_id.clone(), file.bytes.clone());
        Ok(())
    }

    fn fetch(&mut self, object_id: &str) -> Result<Vec<u8>, StoreError> {
        self.fetches.push(object_id.to_string());
        if self.down {
            return Err(StoreError { reason: "down".to_string() });
        }
        match self.held.get(object_id) {
            Some(bytes) => Ok(bytes.clone()),
            None => Err(StoreError { reason: "no such object".to_string() }),
        }
    }

    fn get(&mut self, db: &DB, key: &[u8]) -> Result<Option<Vec<u8>>, EngineError> {
        let mut step = db.get(key);
        loop {
            match step {
                ReadStep::Done(result) => return result,
                ReadStep::Fetch { object_id, generation } => {
                    let fetched = self.fetch(&object_id);
                    step = db.resume_get(key, generation, fetched);
                }
            }
        }
    }

    fn flush(&mut self, db: &mut DB) -> Result<(), WriteError> {
        match db.begin_flush().unwrap() {
            None => Ok(()),
            Some(file) => {
                let put = self.put(&file);
                db.finish_flush(put).map(|_| ())
            }
        }
    }
}

#[test]
fn a_new_store_is_active_and_empty() {
    let db = DB::new();
    assert_eq!(db.phase(), Phase::Active);
    assert!(!db.should_flush());
    assert_eq!(db.published(), Vec::new());
    assert_eq!(db.get(b"k"), ReadStep::Done(Ok(None)));
}

#[test]
fn the_last_write_of_a_key_is_read() {
    let mut db = DB::new();
    let mut objects = Objects::new();
    assert_eq!(db.write(b"k1", b"v1"), Ok(()));
    assert_eq!(db.write(b"k2", b"v2"), Ok(()));
    assert_eq!(db.write(b"k1", b"v3"), Ok(()));
    assert_eq!(objects.get(&db, b"k1"), Ok(Some(b"v3".to_vec())));
    assert_eq!(objects.get(&db, b"k2"), Ok(Some(b"v2".to_vec())));
    assert_eq!(objects.get(&db, b"k3"), Ok(None));
    assert!(objects.fetches.is_empty());
    assert_eq!(db.phase(), Phase::Active);
}

#[test]
fn the_memtable_shadows_a_published_file() {
    let mut db = DB::new();
    let mut objects = Objects::new();
    db.write(b"k1", b"v1").unwrap();
    db.write(b"k2", b"v2").unwrap();
    db.write(b"k1", b"v3").unwrap();
    assert_eq!(objects.flush(&mut db), Ok(()));
    assert_eq!(db.published().len(), 1);
    assert_eq!(objects.get(&db, b"k1"), Ok(Some(b"v3".to_vec())));
    db.write(b"k1", b"v4").unwrap();
    objects.fetches.clear();
    assert_eq!(objects.get(&db, b"k1"), Ok(Some(b"v4".to_vec())));
    assert!(objects.fetches.is_empty());
    assert_eq!(objects.get(&db, b"k2"), Ok(Some(b"v2".to_vec())));
    assert_eq!(objects.fetches, vec!["sst-00000000000000000000.sst".to_string()]);
}

#[test]
fn a_tombstone_in_a_later_generation_shadows_an_older_value() {
    let mut db = DB::new();
    let mut objects = Objects::new();
    db.write(b"a", b"1").unwrap();
    objects.flush(&mut db).unwrap();
    assert_eq!(objects.get(&db, b"a"), Ok(Some(b"1".to_vec())));
    db.delete(b"a").unwrap();
    objects.flush(&mut db).unwrap();
    assert_eq!(db.published().len(), 2);
    objects.fetches.clear();
    assert_eq!(objects.get(&db, b"a"), Ok(None));
    // the older generation is not looked at
    assert_eq!(objects.fetches, vec!["sst-00000000000000000001.sst".to_string()]);
    assert_eq!(
        lookup(&objects.held["sst-00000000000000000001.sst"], b"a"),
        Ok(Lookup::Deleted)
    );
    assert_eq!(
        lookup(&objects.held["sst-00000000000000000000.sst"], b"a"),
        Ok(Lookup::Present(b"1".to_vec()))
    );
}

#[test]
fn a_delete_in_memory_hides_a_published_value() {
    let mut db = DB::new();
    let mut objects = Objects::new();
    db.write(b"a", b"1").unwrap();
    objects.flush(&mut db).unwrap();
    db.delete(b"a").unwrap();
    objects.fetches.clear();
    assert_eq!(objects.get(&db, b"a"), Ok(None));
    assert!(objects.fetches.is_empty());
}

#[test]
fn reads_go_from_the_newest_file_to_the_oldest() {
    let mut db = DB::new();
    let mut objects = Objects::new();
    db.write(b"a", b"old").unwrap();
    db.write(b"m", b"middle").unwrap();
    db.write(b"z", b"end").unwrap();
    objects.flush(&mut db).unwrap();
    db.write(b"a", b"new").unwrap();
    db.write(b"z", b"newer end").unwrap();
    objects.flush(&mut db).unwrap();
    db.write(b"q", b"only").unwrap();
    objects.flush(&mut db).unwrap();
    let handles = db.published();
    assert_eq!(handles.len(), 3);
    assert_eq!(handles[0].generation, 0);
    assert_eq!(handles[1].generation, 1);
    assert_eq!(handles[2].generation, 2);
    assert_eq!(handles[1].first_key, b"a".to_vec());
    assert_eq!(handles[1].last_key, b"z".to_vec());
    objects.fetches.clear();
    assert_eq!(objects.get(&db, b"a"), Ok(Some(b"new".to_vec())));
    assert_eq!(objects.fetches, vec!["sst-00000000000000000001.sst".to_string()]);
    objects.fetches.clear();
    // generation 2 holds q only, so it is passed over; 1 has no m; 0 has it
    assert_eq!(objects.get(&db, b"m"), Ok(Some(b"middle".to_vec())));
    assert_eq!(
        objects.fetches,
        vec![
            "sst-00000000000000000001.sst".to_string(),
            "sst-00000000000000000000.sst".to_string()
        ]
    );
    objects.fetches.clear();
    assert_eq!(objects.get(&db, b"zz"), Ok(None));
    assert!(objects.fetches.is_empty());
    assert_eq!(objects.get(&db, b"b"), Ok(None));
    assert_eq!(objects.fetches.len(), 2);
}

#[test]
fn a_failed_fetch_makes_the_read_unavailable() {
    let mut db = DB::new();
    let mut objects = Objects::new();
    db.write(b"a", b"old").unwrap();
    objects.flush(&mut db).unwrap();
    db.write(b"a", b"new").unwrap();
    objects.flush(&mut db).unwrap();
    objects.down = true;
    assert_eq!(objects.get(&db, b"a"), Err(EngineError::Unavailable));
    // the read stops at the file it could not get
    assert_eq!(objects.fetches, vec!["sst-00000000000000000001.sst".to_string()]);
    objects.down = false;
    assert_eq!(objects.get(&db, b"a"), Ok(Some(b"new".to_vec())));
}

#[test]
fn a_file_that_cannot_be_read_makes_the_read_unavailable() {
    let mut db = DB::new();
    let mut objects = Objects::new();
    db.write(b"a", b"1").unwrap();
    objects.flush(&mut db).unwrap();
    assert_eq!(
        db.resume_get(b"a", 0, Ok(b"not a file".to_vec())),
        ReadStep::Done(Err(EngineError::Unavailable))
    );
    let mut damaged = objects.held["sst-00000000000000000000.sst"].clone();
    damaged[17] ^= 1;
    assert_eq!(db.resume_get(b"a", 0, Ok(damaged)), ReadStep::Done(Err(EngineError::Unavailable)));
    // the file of another generation is not taken for this one
    db.write(b"a", b"2").unwrap();
    objects.flush(&mut db).unwrap();
    let other = objects.held["sst-00000000000000000001.sst"].clone();
    assert_eq!(db.resume_get(b"a", 0, Ok(other)), ReadStep::Done(Err(EngineError::Unavailable)));
}

#[test]
fn a_generation_that_was_not_published_is_an_internal_error() {
    let mut db = DB::new();
    let mut objects = Objects::new();
    db.write(b"a", b"1").unwrap();
    objects.flush(&mut db).unwrap();
    let file = objects.held["sst-00000000000000000000.sst"].clone();
    assert_eq!(db.resume_get(b"a", 5, Ok(file)), ReadStep::Done(Err(EngineError::Internal)));
}

#[test]
fn flushing_an_empty_memtable_does_nothing() {
    let mut db = DB::new();
    assert_eq!(db.begin_flush(), Ok(None));
    assert_eq!(db.phase(), Phase::Active);
    assert_eq!(db.finish_flush(Ok(())), Ok(None));
    assert_eq!(db.published(), Vec::new());
}

#[test]
fn a_flush_goes_from_active_to_flushing_and_back() {
    let mut db = DB::new();
    db.write(b"b", b"2").unwrap();
    db.write(b"a", b"1").unwrap();
    let file = db.begin_flush().unwrap().unwrap();
    assert_eq!(db.phase(), Phase::Flushing);
    assert_eq!(file.handle.generation, 0);
    assert_eq!(file.handle.first_key, b"a".to_vec());
    assert_eq!(file.handle.last_key, b"b".to_vec());
    assert_eq!(lookup(&file.bytes, b"a"), Ok(Lookup::Present(b"1".to_vec())));
    assert_eq!(lookup(&file.bytes, b"b"), Ok(Lookup::Present(b"2".to_vec())));
    let handle = db.finish_flush(Ok(())).unwrap().unwrap();
    assert_eq!(handle, file.handle);
    assert_eq!(db.phase(), Phase::Active);
    assert_eq!(db.published(), vec![handle]);
}

#[test]
fn writes_during_a_flush_go_to_the_next_generation() {
    let mut db = DB::new();
    let mut objects = Objects::new();
    db.write(b"a", b"1").unwrap();
    db.write(b"b", b"2").unwrap();
    let first = db.begin_flush().unwrap().unwrap();
    db.write(b"a", b"3").unwrap();
    db.write(b"c", b"4").unwrap();
    // the run being flushed is still read, behind the new memtable
    assert_eq!(objects.get(&db, b"a"), Ok(Some(b"3".to_vec())));
    assert_eq!(objects.get(&db, b"b"), Ok(Some(b"2".to_vec())));
    assert_eq!(objects.get(&db, b"c"), Ok(Some(b"4".to_vec())));
    assert!(objects.fetches.is_empty());
    // the file of the flush under way does not change
    assert_eq!(db.begin_flush().unwrap().unwrap(), first);
    let put = objects.put(&first);
    db.finish_flush(put).unwrap();
    let second = db.begin_flush().unwrap().unwrap();
    assert_eq!(second.handle.generation, 1);
    assert_eq!(lookup(&second.bytes, b"a"), Ok(Lookup::Present(b"3".to_vec())));
    assert_eq!(lookup(&second.bytes, b"b"), Ok(Lookup::Absent));
    assert_eq!(lookup(&second.bytes, b"c"), Ok(Lookup::Present(b"4".to_vec())));
}

#[test]
fn a_failed_put_keeps_the_run_for_another_try() {
    let mut db = DB::new();
    let mut objects = Objects::new();
    db.write(b"a", b"1").unwrap();
    objects.down = true;
    assert_eq!(objects.flush(&mut db), Err(WriteError::ObjectStoreUnavailable));
    assert_eq!(db.phase(), Phase::Flushing);
    assert_eq!(db.published(), Vec::new());
    assert_eq!(objects.get(&db, b"a"), Ok(Some(b"1".to_vec())));
    let again = db.begin_flush().unwrap().unwrap();
    assert_eq!(again.handle.generation, 0);
    objects.down = false;
    assert_eq!(objects.flush(&mut db), Ok(()));
    assert_eq!(db.phase(), Phase::Active);
    assert_eq!(objects.held["sst-00000000000000000000.sst"], again.bytes);
    assert_eq!(objects.get(&db, b"a"), Ok(Some(b"1".to_vec())));
}

#[test]
fn the_store_asks_for_a_flush_at_its_threshold() {
    let mut db = DB::with_limits(10, 4096);
    assert!(!db.should_flush());
    db.write(b"key", b"value").unwrap();
    assert!(!db.should_flush());
    db.write(b"k", b"v").unwrap();
    assert!(db.should_flush());
    db.begin_flush().unwrap();
    assert!(!db.should_flush());
    db.write(b"another key", b"another value").unwrap();
    assert!(!db.should_flush());
    db.finish_flush(Ok(())).unwrap();
    assert!(db.should_flush());
    let none = DB::with_limits(0, 4096);
    assert!(!none.should_flush());
}

#[test]
fn many_writes_are_read_back_through_files() {
    let mut db = DB::with_limits(256, 64);
    let mut objects = Objects::new();
    for round in 0..4u32 {
        for i in 0..100u32 {
            if (i + round) % 4 == 0 {
                let key = format!("key-{:03}", i);
                let value = format!("round {} value {}", round, i);
                db.write(key.as_bytes(), value.as_bytes()).unwrap();
                if db.should_flush() {
                    objects.flush(&mut db).unwrap();
                }
            }
        }
    }
    objects.flush(&mut db).unwrap();
    assert!(db.published().len() > 4);
    for i in 0..100u32 {
        let key = format!("key-{:03}", i);
        let round = (4 - i % 4) % 4;
        let value = format!("round {} value {}", round, i);
        assert_eq!(objects.get(&db, key.as_bytes()), Ok(Some(value.into_bytes())));
    }
    assert_eq!(objects.get(&db, b"key-100"), Ok(None));
}
