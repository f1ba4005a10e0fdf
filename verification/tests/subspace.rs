use sstkv::codec::DecodeError;
use sstkv::db::{DBOps, ReadStep, DB};
use sstkv::subspace::Subspace;

#[test]
fn get() {
    let db = &mut DB::new();
    let s = Subspace { db: db, prefix: Vec::new() };
    let r = s.get(b"hey");
    println!("Result: {:?}", r);
    assert_eq!(r, ReadStep::Done(Ok(None)));
}

#[test]
fn a_subspace_stores_under_its_prefix() {
    let mut db = DB::new();
    {
        let mut users = db.subspace(b"users/");
        assert_eq!(users.write(b"alice", b"1"), Ok(()));
        assert_eq!(users.get(b"alice"), ReadStep::Done(Ok(Some(b"1".to_vec()))));
        assert_eq!(users.get(b"bob"), ReadStep::Done(Ok(None)));
    }
    assert_eq!(db.get(b"users/alice"), ReadStep::Done(Ok(Some(b"1".to_vec()))));
    assert_eq!(db.get(b"alice"), ReadStep::Done(Ok(None)));
}

#[test]
fn subspaces_with_different_prefixes_do_not_see_each_other() {
    let mut db = DB::new();
    db.subspace(b"one/").write(b"x", b"from one").unwrap();
    assert_eq!(db.subspace(b"two/").get(b"x"), ReadStep::Done(Ok(None)));
    db.subspace(b"two/").write(b"x", b"from two").unwrap();
    assert_eq!(db.subspace(b"one/").get(b"x"), ReadStep::Done(Ok(Some(b"from one".to_vec()))));
    assert_eq!(db.subspace(b"two/").get(b"x"), ReadStep::Done(Ok(Some(b"from two".to_vec()))));
}

#[test]
fn the_empty_prefix_is_the_store_itself() {
    let mut db = DB::new();
    db.write(b"k", b"v").unwrap();
    assert_eq!(db.subspace(b"").get(b"k"), ReadStep::Done(Ok(Some(b"v".to_vec()))));
    db.subspace(b"").write(b"k", b"w").unwrap();
    assert_eq!(db.get(b"k"), ReadStep::Done(Ok(Some(b"w".to_vec()))));
}

#[test]
fn a_prefix_that_starts_another_shares_its_keys() {
    let mut db = DB::new();
    db.subspace(b"a").write(b"bc", b"1").unwrap();
    assert_eq!(db.subspace(b"ab").get(b"c"), ReadStep::Done(Ok(Some(b"1".to_vec()))));
}

#[test]
fn a_subspace_reads_its_keys_from_files() {
    let mut db = DB::new();
    db.subspace(b"users/").write(b"alice", b"1").unwrap();
    db.subspace(b"orders/").write(b"alice", b"2").unwrap();
    let file = db.begin_flush().unwrap().unwrap();
    db.finish_flush(Ok(())).unwrap();
    let users = db.subspace(b"users/");
    let step = users.get(b"alice");
    assert_eq!(
        step,
        ReadStep::Fetch { object_id: "sst-00000000000000000000.sst".to_string(), generation: 0 }
    );
    assert_eq!(
        users.resume_get(b"alice", 0, Ok(file.bytes.clone())),
        ReadStep::Done(Ok(Some(b"1".to_vec())))
    );
    let orders = db.subspace(b"orders/");
    assert_eq!(
        orders.resume_get(b"alice", 0, Ok(file.bytes.clone())),
        ReadStep::Done(Ok(Some(b"2".to_vec())))
    );
    assert_eq!(orders.resume_get(b"bob", 0, Ok(file.bytes)), ReadStep::Done(Ok(None)));
}

#[test]
fn a_subspace_encodes_and_decodes_its_keys() {
    let mut db = DB::new();
    let users = db.subspace(b"users/");
    assert_eq!(users.encode_key(b"alice"), b"users/alice".to_vec());
    assert_eq!(users.decode_key(b"users/alice"), Ok(b"alice".to_vec()));
    assert_eq!(users.decode_key(b"orders/7"), Err(DecodeError::PrefixMismatch));
}
