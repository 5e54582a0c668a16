use base_index::{Cursor, Fork, MemoryDB, Snapshot};

fn scan(db: &MemoryDB, from: &[u8]) -> Vec<(Vec<u8>, Vec<u8>)> {
    let mut it = db.iter(from);
    let mut out = Vec::new();
    while let Some(entry) = it.next() {
        out.push(entry);
    }
    out
}

fn sample() -> MemoryDB {
    let mut db = MemoryDB::new();
    db.put(b"b".to_vec(), vec![2]);
    db.put(b"a".to_vec(), vec![1]);
    db.put(b"ab".to_vec(), vec![12]);
    db.put(b"c".to_vec(), vec![3]);
    db.put(b"abc".to_vec(), vec![123]);
    db
}

#[test]
fn empty_store_holds_nothing() {
    let db = MemoryDB::new();
    assert_eq!(db.get(b"a"), Ok(None));
    assert_eq!(db.contains(b"a"), Ok(false));
    assert_eq!(scan(&db, b""), vec![]);
}

#[test]
fn store_get_and_contains() {
    let db = sample();
    assert_eq!(db.get(b"a"), Ok(Some(vec![1])));
    assert_eq!(db.get(b"ab"), Ok(Some(vec![12])));
    assert_eq!(db.get(b"abc"), Ok(Some(vec![123])));
    assert_eq!(db.get(b"abcd"), Ok(None));
    assert_eq!(db.get(b""), Ok(None));
    assert_eq!(db.contains(b"c"), Ok(true));
    assert_eq!(db.contains(b"d"), Ok(false));
}

#[test]
fn store_put_replaces() {
    let mut db = sample();
    db.put(b"ab".to_vec(), vec![99]);
    assert_eq!(db.get(b"ab"), Ok(Some(vec![99])));
    assert_eq!(scan(&db, b"").len(), 5);
}

#[test]
fn store_scans_in_key_order() {
    let db = sample();
    assert_eq!(
        scan(&db, b""),
        vec![
            (b"a".to_vec(), vec![1]),
            (b"ab".to_vec(), vec![12]),
            (b"abc".to_vec(), vec![123]),
            (b"b".to_vec(), vec![2]),
            (b"c".to_vec(), vec![3]),
        ]
    );
    assert_eq!(
        scan(&db, b"abc"),
        vec![(b"abc".to_vec(), vec![123]), (b"b".to_vec(), vec![2]), (b"c".to_vec(), vec![3])]
    );
    assert_eq!(scan(&db, b"abd"), vec![(b"b".to_vec(), vec![2]), (b"c".to_vec(), vec![3])]);
    assert_eq!(scan(&db, b"c"), vec![(b"c".to_vec(), vec![3])]);
    assert_eq!(scan(&db, b"ca"), vec![]);
}

#[test]
fn store_delete() {
    let mut db = sample();
    db.delete(b"ab".to_vec());
    assert_eq!(db.get(b"ab"), Ok(None));
    db.delete(b"ab".to_vec());
    db.delete(b"zz".to_vec());
    assert_eq!(
        scan(&db, b""),
        vec![
            (b"a".to_vec(), vec![1]),
            (b"abc".to_vec(), vec![123]),
            (b"b".to_vec(), vec![2]),
            (b"c".to_vec(), vec![3]),
        ]
    );
}

#[test]
fn store_delete_by_prefix() {
    let mut db = sample();
    db.delete_by_prefix(b"ab");
    assert_eq!(
        scan(&db, b""),
        vec![(b"a".to_vec(), vec![1]), (b"b".to_vec(), vec![2]), (b"c".to_vec(), vec![3])]
    );
    db.delete_by_prefix(b"x");
    assert_eq!(scan(&db, b"").len(), 3);
    db.delete_by_prefix(b"c");
    assert_eq!(scan(&db, b""), vec![(b"a".to_vec(), vec![1]), (b"b".to_vec(), vec![2])]);
    db.delete_by_prefix(b"");
    assert_eq!(scan(&db, b""), vec![]);
}

#[test]
fn cursor_is_a_copy_taken_at_its_start() {
    let mut db = sample();
    let mut it = db.iter(b"b");
    db.put(b"bb".to_vec(), vec![22]);
    db.delete(b"c".to_vec());
    assert_eq!(it.next(), Some((b"b".to_vec(), vec![2])));
    assert_eq!(it.next(), Some((b"c".to_vec(), vec![3])));
    assert_eq!(it.next(), None);
    assert_eq!(it.next(), None);
}

#[test]
fn store_works_through_references() {
    let mut db = MemoryDB::new();
    {
        let mut handle = &mut db;
        Fork::put(&mut handle, b"k".to_vec(), vec![1]);
        assert_eq!(Snapshot::get(&handle, b"k"), Ok(Some(vec![1])));
        Fork::delete_by_prefix(&mut handle, b"k");
    }
    let shared = &db;
    assert_eq!(Snapshot::contains(&shared, b"k"), Ok(false));
    let mut it = Snapshot::iter(&shared, b"");
    assert_eq!(it.next(), None);
}
