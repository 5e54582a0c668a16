use base_index::{BaseIndex, BaseIndexIter, Cursor, Error, MemoryDB, StorageKey, StorageValue};

fn drain<I: Cursor, K: StorageKey, V: StorageValue>(
    mut it: BaseIndexIter<'_, I, K, V>,
) -> Vec<Result<(K, V), Error>> {
    let mut out = Vec::new();
    while let Some(item) = it.next() {
        out.push(item);
    }
    out
}

fn s(text: &str) -> String {
    text.to_string()
}

#[test]
fn users_and_posts_share_one_store() {
    let mut db = MemoryDB::new();
    {
        let mut posts = BaseIndex::new(b"posts:".to_vec(), &mut db);
        posts.put(&7u64, s("first post"));
        posts.put(&8u64, s("second post"));
    }
    {
        let mut users = BaseIndex::new(b"users:".to_vec(), &mut db);
        users.put(&1u64, s("a"));
        users.put(&3u64, s("c"));
        users.put(&2u64, s("b"));

        let all = drain(users.iter::<u64, String>());
        assert_eq!(all, vec![Ok((1u64, s("a"))), Ok((2u64, s("b"))), Ok((3u64, s("c")))]);

        let from_two = drain(users.iter_from::<u64, u64, String>(&2u64));
        assert_eq!(from_two, vec![Ok((2u64, s("b"))), Ok((3u64, s("c")))]);

        users.clear();
        let none = drain(users.iter::<u64, String>());
        assert_eq!(none, vec![]);
    }
    let posts = BaseIndex::new(b"posts:".to_vec(), &db);
    let left = drain(posts.iter::<u64, String>());
    assert_eq!(left, vec![Ok((7u64, s("first post"))), Ok((8u64, s("second post")))]);
    assert_eq!(posts.get::<u64, String>(&7u64), Ok(Some(s("first post"))));
    assert_eq!(posts.contains(&8u64), Ok(true));
}

#[test]
fn put_under_one_prefix_is_not_seen_under_another() {
    let mut db = MemoryDB::new();
    {
        let mut left = BaseIndex::new(b"left".to_vec(), &mut db);
        left.put(&5u64, 50u64);
    }
    let right = BaseIndex::new(b"right".to_vec(), &db);
    assert_eq!(right.get::<u64, u64>(&5u64), Ok(None));
    assert_eq!(right.contains(&5u64), Ok(false));
    assert_eq!(drain(right.iter::<u64, u64>()), vec![]);
    let left = BaseIndex::new(b"left".to_vec(), &db);
    assert_eq!(left.get::<u64, u64>(&5u64), Ok(Some(50u64)));
}

#[test]
fn same_key_under_two_prefixes_holds_two_values() {
    let mut db = MemoryDB::new();
    {
        let mut a = BaseIndex::new(vec![1u8], &mut db);
        a.put(&9u64, s("under one"));
    }
    {
        let mut b = BaseIndex::new(vec![2u8], &mut db);
        b.put(&9u64, s("under two"));
    }
    let a = BaseIndex::new(vec![1u8], &db);
    let b = BaseIndex::new(vec![2u8], &db);
    assert_eq!(a.get::<u64, String>(&9u64), Ok(Some(s("under one"))));
    assert_eq!(b.get::<u64, String>(&9u64), Ok(Some(s("under two"))));
}

#[test]
fn a_prefix_that_begins_with_another_is_not_isolated() {
    // The key written under "ab" starts with "a" too, so the index under "a"
    // sees it, as a longer key.
    let mut db = MemoryDB::new();
    {
        let mut inner = BaseIndex::new(b"ab".to_vec(), &mut db);
        inner.put(&vec![b'x'], vec![1u8]);
    }
    {
        let outer = BaseIndex::new(b"a".to_vec(), &db);
        assert_eq!(
            drain(outer.iter::<Vec<u8>, Vec<u8>>()),
            vec![Ok((b"bx".to_vec(), vec![1u8]))]
        );
        assert_eq!(outer.get::<Vec<u8>, Vec<u8>>(&b"bx".to_vec()), Ok(Some(vec![1u8])));
    }
    {
        let mut outer = BaseIndex::new(b"a".to_vec(), &mut db);
        outer.clear();
    }
    let inner = BaseIndex::new(b"ab".to_vec(), &db);
    assert_eq!(drain(inner.iter::<Vec<u8>, Vec<u8>>()), vec![]);
}

#[test]
fn clear_leaves_independent_prefixes_alone() {
    let mut db = MemoryDB::new();
    {
        let mut a = BaseIndex::new(b"a:".to_vec(), &mut db);
        a.put(&1u64, 1u64);
        a.put(&2u64, 2u64);
    }
    {
        let mut b = BaseIndex::new(b"b:".to_vec(), &mut db);
        b.put(&1u64, 10u64);
    }
    {
        // a prefix that sorts just before "a:"
        let mut below = BaseIndex::new(b"a9".to_vec(), &mut db);
        below.put(&1u64, 100u64);
    }
    {
        // a prefix that sorts just after "a:"
        let mut above = BaseIndex::new(b"a;".to_vec(), &mut db);
        above.put(&1u64, 1000u64);
    }
    {
        let mut a = BaseIndex::new(b"a:".to_vec(), &mut db);
        a.clear();
        assert_eq!(drain(a.iter::<u64, u64>()), vec![]);
        assert_eq!(a.contains(&1u64), Ok(false));
    }
    let b = BaseIndex::new(b"b:".to_vec(), &db);
    assert_eq!(drain(b.iter::<u64, u64>()), vec![Ok((1u64, 10u64))]);
    let below = BaseIndex::new(b"a9".to_vec(), &db);
    assert_eq!(drain(below.iter::<u64, u64>()), vec![Ok((1u64, 100u64))]);
    let above = BaseIndex::new(b"a;".to_vec(), &db);
    assert_eq!(drain(above.iter::<u64, u64>()), vec![Ok((1u64, 1000u64))]);
}

#[test]
fn iteration_stops_at_the_end_of_the_prefix() {
    let mut db = MemoryDB::new();
    {
        let mut a = BaseIndex::new(b"m".to_vec(), &mut db);
        a.put(&1u64, 1u64);
    }
    {
        let mut before = BaseIndex::new(b"l".to_vec(), &mut db);
        before.put(&1u64, 2u64);
    }
    {
        let mut after = BaseIndex::new(b"n".to_vec(), &mut db);
        after.put(&0u64, 3u64);
    }
    let a = BaseIndex::new(b"m".to_vec(), &db);
    let mut it = a.iter::<u64, u64>();
    assert_eq!(it.next(), Some(Ok((1u64, 1u64))));
    assert_eq!(it.next(), None);
    assert_eq!(it.next(), None);
}

#[test]
fn empty_prefix_covers_the_whole_store() {
    let mut db = MemoryDB::new();
    {
        let mut a = BaseIndex::new(vec![0u8], &mut db);
        a.put(&vec![5u8], vec![1u8]);
    }
    {
        let mut b = BaseIndex::new(vec![9u8], &mut db);
        b.put(&vec![6u8], vec![2u8]);
    }
    let whole = BaseIndex::new(Vec::new(), &db);
    assert_eq!(
        drain(whole.iter::<Vec<u8>, Vec<u8>>()),
        vec![Ok((vec![0u8, 5u8], vec![1u8])), Ok((vec![9u8, 6u8], vec![2u8]))]
    );
}

#[test]
fn fixed_width_keys_are_not_read_across_nested_prefixes() {
    // "ab" begins with "a". A `u64` key written under "a" is no `u64` key
    // under "ab": `get` there does not find it, and `iter` meets it only as
    // a key of the wrong length.
    let mut db = MemoryDB::new();
    {
        let mut outer = BaseIndex::new(b"a".to_vec(), &mut db);
        outer.put(&0x6200_0000_0000_0001u64, 5u64);
    }
    let inner = BaseIndex::new(b"ab".to_vec(), &db);
    assert_eq!(inner.get::<u64, u64>(&1u64), Ok(None));
    assert_eq!(inner.get::<u64, u64>(&0x6200_0000_0000_0001u64), Ok(None));
    assert_eq!(inner.contains(&1u64), Ok(false));
    assert_eq!(drain(inner.iter::<u64, u64>()), vec![Err(Error::MalformedKey)]);
    assert_eq!(
        drain(inner.iter::<Vec<u8>, u64>()),
        vec![Ok((vec![0u8, 0, 0, 0, 0, 0, 1], 5u64))]
    );
}
