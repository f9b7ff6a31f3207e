use amt::trie::{Trie, TrieMut};

fn filled(keys: &[usize]) -> Trie<String> {
    let mut t: Trie<String> = Trie::new();
    for &k in keys {
        t = t.update(k, format!("v{}", k));
    }
    t
}

#[test]
fn empty_map() {
    let m0: Trie<&str> = Trie::new();
    assert_eq!(m0.len(), 0);
    assert_eq!(m0.get(0), None);
    assert_eq!(m0.next_empty(0), Some(0));
    assert_eq!(m0.root_width(), 0);
}

#[test]
fn single_update() {
    let m0: Trie<&str> = Trie::new();
    let m1 = m0.update(0, "a");
    assert_eq!(m1.get(0), Some("a"));
    assert_eq!(m1.len(), 1);
    assert_eq!(m0.len(), 0);
    assert_eq!(m0.get(0), None);
}

#[test]
fn first_branching_level() {
    let mut m: Trie<usize> = Trie::new();
    for k in 0..32usize {
        m = m.update(k, k * 10);
    }
    assert_eq!(m.len(), 32);
    for k in 0..32usize {
        assert_eq!(m.get(k), Some(k * 10));
    }
    assert_eq!(m.root_width(), 32);
    assert_eq!(m.get(32), None);
}

#[test]
fn update_same_key_twice() {
    let m0: Trie<&str> = Trie::new();
    let m2 = m0.update(5, "x").update(5, "y");
    assert_eq!(m2.get(5), Some("y"));
    assert_eq!(m2.len(), 1);
}

#[test]
fn remove_collapses_to_leaf() {
    let m0: Trie<&str> = Trie::new();
    let m3 = m0.update(0, "a").update(1, "b").remove(1);
    assert_eq!(m3.get(0), Some("a"));
    assert_eq!(m3.get(1), None);
    assert_eq!(m3.len(), 1);
    assert_eq!(m3.root_width(), 0);
}

#[test]
fn remove_from_empty() {
    let m0: Trie<&str> = Trie::new();
    let m = m0.remove(5);
    assert_eq!(m.len(), 0);
    assert_eq!(m.get(5), None);
    assert_eq!(m.root_width(), 0);
}

#[test]
fn round_trip_many_keys() {
    let keys = [0usize, 1, 31, 32, 33, 1023, 1024, 99_999, 1 << 40, usize::MAX - 1, usize::MAX];
    let t = filled(&keys);
    assert_eq!(t.len(), keys.len());
    for &k in &keys {
        assert_eq!(t.get(k), Some(format!("v{}", k)));
    }
    assert_eq!(t.get(2), None);
    assert_eq!(t.get(usize::MAX - 2), None);
}

#[test]
fn keys_sharing_low_digits() {
    let a = 7usize;
    let b = 7usize | (1 << 60);
    let c = 7usize | (1 << 63);
    let t = filled(&[a, b, c]);
    assert_eq!(t.len(), 3);
    assert_eq!(t.get(a), Some("v7".to_string()));
    assert_eq!(t.get(b), Some(format!("v{}", b)));
    assert_eq!(t.get(c), Some(format!("v{}", c)));
    let t2 = t.remove(b);
    assert_eq!(t2.len(), 2);
    assert_eq!(t2.get(b), None);
    assert_eq!(t2.get(a), Some("v7".to_string()));
    assert_eq!(t2.get(c), Some(format!("v{}", c)));
}

#[test]
fn deletion_after_update() {
    let t = filled(&[3, 35, 67]);
    let t2 = t.update(99, "new".to_string()).remove(99);
    assert_eq!(t2.get(99), None);
    assert_eq!(t2.len(), 3);
}

#[test]
fn non_interference() {
    let t = filled(&[1, 2, 3, 64]);
    let t2 = t.update(2, "changed".to_string());
    assert_eq!(t2.get(1), t.get(1));
    assert_eq!(t2.get(3), t.get(3));
    assert_eq!(t2.get(64), t.get(64));
    assert_eq!(t2.get(100), t.get(100));
    assert_eq!(t2.get(2), Some("changed".to_string()));
    assert_eq!(t.get(2), Some("v2".to_string()));
}

#[test]
fn length_accounting() {
    let t = filled(&[10, 20, 30]);
    assert_eq!(t.remove(11).len(), 3);
    assert_eq!(t.update(20, "again".to_string()).len(), 3);
    assert_eq!(t.update(21, "new".to_string()).len(), 4);
    assert_eq!(t.remove(20).len(), 2);
}

#[test]
fn update_all_later_duplicate_wins() {
    let t: Trie<&str> = Trie::new();
    let batch = t.update_all(vec![(1, "a"), (2, "b"), (1, "c"), (40, "d")]);
    let seq = t.update(1, "a").update(2, "b").update(1, "c").update(40, "d");
    assert_eq!(batch.len(), 3);
    assert_eq!(batch.len(), seq.len());
    for k in [1usize, 2, 40, 3] {
        assert_eq!(batch.get(k), seq.get(k));
    }
    assert_eq!(batch.get(1), Some("c"));
}

#[test]
fn update_all_empty_batch() {
    let t = filled(&[5, 6]);
    let same = t.update_all(Vec::new());
    assert_eq!(same.len(), 2);
    assert_eq!(same.get(5), Some("v5".to_string()));
}

#[test]
fn remove_all_keys() {
    let t = filled(&[1, 2, 3, 4, 100]);
    let r = t.remove_all(vec![2, 100, 7, 2]);
    assert_eq!(r.len(), 3);
    assert_eq!(r.get(2), None);
    assert_eq!(r.get(100), None);
    assert_eq!(r.get(1), Some("v1".to_string()));
    assert_eq!(t.len(), 5);
}

#[test]
fn next_empty_finds_smallest_free() {
    let t = filled(&[0, 1, 2, 4]);
    assert_eq!(t.next_empty(0), Some(3));
    assert_eq!(t.next_empty(3), Some(3));
    assert_eq!(t.next_empty(4), Some(5));
    assert_eq!(t.next_empty(10), Some(10));
}

#[test]
fn next_empty_wraps_around() {
    let t = filled(&[usize::MAX - 1, usize::MAX, 0]);
    assert_eq!(t.next_empty(usize::MAX - 1), Some(1));
    let leaf_only = filled(&[usize::MAX]);
    assert_eq!(leaf_only.next_empty(usize::MAX), Some(0));
}

#[test]
fn staging_session() {
    let t = filled(&[1, 2]);
    let mut s: TrieMut<String> = t.to_mut();
    assert_eq!(s.len(), 2);
    assert_eq!(s.insert(3, "three".to_string()), None);
    assert_eq!(s.insert(1, "one".to_string()), Some("v1".to_string()));
    assert_eq!(s.remove(2), Some("v2".to_string()));
    assert_eq!(s.remove(2), None);
    assert_eq!(s.len(), 2);
    let t2 = s.into_trie();
    assert_eq!(t2.len(), 2);
    assert_eq!(t2.get(1), Some("one".to_string()));
    assert_eq!(t2.get(3), Some("three".to_string()));
    assert_eq!(t2.get(2), None);
    assert_eq!(t.get(1), Some("v1".to_string()));
    assert_eq!(t.get(2), Some("v2".to_string()));
}

#[test]
fn staging_insert_all() {
    let t: Trie<u32> = Trie::new();
    let mut s = t.to_mut();
    s.insert_all(vec![(9, 1), (41, 2), (9, 3)]);
    assert_eq!(s.len(), 2);
    let t2 = s.into_trie();
    assert_eq!(t2.get(9), Some(3));
    assert_eq!(t2.get(41), Some(2));
}

#[test]
fn remove_everything_then_reinsert() {
    let keys: Vec<usize> = (0..100usize).map(|k| k * 37).collect();
    let t = filled(&keys);
    assert_eq!(t.len(), 100);
    let empty = t.remove_all(keys.clone());
    assert_eq!(empty.len(), 0);
    assert_eq!(empty.root_width(), 0);
    for &k in &keys {
        assert_eq!(empty.get(k), None);
    }
    let again = empty.update(37, "x".to_string());
    assert_eq!(again.len(), 1);
    assert_eq!(again.get(37), Some("x".to_string()));
}

#[test]
fn default_is_empty() {
    let t: Trie<u8> = Trie::default();
    assert_eq!(t.len(), 0);
    assert_eq!(t.get(0), None);
    assert_eq!(t.next_empty(42), Some(42));
}

#[test]
fn extend_in_place() {
    let mut t = filled(&[1, 2]);
    t.extend(vec![(2, "two".to_string()), (70, "seventy".to_string())]);
    assert_eq!(t.len(), 3);
    assert_eq!(t.get(2), Some("two".to_string()));
    assert_eq!(t.get(70), Some("seventy".to_string()));
}

#[test]
fn build_from_entries() {
    let t: Trie<&str> = Trie::from_entries(vec![(4, "a"), (36, "b"), (4, "c")]);
    assert_eq!(t.len(), 2);
    assert_eq!(t.get(4), Some("c"));
    assert_eq!(t.get(36), Some("b"));
    let s: TrieMut<&str> = TrieMut::from_entries(vec![(1, "x"), (1, "y")]);
    assert_eq!(s.len(), 1);
    assert_eq!(s.into_trie().get(1), Some("y"));
}
