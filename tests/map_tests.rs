use bucket_map::chain::Node;
use bucket_map::table::{ConfigError, MyHashMap, DEFAULT_BUFFER_CAPACITY};
use std::collections::hash_map::DefaultHasher;
use std::hash::{Hash, Hasher};

fn s(x: &str) -> String {
    String::from(x)
}

#[test]
fn sample_inserts_and_lookups() {
    let mut m: MyHashMap<i32> = MyHashMap::new();
    m.insert(&s("Test"), &6);
    m.insert(&s("Test2"), &7);
    m.insert(&s("Test"), &8);
    m.insert(&s("Test1"), &20);
    m.insert(&s("Test2"), &15);
    m.insert(&s("Test1"), &230);
    assert_eq!(m.get(&s("Test")), Some(&8));
    assert_eq!(m.get(&s("Test1")), Some(&230));
    assert_eq!(m.get(&s("Test2")), Some(&15));
    assert_eq!(m.get(&s("Te1")), None);
}

#[test]
fn last_write_wins() {
    let mut m: MyHashMap<u8> = MyHashMap::new();
    for v in 1..=5u8 {
        m.insert(&s("k"), &v);
    }
    assert_eq!(m.get(&s("k")), Some(&5));
}

#[test]
fn empty_map_has_nothing() {
    let m: MyHashMap<i32> = MyHashMap::new();
    assert_eq!(m.get(&s("")), None);
    assert_eq!(m.get(&s("Test")), None);
}

#[test]
fn never_inserted_key_is_absent() {
    let mut m: MyHashMap<i32> = MyHashMap::new();
    for i in 0..100 {
        m.insert(&format!("key{}", i), &i);
    }
    assert_eq!(m.get(&s("key100")), None);
    assert_eq!(m.get(&s("other")), None);
    assert_eq!(m.get(&s("key99")), Some(&99));
}

#[test]
fn colliding_keys_in_one_bucket() {
    let mut m: MyHashMap<i32> = MyHashMap::with_capacity(1).unwrap();
    m.insert(&s("a"), &1);
    m.insert(&s("b"), &2);
    m.insert(&s("c"), &3);
    m.insert(&s("b"), &20);
    assert_eq!(m.get(&s("a")), Some(&1));
    assert_eq!(m.get(&s("b")), Some(&20));
    assert_eq!(m.get(&s("c")), Some(&3));
    assert_eq!(m.get(&s("d")), None);
}

#[test]
fn colliding_keys_found_by_hash() {
    let cap = DEFAULT_BUFFER_CAPACITY;
    let first = s("k0");
    let bucket = MyHashMap::<i32>::key_to_hash(&first) as usize % cap;
    let mut second = None;
    for i in 1..10000 {
        let k = format!("k{}", i);
        if MyHashMap::<i32>::key_to_hash(&k) as usize % cap == bucket {
            second = Some(k);
            break;
        }
    }
    let second = second.unwrap();
    let mut m: MyHashMap<i32> = MyHashMap::new();
    m.insert(&first, &10);
    m.insert(&second, &11);
    assert_eq!(m.get(&first), Some(&10));
    assert_eq!(m.get(&second), Some(&11));
}

#[test]
fn repeated_get_gives_same_answer() {
    let mut m: MyHashMap<i32> = MyHashMap::new();
    m.insert(&s("x"), &42);
    let a = m.get(&s("x")).copied();
    let b = m.get(&s("x")).copied();
    assert_eq!(a, b);
    assert_eq!(a, Some(42));
    assert_eq!(m.get(&s("y")), m.get(&s("y")));
}

#[test]
fn zero_capacity_is_refused() {
    assert_eq!(MyHashMap::<i32>::with_capacity(0).err(), Some(ConfigError::ZeroCapacity));
    assert!(MyHashMap::<i32>::with_capacity(7).is_ok());
}

#[test]
fn key_hash_is_default_hasher() {
    let key = s("Test");
    let mut h = DefaultHasher::new();
    key.hash(&mut h);
    assert_eq!(MyHashMap::<i32>::key_to_hash(&key), h.finish());
    assert_eq!(MyHashMap::<i32>::key_to_hash(&key), MyHashMap::<i32>::key_to_hash(&s("Test")));
    assert_ne!(MyHashMap::<i32>::key_to_hash(&s("a")), MyHashMap::<i32>::key_to_hash(&s("b")));
}

#[test]
fn node_upsert_and_search() {
    let mut n = Node::new(&s("a"), &1);
    assert_eq!(*n.value(), 1);
    n.upsert(&s("b"), &2);
    n.upsert(&s("c"), &3);
    n.upsert(&s("b"), &22);
    n.upsert(&s("a"), &11);
    assert_eq!(n.search_by_key(&s("a")).map(|x| *x.value()), Some(11));
    assert_eq!(n.search_by_key(&s("b")).map(|x| *x.value()), Some(22));
    assert_eq!(n.search_by_key(&s("c")).map(|x| *x.value()), Some(3));
    assert!(n.search_by_key(&s("d")).is_none());
}

#[test]
fn node_search_returns_rest_of_chain() {
    let mut n = Node::new(&s("a"), &1);
    n.upsert(&s("b"), &2);
    n.upsert(&s("c"), &3);
    let b = n.search_by_key(&s("b")).unwrap();
    assert_eq!(b.search_by_key(&s("c")).map(|x| *x.value()), Some(3));
    assert!(b.search_by_key(&s("a")).is_none());
}
