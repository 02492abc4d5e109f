use lib::string_pool::string_pool::{StrId, StringPool};

#[test]
fn test_create_string_pool() {
    let string_pool = StringPool::default();
    assert!(string_pool.is_empty());
    assert_eq!(string_pool.len(), 0);
}

#[test]
fn test_intern() {
    let mut string_pool = StringPool::default();
    let goblin_id = string_pool.intern("Goblin");
    let goblin_id2 = string_pool.intern("Goblin");
    assert_eq!(goblin_id, goblin_id2);
    assert!(!string_pool.is_empty());
    assert_eq!(string_pool.len(), 1);

    let orc_id = string_pool.intern("Orc");
    assert_eq!(string_pool.len(), 2);
    assert_ne!(goblin_id, orc_id);

    for _ in 0..10 {
        let orc_id_i = string_pool.intern("Orc");
        assert_eq!(string_pool.len(), 2);
        assert_eq!(orc_id_i, orc_id);
    }
}

#[test]
fn test_resolve() {
    let mut string_pool = StringPool::default();
    let goblin_id = string_pool.intern("Goblin");
    let _ = string_pool.intern("Goblin");
    let orc_id = string_pool.intern("Orc");
    assert_eq!(string_pool.resolve(goblin_id), Some("Goblin"));
    assert_eq!(string_pool.resolve(orc_id), Some("Orc"));
    assert_eq!(string_pool.resolve(StrId(2)), None);
}

#[test]
fn test_contains() {
    let mut string_pool = StringPool::default();
    let goblin_id = string_pool.intern("Goblin");
    let goblin_id2 = string_pool.intern("Goblin");
    let orc_id = string_pool.intern("Orc");

    assert!(string_pool.contains("Goblin"));
    assert!(!string_pool.contains("goblin"));
    assert!(string_pool.contains_id(goblin_id));
    assert!(string_pool.contains_id(goblin_id2));
    assert!(string_pool.contains_id(orc_id));
    assert!(!string_pool.contains_id(StrId(2)));
    assert!(string_pool.contains_id(StrId(1)));
}

#[test]
fn string_pool_test_iter() {
    let mut pool = StringPool::new();
    let _ = pool.intern("Goblin");
    let _ = pool.intern("Orc");
    let _ = pool.intern("Troll");

    let mut collected: Vec<&str> = Vec::new();
    let mut it = pool.iter();
    while let Some(s) = it.next() {
        collected.push(s);
    }
    assert_eq!(collected, vec!["Goblin", "Orc", "Troll"]);
}

#[test]
fn string_pool_test_into_iter() {
    let mut pool = StringPool::new();
    pool.intern("Goblin");
    pool.intern("Orc");

    let collected: Vec<_> = pool.into_iter().collect();
    assert_eq!(collected, vec!["Goblin".to_string(), "Orc".to_string()]);
}

#[test]
fn test_from_iter() {
    let names = vec!["Goblin", "Orc", "Troll"];
    let pool: StringPool = StringPool::from_iter(names.clone());

    assert_eq!(pool.len(), names.len());

    for name in names {
        assert!(pool.contains(name));
    }
}

#[test]
fn dbg_renders_id_and_string() {
    let mut pool = StringPool::new();
    let goblin = pool.intern("Goblin");
    assert_eq!(pool.dbg(goblin).render(), "StrId(0:\"Goblin\")");
    assert_eq!(pool.dbg(StrId(42)).render(), "StrId(42:\"<invalid>\")");
    for i in 0..12 {
        pool.intern(&format!("name{}", i));
    }
    assert_eq!(pool.dbg(StrId(12)).render(), "StrId(12:\"name11\")");
}

#[test]
fn from_iter_keeps_first_occurrences_once() {
    let pool = StringPool::from_iter(vec!["a", "b", "a", "c", "b"]);
    assert_eq!(pool.len(), 3);
    assert_eq!(pool.resolve(StrId(0)), Some("a"));
    assert_eq!(pool.resolve(StrId(1)), Some("b"));
    assert_eq!(pool.resolve(StrId(2)), Some("c"));
}

#[test]
fn ids_are_stable_and_distinct() {
    let mut pool = StringPool::new();
    let a = pool.intern("a");
    let b = pool.intern("b");
    let a2 = pool.intern("a");
    assert_eq!(a, a2);
    assert_ne!(a, b);
    assert_eq!(a, StrId(0));
    assert_eq!(b, StrId(1));
    assert_eq!(pool.resolve(a), Some("a"));
    let _ = pool.intern("");
    assert_eq!(pool.resolve(StrId(2)), Some(""));
    assert_eq!(pool.resolve(a), Some("a"));
}

#[test]
fn id_keeps_resolving_after_many_interns() {
    let mut pool = StringPool::default();
    let orc = pool.intern("Orc");
    for i in 0..50 {
        pool.intern(&format!("monster{}", i));
        assert_eq!(pool.resolve(orc), Some("Orc"));
    }
    assert_eq!(pool.intern("Orc"), orc);
}
