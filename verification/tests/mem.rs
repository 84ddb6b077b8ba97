use calico::cas::{CasError, CasStore};
use calico::mem::MemStore;

#[test]
fn create_get_roundtrip() {
    let mut s: MemStore<i32> = MemStore::new();
    let v = s.create("a", 1).unwrap();
    assert_eq!(s.get("a"), Some(v));
}

#[test]
fn create_twice_conflicts() {
    let mut s: MemStore<i32> = MemStore::new();
    s.create("a", 1).unwrap();
    assert_eq!(s.create("a", 2), Err(CasError::AlreadyExists));
}

#[test]
fn update_requires_matching_revision() {
    let mut s: MemStore<i32> = MemStore::new();
    let v = s.create("a", 1).unwrap();
    let stale = v.revision;
    let v2 = s.update("a", 2, stale).unwrap();
    assert_eq!(v2.value, 2);
    assert!(v2.revision != stale);
    assert_eq!(
        s.update("a", 3, stale),
        Err(CasError::Conflict {
            expected: stale,
            actual: Some(v2.revision)
        })
    );
}

#[test]
fn update_missing_is_not_found() {
    let mut s: MemStore<i32> = MemStore::new();
    assert_eq!(s.update("x", 1, 1), Err(CasError::NotFound));
}

#[test]
fn delete_requires_matching_revision() {
    let mut s: MemStore<i32> = MemStore::new();
    let v = s.create("a", 1).unwrap();
    assert_eq!(
        s.delete("a", v.revision + 999),
        Err(CasError::Conflict {
            expected: v.revision + 999,
            actual: Some(v.revision)
        })
    );
    s.delete("a", v.revision).unwrap();
    assert_eq!(s.get("a"), None);
}

#[test]
fn list_by_prefix() {
    let mut s: MemStore<i32> = MemStore::new();
    s.create("aff/host1/10.0.0.0-26", 1).unwrap();
    s.create("aff/host1/10.0.1.0-26", 2).unwrap();
    s.create("aff/host2/10.0.2.0-26", 3).unwrap();
    assert_eq!(s.list("aff/host1/").len(), 2);
    assert_eq!(s.list("aff/").len(), 3);
}

#[test]
fn revisions_are_numbered_across_keys() {
    let mut s: MemStore<i32> = MemStore::new();
    assert_eq!(s.revision(), 0);
    assert!(s.is_empty());
    assert_eq!(s.create("a", 1).unwrap().revision, 1);
    assert_eq!(s.create("b", 1).unwrap().revision, 2);
    assert_eq!(s.update("a", 2, 1).unwrap().revision, 3);
    assert_eq!(s.revision(), 3);
    assert_eq!(s.len(), 2);
    assert_eq!(s.create("c", 1).unwrap().revision, 4);
}

#[test]
fn the_revision_counts_successful_writes() {
    let mut s: MemStore<i32> = MemStore::new();
    assert_eq!(s.revision(), 0);
    let first = s.create("a", 1).unwrap();
    assert_eq!(first.clone(), first);
    assert_eq!(first.revision, 1);
    assert!(s.create("a", 2).is_err());
    assert!(s.update("a", 2, 7).is_err());
    assert_eq!(s.update("a", 2, 1).unwrap().revision, 2);
    s.delete("a", 2).unwrap();
    assert_eq!(s.revision(), 2);
    // What was read before the deletion is refused after it.
    assert_eq!(s.create("a", 3).unwrap().revision, 3);
    assert_eq!(
        s.update("a", 4, 2),
        Err(CasError::Conflict {
            expected: 2,
            actual: Some(3)
        })
    );
    assert_eq!(
        s.delete("a", 1),
        Err(CasError::Conflict {
            expected: 1,
            actual: Some(3)
        })
    );
    assert_eq!(s.revision(), 3);
}

#[test]
fn the_default_store_numbers_from_zero() {
    let mut s: MemStore<i32> = MemStore::default();
    assert!(s.is_empty());
    assert_eq!(s.revision(), 0);
    assert_eq!(s.create("a", 1).unwrap().revision, 0);
    assert_eq!(s.revision(), 0);
    assert_eq!(s.create("b", 1).unwrap().revision, 1);
    assert_eq!(s.revision(), 1);
    assert_eq!(
        s.update("a", 2, 7),
        Err(CasError::Conflict {
            expected: 7,
            actual: Some(0)
        })
    );
    assert_eq!(s.update("a", 2, 0).unwrap().revision, 2);
    s.delete("a", 2).unwrap();
    assert_eq!(s.create("a", 3).unwrap().revision, 3);
    assert_eq!(s.get("a").unwrap().revision, 3);
}

#[test]
fn refusals_change_nothing() {
    let mut s: MemStore<i32> = MemStore::new();
    assert_eq!(s.delete("a", 1), Err(CasError::NotFound));
    s.create("a", 7).unwrap();
    assert!(s.create("a", 8).is_err());
    assert!(s.update("a", 8, 9).is_err());
    assert!(s.delete("a", 9).is_err());
    assert_eq!(s.get("a").unwrap().value, 7);
    assert_eq!(s.revision(), 1);
}

#[test]
fn store_errors_in_words() {
    assert_eq!(CasError::NotFound.text(), "resource does not exist");
    assert_eq!(CasError::AlreadyExists.text(), "resource already exists");
    assert_eq!(
        CasError::Backend("boom".to_string()).text(),
        "datastore backend error: boom"
    );
    assert_eq!(
        CasError::Conflict {
            expected: 3,
            actual: Some(41)
        }
        .text(),
        "update conflict: expected revision 3, store has Some(41)"
    );
    assert_eq!(
        CasError::Conflict {
            expected: 0,
            actual: None
        }
        .text(),
        "update conflict: expected revision 0, store has None"
    );
}
