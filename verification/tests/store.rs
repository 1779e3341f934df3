use cinder::store::{bytes_equal, new_store};

#[test]
fn a_new_store_is_empty() {
    let store = new_store();
    assert_eq!(store.get(b"anything"), None);
}

#[test]
fn get_reads_what_set_wrote() {
    let mut store = new_store();
    store.set(b"k".to_vec(), b"v1".to_vec());
    assert_eq!(store.get(b"k"), Some(b"v1".to_vec()));
    store.set(b"k".to_vec(), b"v2".to_vec());
    assert_eq!(store.get(b"k"), Some(b"v2".to_vec()));
}

#[test]
fn set_keeps_other_keys() {
    let mut store = new_store();
    store.set(b"a".to_vec(), b"1".to_vec());
    store.set(b"b".to_vec(), b"2".to_vec());
    store.set(b"a".to_vec(), b"3".to_vec());
    assert_eq!(store.get(b"b"), Some(b"2".to_vec()));
    assert_eq!(store.get(b"a"), Some(b"3".to_vec()));
    assert_eq!(store.get(b"c"), None);
}

#[test]
fn keys_compare_byte_for_byte() {
    assert!(bytes_equal(b"abc", b"abc"));
    assert!(!bytes_equal(b"abc", b"abd"));
    assert!(!bytes_equal(b"ab", b"abc"));
}
