use linera_lite::key_value_store_view::KeyValueStoreView;
use linera_lite::memory::{Batch, MemoryContext, WriteOperation};
use sha2::Digest;

fn view_with(base: &[u8], entries: &[(&[u8], &[u8])]) -> KeyValueStoreView {
    let mut context = MemoryContext::new(base.to_vec());
    let mut batch = Batch::new();
    for (k, v) in entries {
        let mut key = base.to_vec();
        key.extend_from_slice(k);
        batch.put_key_value_bytes(key, v.to_vec());
    }
    context.write_batch(batch);
    KeyValueStoreView::load(context)
}

#[test]
fn insert_then_get_gives_the_value() {
    let mut view = view_with(b"b", &[]);
    view.insert(vec![1, 2], vec![9]);
    assert_eq!(view.get(&[1, 2]), Some(vec![9]));
    assert_eq!(view.get(&[1]), None);
    view.insert(vec![1, 2], vec![8]);
    assert_eq!(view.get(&[1, 2]), Some(vec![8]));
}

#[test]
fn remove_hides_a_stored_value() {
    let mut view = view_with(b"b", &[(b"k", b"v")]);
    assert_eq!(view.get(b"k"), Some(b"v".to_vec()));
    view.remove(b"k".to_vec());
    assert_eq!(view.get(b"k"), None);
    view.rollback();
    assert_eq!(view.get(b"k"), Some(b"v".to_vec()));
}

#[test]
fn clear_empties_the_view_until_rollback() {
    let mut view = view_with(b"b", &[(b"a", b"1"), (b"c", b"3")]);
    view.clear();
    assert_eq!(view.get(b"a"), None);
    assert!(view.indices().is_empty());
    view.insert(b"z".to_vec(), b"26".to_vec());
    assert_eq!(view.indices(), vec![b"z".to_vec()]);
    view.rollback();
    assert_eq!(view.indices(), vec![b"a".to_vec(), b"c".to_vec()]);
}

#[test]
fn indices_merge_stored_and_pending_in_order() {
    let mut view = view_with(b"b", &[(b"a", b"1"), (b"c", b"3"), (b"e", b"5")]);
    view.insert(b"d".to_vec(), b"4".to_vec());
    view.remove(b"c".to_vec());
    view.insert(b"a".to_vec(), b"one".to_vec());
    assert_eq!(view.indices(), vec![b"a".to_vec(), b"d".to_vec(), b"e".to_vec()]);
    let mut seen = std::cell::RefCell::new(Vec::new());
    let result: Result<(), ()> = view.for_each_index_value(|k, v| {
        seen.borrow_mut().push((k, v));
        Ok(())
    });
    assert!(result.is_ok());
    assert_eq!(
        seen.get_mut().clone(),
        vec![
            (b"a".to_vec(), b"one".to_vec()),
            (b"d".to_vec(), b"4".to_vec()),
            (b"e".to_vec(), b"5".to_vec())
        ]
    );
}

#[test]
fn for_each_index_stops_at_the_first_error() {
    let mut view = view_with(b"b", &[(b"a", b"1"), (b"b", b"2"), (b"c", b"3")]);
    view.insert(b"d".to_vec(), b"4".to_vec());
    let count = std::cell::Cell::new(0);
    let result = view.for_each_index(|k| {
        count.set(count.get() + 1);
        if k == b"b".to_vec() {
            Err(k)
        } else {
            Ok(())
        }
    });
    assert_eq!(result, Err(b"b".to_vec()));
    assert_eq!(count.get(), 2);
}

#[test]
fn flush_then_write_batch_keeps_what_the_view_shows() {
    let mut view = view_with(b"base", &[(b"a", b"1"), (b"b", b"2")]);
    view.insert(b"c".to_vec(), b"3".to_vec());
    view.remove(b"a".to_vec());
    let before = view.indices();
    let mut batch = Batch::new();
    view.flush(&mut batch);
    view.write_batch(batch);
    assert_eq!(view.indices(), before);
    assert_eq!(view.get(b"a"), None);
    assert_eq!(view.get(b"c"), Some(b"3".to_vec()));
    assert_eq!(view.read_key_bytes(b"basec"), Some(b"3".to_vec()));
    assert_eq!(view.read_key_bytes(b"basea"), None);
}

#[test]
fn flush_after_clear_removes_everything_under_the_base_key() {
    let mut view = view_with(b"x", &[(b"a", b"1"), (b"b", b"2")]);
    view.clear();
    view.insert(b"n".to_vec(), b"new".to_vec());
    let mut batch = Batch::new();
    view.flush(&mut batch);
    view.write_batch(batch);
    assert_eq!(view.indices(), vec![b"n".to_vec()]);
    assert_eq!(view.read_key_bytes(b"xa"), None);
}

#[test]
fn delete_writes_the_removal_of_the_base_key() {
    let view = view_with(b"x", &[(b"a", b"1")]);
    let mut batch = Batch::new();
    view.delete(&mut batch);
    let mut context = MemoryContext::new(b"x".to_vec());
    context.write_batch(batch);
    let reloaded = KeyValueStoreView::load(context);
    assert!(reloaded.indices().is_empty());
}

#[test]
fn find_stripped_keys_by_prefix_strips_the_prefix() {
    let mut view = view_with(b"", &[(b"pa", b"1"), (b"pb", b"2"), (b"q", b"3")]);
    view.insert(b"pc".to_vec(), b"4".to_vec());
    view.remove(b"pa".to_vec());
    let keys = view.find_stripped_keys_by_prefix(b"p");
    assert_eq!(keys, vec![b"b".to_vec(), b"c".to_vec()]);
    let entries = view.find_stripped_key_values_by_prefix(b"p");
    assert_eq!(entries, vec![(b"b".to_vec(), b"2".to_vec()), (b"c".to_vec(), b"4".to_vec())]);
}

#[test]
fn hash_depends_only_on_the_contents() {
    let mut a = view_with(b"a", &[(b"k", b"v")]);
    let mut b = view_with(b"b", &[]);
    b.insert(b"k".to_vec(), b"v".to_vec());
    let ha = a.hash();
    let hb = b.hash();
    assert_eq!(ha.len(), 64);
    assert_eq!(ha, hb);
    b.insert(b"k".to_vec(), b"w".to_vec());
    assert_ne!(b.hash(), ha);
}

#[test]
fn hash_of_the_empty_view() {
    let mut view = view_with(b"e", &[]);
    let expected = sha2::Sha512::digest(bcs::to_bytes(&0i32).unwrap()).to_vec();
    assert_eq!(view.hash(), expected);
}

#[test]
fn hash_is_sha512_of_entries_and_count() {
    let mut view = view_with(b"e", &[(b"a", b"1"), (b"b", b"22")]);
    let mut data = Vec::new();
    data.extend_from_slice(b"a1b22");
    data.extend_from_slice(&bcs::to_bytes(&2i32).unwrap());
    assert_eq!(view.hash(), sha2::Sha512::digest(&data).to_vec());
}

#[test]
fn remove_is_flushed_as_a_delete_unless_cleared() {
    let mut view = view_with(b"x", &[]);
    view.remove(b"k".to_vec());
    assert_eq!(view.get(b"k"), None);
    let mut batch = Batch::new();
    view.flush(&mut batch);
    assert_eq!(batch.operations.len(), 1);
    assert!(matches!(&batch.operations[0], WriteOperation::Delete { key } if key == b"xk"));

    let mut cleared = view_with(b"x", &[(b"k", b"v")]);
    cleared.clear();
    cleared.insert(b"k".to_vec(), b"w".to_vec());
    cleared.remove(b"k".to_vec());
    let mut batch = Batch::new();
    cleared.flush(&mut batch);
    assert_eq!(batch.operations.len(), 1);
    assert!(matches!(&batch.operations[0], WriteOperation::DeletePrefix { key_prefix } if key_prefix == b"x"));
}
