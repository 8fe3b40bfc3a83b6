use bitcask_core::btree::BTree;
use bitcask_core::index::IndexIterator;
use bitcask_core::index::Indexer;
use bitcask_core::log_record::LogRecordPos;
use bitcask_core::options::IteratorOptions;

fn pos(file_id: u32, offset: u64) -> LogRecordPos {
    LogRecordPos { file_id, offset, size: 1 }
}

fn keys_of(it: &mut bitcask_core::btree::BTreeIterator) -> Vec<Vec<u8>> {
    let mut out = Vec::new();
    while let Some((k, _)) = it.next() {
        out.push(k);
    }
    out
}

#[test]
fn overwrite_semantics() {
    let mut idx = BTree::new();
    let k = b"k".to_vec();
    let d1 = pos(1, 10);
    let d2 = pos(2, 20);
    assert_eq!(idx.put(k.clone(), d1), None);
    assert_eq!(idx.put(k.clone(), d2), Some(d1));
    assert_eq!(idx.get(k.clone()), Some(d2));
    assert_eq!(idx.delete(k.clone()), Some(d2));
    assert_eq!(idx.get(k.clone()), None);
    assert_eq!(idx.delete(k), None);
}

#[test]
fn get_and_delete_absent_key() {
    let mut idx = BTree::new();
    assert_eq!(idx.get(b"nope".to_vec()), None);
    assert_eq!(idx.delete(b"nope".to_vec()), None);
    idx.put(b"a".to_vec(), pos(1, 1));
    assert_eq!(idx.get(b"b".to_vec()), None);
}

#[test]
fn list_keys_ascending() {
    let mut idx = BTree::new();
    idx.put(b"b".to_vec(), pos(1, 1));
    idx.put(b"ab".to_vec(), pos(1, 2));
    idx.put(b"ad".to_vec(), pos(1, 3));
    idx.put(b"ac".to_vec(), pos(1, 4));
    let keys = idx.list_keys();
    assert_eq!(
        keys,
        vec![b"ab".to_vec(), b"ac".to_vec(), b"ad".to_vec(), b"b".to_vec()]
    );
}

#[test]
fn iterator_prefix_filter_forward_and_reverse() {
    let mut idx = BTree::new();
    for (i, k) in [&b"ab"[..], b"ac", b"b", b"ad"].iter().enumerate() {
        idx.put(k.to_vec(), pos(1, i as u64));
    }
    let mut it = idx.iterator(IteratorOptions { prefix: b"a".to_vec(), reverse: false });
    assert_eq!(
        keys_of(&mut it),
        vec![b"ab".to_vec(), b"ac".to_vec(), b"ad".to_vec()]
    );
    let mut rit = idx.iterator(IteratorOptions { prefix: b"a".to_vec(), reverse: true });
    assert_eq!(
        keys_of(&mut rit),
        vec![b"ad".to_vec(), b"ac".to_vec(), b"ab".to_vec()]
    );
}

#[test]
fn iterator_empty_prefix_yields_everything() {
    let mut idx = BTree::new();
    idx.put(b"x".to_vec(), pos(1, 1));
    idx.put(b"y".to_vec(), pos(1, 2));
    let mut it = idx.iterator(IteratorOptions { prefix: Vec::new(), reverse: false });
    assert_eq!(keys_of(&mut it), vec![b"x".to_vec(), b"y".to_vec()]);
}

#[test]
fn iterator_snapshot_is_immune_to_later_mutations() {
    let mut idx = BTree::new();
    idx.put(b"a".to_vec(), pos(1, 1));
    idx.put(b"b".to_vec(), pos(1, 2));
    let mut it = idx.iterator(IteratorOptions { prefix: Vec::new(), reverse: false });
    idx.put(b"c".to_vec(), pos(1, 3));
    idx.delete(b"a".to_vec());
    assert_eq!(keys_of(&mut it), vec![b"a".to_vec(), b"b".to_vec()]);
}

#[test]
fn seek_positions_on_key_both_directions() {
    let mut idx = BTree::new();
    for (i, k) in [&b"aa"[..], b"ab", b"ac", b"ad"].iter().enumerate() {
        idx.put(k.to_vec(), pos(1, i as u64));
    }
    let mut it = idx.iterator(IteratorOptions { prefix: Vec::new(), reverse: false });
    it.seek(b"ac".to_vec());
    let (k, _) = it.next().unwrap();
    assert_eq!(k, b"ac".to_vec());
    let (k, _) = it.next().unwrap();
    assert_eq!(k, b"ad".to_vec());

    let mut rit = idx.iterator(IteratorOptions { prefix: Vec::new(), reverse: true });
    rit.seek(b"ac".to_vec());
    let (k, _) = rit.next().unwrap();
    assert_eq!(k, b"ac".to_vec());
    let (k, _) = rit.next().unwrap();
    assert_eq!(k, b"ab".to_vec());
}

#[test]
fn seek_between_keys_lands_on_next() {
    let mut idx = BTree::new();
    for k in [&b"aa"[..], b"ac", b"ae"] {
        idx.put(k.to_vec(), pos(1, 0));
    }
    let mut it = idx.iterator(IteratorOptions { prefix: Vec::new(), reverse: false });
    it.seek(b"ab".to_vec());
    assert_eq!(it.next().unwrap().0, b"ac".to_vec());
    it.seek(b"zz".to_vec());
    assert_eq!(it.next(), None);
}

#[test]
fn rewind_restarts_iteration() {
    let mut idx = BTree::new();
    idx.put(b"a".to_vec(), pos(1, 1));
    idx.put(b"b".to_vec(), pos(1, 2));
    let mut it = idx.iterator(IteratorOptions { prefix: Vec::new(), reverse: false });
    assert_eq!(it.next().unwrap().0, b"a".to_vec());
    assert_eq!(it.next().unwrap().0, b"b".to_vec());
    assert_eq!(it.next(), None);
    it.rewind();
    assert_eq!(it.next().unwrap().0, b"a".to_vec());
}

#[test]
fn iterator_returns_descriptors() {
    let mut idx = BTree::new();
    let d = LogRecordPos { file_id: 5, offset: 77, size: 13 };
    idx.put(b"key".to_vec(), d);
    let mut it = idx.iterator(IteratorOptions { prefix: Vec::new(), reverse: false });
    let (k, got) = it.next().unwrap();
    assert_eq!(k, b"key".to_vec());
    assert_eq!(got, d);
}
