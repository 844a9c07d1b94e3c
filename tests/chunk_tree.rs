use fresh::chunk_tree::ChunkTree;

#[test]
fn test_empty_tree() {
    let tree = ChunkTree::<2>::new();
    assert!(tree.is_empty());
    assert_eq!(tree.len(), 0);
    assert_eq!(tree.collect_bytes(), vec![]);
}

#[test]
fn test_from_slice() {
    let data = b"Hello World!";
    let tree = ChunkTree::<2>::from_slice(data);
    assert!(!tree.is_empty());
    assert_eq!(tree.len(), data.len());
    assert_eq!(tree.collect_bytes(), b"Hello World!");
}

#[test]
fn test_insert_middle() {
    let tree = ChunkTree::<2>::from_slice(b"Hello World!");
    let tree = tree.insert(5, b" beautiful");
    assert_eq!(tree.collect_bytes(), b"Hello beautiful World!");
}

#[test]
fn test_insert_start() {
    let tree = ChunkTree::<2>::from_slice(b"World!");
    let tree = tree.insert(0, b"Hello ");
    assert_eq!(tree.collect_bytes(), b"Hello World!");
}

#[test]
fn test_insert_end() {
    let tree = ChunkTree::<2>::from_slice(b"Hello");
    let tree = tree.insert(5, b" World!");
    assert_eq!(tree.collect_bytes(), b"Hello World!");
}

#[test]
fn test_remove_middle() {
    let tree = ChunkTree::<2>::from_slice(b"Hello beautiful World!");
    let tree = tree.remove(5..15);
    assert_eq!(tree.collect_bytes(), b"Hello World!");
}

#[test]
fn test_remove_start() {
    let tree = ChunkTree::<2>::from_slice(b"Hello World!");
    let tree = tree.remove(0..6);
    assert_eq!(tree.collect_bytes(), b"World!");
}

#[test]
fn test_remove_end() {
    let tree = ChunkTree::<2>::from_slice(b"Hello World!");
    let tree = tree.remove(5..12);
    assert_eq!(tree.collect_bytes(), b"Hello");
}

#[test]
fn test_insert_all_ranges() {
    let initial = b"Hello World!";
    let tree = ChunkTree::<2>::from_slice(initial);
    for pos in 0..=initial.len() {
        for len in 0..=initial.len() {
            let data = ("0123456789abcdefgh"[0..len]).as_bytes();

            let mut reference = Vec::from(&initial[..]);
            reference.splice(pos..pos, data.iter().cloned());
            let modified_tree = tree.insert(pos, &data);
            assert_eq!(modified_tree.collect_bytes(), reference);
            if len > 0 {
                assert_ne!(modified_tree.collect_bytes(), tree.collect_bytes());
            } else {
                assert_eq!(modified_tree.collect_bytes(), tree.collect_bytes());
            }
        }
    }
}

#[test]
fn test_remove_all_ranges() {
    let initial = b"Hello World!";
    let tree = ChunkTree::<2>::from_slice(initial);
    for pos in 0..initial.len() {
        for len in 0..=initial.len() {
            let range = pos..std::cmp::min(pos + len, tree.len());
            let mut reference = Vec::from(&initial[..]);
            reference.splice(range.clone(), []);
            let modified_tree = tree.remove(range);
            assert_eq!(modified_tree.collect_bytes(), reference);
            if len > 0 {
                assert_ne!(modified_tree.collect_bytes(), tree.collect_bytes());
            } else {
                assert_eq!(modified_tree.collect_bytes(), tree.collect_bytes());
            }
        }
    }
}

#[test]
fn insert_keeps_the_old_root_readable() {
    let t1 = ChunkTree::<2>::from_slice(b"Hello World!");
    let t2 = t1.insert(5, b" beautiful");
    let t3 = t2.remove(0..6);
    assert_eq!(t1.collect_bytes(), b"Hello World!");
    assert_eq!(t2.collect_bytes(), b"Hello beautiful World!");
    assert_eq!(t3.collect_bytes(), b"beautiful World!");
}

#[test]
fn remove_empty_range_from_empty_tree() {
    let tree = ChunkTree::<3>::new();
    let tree = tree.remove(0..0);
    assert!(tree.is_empty());
    let tree = tree.remove(3..1);
    assert!(tree.is_empty());
    assert_eq!(tree.collect_bytes(), vec![]);
}

#[test]
fn byte_at_reads_through_edits() {
    let tree = ChunkTree::<2>::from_slice(b"abcdef").insert(3, b"XYZ").remove(1..2);
    let all = tree.collect_bytes();
    assert_eq!(all, b"acXYZdef");
    for i in 0..all.len() {
        assert_eq!(tree.byte_at(i), all[i]);
    }
}

#[test]
fn insert_into_empty_tree() {
    let tree = ChunkTree::<4>::new().insert(0, b"0123456789");
    assert_eq!(tree.len(), 10);
    assert_eq!(tree.collect_bytes(), b"0123456789");
}

#[test]
fn collect_bytes_into_appends() {
    let tree = ChunkTree::<2>::from_slice(b"World");
    let mut out = b"Hello ".to_vec();
    tree.collect_bytes_into(&mut out);
    assert_eq!(out, b"Hello World");
}
