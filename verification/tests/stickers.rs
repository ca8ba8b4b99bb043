use flat_hypercube::stickers::{copy_position, same_position, StickerMap};

fn map_of(entries: &[(&[i16], i16)]) -> StickerMap {
    let mut map = StickerMap::new();
    for (pos, color) in entries {
        map.insert(pos.to_vec(), *color);
    }
    map
}

#[test]
fn insert_adds_and_overwrites() {
    let mut map = StickerMap::new();
    assert_eq!(map.len(), 0);
    assert_eq!(map.insert(vec![1, 0], 3), None);
    assert_eq!(map.insert(vec![0, 1], 4), None);
    assert_eq!(map.len(), 2);
    assert_eq!(map.insert(vec![1, 0], 7), Some(3));
    assert_eq!(map.len(), 2);
    assert_eq!(map.get(&[1, 0]), Some(7));
    assert_eq!(map.get(&[0, 1]), Some(4));
    assert_eq!(map.get(&[1, 1]), None);
    assert_eq!(map.index_of(&[0, 1]), Some(1));
    assert_eq!(map.index_of(&[5]), None);
    assert_eq!(map.keys(), vec![vec![1, 0], vec![0, 1]]);
}

#[test]
fn same_stickers_ignores_storage_order() {
    let a = map_of(&[(&[1, 0], 3), (&[0, 1], 4)]);
    let b = map_of(&[(&[0, 1], 4), (&[1, 0], 3)]);
    assert!(a.same_stickers(&b));
    assert!(b.same_stickers(&a));
    assert_eq!(a, b);
    assert_eq!(a, a.clone());

    let recoloured = map_of(&[(&[0, 1], 5), (&[1, 0], 3)]);
    assert!(!a.same_stickers(&recoloured));

    let bigger = map_of(&[(&[1, 0], 3), (&[0, 1], 4), (&[2, 2], 0)]);
    assert!(!a.same_stickers(&bigger));
    assert!(!bigger.same_stickers(&a));
    assert!(StickerMap::new().same_stickers(&StickerMap::new()));
}

#[test]
fn positions_compare_and_copy() {
    assert!(same_position(&[1, 2, 3], &[1, 2, 3]));
    assert!(!same_position(&[1, 2, 3], &[1, 2]));
    assert!(!same_position(&[1, 2, 3], &[1, 2, 4]));
    assert_eq!(copy_position(&[4, -4]), vec![4, -4]);
}
