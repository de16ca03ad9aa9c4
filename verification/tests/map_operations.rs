use c_scape::{Block, InsertError, IntrusiveMap, Layout};

fn node_layout() -> Layout {
    IntrusiveMap::<u32, &'static str>::node_layout()
}

fn block(addr: usize) -> Block {
    Block { addr, layout: node_layout() }
}

#[test]
fn new_map_is_empty() {
    let mut map: IntrusiveMap<u32, &'static str> = IntrusiveMap::new();
    assert_eq!(map.len(), 0);
    assert_eq!(map.keys(), Vec::<u32>::new());
    assert_eq!(map.remove(&1), None);
    assert_eq!(map.clear(), Vec::<Block>::new());
}

#[test]
fn insert_then_replace_then_remove() {
    let mut map: IntrusiveMap<u32, &'static str> = IntrusiveMap::new();
    assert_eq!(map.insert(1, "a", 0x1000), Ok(None));
    assert_eq!(map.insert(2, "b", 0x2000), Ok(None));
    assert_eq!(map.insert(1, "c", 0x3000), Ok(Some(block(0x1000))));
    assert_eq!(map.remove(&1), Some(("c", block(0x3000))));
    assert_eq!(map.remove(&2), Some(("b", block(0x2000))));
    assert_eq!(map.remove(&1), None);
    assert_eq!(map.len(), 0);
}

#[test]
fn newest_value_wins() {
    let mut map: IntrusiveMap<i64, u8> = IntrusiveMap::new();
    assert_eq!(map.insert(-7, 1, 0x10), Ok(None));
    let replaced = map.insert(-7, 2, 0x20);
    assert_eq!(
        replaced,
        Ok(Some(Block { addr: 0x10, layout: IntrusiveMap::<i64, u8>::node_layout() }))
    );
    assert_eq!(map.len(), 1);
    let removed = map.remove(&-7);
    assert_eq!(
        removed,
        Some((2, Block { addr: 0x20, layout: IntrusiveMap::<i64, u8>::node_layout() }))
    );
    assert_eq!(map.remove(&-7), None);
}

#[test]
fn replacing_keeps_the_number_of_nodes() {
    let mut map: IntrusiveMap<u32, &'static str> = IntrusiveMap::new();
    map.insert(5, "x", 0x500).unwrap();
    map.insert(6, "y", 0x600).unwrap();
    assert_eq!(map.len(), 2);
    assert_eq!(map.insert(5, "z", 0x700), Ok(Some(block(0x500))));
    assert_eq!(map.len(), 2);
    assert_eq!(map.keys(), vec![5, 6]);
}

#[test]
fn remove_of_absent_key_changes_nothing() {
    let mut map: IntrusiveMap<u32, &'static str> = IntrusiveMap::new();
    map.insert(10, "ten", 0xa0).unwrap();
    map.insert(30, "thirty", 0xc0).unwrap();
    assert_eq!(map.remove(&20), None);
    assert_eq!(map.remove(&0), None);
    assert_eq!(map.remove(&40), None);
    assert_eq!(map.len(), 2);
    assert_eq!(map.keys(), vec![10, 30]);
    assert_eq!(map.remove(&10), Some(("ten", block(0xa0))));
    assert_eq!(map.remove(&30), Some(("thirty", block(0xc0))));
}

#[test]
fn remove_twice_returns_nothing_the_second_time() {
    let mut map: IntrusiveMap<u32, &'static str> = IntrusiveMap::new();
    map.insert(1, "a", 0x1000).unwrap();
    map.insert(2, "b", 0x2000).unwrap();
    assert_eq!(map.remove(&1), Some(("a", block(0x1000))));
    assert_eq!(map.remove(&1), None);
    assert_eq!(map.keys(), vec![2]);
    assert_eq!(map.remove(&2), Some(("b", block(0x2000))));
}

#[test]
fn null_address_is_out_of_memory() {
    let mut map: IntrusiveMap<u32, &'static str> = IntrusiveMap::new();
    assert_eq!(map.insert(1, "a", 0), Err(InsertError::OutOfMemory));
    assert_eq!(map.len(), 0);
    assert_eq!(map.remove(&1), None);
}

#[test]
fn failed_insert_leaves_the_old_entry() {
    let mut map: IntrusiveMap<u32, &'static str> = IntrusiveMap::new();
    map.insert(1, "a", 0x1000).unwrap();
    map.insert(2, "b", 0x2000).unwrap();
    assert_eq!(map.insert(1, "c", 0), Err(InsertError::OutOfMemory));
    assert_eq!(map.insert(3, "d", 0), Err(InsertError::OutOfMemory));
    assert_eq!(map.len(), 2);
    assert_eq!(map.keys(), vec![1, 2]);
    assert_eq!(map.remove(&1), Some(("a", block(0x1000))));
    assert_eq!(map.remove(&2), Some(("b", block(0x2000))));
}

#[test]
fn keys_come_out_in_ascending_order() {
    let mut map: IntrusiveMap<u32, u32> = IntrusiveMap::new();
    let scrambled = [50u32, 10, 40, 20, 30, 0, 60, 25, 5, 55];
    for (i, key) in scrambled.iter().enumerate() {
        assert_eq!(map.insert(*key, *key * 2, 0x100 + i), Ok(None));
    }
    assert_eq!(map.keys(), vec![0, 5, 10, 20, 25, 30, 40, 50, 55, 60]);
    assert_eq!(map.len(), 10);
}

#[test]
fn keys_are_ordered_by_the_comparison_of_the_key_type() {
    let mut map: IntrusiveMap<(i8, u8), char> = IntrusiveMap::new();
    map.insert((1, 0), 'c', 0x30).unwrap();
    map.insert((-1, 9), 'a', 0x10).unwrap();
    map.insert((1, 1), 'd', 0x40).unwrap();
    map.insert((0, 200), 'b', 0x20).unwrap();
    assert_eq!(map.keys(), vec![(-1, 9), (0, 200), (1, 0), (1, 1)]);

    let mut words: IntrusiveMap<&'static str, usize> = IntrusiveMap::new();
    words.insert("pear", 4, 0x1).unwrap();
    words.insert("apple", 5, 0x2).unwrap();
    words.insert("fig", 3, 0x3).unwrap();
    assert_eq!(words.keys(), vec!["apple", "fig", "pear"]);
}

#[test]
fn insert_at_front_middle_and_back() {
    let mut map: IntrusiveMap<u8, u8> = IntrusiveMap::new();
    map.insert(100, 1, 0x1).unwrap();
    map.insert(200, 2, 0x2).unwrap();
    assert_eq!(map.keys(), vec![100, 200]);
    map.insert(0, 3, 0x3).unwrap();
    assert_eq!(map.keys(), vec![0, 100, 200]);
    map.insert(150, 4, 0x4).unwrap();
    assert_eq!(map.keys(), vec![0, 100, 150, 200]);
    map.insert(255, 5, 0x5).unwrap();
    assert_eq!(map.keys(), vec![0, 100, 150, 200, 255]);
    let layout = IntrusiveMap::<u8, u8>::node_layout();
    assert_eq!(map.remove(&150), Some((4, Block { addr: 0x4, layout })));
    assert_eq!(map.keys(), vec![0, 100, 200, 255]);
    assert_eq!(map.remove(&0), Some((3, Block { addr: 0x3, layout })));
    assert_eq!(map.remove(&255), Some((5, Block { addr: 0x5, layout })));
    assert_eq!(map.keys(), vec![100, 200]);
}

#[test]
fn no_two_nodes_share_a_key_after_any_operation() {
    let mut map: IntrusiveMap<u32, u32> = IntrusiveMap::new();
    let mut state: u32 = 12345;
    let mut next_addr: usize = 0x1000;
    for step in 0..500u32 {
        state = state.wrapping_mul(1103515245).wrapping_add(12345);
        let key = (state >> 16) % 32;
        if step % 3 == 2 {
            map.remove(&key);
        } else {
            map.insert(key, step, next_addr).unwrap();
            next_addr += 0x40;
        }
        let keys = map.keys();
        assert_eq!(keys.len(), map.len());
        for pair in keys.windows(2) {
            assert!(pair[0] < pair[1]);
        }
    }
}

#[test]
fn clear_returns_every_block_in_key_order() {
    let mut map: IntrusiveMap<u32, &'static str> = IntrusiveMap::new();
    map.insert(3, "c", 0x30).unwrap();
    map.insert(1, "a", 0x10).unwrap();
    map.insert(2, "b", 0x20).unwrap();
    assert_eq!(map.insert(1, "z", 0x40), Ok(Some(block(0x10))));
    assert_eq!(map.clear(), vec![block(0x40), block(0x20), block(0x30)]);
    assert_eq!(map.len(), 0);
    assert_eq!(map.keys(), Vec::<u32>::new());
    assert_eq!(map.remove(&1), None);
    assert_eq!(map.insert(1, "again", 0x50), Ok(None));
    assert_eq!(map.remove(&1), Some(("again", block(0x50))));
}

#[test]
fn node_layout_is_a_valid_layout() {
    let layout = IntrusiveMap::<u64, [u8; 24]>::node_layout();
    assert!(layout.align.is_power_of_two());
    assert_eq!(layout.size % layout.align, 0);
    assert!(layout.size >= 8 + 24 + core::mem::size_of::<usize>());
    assert!(layout.align >= core::mem::align_of::<u64>());
    assert_eq!(layout, IntrusiveMap::<u64, [u8; 24]>::node_layout());
}

#[test]
fn every_released_block_carries_the_node_layout() {
    let layout = IntrusiveMap::<u16, u16>::node_layout();
    let mut map: IntrusiveMap<u16, u16> = IntrusiveMap::new();
    map.insert(1, 1, 0x8).unwrap();
    let replaced = map.insert(1, 2, 0x10).unwrap().unwrap();
    assert_eq!(replaced.layout, layout);
    assert_eq!(replaced.addr, 0x8);
    let (value, released) = map.remove(&1).unwrap();
    assert_eq!(value, 2);
    assert_eq!(released.layout, layout);
    assert_eq!(released.addr, 0x10);
}
