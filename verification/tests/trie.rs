use chess_positions::persistance::{PositionSegment, PositionTrie, PositionTrieAddress};

#[test]
#[allow(non_snake_case)]
fn test_create_position_trie_Address() {
    let pt_add = PositionTrieAddress {
        value: [1, 1, 1, 1, 1, 1, 1, 1, 1, 1, 1, 1, 1, 1, 1, 1],
    };
    let _ = pt_add;
}

#[test]
fn test_create_trie() {
    let mut ptree = PositionTrie::new();
    let pt_add = PositionSegment::calculate_position_tree_address(1, 2, 3, 4);
    let res = ptree.insert(&pt_add);
    // new position should not have any level matches
    println!("insert pt_add, res {}", res);
    assert!(res == 0);

    // inserting the same position results in hits to all levels (e.g. 15)
    let res2 = ptree.insert(&pt_add);
    println!("insert pt_add, res2 {}", res2);
    assert!(res2 == 15);

    // changing the position somewhat will result in a level between 0 and 15, exclusive
    let pt2_add = PositionSegment::calculate_position_tree_address(1, 7, 8, 9);
    let res3 = ptree.insert(&pt2_add);
    println!("insert pt2_add, res3 {}", res3);
    assert!(res3 == 7);

    ptree.statt();
}

#[test]
fn trie_diverging_after_first_chunk() {
    // two addresses sharing exactly their first 16-bit chunk
    let mut trie = PositionTrie::new();
    let a = PositionTrieAddress {
        value: [9, 1, 2, 3, 4, 5, 6, 7, 8, 9, 10, 11, 12, 13, 14, 15],
    };
    let b = PositionTrieAddress {
        value: [9, 99, 2, 3, 4, 5, 6, 7, 8, 9, 10, 11, 12, 13, 14, 15],
    };
    assert_eq!(trie.insert(&a), 0);
    assert_eq!(trie.insert(&b), 1);
}

#[test]
fn trie_stats_report_counts_levels() {
    let mut trie = PositionTrie::new();
    let report = trie.statt();
    assert_eq!(report.len(), 16);
    // an empty trie has one node: the root at level 0
    assert_eq!(report[0], (1, 0));
    assert_eq!(report[1], (0, 0));

    let a = PositionSegment::calculate_position_tree_address(1, 2, 3, 4);
    trie.insert(&a);
    let report = trie.statt();
    // fifteen of the sixteen chunks were inserted below the root
    assert_eq!(report[0], (1, 1));
    assert_eq!(report[1], (1, 1));
    assert_eq!(report[15], (1, 0));
}

#[test]
fn trie_address_chunks_are_big_endian() {
    let addr = PositionSegment::calculate_position_tree_address(
        0x0001_0002_0003_0004,
        0x1111_2222_3333_4444,
        0,
        u64::MAX,
    );
    assert_eq!(
        addr.value,
        [
            1, 2, 3, 4, 0x1111, 0x2222, 0x3333, 0x4444, 0, 0, 0, 0, 0xffff, 0xffff, 0xffff, 0xffff
        ]
    );
}
