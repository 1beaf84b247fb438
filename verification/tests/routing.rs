use subotai_core::hash::SubotaiHash;
use subotai_core::routing::{LookupResult, NodeAddress, NodeInfo, Table, K};

fn hash_with_bits(bits: &[usize]) -> SubotaiHash {
    let mut h = SubotaiHash::blank();
    for &b in bits {
        h.set_bit(b);
    }
    h
}

fn node(id: SubotaiHash, port: u16) -> NodeInfo {
    NodeInfo { id, address: NodeAddress { ip: 0x7f000001, port } }
}

fn all_nodes_count(table: &Table) -> usize {
    let mut iter = table.all_nodes();
    let mut count = 0;
    while iter.next().is_some() {
        count += 1;
    }
    count
}

#[test]
fn bounce_traversal_coverage() {
    let parent = SubotaiHash::blank();
    let table = {
        let mut table = Table::new(parent);
        table.insert_node(node(hash_with_bits(&[0]), 1));
        table.insert_node(node(hash_with_bits(&[1]), 2));
        table.insert_node(node(hash_with_bits(&[2]), 3));
        table.insert_node(node(hash_with_bits(&[159]), 4));
        table
    };

    let target = hash_with_bits(&[0, 1]);
    let result = table.lookup(&target, 3, None);
    match result {
        LookupResult::ClosestNodes(list) => {
            assert_eq!(list.len(), 3);
            // Distances to the target: 001, 010, 111 in the low bits.
            assert!(list[0].id == hash_with_bits(&[1]));
            assert!(list[1].id == hash_with_bits(&[0]));
            assert!(list[2].id == hash_with_bits(&[2]));
        },
        other => panic!("expected ClosestNodes, got {:?}", other),
    }
}

#[test]
fn eviction_and_revert() {
    let parent = SubotaiHash::blank();
    let mut table = Table::new(parent);

    // Fill one bucket (distance shell 8, bucket index 7) with K distinct
    // peers: bit 7 set, low bits encoding the peer's number.
    let mut ids = Vec::new();
    for i in 0..(K + 1) {
        let mut bits = vec![7usize];
        for b in 0..6 {
            if (i >> b) & 1 == 1 {
                bits.push(b);
            }
        }
        ids.push(hash_with_bits(&bits));
    }
    for i in 0..K {
        table.insert_node(node(ids[i].clone(), i as u16));
    }
    assert_eq!(all_nodes_count(&table), K);
    assert_eq!(table.conflicts().len(), 0);

    // One more insert into the full bucket evicts the oldest entry and
    // records exactly one conflict.
    table.insert_node(node(ids[K].clone(), K as u16));
    assert!(table.specific_node(&ids[0]).is_none());
    assert!(table.specific_node(&ids[K]).is_some());
    assert_eq!(table.conflicts().len(), 1);
    let conflict = table.conflicts()[0].clone();
    assert!(conflict.evicted.id == ids[0]);
    assert!(conflict.inserted.id == ids[K]);

    // Reverting the conflict puts the evicted peer back in the inserted
    // peer's slot, leaving the bucket size unchanged.
    table.revert_conflict(conflict);
    assert!(table.specific_node(&ids[0]).is_some());
    assert!(table.specific_node(&ids[K]).is_none());
    assert_eq!(all_nodes_count(&table), K);
}

#[test]
fn insert_is_idempotent() {
    let parent = SubotaiHash::blank();
    let mut table = Table::new(parent);
    let id = hash_with_bits(&[4, 2]);
    table.insert_node(node(id.clone(), 1));
    table.insert_node(node(id.clone(), 2));
    assert_eq!(all_nodes_count(&table), 1);
    assert_eq!(table.conflicts().len(), 0);
    // The refresh keeps the latest descriptor.
    assert_eq!(table.specific_node(&id).unwrap().address.port, 2);
}

#[test]
fn own_id_is_ignored() {
    let parent = hash_with_bits(&[5]);
    let mut table = Table::new(parent.clone());
    table.insert_node(node(parent.clone(), 1));
    assert_eq!(all_nodes_count(&table), 0);
    assert!(matches!(table.lookup(&parent, 3, None), LookupResult::Myself));
}

#[test]
fn lookup_finds_specific_node() {
    let parent = SubotaiHash::blank();
    let mut table = Table::new(parent);
    let id = hash_with_bits(&[10, 3]);
    table.insert_node(node(id.clone(), 9));
    match table.lookup(&id, 3, None) {
        LookupResult::Found(info) => {
            assert!(info.id == id);
            assert_eq!(info.address.port, 9);
        },
        other => panic!("expected Found, got {:?}", other),
    }
}

#[test]
fn lookup_on_empty_table_is_nothing() {
    let parent = SubotaiHash::blank();
    let table = Table::new(parent);
    let target = hash_with_bits(&[1]);
    assert!(matches!(table.lookup(&target, 3, None), LookupResult::Nothing));
}

#[test]
fn blacklisted_ids_are_excluded() {
    let parent = SubotaiHash::blank();
    let mut table = Table::new(parent);
    let near = hash_with_bits(&[0]);
    let far = hash_with_bits(&[2]);
    table.insert_node(node(near.clone(), 1));
    table.insert_node(node(far.clone(), 2));

    let target = hash_with_bits(&[0, 1]);
    let blacklist = vec![near.clone()];
    match table.lookup(&target, 3, Some(&blacklist)) {
        LookupResult::ClosestNodes(list) => {
            assert_eq!(list.len(), 1);
            assert!(list[0].id == far);
        },
        other => panic!("expected ClosestNodes, got {:?}", other),
    }

    // Blacklisting every peer leaves nothing to return.
    let blacklist_all = vec![near, far];
    assert!(matches!(
        table.lookup(&target, 3, Some(&blacklist_all)),
        LookupResult::Nothing
    ));
}

#[test]
fn closest_nodes_are_sorted_by_distance() {
    let parent = SubotaiHash::blank();
    let mut table = Table::new(parent);
    for bits in [&[0usize][..], &[1], &[3], &[4, 0], &[9], &[20, 5]] {
        table.insert_node(node(hash_with_bits(bits), 1));
    }
    let target = hash_with_bits(&[3, 1]);
    match table.lookup(&target, 4, None) {
        LookupResult::ClosestNodes(list) => {
            assert_eq!(list.len(), 4);
            for w in list.windows(2) {
                let d1 = w[0].id.xor(&target);
                let d2 = w[1].id.xor(&target);
                assert!(!d2.less(&d1));
            }
        },
        other => panic!("expected ClosestNodes, got {:?}", other),
    }
}

#[test]
fn all_nodes_walks_buckets_in_ascending_shells() {
    let parent = SubotaiHash::blank();
    let mut table = Table::new(parent.clone());
    for bits in [&[12usize][..], &[0], &[5, 1], &[5, 2], &[30]] {
        table.insert_node(node(hash_with_bits(bits), 1));
    }
    let mut iter = table.all_nodes();
    let mut heights = Vec::new();
    while let Some(info) = iter.next() {
        heights.push(info.id.xor(&parent).height());
    }
    assert_eq!(heights.len(), 5);
    for w in heights.windows(2) {
        assert!(w[0] <= w[1]);
    }
}

#[test]
fn hash_primitives() {
    let zero = SubotaiHash::blank();
    assert_eq!(zero.height(), 0);
    assert_eq!(hash_with_bits(&[0]).height(), 1);
    assert_eq!(hash_with_bits(&[159]).height(), 160);
    assert_eq!(hash_with_bits(&[7, 3]).height(), 8);

    let a = hash_with_bits(&[1, 3]);
    let b = hash_with_bits(&[3, 5]);
    assert!(a.xor(&b) == hash_with_bits(&[1, 5]));

    assert_eq!(hash_with_bits(&[2, 9]).ones(), vec![2, 9]);
    let zeroes = hash_with_bits(&[0]).zeroes();
    assert_eq!(zeroes.len(), 159);
    assert_eq!(zeroes[0], 1);

    assert!(hash_with_bits(&[1]).less(&hash_with_bits(&[2])));
    assert!(!hash_with_bits(&[2]).less(&hash_with_bits(&[1])));
    assert!(!hash_with_bits(&[2]).less(&hash_with_bits(&[2])));

    let origin = SubotaiHash::random();
    for d in [1usize, 5, 160] {
        let other = origin.random_at_distance(d);
        assert_eq!(origin.xor(&other).height(), d);
    }
}
