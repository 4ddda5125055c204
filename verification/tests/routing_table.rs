use nargun::id::{ID, ID_LEN};
use nargun::peer::{socketaddr_from_compact_bytes, Peer};
use nargun::routing_table::{sort_by_distance, Bucket, Node, Nodes, RoutingTable};

const K_NODE_PER_BUCKET: usize = 8;
const VALIDITY_MILLIS: u64 = 15 * 60 * 1000;

fn random_node() -> (ID, Peer) {
    let id = ID::new(rand::random());
    let raw_addr: [u8; 6] = rand::random();
    let addr = socketaddr_from_compact_bytes(&raw_addr).unwrap();
    (id, addr)
}

fn check_node_counts_at_idx(rt: &RoutingTable, idx: usize, good: usize, bad: usize, empty: usize) {
    let bucket = rt.bucket(idx);
    assert_eq!(bucket.iter_over_goods().len(), good);
    assert_eq!(bucket._count_bads(), bad);
    assert_eq!(bucket._count_empty(), empty);
}

fn zero_id_with_first(first: u8) -> ID {
    let mut arr = [0u8; ID_LEN];
    arr[0] = first;
    ID::new(arr)
}

#[test]
fn table_basic_setup() {
    let mut rt = RoutingTable::default();
    let (id, addr) = random_node();
    rt.insert_new_good(id, addr);
    assert!(rt.contains_node(&id))
}

#[test]
fn table_no_duplicates() {
    let mut rt = RoutingTable::default();
    let (id, addr) = random_node();
    rt.insert_new_good(id, addr);
    rt.insert_new_good(id, addr);
    rt.insert_new_good(id, addr);
    check_node_counts_at_idx(&rt, 0, 1, 0, 7);
}

#[test]
fn table_split() {
    let mut rt = RoutingTable::default();
    let (_, addr) = random_node();
    let mut id = *rt.own_id();

    for i in 0..K_NODE_PER_BUCKET {
        rt.insert_new_good(id, addr);
        id.flip_bit(0);
        id.flip_bit(i + 1);
    }

    rt.insert_new_good(id, addr);

    check_node_counts_at_idx(&rt, 0, 4, 0, 4);
    check_node_counts_at_idx(&rt, 1, 5, 0, 3);
}

#[test]
fn multi_split_insert() {
    let mut rt = RoutingTable::default();
    let (_, addr) = random_node();
    let mut id = *rt.own_id();

    for i in 0..K_NODE_PER_BUCKET {
        rt.insert_new_good(id, addr);
        id.flip_bit(1);
        id.flip_bit(i + 2);
    }

    rt.insert_new_good(id, addr);

    check_node_counts_at_idx(&rt, 0, 0, 0, 8);
    check_node_counts_at_idx(&rt, 1, 4, 0, 4);
    check_node_counts_at_idx(&rt, 2, 5, 0, 3);

    assert_eq!(rt.find_bucket_idx_by_id(&id), 2);
}

#[test]
fn table_find_exact_node() {
    let mut rt = RoutingTable::default();
    let (mut id, addr) = random_node();
    let og_id = id;

    for i in 0..20 {
        rt.insert_new_good(id, addr);
        id.flip_bit(i % 3);
        id.flip_bit(i + 3);
    }

    rt.insert_new_good(og_id, addr);

    let Some(nodes) = rt.find_node(&og_id) else {
        panic!("expected Some(Nodes), fount None");
    };
    let Nodes::Exact(exact) = nodes else {
        panic!("expected Nodes::Exact, fount Nodes::Closest");
    };
    assert_eq!(exact.id, og_id);
}

#[test]
fn table_find_closest_nodes() {
    let mut rt = RoutingTable::default();
    let (target_id, _) = random_node();

    for _ in 0..260 {
        let (id, addr) = random_node();
        rt.insert_new_good(id, addr);
    }

    let Some(nodes) = rt.find_node(&target_id) else {
        panic!("expected Some(Nodes), fount None");
    };
    let Nodes::Closest(closest) = nodes else {
        panic!("expected Nodes::Closest, fount Nodes::Exact");
    };

    assert!(target_id.xor(&closest[0].id) < target_id.xor(&closest[1].id));
}

#[test]
fn table_iterator() {
    let mut rt = RoutingTable::with_own_id(zero_id_with_first(0b1111_1111));
    let (_, addr) = random_node();

    let zeros = [
        zero_id_with_first(0b0000_0000),
        zero_id_with_first(0b0001_0000),
        zero_id_with_first(0b0010_0000),
        zero_id_with_first(0b0011_0000),
        zero_id_with_first(0b0100_0000),
        zero_id_with_first(0b0101_0000),
        zero_id_with_first(0b0110_0000),
    ];
    for id in zeros {
        rt.insert_new_good(id, addr);
    }

    let ones = [
        zero_id_with_first(0b1000_0000),
        zero_id_with_first(0b1001_0000),
        zero_id_with_first(0b1010_0000),
        zero_id_with_first(0b1011_0000),
        zero_id_with_first(0b1100_0000),
        zero_id_with_first(0b1101_0000),
        zero_id_with_first(0b1110_0000),
    ];
    for id in ones {
        rt.insert_new_good(id, addr);
    }

    {
        let ids = rt.iter_over_ids_within_fillable_buckets();
        assert_eq!(2, ids.len());
        assert!(!ids[0].get_bit(0));
        assert!(ids[1].get_bit(0));
    }

    {
        rt.insert_new_good(zero_id_with_first(0b0111_0000), addr);
        let ids = rt.iter_over_ids_within_fillable_buckets();
        assert_eq!(1, ids.len());
        assert!(ids[0].get_bit(0));
    }

    {
        // this fills own_id bucket but its still splittable
        rt.insert_new_good(zero_id_with_first(0b1111_0000), addr);
        let ids = rt.iter_over_ids_within_fillable_buckets();
        assert_eq!(1, ids.len());
        assert!(ids[0].get_bit(0));
    }

    {
        // after split
        rt.insert_new_good(zero_id_with_first(0b1100_0001), addr);
        let ids = rt.iter_over_ids_within_fillable_buckets();
        assert_eq!(2, ids.len());
        assert!(ids[0].get_bit(0));
        assert!(!ids[0].get_bit(1));
        assert!(ids[1].get_bit(0));
        assert!(ids[1].get_bit(1));
    }
}

#[test]
fn insert() {
    let mut bucket = Bucket::new(0);

    let nodes: Vec<(ID, Peer)> = (0..K_NODE_PER_BUCKET).map(|_| random_node()).collect();

    let base: u64 = 1_000_000;
    for (i, (id, addr)) in nodes.iter().enumerate() {
        assert!(bucket.try_insert_at(id, addr, base + i as u64).is_ok());
    }

    // reinsert does touch
    let later = base + 100;
    assert!(bucket.try_insert_at(&nodes[0].0, &nodes[0].1, later).is_ok());
    let seen = |id: &ID| bucket.get_node(id).unwrap().last_seen.unwrap();
    assert!(seen(&nodes[0].0) > seen(&nodes[1].0));
    assert!(seen(&nodes[2].0) > seen(&nodes[1].0));

    // can't insert in full
    let (id, addr) = random_node();
    assert!(bucket.try_insert_at(&id, &addr, later).is_err());

    // can insert in expired
    let expired_at = base + 2 + VALIDITY_MILLIS;
    for (i, (nid, naddr)) in nodes.iter().enumerate() {
        if i != 2 {
            assert!(bucket.try_insert_at(nid, naddr, expired_at).is_ok());
        }
    }
    assert!(bucket.try_insert_at(&id, &addr, expired_at).is_ok());
    assert!(bucket.contains(&id));
    assert!(!bucket.contains(&nodes[2].0));
}

#[test]
fn bucket_split() {
    let depth = 3;
    let mut bucket = Bucket::new(depth);

    let nodes = [
        0b0110_0000u8,
        0b0110_0100,
        0b0110_1000,
        0b0110_1100,
        0b0111_0000,
        0b0111_0100,
        0b0111_1100,
    ]
    .map(|first_byte| {
        let id = zero_id_with_first(first_byte);
        let raw_addr: [u8; 6] = rand::random();
        let addr = socketaddr_from_compact_bytes(&raw_addr).unwrap();
        (id, addr)
    });

    for (id, addr) in nodes.iter() {
        assert!(bucket.try_insert(id, addr).is_ok());
    }

    let (zero, one) = bucket.split();

    assert_eq!(4, zero.iter_over_goods().len());
    assert_eq!(4, zero._count_empty());

    assert_eq!(3, one.iter_over_goods().len());
    assert_eq!(5, one._count_empty());

    assert_eq!(depth + 1, zero.depth());
    assert_eq!(depth + 1, one.depth());
}

#[test]
fn node_goodness_follows_validity_period() {
    let (id, addr) = random_node();
    let mut n = Node::new_good_at(id, addr, 1000);
    assert!(n.is_good_at(1000 + VALIDITY_MILLIS - 1));
    assert!(!n.is_good_at(1000 + VALIDITY_MILLIS));
    assert!(!n.is_bad_at(1000 + VALIDITY_MILLIS));
    assert!(n.is_bad_at(1001 + VALIDITY_MILLIS));
    n.touch_at(5000);
    assert_eq!(n.last_seen, Some(5000));
}

#[test]
fn closest_nodes_come_sorted() {
    let target = zero_id_with_first(0);
    let (_, addr) = random_node();
    let ids = [0b1000_0000u8, 0b0000_0001, 0b0100_0000, 0b0000_1000];
    let nodes: Vec<Node> = ids
        .iter()
        .map(|f| Node::new_good_at(zero_id_with_first(*f), addr, 0))
        .collect();
    let sorted = sort_by_distance(nodes, &target);
    let firsts: Vec<u8> = sorted.iter().map(|n| n.id.0[0]).collect();
    assert_eq!(firsts, vec![0b0000_0001, 0b0000_1000, 0b0100_0000, 0b1000_0000]);
}

#[test]
fn table_splits_until_the_node_falls_outside_the_last_bucket() {
    let own = zero_id_with_first(0);
    let mut rt = RoutingTable::with_own_id(own);
    let (_, addr) = random_node();
    for f in 1..=9u8 {
        rt.insert_new_good_at(zero_id_with_first(f), addr, 10);
    }
    // the ninth node first differs from the own identifier at the depth of the last bucket
    // once four splits have been made, and is then turned away
    assert_eq!(rt.bucket_count(), 5);
    for f in 1..=8u8 {
        assert!(rt.contains_node(&zero_id_with_first(f)));
    }
    assert!(!rt.contains_node(&zero_id_with_first(9)));
    assert_eq!(rt.iter_nodes().len(), 8);
}
