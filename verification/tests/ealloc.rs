use std::collections::BTreeSet;
use std::ops::Range;

use dynec::entity::ealloc::{distribute_sorted, BTreeHint, Ealloc, Recycling, StaticShardAssigner};

fn check_distribute_sorted<const N: usize>(sample: [usize; N], cases: Vec<(usize, [usize; N])>) {
    for (total, simulation) in cases {
        // assert correctness of the test case
        assert_eq!(sample.into_iter().sum::<usize>() + total, simulation.into_iter().sum());

        let mut copy = sample;
        distribute_sorted(&mut copy, total);

        assert_eq!(copy, simulation);
    }
}

#[test]
fn test_distribute_sorted_113367() {
    check_distribute_sorted(
        [1, 1, 3, 3, 6, 7],
        vec![
            (1, [1, 2, 3, 3, 6, 7]),
            (2, [2, 2, 3, 3, 6, 7]),
            (3, [2, 3, 3, 3, 6, 7]),
            (4, [3, 3, 3, 3, 6, 7]),
            (5, [3, 3, 3, 4, 6, 7]),
            (7, [3, 4, 4, 4, 6, 7]),
            (8, [4, 4, 4, 4, 6, 7]),
            (10, [4, 4, 5, 5, 6, 7]),
            (15, [5, 6, 6, 6, 6, 7]),
            (16, [6, 6, 6, 6, 6, 7]),
            (17, [6, 6, 6, 6, 7, 7]),
            (22, [7, 7, 7, 7, 7, 8]),
        ],
    );
}

#[test]
fn test_distribute_sorted_000() {
    check_distribute_sorted([0, 0, 0], vec![(5, [1, 2, 2])]);
}

type BTree = Recycling<BTreeSet<u32>, StaticShardAssigner>;

fn recycled(ealloc: &BTree, shard: usize) -> Vec<u32> {
    ealloc.shard(shard).recycler().iter().copied().collect()
}

#[test]
fn tests_test_realloc_freed() {
    let mut ealloc = BTree::new(3);

    // use the first shard
    ealloc.set_shard_assigner(StaticShardAssigner { allocating_shard: 0 });

    let alloc1: Vec<u32> = (0..5).map(|_| ealloc.allocate(BTreeHint::default())).collect();

    assert_eq!(alloc1[0], 1, "Shards should allocate in order from global gauge");
    assert_eq!(alloc1[1], 2, "Shards should allocate in order from global gauge");
    assert_eq!(alloc1[2], 3, "Shards should allocate in order from global gauge");
    assert_eq!(alloc1[3], 4, "Shards should allocate in order from global gauge");
    assert_eq!(alloc1[4], 5, "Shards should allocate in order from global gauge");

    for &id in &alloc1 {
        ealloc.queue_deallocate(id);
    }

    ealloc.flush();

    // this distribution is the same as test_distribute_sorted_000.
    assert_eq!(recycled(&ealloc, 0), vec![alloc1[0]]);
    assert_eq!(recycled(&ealloc, 1), vec![alloc1[1], alloc1[2]]);
    assert_eq!(recycled(&ealloc, 2), vec![alloc1[3], alloc1[4]]);

    assert_eq!(ealloc.recyclable_len(), 5, "recyclable should be refilled by queue_deallocate");

    // now we switch to shard 1 by default for offline allocation
    ealloc.set_shard_assigner(StaticShardAssigner { allocating_shard: 1 });

    let alloc2: Vec<u32> = (0..5).map(|_| ealloc.allocate(BTreeHint::default())).collect();

    assert!(ealloc.shard(1).recycler().is_empty(), "alloc2[0..2] should be allocated from recycler");
    assert_eq!(alloc2[0], alloc1[1], "alloc2[0..2] should be allocated from recycler");
    assert_eq!(alloc2[1], alloc1[2], "alloc2[0..2] should be allocated from recycler");

    assert_eq!(alloc2[2], 6, "alloc2[2..4] should be allocated from global gauge");
    assert_eq!(alloc2[3], 7, "alloc2[2..4] should be allocated from global gauge");
    assert_eq!(alloc2[4], 8, "alloc2[3..5] should be allocated from global gauge");

    assert_eq!(
        &ealloc.shard(1).reuse_queue()[..],
        &alloc2[0..2],
        "the first two allocations should be pushed to reuse queue"
    );
    assert_eq!(ealloc.recyclable_len(), 5, "recyclable is not refilled until flush");

    ealloc.flush();
    assert!(ealloc.shard(1).reuse_queue().is_empty());
    assert_eq!(ealloc.recyclable_len(), 3, "recyclable is drained after flush");

    let allocated_chunks: Vec<Range<u32>> = ealloc.iter_allocated_chunks_offline();
    assert_eq!(allocated_chunks, vec![2..4, 6..9]);
}
