use std::collections::BTreeSet;
use std::ops::Range;
use std::sync::Arc;

use dynec::entity::ealloc::gaps::iter_gaps;
use dynec::entity::ealloc::iterator::{index_gaps, Split};
use dynec::entity::ealloc::order::stable_order;
use dynec::entity::ealloc::{
    distribute_sorted, BTreeHint, Ealloc, EallocMap, Recycler, Recycling, ShardAssigner, ShardMap, Snapshot,
    StaticShardAssigner, ThreadRngShardAssigner,
};
use dynec::Archetype;

struct Arch1;

impl Archetype for Arch1 {
    const KEY: u64 = 10;
}

type BTree = Recycling<BTreeSet<u32>, StaticShardAssigner>;
type Stack = Recycling<Vec<u32>, StaticShardAssigner>;

#[test]
fn distribute_keeps_sum_and_order() {
    let mut sizes = [2, 5, 5, 9];
    distribute_sorted(&mut sizes, 7);
    assert_eq!(sizes, [6, 6, 7, 9]);
    assert_eq!(sizes.iter().sum::<usize>(), 2 + 5 + 5 + 9 + 7);
}

#[test]
fn distribute_nothing_leaves_sizes() {
    let mut sizes = [1, 4];
    distribute_sorted(&mut sizes, 0);
    assert_eq!(sizes, [1, 4]);
}

#[test]
fn distribute_beside_the_largest_size() {
    let mut sizes = [0, usize::MAX];
    distribute_sorted(&mut sizes, 1);
    assert_eq!(sizes, [1, usize::MAX]);

    let mut sizes = [0, 0, usize::MAX];
    distribute_sorted(&mut sizes, 1);
    assert_eq!(sizes, [0, 1, usize::MAX]);

    let mut sizes = [usize::MAX - 3];
    distribute_sorted(&mut sizes, 3);
    assert_eq!(sizes, [usize::MAX]);
}

#[test]
fn distribute_into_no_shards() {
    let mut sizes: [usize; 0] = [];
    distribute_sorted(&mut sizes, 3);
    assert_eq!(sizes, []);
}

#[test]
fn gaps_cover_allocated_ids() {
    assert_eq!(iter_gaps(10, vec![3, 4, 7]), vec![1..3, 5..7, 8..10]);
    assert_eq!(iter_gaps(1, vec![]), Vec::<Range<u32>>::new());
    assert_eq!(iter_gaps(4, vec![1, 2, 3]), Vec::<Range<u32>>::new());
}

#[test]
fn snapshot_lists_allocated_chunks() {
    let snapshot = Snapshot::new(10, BTreeSet::from([2, 3, 9]));
    assert_eq!(snapshot.iter_allocated_chunks(), vec![1..2, 4..9]);
}

#[test]
fn slice_splits_only_short_ranges() {
    let recyclable = BTreeSet::from([5]);
    let snapshot = Snapshot::new(13, recyclable);
    let slice = snapshot.as_slice();
    assert_eq!((slice.start, slice.end), (1, 13));
    assert_eq!(slice.midpoint_for_split(), Some(7));
    let (left, right) = slice.split();
    let right = right.expect("a short slice splits");
    assert_eq!((left.start, left.end, right.start, right.end), (1, 7, 7, 13));

    let long = Snapshot::new(100, BTreeSet::new());
    assert_eq!(long.as_slice().midpoint_for_split(), None);
}

#[test]
fn slice_chunks_skip_recycled_ids() {
    let snapshot = Snapshot::new(10, BTreeSet::from([3, 6]));
    let (left, right) = snapshot.as_slice().split_at(5);
    assert_eq!(left.iter_chunks(), vec![1..3, 4..5]);
    // the first chunk ends at the least recycled ID of the whole snapshot
    assert_eq!(right.iter_chunks(), vec![5..3, 7..10]);

    let empty = BTreeSet::new();
    let snapshot = Snapshot::new(4, empty);
    assert_eq!(snapshot.as_slice().iter_chunks(), vec![1..4]);
}

#[test]
fn split_shares_cover_all_ids() {
    let gaps = Arc::new(index_gaps(vec![1..4, 6..8, 10..15]));
    assert_eq!(gaps.iter().map(|g| g.inclusive_sum).collect::<Vec<_>>(), vec![3, 5, 10]);
    let whole = Split { gaps: gaps.clone(), start: 0, end: 10 };
    let (left, right) = whole.split();
    let right = right.expect("ten positions split");
    assert_eq!((left.start, left.end, right.start, right.end), (0, 5, 5, 10));
    assert_eq!(left.iter(), vec![1..4, 6..8]);
    assert_eq!(right.iter(), vec![10..15]);

    let middle = Split { gaps, start: 2, end: 7 };
    assert_eq!(middle.iter(), vec![3..4, 6..8, 10..12]);
}

#[test]
fn split_shares_list_each_id_once() {
    let gaps = Arc::new(index_gaps(vec![1..4, 6..8, 10..15]));
    let mut pending = vec![Split { gaps, start: 0, end: 10 }];
    let mut ids = Vec::new();
    while let Some(share) = pending.pop() {
        let (left, right) = share.split();
        match right {
            Some(right) => {
                pending.push(left);
                pending.push(right);
            }
            None => {
                for range in left.iter() {
                    assert!(range.start < range.end);
                    ids.extend(range);
                }
            }
        }
    }
    ids.sort();
    assert_eq!(ids, vec![1, 2, 3, 6, 7, 10, 11, 12, 13, 14]);
}

#[test]
fn split_of_one_position_stays_whole() {
    let gaps = Arc::new(index_gaps(vec![1..2]));
    let (whole, rest) = Split { gaps, start: 0, end: 1 }.split();
    assert!(rest.is_none());
    assert_eq!((whole.start, whole.end), (0, 1));
}

#[test]
fn indexed_gap_restricts_to_share() {
    let gaps = index_gaps(vec![4..9]);
    assert_eq!(gaps[0].length(), 5);
    assert_eq!(gaps[0].exclusive_sum(), 0);
    assert_eq!(gaps[0].restrict(1, 3), Some(5..7));
    assert_eq!(gaps[0].restrict(5, 8), None);
}

#[test]
fn stable_order_sorts_by_size_then_index() {
    assert_eq!(stable_order(&vec![3, 1, 3, 0]), vec![3, 1, 0, 2]);
}

#[test]
fn allocate_never_returns_live_id() {
    let mut ealloc = Stack::new(2);
    let a = ealloc.allocate(());
    let b = ealloc.allocate(());
    assert_ne!(a, b);
    ealloc.queue_deallocate(a);
    ealloc.flush();
    let c = ealloc.allocate(());
    let d = ealloc.allocate(());
    assert_ne!(c, b);
    assert_ne!(d, b);
    assert_ne!(c, d);
}

#[test]
fn vec_recycler_is_last_in_first_out() {
    let mut recycler: Vec<u32> = Recycler::new();
    recycler.push(4);
    recycler.push(9);
    assert_eq!(Recycler::len(&recycler), 2);
    assert_eq!(recycler.poll(()), Some(9));
    assert_eq!(recycler.poll(()), Some(4));
    assert_eq!(recycler.poll(()), None);
    assert!(Recycler::is_empty(&recycler));
}

#[test]
fn btree_recycler_picks_nearest() {
    let mut recycler: BTreeSet<u32> = Recycler::new();
    for id in [2, 10, 14] {
        recycler.push(id);
    }
    assert_eq!(recycler.poll(BTreeHint { near: Some(12) }), Some(10));
    assert_eq!(recycler.poll(BTreeHint { near: Some(13) }), Some(14));
    assert_eq!(recycler.poll(BTreeHint { near: Some(100) }), Some(2));
    assert_eq!(recycler.poll(BTreeHint { near: Some(3) }), None);

    let mut tie: BTreeSet<u32> = Recycler::new();
    tie.push(4);
    tie.push(8);
    assert_eq!(tie.poll(BTreeHint { near: Some(6) }), Some(4));
    assert_eq!(tie.poll(BTreeHint::default()), Some(8));
}

#[test]
fn flush_if_marked_waits_for_mark() {
    let mut ealloc = BTree::new(1);
    let a = ealloc.allocate(BTreeHint::default());
    ealloc.queue_deallocate(a);
    ealloc.flush_if_marked();
    assert_eq!(ealloc.recyclable_len(), 0);
    ealloc.mark_need_flush();
    ealloc.flush_if_marked();
    assert_eq!(ealloc.recyclable_len(), 1);
    assert_eq!(ealloc.shard(0).recycler().iter().copied().collect::<Vec<_>>(), vec![a]);
}

#[test]
fn reused_then_freed_id_is_lost_from_recyclable() {
    // An ID reused and freed again before a flush is removed from the recyclable set
    // by the same flush that gives it back to a recycler.
    let mut ealloc = BTree::new(1);
    let a = ealloc.allocate(BTreeHint::default());
    ealloc.queue_deallocate(a);
    ealloc.flush();
    let again = ealloc.allocate(BTreeHint::default());
    assert_eq!(again, a);
    ealloc.queue_deallocate(again);
    ealloc.flush();
    assert_eq!(ealloc.recyclable_len(), 0);
    assert_eq!(ealloc.shard(0).recycler().iter().copied().collect::<Vec<_>>(), vec![a]);
    assert_eq!(ealloc.iter_allocated_chunks_offline(), vec![1..2]);
}

#[test]
fn thread_rng_assigner_stays_in_range() {
    let mut assigner = ThreadRngShardAssigner::default();
    for _ in 0..100 {
        assert!(assigner.select_for_offline_allocation(3) < 3);
    }
    let mut shards = [1, 2, 3, 4, 5];
    assigner.shuffle_shards(&mut shards);
    let mut sorted = shards;
    sorted.sort();
    assert_eq!(sorted, [1, 2, 3, 4, 5]);
}

#[test]
fn static_assigner_selects_its_shard() {
    let mut assigner = StaticShardAssigner { allocating_shard: 2 };
    assert_eq!(assigner.select_for_offline_allocation(5), 2);
    let mut shards = [7, 8, 9];
    assigner.shuffle_shards(&mut shards);
    assert_eq!(shards, [7, 8, 9]);
}

#[test]
fn ealloc_map_snapshots_each_archetype() {
    let mut map = std::collections::HashMap::new();
    map.insert(Arch1::KEY, BTree::new(2));
    let mut eallocs = EallocMap::new(map);
    eallocs.get::<Arch1>().allocate(BTreeHint::default());
    eallocs.get::<Arch1>().allocate(BTreeHint::default());
    let snapshot = eallocs.snapshot::<Arch1>();
    assert_eq!(snapshot.iter_allocated_chunks(), vec![1..3]);
}

#[test]
fn shard_map_hands_out_inserted_shards() {
    let mut shards: ShardMap<Vec<u32>> = ShardMap::new();
    shards.insert::<Arch1>(Snapshot::new(3, BTreeSet::new()), vec![5]);
    shards.get::<Arch1>().push(6);
    assert_eq!(shards.get::<Arch1>(), &vec![5, 6]);
    assert_eq!(shards.snapshot::<Arch1>().iter_allocated_chunks(), vec![1..3]);
}
