use sssp_rust::buckets::{BucketQueue, Buckets};
use sssp_rust::counts::Counts;
use sssp_rust::heap::{Entry, Heap};

fn drain(b: &mut Buckets) -> Vec<(usize, Vec<usize>)> {
    let mut out = Vec::new();
    while let Some(x) = b.pop() {
        out.push(x);
    }
    out
}

#[test]
fn ordered_buckets_pop_least_first() {
    let mut b = Buckets::new(false, 0);
    b.push(7, 1);
    b.push(3, 2);
    b.push(7, 3);
    b.push(0, 4);
    assert_eq!(drain(&mut b), vec![(0, vec![4]), (3, vec![2]), (7, vec![1, 3])]);
    assert!(b.pop().is_none());
}

#[test]
fn ring_buckets_agree_with_ordered() {
    let mut a = Buckets::new(false, 0);
    let mut r = Buckets::new(true, 5);
    for (i, u) in [(2, 10), (4, 11), (2, 12), (1, 13), (5, 14)] {
        a.push(i, u);
        r.push(i, u);
    }
    assert_eq!(a.take(4), vec![11]);
    assert_eq!(r.take(4), vec![11]);
    assert_eq!(a.take(3), Vec::<usize>::new());
    assert_eq!(r.take(3), Vec::<usize>::new());
    let x = a.pop();
    let y = r.pop();
    assert_eq!(x, Some((1, vec![13])));
    assert_eq!(x, y);
    a.push(6, 15);
    r.push(6, 15);
    assert_eq!(drain(&mut a), drain(&mut r));
}

#[test]
fn ring_wraps_around_its_window() {
    let mut r = Buckets::new(true, 3);
    r.push(1, 1);
    assert_eq!(r.pop(), Some((1, vec![1])));
    r.push(3, 2);
    r.push(2, 3);
    assert_eq!(r.pop(), Some((2, vec![3])));
    assert_eq!(r.pop(), Some((3, vec![2])));
    assert_eq!(r.pop(), None);
}

#[test]
fn bucket_queue_scans_cyclically() {
    let mut q = BucketQueue::new(4);
    assert!(q.is_empty());
    q.push(10, 2);
    q.push(11, 6);
    q.push(12, 1);
    assert_eq!(q.size, 3);
    // Scanning starts at bucket 0; bucket 1 holds 12.
    assert_eq!(q.pop(), Some(12));
    // Bucket 2 holds 10 and then 11 (6 % 4 == 2); the later one comes out first.
    assert_eq!(q.pop(), Some(11));
    assert_eq!(q.pop(), Some(10));
    assert_eq!(q.pop(), None);
    assert!(q.is_empty());
    q.push(13, 0);
    // The scan resumes at bucket 2 and wraps round to bucket 0.
    assert_eq!(q.pop(), Some(13));
    assert_eq!(q.current_bucket, 0);
}

#[test]
fn heap_pops_in_key_then_node_order() {
    let mut h = Heap::<4>::new();
    let mut c = Counts::default();
    for (d, n) in [(5u64, 1usize), (3, 7), (5, 0), (9, 2), (3, 4), (1, 8), (7, 3)] {
        h.push::<true>(Entry { dist: d, node: n }, &mut c);
    }
    let mut out = Vec::new();
    while let Some(e) = h.pop::<true>(&mut c) {
        out.push((e.dist, e.node));
    }
    assert_eq!(out, vec![(1, 8), (3, 4), (3, 7), (5, 0), (5, 1), (7, 3), (9, 2)]);
    assert_eq!(c.pushes, 7);
    assert_eq!(c.pops, 7);
    assert_eq!(c.peak, 7);
    assert!(c.comparisons > 0);
}

#[test]
fn uncounted_heap_leaves_counts_alone() {
    let mut h = Heap::<2>::new();
    let mut c = Counts::default();
    h.push::<false>(Entry { dist: 2, node: 0 }, &mut c);
    h.push::<false>(Entry { dist: 1, node: 1 }, &mut c);
    assert_eq!(h.pop::<false>(&mut c).map(|e| e.node), Some(1));
    assert_eq!(h.pop::<false>(&mut c).map(|e| e.node), Some(0));
    assert!(h.pop::<false>(&mut c).is_none());
    assert_eq!(c.pushes + c.pops + c.comparisons + c.peak, 0);
}

#[test]
fn heap_counts_each_comparison_of_its_sifts() {
    let mut h = Heap::<2>::new();
    let mut c = Counts::default();
    let tuples = |h: &Heap<2>| h.a.iter().map(|e| (e.dist, e.node)).collect::<Vec<_>>();
    h.push::<true>(Entry { dist: 5, node: 0 }, &mut c);
    assert_eq!(c.comparisons, 0);
    h.push::<true>(Entry { dist: 3, node: 1 }, &mut c);
    assert_eq!(c.comparisons, 1);
    h.push::<true>(Entry { dist: 4, node: 2 }, &mut c);
    assert_eq!(c.comparisons, 2);
    h.push::<true>(Entry { dist: 1, node: 3 }, &mut c);
    assert_eq!(c.comparisons, 4);
    assert_eq!(tuples(&h), vec![(1, 3), (3, 1), (4, 2), (5, 0)]);
    let x = h.pop::<true>(&mut c).unwrap();
    assert_eq!((x.dist, x.node), (1, 3));
    assert_eq!(c.comparisons, 6);
    assert_eq!(tuples(&h), vec![(3, 1), (5, 0), (4, 2)]);
}
