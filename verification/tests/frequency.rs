use stats::Commute;
use stats::Frequencies;

#[test]
fn ranked() {
    let mut counts = Frequencies::new();
    counts.extend(vec![1i64, 1, 2, 2, 2, 2, 2, 3, 4, 4, 4]);
    assert_eq!(counts.most_frequent()[0], (2, 5));
    assert_eq!(counts.least_frequent()[0], (3, 1));
}

#[test]
fn freq_counts() {
    let mut counts = Frequencies::new();
    counts.extend(vec![1i64, 1, 2, 2, 2, 2, 2, 3, 4, 4, 4]);
    assert_eq!(counts.count(2), 5);
    assert_eq!(counts.count(3), 1);
    assert_eq!(counts.count(9), 0);
    assert_eq!(counts.cardinality(), 4);
    assert_eq!(counts.len(), 4);
    assert_eq!(counts.mode(), Some(2));
}

#[test]
fn freq_mode_ties() {
    let mut counts = Frequencies::new();
    counts.extend(vec![1i64, 1, 2, 3, 3]);
    assert_eq!(counts.mode(), None);

    let empty = Frequencies::new();
    assert_eq!(empty.mode(), None);

    let mut single = Frequencies::new();
    single.add(5);
    assert_eq!(single.mode(), Some(5));
}

#[test]
fn freq_merge_sums_counts() {
    let mut a = Frequencies::new();
    a.extend(vec![1i64, 2, 2]);
    let mut b = Frequencies::new();
    b.extend(vec![2i64, 3]);
    a.merge(b);
    assert_eq!(a.count(1), 1);
    assert_eq!(a.count(2), 3);
    assert_eq!(a.count(3), 1);
    assert_eq!(a.cardinality(), 3);
}

#[test]
fn freq_merge_associative() {
    let shards = vec![vec![1i64, 1, 2], vec![2i64, 2, 3], vec![3i64, 3, 3]];
    let mut built = Vec::new();
    for shard in &shards {
        let mut f = Frequencies::new();
        f.extend(shard.clone());
        built.push(f);
    }
    let mut left = {
        let mut f = Frequencies::new();
        f.extend(shards[0].clone());
        let mut g = Frequencies::new();
        g.extend(shards[1].clone());
        f.merge(g);
        let mut h = Frequencies::new();
        h.extend(shards[2].clone());
        f.merge(h);
        f
    };
    let right = {
        let mut g = Frequencies::new();
        g.extend(shards[1].clone());
        let mut h = Frequencies::new();
        h.extend(shards[2].clone());
        g.merge(h);
        let mut f = Frequencies::new();
        f.extend(shards[0].clone());
        f.merge(g);
        f
    };
    for v in 0i64..5 {
        assert_eq!(left.count(v), right.count(v));
    }
    assert_eq!(left.mode(), right.mode());
    // identity law: merging a fresh table changes nothing
    let before: Vec<(i64, u64)> = left.most_frequent();
    left.merge(Frequencies::new());
    assert_eq!(left.most_frequent(), before);
}

#[test]
fn freq_merge_vs_sequential() {
    let all = vec![4i64, 7, 4, 9, 7, 7, 1, 4, 4];
    let mut sequential = Frequencies::new();
    sequential.extend(all.clone());

    let mut parts = Vec::new();
    for chunk in all.chunks(2) {
        let mut f = Frequencies::new();
        f.extend(chunk.to_vec());
        parts.push(f);
    }
    let folded = stats::merge_all(parts).unwrap();
    for v in 0i64..10 {
        assert_eq!(folded.count(v), sequential.count(v));
    }
    assert_eq!(folded.mode(), sequential.mode());
    assert_eq!(folded.cardinality(), sequential.cardinality());
}
