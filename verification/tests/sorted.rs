use stats::sorted::median_pair;
use stats::sorted::mode;
use stats::Commute;
use stats::Frequencies;
use stats::Sorted;

#[test]
fn options() {
    let mut v1: Sorted<i64> = Sorted::new();
    v1.extend(vec![2i64, 1, 3, 2]);
    let mut v2: Sorted<i64> = Sorted::new();
    v2.extend(vec![5i64, 6, 5, 5]);
    let mut merged = Some(v1);
    merged.merge(Some(v2));
    assert_eq!(merged.unwrap().mode(), Some(5));
}

#[test]
fn sorted_mode_stream() {
    assert_eq!(mode(vec![3i64, 5, 7, 9]), None);
    assert_eq!(mode(vec![3i64, 3, 3, 3]), Some(3));
    assert_eq!(mode(vec![3i64, 3, 3, 4]), Some(3));
    assert_eq!(mode(vec![4i64, 3, 3, 3]), Some(3));
    assert_eq!(mode(vec![1i64, 1, 2, 3, 3]), None);
}

#[test]
fn sorted_median_pairs() {
    assert_eq!(median_pair(vec![3i64, 5, 7, 9]), Some((5, 7)));
    assert_eq!(median_pair(vec![3i64, 5, 7]), Some((5, 5)));
    assert_eq!(median_pair(Vec::<i64>::new()), None);

    let (a, b) = median_pair(vec![3i64, 5, 7, 9]).unwrap();
    assert_eq!((a as f64 + b as f64) / 2.0, 6.0);
    let (c, d) = median_pair(vec![3i64, 5, 7]).unwrap();
    assert_eq!((c as f64 + d as f64) / 2.0, 5.0);
}

#[test]
fn sorted_into_sorted_vec() {
    let mut s: Sorted<i64> = Sorted::new();
    s.extend(vec![9i64, 1, 8, 1, 5]);
    assert_eq!(s.len(), 5);
    assert_eq!(s.into_sorted_vec(), vec![1i64, 1, 5, 8, 9]);
}

#[test]
fn mode_single_sample_agrees() {
    // Both mode definitions use the same tie rule: a lone sample is the
    // unique most frequent value, for the sorted walk as for the
    // frequency table.
    assert_eq!(mode(vec![5i64]), Some(5));
    let mut f = Frequencies::new();
    f.add(5);
    assert_eq!(f.mode(), Some(5));
}

#[test]
fn sorted_merge_associative() {
    let shards = vec![vec![2i64, 2, 4], vec![4i64, 4], vec![7i64, 4]];
    let build = |xs: &Vec<i64>| {
        let mut s: Sorted<i64> = Sorted::new();
        s.extend(xs.clone());
        s
    };
    let mut left = build(&shards[0]);
    left.merge(build(&shards[1]));
    left.merge(build(&shards[2]));

    let mut tail = build(&shards[1]);
    tail.merge(build(&shards[2]));
    let mut right = build(&shards[0]);
    right.merge(tail);

    assert_eq!(left.len(), right.len());
    assert_eq!(left.mode(), right.mode());
    assert_eq!(left.median_pair(), right.median_pair());
    assert_eq!(left.into_sorted_vec(), right.into_sorted_vec());
}

#[test]
fn sorted_merge_identity() {
    let mut s: Sorted<i64> = Sorted::new();
    s.extend(vec![4i64, 2, 4]);
    s.merge(Sorted::new());
    assert_eq!(s.len(), 3);
    assert_eq!(s.into_sorted_vec(), vec![2i64, 4, 4]);
}

#[test]
fn sorted_merge_vs_sequential() {
    let all = vec![6i64, 3, 3, 9, 1, 3, 6];
    let mut sequential: Sorted<i64> = Sorted::new();
    sequential.extend(all.clone());

    let mut parts: Vec<Sorted<i64>> = Vec::new();
    for chunk in all.chunks(2) {
        let mut s = Sorted::new();
        s.extend(chunk.to_vec());
        parts.push(s);
    }
    let folded = stats::merge_all(parts).unwrap();
    assert_eq!(folded.len(), sequential.len());
    assert_eq!(folded.mode(), sequential.mode());
    assert_eq!(folded.median_pair(), sequential.median_pair());
}
