use stats::Commute;
use stats::MinMax;

#[test]
fn minmax() {
    let mut minmax = MinMax::new();
    minmax.extend(vec![1i64, 4, 2, 3, 10]);
    assert_eq!(minmax.min(), Some(1));
    assert_eq!(minmax.max(), Some(10));
}

#[test]
fn minmax_count() {
    let mut minmax = MinMax::new();
    minmax.extend(vec![1i64, 4, 2, 3, 10]);
    assert_eq!(minmax.len(), 5);
}

#[test]
fn minmax_empty() {
    let empty: MinMax = MinMax::new();
    assert_eq!(empty.min(), None);
    assert_eq!(empty.max(), None);
    assert_eq!(empty.len(), 0);
}

#[test]
fn minmax_merge() {
    let mut a = MinMax::new();
    a.extend(vec![3i64, 7]);
    let mut b = MinMax::new();
    b.extend(vec![-2i64, 5]);
    a.merge(b);
    assert_eq!(a.min(), Some(-2));
    assert_eq!(a.max(), Some(7));
    assert_eq!(a.len(), 4);

    // identity law: merging a fresh tracker changes nothing
    a.merge(MinMax::new());
    assert_eq!(a.min(), Some(-2));
    assert_eq!(a.max(), Some(7));
    assert_eq!(a.len(), 4);

    // and a fresh tracker absorbs everything from the right operand
    let mut c = MinMax::new();
    let mut d = MinMax::new();
    d.extend(vec![8i64, 6]);
    c.merge(d);
    assert_eq!(c.min(), Some(6));
    assert_eq!(c.max(), Some(8));
    assert_eq!(c.len(), 2);
}

#[test]
fn minmax_merge_vs_sequential() {
    let all = vec![9i64, -4, 2, 2, 11, 0, 5];
    let mut sequential = MinMax::new();
    sequential.extend(all.clone());

    let mut parts = Vec::new();
    for chunk in all.chunks(3) {
        let mut m = MinMax::new();
        m.extend(chunk.to_vec());
        parts.push(m);
    }
    let folded = stats::merge_all(parts).unwrap();
    assert_eq!(folded.min(), sequential.min());
    assert_eq!(folded.max(), sequential.max());
    assert_eq!(folded.len(), sequential.len());

    let none = stats::merge_all(Vec::<MinMax>::new());
    assert!(none.is_none());
}

#[test]
fn minmax_consume() {
    let mut acc = MinMax::new();
    acc.add(4);
    let mut b = MinMax::new();
    b.extend(vec![2i64, 9]);
    let mut c = MinMax::new();
    c.add(7);
    stats::consume(&mut acc, vec![b, c]);
    assert_eq!(acc.min(), Some(2));
    assert_eq!(acc.max(), Some(9));
    assert_eq!(acc.len(), 4);
}
