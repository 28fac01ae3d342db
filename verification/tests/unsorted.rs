use stats::unsorted::median_pair;
use stats::unsorted::mode;
use stats::Commute;
use stats::Partial;
use stats::Unsorted;

#[test]
fn unsorted_mode_stream() {
    assert_eq!(mode(vec![3i64, 5, 7, 9]), None);
    assert_eq!(mode(vec![3i64, 3, 3, 3]), Some(3));
    assert_eq!(mode(vec![3i64, 3, 3, 4]), Some(3));
    assert_eq!(mode(vec![4i64, 3, 3, 3]), Some(3));
    assert_eq!(mode(vec![1i64, 1, 2, 3, 3]), None);
}

#[test]
fn unsorted_median_pairs() {
    assert_eq!(median_pair(vec![3i64, 5, 7, 9]), Some((5, 7)));
    assert_eq!(median_pair(vec![3i64, 5, 7]), Some((5, 5)));
    assert_eq!(median_pair(Vec::<i64>::new()), None);
}

#[test]
fn partial_mode_stream() {
    // the same queries over a domain with undefined comparisons
    let vals = |xs: Vec<i64>| xs.into_iter().map(Partial::Val).collect::<Vec<_>>();
    assert_eq!(mode(vals(vec![3, 5, 7, 9])), None);
    assert_eq!(mode(vals(vec![1, 1, 2, 3, 3])), None);
    assert_eq!(mode(vals(vec![3, 3, 3, 4])), Some(Partial::Val(3)));
    assert_eq!(
        mode(vec![Partial::Val(2), Partial::Unordered, Partial::Val(2)]),
        Some(Partial::Val(2))
    );
    assert_eq!(
        mode(vec![Partial::Unordered, Partial::Val(2), Partial::Unordered]),
        Some(Partial::Unordered)
    );
}

#[test]
fn partial_median_pairs() {
    let vals = |xs: Vec<i64>| xs.into_iter().map(Partial::Val).collect::<Vec<_>>();
    assert_eq!(
        median_pair(vals(vec![3, 5, 7, 9])),
        Some((Partial::Val(5), Partial::Val(7)))
    );
    // unordered samples sort last and do not disturb the ordinary ones
    assert_eq!(
        median_pair(vec![
            Partial::Val(9),
            Partial::Unordered,
            Partial::Val(3),
            Partial::Val(5),
            Partial::Val(7),
        ]),
        Some((Partial::Val(7), Partial::Val(7)))
    );
}

/// Float samples enter the library through its totally ordered sample
/// domain: NaN becomes `Unordered`, every other value a key with the same
/// order (the sign-folding trick of `f64::total_cmp`, zeroes collapsed).
fn to_partial(x: f64) -> Partial {
    if x.is_nan() {
        Partial::Unordered
    } else {
        let x = if x == 0.0 { 0.0 } else { x };
        let b = x.to_bits() as i64;
        Partial::Val(b ^ ((((b >> 63) as u64) >> 1) as i64))
    }
}

fn from_partial(p: Partial) -> f64 {
    match p {
        Partial::Val(k) => f64::from_bits((k ^ ((((k >> 63) as u64) >> 1) as i64)) as u64),
        Partial::Unordered => f64::NAN,
    }
}

fn mode_f64(xs: Vec<f64>) -> Option<f64> {
    mode(xs.into_iter().map(to_partial).collect()).map(from_partial)
}

fn median_f64(xs: Vec<f64>) -> Option<f64> {
    median_pair(xs.into_iter().map(to_partial).collect())
        .map(|(a, b)| (from_partial(a) + from_partial(b)) / 2.0)
}

#[test]
fn mode_floats() {
    assert_eq!(mode_f64(vec![3.0f64, 5.0, 7.0, 9.0]), None);
    assert_eq!(mode_f64(vec![3.0f64, 3.0, 3.0, 3.0]), Some(3.0));
    assert_eq!(mode_f64(vec![3.0f64, 3.0, 3.0, 4.0]), Some(3.0));
    assert_eq!(mode_f64(vec![4.0f64, 3.0, 3.0, 3.0]), Some(3.0));
    assert_eq!(mode_f64(vec![1.0f64, 1.0, 2.0, 3.0, 3.0]), None);
}

#[test]
fn median_floats() {
    assert_eq!(median_f64(vec![3.0f64, 5.0, 7.0, 9.0]), Some(6.0));
    assert_eq!(median_f64(vec![3.0f64, 5.0, 7.0]), Some(5.0));
    assert_eq!(median_f64(vec![1.0f64, 2.5, 3.0]), Some(2.5));
}

#[test]
fn lazy_requery() {
    // a query after further adds must reflect the new samples
    let mut u: Unsorted<i64> = Unsorted::new();
    u.add(1);
    u.add(3);
    assert_eq!(u.median_pair(), Some((1, 3)));
    assert_eq!(u.cardinality(), 2);
    u.add(2);
    assert_eq!(u.median_pair(), Some((2, 2)));
    assert_eq!(u.cardinality(), 3);
    u.add(2);
    assert_eq!(u.cardinality(), 3);
    assert_eq!(u.mode(), Some(2));
    assert_eq!(u.len(), 4);
}

#[test]
fn unsorted_merge_is_lazy_and_exact() {
    let mut a: Unsorted<i64> = Unsorted::new();
    a.extend(vec![6i64, 3, 3]);
    assert_eq!(a.mode(), Some(3));
    let mut b: Unsorted<i64> = Unsorted::new();
    b.extend(vec![6i64, 6, 1]);
    a.merge(b);
    assert_eq!(a.len(), 6);
    assert_eq!(a.mode(), Some(6));
    assert_eq!(a.median_pair(), Some((3, 6)));

    // identity law: merging a fresh accumulator changes nothing
    a.merge(Unsorted::new());
    assert_eq!(a.len(), 6);
    assert_eq!(a.mode(), Some(6));
}

#[test]
fn unsorted_merge_vs_sequential() {
    let all = vec![5i64, 2, 5, 8, 5, 2];
    let mut sequential: Unsorted<i64> = Unsorted::new();
    sequential.extend(all.clone());

    let mut parts: Vec<Unsorted<i64>> = Vec::new();
    for chunk in all.chunks(2) {
        let mut u = Unsorted::new();
        u.extend(chunk.to_vec());
        parts.push(u);
    }
    let mut folded = stats::merge_all(parts).unwrap();
    assert_eq!(folded.len(), sequential.len());
    assert_eq!(folded.mode(), sequential.mode());
    assert_eq!(folded.median_pair(), sequential.median_pair());
    assert_eq!(folded.cardinality(), sequential.cardinality());
}

#[test]
fn result_and_vec_merge() {
    // an error operand wins a merge of fallible accumulators
    let ok = |xs: Vec<i64>| -> Result<Unsorted<i64>, String> {
        let mut u = Unsorted::new();
        u.extend(xs);
        Ok(u)
    };
    let mut r = ok(vec![1, 2]);
    r.merge(ok(vec![2, 3]));
    assert_eq!(r.as_mut().ok().and_then(|u| u.mode()), Some(2));
    r.merge(Err("lost shard".to_string()));
    assert!(r.is_err());

    // vectors of accumulators merge position by position
    let mk = |xs: Vec<i64>| {
        let mut u: Unsorted<i64> = Unsorted::new();
        u.extend(xs);
        u
    };
    let mut v1 = vec![mk(vec![1, 1]), mk(vec![9])];
    let v2 = vec![mk(vec![1]), mk(vec![9, 9, 8])];
    v1.merge(v2);
    assert_eq!(v1[0].mode(), Some(1));
    assert_eq!(v1[0].len(), 3);
    assert_eq!(v1[1].mode(), Some(9));
    assert_eq!(v1[1].len(), 4);
}
