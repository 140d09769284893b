use chudnovsky::integer::Integer;
use chudnovsky::splitting::{
    compute_pqt, i_compute_pqt, midpoint, schedule, Pqt, Schedule, Segment, THRESHOLD,
};
use num_bigint::BigInt;

fn big(x: &Integer) -> BigInt {
    BigInt::from_signed_bytes_le(&x.bytes)
}

// Equal as numbers, and byte for byte.
fn same(a: &Pqt, b: &Pqt) -> bool {
    a == b && a.p.bytes == b.p.bytes && a.q.bytes == b.q.bytes && a.t.bytes == b.t.bytes
}

fn triple(p: i128, q: i128, t: i128) -> Pqt {
    Pqt { p: Integer::from_i128(p), q: Integer::from_i128(q), t: Integer::from_i128(t) }
}

fn factorial(n: u32) -> BigInt {
    let mut f = BigInt::from(1);
    for i in 1..=n {
        f = f * BigInt::from(i);
    }
    f
}

// The sum of the terms 0..=n of the series, as a fraction: term k is
// (-1)^k (6k)! (A + B k) / ((3k)! (k!)^3 C^(3k)).
fn partial_sum(n: u32) -> (BigInt, BigInt) {
    let mut num = BigInt::from(0);
    let mut den = BigInt::from(1);
    for k in 0..=n {
        let linear = BigInt::from(13591409u64) + BigInt::from(545140134u64) * BigInt::from(k);
        let mut top = factorial(6 * k) * linear;
        if k % 2 == 1 {
            top = -top;
        }
        let bottom = factorial(3 * k) * factorial(k).pow(3) * BigInt::from(640320u64).pow(3 * k);
        num = num * &bottom + top * &den;
        den = den * bottom;
    }
    (num, den)
}

fn check_partial_sum(n: u32) {
    let r = i_compute_pqt(0, n as u64);
    let (num, den) = partial_sum(n);
    let (q, t) = (big(&r.q), big(&r.t));
    assert_eq!(num * &q, (BigInt::from(13591409u64) * &q + t) * den);
}

fn check_thresholds(n: u64, thresholds: &[u64]) {
    let want = i_compute_pqt(0, n);
    for threshold in thresholds {
        assert!(same(&compute_pqt(0, n, *threshold), &want));
    }
}

#[test]
fn leaf_at_one() {
    let r = Pqt::leaf(1);
    assert_eq!(r.p.to_decimal(), "5");
    assert_eq!(r.q.to_decimal(), "10939058860032000");
    assert_eq!(r.t.to_decimal(), "-2793657715");
}

#[test]
fn leaf_at_two() {
    let r = Pqt::leaf(2);
    assert_eq!(r.p.to_decimal(), "231");
    assert_eq!(r.q.to_decimal(), "87512470880256000");
    assert_eq!(r.t.to_decimal(), "254994357387");
}

#[test]
fn leaf_at_three() {
    let r = Pqt::leaf(3);
    assert_eq!(r.p.to_decimal(), "1105");
    assert_eq!(r.q.to_decimal(), "295354589220864000");
    assert_eq!(r.t.to_decimal(), "-1822158051155");
}

#[test]
fn leaf_at_the_largest_index() {
    let n = u64::MAX;
    let r = Pqt::leaf(n);
    let m = BigInt::from(n);
    let p = (&m * 2 - 1) * (&m * 6 - 1) * (&m * 6 - 5);
    assert_eq!(big(&r.p), p);
    assert_eq!(big(&r.q), BigInt::from(10939058860032000u64) * &m * &m * &m);
    assert_eq!(big(&r.t), -(BigInt::from(13591409u64) + BigInt::from(545140134u64) * &m) * p);
}

#[test]
fn leaf_matches_the_series_at_one() {
    check_partial_sum(1);
}

#[test]
fn leaf_matches_the_series_at_two() {
    check_partial_sum(2);
}

#[test]
fn leaf_matches_the_series_at_three() {
    check_partial_sum(3);
}

#[test]
fn merge_by_the_rule() {
    let r = triple(2, 3, 5).merge(triple(7, 11, -13));
    assert_eq!(r.p.to_decimal(), "14");
    assert_eq!(r.q.to_decimal(), "33");
    assert_eq!(r.t.to_decimal(), "29");
}

#[test]
fn merge_is_not_commutative() {
    let r = triple(7, 11, -13).merge(triple(2, 3, 5));
    assert_eq!(r.p.to_decimal(), "14");
    assert_eq!(r.q.to_decimal(), "33");
    assert_eq!(r.t.to_decimal(), "-4");
}

#[test]
fn merge_with_the_empty_range() {
    assert!(same(&triple(1, 1, 0).merge(Pqt::leaf(4)), &Pqt::leaf(4)));
    assert!(same(&Pqt::leaf(4).merge(triple(1, 1, 0)), &Pqt::leaf(4)));
}

#[test]
fn merge_is_associative() {
    let n = 12u64;
    for i in 1..n {
        for j in (i + 1)..n {
            let (a, b, c) = (i_compute_pqt(0, i), i_compute_pqt(i, j), i_compute_pqt(j, n));
            let left = a.merge(b).merge(c);
            let (a, b, c) = (i_compute_pqt(0, i), i_compute_pqt(i, j), i_compute_pqt(j, n));
            let right = a.merge(b.merge(c));
            assert!(same(&left, &right));
            assert!(same(&left, &i_compute_pqt(0, n)));
        }
    }
}

#[test]
fn range_of_two_indices() {
    let r = i_compute_pqt(0, 2);
    assert_eq!(r.p.to_decimal(), "1155");
    assert_eq!(r.q.to_decimal(), "957304069945956794936328192000000");
    // the left T times the right Q, and the left P times the right T
    assert_eq!(r.t.to_decimal(), "-244479889433338740603253065");
}

#[test]
fn range_away_from_zero() {
    let r = i_compute_pqt(2, 3);
    assert!(same(&r, &Pqt::leaf(3)));
    let whole = i_compute_pqt(0, 3);
    assert!(same(&i_compute_pqt(0, 2).merge(r), &whole));
}

#[test]
fn midpoint_rounds_down() {
    assert_eq!(midpoint(0, 1), 0);
    assert_eq!(midpoint(0, 5), 2);
    assert_eq!(midpoint(3, 3), 3);
    assert_eq!(midpoint(u64::MAX - 2, u64::MAX), u64::MAX - 1);
    assert_eq!(midpoint(u64::MAX, u64::MAX), u64::MAX);
}

#[test]
fn schedule_cases() {
    assert_eq!(schedule(4, 5, 10), Schedule::Leaf);
    assert_eq!(schedule(4, 5, 0), Schedule::Leaf);
    assert_eq!(schedule(4, 5, 1), Schedule::Leaf);
    assert_eq!(schedule(0, 9, 10), Schedule::Sequential { mid: 4 });
    assert_eq!(schedule(0, 2, 3), Schedule::Sequential { mid: 1 });
    assert_eq!(schedule(0, 10, 10), Schedule::Fork { mid: 5 });
    assert_eq!(schedule(3, 5, 1), Schedule::Fork { mid: 4 });
    assert_eq!(schedule(3, 5, 0), Schedule::Fork { mid: 4 });
    assert_eq!(schedule(0, u64::MAX, u64::MAX), Schedule::Fork { mid: u64::MAX / 2 });
    assert_eq!(schedule(1, u64::MAX, u64::MAX), Schedule::Sequential { mid: 1 << 63 });
}

#[test]
fn default_threshold() {
    assert_eq!(THRESHOLD, 50000);
    assert_eq!(schedule(0, 49999, THRESHOLD), Schedule::Sequential { mid: 24999 });
    assert_eq!(schedule(0, 50000, THRESHOLD), Schedule::Fork { mid: 25000 });
}

#[test]
fn scheduling_invariance_1() {
    check_thresholds(1, &[0, 1, 2, 50000]);
}

#[test]
fn scheduling_invariance_2() {
    check_thresholds(2, &[0, 1, 2, 3, 50000]);
}

#[test]
fn scheduling_invariance_5() {
    check_thresholds(5, &[0, 1, 2, 3, 4, 5, 6, 50000]);
}

#[test]
fn scheduling_invariance_17() {
    check_thresholds(17, &[0, 1, 2, 3, 5, 8, 9, 16, 17, 18, 1000]);
}

#[test]
fn scheduling_invariance_1000() {
    check_thresholds(1000, &[0, 2, 7, 100, 500, 501, 1000, 1001]);
}

#[test]
fn scheduling_invariance_near_100000() {
    let want = i_compute_pqt(99000, 100000);
    for threshold in [0u64, 2, 300, 500, 999, 1000, 1001, 50000] {
        assert!(same(&compute_pqt(99000, 100000, threshold), &want));
    }
}

#[test]
fn scheduling_invariance_10000() {
    check_thresholds(10000, &[2500, 5000]);
}

// The leaves and sequential blocks that the decisions for [n1, n2) lead to,
// from left to right.
fn blocks(n1: u64, n2: u64, threshold: u64, out: &mut Vec<(u64, u64)>) {
    match schedule(n1, n2, threshold) {
        Schedule::Leaf | Schedule::Sequential { .. } => out.push((n1, n2)),
        Schedule::Fork { mid } => {
            blocks(n1, mid, threshold, out);
            blocks(mid, n2, threshold, out);
        }
    }
}

#[test]
fn schedule_covers_100000() {
    for threshold in [1u64, 2, 3, 1000, 30000, 50000, 100000, 100001] {
        let mut out = Vec::new();
        blocks(0, 100000, threshold, &mut out);
        let mut at = 0;
        for (a, b) in &out {
            assert_eq!(*a, at);
            assert!(a < b);
            assert!(b - a == 1 || b - a < threshold);
            at = *b;
        }
        assert_eq!(at, 100000);
    }
    let mut out = Vec::new();
    blocks(0, 100000, 50000, &mut out);
    assert_eq!(out, vec![(0, 25000), (25000, 50000), (50000, 75000), (75000, 100000)]);
}

#[test]
fn segment_of_a_range() {
    let s = Segment::compute(3, 9).unwrap();
    assert_eq!(s.range(), (3, 9));
    assert!(same(&s.into_pqt(), &i_compute_pqt(3, 9)));
    let s = Segment::compute(8, 9).unwrap();
    assert_eq!(s.range(), (8, 9));
    assert!(same(&s.into_pqt(), &Pqt::leaf(9)));
}

#[test]
fn segment_of_an_empty_range() {
    assert!(Segment::compute(0, 0).is_none());
    assert!(Segment::compute(5, 5).is_none());
    assert!(Segment::compute(6, 5).is_none());
    assert!(Segment::compute(u64::MAX, 0).is_none());
}

#[test]
fn segments_join_where_they_meet() {
    let s = Segment::compute(0, 4).unwrap().join(Segment::compute(4, 9).unwrap()).unwrap();
    assert_eq!(s.range(), (0, 9));
    assert!(same(&s.into_pqt(), &i_compute_pqt(0, 9)));
}

#[test]
fn segments_apart_do_not_join() {
    let (a, b) = Segment::compute(0, 4).unwrap().join(Segment::compute(5, 9).unwrap()).unwrap_err();
    assert_eq!(a.range(), (0, 4));
    assert_eq!(b.range(), (5, 9));
    assert!(same(&a.into_pqt(), &i_compute_pqt(0, 4)));
    assert!(same(&b.into_pqt(), &i_compute_pqt(5, 9)));
    // Nor in the wrong order, nor where they overlap.
    assert!(Segment::compute(4, 9).unwrap().join(Segment::compute(0, 4).unwrap()).is_err());
    assert!(Segment::compute(0, 5).unwrap().join(Segment::compute(4, 9).unwrap()).is_err());
    assert!(Segment::compute(0, 4).unwrap().join(Segment::compute(0, 4).unwrap()).is_err());
}

// Two hundred ways of cutting [n1, n2) into single indices and joining them
// again.
fn many_bracketings(n1: u64, n2: u64, want: &Pqt) -> u32 {
    fn build(n1: u64, n2: u64, cuts: &mut dyn FnMut(u64, u64) -> u64) -> Segment {
        if n2 - n1 == 1 {
            return Segment::compute(n1, n2).unwrap();
        }
        let mid = cuts(n1, n2);
        build(n1, mid, cuts).join(build(mid, n2, cuts)).unwrap()
    }
    let mut count = 0;
    // Each seed picks the cuts in another way.
    for seed in 0..200u64 {
        let mut state = seed;
        let mut cuts = |a: u64, b: u64| {
            state = state.wrapping_mul(6364136223846793005).wrapping_add(1442695040888963407);
            a + 1 + (state >> 33) % (b - a - 1)
        };
        let s = build(n1, n2, &mut cuts);
        assert_eq!(s.range(), (n1, n2));
        assert!(same(&s.into_pqt(), want));
        count += 1;
    }
    count
}

#[test]
fn segments_joined_in_any_order() {
    assert_eq!(many_bracketings(0, 9, &i_compute_pqt(0, 9)), 200);
    assert_eq!(many_bracketings(20, 31, &i_compute_pqt(20, 31)), 200);
}

#[test]
fn segments_from_any_number_of_workers() {
    let n = 1000u64;
    let want = i_compute_pqt(0, n);
    for workers in [1u64, 2, 3, 7, 16] {
        // Each worker has a share of the range; the last share is ready first.
        let mut parts: Vec<Segment> = Vec::new();
        for w in (0..workers).rev() {
            let (a, b) = (n * w / workers, n * (w + 1) / workers);
            parts.insert(0, Segment::compute(a, b).unwrap());
        }
        // Join from the right, then from the left.
        let mut whole = parts.pop().unwrap();
        while parts.len() > workers as usize / 2 {
            whole = parts.pop().unwrap().join(whole).unwrap();
        }
        let mut it = parts.into_iter();
        if let Some(mut left) = it.next() {
            for p in it {
                left = left.join(p).unwrap();
            }
            whole = left.join(whole).unwrap();
        }
        assert_eq!(whole.range(), (0, n));
        assert!(same(&whole.into_pqt(), &want));
    }
}

#[test]
fn each_index_adds_fourteen_digits() {
    for n in 0..40u64 {
        let r = if n == 0 {
            triple(1, 1, 0)
        } else {
            i_compute_pqt(0, n)
        };
        let scaled = big(&r.p) * BigInt::from(10).pow(14 * n as u32);
        assert!(scaled <= big(&r.q));
        // T is small against Q.
        let t = big(&r.t);
        let size = if t < BigInt::from(0) { -t } else { t };
        let bound = BigInt::from(13591409u64 + 545140134) * big(&r.q);
        assert!(BigInt::from(10).pow(14) * size <= bound);
    }
}

fn shortest_bytes(bytes: &[u8]) -> bool {
    match bytes {
        [] => false,
        [_] => true,
        [.., next, top] => !(*top == 0 && *next < 128) && !(*top == 255 && *next >= 128),
    }
}

#[test]
fn triples_come_in_their_shortest_bytes() {
    let mut all = vec![
        triple(2, 3, 5).merge(triple(7, 11, -13)),
        triple(0, -1, 128).merge(triple(1, 1, 0)),
    ];
    for n in 1..40u64 {
        all.push(Pqt::leaf(n));
        all.push(i_compute_pqt(0, n));
        all.push(compute_pqt(n, 2 * n + 1, 3));
    }
    all.push(Pqt::leaf(u64::MAX));
    for r in &all {
        assert!(shortest_bytes(&r.p.bytes) && shortest_bytes(&r.q.bytes));
        assert!(shortest_bytes(&r.t.bytes));
    }
    // Whatever bytes go in, the shortest come out.
    let long = |v: u8| Integer { bytes: vec![v, 0, 0, 0] };
    let left = Pqt { p: long(2), q: long(3), t: long(5) };
    let r = left.merge(Pqt { p: long(7), q: long(11), t: long(13) });
    assert_eq!(r.p.bytes, vec![14u8]);
    assert_eq!(r.q.bytes, vec![33u8]);
    assert_eq!(r.t.bytes, vec![81u8]);
}
