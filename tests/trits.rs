use mam::pascal::{decode, encode};
use mam::trits::{incr, int2trits, min_trits, trit_sum};

#[test]
fn pascal_round_trips() {
    for n in [0usize, 1, 2, 3, 4, 13, 14, 40, 41, 1000, 123456789, usize::MAX] {
        let mut e = encode(n);
        let len = e.len();
        e.extend([1i8, -1, 0, 1]);
        assert_eq!(decode(&e), Some((n, len)));
    }
}

#[test]
fn pascal_exact_encoding() {
    assert_eq!(encode(0), vec![0, 0]);
    assert_eq!(encode(1), vec![1, 0]);
    assert_eq!(encode(5), vec![-1, 1, -1, 1, 1, 0]);
    assert_eq!(decode(&[1, 0, 1, 1]), Some((1, 2)));
}

#[test]
fn pascal_short_input_is_malformed() {
    assert_eq!(decode(&[]), None);
    assert_eq!(decode(&[1]), None);
    assert_eq!(decode(&[1, 1]), None);
    assert_eq!(decode(&[1, -1, 0]), None);
    assert_eq!(decode(&[-1, 0]), None);
}

#[test]
fn int2trits_values() {
    assert_eq!(int2trits(0), vec![0]);
    assert_eq!(int2trits(8), vec![-1, 0, 1]);
    assert_eq!(min_trits(8), 3);
    assert_eq!(min_trits(0), 1);
}

#[test]
fn incr_wraps() {
    let mut v = vec![1i8, 1];
    incr(&mut v);
    assert_eq!(v, vec![-1, -1]);
    let mut w = vec![0i8, 1];
    incr(&mut w);
    assert_eq!(w, vec![1, 1]);
    let mut x = vec![1i8, 0];
    incr(&mut x);
    assert_eq!(x, vec![-1, 1]);
}

#[test]
fn trit_sum_wraps() {
    assert_eq!(trit_sum(1, 1), -1);
    assert_eq!(trit_sum(-1, -1), 1);
    assert_eq!(trit_sum(1, -1), 0);
    assert_eq!(trit_sum(0, 1), 1);
}
