use media_probe::binary64::Binary64;
use media_probe::keyframes::{arrange, is_close, sort_times, space_times};

fn number(x: f64) -> Binary64 {
    Binary64::from_bits(x.to_bits())
}

fn numbers(xs: &[f64]) -> Vec<Binary64> {
    xs.iter().map(|x| number(*x)).collect()
}

fn values(xs: &Vec<Binary64>) -> Vec<f64> {
    xs.iter().map(|x| f64::from_bits(x.bits)).collect()
}

#[test]
fn times_are_sorted() {
    let v = sort_times(&numbers(&[4.0, 0.0, -1.5, 2.0, f64::INFINITY, 2.0]));
    assert_eq!(values(&v), [-1.5, 0.0, 2.0, 2.0, 4.0, f64::INFINITY]);
}

#[test]
fn equal_times_keep_their_order() {
    let v = sort_times(&numbers(&[1.0, 0.0, -0.0]));
    assert_eq!(v[0].bits, 0.0f64.to_bits());
    assert_eq!(v[1].bits, (-0.0f64).to_bits());
    let v = sort_times(&numbers(&[1.0, -0.0, 0.0]));
    assert_eq!(v[0].bits, (-0.0f64).to_bits());
}

#[test]
fn close_times() {
    let pairs = [
        (0.0, 0.001),
        (0.001, 0.0),
        (0.0, 0.0009999999999999998),
        (1.0, 1.001),
        (1.0, 1.0009),
        (100.0, 100.001),
        (100.001, 100.0),
        (5e-324, 0.001),
        (1e-20, 0.001),
        (1e-19, 0.001),
        (3e-19, 0.001),
        (f64::INFINITY, f64::INFINITY),
        (f64::NAN, 1.0),
        (-0.0005, 0.0004),
    ];
    for (a, b) in pairs {
        let expected = (a - b as f64).abs() < 0.001;
        assert_eq!(is_close(number(a), number(b)), expected, "{a:e} {b:e}");
    }
}

#[test]
fn close_times_are_dropped() {
    let v = space_times(&numbers(&[0.0, 0.0005, 0.0009, 0.0015, 0.002, 2.0, 2.0, 4.0]));
    assert_eq!(values(&v), [0.0, 0.0015, 2.0, 4.0]);
}

#[test]
fn arranged_as_the_standard_library_does() {
    let mut state: u64 = 88172645463325252;
    for round in 0..200 {
        let mut xs: Vec<f64> = vec![];
        for _ in 0..(round % 40) {
            state ^= state << 13;
            state ^= state >> 7;
            state ^= state << 17;
            xs.push((state % 60_000) as f64 / 3_000.0);
        }
        let readings: Vec<Option<Binary64>> = xs.iter().map(|x| Some(number(*x))).collect();
        let ours = arrange(&readings);
        xs.sort_by(|a, b| a.partial_cmp(b).unwrap());
        xs.dedup_by(|a, b| (*a - *b).abs() < 0.001);
        assert_eq!(values(&ours), xs);
    }
    let first: Vec<Option<Binary64>> =
        [0.0006, 0.0002, 0.0011].iter().map(|x| Some(number(*x))).collect();
    assert_eq!(values(&arrange(&first)), [0.0002]);
    assert!(arrange(&vec![None, None]).is_empty());
    assert_eq!(values(&arrange(&vec![None, Some(number(3.0))])), [3.0]);
}
