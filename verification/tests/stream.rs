use pythagorean_triples::pythagorean_triples;
use pythagorean_triples::PythagoreanTripleIter;

fn gcd(a: i64, b: i64) -> i64 {
    let mut x = a;
    let mut y = b;
    while y != 0 {
        let r = x % y;
        x = y;
        y = r;
    }
    x
}

fn take(stream: &mut PythagoreanTripleIter, n: usize) -> Vec<(i64, i64, i64)> {
    let mut out = Vec::new();
    for _ in 0..n {
        out.push(stream.next().unwrap());
    }
    out
}

/// All primitive triples with hypotenuse up to `bound`, by exhaustive search.
fn search(bound: i64) -> Vec<(i64, i64, i64)> {
    let mut found = Vec::new();
    for c in 1..=bound {
        for a in 1..c {
            let b2 = c * c - a * a;
            let mut b = (b2 as f64).sqrt() as i64;
            while b * b > b2 {
                b -= 1;
            }
            while (b + 1) * (b + 1) <= b2 {
                b += 1;
            }
            if b * b == b2 && a < b && gcd(gcd(a, b), c) == 1 {
                found.push((a, b, c));
            }
        }
    }
    found
}

#[test]
fn test_ascending() {
    let mut triple_generator = pythagorean_triples();
    let mut previous = triple_generator.next().unwrap();
    for _ in 0..999_999 {
        let next @ (x, _, z) = triple_generator.next().unwrap();
        let (a, _, c) = previous;
        assert!((c, a) < (z, x));

        previous = next;
    }
}

#[test]
fn first_triple_is_three_four_five() {
    let mut stream = pythagorean_triples();
    assert_eq!(stream.next(), Some((3, 4, 5)));
}

#[test]
fn second_triple_is_the_child_with_least_hypotenuse() {
    let mut stream = pythagorean_triples();
    stream.next();
    assert_eq!(stream.next(), Some((5, 12, 13)));
}

#[test]
fn third_triple() {
    let mut stream = pythagorean_triples();
    stream.next();
    stream.next();
    assert_eq!(stream.next(), Some((8, 15, 17)));
}

#[test]
fn first_five_triples() {
    let mut stream = pythagorean_triples();
    assert_eq!(
        take(&mut stream, 5),
        vec![(3, 4, 5), (5, 12, 13), (8, 15, 17), (7, 24, 25), (20, 21, 29)]
    );
}

#[test]
fn first_twelve_triples() {
    let mut stream = pythagorean_triples();
    assert_eq!(
        take(&mut stream, 12),
        vec![
            (3, 4, 5),
            (5, 12, 13),
            (8, 15, 17),
            (7, 24, 25),
            (20, 21, 29),
            (12, 35, 37),
            (9, 40, 41),
            (28, 45, 53),
            (11, 60, 61),
            (16, 63, 65),
            (33, 56, 65),
            (48, 55, 73),
        ]
    );
}

#[test]
fn equal_hypotenuses_come_by_first_leg() {
    let mut stream = pythagorean_triples();
    let triples = take(&mut stream, 200);
    let same: Vec<(i64, i64, i64)> = triples.iter().copied().filter(|t| t.2 == 65).collect();
    assert_eq!(same, vec![(16, 63, 65), (33, 56, 65)]);
    let same: Vec<(i64, i64, i64)> = triples.iter().copied().filter(|t| t.2 == 85).collect();
    assert_eq!(same, vec![(13, 84, 85), (36, 77, 85)]);
}

#[test]
fn triples_are_primitive_and_pythagorean() {
    let mut stream = pythagorean_triples();
    for _ in 0..20_000 {
        let (a, b, c) = stream.next().unwrap();
        assert!(0 < a && a < b && b < c);
        assert_eq!(a * a + b * b, c * c);
        assert_eq!(gcd(gcd(a, b), c), 1);
    }
}

#[test]
fn first_million_satisfy_the_equation_without_repeats() {
    let mut stream = pythagorean_triples();
    let mut previous = (0, 0, 0);
    for _ in 0..1_000_000 {
        let t = stream.next().unwrap();
        assert!(t.0 < t.1 && t.1 < t.2);
        assert_eq!(t.0 * t.0 + t.1 * t.1, t.2 * t.2);
        assert_ne!(t, previous);
        assert!((previous.2, previous.0) < (t.2, t.0));
        previous = t;
    }
}

#[test]
fn every_primitive_triple_up_to_a_bound_occurs_once() {
    let bound = 1500;
    let mut expected = search(bound);
    expected.sort_by_key(|t| (t.2, t.0));
    let mut stream = pythagorean_triples();
    let mut produced = Vec::new();
    loop {
        let t = stream.next().unwrap();
        if t.2 > bound {
            break;
        }
        produced.push(t);
    }
    assert_eq!(produced.len(), 239);
    assert_eq!(produced, expected);
}

#[test]
fn count_of_triples_with_hypotenuse_up_to_one_hundred() {
    let mut stream = pythagorean_triples();
    let mut count = 0;
    while stream.next().unwrap().2 <= 100 {
        count += 1;
    }
    assert_eq!(count, 16);
}

#[test]
fn two_runs_agree() {
    let mut first = pythagorean_triples();
    let mut second = pythagorean_triples();
    for _ in 0..10_000 {
        assert_eq!(first.next(), second.next());
    }
}

#[test]
fn runs_agree_when_interleaved_or_not() {
    let mut first = pythagorean_triples();
    let ahead = take(&mut first, 1_000);
    let mut second = pythagorean_triples();
    let behind = take(&mut second, 1_000);
    assert_eq!(ahead, behind);
    assert_eq!(first.next(), second.next());
}

#[test]
fn stream_never_ends_early() {
    let mut stream = pythagorean_triples();
    for _ in 0..50_000 {
        assert!(stream.next().is_some());
    }
}
