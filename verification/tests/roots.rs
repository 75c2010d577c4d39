use cfft::roots::{octant_denominator, root_source, Reflection};

fn point(index: usize, den: usize) -> (f64, f64) {
    let angle = 2.0 * std::f64::consts::PI * (index as f64) / (den as f64);
    (angle.cos(), angle.sin())
}

fn reflect(source: Reflection, den: usize) -> (f64, f64) {
    let (mut re, mut im) = point(source.index, den);
    if source.swap {
        (re, im) = (im, re);
    }
    if source.neg_re {
        re = -re;
    }
    if source.neg_im {
        im = -im;
    }
    (re, im)
}

#[test]
fn octant_denominator_is_a_multiple_of_four() {
    assert_eq!(octant_denominator(8), 8);
    assert_eq!(octant_denominator(100), 100);
    assert_eq!(octant_denominator(6), 12);
    assert_eq!(octant_denominator(2), 4);
    assert_eq!(octant_denominator(7), 28);
    assert_eq!(octant_denominator(1), 4);
    assert_eq!(octant_denominator(997), 3988);
    assert_eq!(octant_denominator(0), 0);
}

#[test]
fn every_source_lies_in_the_first_octant() {
    for n in 1..200usize {
        let den = octant_denominator(n);
        for k in 0..n {
            assert!(8 * root_source(n, k).index <= den);
        }
    }
}

#[test]
fn reflected_entry_is_the_root() {
    for n in [1usize, 2, 3, 4, 5, 7, 8, 16, 100, 997] {
        let den = octant_denominator(n);
        for k in 0..n {
            let (re, im) = reflect(root_source(n, k), den);
            let (want_re, want_im) = point(k, n);
            assert!((re - want_re).abs() < 1e-12, "n = {}, k = {}", n, k);
            assert!((im - want_im).abs() < 1e-12, "n = {}, k = {}", n, k);
        }
    }
}

#[test]
fn roots_of_order_eight() {
    let sources: Vec<(usize, bool, bool, bool)> = (0..8)
        .map(|k| {
            let r = root_source(8, k);
            (r.index, r.swap, r.neg_re, r.neg_im)
        })
        .collect();
    assert_eq!(
        sources,
        vec![
            (0, false, false, false),
            (1, false, false, false),
            (0, true, true, false),
            (1, true, true, false),
            (0, false, true, true),
            (1, false, true, true),
            (0, true, false, true),
            (1, true, false, true),
        ]
    );
}

#[test]
fn roots_of_order_six() {
    // Read from the roots of order 12.
    let sources: Vec<(usize, bool, bool, bool)> = (0..6)
        .map(|k| {
            let r = root_source(6, k);
            (r.index, r.swap, r.neg_re, r.neg_im)
        })
        .collect();
    assert_eq!(
        sources,
        vec![
            (0, false, false, false),
            (1, true, false, false),
            (1, true, true, false),
            (0, false, true, true),
            (1, true, true, true),
            (1, true, false, true),
        ]
    );
}

#[test]
fn roots_of_order_five() {
    // Read from the roots of order 20.
    let sources: Vec<(usize, bool, bool, bool)> = (0..5)
        .map(|k| {
            let r = root_source(5, k);
            (r.index, r.swap, r.neg_re, r.neg_im)
        })
        .collect();
    assert_eq!(
        sources,
        vec![
            (0, false, false, false),
            (1, true, false, false),
            (2, false, true, false),
            (2, false, true, true),
            (1, true, false, true),
        ]
    );
}

#[test]
fn single_root_is_one() {
    let r = root_source(1, 0);
    assert_eq!((r.index, r.swap, r.neg_re, r.neg_im), (0, false, false, false));
}
