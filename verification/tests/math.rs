use adhoc_audio::math::noise::{
    NoiseDistribution, PseudoRandom, BIN_COUNT, INCREMENT, MODULUS, MULTIPLIER, ONE,
};
use adhoc_audio::math::parabola::FixedParabola;

/// The histogram of `noise` as text: one line for each bin, with a star for
/// every 300th part of the values that fall into it.
fn histogram_text<const N: usize>(noise: &NoiseDistribution<N>) -> String {
    let frequencies = noise.histogram();
    let total = noise.values().len();
    let delta = 1.0 / BIN_COUNT as f32;
    let mut text = String::new();
    for k in 0..frequencies.len() {
        let stars = (frequencies[k] * 300) / total;
        let idx = k as f32;
        let lbound = idx * delta * 2.0 - 1.0;
        let ubound = (idx + 1.0) * delta * 2.0 - 1.0;
        text.push_str(&format!("[ {:05.2} - {:05.2} ]: ", lbound, ubound));
        for _ in 0..stars {
            text.push('*');
        }
        text.push('\n');
    }
    text
}

#[test]
fn noise_sanity() {
    println!("\n\nuniform histogram:\n");
    println!("{}", histogram_text(&NoiseDistribution::<100_000>::uniform()));

    println!("triangle histogram:\n");
    println!("{}", histogram_text(&NoiseDistribution::<100_000>::triangle()));
}

#[test]
fn generator_follows_its_recurrence() {
    assert_eq!(1_000_003, MULTIPLIER);
    assert_eq!(314_159, INCREMENT);
    assert_eq!(507_961, MODULUS);
    let mut seq = PseudoRandom::new(314);
    let draws: Vec<u64> = (0..6).map(|_| seq.rand()).collect();
    assert_eq!(vec![395203, 174587, 118337, 26844, 179724, 124155], draws);
    // a seed that the multiplier takes beyond 64 bits
    let mut large = PseudoRandom::new(u64::MAX);
    assert_eq!(226537, large.rand());
}

#[test]
fn uniform_and_triangle_values() {
    assert_eq!(16384, ONE);
    let mut seq = PseudoRandom::new(314);
    // the low ten bits of each draw, stretched to -1..1
    assert_eq!(14432, seq.uniform());
    assert_eq!(-160, seq.uniform());
    assert_eq!(2080, seq.uniform());
    let mut seq = PseudoRandom::new(314);
    // the low fourteen bits of the second draw less those of the first
    assert_eq!(10747 - 1987, seq.triangle());
    assert_eq!(10460 - 3649, seq.triangle());
    assert_eq!(9467 - 15884, seq.triangle());
}

#[test]
fn distributions_draw_from_the_seed_123() {
    let uniform = NoiseDistribution::<4>::uniform();
    assert_eq!(&[12224, 864, -6368, 1184], uniform.values());
    let triangle = NoiseDistribution::<2>::triangle();
    assert_eq!(&[-3427, -14100], triangle.values());
    let none = NoiseDistribution::<0>::uniform();
    assert_eq!(vec![0usize; 20], none.histogram());
}

#[test]
fn histogram_counts_every_value_once() {
    let uniform = NoiseDistribution::<4>::uniform();
    let histogram = uniform.histogram();
    assert_eq!(20, histogram.len());
    assert_eq!(4, histogram.iter().sum::<usize>());
    // 12224 / 16384 = 0.746: bin 17; 864: 0.053: bin 10;
    // -6368: -0.389: bin 6; 1184: 0.072: bin 10
    assert_eq!(1, histogram[17]);
    assert_eq!(2, histogram[10]);
    assert_eq!(1, histogram[6]);

    let triangle = NoiseDistribution::<100_000>::triangle();
    let histogram = triangle.histogram();
    assert_eq!(100_000, histogram.iter().sum::<usize>());
    // a triangle: the middle bins hold more than the outer ones
    assert!(histogram[9] > histogram[0] * 4);
    assert!(histogram[10] > histogram[19] * 4);
    for v in triangle.values().iter() {
        assert!(-ONE < *v && *v < ONE);
    }
}

#[test]
fn fixed_parabolla() {
    let mut p = FixedParabola::from_samples([10, 12, 15]);
    p.compute_coefs();

    println!("f({}) = {}", 0, p.eval(0));
    println!("f({}) = {}", 1, p.eval(1));
    println!("f({}) = {}", 2, p.eval(2));
    println!("f({}) = {}", 3, p.eval(3));

    (0..p.f.len() as i32).zip(p.f.iter()).for_each(|(x, &f_expected)| {
        let f_eval = p.eval(x);
        assert_eq!(f_eval, f_expected as i128, "accuracy threshold not met")
    });
}

#[test]
fn parabola_coefficients_and_extrapolation() {
    let mut p = FixedParabola::from_samples([10, 12, 15]);
    assert_eq!([0, 0, 0], p.coefs);
    p.compute_coefs();
    // doubled: 2 * 10, 4 * 2 - 5, 5 - 2 * 2
    assert_eq!([20, 3, 1], p.coefs);
    // 10 - 3 * 12 + 3 * 15
    assert_eq!(19, p.eval(3));
    assert_eq!(24, p.eval(4));
    assert_eq!(9, p.eval(-1));

    let flat = FixedParabola::new();
    assert_eq!([0, 0, 0], flat.f);
    assert_eq!(0, flat.eval(1000));

    let mut wide = FixedParabola::from_samples([i32::MIN, i32::MAX, i32::MIN]);
    wide.compute_coefs();
    assert_eq!(i32::MIN as i128, wide.eval(0));
    assert_eq!(i32::MAX as i128, wide.eval(1));
    assert_eq!(i32::MIN as i128, wide.eval(2));
    // coefficients set by hand may give a half, which is rounded down
    let odd = FixedParabola { f: [0, 0, 0], coefs: [1, 0, 0] };
    assert_eq!(0, odd.eval(5));
    let odd = FixedParabola { f: [0, 0, 0], coefs: [-1, 0, 0] };
    assert_eq!(-1, odd.eval(5));
}
