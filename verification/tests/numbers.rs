use ternary_search::numerics::{
    cosine, dot, mean, norm, share, to_four_places, to_four_places_wide, Numerics,
};
use ternary_search::ranking::{first_best, last_best, ranking, top};
use ternary_search::scalar::{
    greater, number, rank_of, rank_of_wide, HALF, MINUS_ONE, ONE, TEN_THOUSAND, TEN_THOUSAND_WIDE, TINY,
    ZERO,
};

struct Native;

impl Numerics for Native {
    fn add(&self, a: u32, b: u32) -> u32 {
        (f32::from_bits(a) + f32::from_bits(b)).to_bits()
    }
    fn mul(&self, a: u32, b: u32) -> u32 {
        (f32::from_bits(a) * f32::from_bits(b)).to_bits()
    }
    fn div(&self, a: u32, b: u32) -> u32 {
        (f32::from_bits(a) / f32::from_bits(b)).to_bits()
    }
    fn sqrt(&self, a: u32) -> u32 {
        f32::from_bits(a).sqrt().to_bits()
    }
    fn round(&self, a: u32) -> u32 {
        f32::from_bits(a).round().to_bits()
    }
    fn count(&self, n: usize) -> u32 {
        (n as f32).to_bits()
    }
    fn widen(&self, a: u32) -> u64 {
        (f32::from_bits(a) as f64).to_bits()
    }
    fn mul_wide(&self, a: u64, b: u64) -> u64 {
        (f64::from_bits(a) * f64::from_bits(b)).to_bits()
    }
    fn div_wide(&self, a: u64, b: u64) -> u64 {
        (f64::from_bits(a) / f64::from_bits(b)).to_bits()
    }
    fn round_wide(&self, a: u64) -> u64 {
        f64::from_bits(a).round().to_bits()
    }
    fn parse(&self, text: &str) -> Option<u32> {
        text.parse::<f32>().ok().map(f32::to_bits)
    }
}

fn bits(v: &[f32]) -> Vec<u32> {
    v.iter().map(|x| x.to_bits()).collect()
}

#[test]
fn constants_are_the_numbers_they_stand_for() {
    assert_eq!(ZERO, 0.0f32.to_bits());
    assert_eq!(ONE, 1.0f32.to_bits());
    assert_eq!(MINUS_ONE, (-1.0f32).to_bits());
    assert_eq!(HALF, 0.5f32.to_bits());
    assert_eq!(TINY, 1e-12f32.to_bits());
    assert_eq!(TEN_THOUSAND, 10000.0f32.to_bits());
    assert_eq!(TEN_THOUSAND_WIDE, 10000.0f64.to_bits());
}

#[test]
fn greater_agrees_with_the_machine() {
    let samples = [
        f32::NEG_INFINITY, f32::MIN, -2.5, -1.0, -0.5, -1e-30, -1e-42, -0.0, 0.0, 1e-42, 1e-30,
        1e-12, 0.25, 0.5, 0.50000006, 1.0, 3.0e38, f32::MAX, f32::INFINITY, f32::NAN, -f32::NAN,
    ];
    for a in samples {
        assert_eq!(number(a.to_bits()), !a.is_nan());
        for b in samples {
            assert_eq!(greater(a.to_bits(), b.to_bits()), a > b, "{a} > {b}");
            if !a.is_nan() && !b.is_nan() {
                assert_eq!(rank_of(a.to_bits()) > rank_of(b.to_bits()), a > b);
                assert_eq!(
                    rank_of_wide((a as f64).to_bits()) > rank_of_wide((b as f64).to_bits()),
                    a > b
                );
            }
        }
    }
}

#[test]
fn what_is_no_number_ranks_last() {
    assert!(rank_of(f32::NAN.to_bits()) < rank_of(f32::NEG_INFINITY.to_bits()));
    assert!(rank_of((-f32::NAN).to_bits()) < rank_of(f32::NEG_INFINITY.to_bits()));
    assert!(rank_of_wide(f64::NAN.to_bits()) < rank_of_wide(f64::NEG_INFINITY.to_bits()));
    assert_eq!(rank_of((-0.0f32).to_bits()), rank_of(0.0f32.to_bits()));
    assert_eq!(rank_of_wide((-0.0f64).to_bits()), 0);
}

#[test]
fn products_norms_and_means() {
    let a = bits(&[1.0, 2.0, 3.0]);
    let b = bits(&[4.0, -5.0, 6.0]);
    assert_eq!(f32::from_bits(dot(&Native, &a, &b)), 12.0);
    assert_eq!(f32::from_bits(norm(&Native, &bits(&[3.0, 4.0]))), 5.0);
    assert_eq!(f32::from_bits(share(&Native, 4)), 0.25);
    let quarter = share(&Native, 4);
    assert_eq!(f32::from_bits(mean(&Native, &bits(&[1.0, 2.0, 3.0, 6.0]), quarter)), 3.0);
    assert_eq!(dot(&Native, &[], &[]), ZERO);
}

#[test]
fn cosine_divides_by_the_lengths() {
    let a = bits(&[3.0, 4.0]);
    let b = bits(&[4.0, 3.0]);
    let five = 5.0f32.to_bits();
    assert_eq!(f32::from_bits(cosine(&Native, &a, five, &b, five)), 24.0 / 25.0);
    assert_eq!(cosine(&Native, &a, five, &bits(&[0.0, 0.0]), ZERO), ZERO);
    assert_eq!(cosine(&Native, &a, f32::NAN.to_bits(), &b, five), ZERO);
    let small = 1e-7f32.to_bits();
    assert_eq!(cosine(&Native, &a, small, &b, small), ZERO);
}

#[test]
fn four_places() {
    assert_eq!(f32::from_bits(to_four_places(&Native, 0.123456f32.to_bits())), 0.1235);
    assert_eq!(f32::from_bits(to_four_places(&Native, 0.95123f32.to_bits())), 0.9512);
    assert_eq!(f64::from_bits(to_four_places_wide(&Native, 0.71f32.to_bits())), 0.71);
    assert_eq!(f64::from_bits(to_four_places_wide(&Native, 0.50006f32.to_bits())), 0.5001);
}

#[test]
fn ranking_is_by_key_and_then_by_place() {
    assert_eq!(ranking(&vec![]), Vec::<usize>::new());
    assert_eq!(ranking(&vec![5]), vec![0]);
    assert_eq!(ranking(&vec![1, 3, 2, 3, 1, 3]), vec![1, 3, 5, 2, 0, 4]);
    let keys: Vec<i64> = (0..1000).map(|i| (i * 7919) % 101).collect();
    let mut expected: Vec<usize> = (0..1000).collect();
    expected.sort_by(|a, b| keys[*b].cmp(&keys[*a]));
    assert_eq!(ranking(&keys), expected);
}

#[test]
fn top_rows() {
    let rows: Vec<(usize, u32)> = [0.2f32, 0.9, f32::NAN, 0.5, 0.9]
        .iter()
        .enumerate()
        .map(|(i, x)| (i, x.to_bits()))
        .collect();
    let places = |n: usize| -> Vec<usize> { top(&rows, n).iter().map(|r| r.0).collect() };
    assert_eq!(places(0), Vec::<usize>::new());
    assert_eq!(places(2), vec![1, 4]);
    assert_eq!(places(3), vec![1, 4, 3]);
    assert_eq!(places(9), vec![1, 4, 3, 0, 2]);
    assert_eq!(top(&rows, 1), vec![(1, 0.9f32.to_bits())]);
}

#[test]
fn first_and_last_of_the_best() {
    let values = bits(&[-2.0, f32::NAN, 0.5, 0.7, 0.7]);
    assert_eq!(first_best(&values, Some(MINUS_ONE)), Some(3));
    assert_eq!(first_best(&values, Some(ONE)), None);
    assert_eq!(first_best(&bits(&[-1.0]), Some(MINUS_ONE)), None);
    assert_eq!(first_best(&values, Some(f32::NAN.to_bits())), None);
    assert_eq!(first_best(&values, None), Some(3));
    assert_eq!(first_best(&bits(&[f32::NAN, f32::NEG_INFINITY, -9.0, -9.0]), None), Some(2));
    assert_eq!(first_best(&bits(&[f32::NEG_INFINITY]), None), Some(0));
    assert_eq!(first_best(&bits(&[f32::NAN, -f32::NAN]), None), None);
    assert_eq!(first_best(&vec![], None), None);
    let rows: Vec<(usize, u32)> = vec![
        (9, 0.7f32.to_bits()),
        (8, 0.7f32.to_bits()),
        (7, 0.1f32.to_bits()),
    ];
    assert_eq!(last_best(&rows), 1);
}
