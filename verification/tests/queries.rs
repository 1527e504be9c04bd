use ternary_search::numerics::Numerics;
use ternary_search::service::{
    missing_query, not_a_vector, parse_query_vector, read_request, respond, RequestError,
    SearchRequest,
};
use ternary_search::vectors::{Record, VectorStore, DIM};

struct Native;

impl Numerics for Native {
    fn add(&self, a: u32, b: u32) -> u32 {
        (f32::from_bits(a) + f32::from_bits(b)).to_bits()
    }
    fn mul(&self, a: u32, b: u32) -> u32 {
        (f32::from_bits(a) * f32::from_bits(b)).to_bits()
    }
    fn div(&self, a: u32, b: u32) -> u32 {
        (f32::from_bits(a) / f32::from_bits(b)).to_bits()
    }
    fn sqrt(&self, a: u32) -> u32 {
        f32::from_bits(a).sqrt().to_bits()
    }
    fn round(&self, a: u32) -> u32 {
        f32::from_bits(a).round().to_bits()
    }
    fn count(&self, n: usize) -> u32 {
        (n as f32).to_bits()
    }
    fn widen(&self, a: u32) -> u64 {
        (f32::from_bits(a) as f64).to_bits()
    }
    fn mul_wide(&self, a: u64, b: u64) -> u64 {
        (f64::from_bits(a) * f64::from_bits(b)).to_bits()
    }
    fn div_wide(&self, a: u64, b: u64) -> u64 {
        (f64::from_bits(a) / f64::from_bits(b)).to_bits()
    }
    fn round_wide(&self, a: u64) -> u64 {
        f64::from_bits(a).round().to_bits()
    }
    fn parse(&self, text: &str) -> Option<u32> {
        text.parse::<f32>().ok().map(f32::to_bits)
    }
}

fn vector(entries: &[(usize, f32)]) -> [u32; DIM] {
    let mut v = [0u32; DIM];
    for (i, x) in entries {
        v[*i] = x.to_bits();
    }
    v
}

fn record(name: &str, concepts: &[&str], entries: &[(usize, f32)]) -> Record {
    Record {
        name: name.to_string(),
        description: format!("about {name}"),
        concepts: concepts.iter().map(|c| c.to_string()).collect(),
        values: vector(entries).to_vec(),
        readme_length: None,
    }
}

fn store() -> VectorStore {
    VectorStore::from_records(
        &Native,
        &vec![
            record("near", &["search"], &[(0, 0.8), (1, 0.6)]),
            record("nearer", &["storage"], &[(0, 0.96), (1, 0.28)]),
            record("far", &["search"], &[(1, 1.0)]),
            record("off", &["async"], &[(2, 2.0)]),
            record("against", &[], &[(0, -1.0)]),
        ],
    )
}

fn rows(found: &[(usize, u32)]) -> Vec<(usize, f32)> {
    found.iter().map(|r| (r.0, f32::from_bits(r.1))).collect()
}

fn places(found: &[(usize, u32)]) -> Vec<usize> {
    found.iter().map(|r| r.0).collect()
}

const BOOST: f32 = 1.15;

#[test]
fn the_nearest_centroid_names_the_concept() {
    let s = store();
    let (name, sim) = s.classify_concept(&Native, &vector(&[(0, 1.0)]));
    assert_eq!(name, Some("storage".to_string()));
    assert_eq!(f32::from_bits(sim), 0.96);
    let (name, _) = s.classify_concept(&Native, &vector(&[(1, 1.0)]));
    assert_eq!(name, Some("search".to_string()));
    let (name, sim) = s.classify_concept(&Native, &vector(&[(2, 0.25)]));
    assert_eq!(name, Some("async".to_string()));
    assert_eq!(f32::from_bits(sim), 0.5);
}

#[test]
fn the_nearest_concept_may_be_far() {
    let opposed = VectorStore::from_records(&Native, &vec![record("a", &["x"], &[(0, 1.0)])]);
    let (name, sim) = opposed.classify_concept(&Native, &vector(&[(0, -1.0)]));
    assert_eq!(name, Some("x".to_string()));
    assert_eq!(f32::from_bits(sim), -1.0);
    let (name, sim) = opposed.classify_concept(&Native, &vector(&[(0, -7.5)]));
    assert_eq!(name, Some("x".to_string()));
    assert_eq!(f32::from_bits(sim), -7.5);
    let both = VectorStore::from_records(
        &Native,
        &vec![record("a", &["x"], &[(0, 3.0)]), record("b", &["y"], &[(0, 2.0)])],
    );
    let (name, sim) = both.classify_concept(&Native, &vector(&[(0, -1.0)]));
    assert_eq!(name, Some("y".to_string()));
    assert_eq!(f32::from_bits(sim), -2.0);
}

#[test]
fn there_may_be_no_concept() {
    let alone = VectorStore::from_records(&Native, &vec![record("a", &[], &[(0, 1.0)])]);
    let (name, sim) = alone.classify_concept(&Native, &vector(&[(0, 1.0)]));
    assert_eq!(name, None);
    assert_eq!(f32::from_bits(sim), -1.0);
    let (name, sim) = store().classify_concept(&Native, &vector(&[(0, f32::NAN)]));
    assert_eq!(name, None);
    assert_eq!(f32::from_bits(sim), -1.0);
}

#[test]
fn results_are_ranked_by_similarity() {
    let s = store();
    let (best, found) = s.search(&Native, &vector(&[(0, 2.0)]), 3, 1.0f32.to_bits());
    assert_eq!(places(&best), vec![1, 0, 2]);
    assert_eq!(rows(&best)[1].1, 0.8);
    let (name, score) = found.unwrap();
    assert_eq!(name, "storage");
    assert_eq!(f32::from_bits(score), 1.92);
    let (all, _) = s.search(&Native, &vector(&[(0, 1.0)]), 50, 1.0f32.to_bits());
    assert_eq!(places(&all), vec![1, 0, 2, 3, 4]);
    assert_eq!(rows(&all)[4].1, -1.0);
    let (none, _) = s.search(&Native, &vector(&[(0, 1.0)]), 0, 1.0f32.to_bits());
    assert_eq!(none.len(), 0);
}

#[test]
fn members_of_the_concept_are_boosted() {
    let s = store();
    let query = vector(&[(0, 0.64), (1, 0.768)]);
    let (plain, _) = s.search(&Native, &query, 3, 1.0f32.to_bits());
    let (boosted, found) = s.search(&Native, &query, 3, BOOST.to_bits());
    assert_eq!(found.unwrap().0, "search");
    assert_eq!(places(&plain), vec![0, 1, 2]);
    assert_eq!(places(&boosted), vec![0, 2, 1]);
    assert_eq!(rows(&boosted)[0].1, rows(&plain)[0].1 * BOOST);
    assert_eq!(rows(&boosted)[1].1, rows(&plain)[2].1 * BOOST);
    assert_eq!(rows(&boosted)[2].1, rows(&plain)[1].1);
}

#[test]
fn a_boost_is_no_filter() {
    let s = VectorStore::from_records(
        &Native,
        &vec![
            record("in", &["c"], &[(0, 0.6), (1, 0.8)]),
            record("out", &[], &[(0, 1.0)]),
        ],
    );
    let (best, found) = s.search(&Native, &vector(&[(0, 1.0)]), 2, BOOST.to_bits());
    assert_eq!(found.unwrap().0, "c");
    assert_eq!(places(&best), vec![1, 0]);
    assert_eq!(rows(&best)[1].1, 0.6 * BOOST);
}

#[test]
fn equal_scores_keep_the_order_of_the_rows() {
    let s = VectorStore::from_records(
        &Native,
        &(0..40).map(|i| record(&format!("r{i}"), &[], &[(0, 1.0)])).collect(),
    );
    let (best, found) = s.search(&Native, &vector(&[(0, 1.0)]), 7, BOOST.to_bits());
    assert!(found.is_none());
    assert_eq!(places(&best), vec![0, 1, 2, 3, 4, 5, 6]);
}

#[test]
fn a_query_of_no_length_scores_nothing() {
    let s = store();
    let (best, _) = s.search(&Native, &vector(&[]), 5, BOOST.to_bits());
    assert!(rows(&best).iter().all(|r| r.1 == 0.0));
    let (best, _) = s.search(&Native, &vector(&[(0, f32::NAN)]), 5, BOOST.to_bits());
    assert!(rows(&best).iter().all(|r| r.1 == 0.0));
    let (best, _) = s.search(&Native, &vector(&[(0, f32::INFINITY)]), 5, BOOST.to_bits());
    assert_eq!(best.len(), 5);
}

#[test]
fn cosines_of_rows() {
    let s = store();
    let q = vector(&[(2, 3.0)]);
    assert_eq!(f32::from_bits(s.dot(&Native, &q, 3)), 6.0);
    assert_eq!(f32::from_bits(s.cosine(&Native, &q, 3.0f32.to_bits(), 3)), 1.0);
    assert_eq!(f32::from_bits(s.cosine(&Native, &q, 3.0f32.to_bits(), 0)), 0.0);
}

#[test]
fn cross_pollination_is_outside_the_concept() {
    let s = store();
    let q = vector(&[(0, 1.0)]);
    assert_eq!(rows(&s.cross_pollination(&Native, &q, None, 5)), vec![(1, 0.96), (0, 0.8)]);
    assert_eq!(rows(&s.cross_pollination(&Native, &q, Some("storage"), 5)), vec![(0, 0.8)]);
    assert_eq!(rows(&s.cross_pollination(&Native, &q, Some("search"), 5)), vec![(1, 0.96)]);
    assert_eq!(s.cross_pollination(&Native, &q, Some("unknown"), 5).len(), 2);
    assert_eq!(places(&s.cross_pollination(&Native, &q, None, 1)), vec![1]);
    assert_eq!(s.cross_pollination(&Native, &q, None, 0).len(), 0);
}

#[test]
fn one_half_is_not_enough_for_cross_pollination() {
    let half = VectorStore::from_records(
        &Native,
        &vec![
            record("half", &[], &[(0, 1.0), (1, 1.0), (2, 1.0), (3, 1.0)]),
            record("more", &[], &[(0, 2.0), (1, 1.0), (2, 1.0), (3, 1.0)]),
        ],
    );
    assert_eq!(places(&half.cross_pollination(&Native, &vector(&[(0, 1.0)]), None, 5)), vec![1]);
}

#[test]
fn hits_are_cut_and_rounded() {
    let mut r = record("n", &["a", "b", "c", "d", "e"], &[(0, 1.0)]);
    r.description = "ö".repeat(250);
    let s = VectorStore::from_records(&Native, &vec![r]);
    let hit = s.hit(&Native, 0, 0.71236f32.to_bits(), true);
    assert_eq!(hit.name, "n");
    assert_eq!(f32::from_bits(hit.score), 0.7124);
    assert_eq!(hit.concepts, vec!["a", "b", "c", "d"]);
    assert_eq!(hit.description, "ö".repeat(200));
    assert!(hit.in_concept);
}

#[test]
fn an_answer() {
    let s = store();
    let request = SearchRequest { vector: vector(&[(0, 1.0)]), top_k: 2 };
    let r = respond(&Native, &s, &request, BOOST.to_bits());
    assert_eq!(r.query, "vec[384]");
    assert_eq!(r.concept, Some("storage".to_string()));
    assert_eq!(f32::from_bits(r.concept_confidence), 0.96);
    assert_eq!(r.total_crates, 5);
    assert_eq!(r.results.len(), 2);
    assert_eq!(r.results[0].name, "nearer");
    assert_eq!(f32::from_bits(r.results[0].score), 1.104);
    assert!(r.results[0].in_concept);
    assert_eq!(r.results[1].name, "near");
    assert!(!r.results[1].in_concept);
    assert_eq!(r.cross_pollination.len(), 1);
    assert_eq!(r.cross_pollination[0].name, "near");
    assert_eq!(r.cross_pollination[0].description, "about near");
    assert!(!r.cross_pollination[0].in_concept);
}

#[test]
fn an_answer_without_a_concept() {
    let s = VectorStore::from_records(
        &Native,
        &(0..9).map(|i| record(&format!("r{i}"), &[], &[(0, 1.0)])).collect(),
    );
    let request = SearchRequest { vector: vector(&[(0, 1.0)]), top_k: 100 };
    let r = respond(&Native, &s, &request, BOOST.to_bits());
    assert_eq!(r.concept, None);
    assert_eq!(f32::from_bits(r.concept_confidence), 0.0);
    assert_eq!(r.results.len(), 9);
    assert_eq!(r.cross_pollination.len(), 5);
}

fn spelled(n: usize) -> String {
    (0..n).map(|i| format!("{}.5", i)).collect::<Vec<String>>().join(",")
}

#[test]
fn vectors_are_spelled_with_commas() {
    let v = parse_query_vector(&Native, &spelled(DIM)).unwrap();
    assert_eq!(f32::from_bits(v[0]), 0.5);
    assert_eq!(f32::from_bits(v[383]), 383.5);
    assert!(parse_query_vector(&Native, &spelled(DIM - 1)).is_none());
    assert!(parse_query_vector(&Native, &spelled(DIM + 1)).is_none());
    assert!(parse_query_vector(&Native, "").is_none());
    let spaced = spelled(DIM).replace(',', " ,\t");
    assert_eq!(parse_query_vector(&Native, &spaced), Some(v));
    let bad = spelled(DIM).replace("7.5,8.5", "7.5,x");
    assert!(parse_query_vector(&Native, &bad).is_none());
    let gap = spelled(DIM).replace("7.5,8.5", "7.5,");
    assert!(parse_query_vector(&Native, &gap).is_none());
}

#[test]
fn vectors_are_spelled_as_arrays() {
    let v = parse_query_vector(&Native, &spelled(DIM));
    assert_eq!(parse_query_vector(&Native, &format!("[{}]", spelled(DIM))), v);
    assert_eq!(parse_query_vector(&Native, &format!(" [ {} ] ", spelled(DIM))), v);
    assert!(parse_query_vector(&Native, &format!("[{}", spelled(DIM))).is_none());
    assert!(parse_query_vector(&Native, "[]").is_none());
}

#[test]
fn requests() {
    let q = spelled(DIM);
    let wanted = |k: Option<usize>| -> usize {
        match read_request(&Native, Some(&q), k) {
            Ok(r) => r.top_k,
            Err(_) => panic!("no request"),
        }
    };
    assert_eq!(wanted(None), 10);
    assert_eq!(wanted(Some(0)), 1);
    assert_eq!(wanted(Some(1)), 1);
    assert_eq!(wanted(Some(37)), 37);
    assert_eq!(wanted(Some(100)), 100);
    assert_eq!(wanted(Some(101)), 100);
    assert!(matches!(read_request(&Native, None, None), Err(RequestError::MissingQuery)));
    assert!(matches!(read_request(&Native, Some("1,2"), None), Err(RequestError::NotAVector)));
}

#[test]
fn messages() {
    assert_eq!(missing_query(), "Missing ?q= parameter");
    assert_eq!(not_a_vector("1,2"), "Expected 384 comma-separated float values, got: 1,2");
    let long = "é".repeat(41);
    assert_eq!(
        not_a_vector(&long),
        format!("Expected 384 comma-separated float values, got: {}", "é".repeat(40))
    );
    let exact = "a".repeat(80);
    assert_eq!(
        not_a_vector(&exact),
        format!("Expected 384 comma-separated float values, got: {exact}")
    );
}

#[test]
fn the_same_request_has_the_same_answer() {
    let s = store();
    let query = vector(&[(0, 0.31), (1, 0.77), (2, 0.55)]);
    let (best, found) = s.search(&Native, &query, 4, BOOST.to_bits());
    let (again, still) = s.search(&Native, &query, 4, BOOST.to_bits());
    assert_eq!(best, again);
    assert_eq!(found, still);
    assert_eq!(
        s.cross_pollination(&Native, &query, Some("search"), 5),
        s.cross_pollination(&Native, &query, Some("search"), 5)
    );
    for pair in best.windows(2) {
        assert!(f32::from_bits(pair[0].1) >= f32::from_bits(pair[1].1));
    }
}

#[test]
fn fewer_results_are_the_first_of_more() {
    let s = store();
    for query in [vector(&[(0, 0.31), (1, 0.77), (2, 0.55)]), vector(&[(0, 1.0)])] {
        let (all, _) = s.search(&Native, &query, 9, BOOST.to_bits());
        let outside = s.cross_pollination(&Native, &query, Some("search"), 9);
        for n in 0..7 {
            let (some, _) = s.search(&Native, &query, n, BOOST.to_bits());
            assert_eq!(some, all[..n.min(all.len())]);
            let few = s.cross_pollination(&Native, &query, Some("search"), n);
            assert_eq!(few, outside[..n.min(outside.len())]);
        }
    }
}

#[test]
fn the_concept_goes_by_the_query_alone() {
    let s = store();
    for query in [vector(&[(0, 1.0)]), vector(&[(1, 1.0)]), vector(&[(2, -4.0)])] {
        let (name, sim) = s.classify_concept(&Native, &query);
        let expected = name.map(|name| (name, sim));
        for n in [0, 1, 5] {
            for boost in [0.5f32, 1.0, 1.15, 40.0] {
                assert_eq!(s.search(&Native, &query, n, boost.to_bits()).1, expected);
            }
        }
    }
}

#[test]
fn an_unknown_concept_excludes_nothing() {
    let s = store();
    for query in [vector(&[(0, 1.0)]), vector(&[(1, 1.0)]), vector(&[(0, 1.0), (1, 1.0)])] {
        assert_eq!(
            s.cross_pollination(&Native, &query, Some("unknown"), 5),
            s.cross_pollination(&Native, &query, None, 5)
        );
    }
}

#[test]
fn a_written_vector_is_read_back() {
    let mut v = [0u32; DIM];
    for (i, x) in v.iter_mut().enumerate() {
        let sign = if i % 2 == 0 { 1.0f32 } else { -1.0 };
        *x = (sign * (i as f32 + 0.1) * 10f32.powi(i as i32 % 50 - 25)).to_bits();
    }
    v[7] = f32::MAX.to_bits();
    v[8] = f32::MIN_POSITIVE.to_bits();
    v[9] = (-0.0f32).to_bits();
    let numbers: Vec<String> = v.iter().map(|x| f32::from_bits(*x).to_string()).collect();
    let q = numbers.join(",");
    assert_eq!(parse_query_vector(&Native, &q), Some(v));
    assert_eq!(parse_query_vector(&Native, &format!("[{q}]")), Some(v));
}

#[test]
fn rounded_scores_keep_their_order_and_stay() {
    let s = store();
    let rounded = |x: f32| -> f32 { f32::from_bits(s.hit(&Native, 0, x.to_bits(), false).score) };
    let mut before = rounded(-2.0);
    for i in 0..=8000 {
        let x = -2.0 + i as f32 * 0.0005003;
        let r = rounded(x);
        assert_eq!(rounded(r), r);
        assert!(before <= r);
        assert!((r - x).abs() <= 0.000051);
        before = r;
    }
}

#[test]
fn cosines_do_not_depend_on_scale() {
    let s = store();
    let query = vector(&[(0, 0.31), (1, -0.77), (2, 0.55)]);
    let mut twice = query;
    for x in twice.iter_mut() {
        *x = (2.0 * f32::from_bits(*x)).to_bits();
    }
    let length = ternary_search::numerics::norm(&Native, &query);
    let double = ternary_search::numerics::norm(&Native, &twice);
    assert_eq!(f32::from_bits(double), 2.0 * f32::from_bits(length));
    for row in 0..s.len {
        let c = s.cosine(&Native, &query, length, row);
        assert_eq!(s.cosine(&Native, &twice, double, row), c);
        assert!(f32::from_bits(c).abs() <= 1.001);
    }
}

#[test]
fn shown_scores_never_rise() {
    let s = store();
    for query in [vector(&[(0, 0.31), (1, 0.77), (2, 0.55)]), vector(&[(0, 1.0), (1, 0.2)])] {
        let request = SearchRequest { vector: query, top_k: 5 };
        let r = respond(&Native, &s, &request, BOOST.to_bits());
        for hits in [&r.results, &r.cross_pollination] {
            for pair in hits.windows(2) {
                assert!(f32::from_bits(pair[0].score) >= f32::from_bits(pair[1].score));
            }
        }
    }
}

#[test]
fn marks_go_with_the_boost() {
    let s = store();
    let query = vector(&[(0, 0.64), (1, 0.768)]);
    let request = SearchRequest { vector: query, top_k: 5 };
    let plain = respond(&Native, &s, &request, 1.0f32.to_bits());
    let boosted = respond(&Native, &s, &request, 2.0f32.to_bits());
    assert_eq!(boosted.concept, Some("search".to_string()));
    for hit in &boosted.results {
        let before = plain.results.iter().find(|h| h.name == hit.name).unwrap();
        let factor = if hit.in_concept { 2.0 } else { 1.0 };
        let change = f32::from_bits(hit.score) - factor * f32::from_bits(before.score);
        assert!(change.abs() <= 0.0002);
        assert_eq!(hit.in_concept, hit.concepts.contains(&"search".to_string()));
    }
    assert!(boosted.cross_pollination.iter().all(|h| !h.in_concept));
}
