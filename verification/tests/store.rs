use ternary_search::concepts::{
    pairs_below, AnalysisDecoder, AnalysisFile, ConceptAnalysis, CrossPair, FrontierEntry,
};
use ternary_search::index::{find, includes};
use ternary_search::numerics::Numerics;
use ternary_search::service::{concept_detail, shown_frontier, shown_pairs};
use ternary_search::vectors::{Record, RecordDecoder, VectorStore, DIM};

struct Native;

impl Numerics for Native {
    fn add(&self, a: u32, b: u32) -> u32 {
        (f32::from_bits(a) + f32::from_bits(b)).to_bits()
    }
    fn mul(&self, a: u32, b: u32) -> u32 {
        (f32::from_bits(a) * f32::from_bits(b)).to_bits()
    }
    fn div(&self, a: u32, b: u32) -> u32 {
        (f32::from_bits(a) / f32::from_bits(b)).to_bits()
    }
    fn sqrt(&self, a: u32) -> u32 {
        f32::from_bits(a).sqrt().to_bits()
    }
    fn round(&self, a: u32) -> u32 {
        f32::from_bits(a).round().to_bits()
    }
    fn count(&self, n: usize) -> u32 {
        (n as f32).to_bits()
    }
    fn widen(&self, a: u32) -> u64 {
        (f32::from_bits(a) as f64).to_bits()
    }
    fn mul_wide(&self, a: u64, b: u64) -> u64 {
        (f64::from_bits(a) * f64::from_bits(b)).to_bits()
    }
    fn div_wide(&self, a: u64, b: u64) -> u64 {
        (f64::from_bits(a) / f64::from_bits(b)).to_bits()
    }
    fn round_wide(&self, a: u64) -> u64 {
        f64::from_bits(a).round().to_bits()
    }
    fn parse(&self, text: &str) -> Option<u32> {
        text.parse::<f32>().ok().map(f32::to_bits)
    }
}

/// Reads `name|description|concept,concept|place=value,place=value`.
struct Plain;

impl RecordDecoder for Plain {
    fn record(&self, line: &str) -> Result<Record, String> {
        let fields: Vec<&str> = line.split('|').collect();
        if fields.len() != 4 {
            return Err("not four fields".to_string());
        }
        let mut values = vec![0u32; DIM];
        if fields[3] == "short" {
            values.truncate(3);
        } else {
            for entry in fields[3].split(',') {
                let (place, value) = entry.split_once('=').ok_or("no value".to_string())?;
                let place: usize = place.parse().map_err(|_| "bad place".to_string())?;
                values[place] = value.parse::<f32>().map_err(|e| e.to_string())?.to_bits();
            }
        }
        Ok(Record {
            name: fields[0].to_string(),
            description: fields[1].to_string(),
            concepts: fields[2].split(',').filter(|c| !c.is_empty()).map(str::to_string).collect(),
            values,
            readme_length: None,
        })
    }
}

impl AnalysisDecoder for Plain {
    fn analysis(&self, content: &str) -> Result<AnalysisFile, String> {
        let n: usize = content.parse().map_err(|_| "not a number".to_string())?;
        Ok(AnalysisFile {
            cross_pollination: (0..n)
                .map(|i| CrossPair {
                    a: format!("a{i}"),
                    b: format!("b{i}"),
                    similarity: 0.9f64.to_bits(),
                    concepts_a: vec![],
                    concepts_b: vec![],
                })
                .collect(),
            frontier: (0..n + 1)
                .map(|i| FrontierEntry {
                    name: format!("f{i}"),
                    distance: 1.5f64.to_bits(),
                    nearest_concept: String::new(),
                    concepts: vec![],
                })
                .collect(),
        })
    }
}

fn load(content: &str) -> Result<VectorStore, String> {
    VectorStore::load(&Native, &Plain, "vectors.ndjson", Ok(content.to_string()))
}

fn floats(v: &[u32]) -> Vec<f32> {
    v.iter().map(|b| f32::from_bits(*b)).collect()
}

fn fault(r: Result<VectorStore, String>) -> String {
    match r {
        Ok(_) => panic!("a store"),
        Err(e) => e,
    }
}

#[test]
fn a_file_that_cannot_be_read() {
    let r = VectorStore::load(&Native, &Plain, "/x/y", Err("No such file".to_string()));
    assert_eq!(fault(r), "read /x/y: No such file");
}

#[test]
fn no_records() {
    assert_eq!(fault(load("")), "no records found");
    assert_eq!(fault(load("\n  \n\t\r\n")), "no records found");
}

#[test]
fn the_first_faulty_line_is_named() {
    assert_eq!(fault(load("\na|d|c|0=1\n\nbad\nworse|x")), "parse line 3: not four fields");
    assert_eq!(fault(load("a|d|c|0=1\r\nb|d|c|short\nbad")), "line 1: expected 384 dims, got 3");
}

#[test]
fn rows_stand_end_to_end() {
    let store = load("a|first|x,y|0=3,1=4\n\nb|second|y|2=1\nc|third||383=2\n").ok().unwrap();
    assert_eq!(store.len, 3);
    assert_eq!(store.data.len(), 3 * DIM);
    assert_eq!(store.names, vec!["a", "b", "c"]);
    assert_eq!(store.descriptions, vec!["first", "second", "third"]);
    assert_eq!(store.concepts, vec![vec!["x", "y"], vec!["y"], vec![]]);
    assert_eq!(floats(&store.data[0..3]), vec![3.0, 4.0, 0.0]);
    assert_eq!(floats(&store.data[DIM..DIM + 3]), vec![0.0, 0.0, 1.0]);
    assert_eq!(floats(&store.data[3 * DIM - 1..]), vec![2.0]);
    assert_eq!(floats(store.vector(1)), floats(&store.data[DIM..2 * DIM]));
    assert_eq!(floats(&store.norms), vec![5.0, 1.0, 2.0]);
}

#[test]
fn the_index_lists_the_rows_of_each_concept() {
    let store = load("a|d|x,y|0=2\nb|d|y,y|0=4\nc|d|x|0=6\n").ok().unwrap();
    assert_eq!(store.concept_index.len(), 2);
    let x = find(&store.concept_index, &"x".to_string()).unwrap();
    let y = find(&store.concept_index, &"y".to_string()).unwrap();
    assert_eq!(find(&store.concept_index, &"z".to_string()), None);
    assert_eq!(store.concept_index[x].members, vec![0, 2]);
    assert_eq!(store.concept_index[y].members, vec![0, 1]);
    assert_eq!(f32::from_bits(store.concept_centroids[x][0]), 4.0);
    assert_eq!(f32::from_bits(store.concept_centroids[x][1]), 0.0);
    assert_eq!(f32::from_bits(store.concept_centroids[y][0]), 3.0);
    for e in 0..2 {
        for i in 0..3 {
            let name = &store.concept_index[e].name;
            assert_eq!(
                includes(&store.concept_index[e].members, i),
                store.concepts[i].contains(name)
            );
            assert_eq!(store.is_tagged(i, name), store.concepts[i].contains(name));
        }
    }
}

#[test]
fn membership_is_searched_in_halves() {
    let members: Vec<usize> = vec![1, 3, 4, 9, 10];
    for i in 0..12 {
        assert_eq!(includes(&members, i), members.contains(&i));
    }
    assert!(!includes(&vec![], 0));
}

#[test]
fn sizes_of_concepts_and_of_the_store() {
    let store = load("a|d|x,y|0=3\nb|d|y|1=4\n").ok().unwrap();
    let info = store.concept_info(&Native);
    assert_eq!(info.len(), 2);
    let x = info.iter().find(|i| i.0 == "x").unwrap();
    assert_eq!(x.1.count, 1);
    assert_eq!(f32::from_bits(x.1.centroid_norm), 3.0);
    let y = info.iter().find(|i| i.0 == "y").unwrap();
    assert_eq!(y.1.count, 2);
    assert_eq!(f32::from_bits(y.1.centroid_norm), 2.5);
    let stats = store.stats();
    assert_eq!(stats.total_crates, 2);
    assert_eq!(stats.dimensions, 384);
    assert_eq!(stats.concepts, 2);
    assert_eq!(stats.engine, "ternary-search-rs/0.1.0 (rust+axum+rayon)");
}

#[test]
fn a_concept_listed_twice_counts_once() {
    let store = load("a|d|x,x|0=1\n").ok().unwrap();
    let info = store.concept_info(&Native);
    assert_eq!(info.len(), 1);
    assert_eq!(info[0].0, "x");
    assert_eq!(info[0].1.count, 1);
    assert_eq!(f32::from_bits(info[0].1.centroid_norm), 1.0);
    assert_eq!(store.concepts, vec![vec!["x", "x"]]);

    let store = load("a|d|x,y,x,y|0=3\nb|d|y,x,y|1=4\nc|d|x,x,x|0=6\n").ok().unwrap();
    let detail = concept_detail(&store, &"x".to_string()).ok().unwrap();
    assert_eq!(detail.count, 3);
    assert_eq!(detail.members_sample, vec!["a", "b", "c"]);
    let y = find(&store.concept_index, &"y".to_string()).unwrap();
    assert_eq!(store.concept_index[y].members, vec![0, 1]);
    assert_eq!(floats(&store.concept_centroids[y][0..2]), vec![1.5, 2.0]);
}

#[test]
fn details_of_a_concept() {
    let mut content = String::new();
    for i in 0..60 {
        content.push_str(&format!("n{i}|d|{}|0=1\n", if i % 20 == 7 { "odd" } else { "even" }));
    }
    let store = load(&content).ok().unwrap();
    let odd = concept_detail(&store, &"odd".to_string()).ok().unwrap();
    assert_eq!(odd.concept, "odd");
    assert_eq!(odd.count, 3);
    assert_eq!(odd.members_sample, vec!["n7", "n27", "n47"]);
    let even = concept_detail(&store, &"even".to_string()).ok().unwrap();
    assert_eq!(even.count, 57);
    assert_eq!(even.members_sample.len(), 50);
    assert_eq!(even.members_sample[0], "n0");
    match concept_detail(&store, &"none".to_string()) {
        Ok(_) => panic!("a concept"),
        Err(e) => assert_eq!(e, "Unknown concept: none"),
    }
}

#[test]
fn bridges_join_the_most_similar_rows() {
    let content = "a|d|x|0=1\nb|d|x,s,t,u,v|0=0.6,1=0.8\nc|d|y|1=1\nd|d|y|2=1\n";
    let store = load(content).ok().unwrap();
    let cross = ConceptAnalysis::compute_cross(&Native, &store);
    let xy: Vec<&CrossPair> = cross.iter().filter(|p| p.a == "b" && p.b == "c").collect();
    assert!(!xy.is_empty());
    for p in &xy {
        assert_eq!(f64::from_bits(p.similarity), 0.8);
        assert_eq!(p.concepts_a, vec!["x", "s", "t", "u"]);
        assert_eq!(p.concepts_b, vec!["y"]);
    }
    for p in cross.windows(2) {
        assert!(f64::from_bits(p[0].similarity) >= f64::from_bits(p[1].similarity));
    }
    for p in &cross {
        assert!(f64::from_bits(p.similarity) > 0.5);
    }
}

#[test]
fn no_row_is_paired_with_itself() {
    let store = load("m||x,y|0=1\n").ok().unwrap();
    assert_eq!(ConceptAnalysis::compute_cross(&Native, &store).len(), 0);
    let store = load("a|d|x,y|0=1\nb|d|x|1=1\n").ok().unwrap();
    assert_eq!(ConceptAnalysis::compute_cross(&Native, &store).len(), 0);
}

#[test]
fn a_row_of_both_concepts_leaves_room_for_pairs() {
    let store = load("a|d|x,y|0=1\nb|d|y|0=0.75\nc|d|x|0=0.5,1=0.5\n").ok().unwrap();
    let cross = ConceptAnalysis::compute_cross(&Native, &store);
    assert_eq!(cross.len(), 1);
    assert_eq!((cross[0].a.as_str(), cross[0].b.as_str()), ("a", "b"));
    assert_eq!(f64::from_bits(cross[0].similarity), 0.75);
}

#[test]
fn of_equal_bridges_the_last_row_and_the_first_partner() {
    let store = load("a|d|x|0=1\nb|d|x|0=1\nc|d|y|0=1\nd|d|y|0=1\n").ok().unwrap();
    let cross = ConceptAnalysis::compute_cross(&Native, &store);
    assert_eq!(cross.len(), 1);
    assert_eq!((cross[0].a.as_str(), cross[0].b.as_str()), ("b", "c"));
}

#[test]
fn one_half_makes_no_bridge() {
    let store = load("a|d|x|0=1\nb|d|y|0=0.5\nc|d|z|0=-1\n").ok().unwrap();
    assert_eq!(ConceptAnalysis::compute_cross(&Native, &store).len(), 0);
    let store = load("a|d|x|0=1\n").ok().unwrap();
    assert_eq!(ConceptAnalysis::compute_cross(&Native, &store).len(), 0);
}

#[test]
fn an_analysis_is_loaded_or_computed() {
    let store = load("a|d|x|0=1\nb|d|y|0=0.75\n").ok().unwrap();
    let held =
        ConceptAnalysis::load_or_compute(&Native, &Plain, "p", Some(Ok("30".to_string())), &store)
            .ok()
            .unwrap();
    assert_eq!(held.cross.len(), 30);
    assert_eq!(held.frontier.len(), 31);
    assert_eq!(shown_pairs(&held).len(), 20);
    assert_eq!(shown_pairs(&held)[19].a, "a19");
    assert_eq!(shown_frontier(&held).len(), 20);
    assert_eq!(shown_frontier(&held)[0].name, "f0");

    let computed =
        ConceptAnalysis::load_or_compute(&Native, &Plain, "p", None, &store).ok().unwrap();
    assert_eq!(computed.cross.len(), 1);
    assert_eq!(f64::from_bits(computed.cross[0].similarity), 0.75);
    assert_eq!(computed.frontier.len(), 0);
    assert_eq!(shown_pairs(&computed).len(), 1);
}

#[test]
fn an_analysis_that_cannot_be_had() {
    let store = load("a|d|x|0=1\n").ok().unwrap();
    let unreadable = ConceptAnalysis::load_or_compute(
        &Native,
        &Plain,
        "/p",
        Some(Err("denied".to_string())),
        &store,
    );
    assert_eq!(unreadable.err().unwrap(), "read /p: denied");
    let garbled =
        ConceptAnalysis::load_or_compute(&Native, &Plain, "/p", Some(Ok("x".to_string())), &store);
    assert_eq!(garbled.err().unwrap(), "parse analysis: not a number");
}

#[test]
fn pairs_of_concepts() {
    assert_eq!(pairs_below(0), vec![]);
    assert_eq!(pairs_below(1), vec![]);
    assert_eq!(pairs_below(4), vec![(0, 1), (0, 2), (0, 3), (1, 2), (1, 3), (2, 3)]);
}

#[test]
fn blank_lines_shift_no_row() {
    let lines = ["a|d|x|0=1", "b|e|y,x|1=2", "c|f||2=3"];
    let plain = load(&lines.join("\n")).ok().unwrap();
    for blank in ["", " ", "\t\t", "\r", "\u{3000} "] {
        for at in 0..4 {
            let mut spaced = lines.to_vec();
            spaced.insert(at, blank);
            spaced.insert(at, blank);
            let store = load(&spaced.join("\n")).ok().unwrap();
            assert_eq!(store.names, plain.names);
            assert_eq!(store.descriptions, plain.descriptions);
            assert_eq!(store.concepts, plain.concepts);
            assert_eq!(store.data, plain.data);
            assert_eq!(store.norms, plain.norms);
            assert_eq!(store.concept_centroids, plain.concept_centroids);
        }
    }
}

#[test]
fn the_same_records_make_the_same_store() {
    let content = "a|d|x,y|0=0.3,7=0.9\nb|d|y|1=0.4\nc|d|z,x|0=0.1,1=0.7\n";
    let one = load(content).ok().unwrap();
    let two = load(&format!("\n{}\n \n", content.replace('\n', "\r\n"))).ok().unwrap();
    assert_eq!(one.len, two.len);
    assert_eq!(one.data, two.data);
    assert_eq!(one.names, two.names);
    assert_eq!(one.descriptions, two.descriptions);
    assert_eq!(one.norms, two.norms);
    assert_eq!(one.concepts, two.concepts);
    assert_eq!(one.concept_index.len(), two.concept_index.len());
    for (e, entry) in one.concept_index.iter().enumerate() {
        let f = find(&two.concept_index, &entry.name).unwrap();
        assert_eq!(entry.members, two.concept_index[f].members);
        assert_eq!(one.concept_centroids[e], two.concept_centroids[f]);
    }
    let a = ConceptAnalysis::compute_cross(&Native, &one);
    let b = ConceptAnalysis::compute_cross(&Native, &two);
    assert_eq!(a.len(), b.len());
    for (x, y) in a.iter().zip(&b) {
        assert_eq!((&x.a, &x.b, x.similarity), (&y.a, &y.b, y.similarity));
    }
}
