use gafpack::accum::{Coverage, EdgeCounts};
use gafpack::weighted::{QueryCounts, WeightedCoverage};
use gafpack::allocate::{allocate, for_each_step};
use gafpack::graph::{parse_gfa, GraphIndex, Segment};
use gafpack::walk::{decode_line, decode_path, field_count, query_key, Step};
use gafpack::CovError;

fn gfa_lines(lines: &[&str]) -> Vec<Vec<u8>> {
    lines.iter().map(|l| l.as_bytes().to_vec()).collect()
}

/// Graph with nodes {1: len 10, 2: len 5, 3: len 8}.
fn three_node_index() -> GraphIndex {
    let lines = gfa_lines(&[
        "H\tVN:Z:1.0",
        "S\t1\tAAAAAAAAAA",
        "S\t2\tCCCCC",
        "S\t3\tGGGGGGGG",
        "L\t1\t+\t2\t+\t0M",
    ]);
    let segs = parse_gfa(&lines).unwrap();
    GraphIndex::build(&segs)
}

fn gaf_line(name: &str, group_a: &str, group_b: &str, path: &str, start: u64, end: u64) -> Vec<u8> {
    format!(
        "{}\t100\t{}\t{}\t+\t{}\t100\t{}\t{}\t50\t50\t60",
        name, group_a, group_b, path, start, end
    )
    .into_bytes()
}

#[test]
fn scenario_three_node_walk() {
    // Path >1>2>3 with target interval [2, 20): node 1 trimmed to 8,
    // node 2 interior full 5, node 3 takes the remaining 18 - 13 = 5.
    let index = three_node_index();
    let line = gaf_line("q", "a", "b", ">1>2>3", 2, 20);
    let events = for_each_step(&index, &line).unwrap();
    assert_eq!(events, vec![(1, 8), (2, 5), (3, 5)]);
    let total: u64 = events.iter().map(|e| e.1).sum();
    assert_eq!(total, 18);
}

#[test]
fn single_node_full_alignment() {
    let index = three_node_index();
    let line = gaf_line("q", "a", "b", ">1", 0, 10);
    let events = for_each_step(&index, &line).unwrap();
    assert_eq!(events, vec![(1, 10)]);
}

#[test]
fn star_walk_contributes_nothing() {
    let index = three_node_index();
    let line = b"q\t100\ta\tb\t+\t*".to_vec();
    let events = for_each_step(&index, &line).unwrap();
    assert!(events.is_empty());
    let mut cov = Coverage::new(&index);
    cov.add_events(&index, &events);
    for p in 0..3 {
        assert_eq!(cov.total_at(p), 0);
    }
}

#[test]
fn interval_widened_when_declared_too_short() {
    // Walk covers 10 + 5 = 15 before the last node but the declared
    // interval is only 12 long: the last node is attributed 0.
    let index = three_node_index();
    let line = gaf_line("q", "a", "b", ">1>2>3", 0, 12);
    let events = for_each_step(&index, &line).unwrap();
    assert_eq!(events, vec![(1, 10), (2, 5), (3, 0)]);
}

#[test]
fn strict_interval_mode_rejects_short_interval() {
    let index = three_node_index();
    let steps = decode_path(b">1>2>3").unwrap();
    let r = allocate(&index, &steps, 0, 12, true);
    assert_eq!(r.err(), Some(CovError::IntervalTooShort));
    // The tolerant mode accepts the same walk.
    assert!(allocate(&index, &steps, 0, 12, false).is_ok());
}

#[test]
fn edge_direction_follows_orientation() {
    let lines = gfa_lines(&["S\t5\tAAAA", "S\t7\tCCCC"]);
    let index = GraphIndex::build(&parse_gfa(&lines).unwrap());
    let fwd = decode_path(b">5>7").unwrap();
    let a = allocate(&index, &fwd, 0, 8, false).unwrap();
    assert_eq!(a.edges, vec![(5, 7)]);
    let rev = decode_path(b"<5<7").unwrap();
    let b = allocate(&index, &rev, 0, 8, false).unwrap();
    assert_eq!(b.edges, vec![(7, 5)]);
}

#[test]
fn mixed_orientation_edges() {
    let lines = gfa_lines(&["S\t1\tAA", "S\t2\tAA", "S\t3\tAA"]);
    let index = GraphIndex::build(&parse_gfa(&lines).unwrap());
    let steps = decode_path(b">1<2>3").unwrap();
    let a = allocate(&index, &steps, 0, 6, false).unwrap();
    // traversal 0 is forward: 1 -> 2; traversal 1 is reverse: 3 -> 2.
    assert_eq!(a.edges, vec![(1, 2), (3, 2)]);
}

#[test]
fn strict_edge_validation_rejects_unknown_edge() {
    let universe = vec![(1, 2), (2, 3)];
    let mut edges = EdgeCounts::with_universe(&universe, true);
    assert_eq!(
        edges.record(3, 9),
        Err(CovError::UnknownEdge { from: 3, to: 9 })
    );
    // A seeded edge is still accepted afterwards.
    assert_eq!(edges.record(1, 2), Ok(()));
    assert_eq!(edges.count(1, 2), 1);
    assert_eq!(edges.count(3, 9), 0);
}

#[test]
fn strict_edge_validation_over_events() {
    let universe = vec![(1, 2)];
    let mut edges = EdgeCounts::with_universe(&universe, true);
    let r = edges.record_events(&vec![(1, 2), (3, 9)]);
    assert_eq!(r, Err(CovError::UnknownEdge { from: 3, to: 9 }));
    // Nothing was recorded.
    assert_eq!(edges.count(1, 2), 0);
}

#[test]
fn tolerant_edge_counting() {
    let mut edges = EdgeCounts::new();
    edges.record(5, 7).unwrap();
    edges.record(5, 7).unwrap();
    edges.record(7, 5).unwrap();
    assert_eq!(edges.count(5, 7), 2);
    assert_eq!(edges.count(7, 5), 1);
    assert_eq!(edges.count(9, 9), 0);
}

#[test]
fn weighted_mode_halves_shared_key_contributions() {
    // Two identical records share the composite key, so the key counts 2
    // and each record contributes half its raw attributed length.
    let lines = gfa_lines(&["S\t1\tAAAAAAAAAA", "S\t2\tAAAAAAAAAA"]);
    let index = GraphIndex::build(&parse_gfa(&lines).unwrap());
    let l1 = gaf_line("q", "A", "0", ">1>2", 0, 20);
    let l2 = gaf_line("q", "A", "0", ">1>2", 0, 20);

    let mut counts = QueryCounts::new();
    for l in [&l1, &l2] {
        counts.bump(&query_key(l).unwrap());
    }
    let key = query_key(&l1).unwrap();
    assert_eq!(counts.count_or_one(&key), 2);

    let mut weighted = WeightedCoverage::new();
    let mut unweighted = Coverage::new(&index);
    for l in [&l1, &l2] {
        let events = for_each_step(&index, l).unwrap();
        let c = counts.count_or_one(&query_key(l).unwrap());
        weighted.add_events(&index, &events, c);
        unweighted.add_events(&index, &events);
    }
    // Each line attributes 10 to node 1 and 10 to node 2.
    assert_eq!(unweighted.total_at(0), 20);
    assert_eq!(unweighted.total_at(1), 20);
    assert_eq!(weighted.total_pair(1, 2), 20);
    assert_eq!(weighted.total_pair(2, 2), 20);
    // Exact weighted value: 20 / 2 = 10, half the unweighted total.
    assert_eq!(weighted.total_pair(1, 2) / 2, unweighted.total_at(0) / 2);
    assert_eq!(weighted.total_pair(1, 2) / 2, 10);
}

#[test]
fn distinct_keys_keep_full_weight() {
    let mut counts = QueryCounts::new();
    counts.bump(b"a:x:0");
    counts.bump(b"b:x:0");
    assert_eq!(counts.count_or_one(b"a:x:0"), 1);
    assert_eq!(counts.count_or_one(b"b:x:0"), 1);
    assert_eq!(counts.count_or_one(b"never-seen"), 1);
}

#[test]
fn query_key_joins_fields() {
    let line = b"read1\t100\ttargetA\t3\t+\t>1\t10\t0\t5".to_vec();
    assert_eq!(query_key(&line).unwrap(), b"read1:targetA:3".to_vec());
    // Fewer than four fields: no key.
    assert_eq!(query_key(b"a\tb\tc"), None);
}

#[test]
fn field_count_counts_tab_fields() {
    assert_eq!(field_count(b"a\tb\tc"), 3);
    assert_eq!(field_count(b""), 1);
    assert_eq!(field_count(b"\t"), 2);
}

#[test]
fn malformed_path_token_is_fatal() {
    let index = three_node_index();
    let line = gaf_line("q", "a", "b", ">1>x", 0, 10);
    assert_eq!(
        for_each_step(&index, &line).err(),
        Some(CovError::MalformedPath)
    );
    // A path not led by an orientation marker is malformed too.
    let line2 = gaf_line("q", "a", "b", "1>2", 0, 10);
    assert_eq!(
        for_each_step(&index, &line2).err(),
        Some(CovError::MalformedPath)
    );
    // A trailing marker leaves a marker without a token.
    let line3 = gaf_line("q", "a", "b", ">1>", 0, 10);
    assert_eq!(
        for_each_step(&index, &line3).err(),
        Some(CovError::MalformedPath)
    );
}

#[test]
fn malformed_interval_is_fatal() {
    let index = three_node_index();
    // end before start
    let line = gaf_line("q", "a", "b", ">1", 9, 3);
    assert_eq!(
        for_each_step(&index, &line).err(),
        Some(CovError::MalformedInterval)
    );
    // non-numeric bound
    let line2 = b"q\t100\ta\tb\t+\t>1\t100\tzero\t10".to_vec();
    assert_eq!(
        for_each_step(&index, &line2).err(),
        Some(CovError::MalformedInterval)
    );
}

#[test]
fn interval_out_of_range_is_fatal() {
    // Declared start 12 exceeds the first node's length 10.
    let index = three_node_index();
    let line = gaf_line("q", "a", "b", ">1>2", 12, 15);
    assert_eq!(
        for_each_step(&index, &line).err(),
        Some(CovError::IntervalOutOfRange)
    );
}

#[test]
fn decode_line_extracts_walk_and_interval() {
    let line = gaf_line("q", "a", "b", ">10<20", 3, 9);
    let d = decode_line(&line).unwrap().unwrap();
    assert_eq!(
        d.steps,
        vec![
            Step {
                id: 10,
                forward: true
            },
            Step {
                id: 20,
                forward: false
            }
        ]
    );
    assert_eq!(d.target_start, 3);
    assert_eq!(d.target_end, 9);
    // The star walk decodes to no alignment.
    assert!(decode_line(b"q\t1\ta\tb\t+\t*").unwrap().is_none());
}

#[test]
fn parse_gfa_sorts_and_skips() {
    let lines = gfa_lines(&[
        "H\tVN:Z:1.0",
        "S\t30\tACGT",
        "L\t30\t+\t2\t+\t0M",
        "S\t2\tAC",
        "",
        "S\t10\tACGTACGT",
        "# comment",
        "Sonly-one-field",
    ]);
    let segs = parse_gfa(&lines).unwrap();
    assert_eq!(
        segs,
        vec![
            Segment { id: 2, length: 2 },
            Segment {
                id: 10,
                length: 8
            },
            Segment {
                id: 30,
                length: 4
            }
        ]
    );
}

#[test]
fn parse_gfa_rejects_bad_segment_id() {
    let lines = gfa_lines(&["S\tten\tACGT"]);
    assert_eq!(parse_gfa(&lines).err(), Some(CovError::MalformedGraph));
}

#[test]
fn graph_index_lookup_and_silent_ignore() {
    let index = three_node_index();
    assert_eq!(index.length_of(1), 10);
    assert_eq!(index.length_of(2), 5);
    assert_eq!(index.length_of(3), 8);
    // An id the graph does not declare has length 0 and gets no coverage.
    assert_eq!(index.length_of(99), 0);
    assert_eq!(index.position_of(99), None);

    let mut cov = Coverage::new(&index);
    cov.add(&index, 99, 1000);
    for p in 0..3 {
        assert_eq!(cov.total_at(p), 0);
    }
    cov.add(&index, 2, 4);
    assert_eq!(cov.total_at(index.position_of(2).unwrap()), 4);
}

#[test]
fn duplicate_segment_record_overrides() {
    let lines = gfa_lines(&["S\t1\tAC", "S\t1\tACGTACGT"]);
    let index = GraphIndex::build(&parse_gfa(&lines).unwrap());
    // The later record wins the lookup, as a map insert would.
    assert_eq!(index.length_of(1), 8);
}

#[test]
fn unknown_node_in_walk_is_ignored() {
    // A walk through a node outside the graph treats it as length 0: it is
    // crossed without error and its event is dropped by the accumulator.
    let lines = gfa_lines(&["S\t1\tAAAAAAAAAA"]);
    let index = GraphIndex::build(&parse_gfa(&lines).unwrap());
    let line = gaf_line("q", "a", "b", ">99>1", 0, 10);
    let events = for_each_step(&index, &line).unwrap();
    assert_eq!(events, vec![(99, 0), (1, 10)]);
    let mut cov = Coverage::new(&index);
    cov.add_events(&index, &events);
    assert_eq!(cov.total_at(0), 10);
}

#[test]
fn coverage_accumulates_across_lines() {
    let index = three_node_index();
    let mut cov = Coverage::new(&index);
    for _ in 0..3 {
        let line = gaf_line("q", "a", "b", ">1>2", 0, 15);
        let events = for_each_step(&index, &line).unwrap();
        cov.add_events(&index, &events);
    }
    assert_eq!(cov.total_at(index.position_of(1).unwrap()), 30);
    assert_eq!(cov.total_at(index.position_of(2).unwrap()), 15);
    assert_eq!(cov.total_at(index.position_of(3).unwrap()), 0);
}
