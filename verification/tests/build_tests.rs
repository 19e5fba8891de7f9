use road_graph::builder::{build_from_lines, Builder};
use road_graph::errors::BuildError;
use road_graph::graph::{Arc, RoadNetwork};
use road_graph::geometry::Point;

fn lines(parts: &[&str]) -> Vec<String> {
    parts.iter().map(|s| s.to_string()).collect()
}

fn two_point_segment(tags: &[&str]) -> Vec<String> {
    let mut v = lines(&[
        r#"<node id="1" lat="49.0" lon="6.0" version="3"/>"#,
        r#"<node id="2" lat="49.0" lon="6.001" version="3"/>"#,
        r#"<way id="7">"#,
        r#"  <nd ref="1"/>"#,
        r#"  <nd ref="2"/>"#,
    ]);
    for t in tags {
        v.push(format!(r#"  <tag k="highway" v="{}"/>"#, t));
    }
    v.push(r#"</way>"#.to_string());
    v
}

#[test]
fn residential_segment_cost_is_eight_seconds() {
    // distance = 0.001 deg * 71695 m/deg = 71.695 m; at 30 km/h
    // (8.33 m/s) that is 8.6 s, truncated to 8.
    let net = build_from_lines(&two_point_segment(&["residential"])).unwrap();
    // first-encounter order: the edge operation resolves the current
    // hop (2) before the previous one (1)
    assert_eq!(net.get_index(2), Some(0));
    assert_eq!(net.get_index(1), Some(1));
    assert_eq!(net.adjacent_arcs.len(), 2);
    assert_eq!(net.adjacent_arcs[0], vec![Arc { index: 1, cost: 8 }]);
    assert_eq!(net.adjacent_arcs[1], vec![Arc { index: 0, cost: 8 }]);
}

#[test]
fn dangling_reference_is_reported() {
    let input = lines(&[
        r#"<node id="1" lat="49.0" lon="6.0"/>"#,
        r#"<way id="7">"#,
        r#"  <nd ref="1"/>"#,
        r#"  <nd ref="99"/>"#,
        r#"  <tag k="highway" v="residential"/>"#,
        r#"</way>"#,
    ]);
    assert_eq!(
        build_from_lines(&input).unwrap_err(),
        BuildError::DanglingReference { id: 99 }
    );
}

#[test]
fn unrecognized_category_yields_no_edges() {
    let input = lines(&[
        r#"<node id="1" lat="49.0" lon="6.0"/>"#,
        r#"<node id="2" lat="49.0" lon="6.001"/>"#,
        r#"<node id="3" lat="49.001" lon="6.001"/>"#,
        r#"<way id="7">"#,
        r#"  <nd ref="1"/>"#,
        r#"  <nd ref="2"/>"#,
        r#"  <nd ref="3"/>"#,
        r#"  <tag k="highway" v="footway"/>"#,
        r#"</way>"#,
    ]);
    let net = build_from_lines(&input).unwrap();
    assert_eq!(net.adjacent_arcs.len(), 0);
    assert_eq!(net.get_index(1), None);
    assert_eq!(net.get_index(2), None);
    assert_eq!(net.get_index(3), None);
    // the points are still retained
    assert_eq!(net.nodes.len(), 3);
}

#[test]
fn later_unrecognized_tag_revokes_the_segment() {
    let net = build_from_lines(&two_point_segment(&["residential", "footway"])).unwrap();
    assert_eq!(net.adjacent_arcs.len(), 0);
    assert_eq!(net.get_index(1), None);
}

#[test]
fn later_recognized_tag_enables_the_segment() {
    let net = build_from_lines(&two_point_segment(&["footway", "residential"])).unwrap();
    assert_eq!(net.adjacent_arcs.len(), 2);
    assert_eq!(net.adjacent_arcs[0], vec![Arc { index: 1, cost: 8 }]);
    assert_eq!(net.adjacent_arcs[1], vec![Arc { index: 0, cost: 8 }]);
}

#[test]
fn duplicate_point_declaration_keeps_the_last_coordinate() {
    let input = lines(&[
        r#"<node id="1" lat="10.0" lon="20.0"/>"#,
        r#"<node id="1" lat="49.0" lon="6.0"/>"#,
        r#"<node id="2" lat="49.0" lon="6.001"/>"#,
        r#"<way id="7">"#,
        r#"  <nd ref="1"/>"#,
        r#"  <nd ref="2"/>"#,
        r#"  <tag k="highway" v="residential"/>"#,
        r#"</way>"#,
    ]);
    let net = build_from_lines(&input).unwrap();
    assert_eq!(
        net.nodes.get(&1),
        Some(&Point { lat: 490_000_000, lon: 60_000_000 })
    );
    // the cost is computed from the re-declared coordinate
    assert_eq!(net.adjacent_arcs[0], vec![Arc { index: 1, cost: 8 }]);
}

#[test]
fn identical_input_builds_identical_graphs() {
    let input = two_point_segment(&["residential"]);
    let a = build_from_lines(&input).unwrap();
    let b = build_from_lines(&input).unwrap();
    assert_eq!(a.adjacent_arcs, b.adjacent_arcs);
    assert_eq!(a.get_index(1), b.get_index(1));
    assert_eq!(a.get_index(2), b.get_index(2));
}

#[test]
fn every_arc_has_its_reverse() {
    let input = lines(&[
        r#"<node id="10" lat="49.0" lon="6.0"/>"#,
        r#"<node id="11" lat="49.0" lon="6.001"/>"#,
        r#"<node id="12" lat="49.001" lon="6.001"/>"#,
        r#"<way id="7">"#,
        r#"  <nd ref="10"/>"#,
        r#"  <nd ref="11"/>"#,
        r#"  <nd ref="12"/>"#,
        r#"  <tag k="highway" v="primary"/>"#,
        r#"</way>"#,
    ]);
    let net = build_from_lines(&input).unwrap();
    assert_eq!(net.adjacent_arcs.len(), 3);
    let mut arc_count = 0;
    for (u, row) in net.adjacent_arcs.iter().enumerate() {
        for arc in row {
            arc_count += 1;
            let reverse = &net.adjacent_arcs[arc.index];
            assert!(
                reverse.iter().any(|r| r.index == u && r.cost == arc.cost),
                "missing reverse of ({u} -> {}, {})",
                arc.index,
                arc.cost
            );
        }
    }
    assert_eq!(arc_count, 4);
}

#[test]
fn indices_are_dense_and_injective() {
    let input = lines(&[
        r#"<node id="100" lat="49.0" lon="6.0"/>"#,
        r#"<node id="200" lat="49.0" lon="6.001"/>"#,
        r#"<node id="300" lat="49.001" lon="6.001"/>"#,
        r#"<way id="7">"#,
        r#"  <nd ref="100"/>"#,
        r#"  <nd ref="200"/>"#,
        r#"  <nd ref="300"/>"#,
        r#"  <tag k="highway" v="service"/>"#,
        r#"</way>"#,
    ]);
    let net = build_from_lines(&input).unwrap();
    let mut seen: Vec<usize> = [100i64, 200, 300]
        .iter()
        .map(|id| net.get_index(*id).unwrap())
        .collect();
    seen.sort();
    assert_eq!(seen, vec![0, 1, 2]);
    assert_eq!(net.osm_id_map.len(), net.adjacent_arcs.len());
}

#[test]
fn malformed_identifier_aborts_the_build() {
    let input = lines(&[r#"<node id="99999999999999999999" lat="49.0" lon="6.0"/>"#]);
    assert_eq!(build_from_lines(&input).unwrap_err(), BuildError::MalformedNumber);
}

#[test]
fn malformed_coordinate_aborts_the_build() {
    let input = lines(&[r#"<node id="1" lat="1.2.3" lon="6.0"/>"#]);
    assert_eq!(build_from_lines(&input).unwrap_err(), BuildError::MalformedNumber);
}

#[test]
fn leading_whitespace_is_trimmed_before_matching() {
    let input = lines(&[
        r#"   <node id="1" lat="49.0" lon="6.0"/>"#,
        "\t<node id=\"2\" lat=\"49.0\" lon=\"6.001\"/>",
        r#"   <way id="7">"#,
        "\t\t<nd ref=\"1\"/>",
        r#"      <nd ref="2"/>"#,
        r#"   <tag k="highway" v="residential"/>"#,
        r#"   </way>"#,
    ]);
    let net = build_from_lines(&input).unwrap();
    assert_eq!(net.adjacent_arcs.len(), 2);
    assert_eq!(net.adjacent_arcs[0], vec![Arc { index: 1, cost: 8 }]);
}

#[test]
fn unclosed_segment_is_discarded() {
    let input = lines(&[
        r#"<node id="1" lat="49.0" lon="6.0"/>"#,
        r#"<node id="2" lat="49.0" lon="6.001"/>"#,
        r#"<way id="7">"#,
        r#"  <nd ref="1"/>"#,
        r#"  <nd ref="2"/>"#,
        r#"  <tag k="highway" v="residential"/>"#,
    ]);
    let net = build_from_lines(&input).unwrap();
    assert_eq!(net.adjacent_arcs.len(), 0);
}

#[test]
fn references_outside_a_segment_are_inert() {
    let input = lines(&[
        r#"<node id="1" lat="49.0" lon="6.0"/>"#,
        r#"<nd ref="1"/>"#,
        r#"<tag k="highway" v="residential"/>"#,
        r#"</way>"#,
    ]);
    let net = build_from_lines(&input).unwrap();
    assert_eq!(net.adjacent_arcs.len(), 0);
    assert_eq!(net.get_index(1), None);
}

#[test]
fn reopening_a_segment_resets_its_hops() {
    let input = lines(&[
        r#"<node id="1" lat="49.0" lon="6.0"/>"#,
        r#"<node id="2" lat="49.0" lon="6.001"/>"#,
        r#"<node id="3" lat="49.001" lon="6.001"/>"#,
        r#"<way id="7">"#,
        r#"  <nd ref="3"/>"#,
        r#"<way id="8">"#,
        r#"  <nd ref="1"/>"#,
        r#"  <nd ref="2"/>"#,
        r#"  <tag k="highway" v="residential"/>"#,
        r#"</way>"#,
    ]);
    let net = build_from_lines(&input).unwrap();
    // hop 3 of the abandoned segment contributes nothing
    assert_eq!(net.get_index(3), None);
    assert_eq!(net.adjacent_arcs.len(), 2);
}

#[test]
fn zero_length_segment_rounds_to_zero_cost() {
    let input = lines(&[
        r#"<node id="1" lat="49.0" lon="6.0"/>"#,
        r#"<node id="2" lat="49.0" lon="6.0"/>"#,
        r#"<way id="7">"#,
        r#"  <nd ref="1"/>"#,
        r#"  <nd ref="2"/>"#,
        r#"  <tag k="highway" v="motorway"/>"#,
        r#"</way>"#,
    ]);
    let net = build_from_lines(&input).unwrap();
    assert_eq!(net.adjacent_arcs[0], vec![Arc { index: 1, cost: 0 }]);
}

#[test]
fn motorway_speed_gives_two_seconds() {
    // 71.695 m at 110 km/h (30.55 m/s) is 2.34 s, truncated to 2
    let net = build_from_lines(&two_point_segment(&["motorway"])).unwrap();
    assert_eq!(net.adjacent_arcs[0], vec![Arc { index: 1, cost: 2 }]);
}

#[test]
fn network_methods_build_the_same_edge_directly() {
    let mut net = RoadNetwork::new();
    net.add_node(1, Point { lat: 490_000_000, lon: 60_000_000 });
    net.add_node(2, Point { lat: 490_000_000, lon: 60_010_000 });
    assert_eq!(net.distance(1, 2), Ok(716_950_000));
    assert_eq!(
        net.distance(5, 1),
        Err(BuildError::DanglingReference { id: 5 })
    );
    assert_eq!(net.get_index(1), None);
    assert_eq!(net.get_or_create_index(1), 0);
    assert_eq!(net.get_or_create_index(2), 1);
    assert_eq!(net.get_or_create_index(1), 0);
    assert_eq!(net.add_arc(1, 2, 30), Ok(()));
    assert_eq!(net.adjacent_arcs[0], vec![Arc { index: 1, cost: 8 }]);
    assert_eq!(net.adjacent_arcs[1], vec![Arc { index: 0, cost: 8 }]);
    assert_eq!(
        net.add_arc(1, 77, 30),
        Err(BuildError::DanglingReference { id: 77 })
    );
}

#[test]
fn builder_processes_lines_incrementally() {
    let mut b = Builder::new();
    assert!(!b.seg.active);
    for line in two_point_segment(&["residential"]) {
        assert_eq!(b.process_line(&line), Ok(()));
    }
    assert!(!b.seg.active);
    let net = b.network;
    assert_eq!(net.adjacent_arcs.len(), 2);
    assert_eq!(net.adjacent_arcs[0], vec![Arc { index: 1, cost: 8 }]);
}
