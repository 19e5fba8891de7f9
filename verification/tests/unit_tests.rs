use road_graph::classify::{classify_line, Event};
use road_graph::errors::BuildError;
use road_graph::geometry::{cost_from_distance, isqrt, planar_distance, Point};
use road_graph::numbers::{parse_coord, parse_osm_id};
use road_graph::speeds::speed_for_category;

#[test]
fn identifier_parsing() {
    assert_eq!(parse_osm_id("0"), Some(0));
    assert_eq!(parse_osm_id("123"), Some(123));
    assert_eq!(parse_osm_id("9223372036854775807"), Some(i64::MAX));
    assert_eq!(parse_osm_id("9223372036854775808"), None);
    assert_eq!(parse_osm_id("99999999999999999999"), None);
    assert_eq!(parse_osm_id(""), None);
    assert_eq!(parse_osm_id("12a"), None);
    assert_eq!(parse_osm_id("-5"), None);
}

#[test]
fn coordinate_parsing() {
    assert_eq!(parse_coord("49.0"), Some(490_000_000));
    assert_eq!(parse_coord("6.001"), Some(60_010_000));
    assert_eq!(parse_coord("49"), Some(490_000_000));
    assert_eq!(parse_coord("49."), Some(490_000_000));
    assert_eq!(parse_coord(".5"), Some(5_000_000));
    assert_eq!(parse_coord("0.0000001"), Some(1));
    // digits beyond the seventh fractional place are truncated
    assert_eq!(parse_coord("1.23456789"), Some(12_345_678));
    assert_eq!(parse_coord("100000"), Some(1_000_000_000_000));
    assert_eq!(parse_coord("100000.0000001"), None);
    assert_eq!(parse_coord("100001"), None);
    assert_eq!(parse_coord("1.2.3"), None);
    assert_eq!(parse_coord("."), None);
    assert_eq!(parse_coord(""), None);
    assert_eq!(parse_coord("4x"), None);
}

#[test]
fn speed_table_is_exhaustive() {
    assert_eq!(speed_for_category("motorway"), Some(110));
    assert_eq!(speed_for_category("trunk"), Some(110));
    assert_eq!(speed_for_category("primary"), Some(70));
    assert_eq!(speed_for_category("secondary"), Some(60));
    assert_eq!(speed_for_category("tertiary"), Some(50));
    assert_eq!(speed_for_category("motorway_link"), Some(50));
    assert_eq!(speed_for_category("trunk_link"), Some(50));
    assert_eq!(speed_for_category("primary_link"), Some(50));
    assert_eq!(speed_for_category("secondary_link"), Some(50));
    assert_eq!(speed_for_category("road"), Some(40));
    assert_eq!(speed_for_category("unclassified"), Some(40));
    assert_eq!(speed_for_category("residential"), Some(30));
    assert_eq!(speed_for_category("unsurfaced"), Some(30));
    assert_eq!(speed_for_category("living_street"), Some(10));
    assert_eq!(speed_for_category("service"), Some(5));
    assert_eq!(speed_for_category("footway"), None);
    assert_eq!(speed_for_category("cycleway"), None);
    assert_eq!(speed_for_category(""), None);
}

#[test]
fn lines_classify_to_their_events() {
    assert_eq!(
        classify_line(r#"<node id="42" lat="49.5" lon="6.25" user="x"/>"#),
        Ok(Event::PointDeclared {
            id: 42,
            point: Point { lat: 495_000_000, lon: 62_500_000 },
        })
    );
    assert_eq!(classify_line(r#"<way id="7" visible="true">"#), Ok(Event::SegmentStart));
    assert_eq!(classify_line(r#"<nd ref="42"/>"#), Ok(Event::HopReference { id: 42 }));
    assert_eq!(
        classify_line(r#"<tag k="highway" v="living_street"/>"#),
        Ok(Event::RoadClassTag { category: "living_street".to_string() })
    );
    assert_eq!(classify_line(r#"</way>"#), Ok(Event::SegmentEnd));
    assert_eq!(classify_line(r#"<bounds minlat="49.1"/>"#), Ok(Event::Inert));
    assert_eq!(classify_line(r#"<tag k="name" v="A1"/>"#), Ok(Event::Inert));
    assert_eq!(
        classify_line(r#"<node id="42" lat="49.5.5" lon="6.25"/>"#),
        Err(BuildError::MalformedNumber)
    );
}

#[test]
fn integer_square_root_is_the_floor() {
    assert_eq!(isqrt(0), 0);
    assert_eq!(isqrt(1), 1);
    assert_eq!(isqrt(2), 1);
    assert_eq!(isqrt(3), 1);
    assert_eq!(isqrt(4), 2);
    assert_eq!(isqrt(99), 9);
    assert_eq!(isqrt(100), 10);
    assert_eq!(isqrt(u64::MAX as u128 * u64::MAX as u128), u64::MAX);
    assert_eq!(isqrt((1u128 << 64) - 1), u32::MAX as u64);
}

#[test]
fn planar_distance_uses_both_scales() {
    let a = Point { lat: 490_000_000, lon: 60_000_000 };
    let b = Point { lat: 490_000_000, lon: 60_010_000 };
    // 0.001 deg of longitude at 71695 m/deg, in tenth-micrometres
    assert_eq!(planar_distance(a, b), 716_950_000);
    let c = Point { lat: 490_010_000, lon: 60_000_000 };
    // 0.001 deg of latitude at 111229 m/deg
    assert_eq!(planar_distance(a, c), 1_112_290_000);
    // a 3-4-5 style combination: sqrt((3*111229)^2 + (4*71695)^2) units
    let d = Point { lat: 490_000_030, lon: 60_000_040 };
    let dlat = 30u128 * 111_229;
    let dlon = 40u128 * 71_695;
    let expected = isqrt(dlat * dlat + dlon * dlon);
    assert_eq!(planar_distance(a, d), expected);
}

#[test]
fn cost_truncates_toward_zero() {
    // 71.695 m at 30 km/h: 8.6034 s
    assert_eq!(cost_from_distance(716_950_000, 30), 8);
    // at 110 km/h: 2.346 s
    assert_eq!(cost_from_distance(716_950_000, 110), 2);
    // at 5 km/h: 51.62 s
    assert_eq!(cost_from_distance(716_950_000, 5), 51);
    assert_eq!(cost_from_distance(0, 30), 0);
    // shorter than one second of travel
    assert_eq!(cost_from_distance(80_000_000, 30), 0);
}
