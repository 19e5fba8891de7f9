use vstd::prelude::*;
use vstd::string::*;
use crate::errors::BuildError;
use crate::geometry::{coord_ok, Point};
use crate::numbers::{
    all_digits, coord_of, digits_val, first_dot, lemma_digits_val_nonneg,
    lemma_frac_units_nonneg, osm_id_of, parse_coord, parse_osm_id,
};

verus! {

/// What the point-line pattern captures from a line, if it matches:
/// the identifier, latitude and longitude fields.
pub uninterp spec fn point_match_of(s: Seq<char>) -> Option<(Seq<char>, Seq<char>, Seq<char>)>;

/// What the hop-reference pattern captures from a line, if it matches:
/// the identifier field.
pub uninterp spec fn hop_match_of(s: Seq<char>) -> Option<Seq<char>>;

/// What the road-classification pattern captures from a line, if it
/// matches: the category name.
pub uninterp spec fn tag_match_of(s: Seq<char>) -> Option<Seq<char>>;

/// A line with its leading whitespace removed.
pub uninterp spec fn trim_start_of(s: Seq<char>) -> Seq<char>;

/// Relies on str::trim_start: returns `s` without leading whitespace,
/// hence a suffix of `s`; the result depends on the characters alone.
#[verifier::external_body]
fn trim_leading(s: &str) -> (r: &str)
    ensures
        r@ == trim_start_of(s@),
        r@.len() <= s@.len(),
        r@ == s@.skip(s@.len() - r@.len()),
{
    s.trim_start()
}

/// Relies on regex::Regex::new and regex::Regex::captures with the pattern
/// `id="(\d+)" lat="([0-9.]+)" lon="([0-9.]+)"`: wherever that pattern
/// first matches in `line`, the result holds its three capture groups
/// (identifier digits, latitude, longitude — each non-empty); it depends
/// on the characters of `line` alone.
#[verifier::external_body]
fn capture_point_line(line: &str) -> (r: Option<(String, String, String)>)
    ensures
        r is Some <==> point_match_of(line@) is Some,
        (r matches Some(t) ==> point_match_of(line@) == Some((t.0@, t.1@, t.2@))
            && t.0@.len() >= 1 && t.1@.len() >= 1 && t.2@.len() >= 1),
{
    let re = regex::Regex::new(r#"id="(\d+)" lat="([0-9.]+)" lon="([0-9.]+)""#).unwrap();
    match re.captures(line) {
        None => None,
        Some(c) => Some((c[1].to_string(), c[2].to_string(), c[3].to_string())),
    }
}

/// Relies on regex::Regex::new and regex::Regex::captures with the pattern
/// `<nd ref="(\d+)"`: wherever that pattern first matches in `line`, the
/// result holds its capture group (non-empty identifier digits); it
/// depends on the characters of `line` alone.
#[verifier::external_body]
fn capture_hop_line(line: &str) -> (r: Option<String>)
    ensures
        r is Some <==> hop_match_of(line@) is Some,
        (r matches Some(d) ==> hop_match_of(line@) == Some(d@) && d@.len() >= 1),
{
    let re = regex::Regex::new(r#"<nd ref="(\d+)""#).unwrap();
    match re.captures(line) {
        None => None,
        Some(c) => Some(c[1].to_string()),
    }
}

/// Relies on regex::Regex::new and regex::Regex::captures with the pattern
/// `k="highway" v="([a-z_]+)"`: wherever that pattern first matches in
/// `line`, the result holds its capture group (the non-empty category
/// name); it depends on the characters of `line` alone.
#[verifier::external_body]
fn capture_tag_line(line: &str) -> (r: Option<String>)
    ensures
        r is Some <==> tag_match_of(line@) is Some,
        (r matches Some(c) ==> tag_match_of(line@) == Some(c@) && c@.len() >= 1),
{
    let re = regex::Regex::new(r#"k="highway" v="([a-z_]+)""#).unwrap();
    match re.captures(line) {
        None => None,
        Some(c) => Some(c[1].to_string()),
    }
}

/// What one input line means, reported by the stateless classifier.
#[derive(Debug, PartialEq)]
pub enum Event {
    /// A point element with identifier and coordinates.
    PointDeclared { id: i64, point: Point },
    /// The opening of a segment element.
    SegmentStart,
    /// A point reference inside a segment.
    HopReference { id: i64 },
    /// A road-classification tag inside a segment.
    RoadClassTag { category: String },
    /// The closing of a segment element.
    SegmentEnd,
    /// A line that matches no recognized construct; ignored.
    Inert,
}

/// The mathematical image of an [`Event`].
pub ghost enum EventModel {
    PointDeclared { id: i64, point: Point },
    SegmentStart,
    HopReference { id: i64 },
    RoadClassTag { category: Seq<char> },
    SegmentEnd,
    Inert,
}

impl View for Event {
    type V = EventModel;

    open spec fn view(&self) -> EventModel {
        match self {
            Event::PointDeclared { id, point } => EventModel::PointDeclared {
                id: *id,
                point: *point,
            },
            Event::SegmentStart => EventModel::SegmentStart,
            Event::HopReference { id } => EventModel::HopReference { id: *id },
            Event::RoadClassTag { category } => EventModel::RoadClassTag { category: category@ },
            Event::SegmentEnd => EventModel::SegmentEnd,
            Event::Inert => EventModel::Inert,
        }
    }
}

/// `t` (already trimmed) opens a segment element.
pub open spec fn is_way_start(t: Seq<char>) -> bool {
    t.len() >= 5 && t[0] == '<' && t[1] == 'w' && t[2] == 'a' && t[3] == 'y' && t[4] == ' '
}

/// `t` (already trimmed) closes a segment element.
pub open spec fn is_way_end(t: Seq<char>) -> bool {
    t.len() >= 5 && t[0] == '<' && t[1] == '/' && t[2] == 'w' && t[3] == 'a' && t[4] == 'y'
}

fn has_way_start(t: &str) -> (r: bool)
    ensures
        r == is_way_start(t@),
{
    let n = t.unicode_len();
    if n < 5 {
        return false;
    }
    t.get_char(0) == '<' && t.get_char(1) == 'w' && t.get_char(2) == 'a' && t.get_char(3) == 'y'
        && t.get_char(4) == ' '
}

fn has_way_end(t: &str) -> (r: bool)
    ensures
        r == is_way_end(t@),
{
    let n = t.unicode_len();
    if n < 5 {
        return false;
    }
    t.get_char(0) == '<' && t.get_char(1) == '/' && t.get_char(2) == 'w' && t.get_char(3) == 'a'
        && t.get_char(4) == 'y'
}

/// What [`classify_line`] reports for a line: the patterns are tried in a
/// fixed order on the trimmed line, first match wins; a matching line whose
/// numeric field is malformed is a hard error; a line matching nothing is
/// inert.
pub open spec fn classify_spec(s: Seq<char>) -> Result<EventModel, BuildError> {
    let t = trim_start_of(s);
    match point_match_of(t) {
        Some(caps) => match (osm_id_of(caps.0), coord_of(caps.1), coord_of(caps.2)) {
            (Some(id), Some(la), Some(lo)) => Ok(EventModel::PointDeclared {
                id,
                point: Point { lat: la, lon: lo },
            }),
            _ => Err(BuildError::MalformedNumber),
        },
        None => if is_way_start(t) {
            Ok(EventModel::SegmentStart)
        } else {
            match hop_match_of(t) {
                Some(digits) => match osm_id_of(digits) {
                    Some(id) => Ok(EventModel::HopReference { id }),
                    None => Err(BuildError::MalformedNumber),
                },
                None => match tag_match_of(t) {
                    Some(category) => Ok(EventModel::RoadClassTag { category }),
                    None => if is_way_end(t) {
                        Ok(EventModel::SegmentEnd)
                    } else {
                        Ok(EventModel::Inert)
                    },
                },
            }
        },
    }
}

/// See [`classify_spec`]. The classifier holds no state: each line is
/// judged on its own.
pub fn classify_line(line: &str) -> (r: Result<Event, BuildError>)
    ensures
        (r matches Ok(ev) ==> classify_spec(line@) == Ok::<EventModel, BuildError>(ev@)),
        (r matches Err(e) ==> classify_spec(line@) == Err::<EventModel, BuildError>(e)),
{
    let t = trim_leading(line);
    if let Some((ids, lats, lons)) = capture_point_line(t) {
        match (parse_osm_id(ids.as_str()), parse_coord(lats.as_str()), parse_coord(lons.as_str())) {
            (Some(id), Some(la), Some(lo)) => Ok(Event::PointDeclared {
                id,
                point: Point { lat: la, lon: lo },
            }),
            _ => Err(BuildError::MalformedNumber),
        }
    } else if has_way_start(t) {
        Ok(Event::SegmentStart)
    } else if let Some(digits) = capture_hop_line(t) {
        match parse_osm_id(digits.as_str()) {
            Some(id) => Ok(Event::HopReference { id }),
            None => Err(BuildError::MalformedNumber),
        }
    } else if let Some(category) = capture_tag_line(t) {
        Ok(Event::RoadClassTag { category })
    } else if has_way_end(t) {
        Ok(Event::SegmentEnd)
    } else {
        Ok(Event::Inert)
    }
}

/// A coordinate field that parses is non-negative and within the
/// supported magnitude.
pub proof fn lemma_coord_of_bounds(s: Seq<char>)
    ensures
        coord_of(s) matches Some(v) ==> 0 <= v <= crate::geometry::MAX_COORD,
{
    let d = first_dot(s);
    let ip = s.take(d);
    let fp = if d < s.len() {
        s.skip(d + 1)
    } else {
        Seq::<char>::empty()
    };
    if all_digits(ip) && all_digits(fp) && ip.len() + fp.len() >= 1 {
        lemma_digits_val_nonneg(ip);
        lemma_frac_units_nonneg(fp);
        assert(digits_val(ip) * (crate::geometry::COORD_UNITS_PER_DEGREE as int) >= 0)
            by (nonlinear_arith)
            requires digits_val(ip) >= 0;
    }
}

/// Every point a classified line declares has bounded coordinates.
pub proof fn lemma_classify_point_bounded(s: Seq<char>)
    ensures
        classify_spec(s) matches Ok(EventModel::PointDeclared { point, .. }) ==> coord_ok(point),
{
    let t = trim_start_of(s);
    match point_match_of(t) {
        Some(caps) => {
            lemma_coord_of_bounds(caps.1);
            lemma_coord_of_bounds(caps.2);
        },
        None => {},
    }
}

} // verus!
