use mapdraw::feature::{
    collect_ways, default_rules, filter, process_coastline_and_parks, process_subways, stitch,
    Class, Kind,
};
use mapdraw::geojson::{line_strings, Feature, Geojson, Geometry as Shape};
use mapdraw::layer::{Layer, LAYER_COUNT};
use mapdraw::osm_load::{simple_filterer, Bounds, Geometry, Rule, Tag};
use mapdraw::point::{Point, Scalar};
use mapdraw::text::decimal_text;

fn num(value: f64) -> Scalar {
    Scalar::from_bits(value.to_bits()).unwrap()
}

fn pt(x: f64, y: f64) -> Point {
    Point { x: num(x), y: num(y) }
}

fn pts(points: &[(f64, f64)]) -> Vec<Point> {
    points.iter().map(|&(x, y)| pt(x, y)).collect()
}

fn tag(key: &str, val: &str) -> Tag {
    Tag { key: key.to_string(), val: val.to_string() }
}

fn feature(geometry: Shape) -> Feature {
    Feature { geometry, properties: serde_json::Value::Null }
}

fn no_bounds() -> Bounds {
    Bounds {
        width: num(0.0),
        height: num(0.0),
        min_lon: num(0.0),
        min_lat: num(0.0),
        max_lon: num(0.0),
        max_lat: num(0.0),
        scale_x: num(0.0),
        scale_y: num(0.0),
    }
}

fn rule(key: Option<&str>, val: Option<&str>, gives: u8) -> Rule<u8> {
    Rule { key: key.map(|k| k.to_string()), val: val.map(|v| v.to_string()), gives }
}

/// A feature written out, so that two lists of features can be compared.
fn shown(kinds: &[Kind]) -> Vec<String> {
    kinds.iter().map(|kind| format!("{:?}", kind)).collect()
}

#[test]
fn store_hands_back_what_was_appended() {
    let mut store = Geometry::new(no_bounds());
    let first = store.append(&pts(&[(1.0, 2.0), (3.0, 4.0)]));
    let second = store.append(&[]);
    let third = store.append(&pts(&[(5.0, 6.0)]));
    assert_eq!((0, 1, 2), (first, second, third));
    assert_eq!(3, store.len());
    assert_eq!(pts(&[(1.0, 2.0), (3.0, 4.0)]), store.resolve_coords(first));
    assert_eq!(Vec::<Point>::new(), store.resolve_coords(second));
    assert_eq!(pts(&[(5.0, 6.0)]), store.resolve_coords(third));
}

#[test]
fn store_keeps_its_canvas() {
    let bounds = Bounds { width: num(7.0), height: num(9.0), ..no_bounds() };
    let store = Geometry::new(bounds);
    assert_eq!(bounds, store.bounds());
    assert_eq!(0, store.len());
}

#[test]
fn classifier_takes_the_first_rule_that_accepts() {
    let rules = vec![
        rule(Some("highway"), None, 1),
        rule(None, Some("park"), 2),
        rule(Some("highway"), Some("park"), 3),
    ];
    assert_eq!(Some(1), simple_filterer(&rules, &[], &[tag("highway", "park")]));
    assert_eq!(Some(2), simple_filterer(&rules, &[], &[tag("leisure", "park")]));
    assert_eq!(None, simple_filterer(&rules, &[], &[tag("leisure", "pitch")]));
}

#[test]
fn classifier_asks_both_halves_of_a_rule() {
    let rules = vec![rule(Some("leisure"), Some("park"), 1)];
    assert_eq!(Some(1), simple_filterer(&rules, &[], &[tag("leisure", "park")]));
    assert_eq!(None, simple_filterer(&rules, &[], &[tag("leisure", "pitch")]));
    assert_eq!(None, simple_filterer(&rules, &[], &[tag("landuse", "park")]));
}

#[test]
fn classifier_takes_the_first_tag_with_a_verdict() {
    let rules = vec![rule(Some("highway"), None, 1), rule(Some("building"), None, 2)];
    assert_eq!(
        Some(2),
        simple_filterer(
            &rules,
            &[],
            &[tag("name", "x"), tag("building", "yes"), tag("highway", "path")]
        )
    );
}

#[test]
fn classifier_looks_at_the_relation_first() {
    let rules = vec![rule(Some("highway"), None, 1), rule(Some("building"), None, 2)];
    assert_eq!(
        Some(2),
        simple_filterer(&rules, &[tag("building", "yes")], &[tag("highway", "path")])
    );
    assert_eq!(
        Some(1),
        simple_filterer(&rules, &[tag("name", "x")], &[tag("highway", "path")])
    );
}

#[test]
fn classifier_without_rules_or_tags_finds_nothing() {
    let none: Vec<Rule<u8>> = vec![];
    assert_eq!(None, simple_filterer(&none, &[tag("a", "b")], &[tag("c", "d")]));
    assert_eq!(None, simple_filterer(&[rule(None, None, 1)], &[], &[]));
    assert_eq!(Some(1), simple_filterer(&[rule(None, None, 1)], &[], &[tag("c", "d")]));
}

#[test]
fn a_rule_accepts_by_key_and_value() {
    let by_key = rule(Some("highway"), None, 1);
    assert!(by_key.accepts(&tag("highway", "anything")));
    assert!(!by_key.accepts(&tag("building", "highway")));
    let by_val = rule(None, Some("park"), 1);
    assert!(by_val.accepts(&tag("anything", "park")));
    assert!(!by_val.accepts(&tag("park", "anything")));
}

#[test]
fn filter_knows_the_four_classes() {
    assert_eq!(
        vec!["Some(Road(4))".to_string()],
        vec![format!("{:?}", filter(&[], &[tag("highway", "residential")], 4))]
    );
    assert_eq!(
        "Some(Building(0))",
        format!("{:?}", filter(&[], &[tag("building", "yes")], 0))
    );
    assert_eq!(
        "Some(Coastline(1))",
        format!("{:?}", filter(&[], &[tag("natural", "coastline")], 1))
    );
    for val in ["park", "garden", "grass", "memorial"] {
        assert_eq!("Some(Park(2))", format!("{:?}", filter(&[], &[tag("leisure", val)], 2)));
    }
    assert_eq!("None", format!("{:?}", filter(&[], &[tag("natural", "water")], 3)));
    assert_eq!("None", format!("{:?}", filter(&[], &[], 3)));
}

#[test]
fn filter_lets_the_relation_decide() {
    assert_eq!(
        "Some(Park(5))",
        format!("{:?}", filter(&[tag("leisure", "park")], &[tag("highway", "path")], 5))
    );
}

#[test]
fn filter_tries_the_rules_in_order() {
    // One tag that both the road rule and the park rule accept.
    assert_eq!("Some(Road(0))", format!("{:?}", filter(&[], &[tag("highway", "park")], 0)));
    assert_eq!("Some(Building(0))", format!("{:?}", filter(&[], &[tag("building", "grass")], 0)));
}

#[test]
fn default_rules_give_the_classes() {
    let rules = default_rules();
    assert_eq!(7, rules.len());
    assert_eq!(Some(Class::Road), simple_filterer(&rules, &[], &[tag("highway", "x")]));
    assert_eq!(Some(Class::Coastline), simple_filterer(&rules, &[], &[tag("x", "coastline")]));
    assert_eq!("Road(3)", format!("{:?}", Class::Road.kind(3)));
    assert_eq!("Park(3)", format!("{:?}", Class::Park.kind(3)));
}

#[test]
fn collect_ways_takes_a_classified_way_into_the_store() {
    let rules = default_rules();
    let mut store = Geometry::new(no_bounds());
    let mut found = vec![];
    collect_ways(
        None,
        &[tag("highway", "path")],
        &pts(&[(0.0, 0.0), (1.0, 1.0)]),
        &rules,
        &mut store,
        &mut found,
    );
    collect_ways(
        None,
        &[tag("natural", "water")],
        &pts(&[(5.0, 5.0)]),
        &rules,
        &mut store,
        &mut found,
    );
    collect_ways(
        Some(&[tag("leisure", "park")]),
        &[tag("natural", "water")],
        &pts(&[(2.0, 2.0), (3.0, 3.0), (4.0, 4.0)]),
        &rules,
        &mut store,
        &mut found,
    );
    assert_eq!(vec!["Road(0)".to_string(), "Park(1)".to_string()], shown(&found));
    assert_eq!(2, store.len());
    assert_eq!(pts(&[(0.0, 0.0), (1.0, 1.0)]), found[0].resolve_coords(&store));
    assert_eq!(pts(&[(2.0, 2.0), (3.0, 3.0), (4.0, 4.0)]), found[1].resolve_coords(&store));
}

#[test]
fn kinds_map_to_their_layers() {
    assert_eq!(Layer::Building, Kind::Building(0).to_layer());
    assert_eq!(Layer::Road, Kind::Road(0).to_layer());
    assert_eq!(Layer::Coastline, Kind::Coastline(0).to_layer());
    assert_eq!(Layer::Coastline, Kind::ProcessedCoastline(vec![]).to_layer());
    assert_eq!(Layer::Park, Kind::Park(0).to_layer());
    assert_eq!(Layer::Park, Kind::ProcessedPark(vec![]).to_layer());
    assert_eq!(Layer::Subway, Kind::Subway(vec![]).to_layer());
}

#[test]
fn kinds_resolve_to_their_points() {
    let mut store = Geometry::new(no_bounds());
    store.append(&pts(&[(1.0, 1.0)]));
    store.append(&pts(&[(2.0, 2.0), (3.0, 3.0)]));
    assert_eq!(pts(&[(2.0, 2.0), (3.0, 3.0)]), Kind::Road(1).resolve_coords(&store));
    assert_eq!(pts(&[(1.0, 1.0)]), Kind::Coastline(0).resolve_coords(&store));
    assert_eq!(
        pts(&[(9.0, 9.0)]),
        Kind::ProcessedPark(pts(&[(9.0, 9.0)])).resolve_coords(&store)
    );
    assert_eq!(pts(&[(8.0, 8.0)]), Kind::Subway(pts(&[(8.0, 8.0)])).resolve_coords(&store));
}

#[test]
fn layers_are_numbered_as_declared() {
    assert_eq!(7, LAYER_COUNT);
    assert_eq!(0, Layer::Building.index());
    assert_eq!(1, Layer::Road.index());
    assert_eq!(2, Layer::Coastline.index());
    assert_eq!(3, Layer::Park.index());
    assert_eq!(4, Layer::ParkPath.index());
    assert_eq!(5, Layer::ParkBuilding.index());
    assert_eq!(6, Layer::Subway.index());
}

#[test]
fn stitch_dedups_connects_and_closes() {
    let shapes = stitch(vec![
        pts(&[(0.0, 0.0), (1.0, 1.0)]),
        vec![],
        pts(&[(1.0, 1.0), (2.0, 5.0)]),
        pts(&[(0.0, 0.0), (1.0, 1.0)]),
    ]);
    assert_eq!(
        vec![pts(&[(0.0, 0.0), (1.0, 1.0), (1.0, 1.0), (2.0, 5.0), (0.0, 5.0), (0.0, 0.0)])],
        shapes
    );
}

#[test]
fn stitch_closes_what_it_cannot_join() {
    let shapes = stitch(vec![pts(&[(3.0, 4.0), (5.0, 6.0)]), pts(&[(7.0, 7.0)])]);
    assert_eq!(
        vec![
            pts(&[(3.0, 4.0), (5.0, 6.0), (3.0, 6.0), (3.0, 4.0)]),
            pts(&[(7.0, 7.0), (7.0, 7.0), (7.0, 7.0)]),
        ],
        shapes
    );
}

#[test]
fn process_coastline_and_parks_stitches_coastlines_and_open_parks() {
    let mut store = Geometry::new(no_bounds());
    let road = store.append(&pts(&[(0.0, 0.0), (9.0, 9.0)]));
    let coast_a = store.append(&pts(&[(1.0, 1.0), (2.0, 2.0)]));
    let ring_park = store.append(&pts(&[(5.0, 5.0), (6.0, 5.0), (6.0, 6.0), (5.0, 5.0)]));
    let coast_b = store.append(&pts(&[(0.0, 1.0), (1.0, 1.0)]));
    let open_park = store.append(&pts(&[(7.0, 7.0), (8.0, 9.0)]));
    let empty_park = store.append(&[]);
    let building = store.append(&pts(&[(3.0, 3.0), (4.0, 4.0)]));
    let results = vec![
        Kind::Road(road),
        Kind::Coastline(coast_a),
        Kind::Park(ring_park),
        Kind::Coastline(coast_b),
        Kind::Park(open_park),
        Kind::Park(empty_park),
        Kind::Building(building),
        Kind::Coastline(coast_a),
    ];
    let expected = vec![
        Kind::Road(road),
        Kind::Park(ring_park),
        Kind::Building(building),
        Kind::ProcessedCoastline(pts(&[
            (0.0, 1.0),
            (1.0, 1.0),
            (1.0, 1.0),
            (2.0, 2.0),
            (0.0, 2.0),
            (0.0, 1.0),
        ])),
        Kind::ProcessedPark(pts(&[(7.0, 7.0), (8.0, 9.0), (7.0, 9.0), (7.0, 7.0)])),
    ];
    assert_eq!(shown(&expected), shown(&process_coastline_and_parks(results, &store)));
}

#[test]
fn process_coastline_and_parks_passes_on_what_needs_no_stitching() {
    let mut store = Geometry::new(no_bounds());
    let road = store.append(&pts(&[(0.0, 0.0), (9.0, 9.0)]));
    let results = vec![Kind::Subway(pts(&[(1.0, 1.0)])), Kind::Road(road)];
    let expected = vec![Kind::Subway(pts(&[(1.0, 1.0)])), Kind::Road(road)];
    assert_eq!(shown(&expected), shown(&process_coastline_and_parks(results, &store)));
    assert_eq!(
        Vec::<String>::new(),
        shown(&process_coastline_and_parks(vec![], &store))
    );
}

#[test]
fn process_subways_adds_the_lines_after_the_features() {
    let store = Geometry::new(no_bounds());
    let results = vec![Kind::Road(0), Kind::Building(1)];
    let lines = vec![pts(&[(1.0, 1.0), (2.0, 2.0)]), pts(&[(3.0, 3.0)])];
    let expected = vec![
        Kind::Road(0),
        Kind::Building(1),
        Kind::Subway(pts(&[(1.0, 1.0), (2.0, 2.0)])),
        Kind::Subway(pts(&[(3.0, 3.0)])),
    ];
    assert_eq!(shown(&expected), shown(&process_subways(results, &store, lines)));
}

#[test]
fn line_strings_picks_the_lines() {
    let document = Geojson {
        features: vec![
            feature(Shape::Point { coordinates: pt(0.0, 0.0) }),
            feature(Shape::LineString { coordinates: pts(&[(1.0, 1.0), (2.0, 2.0)]) }),
            feature(Shape::Polygon { coordinates: vec![pts(&[(3.0, 3.0)])] }),
            feature(Shape::MultiPoint { coordinates: pts(&[(4.0, 4.0)]) }),
            feature(Shape::LineString { coordinates: vec![] }),
            feature(Shape::MultiLineString { coordinates: vec![pts(&[(5.0, 5.0)])] }),
            feature(Shape::MultiPolygon { coordinates: vec![vec![pts(&[(6.0, 6.0)])]] }),
            feature(Shape::LineString { coordinates: pts(&[(7.0, 7.0)]) }),
        ],
    };
    assert_eq!(
        vec![pts(&[(1.0, 1.0), (2.0, 2.0)]), vec![], pts(&[(7.0, 7.0)])],
        line_strings(&document)
    );
}

#[test]
fn decimal_text_writes_numbers() {
    assert_eq!("0", decimal_text(0));
    assert_eq!("7", decimal_text(7));
    assert_eq!("10", decimal_text(10));
    assert_eq!("109", decimal_text(109));
    assert_eq!("4294967295", decimal_text(4294967295));
}

#[test]
fn kinds_tell_whether_the_store_has_their_range() {
    let mut store = Geometry::new(no_bounds());
    store.append(&pts(&[(1.0, 1.0)]));
    assert!(Kind::Road(0).resolves(&store));
    assert!(!Kind::Road(1).resolves(&store));
    assert!(!Kind::Building(7).resolves(&store));
    assert!(Kind::Coastline(0).resolves(&store));
    assert!(!Kind::Park(1).resolves(&store));
    assert!(Kind::Subway(vec![]).resolves(&store));
    assert!(Kind::ProcessedPark(vec![]).resolves(&store));
    assert!(Kind::ProcessedCoastline(vec![]).resolves(&store));
}
