use mapdraw::feature::draw_feature;
use mapdraw::layer::Layer;
use mapdraw::osm_load::Bounds;
use mapdraw::point::{copy_points, Point, Scalar};
use mapdraw::svg_exporter::{Chunk, ExportError, Svg};
use mapdraw::theme::{gray_theme, puke_theme};

fn number(value: f64) -> Scalar {
    Scalar::from_bits(value.to_bits()).unwrap()
}

fn at(x: f64, y: f64) -> Point {
    Point { x: number(x), y: number(y) }
}

fn path(points: &[(f64, f64)]) -> Vec<Point> {
    points.iter().map(|&(x, y)| at(x, y)).collect()
}

fn canvas(width: f64, height: f64) -> Bounds {
    Bounds {
        width: number(width),
        height: number(height),
        min_lon: number(0.0),
        min_lat: number(0.0),
        max_lon: number(width),
        max_lat: number(height),
        scale_x: number(1.0),
        scale_y: number(1.0),
    }
}

fn float(scalar: Scalar) -> f64 {
    f64::from_bits(scalar.to_bits())
}

/// Writes the pieces of a document one after the other.
fn text_of(chunks: &[Chunk]) -> String {
    let mut text = String::new();
    for chunk in chunks {
        match chunk {
            Chunk::Text(piece) => text.push_str(piece),
            Chunk::Length(value) => text.push_str(&format!("{}", float(*value))),
            Chunk::Across(x) => text.push_str(&format!("{:.2}", float(*x))),
            Chunk::Down { height, y } => {
                text.push_str(&format!("{:.2}", float(*height) - float(*y)))
            }
        }
    }
    text
}

fn exported(svg: &Svg, layer_order: &[Layer]) -> String {
    match svg.export(layer_order) {
        Ok(chunks) => text_of(&chunks),
        Err(error) => panic!("the drawing was refused: {:?}", error),
    }
}

const HEAD: &str = "<svg viewBox=\"0 0 200 100\" xmlns=\"http://www.w3.org/2000/svg\">\n<style>\n";

#[test]
fn export_of_an_empty_drawing() {
    let svg = Svg::new(canvas(200.0, 100.0));
    assert_eq!(format!("{}</style>\n</svg>\n", HEAD), exported(&svg, &[]));
}

#[test]
fn export_writes_a_group_for_a_layer_without_shapes() {
    let svg = Svg::new(canvas(200.0, 100.0));
    assert_eq!(
        format!("{}</style>\n<g >\n</g>\n<g >\n</g>\n</svg>\n", HEAD),
        exported(&svg, &[Layer::Road, Layer::Park])
    );
}

#[test]
fn export_writes_the_canvas_as_it_is() {
    let svg = Svg::new(canvas(1333.25, 1000.0));
    assert_eq!(
        "<svg viewBox=\"0 0 1333.25 1000\" xmlns=\"http://www.w3.org/2000/svg\">\n<style>\n</style>\n</svg>\n",
        exported(&svg, &[])
    );
}

#[test]
fn export_writes_styles_shapes_and_background() {
    let mut svg = Svg::new(canvas(200.0, 100.0));
    svg.set_background_color("#fff");
    svg.set_style(Layer::Park, "park", "fill:green");
    svg.set_style(Layer::Road, "road", "stroke:#000");
    svg.draw_polyline(Layer::Road, &path(&[(0.0, 0.0), (10.0, 20.0)]));
    svg.draw_polyline(Layer::Park, &path(&[(0.0, 0.0), (10.0, 0.0), (10.0, 10.0), (0.0, 0.0)]));
    let expected = format!(
        "{}{}{}{}{}{}{}{}{}{}{}{}",
        HEAD,
        ".background {fill: #fff}\n",
        ".road {stroke:#000}\n",
        ".park {fill:green}\n",
        "</style>\n",
        "<rect class=\"background\" x=\"0\" y=\"0\" width=\"200\" height=\"100\" />\n",
        "<g >\n",
        "<path class=\"park\" d=\"M0.00,100.00 L10.00,100.00 L10.00,90.00 L0.00,100.00 z\" />\n",
        "</g>\n",
        "<g >\n<path class=\"road\" d=\"M0.00,100.00 L10.00,80.00 \" />\n",
        "</g>\n",
        "</svg>\n",
    );
    assert_eq!(expected, exported(&svg, &[Layer::Park, Layer::Road]));
}

#[test]
fn export_rounds_to_two_decimals_and_flips_the_vertical_axis() {
    let mut svg = Svg::new(canvas(200.0, 100.0));
    svg.draw_polyline(Layer::Subway, &path(&[(1.234, 5.678), (150.5, 99.999)]));
    assert_eq!(
        format!(
            "{}</style>\n<g >\n<path d=\"M1.23,94.32 L150.50,0.00 \" />\n</g>\n</svg>\n",
            HEAD
        ),
        exported(&svg, &[Layer::Subway])
    );
}

#[test]
fn export_keeps_the_order_in_which_shapes_were_drawn() {
    let mut svg = Svg::new(canvas(200.0, 100.0));
    svg.draw_polyline(Layer::Road, &path(&[(1.0, 1.0), (2.0, 2.0)]));
    svg.draw_polyline(Layer::Road, &path(&[(3.0, 3.0), (4.0, 4.0)]));
    svg.draw_polyline(Layer::Road, &path(&[(5.0, 5.0), (6.0, 6.0), (5.0, 5.0)]));
    let expected = format!(
        "{}{}{}{}{}{}",
        HEAD,
        "</style>\n<g >\n",
        "<path d=\"M1.00,99.00 L2.00,98.00 \" />\n",
        "<path d=\"M3.00,97.00 L4.00,96.00 \" />\n",
        "<path d=\"M5.00,95.00 L6.00,94.00 L5.00,95.00 z\" />\n",
        "</g>\n</svg>\n",
    );
    assert_eq!(expected, exported(&svg, &[Layer::Road]));
}

#[test]
fn export_leaves_out_layers_that_are_not_listed() {
    let mut svg = Svg::new(canvas(200.0, 100.0));
    svg.draw_polyline(Layer::Road, &path(&[(1.0, 1.0), (2.0, 2.0)]));
    svg.draw_polyline(Layer::Building, &path(&[(3.0, 3.0), (4.0, 4.0)]));
    assert_eq!(
        format!(
            "{}</style>\n<g >\n<path d=\"M3.00,97.00 L4.00,96.00 \" />\n</g>\n</svg>\n",
            HEAD
        ),
        exported(&svg, &[Layer::Building])
    );
}

#[test]
fn export_writes_a_layer_as_often_as_it_is_listed() {
    let mut svg = Svg::new(canvas(200.0, 100.0));
    svg.draw_polyline(Layer::Road, &path(&[(1.0, 1.0), (2.0, 2.0)]));
    let group = "<g >\n<path d=\"M1.00,99.00 L2.00,98.00 \" />\n</g>\n";
    assert_eq!(
        format!("{}</style>\n{}{}</svg>\n", HEAD, group, group),
        exported(&svg, &[Layer::Road, Layer::Road])
    );
}

#[test]
fn draw_discards_polylines_of_fewer_than_two_points() {
    let mut svg = Svg::new(canvas(200.0, 100.0));
    svg.draw_polyline(Layer::Road, &[]);
    svg.draw_polyline(Layer::Road, &path(&[(1.0, 1.0)]));
    assert_eq!(
        format!("{}</style>\n<g >\n</g>\n</svg>\n", HEAD),
        exported(&svg, &[Layer::Road])
    );
}

#[test]
fn draw_closes_a_polyline_of_two_equal_points() {
    let mut svg = Svg::new(canvas(200.0, 100.0));
    svg.draw_polyline(Layer::Road, &path(&[(1.0, 1.0), (1.0, 1.0)]));
    assert_eq!(
        format!(
            "{}</style>\n<g >\n<path d=\"M1.00,99.00 L1.00,99.00 z\" />\n</g>\n</svg>\n",
            HEAD
        ),
        exported(&svg, &[Layer::Road])
    );
}

#[test]
fn draw_leaves_a_polyline_open_that_differs_in_one_axis() {
    let mut svg = Svg::new(canvas(200.0, 100.0));
    svg.draw_polyline(Layer::Road, &path(&[(1.0, 1.0), (5.0, 5.0), (1.0, 2.0)]));
    assert_eq!(
        format!(
            "{}</style>\n<g >\n<path d=\"M1.00,99.00 L5.00,95.00 L1.00,98.00 \" />\n</g>\n</svg>\n",
            HEAD
        ),
        exported(&svg, &[Layer::Road])
    );
}

#[test]
fn draw_on_two_layers_gives_both_the_same_shape() {
    let outline = path(&[(1.0, 1.0), (4.0, 1.0), (4.0, 4.0), (1.0, 1.0)]);
    let mut first = Svg::new(canvas(200.0, 100.0));
    first.draw_polyline(Layer::Building, &outline);
    first.draw_polyline(Layer::ParkBuilding, &outline);
    let mut second = Svg::new(canvas(200.0, 100.0));
    second.draw_polyline(Layer::ParkBuilding, &outline);
    second.draw_polyline(Layer::Building, &outline);
    let group = "<g >\n<path d=\"M1.00,99.00 L4.00,99.00 L4.00,96.00 L1.00,99.00 z\" />\n</g>\n";
    let expected = format!("{}</style>\n{}{}</svg>\n", HEAD, group, group);
    assert_eq!(expected, exported(&first, &[Layer::Building, Layer::ParkBuilding]));
    assert_eq!(expected, exported(&second, &[Layer::Building, Layer::ParkBuilding]));
}

#[test]
fn set_style_replaces_an_earlier_style() {
    let mut svg = Svg::new(canvas(200.0, 100.0));
    svg.set_style(Layer::Road, "street", "stroke:red");
    svg.set_style(Layer::Road, "road", "stroke:#000");
    svg.draw_polyline(Layer::Road, &path(&[(1.0, 1.0), (2.0, 2.0)]));
    assert_eq!(
        format!(
            "{}.road {{stroke:#000}}\n</style>\n<g >\n<path class=\"road\" d=\"M1.00,99.00 L2.00,98.00 \" />\n</g>\n</svg>\n",
            HEAD
        ),
        exported(&svg, &[Layer::Road])
    );
}

#[test]
fn set_style_writes_a_rule_for_each_styled_layer() {
    let mut svg = Svg::new(canvas(200.0, 100.0));
    svg.set_style(Layer::Subway, "road", "stroke:red");
    svg.set_style(Layer::Road, "road", "stroke:#000");
    assert_eq!(
        format!("{}.road {{stroke:#000}}\n.road {{stroke:red}}\n</style>\n</svg>\n", HEAD),
        exported(&svg, &[])
    );
}

#[test]
fn set_background_color_replaces_an_earlier_colour() {
    let mut svg = Svg::new(canvas(200.0, 100.0));
    svg.set_background_color("#000");
    svg.set_background_color("#1f2345");
    assert_eq!(
        format!(
            "{}.background {{fill: #1f2345}}\n</style>\n<rect class=\"background\" x=\"0\" y=\"0\" width=\"200\" height=\"100\" />\n</svg>\n",
            HEAD
        ),
        exported(&svg, &[])
    );
}

#[test]
fn export_defines_a_clip_region_before_the_group_that_names_it() {
    let mut svg = Svg::new(canvas(200.0, 100.0));
    svg.set_clippings_layer(Layer::ParkBuilding, Layer::Park);
    svg.set_style(Layer::Park, "park", "fill:green");
    svg.draw_polyline(Layer::Park, &path(&[(0.0, 0.0), (9.0, 0.0), (9.0, 9.0), (0.0, 0.0)]));
    svg.draw_polyline(Layer::ParkBuilding, &path(&[(1.0, 1.0), (2.0, 2.0)]));
    let expected = format!(
        "{}{}{}{}{}{}{}{}{}",
        HEAD,
        ".park {fill:green}\n</style>\n",
        "<clipPath id=\"a_0\">\n",
        "<path class=\"park\" d=\"M0.00,100.00 L9.00,100.00 L9.00,91.00 L0.00,100.00 z\" />\n",
        "</clipPath>\n",
        "<g clip-path=\"url(#a_0)\">\n",
        "<path d=\"M1.00,99.00 L2.00,98.00 \" />\n",
        "</g>\n",
        "</svg>\n",
    );
    let written = exported(&svg, &[Layer::ParkBuilding]);
    assert_eq!(expected, written);
    assert!(written.find("<clipPath id=\"a_0\">").unwrap() < written.find("url(#a_0)").unwrap());
}

#[test]
fn export_nests_clip_regions_and_numbers_them_in_order() {
    let mut svg = Svg::new(canvas(200.0, 100.0));
    svg.set_clippings_layer(Layer::ParkPath, Layer::Park);
    svg.set_clippings_layer(Layer::Park, Layer::Coastline);
    svg.draw_polyline(Layer::Coastline, &path(&[(0.0, 0.0), (1.0, 1.0)]));
    svg.draw_polyline(Layer::Park, &path(&[(2.0, 2.0), (3.0, 3.0)]));
    svg.draw_polyline(Layer::ParkPath, &path(&[(4.0, 4.0), (5.0, 5.0)]));
    let coast = "<path d=\"M0.00,100.00 L1.00,99.00 \" />\n";
    let park = "<path d=\"M2.00,98.00 L3.00,97.00 \" />\n";
    let walk = "<path d=\"M4.00,96.00 L5.00,95.00 \" />\n";
    let expected = [
        HEAD,
        "</style>\n",
        "<clipPath id=\"a_0\">\n",
        "<clipPath id=\"a_1\">\n",
        coast,
        "</clipPath>\n",
        park,
        "</clipPath>\n",
        "<g clip-path=\"url(#a_0)\">\n",
        walk,
        "</g>\n",
        "<clipPath id=\"a_2\">\n",
        coast,
        "</clipPath>\n",
        "<g clip-path=\"url(#a_2)\">\n",
        park,
        "</g>\n",
        "<g >\n",
        coast,
        "</g>\n",
        "</svg>\n",
    ]
    .concat();
    assert_eq!(expected, exported(&svg, &[Layer::ParkPath, Layer::Park, Layer::Coastline]));
}

#[test]
fn export_gives_every_clip_region_an_identifier_of_its_own() {
    let mut svg = Svg::new(canvas(200.0, 100.0));
    svg.set_clippings_layer(Layer::ParkPath, Layer::Park);
    let order = vec![Layer::ParkPath; 12];
    let written = exported(&svg, &order);
    for id in 0..12 {
        let opening = format!("<clipPath id=\"a_{}\">\n", id);
        let naming = format!("<g clip-path=\"url(#a_{})\">\n", id);
        assert_eq!(1, written.matches(&opening).count());
        assert_eq!(1, written.matches(&naming).count());
        assert!(written.find(&opening).unwrap() < written.find(&naming).unwrap());
    }
    assert_eq!(12, written.matches("<clipPath id=").count());
}

#[test]
fn export_starts_the_identifiers_anew_for_each_document() {
    let mut svg = Svg::new(canvas(200.0, 100.0));
    svg.set_clippings_layer(Layer::ParkPath, Layer::Park);
    let first = exported(&svg, &[Layer::ParkPath]);
    let second = exported(&svg, &[Layer::ParkPath]);
    assert_eq!(first, second);
    assert!(first.contains("<clipPath id=\"a_0\">\n"));
}

#[test]
fn export_refuses_a_layer_that_clips_itself() {
    let mut svg = Svg::new(canvas(200.0, 100.0));
    svg.set_clippings_layer(Layer::Park, Layer::Park);
    assert_eq!(
        Some(ExportError::ClipCycle { layer: Layer::Park }),
        svg.export(&[Layer::Road, Layer::Park]).err()
    );
}

#[test]
fn export_refuses_a_cycle_of_clippings() {
    let mut svg = Svg::new(canvas(200.0, 100.0));
    svg.set_clippings_layer(Layer::Park, Layer::Road);
    svg.set_clippings_layer(Layer::Road, Layer::Coastline);
    svg.set_clippings_layer(Layer::Coastline, Layer::Park);
    svg.set_clippings_layer(Layer::Building, Layer::Coastline);
    assert_eq!(
        Some(ExportError::ClipCycle { layer: Layer::Building }),
        svg.export(&[Layer::Subway, Layer::Building, Layer::Park]).err()
    );
    assert_eq!(
        Some(ExportError::ClipCycle { layer: Layer::Road }),
        svg.export(&[Layer::Road]).err()
    );
}

#[test]
fn export_writes_what_does_not_reach_a_cycle() {
    let mut svg = Svg::new(canvas(200.0, 100.0));
    svg.set_clippings_layer(Layer::Park, Layer::Road);
    svg.set_clippings_layer(Layer::Road, Layer::Park);
    assert_eq!(
        format!("{}</style>\n<g >\n</g>\n</svg>\n", HEAD),
        exported(&svg, &[Layer::Building])
    );
}

#[test]
fn export_follows_the_longest_chain_of_clippings() {
    let mut svg = Svg::new(canvas(200.0, 100.0));
    svg.set_clippings_layer(Layer::Building, Layer::Road);
    svg.set_clippings_layer(Layer::Road, Layer::Coastline);
    svg.set_clippings_layer(Layer::Coastline, Layer::Park);
    svg.set_clippings_layer(Layer::Park, Layer::ParkPath);
    svg.set_clippings_layer(Layer::ParkPath, Layer::ParkBuilding);
    svg.set_clippings_layer(Layer::ParkBuilding, Layer::Subway);
    let written = exported(&svg, &[Layer::Building]);
    let expected = [
        HEAD,
        "</style>\n",
        "<clipPath id=\"a_0\">\n",
        "<clipPath id=\"a_1\">\n",
        "<clipPath id=\"a_2\">\n",
        "<clipPath id=\"a_3\">\n",
        "<clipPath id=\"a_4\">\n",
        "<clipPath id=\"a_5\">\n",
        "</clipPath>\n",
        "</clipPath>\n",
        "</clipPath>\n",
        "</clipPath>\n",
        "</clipPath>\n",
        "</clipPath>\n",
        "<g clip-path=\"url(#a_0)\">\n",
        "</g>\n",
        "</svg>\n",
    ]
    .concat();
    assert_eq!(expected, written);
}

#[test]
fn set_clippings_layer_replaces_an_earlier_clipping() {
    let mut svg = Svg::new(canvas(200.0, 100.0));
    svg.set_clippings_layer(Layer::ParkPath, Layer::ParkPath);
    svg.set_clippings_layer(Layer::ParkPath, Layer::Park);
    svg.draw_polyline(Layer::Park, &path(&[(2.0, 2.0), (3.0, 3.0)]));
    assert_eq!(
        format!(
            "{}</style>\n<clipPath id=\"a_0\">\n<path d=\"M2.00,98.00 L3.00,97.00 \" />\n</clipPath>\n<g clip-path=\"url(#a_0)\">\n</g>\n</svg>\n",
            HEAD
        ),
        exported(&svg, &[Layer::ParkPath])
    );
}

#[test]
fn gray_theme_styles_every_layer() {
    let mut svg = Svg::new(canvas(200.0, 100.0));
    gray_theme(&mut svg);
    let expected = [
        HEAD,
        ".background {fill: #fff}\n",
        ".building {fill:#fff; stroke:none;}\n",
        ".road {fill:none; stroke:#bbb; stroke-width:0.07%; stroke-linecap:round}\n",
        ".coastline {fill:#777; stroke:none;}\n",
        ".park {fill:#777; stroke:none;}\n",
        ".park-path {fill:none; stroke:#777; stroke-width:0.01px}\n",
        ".park-building {fill:#777; stroke:none;}\n",
        ".subway {fill:none; stroke:#ff0000; stroke-width:0.3%; stroke-linecap:round}\n",
        "</style>\n",
        "<rect class=\"background\" x=\"0\" y=\"0\" width=\"200\" height=\"100\" />\n",
        "</svg>\n",
    ]
    .concat();
    assert_eq!(expected, exported(&svg, &[]));
}

#[test]
fn puke_theme_styles_every_layer() {
    let mut svg = Svg::new(canvas(200.0, 100.0));
    puke_theme(&mut svg);
    let expected = [
        HEAD,
        ".background {fill: #1f2345}\n",
        ".building {fill:#dc9433; stroke:#000; stroke-width:0.01px}\n",
        ".road {fill:none; stroke:#8b8ca9; stroke-width:0.07%; stroke-linecap:round}\n",
        ".coastline {fill:#eee; stroke:white; stroke-width:1px}\n",
        ".park {fill:#42f442; stroke:none;}\n",
        ".park-path {fill:none; stroke:#e841f4; stroke-width:0.01px}\n",
        ".park-building {fill:#ff0000; stroke:#f44336; stroke-width:0.1px}\n",
        ".road {fill:none; stroke:#ff0000; stroke-width:0.07%; stroke-linecap:round}\n",
        "</style>\n",
        "<rect class=\"background\" x=\"0\" y=\"0\" width=\"200\" height=\"100\" />\n",
        "</svg>\n",
    ]
    .concat();
    assert_eq!(expected, exported(&svg, &[]));
}

#[test]
fn a_theme_replaces_the_one_before_it() {
    let mut themed_twice = Svg::new(canvas(200.0, 100.0));
    puke_theme(&mut themed_twice);
    gray_theme(&mut themed_twice);
    let mut themed_once = Svg::new(canvas(200.0, 100.0));
    gray_theme(&mut themed_once);
    assert_eq!(exported(&themed_once, &[]), exported(&themed_twice, &[]));
}

#[test]
fn a_theme_keeps_shapes_and_clippings() {
    let mut svg = Svg::new(canvas(200.0, 100.0));
    svg.set_clippings_layer(Layer::ParkPath, Layer::Park);
    svg.draw_polyline(Layer::ParkPath, &path(&[(2.0, 2.0), (3.0, 3.0)]));
    gray_theme(&mut svg);
    let written = exported(&svg, &[Layer::ParkPath]);
    assert!(written.ends_with(
        "<clipPath id=\"a_0\">\n</clipPath>\n<g clip-path=\"url(#a_0)\">\n<path class=\"park-path\" d=\"M2.00,98.00 L3.00,97.00 \" />\n</g>\n</svg>\n"
    ));
}

#[test]
fn copy_points_copies_every_point() {
    let points = path(&[(1.0, 2.0), (3.0, 4.0), (5.0, 6.0)]);
    assert_eq!(points, copy_points(&points));
    assert_eq!(Vec::<Point>::new(), copy_points(&[]));
}

#[test]
fn draw_feature_draws_a_building_on_both_of_its_layers() {
    let outline = path(&[(1.0, 1.0), (4.0, 1.0), (4.0, 4.0), (1.0, 1.0)]);
    let mut svg = Svg::new(canvas(200.0, 100.0));
    draw_feature(&mut svg, Layer::Building, &outline);
    let shape = "<path d=\"M1.00,99.00 L4.00,99.00 L4.00,96.00 L1.00,99.00 z\" />\n";
    let group = format!("<g >\n{}</g>\n", shape);
    assert_eq!(
        format!("{}</style>\n{}{}<g >\n</g>\n</svg>\n", HEAD, group, group),
        exported(&svg, &[Layer::Building, Layer::ParkBuilding, Layer::ParkPath])
    );
}

#[test]
fn draw_feature_draws_a_road_on_both_of_its_layers() {
    let way = path(&[(1.0, 1.0), (4.0, 1.0)]);
    let mut svg = Svg::new(canvas(200.0, 100.0));
    draw_feature(&mut svg, Layer::Road, &way);
    let group = "<g >\n<path d=\"M1.00,99.00 L4.00,99.00 \" />\n</g>\n";
    assert_eq!(
        format!("{}</style>\n{}{}<g >\n</g>\n</svg>\n", HEAD, group, group),
        exported(&svg, &[Layer::Road, Layer::ParkPath, Layer::ParkBuilding])
    );
}

#[test]
fn draw_feature_draws_the_other_layers_once() {
    let way = path(&[(1.0, 1.0), (4.0, 1.0)]);
    let all = [
        Layer::Building,
        Layer::Road,
        Layer::Coastline,
        Layer::Park,
        Layer::ParkPath,
        Layer::ParkBuilding,
        Layer::Subway,
    ];
    for layer in [Layer::Coastline, Layer::Park, Layer::ParkPath, Layer::ParkBuilding, Layer::Subway]
    {
        let mut svg = Svg::new(canvas(200.0, 100.0));
        draw_feature(&mut svg, layer, &way);
        assert_eq!(1, exported(&svg, &all).matches("<path ").count());
        assert_eq!(1, exported(&svg, &[layer]).matches("<path ").count());
    }
}
