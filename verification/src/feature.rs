//! Classified features, and the pass that stitches coastlines and open parks into
//! closed shapes before they are drawn.

use vstd::prelude::*;
use crate::layer::Layer;
use crate::linemath::{
    all_nonempty, closing_points, connect, connected, connected_keeps_fragments_nonempty, dedup,
    dedup_leaves_nothing_redundant, deduplicated, equalize, redundant,
};
use crate::osm_load::{
    classified, rules_view, simple_filterer, tags_view, Geometry, GeometryView, RangeIdx, Rule,
    RuleView, Tag, TagView,
};
use crate::point::{copy_points, is_ring, polylines, Point};
use crate::svg_exporter::{draw_fans_out, element_of, ElementView, Svg, SvgView};

verus! {

/// What a classification rule makes of a feature.
#[derive(Copy, Clone, Debug, PartialEq, Eq, Structural)]
pub enum Class {
    Building,
    Road,
    Coastline,
    Park,
}

/// A classified feature. A feature as it was read refers to its points in the
/// geometry store; a feature that was made by stitching, or that came from
/// another source, holds its own points.
#[derive(Debug)]
pub enum Kind {
    Building(RangeIdx),
    Road(RangeIdx),
    Coastline(RangeIdx),
    Park(RangeIdx),
    ProcessedCoastline(Vec<Point>),
    ProcessedPark(Vec<Point>),
    Subway(Vec<Point>),
}

/// A classified feature, as a value.
pub enum KindView {
    Building(RangeIdx),
    Road(RangeIdx),
    Coastline(RangeIdx),
    Park(RangeIdx),
    ProcessedCoastline(Seq<Point>),
    ProcessedPark(Seq<Point>),
    Subway(Seq<Point>),
}

impl View for Kind {
    type V = KindView;

    open spec fn view(&self) -> KindView {
        match self {
            Kind::Building(r) => KindView::Building(*r),
            Kind::Road(r) => KindView::Road(*r),
            Kind::Coastline(r) => KindView::Coastline(*r),
            Kind::Park(r) => KindView::Park(*r),
            Kind::ProcessedCoastline(v) => KindView::ProcessedCoastline(v@),
            Kind::ProcessedPark(v) => KindView::ProcessedPark(v@),
            Kind::Subway(v) => KindView::Subway(v@),
        }
    }
}

/// The features of a list, as values.
pub open spec fn kinds_view(kinds: Seq<Kind>) -> Seq<KindView> {
    kinds.map_values(|kind: Kind| kind@)
}

impl Class {
    /// The feature of this class whose points are at `range` in the store.
    pub open spec fn spec_kind(self, range: RangeIdx) -> KindView {
        match self {
            Class::Building => KindView::Building(range),
            Class::Road => KindView::Road(range),
            Class::Coastline => KindView::Coastline(range),
            Class::Park => KindView::Park(range),
        }
    }

    /// The feature of this class whose points are at `range` in the store.
    pub fn kind(self, range: RangeIdx) -> (kind: Kind)
        ensures
            kind@ == self.spec_kind(range),
    {
        match self {
            Class::Building => Kind::Building(range),
            Class::Road => Kind::Road(range),
            Class::Coastline => Kind::Coastline(range),
            Class::Park => Kind::Park(range),
        }
    }
}

impl KindView {
    /// The layer that the feature is drawn on.
    pub open spec fn layer(self) -> Layer {
        match self {
            KindView::Building(_) => Layer::Building,
            KindView::Road(_) => Layer::Road,
            KindView::Coastline(_) => Layer::Coastline,
            KindView::ProcessedCoastline(_) => Layer::Coastline,
            KindView::Park(_) => Layer::Park,
            KindView::ProcessedPark(_) => Layer::Park,
            KindView::Subway(_) => Layer::Subway,
        }
    }

    /// The position of the feature's range, for a feature that refers to the store.
    pub open spec fn range(self) -> Option<RangeIdx> {
        match self {
            KindView::Building(r) => Some(r),
            KindView::Road(r) => Some(r),
            KindView::Coastline(r) => Some(r),
            KindView::Park(r) => Some(r),
            _ => None,
        }
    }

    /// Whether the feature can be resolved against a store: it holds its own
    /// points, or its range is one of the store's.
    pub open spec fn resolves_in(self, geometry: GeometryView) -> bool {
        self.range() is Some ==> self.range()->0 < geometry.polys.len()
    }

    /// The points of the feature.
    pub open spec fn coords(self, geometry: GeometryView) -> Seq<Point> {
        match self {
            KindView::Building(r) => geometry.resolve(r as int),
            KindView::Road(r) => geometry.resolve(r as int),
            KindView::Coastline(r) => geometry.resolve(r as int),
            KindView::Park(r) => geometry.resolve(r as int),
            KindView::ProcessedCoastline(v) => v,
            KindView::ProcessedPark(v) => v,
            KindView::Subway(v) => v,
        }
    }
}

impl Kind {
    /// The layer that the feature is drawn on.
    pub fn to_layer(&self) -> (layer: Layer)
        ensures
            layer == self@.layer(),
    {
        match self {
            Kind::Building(_) => Layer::Building,
            Kind::Road(_) => Layer::Road,
            Kind::Coastline(_) => Layer::Coastline,
            Kind::ProcessedCoastline(_) => Layer::Coastline,
            Kind::Park(_) => Layer::Park,
            Kind::ProcessedPark(_) => Layer::Park,
            Kind::Subway(_) => Layer::Subway,
        }
    }

    /// Whether the feature can be resolved against a store: it holds its own
    /// points, or its range is one of the store's.
    pub fn resolves(&self, geom: &Geometry) -> (found: bool)
        ensures
            found == self@.resolves_in(geom@),
    {
        match self {
            Kind::Building(r) => *r < geom.len(),
            Kind::Road(r) => *r < geom.len(),
            Kind::Coastline(r) => *r < geom.len(),
            Kind::Park(r) => *r < geom.len(),
            _ => true,
        }
    }

    /// The points of the feature: those of its range in the store, or its own.
    pub fn resolve_coords<'a>(&'a self, geom: &'a Geometry) -> (points: &'a [Point])
        requires
            geom@.tiled(),
            self@.resolves_in(geom@),
        ensures
            points@ == self@.coords(geom@),
    {
        match self {
            Kind::Building(r) => geom.resolve_coords(*r),
            Kind::Road(r) => geom.resolve_coords(*r),
            Kind::Coastline(r) => geom.resolve_coords(*r),
            Kind::Park(r) => geom.resolve_coords(*r),
            Kind::ProcessedCoastline(v) => v.as_slice(),
            Kind::ProcessedPark(v) => v.as_slice(),
            Kind::Subway(v) => v.as_slice(),
        }
    }
}

/// The rules by which features are classified, in the order in which they are
/// tried: a feature with a `highway` key is a road, one with a `building` key a
/// building; one with the value `coastline` is a coastline; one with the value
/// `park`, `garden`, `grass` or `memorial` is a park.
pub open spec fn feature_rules() -> Seq<RuleView<Class>> {
    seq![
        RuleView { key: Some("highway"@), val: None, gives: Class::Road },
        RuleView { key: Some("building"@), val: None, gives: Class::Building },
        RuleView { key: None, val: Some("coastline"@), gives: Class::Coastline },
        RuleView { key: None, val: Some("park"@), gives: Class::Park },
        RuleView { key: None, val: Some("garden"@), gives: Class::Park },
        RuleView { key: None, val: Some("grass"@), gives: Class::Park },
        RuleView { key: None, val: Some("memorial"@), gives: Class::Park },
    ]
}

/// The rules by which features are classified.
pub fn default_rules() -> (rules: Vec<Rule<Class>>)
    ensures
        rules_view(rules@) == feature_rules(),
{
    let mut rules: Vec<Rule<Class>> = Vec::new();
    rules.push(Rule { key: Some(String::from_str("highway")), val: None, gives: Class::Road });
    rules.push(
        Rule { key: Some(String::from_str("building")), val: None, gives: Class::Building },
    );
    rules.push(
        Rule { key: None, val: Some(String::from_str("coastline")), gives: Class::Coastline },
    );
    rules.push(Rule { key: None, val: Some(String::from_str("park")), gives: Class::Park });
    rules.push(Rule { key: None, val: Some(String::from_str("garden")), gives: Class::Park });
    rules.push(Rule { key: None, val: Some(String::from_str("grass")), gives: Class::Park });
    rules.push(Rule { key: None, val: Some(String::from_str("memorial")), gives: Class::Park });
    assert(rules_view(rules@) =~= feature_rules());
    rules
}

/// The feature that a class, if there is one, makes of a range.
pub open spec fn kind_of(class: Option<Class>, range: RangeIdx) -> Option<KindView> {
    match class {
        Some(class) => Some(class.spec_kind(range)),
        None => None,
    }
}

/// A feature that may be missing, as a value.
pub open spec fn kind_option_view(kind: Option<Kind>) -> Option<KindView> {
    match kind {
        Some(kind) => Some(kind@),
        None => None,
    }
}

/// Classifies a feature by the tags of its enclosing relation and its own, under
/// the rules of [`feature_rules`]. A feature that no rule accepts is dropped.
pub fn filter(relationship_tags: &[Tag], way_tags: &[Tag], range: RangeIdx) -> (found: Option<Kind>)
    ensures
        kind_option_view(found) == kind_of(
            classified(feature_rules(), tags_view(relationship_tags@) + tags_view(way_tags@)),
            range,
        ),
{
    let rules = default_rules();
    match simple_filterer(rules.as_slice(), relationship_tags, way_tags) {
        Some(class) => Some(class.kind(range)),
        None => None,
    }
}

/// The tags of the enclosing relation, where there is one.
pub open spec fn relation_tags(relationship_tags: Option<&[Tag]>) -> Seq<TagView> {
    match relationship_tags {
        Some(tags) => tags_view(tags@),
        None => Seq::empty(),
    }
}

/// Takes one way into the store, if the rules classify it: its points are appended
/// to the buffer, and the feature that refers to them is appended to the features
/// found so far. A way that no rule accepts leaves both as they are.
pub fn collect_ways(
    relationship_tags: Option<&[Tag]>,
    way_tags: &[Tag],
    nodes: &[Point],
    rules: &[Rule<Class>],
    geometry: &mut Geometry,
    all_values: &mut Vec<Kind>,
)
    requires
        old(geometry)@.tiled(),
    ensures
        final(geometry)@.tiled(),
        match classified(
            rules_view(rules@),
            relation_tags(relationship_tags) + tags_view(way_tags@),
        ) {
            Some(class) => {
                &&& final(geometry)@ == old(geometry)@.appended(nodes@)
                &&& kinds_view(final(all_values)@) == kinds_view(old(all_values)@).push(
                    class.spec_kind(old(geometry)@.polys.len() as usize),
                )
            },
            None => {
                &&& final(geometry)@ == old(geometry)@
                &&& kinds_view(final(all_values)@) == kinds_view(old(all_values)@)
            },
        },
{
    let none: Vec<Tag> = Vec::new();
    let relationship_tags: &[Tag] = match relationship_tags {
        Some(tags) => tags,
        None => none.as_slice(),
    };
    assert(tags_view(none@) =~= Seq::<TagView>::empty());
    if let Some(class) = simple_filterer(rules, relationship_tags, way_tags) {
        let range = geometry.append(nodes);
        all_values.push(class.kind(range));
        assert(kinds_view(all_values@) =~= kinds_view(old(all_values)@).push(
            class.spec_kind(range),
        ));
    }
}

/// A fragment forced into a closed loop.
pub open spec fn closed(line: Seq<Point>) -> Seq<Point> {
    line + closing_points(line)
}

/// The closed shapes that stitching makes of a list of fragments: duplicates are
/// removed, fragments that share endpoints are joined, and each fragment that is
/// left is forced into a closed loop.
pub open spec fn stitched(lines: Seq<Seq<Point>>) -> Seq<Seq<Point>> {
    connected(deduplicated(lines)).map_values(|line: Seq<Point>| closed(line))
}

/// Every shape that stitching gives is a ring, and is drawn as one.
pub proof fn stitched_shapes_are_rings(lines: Seq<Seq<Point>>, k: int)
    requires
        0 <= k < stitched(lines).len(),
    ensures
        is_ring(stitched(lines)[k]),
        stitched(lines)[k].len() >= 3,
        element_of(stitched(lines)[k]) == (ElementView::Polygon { points: stitched(lines)[k] }),
{
    let joined = connected(deduplicated(lines));
    let line = joined[k];
    assert(stitched(lines)[k] == closed(line));
    assert(closed(line).last() == closing_points(line)[1]);
    assert(closed(line).first() == if line.len() > 0 {
        line.first()
    } else {
        closing_points(line)[0]
    });
    dedup_leaves_nothing_redundant(lines);
    assert forall|i: int| 0 <= i < deduplicated(lines).len() implies (
    #[trigger] deduplicated(lines)[i]).len() > 0 by {
        assert(!redundant(deduplicated(lines), i));
    }
    connected_keeps_fragments_nonempty(deduplicated(lines));
}

/// Stitches fragments into closed shapes.
pub fn stitch(lines: Vec<Vec<Point>>) -> (shapes: Vec<Vec<Point>>)
    ensures
        polylines(shapes@) == stitched(polylines(lines@)),
{
    let ghost given = polylines(lines@);
    let lines = dedup(lines);
    let mut lines = connect(lines);
    let ghost joined = polylines(lines@);
    let mut i: usize = 0;
    while i < lines.len()
        invariant
            i <= lines.len(),
            lines.len() == joined.len(),
            all_nonempty(joined),
            forall|k: int| 0 <= k < i ==> lines[k]@ == closed(joined[k]),
            forall|k: int| i <= k < lines.len() ==> lines[k]@ == joined[k],
        decreases lines.len() - i,
    {
        assert(joined[i as int].len() > 0);
        equalize(&mut lines[i]);
        i += 1;
    }
    assert(polylines(lines@) =~= stitched(given));
    lines
}

/// The coastlines among the features, in the order in which they come.
pub open spec fn coastlines_of(kinds: Seq<KindView>, geometry: GeometryView) -> Seq<Seq<Point>>
    decreases kinds.len(),
{
    if kinds.len() == 0 {
        Seq::empty()
    } else {
        let before = coastlines_of(kinds.drop_last(), geometry);
        match kinds.last() {
            KindView::Coastline(r) => before.push(geometry.resolve(r as int)),
            _ => before,
        }
    }
}

/// The parks among the features that are not rings, in the order in which they come.
pub open spec fn open_parks_of(kinds: Seq<KindView>, geometry: GeometryView) -> Seq<Seq<Point>>
    decreases kinds.len(),
{
    if kinds.len() == 0 {
        Seq::empty()
    } else {
        let before = open_parks_of(kinds.drop_last(), geometry);
        match kinds.last() {
            KindView::Park(r) if !is_ring(geometry.resolve(r as int)) => before.push(
                geometry.resolve(r as int),
            ),
            _ => before,
        }
    }
}

/// The features that need no stitching, in the order in which they come: all but
/// the coastlines and the parks that are not rings.
pub open spec fn settled_of(kinds: Seq<KindView>, geometry: GeometryView) -> Seq<KindView>
    decreases kinds.len(),
{
    if kinds.len() == 0 {
        Seq::empty()
    } else {
        let before = settled_of(kinds.drop_last(), geometry);
        match kinds.last() {
            KindView::Coastline(_) => before,
            KindView::Park(r) if !is_ring(geometry.resolve(r as int)) => before,
            other => before.push(other),
        }
    }
}

/// The features after stitching: those that need none, then the closed shapes made
/// of the coastlines, then the closed shapes made of the parks that are not rings.
pub open spec fn processed(kinds: Seq<KindView>, geometry: GeometryView) -> Seq<KindView> {
    settled_of(kinds, geometry) + stitched(coastlines_of(kinds, geometry)).map_values(
        |line: Seq<Point>| KindView::ProcessedCoastline(line),
    ) + stitched(open_parks_of(kinds, geometry)).map_values(
        |line: Seq<Point>| KindView::ProcessedPark(line),
    )
}

/// Replaces the coastlines and the parks that are not rings by closed shapes.
///
/// Coastlines come in fragments, and so do some parks. The fragments of each of the
/// two are stitched among themselves; what comes of it follows the features that
/// needed no stitching.
pub fn process_coastline_and_parks(results: Vec<Kind>, geometry: &Geometry) -> (acc: Vec<Kind>)
    requires
        geometry@.tiled(),
        forall|k: int| 0 <= k < results@.len() ==> (#[trigger] results@[k])@.resolves_in(geometry@),
    ensures
        kinds_view(acc@) == processed(kinds_view(results@), geometry@),
{
    let ghost given = results@;
    let ghost all = kinds_view(results@);
    let mut coastlines: Vec<Vec<Point>> = Vec::new();
    let mut disconnected_parks: Vec<Vec<Point>> = Vec::new();
    let mut acc: Vec<Kind> = Vec::new();
    for kind in iter: results
        invariant
            iter.seq() == given,
            all == kinds_view(given),
            geometry@.tiled(),
            forall|k: int| 0 <= k < given.len() ==> (#[trigger] given[k])@.resolves_in(geometry@),
            polylines(coastlines@) == coastlines_of(
                all.subrange(0, iter.index() as int),
                geometry@,
            ),
            polylines(disconnected_parks@) == open_parks_of(
                all.subrange(0, iter.index() as int),
                geometry@,
            ),
            kinds_view(acc@) == settled_of(all.subrange(0, iter.index() as int), geometry@),
    {
        let ghost i = iter.index() as int;
        assert(0 <= i < given.len());
        assert(given[i] == kind);
        assert(all.subrange(0, i + 1).drop_last() =~= all.subrange(0, i));
        assert(all.subrange(0, i + 1).last() == kind@);
        match kind {
            Kind::Coastline(idx) => {
                coastlines.push(copy_points(geometry.resolve_coords(idx)));
                assert(polylines(coastlines@) =~= coastlines_of(all.subrange(0, i + 1), geometry@));
            },
            Kind::Park(idx) => {
                let points = geometry.resolve_coords(idx);
                if points.len() > 0 && points[0] == points[points.len() - 1] {
                    acc.push(Kind::Park(idx));
                    assert(kinds_view(acc@) =~= settled_of(all.subrange(0, i + 1), geometry@));
                } else {
                    disconnected_parks.push(copy_points(points));
                    assert(polylines(disconnected_parks@) =~= open_parks_of(
                        all.subrange(0, i + 1),
                        geometry@,
                    ));
                }
            },
            other => {
                acc.push(other);
                assert(kinds_view(acc@) =~= settled_of(all.subrange(0, i + 1), geometry@));
            },
        }
    }
    assert(all.subrange(0, all.len() as int) =~= all);
    let ghost settled = kinds_view(acc@);

    // Coastlines
    let coastlines = stitch(coastlines);
    let ghost coasts = polylines(coastlines@).map_values(
        |line: Seq<Point>| KindView::ProcessedCoastline(line),
    );
    let ghost shapes = coastlines@;
    for coastline in iter: coastlines
        invariant
            iter.seq() == shapes,
            coasts == polylines(shapes).map_values(
                |line: Seq<Point>| KindView::ProcessedCoastline(line),
            ),
            kinds_view(acc@) == settled + coasts.subrange(0, iter.index() as int),
    {
        let ghost i = iter.index() as int;
        assert(0 <= i < shapes.len());
        assert(shapes[i] == coastline);
        assert(coasts.len() == shapes.len());
        assert(coasts[i] == KindView::ProcessedCoastline(coastline@));
        assert(coasts.subrange(0, i + 1) =~= coasts.subrange(0, i).push(coasts[i]));
        let ghost so_far = kinds_view(acc@);
        acc.push(Kind::ProcessedCoastline(coastline));
        assert(kinds_view(acc@) =~= so_far.push(coasts[i]));
        assert(kinds_view(acc@) =~= settled + coasts.subrange(0, i + 1));
    }
    assert(coasts.subrange(0, coasts.len() as int) =~= coasts);

    // Parks
    let disconnected_parks = stitch(disconnected_parks);
    let ghost parks = polylines(disconnected_parks@).map_values(
        |line: Seq<Point>| KindView::ProcessedPark(line),
    );
    let ghost shapes = disconnected_parks@;
    for park in iter: disconnected_parks
        invariant
            iter.seq() == shapes,
            parks == polylines(shapes).map_values(|line: Seq<Point>| KindView::ProcessedPark(line)),
            kinds_view(acc@) == settled + coasts + parks.subrange(0, iter.index() as int),
    {
        let ghost i = iter.index() as int;
        assert(0 <= i < shapes.len());
        assert(shapes[i] == park);
        assert(parks.len() == shapes.len());
        assert(parks[i] == KindView::ProcessedPark(park@));
        assert(parks.subrange(0, i + 1) =~= parks.subrange(0, i).push(parks[i]));
        let ghost so_far = kinds_view(acc@);
        acc.push(Kind::ProcessedPark(park));
        assert(kinds_view(acc@) =~= so_far.push(parks[i]));
        assert(kinds_view(acc@) =~= settled + coasts + parks.subrange(0, i + 1));
    }
    assert(parks.subrange(0, parks.len() as int) =~= parks);

    acc
}

/// The features with a transit line for each of the given lines, in their order,
/// after them.
pub open spec fn with_subways(kinds: Seq<KindView>, lines: Seq<Seq<Point>>) -> Seq<KindView> {
    kinds + lines.map_values(|line: Seq<Point>| KindView::Subway(line))
}

/// Adds transit lines to the features.
pub fn process_subways(results: Vec<Kind>, _geometry: &Geometry, subways: Vec<Vec<Point>>) -> (acc:
    Vec<Kind>)
    ensures
        kinds_view(acc@) == with_subways(kinds_view(results@), polylines(subways@)),
{
    let mut acc = results;
    let ghost lines = subways@;
    let ghost added = polylines(lines).map_values(|line: Seq<Point>| KindView::Subway(line));
    for line in iter: subways
        invariant
            iter.seq() == lines,
            added == polylines(lines).map_values(|line: Seq<Point>| KindView::Subway(line)),
            kinds_view(acc@) == kinds_view(results@) + added.subrange(0, iter.index() as int),
    {
        let ghost i = iter.index() as int;
        assert(0 <= i < lines.len());
        assert(lines[i] == line);
        assert(added.len() == lines.len());
        assert(added[i] == KindView::Subway(line@));
        assert(added.subrange(0, i + 1) =~= added.subrange(0, i).push(added[i]));
        let ghost so_far = kinds_view(acc@);
        acc.push(Kind::Subway(line));
        assert(kinds_view(acc@) =~= so_far.push(added[i]));
        assert(kinds_view(acc@) =~= kinds_view(results@) + added.subrange(0, i + 1));
    }
    assert(added.subrange(0, added.len() as int) =~= added);
    acc
}

/// The second layer that a feature of a layer is drawn on as well: buildings are
/// also drawn as buildings in parks, and roads as paths in parks. What is seen
/// of the second layer is up to its clipping.
pub open spec fn derived_layer(layer: Layer) -> Option<Layer> {
    match layer {
        Layer::Building => Some(Layer::ParkBuilding),
        Layer::Road => Some(Layer::ParkPath),
        _ => None,
    }
}

/// A drawing with the polyline of a feature drawn on the layer of the feature
/// and, where the layer has one, on its second layer.
pub open spec fn with_feature(svg: SvgView, layer: Layer, polyline: Seq<Point>) -> SvgView {
    match derived_layer(layer) {
        Some(derived) => svg.with_polyline(layer, polyline).with_polyline(derived, polyline),
        None => svg.with_polyline(layer, polyline),
    }
}

/// Draws the polyline of a feature on the layer of the feature and, where the
/// layer has one, on its second layer.
pub fn draw_feature(svg: &mut Svg, layer: Layer, polyline: &[Point])
    ensures
        final(svg)@ == with_feature(old(svg)@, layer, polyline@),
{
    svg.draw_polyline(layer, polyline);
    match layer {
        Layer::Building => svg.draw_polyline(Layer::ParkBuilding, polyline),
        Layer::Road => svg.draw_polyline(Layer::ParkPath, polyline),
        _ => (),
    }
}

/// A feature that is drawn on two layers ends up as the same shape, the last, on
/// both, and the drawing is the one that drawing on the second layer first would
/// have given.
pub proof fn feature_fans_out(svg: SvgView, layer: Layer, polyline: Seq<Point>)
    requires
        derived_layer(layer) is Some,
        polyline.len() >= 2,
    ensures
        with_feature(svg, layer, polyline).layers[layer] == svg.layers[layer].push(
            element_of(polyline),
        ),
        with_feature(svg, layer, polyline).layers[derived_layer(layer)->0]
            == svg.layers[derived_layer(layer)->0].push(element_of(polyline)),
        with_feature(svg, layer, polyline) == svg.with_polyline(
            derived_layer(layer)->0,
            polyline,
        ).with_polyline(layer, polyline),
{
    draw_fans_out(svg, layer, derived_layer(layer)->0, polyline);
}

} // verus!
