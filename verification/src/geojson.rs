//! Features of a GeoJSON document, as far as the pipeline reads them.

use vstd::prelude::*;
use crate::point::{copy_points, polylines};

verus! {

pub type Coordinate = crate::point::Point;

pub type LineCoordinates = Vec<Coordinate>;

pub type PolygonCoordinates = Vec<Vec<Coordinate>>;

/// The geometry of a feature.
#[derive(Debug)]
#[allow(inconsistent_fields)]
pub enum Geometry {
    Point { coordinates: Coordinate },
    LineString { coordinates: LineCoordinates },
    Polygon { coordinates: PolygonCoordinates },
    MultiPoint { coordinates: Vec<Coordinate> },
    MultiLineString { coordinates: Vec<LineCoordinates> },
    MultiPolygon { coordinates: Vec<PolygonCoordinates> },
}

/// The value of `serde_json`: any JSON value. Nothing in this crate looks into one;
/// a feature carries its properties as it was given them.
#[verifier::external_type_specification]
#[verifier::external_body]
pub struct ExValue(serde_json::Value);

/// A feature: its geometry, and the properties that the document gives it.
#[derive(Debug)]
pub struct Feature {
    pub geometry: Geometry,
    pub properties: serde_json::Value,
}

/// The features of a document.
#[derive(Debug)]
pub struct Geojson {
    pub features: Vec<Feature>,
}

/// The lines among the features, in the order in which they come. Features with
/// another geometry are passed over.
pub open spec fn line_strings_of(features: Seq<Feature>) -> Seq<Seq<Coordinate>>
    decreases features.len(),
{
    if features.len() == 0 {
        Seq::empty()
    } else {
        let before = line_strings_of(features.drop_last());
        match features.last().geometry {
            Geometry::LineString { coordinates } => before.push(coordinates@),
            _ => before,
        }
    }
}

/// The lines among the features of a document, in the order in which they come.
pub fn line_strings(document: &Geojson) -> (lines: Vec<Vec<Coordinate>>)
    ensures
        polylines(lines@) == line_strings_of(document.features@),
{
    let mut lines: Vec<Vec<Coordinate>> = Vec::new();
    let mut i: usize = 0;
    while i < document.features.len()
        invariant
            i <= document.features.len(),
            polylines(lines@) == line_strings_of(
                document.features@.subrange(0, i as int),
            ),
        decreases document.features.len() - i,
    {
        let ghost upto = document.features@.subrange(0, i + 1);
        assert(upto.drop_last() =~= document.features@.subrange(0, i as int));
        assert(upto.last() == document.features@[i as int]);
        match &document.features[i].geometry {
            Geometry::LineString { coordinates } => {
                lines.push(copy_points(coordinates.as_slice()));
                assert(polylines(lines@) =~= line_strings_of(upto));
            },
            _ => {},
        }
        i += 1;
    }
    assert(document.features@.subrange(0, i as int) =~= document.features@);
    lines
}

} // verus!
