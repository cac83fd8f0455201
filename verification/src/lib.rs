//! Line stitching and layered vector rendering for classified map features.
//!
//! Features are read into a geometry store and classified by their tags
//! ([`osm_load`], [`feature`]). Coastlines and open parks come in fragments: the
//! stitching engine removes duplicates, joins fragments that share endpoints and
//! closes what is left ([`linemath`], [`chain`]). The renderer collects shapes in
//! layers, which take a style and may be clipped by another layer, and writes the
//! drawing as a document ([`svg_exporter`], [`document`], [`clipping`], [`theme`]).
//!
//! Coordinates are carried as the bit patterns of finite double-precision numbers
//! ([`point`]). The crate copies and compares them and never computes with them:
//! placing coordinates on the canvas is left to the caller, and so is the writing
//! of the numbers of a document, which leaves this crate in pieces ([`svg_exporter::Chunk`]).

pub mod chain;
pub mod clipping;
pub mod document;
pub mod feature;
pub mod geojson;
pub mod layer;
pub mod linemath;
pub mod osm_load;
pub mod point;
pub mod svg_exporter;
pub mod text;
pub mod theme;
