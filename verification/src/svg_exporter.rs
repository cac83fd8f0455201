//! The layered vector renderer: shapes are drawn into layers, layers take a style
//! and may be clipped by another layer, and the drawing is written out as a document.

use vstd::prelude::*;
use crate::document::{
    background_rule_text, clip_of, clip_open_text, definition_chunks, group_close_chunks,
    group_open_chunks, group_open_text, lemma_layer_written, lemma_written_concat,
    lemma_written_one, path_chunks, path_open_text, point_chunks, points_chunks,
    style_rule_text, written, Node,
};
use crate::layer::{Layer, LAYER_COUNT};
use crate::osm_load::Bounds;
use crate::point::{copy_points, Point, Scalar};
use crate::text::decimal_text;

verus! {

/// A drawn shape. What a shape is was decided when it was drawn and does not change.
#[derive(Debug)]
pub enum Element {
    /// An open line.
    LineSegment { points: Vec<Point> },
    /// A filled ring: a line that ends on the point it starts from.
    Polygon { points: Vec<Point> },
}

/// A drawn shape, as a value.
pub enum ElementView {
    LineSegment { points: Seq<Point> },
    Polygon { points: Seq<Point> },
}

impl View for Element {
    type V = ElementView;

    open spec fn view(&self) -> ElementView {
        match self {
            Element::LineSegment { points } => ElementView::LineSegment { points: points@ },
            Element::Polygon { points } => ElementView::Polygon { points: points@ },
        }
    }
}

impl ElementView {
    /// The points of the shape.
    pub open spec fn points(self) -> Seq<Point> {
        match self {
            ElementView::LineSegment { points } => points,
            ElementView::Polygon { points } => points,
        }
    }
}

/// The shape that a polyline is drawn as: a filled ring if it ends on the point it
/// starts from, an open line otherwise.
pub open spec fn element_of(polyline: Seq<Point>) -> ElementView {
    if polyline.first() == polyline.last() {
        ElementView::Polygon { points: polyline }
    } else {
        ElementView::LineSegment { points: polyline }
    }
}

/// The shapes of a list, as values.
pub open spec fn elements_view(elements: Seq<Element>) -> Seq<ElementView> {
    elements.map_values(|element: Element| element@)
}

/// A drawing: its canvas, the shapes drawn on each layer, and how each layer is
/// styled and clipped.
pub struct Svg {
    bounds: Bounds,
    layers: [Vec<Element>; LAYER_COUNT],
    styles: [Option<(String, String)>; LAYER_COUNT],
    clippings: [Option<Layer>; LAYER_COUNT],
    background_color: Option<String>,
}

/// A drawing, as a value.
pub struct SvgView {
    /// The canvas.
    pub bounds: Bounds,
    /// The shapes of every layer, in the order in which they were drawn; empty for
    /// a layer on which nothing was drawn.
    pub layers: Map<Layer, Seq<ElementView>>,
    /// The class name and the declarations of each layer that has a style.
    pub styles: Map<Layer, (Seq<char>, Seq<char>)>,
    /// For each clipped layer, the layer whose shapes it is clipped by.
    pub clippings: Map<Layer, Layer>,
    /// The background colour, if one was set.
    pub background_color: Option<Seq<char>>,
}

impl SvgView {
    /// An empty drawing on a canvas.
    pub open spec fn empty(bounds: Bounds) -> SvgView {
        SvgView {
            bounds,
            layers: Map::new(|layer: Layer| true, |layer: Layer| Seq::empty()),
            styles: Map::empty(),
            clippings: Map::empty(),
            background_color: None,
        }
    }

    /// The drawing with a background colour; an earlier one is replaced.
    pub open spec fn with_background_color(self, color: Seq<char>) -> SvgView {
        SvgView { background_color: Some(color), ..self }
    }

    /// The drawing with a style for a layer; an earlier style of that layer is replaced.
    pub open spec fn with_style(
        self,
        layer: Layer,
        classname: Seq<char>,
        style: Seq<char>,
    ) -> SvgView {
        SvgView { styles: self.styles.insert(layer, (classname, style)), ..self }
    }

    /// The drawing with a layer clipped by another; an earlier clipping of that
    /// layer is replaced.
    pub open spec fn with_clipping(self, layer: Layer, clipped_by: Layer) -> SvgView {
        SvgView { clippings: self.clippings.insert(layer, clipped_by), ..self }
    }

    /// The drawing with a polyline drawn on a layer, after the shapes that the layer
    /// holds. A polyline of fewer than two points leaves the drawing as it is.
    pub open spec fn with_polyline(self, layer: Layer, polyline: Seq<Point>) -> SvgView {
        if polyline.len() < 2 {
            self
        } else {
            SvgView {
                layers: self.layers.insert(layer, self.layers[layer].push(element_of(polyline))),
                ..self
            }
        }
    }
}

impl View for Svg {
    type V = SvgView;

    closed spec fn view(&self) -> SvgView {
        self.model()
    }
}

impl Svg {
    /// The drawing that the tables hold.
    #[verifier::opaque]
    spec fn model(&self) -> SvgView {
        SvgView {
            bounds: self.bounds,
            layers: Map::new(
                |layer: Layer| true,
                |layer: Layer| elements_view(self.layers[layer.spec_index()]@),
            ),
            styles: Map::new(
                |layer: Layer| self.styles[layer.spec_index()].is_some(),
                |layer: Layer|
                    (
                        self.styles[layer.spec_index()].unwrap().0@,
                        self.styles[layer.spec_index()].unwrap().1@,
                    ),
            ),
            clippings: Map::new(
                |layer: Layer| self.clippings[layer.spec_index()].is_some(),
                |layer: Layer| self.clippings[layer.spec_index()].unwrap(),
            ),
            background_color: match self.background_color {
                Some(color) => Some(color@),
                None => None,
            },
        }
    }
}

impl Svg {
    /// An empty drawing on a canvas.
    pub fn new(bounds: Bounds) -> (svg: Svg)
        ensures
            svg@ == SvgView::empty(bounds),
    {
        let svg = Svg {
            bounds,
            layers: [
                Vec::new(),
                Vec::new(),
                Vec::new(),
                Vec::new(),
                Vec::new(),
                Vec::new(),
                Vec::new(),
            ],
            styles: [None, None, None, None, None, None, None],
            clippings: [None, None, None, None, None, None, None],
            background_color: None,
        };
        reveal(Svg::model);
        assert(svg@.layers =~~= SvgView::empty(bounds).layers);
        assert(svg@.styles =~= SvgView::empty(bounds).styles);
        assert(svg@.clippings =~= SvgView::empty(bounds).clippings);
        svg
    }

    /// Sets the background colour. The last colour set is the one that counts.
    pub fn set_background_color(&mut self, color: &str)
        ensures
            final(self)@ == old(self)@.with_background_color(color@),
    {
        self.background_color = Some(String::from_str(color));
        reveal(Svg::model);
    }

    /// Gives a layer a class name and the declarations of that class. The last style
    /// set for a layer is the one that counts.
    pub fn set_style(&mut self, layer: Layer, classname: &str, style: &str)
        ensures
            final(self)@ == old(self)@.with_style(layer, classname@, style@),
    {
        self.styles[layer.index()] = Some((String::from_str(classname), String::from_str(style)));
        reveal(Svg::model);
        assert(self@.styles =~= old(self)@.with_style(layer, classname@, style@).styles);
    }

    /// Restricts what is seen of a layer to the shapes of another. The last clipping
    /// set for a layer is the one that counts.
    pub fn set_clippings_layer(&mut self, layer: Layer, clipped_by: Layer)
        ensures
            final(self)@ == old(self)@.with_clipping(layer, clipped_by),
    {
        self.clippings[layer.index()] = Some(clipped_by);
        reveal(Svg::model);
        assert(self@.clippings =~= old(self)@.with_clipping(layer, clipped_by).clippings);
    }

    /// Draws a polyline on a layer, after the shapes that the layer holds.
    ///
    /// A polyline of fewer than two points is not drawn. One that ends on the point
    /// it starts from is drawn as a filled ring, any other as an open line.
    pub fn draw_polyline(&mut self, layer: Layer, polyline: &[Point])
        ensures
            final(self)@ == old(self)@.with_polyline(layer, polyline@),
    {
        reveal(Svg::model);
        let len = polyline.len();
        if len == 0 || len == 1 {
            return ;
        }
        let points = copy_points(polyline);
        let element = if polyline[0] == polyline[len - 1] {
            Element::Polygon { points }
        } else {
            Element::LineSegment { points }
        };
        self.layers[layer.index()].push(element);
        assert(element@ == element_of(polyline@));
        assert(self@.layers =~~= old(self)@.with_polyline(layer, polyline@).layers);
    }
}

/// One piece of a written document. The pieces, written one after the other, are
/// the document.
#[derive(Debug)]
pub enum Chunk {
    /// Text, written as it stands.
    Text(String),
    /// An extent of the canvas, written in the shortest notation that reads back as
    /// the same number.
    Length(Scalar),
    /// A horizontal position, written with two decimals.
    Across(Scalar),
    /// A vertical position that was given bottom-up. The document counts top-down:
    /// what is written, with two decimals, is `height` less `y`.
    Down { height: Scalar, y: Scalar },
}

/// One piece of a written document, as a value.
pub enum ChunkView {
    Text(Seq<char>),
    Length(Scalar),
    Across(Scalar),
    Down { height: Scalar, y: Scalar },
}

impl View for Chunk {
    type V = ChunkView;

    open spec fn view(&self) -> ChunkView {
        match self {
            Chunk::Text(text) => ChunkView::Text(text@),
            Chunk::Length(value) => ChunkView::Length(*value),
            Chunk::Across(x) => ChunkView::Across(*x),
            Chunk::Down { height, y } => ChunkView::Down { height: *height, y: *y },
        }
    }
}

/// The pieces of a list, as values.
pub open spec fn chunks_view(chunks: Seq<Chunk>) -> Seq<ChunkView> {
    chunks.map_values(|chunk: Chunk| chunk@)
}

/// Why a drawing could not be written.
#[derive(Debug, PartialEq, Eq, Structural, Clone, Copy)]
pub enum ExportError {
    /// Following the clippings from `layer` never comes to a layer that is not
    /// clipped: some layer on the way is clipped, directly or not, by itself.
    ClipCycle { layer: Layer },
}

/// Writes the line that starts a clip region.
fn clip_open(id: usize) -> (text: String)
    ensures
        text@ == clip_open_text(id as nat),
{
    let mut text = String::from_str("<clipPath id=\"");
    text.append("a_");
    text.append(decimal_text(id).as_str());
    text.append("\">\n");
    assert(text@ =~= clip_open_text(id as nat));
    text
}

/// Writes the line that starts a group.
fn group_open(clip: Option<usize>) -> (text: String)
    ensures
        text@ == group_open_text(
            match clip {
                Some(id) => Some(id as nat),
                None => None,
            },
        ),
{
    match clip {
        Some(id) => {
            let mut text = String::from_str("<g clip-path=\"url(#");
            text.append("a_");
            text.append(decimal_text(id).as_str());
            text.append(")\">\n");
            assert(text@ =~= group_open_text(Some(id as nat)));
            text
        },
        None => String::from_str("<g >\n"),
    }
}

/// Writes the start of a path.
fn path_open(style_class: &Option<String>) -> (text: String)
    ensures
        text@ == path_open_text(
            match style_class {
                Some(class) => Some(class@),
                None => None,
            },
        ),
{
    match style_class {
        Some(class) => {
            let mut text = String::from_str("<path class=\"");
            text.append(class.as_str());
            text.append("\" d=\"");
            text
        },
        None => String::from_str("<path d=\""),
    }
}

/// Writes the rule of a class.
fn style_rule(classname: &String, style: &String) -> (text: String)
    ensures
        text@ == style_rule_text(classname@, style@),
{
    let mut text = String::from_str(".");
    text.append(classname.as_str());
    text.append(" {");
    text.append(style.as_str());
    text.append("}\n");
    text
}

/// Writes the rule of the background.
fn background_rule(color: &String) -> (text: String)
    ensures
        text@ == background_rule_text(color@),
{
    let mut text = String::from_str(".background {fill: ");
    text.append(color.as_str());
    text.append("}\n");
    text
}

/// Appends a piece of text to what is written.
fn push_text(out: &mut Vec<Chunk>, text: String)
    ensures
        chunks_view(final(out)@) == chunks_view(old(out)@).push(ChunkView::Text(text@)),
        final(out)@.len() == old(out)@.len() + 1,
{
    out.push(Chunk::Text(text));
    assert(chunks_view(out@) =~= chunks_view(old(out)@).push(ChunkView::Text(text@)));
}

/// Appends a shape to what is written.
fn draw_element(
    style_class: &Option<String>,
    out: &mut Vec<Chunk>,
    element: &Element,
    height: Scalar,
)
    ensures
        chunks_view(final(out)@) == chunks_view(old(out)@) + path_chunks(
            match style_class {
                Some(class) => Some(class@),
                None => None,
            },
            element@,
            height,
        ),
{
    let ghost class = match style_class {
        Some(class) => Some(class@),
        None => None,
    };
    let ghost before = chunks_view(out@);
    let (points, ring) = match element {
        Element::LineSegment { points } => (points, false),
        Element::Polygon { points } => (points, true),
    };
    if points.len() == 0 {
        assert(chunks_view(out@) =~= before + path_chunks(class, element@, height));
        return ;
    }
    out.push(Chunk::Text(path_open(style_class)));
    let ghost opened = before + seq![ChunkView::Text(path_open_text(class))];
    assert(chunks_view(out@) =~= opened);
    let mut i: usize = 0;
    while i < points.len()
        invariant
            i <= points.len(),
            chunks_view(out@) == opened + points_chunks(points@.subrange(0, i as int), height),
        decreases points.len() - i,
    {
        let point = points[i];
        let ghost so_far = chunks_view(out@);
        out.push(Chunk::Text(String::from_str(if i == 0 { "M" } else { "L" })));
        out.push(Chunk::Across(point.x));
        out.push(Chunk::Text(String::from_str(",")));
        out.push(Chunk::Down { height, y: point.y });
        out.push(Chunk::Text(String::from_str(" ")));
        proof {
            let upto = points@.subrange(0, i + 1);
            assert(upto.drop_last() =~= points@.subrange(0, i as int));
            assert(upto.last() == point);
            assert(chunks_view(out@) =~= so_far + point_chunks(point, i == 0, height));
        }
        i += 1;
    }
    assert(points@.subrange(0, i as int) =~= points@);
    assert(element@.points() == points@);
    let ghost traced = opened + points_chunks(points@, height);
    let ghost closing = if ring {
        seq![ChunkView::Text("z"@)]
    } else {
        Seq::<ChunkView>::empty()
    };
    if ring {
        out.push(Chunk::Text(String::from_str("z")));
    }
    assert(chunks_view(out@) =~= traced + closing);
    out.push(Chunk::Text(String::from_str("\" />\n")));
    assert(chunks_view(out@) =~= traced + closing + seq![ChunkView::Text("\" />\n"@)]);
    assert(traced + closing + seq![ChunkView::Text("\" />\n"@)] =~= before + path_chunks(
        class,
        element@,
        height,
    ));
}

impl Svg {
    /// The layer that clips a layer, if the layer is clipped.
    fn clipping(&self, layer: Layer) -> (clipped_by: Option<Layer>)
        ensures
            clipped_by is Some <==> self@.clippings.contains_key(layer),
            clipped_by is Some ==> clipped_by->0 == self@.clippings[layer],
    {
        reveal(Svg::model);
        self.clippings[layer.index()]
    }

    /// The canvas of the drawing.
    fn canvas(&self) -> (bounds: Bounds)
        ensures
            bounds == self@.bounds,
    {
        reveal(Svg::model);
        self.bounds
    }

    /// Whether following the clippings from `layer` comes, within `depth` steps, to
    /// a layer that is not clipped.
    fn clipping_ends_within(&self, layer: Layer, depth: usize) -> (ends: bool)
        ensures
            ends == self@.clipping_ends(layer, depth as nat),
        decreases depth,
    {
        match self.clipping(layer) {
            None => true,
            Some(clipped_by) => depth > 0 && self.clipping_ends_within(clipped_by, depth - 1),
        }
    }

    /// Appends the shapes of a layer.
    fn export_shapes(&self, layer: Layer, out: &mut Vec<Chunk>)
        ensures
            chunks_view(final(out)@) == chunks_view(old(out)@) + written(
                self@.path_nodes(layer),
                self@.bounds.height,
            ),
            final(out)@.len() >= old(out)@.len(),
    {
        reveal(Svg::model);
        let height = self.bounds.height;
        let ghost before = chunks_view(out@);
        let style_class: Option<String> = match &self.styles[layer.index()] {
            Some(style) => Some(style.0.clone()),
            None => None,
        };
        let ghost class = self@.class_of(layer);
        assert(class == match style_class {
            Some(name) => Some(name@),
            None => None,
        });
        let elements = &self.layers[layer.index()];
        let ghost shapes = self@.path_nodes(layer);
        assert(before + written(shapes.subrange(0, 0), height) =~= before);
        let mut i: usize = 0;
        while i < elements.len()
            invariant
                i <= elements.len(),
                elements == &self.layers[layer.spec_index()],
                height == self.bounds.height,
                shapes == self@.path_nodes(layer),
                class == match style_class {
                    Some(name) => Some(name@),
                    None => None,
                },
                class == self@.class_of(layer),
                chunks_view(out@) == before + written(shapes.subrange(0, i as int), height),
                out@.len() >= old(out)@.len(),
            decreases elements.len() - i,
        {
            draw_element(&style_class, out, &elements[i], height);
            proof {
                reveal(Svg::model);
                let node = Node::Path { class, element: elements[i as int]@ };
                assert(shapes[i as int] == node);
                assert(shapes.subrange(0, i + 1) =~= shapes.subrange(0, i as int) + seq![node]);
                lemma_written_one(node, height);
                lemma_written_concat(shapes.subrange(0, i as int), seq![node], height);
                assert(chunks_view(out@) =~= before + written(shapes.subrange(0, i + 1), height));
                assert(chunks_view(out@).len() >= before.len());
            }
            i += 1;
        }
        assert(shapes.subrange(0, i as int) =~= shapes);
    }

    /// Appends what is written for a layer, and hands back the first identifier
    /// that is still free.
    fn export_layer(
        &self,
        layer: Layer,
        should_print_group: bool,
        out: &mut Vec<Chunk>,
        next_id: usize,
        depth: usize,
    ) -> (free: usize)
        requires
            self@.clipping_ends(layer, depth as nat),
            next_id <= old(out)@.len(),
        ensures
            chunks_view(final(out)@) == chunks_view(old(out)@) + written(
                self@.layer_nodes(layer, should_print_group, next_id as nat, depth as nat),
                self@.bounds.height,
            ),
            free == next_id + self@.clip_count(layer, depth as nat),
            free <= final(out)@.len(),
        decreases depth,
    {
        let height = self.canvas().height;
        let ghost before = chunks_view(out@);
        let ghost definition = definition_chunks(self@, layer, next_id as nat, depth as nat);
        let ghost named = clip_of(self@, layer, next_id as nat, depth as nat);
        let mut free = next_id;
        let mut clip: Option<usize> = None;
        if let Some(clipped_by) = self.clipping(layer) {
            push_text(out, clip_open(next_id));
            assert(next_id < out.len() == out@.len());
            free = self.export_layer(clipped_by, false, out, next_id + 1, depth - 1);
            push_text(out, String::from_str("</clipPath>\n"));
            clip = Some(next_id);
        }
        assert(chunks_view(out@) =~= before + definition);
        assert(named == match clip {
            Some(id) => Some(id as nat),
            None => None,
        });
        let ghost opening = definition + group_open_chunks(should_print_group, named);
        if should_print_group {
            push_text(out, group_open(clip));
        }
        assert(chunks_view(out@) =~= before + opening);
        let ghost filled = opening + written(self@.path_nodes(layer), height);
        self.export_shapes(layer, out);
        assert(chunks_view(out@) =~= before + filled);
        let ghost closed = filled + group_close_chunks(should_print_group);
        if should_print_group {
            push_text(out, String::from_str("</g>\n"));
        }
        assert(chunks_view(out@) =~= before + closed);
        proof {
            lemma_layer_written(self@, layer, should_print_group, next_id as nat, depth as nat);
        }
        free
    }

    /// Appends the head of the document.
    fn export_head(&self, out: &mut Vec<Chunk>)
        ensures
            chunks_view(final(out)@) == chunks_view(old(out)@) + self@.head(),
    {
        reveal(Svg::model);
        let ghost before = chunks_view(out@);
        let width = self.bounds.width;
        let height = self.bounds.height;
        out.push(Chunk::Text(String::from_str("<svg viewBox=\"0 0 ")));
        out.push(Chunk::Length(width));
        out.push(Chunk::Text(String::from_str(" ")));
        out.push(Chunk::Length(height));
        out.push(Chunk::Text(String::from_str("\" xmlns=\"http://www.w3.org/2000/svg\">\n")));
        out.push(Chunk::Text(String::from_str("<style>\n")));
        let ghost opening = seq![
            ChunkView::Text("<svg viewBox=\"0 0 "@),
            ChunkView::Length(width),
            ChunkView::Text(" "@),
            ChunkView::Length(height),
            ChunkView::Text("\" xmlns=\"http://www.w3.org/2000/svg\">\n"@),
            ChunkView::Text("<style>\n"@),
        ];
        assert(chunks_view(out@) =~= before + opening);
        let ghost background: Seq<ChunkView> = match self@.background_color {
            Some(color) => seq![ChunkView::Text(background_rule_text(color))],
            None => Seq::empty(),
        };
        if let Some(background_color) = &self.background_color {
            out.push(Chunk::Text(background_rule(background_color)));
        }
        assert(chunks_view(out@) =~= before + opening + background);
        let mut i: usize = 0;
        while i < LAYER_COUNT
            invariant
                i <= LAYER_COUNT,
                chunks_view(out@) == before + opening + background + self@.style_rules(i as nat),
            decreases LAYER_COUNT - i,
        {
            reveal(Svg::model);
            let ghost so_far = chunks_view(out@);
            let ghost layer = Layer::spec_at(i as int);
            assert(layer.spec_index() == i);
            if let Some(style) = &self.styles[i] {
                out.push(Chunk::Text(style_rule(&style.0, &style.1)));
                assert(chunks_view(out@) =~= so_far + seq![
                    ChunkView::Text(style_rule_text(self@.styles[layer].0, self@.styles[layer].1)),
                ]);
            }
            assert(chunks_view(out@) =~= before + opening + background + self@.style_rules(
                (i + 1) as nat,
            ));
            i += 1;
        }
        let ghost styled = chunks_view(out@);
        out.push(Chunk::Text(String::from_str("</style>\n")));
        assert(chunks_view(out@) =~= styled + seq![ChunkView::Text("</style>\n"@)]);
        let ghost closed = chunks_view(out@);
        let ghost rectangle: Seq<ChunkView> = match self@.background_color {
            Some(color) => seq![
                ChunkView::Text("<rect class=\"background\" x=\"0\" y=\"0\" width=\""@),
                ChunkView::Length(width),
                ChunkView::Text("\" height=\""@),
                ChunkView::Length(height),
                ChunkView::Text("\" />\n"@),
            ],
            None => Seq::empty(),
        };
        if self.background_color.is_some() {
            out.push(
                Chunk::Text(
                    String::from_str("<rect class=\"background\" x=\"0\" y=\"0\" width=\""),
                ),
            );
            out.push(Chunk::Length(width));
            out.push(Chunk::Text(String::from_str("\" height=\"")));
            out.push(Chunk::Length(height));
            out.push(Chunk::Text(String::from_str("\" />\n")));
        }
        assert(chunks_view(out@) =~= closed + rectangle);
        assert(closed + rectangle =~= before + self@.head());
    }

    /// Writes the drawing as a document: the head, then the given layers in the
    /// order given, then the closing line. Layers that are not given are not
    /// written, whatever was drawn on them.
    ///
    /// A layer that is clipped is written after the clip region that it refers to,
    /// and the clip region holds the shapes of the clipping layer, which may be
    /// clipped in turn. Where the clippings of a given layer lead back to a layer
    /// already passed, nothing is written and the first such layer is reported.
    pub fn export(&self, layer_order: &[Layer]) -> (result: Result<Vec<Chunk>, ExportError>)
        ensures
            match result {
                Ok(chunks) => {
                    &&& forall|k: int|
                        0 <= k < layer_order@.len() ==> self@.clipping_ends(
                            #[trigger] layer_order@[k],
                            LAYER_COUNT as nat,
                        )
                    &&& chunks_view(chunks@) == self@.document(layer_order@)
                },
                Err(ExportError::ClipCycle { layer }) => exists|k: int|
                    {
                        &&& 0 <= k < layer_order@.len()
                        &&& #[trigger] layer_order@[k] == layer
                        &&& !self@.clipping_ends(layer, LAYER_COUNT as nat)
                        &&& forall|j: int|
                            0 <= j < k ==> self@.clipping_ends(
                                #[trigger] layer_order@[j],
                                LAYER_COUNT as nat,
                            )
                    },
            },
    {
        let mut k: usize = 0;
        while k < layer_order.len()
            invariant
                k <= layer_order.len(),
                forall|j: int|
                    0 <= j < k ==> self@.clipping_ends(
                        #[trigger] layer_order@[j],
                        LAYER_COUNT as nat,
                    ),
            decreases layer_order.len() - k,
        {
            let layer = layer_order[k];
            if !self.clipping_ends_within(layer, LAYER_COUNT) {
                return Err(ExportError::ClipCycle { layer });
            }
            k += 1;
        }
        let height = self.canvas().height;
        let mut out: Vec<Chunk> = Vec::new();
        self.export_head(&mut out);
        assert(chunks_view(out@) =~= self@.head());
        let mut free: usize = 0;
        let mut k: usize = 0;
        proof {
            assert(layer_order@.subrange(0, 0) =~= Seq::<Layer>::empty());
            assert(self@.head() + written(self@.outline(Seq::<Layer>::empty()), height)
                =~= self@.head());
        }
        while k < layer_order.len()
            invariant
                k <= layer_order.len(),
                height == self@.bounds.height,
                forall|j: int|
                    0 <= j < layer_order@.len() ==> self@.clipping_ends(
                        #[trigger] layer_order@[j],
                        LAYER_COUNT as nat,
                    ),
                free == self@.clips_in(layer_order@.subrange(0, k as int)),
                free <= out@.len(),
                chunks_view(out@) == self@.head() + written(
                    self@.outline(layer_order@.subrange(0, k as int)),
                    height,
                ),
            decreases layer_order.len() - k,
        {
            let ghost done = layer_order@.subrange(0, k as int);
            let ghost next = layer_order@.subrange(0, k + 1);
            let layer = layer_order[k];
            free = self.export_layer(layer, true, &mut out, free, LAYER_COUNT);
            proof {
                assert(next.drop_last() =~= done);
                assert(next.last() == layer);
                lemma_written_concat(
                    self@.outline(done),
                    self@.layer_nodes(layer, true, self@.clips_in(done), LAYER_COUNT as nat),
                    height,
                );
                assert(chunks_view(out@) =~= self@.head() + written(self@.outline(next), height));
            }
            k += 1;
        }
        assert(layer_order@.subrange(0, k as int) =~= layer_order@);
        let ghost body = chunks_view(out@);
        out.push(Chunk::Text(String::from_str("</svg>\n")));
        assert(chunks_view(out@) =~= body + seq![ChunkView::Text("</svg>\n"@)]);
        Ok(out)
    }
}

/// Drawing one polyline on two layers does not depend on which layer is drawn on
/// first, and gives both layers the same shape as their last.
pub proof fn draw_fans_out(svg: SvgView, primary: Layer, derived: Layer, polyline: Seq<Point>)
    requires
        primary != derived,
    ensures
        svg.with_polyline(primary, polyline).with_polyline(derived, polyline) == svg.with_polyline(
            derived,
            polyline,
        ).with_polyline(primary, polyline),
        polyline.len() >= 2 ==> {
            let both = svg.with_polyline(primary, polyline).with_polyline(derived, polyline);
            &&& both.layers[primary] == svg.layers[primary].push(element_of(polyline))
            &&& both.layers[derived] == svg.layers[derived].push(element_of(polyline))
        },
{
    let one = svg.with_polyline(primary, polyline).with_polyline(derived, polyline);
    let other = svg.with_polyline(derived, polyline).with_polyline(primary, polyline);
    assert(one.layers =~= other.layers);
}

} // verus!
