//! The document that a drawing is written as: its parts, and the text of each part.

use vstd::prelude::*;
use crate::layer::{Layer, LAYER_COUNT};
use crate::point::{Point, Scalar};
use crate::svg_exporter::{ChunkView, ElementView, SvgView};
use crate::text::decimal;

verus! {

/// One part of the body of a document.
pub enum Node {
    /// The start of the clip region with the identifier `id`.
    ClipOpen { id: nat },
    /// The end of a clip region.
    ClipClose,
    /// The start of the group of a layer, restricted to the clip region `clip`
    /// where there is one.
    GroupOpen { clip: Option<nat> },
    /// The end of a group.
    GroupClose,
    /// A shape, with the class of its layer where the layer has a style.
    Path { class: Option<Seq<char>>, element: ElementView },
}

/// The identifier of a clip region.
pub open spec fn clip_name(id: nat) -> Seq<char> {
    "a_"@ + decimal(id)
}

/// The line that starts a clip region.
pub open spec fn clip_open_text(id: nat) -> Seq<char> {
    "<clipPath id=\""@ + clip_name(id) + "\">\n"@
}

/// The line that starts a group.
pub open spec fn group_open_text(clip: Option<nat>) -> Seq<char> {
    match clip {
        Some(id) => "<g clip-path=\"url(#"@ + clip_name(id) + ")\">\n"@,
        None => "<g >\n"@,
    }
}

/// The start of a path, up to its first command.
pub open spec fn path_open_text(class: Option<Seq<char>>) -> Seq<char> {
    match class {
        Some(name) => "<path class=\""@ + name + "\" d=\""@,
        None => "<path d=\""@,
    }
}

/// The rule of a class.
pub open spec fn style_rule_text(classname: Seq<char>, style: Seq<char>) -> Seq<char> {
    "."@ + classname + " {"@ + style + "}\n"@
}

/// The rule of the background.
pub open spec fn background_rule_text(color: Seq<char>) -> Seq<char> {
    ".background {fill: "@ + color + "}\n"@
}

/// The command that takes a path to a point: a move for the first point of a
/// shape, a line for every other.
pub open spec fn point_chunks(point: Point, first: bool, height: Scalar) -> Seq<ChunkView> {
    seq![
        ChunkView::Text(if first { "M"@ } else { "L"@ }),
        ChunkView::Across(point.x),
        ChunkView::Text(","@),
        ChunkView::Down { height, y: point.y },
        ChunkView::Text(" "@),
    ]
}

/// The commands of a path through the given points.
pub open spec fn points_chunks(points: Seq<Point>, height: Scalar) -> Seq<ChunkView>
    decreases points.len(),
{
    if points.len() == 0 {
        Seq::empty()
    } else {
        points_chunks(points.drop_last(), height) + point_chunks(
            points.last(),
            points.len() == 1,
            height,
        )
    }
}

/// A shape as written: nothing for a shape without points; else the start of the
/// path, its commands, the closing command if the shape is a ring, and the end of
/// the path.
pub open spec fn path_chunks(class: Option<Seq<char>>, element: ElementView, height: Scalar) -> Seq<
    ChunkView,
> {
    if element.points().len() == 0 {
        Seq::empty()
    } else {
        seq![ChunkView::Text(path_open_text(class))] + points_chunks(element.points(), height) + (
        if element is Polygon {
            seq![ChunkView::Text("z"@)]
        } else {
            Seq::empty()
        }) + seq![ChunkView::Text("\" />\n"@)]
    }
}

/// One part of the body as written.
pub open spec fn node_chunks(node: Node, height: Scalar) -> Seq<ChunkView> {
    match node {
        Node::ClipOpen { id } => seq![ChunkView::Text(clip_open_text(id))],
        Node::ClipClose => seq![ChunkView::Text("</clipPath>\n"@)],
        Node::GroupOpen { clip } => seq![ChunkView::Text(group_open_text(clip))],
        Node::GroupClose => seq![ChunkView::Text("</g>\n"@)],
        Node::Path { class, element } => path_chunks(class, element, height),
    }
}

/// The parts of a body as written, one after the other.
pub open spec fn written(nodes: Seq<Node>, height: Scalar) -> Seq<ChunkView>
    decreases nodes.len(),
{
    if nodes.len() == 0 {
        Seq::empty()
    } else {
        written(nodes.drop_last(), height) + node_chunks(nodes.last(), height)
    }
}

impl SvgView {
    /// Whether following the clippings from `layer` comes, within `depth` steps, to
    /// a layer that is not clipped.
    pub open spec fn clipping_ends(self, layer: Layer, depth: nat) -> bool
        decreases depth,
    {
        !self.clippings.contains_key(layer) || (depth > 0 && self.clipping_ends(
            self.clippings[layer],
            (depth - 1) as nat,
        ))
    }

    /// The number of clip regions that writing `layer` defines: the number of steps
    /// from `layer` along the clippings, `depth` at most.
    pub open spec fn clip_count(self, layer: Layer, depth: nat) -> nat
        decreases depth,
    {
        if depth > 0 && self.clippings.contains_key(layer) {
            1 + self.clip_count(self.clippings[layer], (depth - 1) as nat)
        } else {
            0
        }
    }

    /// The class name of a layer, if the layer has a style.
    pub open spec fn class_of(self, layer: Layer) -> Option<Seq<char>> {
        if self.styles.contains_key(layer) {
            Some(self.styles[layer].0)
        } else {
            None
        }
    }

    /// The shapes of a layer, in the order in which they were drawn.
    pub open spec fn path_nodes(self, layer: Layer) -> Seq<Node> {
        self.layers[layer].map_values(
            |element: ElementView| Node::Path { class: self.class_of(layer), element },
        )
    }

    /// What is written for a layer. If the layer is clipped, a clip region comes
    /// first: it takes the identifier `next_id` and holds what is written for the
    /// clipping layer, without a group, with identifiers from `next_id + 1` on.
    /// Then come the shapes of the layer, inside a group if `group` is set; the
    /// group names the clip region if there is one.
    pub open spec fn layer_nodes(self, layer: Layer, group: bool, next_id: nat, depth: nat) -> Seq<
        Node,
    >
        decreases depth,
    {
        let clipped = depth > 0 && self.clippings.contains_key(layer);
        let definition = if clipped {
            seq![Node::ClipOpen { id: next_id }] + self.layer_nodes(
                self.clippings[layer],
                false,
                next_id + 1,
                (depth - 1) as nat,
            ) + seq![Node::ClipClose]
        } else {
            Seq::empty()
        };
        let clip = if clipped {
            Some(next_id)
        } else {
            None
        };
        if group {
            definition + seq![Node::GroupOpen { clip }] + self.path_nodes(layer) + seq![
                Node::GroupClose,
            ]
        } else {
            definition + self.path_nodes(layer)
        }
    }

    /// The number of clip regions that writing the given layers defines.
    pub open spec fn clips_in(self, layer_order: Seq<Layer>) -> nat
        decreases layer_order.len(),
    {
        if layer_order.len() == 0 {
            0
        } else {
            self.clips_in(layer_order.drop_last()) + self.clip_count(
                layer_order.last(),
                LAYER_COUNT as nat,
            )
        }
    }

    /// The body of the document: what is written for each of the given layers, in
    /// the order given, each in a group. Clip regions are numbered from zero in the
    /// order in which they start.
    pub open spec fn outline(self, layer_order: Seq<Layer>) -> Seq<Node>
        decreases layer_order.len(),
    {
        if layer_order.len() == 0 {
            Seq::empty()
        } else {
            self.outline(layer_order.drop_last()) + self.layer_nodes(
                layer_order.last(),
                true,
                self.clips_in(layer_order.drop_last()),
                LAYER_COUNT as nat,
            )
        }
    }

    /// The rules of the layers at the first `upto` positions that have a style, in
    /// the order in which the layers are declared.
    pub open spec fn style_rules(self, upto: nat) -> Seq<ChunkView>
        decreases upto,
    {
        if upto == 0 {
            Seq::empty()
        } else {
            let layer = Layer::spec_at(upto - 1);
            self.style_rules((upto - 1) as nat) + (if self.styles.contains_key(layer) {
                seq![ChunkView::Text(style_rule_text(self.styles[layer].0, self.styles[layer].1))]
            } else {
                Seq::empty()
            })
        }
    }

    /// What a document starts with: the canvas, the style block and, where a
    /// background colour is set, the rectangle that fills the canvas with it.
    pub open spec fn head(self) -> Seq<ChunkView> {
        seq![
            ChunkView::Text("<svg viewBox=\"0 0 "@),
            ChunkView::Length(self.bounds.width),
            ChunkView::Text(" "@),
            ChunkView::Length(self.bounds.height),
            ChunkView::Text("\" xmlns=\"http://www.w3.org/2000/svg\">\n"@),
            ChunkView::Text("<style>\n"@),
        ] + (match self.background_color {
            Some(color) => seq![ChunkView::Text(background_rule_text(color))],
            None => Seq::empty(),
        }) + self.style_rules(LAYER_COUNT as nat) + seq![ChunkView::Text("</style>\n"@)] + (
        match self.background_color {
            Some(color) => seq![
                ChunkView::Text("<rect class=\"background\" x=\"0\" y=\"0\" width=\""@),
                ChunkView::Length(self.bounds.width),
                ChunkView::Text("\" height=\""@),
                ChunkView::Length(self.bounds.height),
                ChunkView::Text("\" />\n"@),
            ],
            None => Seq::empty(),
        })
    }

    /// The document: the head, the body and the closing line.
    pub open spec fn document(self, layer_order: Seq<Layer>) -> Seq<ChunkView> {
        self.head() + written(self.outline(layer_order), self.bounds.height) + seq![
            ChunkView::Text("</svg>\n"@),
        ]
    }
}

/// What is written for two lists of parts, one after the other, is what is written
/// for the first followed by what is written for the second.
pub(crate) proof fn lemma_written_concat(a: Seq<Node>, b: Seq<Node>, height: Scalar)
    ensures
        written(a + b, height) == written(a, height) + written(b, height),
    decreases b.len(),
{
    if b.len() == 0 {
        assert(a + b =~= a);
        assert(written(a, height) + written(b, height) =~= written(a, height));
    } else {
        assert((a + b).drop_last() =~= a + b.drop_last());
        lemma_written_concat(a, b.drop_last(), height);
        assert(written(a + b, height) =~= written(a, height) + written(b, height));
    }
}

/// What is written for a single part.
pub(crate) proof fn lemma_written_one(node: Node, height: Scalar)
    ensures
        written(seq![node], height) == node_chunks(node, height),
{
    assert(seq![node].drop_last() =~= Seq::<Node>::empty());
    assert(written(seq![node].drop_last(), height) =~= Seq::<ChunkView>::empty());
    assert(seq![node].last() == node);
    assert(written(seq![node], height) =~= node_chunks(node, height));
}

/// What is written for the clip region of a layer: nothing for a layer that is not
/// clipped; else the line that starts the region, what is written for the clipping
/// layer, and the line that ends the region.
pub open spec fn definition_chunks(svg: SvgView, layer: Layer, next_id: nat, depth: nat) -> Seq<
    ChunkView,
> {
    if depth > 0 && svg.clippings.contains_key(layer) {
        seq![ChunkView::Text(clip_open_text(next_id))] + written(
            svg.layer_nodes(svg.clippings[layer], false, next_id + 1, (depth - 1) as nat),
            svg.bounds.height,
        ) + seq![ChunkView::Text("</clipPath>\n"@)]
    } else {
        Seq::empty()
    }
}

/// The clip region that the group of a layer names.
pub open spec fn clip_of(svg: SvgView, layer: Layer, next_id: nat, depth: nat) -> Option<nat> {
    if depth > 0 && svg.clippings.contains_key(layer) {
        Some(next_id)
    } else {
        None
    }
}

/// The line that starts a group, where a group is written.
pub open spec fn group_open_chunks(group: bool, clip: Option<nat>) -> Seq<ChunkView> {
    if group {
        seq![ChunkView::Text(group_open_text(clip))]
    } else {
        Seq::empty()
    }
}

/// The line that ends a group, where a group is written.
pub open spec fn group_close_chunks(group: bool) -> Seq<ChunkView> {
    if group {
        seq![ChunkView::Text("</g>\n"@)]
    } else {
        Seq::empty()
    }
}

/// What is written for a layer, piece by piece: the clip region if the layer is
/// clipped, the line that starts the group, the shapes, and the line that ends
/// the group.
pub(crate) proof fn lemma_layer_written(
    svg: SvgView,
    layer: Layer,
    group: bool,
    next_id: nat,
    depth: nat,
)
    ensures
        written(svg.layer_nodes(layer, group, next_id, depth), svg.bounds.height)
            == definition_chunks(svg, layer, next_id, depth) + group_open_chunks(
            group,
            clip_of(svg, layer, next_id, depth),
        ) + written(svg.path_nodes(layer), svg.bounds.height) + group_close_chunks(group),
{
    let height = svg.bounds.height;
    let clipped = depth > 0 && svg.clippings.contains_key(layer);
    let clip = clip_of(svg, layer, next_id, depth);
    let shapes = svg.path_nodes(layer);
    let definition = if clipped {
        let inner = svg.layer_nodes(svg.clippings[layer], false, next_id + 1, (depth - 1) as nat);
        let start = Node::ClipOpen { id: next_id };
        lemma_written_one(start, height);
        lemma_written_one(Node::ClipClose, height);
        lemma_written_concat(seq![start], inner, height);
        lemma_written_concat(seq![start] + inner, seq![Node::ClipClose], height);
        seq![start] + inner + seq![Node::ClipClose]
    } else {
        Seq::empty()
    };
    assert(written(Seq::<Node>::empty(), height) =~= Seq::<ChunkView>::empty());
    assert(written(definition, height) == definition_chunks(svg, layer, next_id, depth));
    if group {
        let open = Node::GroupOpen { clip };
        lemma_written_one(open, height);
        lemma_written_one(Node::GroupClose, height);
        lemma_written_concat(definition, seq![open], height);
        lemma_written_concat(definition + seq![open], shapes, height);
        lemma_written_concat(definition + seq![open] + shapes, seq![Node::GroupClose], height);
    } else {
        lemma_written_concat(definition, shapes, height);
        assert(written(definition, height) + written(shapes, height) =~= written(
            definition,
            height,
        ) + group_open_chunks(group, clip) + written(shapes, height) + group_close_chunks(group));
    }
}

} // verus!
