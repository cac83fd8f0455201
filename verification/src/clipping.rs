//! What holds of the clip regions of every document: each is defined before a group
//! names it, no two have the same identifier, and a clipping that leads back to
//! itself is found.

use vstd::prelude::*;
use crate::document::{
    clip_name, clip_open_text, group_open_text, lemma_written_concat, lemma_written_one,
    node_chunks, written, Node,
};
use crate::layer::{layer_positions, Layer, LAYER_COUNT};
use crate::point::Scalar;
use crate::svg_exporter::{ChunkView, SvgView};
use crate::text::{decimal, decimal_distinct};

verus! {

/// The clip regions of a list of parts are numbered in order: every identifier lies
/// from `low` up to `high`, a region that starts later has a higher identifier, and
/// a group that names a region comes after the start of that region.
pub open spec fn numbered(nodes: Seq<Node>, low: nat, high: nat) -> bool {
    &&& forall|p: int|
        0 <= p < nodes.len() && (#[trigger] nodes[p]) is ClipOpen ==> low <= nodes[p]->id < high
    &&& forall|p: int, q: int|
        0 <= p < q < nodes.len() && (#[trigger] nodes[p]) is ClipOpen && (
        #[trigger] nodes[q]) is ClipOpen ==> nodes[p]->id < nodes[q]->id
    &&& forall|p: int|
        0 <= p < nodes.len() && (#[trigger] nodes[p]) is GroupOpen && nodes[p]->clip is Some
            ==> exists|j: int|
            0 <= j < p && #[trigger] nodes[j] == (Node::ClipOpen { id: nodes[p]->clip->0 })
}

/// Two lists that are numbered one after the other are numbered as one list.
proof fn lemma_numbered_concat(a: Seq<Node>, b: Seq<Node>, low: nat, middle: nat, high: nat)
    requires
        numbered(a, low, middle),
        numbered(b, middle, high),
        low <= middle <= high,
    ensures
        numbered(a + b, low, high),
{
    let both = a + b;
    assert forall|p: int|
        0 <= p < both.len() && (#[trigger] both[p]) is GroupOpen && both[p]->clip is Some implies exists|
        j: int,
    |
        0 <= j < p && #[trigger] both[j] == (Node::ClipOpen { id: both[p]->clip->0 }) by {
        if p < a.len() {
            assert(a[p] == both[p]);
            let j = choose|j: int|
                0 <= j < p && #[trigger] a[j] == (Node::ClipOpen { id: a[p]->clip->0 });
            assert(both[j] == a[j]);
        } else {
            let at = p - a.len();
            assert(b[at] == both[p]);
            let j = choose|j: int|
                0 <= j < at && #[trigger] b[j] == (Node::ClipOpen { id: b[at]->clip->0 });
            assert(both[j + a.len()] == b[j]);
        }
    }
    assert forall|p: int| 0 <= p < both.len() && (#[trigger] both[p]) is ClipOpen implies low
        <= both[p]->id < high by {
        if p < a.len() {
            assert(a[p] == both[p]);
        } else {
            assert(b[p - a.len()] == both[p]);
        }
    }
    assert forall|p: int, q: int|
        0 <= p < q < both.len() && (#[trigger] both[p]) is ClipOpen && (
        #[trigger] both[q]) is ClipOpen implies both[p]->id < both[q]->id by {
        if p < a.len() {
            assert(a[p] == both[p]);
        } else {
            assert(b[p - a.len()] == both[p]);
        }
        if q < a.len() {
            assert(a[q] == both[q]);
        } else {
            assert(b[q - a.len()] == both[q]);
        }
    }
}

/// What is written for a layer is numbered from the first free identifier on.
proof fn lemma_layer_numbered(svg: SvgView, layer: Layer, group: bool, next_id: nat, depth: nat)
    ensures
        numbered(
            svg.layer_nodes(layer, group, next_id, depth),
            next_id,
            next_id + svg.clip_count(layer, depth),
        ),
    decreases depth,
{
    let nodes = svg.layer_nodes(layer, group, next_id, depth);
    let high = next_id + svg.clip_count(layer, depth);
    let clipped = depth > 0 && svg.clippings.contains_key(layer);
    let shapes = svg.path_nodes(layer);
    let clip = if clipped {
        Some(next_id)
    } else {
        None
    };
    let rest = if group {
        seq![Node::GroupOpen { clip }] + shapes + seq![Node::GroupClose]
    } else {
        shapes
    };
    assert(forall|p: int| 0 <= p < shapes.len() ==> (#[trigger] shapes[p]) is Path);
    if clipped {
        let inner = svg.layer_nodes(svg.clippings[layer], false, next_id + 1, (depth - 1) as nat);
        lemma_layer_numbered(svg, svg.clippings[layer], false, next_id + 1, (depth - 1) as nat);
        let start = seq![Node::ClipOpen { id: next_id }];
        assert(numbered(start, next_id, next_id + 1));
        lemma_numbered_concat(start, inner, next_id, next_id + 1, high);
        assert(numbered(seq![Node::ClipClose], high, high));
        lemma_numbered_concat(start + inner, seq![Node::ClipClose], next_id, high, high);
        let definition = start + inner + seq![Node::ClipClose];
        assert(nodes =~= definition + rest);
        assert(definition[0] == Node::ClipOpen { id: next_id });
        assert forall|p: int|
            0 <= p < nodes.len() && (#[trigger] nodes[p]) is GroupOpen && nodes[p]->clip is Some implies exists|
            j: int,
        |
            0 <= j < p && #[trigger] nodes[j] == (Node::ClipOpen { id: nodes[p]->clip->0 }) by {
            if p < definition.len() {
                assert(definition[p] == nodes[p]);
                let j = choose|j: int|
                    0 <= j < p && #[trigger] definition[j] == (Node::ClipOpen {
                        id: definition[p]->clip->0,
                    });
                assert(nodes[j] == definition[j]);
            } else {
                assert(rest[p - definition.len()] == nodes[p]);
                assert(nodes[0] == Node::ClipOpen { id: next_id });
            }
        }
        assert forall|p: int| 0 <= p < nodes.len() && (#[trigger] nodes[p]) is ClipOpen implies p
            < definition.len() && nodes[p] == definition[p] by {
            if p >= definition.len() {
                assert(rest[p - definition.len()] == nodes[p]);
            }
        }
    } else {
        assert(nodes =~= rest);
    }
}

/// The body of a document is numbered from zero.
proof fn lemma_outline_numbered(svg: SvgView, layer_order: Seq<Layer>)
    ensures
        numbered(svg.outline(layer_order), 0, svg.clips_in(layer_order)),
    decreases layer_order.len(),
{
    if layer_order.len() > 0 {
        let before = layer_order.drop_last();
        lemma_outline_numbered(svg, before);
        lemma_layer_numbered(
            svg,
            layer_order.last(),
            true,
            svg.clips_in(before),
            LAYER_COUNT as nat,
        );
        lemma_numbered_concat(
            svg.outline(before),
            svg.layer_nodes(layer_order.last(), true, svg.clips_in(before), LAYER_COUNT as nat),
            0,
            svg.clips_in(before),
            svg.clips_in(layer_order),
        );
    }
}

/// In the body of a document, a group that names a clip region comes after the
/// start of that region.
pub proof fn clip_is_defined_before_it_is_named(
    svg: SvgView,
    layer_order: Seq<Layer>,
    at: int,
    id: nat,
)
    requires
        0 <= at < svg.outline(layer_order).len(),
        svg.outline(layer_order)[at] == (Node::GroupOpen { clip: Some(id) }),
    ensures
        exists|j: int| 0 <= j < at && svg.outline(layer_order)[j] == (Node::ClipOpen { id }),
{
    lemma_outline_numbered(svg, layer_order);
    let nodes = svg.outline(layer_order);
    assert(nodes[at] is GroupOpen && nodes[at]->clip is Some);
    let j = choose|j: int|
        0 <= j < at && #[trigger] nodes[j] == (Node::ClipOpen { id: nodes[at]->clip->0 });
    assert(nodes[j] == Node::ClipOpen { id });
}

/// Where the first piece of the part at `k` stands among the pieces that are
/// written for a list of parts.
pub open spec fn position(nodes: Seq<Node>, height: Scalar, k: int) -> int {
    written(nodes.subrange(0, k), height).len() as int
}

/// The pieces of a part stand together among the pieces of a list, after the pieces
/// of the parts before it.
proof fn lemma_written_at(nodes: Seq<Node>, height: Scalar, j: int, k: int)
    requires
        0 <= j <= k < nodes.len(),
    ensures
        position(nodes, height, j) + (if j < k {
            node_chunks(nodes[j], height).len()
        } else {
            0
        }) <= position(nodes, height, k),
        position(nodes, height, k) + node_chunks(nodes[k], height).len() <= written(
            nodes,
            height,
        ).len(),
        forall|o: int|
            0 <= o < node_chunks(nodes[k], height).len() ==> written(nodes, height)[position(
                nodes,
                height,
                k,
            ) + o] == node_chunks(nodes[k], height)[o],
{
    let before = nodes.subrange(0, k);
    let after = nodes.subrange(k + 1, nodes.len() as int);
    assert(nodes =~= before + seq![nodes[k]] + after);
    lemma_written_concat(before, seq![nodes[k]], height);
    lemma_written_concat(before + seq![nodes[k]], after, height);
    lemma_written_one(nodes[k], height);
    if j < k {
        let first = nodes.subrange(0, j);
        let between = nodes.subrange(j + 1, k);
        assert(before =~= first + seq![nodes[j]] + between);
        lemma_written_concat(first, seq![nodes[j]], height);
        lemma_written_concat(first + seq![nodes[j]], between, height);
        lemma_written_one(nodes[j], height);
    }
}

/// In a document, the line that starts a clip region is written before the line
/// that starts a group which names the region.
pub proof fn clip_is_written_before_the_group(
    svg: SvgView,
    layer_order: Seq<Layer>,
    at: int,
    id: nat,
)
    requires
        0 <= at < svg.outline(layer_order).len(),
        svg.outline(layer_order)[at] == (Node::GroupOpen { clip: Some(id) }),
    ensures
        exists|c: int, g: int|
            {
                &&& 0 <= c < g < svg.document(layer_order).len()
                &&& svg.document(layer_order)[c] == ChunkView::Text(clip_open_text(id))
                &&& svg.document(layer_order)[g] == ChunkView::Text(group_open_text(Some(id)))
                &&& g == svg.head().len() + position(
                    svg.outline(layer_order),
                    svg.bounds.height,
                    at,
                )
            },
{
    let nodes = svg.outline(layer_order);
    let height = svg.bounds.height;
    clip_is_defined_before_it_is_named(svg, layer_order, at, id);
    let j = choose|j: int| 0 <= j < at && nodes[j] == (Node::ClipOpen { id });
    lemma_written_at(nodes, height, j, at);
    lemma_written_at(nodes, height, j, j);
    let c = svg.head().len() + position(nodes, height, j);
    let g = svg.head().len() + position(nodes, height, at);
    assert(node_chunks(nodes[j], height)[0] == ChunkView::Text(clip_open_text(id)));
    assert(node_chunks(nodes[at], height)[0] == ChunkView::Text(group_open_text(Some(id))));
    assert(written(nodes, height)[position(nodes, height, j) + 0] == node_chunks(
        nodes[j],
        height,
    )[0]);
    assert(written(nodes, height)[position(nodes, height, at) + 0] == node_chunks(
        nodes[at],
        height,
    )[0]);
    assert(svg.document(layer_order)[c] == written(nodes, height)[position(nodes, height, j)]);
    assert(svg.document(layer_order)[g] == written(nodes, height)[position(nodes, height, at)]);
}

/// In the body of a document, no two clip regions have the same identifier, and no
/// two identifiers are written alike.
pub proof fn clip_identifiers_are_unique(svg: SvgView, layer_order: Seq<Layer>, i: int, j: int)
    requires
        0 <= i < j < svg.outline(layer_order).len(),
        svg.outline(layer_order)[i] is ClipOpen,
        svg.outline(layer_order)[j] is ClipOpen,
    ensures
        svg.outline(layer_order)[i]->id != svg.outline(layer_order)[j]->id,
        clip_name(svg.outline(layer_order)[i]->id) != clip_name(svg.outline(layer_order)[j]->id),
        clip_open_text(svg.outline(layer_order)[i]->id) != clip_open_text(
            svg.outline(layer_order)[j]->id,
        ),
{
    lemma_outline_numbered(svg, layer_order);
    let a = svg.outline(layer_order)[i]->id;
    let b = svg.outline(layer_order)[j]->id;
    assert(a < b);
    if clip_name(a) == clip_name(b) {
        clip_names_distinct(a, b);
    }
    if clip_open_text(a) == clip_open_text(b) {
        let front = "<clipPath id=\""@;
        let back = "\">\n"@;
        let whole_a = front + clip_name(a) + back;
        let whole_b = front + clip_name(b) + back;
        assert(clip_name(a) =~= whole_a.subrange(
            front.len() as int,
            whole_a.len() - back.len(),
        ));
        assert(clip_name(b) =~= whole_b.subrange(
            front.len() as int,
            whole_b.len() - back.len(),
        ));
        clip_names_distinct(a, b);
    }
}

/// Two clip regions with the same written identifier have the same number.
pub proof fn clip_names_distinct(a: nat, b: nat)
    requires
        clip_name(a) == clip_name(b),
    ensures
        a == b,
{
    let front = "a_"@;
    assert(decimal(a) =~= clip_name(a).subrange(front.len() as int, clip_name(a).len() as int));
    assert(decimal(b) =~= clip_name(b).subrange(front.len() as int, clip_name(b).len() as int));
    decimal_distinct(a, b);
}

/// The layer that is reached from `layer` after `steps` steps along the clippings.
pub open spec fn clipping_after(svg: SvgView, layer: Layer, steps: nat) -> Layer
    decreases steps,
{
    if steps == 0 {
        layer
    } else {
        svg.clippings[clipping_after(svg, layer, (steps - 1) as nat)]
    }
}

/// A walk along the clippings that ends within some number of steps ends within any
/// greater number, after the same number of clip regions.
proof fn lemma_clipping_ends_later(svg: SvgView, layer: Layer, depth: nat, later: nat)
    requires
        svg.clipping_ends(layer, depth),
        depth <= later,
    ensures
        svg.clipping_ends(layer, later),
        svg.clip_count(layer, later) == svg.clip_count(layer, depth),
        svg.clip_count(layer, depth) <= depth,
        svg.clipping_ends(layer, svg.clip_count(layer, depth)),
    decreases depth,
{
    if svg.clippings.contains_key(layer) {
        lemma_clipping_ends_later(
            svg,
            svg.clippings[layer],
            (depth - 1) as nat,
            (later - 1) as nat,
        );
    }
}

/// On a walk that ends, the layer reached after `steps` steps has as many clip
/// regions ahead of it as the first layer, less `steps`.
proof fn lemma_clipping_walk(svg: SvgView, layer: Layer, depth: nat, steps: nat)
    requires
        svg.clipping_ends(layer, depth),
        steps <= svg.clip_count(layer, depth),
    ensures
        svg.clipping_ends(clipping_after(svg, layer, steps), depth),
        svg.clip_count(clipping_after(svg, layer, steps), depth) == svg.clip_count(layer, depth)
            - steps,
    decreases steps,
{
    if steps > 0 {
        let before = clipping_after(svg, layer, (steps - 1) as nat);
        lemma_clipping_walk(svg, layer, depth, (steps - 1) as nat);
        lemma_clipping_ends_later(svg, svg.clippings[before], (depth - 1) as nat, depth);
    }
}

/// Of more than `n` numbers from zero up to `n`, two are the same.
proof fn lemma_two_are_the_same(s: Seq<int>, n: int)
    requires
        s.len() > n >= 0,
        forall|i: int| 0 <= i < s.len() ==> 0 <= #[trigger] s[i] < n,
    ensures
        exists|i: int, j: int| 0 <= i < j < s.len() && s[i] == s[j],
    decreases n,
{
    if n == 0 {
        assert(0 <= s[0] < n);
    } else if exists|i: int| 0 <= i < s.len() && s[i] == n - 1 {
        let at = choose|i: int| 0 <= i < s.len() && s[i] == n - 1;
        if exists|j: int| 0 <= j < s.len() && j != at && s[j] == n - 1 {
            let other = choose|j: int| 0 <= j < s.len() && j != at && s[j] == n - 1;
            if other < at {
                assert(s[other] == s[at]);
            } else {
                assert(s[at] == s[other]);
            }
        } else {
            let rest = s.remove(at);
            assert forall|i: int| 0 <= i < rest.len() implies 0 <= #[trigger] rest[i] < n - 1 by {
                let from = if i < at { i } else { i + 1 };
                assert(rest[i] == s[from]);
            }
            lemma_two_are_the_same(rest, n - 1);
            let (a, b) = choose|a: int, b: int| 0 <= a < b < rest.len() && rest[a] == rest[b];
            let from_a = if a < at { a } else { a + 1 };
            let from_b = if b < at { b } else { b + 1 };
            assert(s[from_a] == s[from_b]);
        }
    } else {
        lemma_two_are_the_same(s, n - 1);
    }
}

/// A walk along the clippings that has not ended after as many steps as there are
/// layers never ends: it has come back to a layer that it passed before. So the
/// bound on the depth of the search refuses cycles and nothing else.
pub proof fn unending_clipping_is_a_cycle(svg: SvgView, layer: Layer, depth: nat)
    requires
        !svg.clipping_ends(layer, LAYER_COUNT as nat),
    ensures
        !svg.clipping_ends(layer, depth),
{
    if svg.clipping_ends(layer, depth) {
        let length = svg.clip_count(layer, depth);
        if length <= LAYER_COUNT {
            lemma_clipping_ends_later(svg, layer, depth, depth);
            lemma_clipping_ends_later(svg, layer, length, LAYER_COUNT as nat);
        } else {
            // More layers on the walk than there are layers, each with a different
            // number of clip regions ahead of it: two of them are the same layer.
            let walk = Seq::new(
                (LAYER_COUNT + 1) as nat,
                |k: int| clipping_after(svg, layer, k as nat).spec_index(),
            );
            assert forall|k: int| 0 <= k < walk.len() implies 0 <= #[trigger] walk[k]
                < LAYER_COUNT by {
                layer_positions(clipping_after(svg, layer, k as nat));
            }
            lemma_two_are_the_same(walk, LAYER_COUNT as int);
            let (i, j) = choose|i: int, j: int| 0 <= i < j < walk.len() && walk[i] == walk[j];
            let first = clipping_after(svg, layer, i as nat);
            let second = clipping_after(svg, layer, j as nat);
            layer_positions(first);
            layer_positions(second);
            assert(first == second);
            lemma_clipping_walk(svg, layer, depth, i as nat);
            lemma_clipping_walk(svg, layer, depth, j as nat);
        }
    }
}

} // verus!
