//! The geometry store: one shared coordinate buffer and the index ranges of the
//! features that were read into it, and the classification of features by their tags.

use std::ops::Range;
use vstd::prelude::*;
use crate::point::{Point, Scalar};

verus! {

/// The extent of a drawing and the placement of the source data in it.
///
/// The crate reads `width` and `height` when it writes a document; the other fields
/// travel with them for the caller that places coordinates on the canvas.
#[derive(Copy, Clone, Debug, PartialEq, Eq, Structural)]
pub struct Bounds {
    pub width: Scalar,
    pub height: Scalar,
    pub min_lon: Scalar,
    pub min_lat: Scalar,
    pub max_lon: Scalar,
    pub max_lat: Scalar,
    pub scale_x: Scalar,
    pub scale_y: Scalar,
}

/// The position of a feature's range in the store.
pub type RangeIdx = usize;

/// A tag of a feature.
#[derive(Debug)]
pub struct Tag {
    pub key: String,
    pub val: String,
}

/// A tag, as a value.
pub struct TagView {
    pub key: Seq<char>,
    pub val: Seq<char>,
}

impl View for Tag {
    type V = TagView;

    open spec fn view(&self) -> TagView {
        TagView { key: self.key@, val: self.val@ }
    }
}

/// The tags of a list, as values.
pub open spec fn tags_view(tags: Seq<Tag>) -> Seq<TagView> {
    tags.map_values(|tag: Tag| tag@)
}

/// The geometry store: the coordinates of all features in one buffer, and for each
/// feature the range of the buffer that holds its points.
pub struct Geometry {
    bounds: Bounds,
    coords: Vec<Point>,
    polys: Vec<Range<usize>>,
}

/// The geometry store, as a value.
pub struct GeometryView {
    pub bounds: Bounds,
    /// The shared buffer.
    pub coords: Seq<Point>,
    /// The range of each feature, in the order in which the features were appended.
    pub polys: Seq<Range<usize>>,
}

impl GeometryView {
    /// The ranges lie one after the other and cover the buffer: the first starts at
    /// the start of the buffer, each other starts where the one before it ends, and
    /// the last ends at the end of the buffer. So no two ranges overlap.
    pub open spec fn tiled(self) -> bool {
        &&& forall|i: int|
            0 <= i < self.polys.len() ==> (#[trigger] self.polys[i]).start <= self.polys[i].end
                <= self.coords.len()
        &&& forall|i: int|
            0 <= i < self.polys.len() ==> (#[trigger] self.polys[i]).start == (if i == 0 {
                0
            } else {
                self.polys[i - 1].end
            })
        &&& self.coords.len() == (if self.polys.len() == 0 {
            0
        } else {
            self.polys.last().end
        })
    }

    /// The points of the feature at `range_idx`.
    pub open spec fn resolve(self, range_idx: int) -> Seq<Point> {
        self.coords.subrange(self.polys[range_idx].start as int, self.polys[range_idx].end as int)
    }

    /// The store after the points of one more feature were appended.
    pub open spec fn appended(self, points: Seq<Point>) -> GeometryView {
        GeometryView {
            bounds: self.bounds,
            coords: self.coords + points,
            polys: self.polys.push(
                Range {
                    start: self.coords.len() as usize,
                    end: (self.coords.len() + points.len()) as usize,
                },
            ),
        }
    }
}

/// Appending a feature keeps the ranges in line, makes the points given the points
/// of the new feature, and leaves every other feature its points.
pub proof fn appended_keeps_features(geometry: GeometryView, points: Seq<Point>)
    requires
        geometry.tiled(),
        geometry.coords.len() + points.len() <= usize::MAX,
    ensures
        geometry.appended(points).tiled(),
        geometry.appended(points).resolve(geometry.polys.len() as int) == points,
        forall|i: int|
            0 <= i < geometry.polys.len() ==> geometry.appended(points).resolve(i)
                == geometry.resolve(i),
{
    let after = geometry.appended(points);
    let count = geometry.polys.len() as int;
    let start = geometry.coords.len() as int;
    assert(after.polys.len() == count + 1);
    assert(after.polys[count].start == start && after.polys[count].end == start + points.len());
    assert forall|i: int| 0 <= i < count implies #[trigger] after.polys[i] == geometry.polys[i]
        && after.polys[i].end <= start by {
        assert(geometry.polys[i].end <= geometry.coords.len());
    }
    assert(after.tiled()) by {
        assert forall|i: int| 0 <= i < after.polys.len() implies (#[trigger] after.polys[i]).start
            == (if i == 0 {
            0
        } else {
            after.polys[i - 1].end
        }) by {
            if i < count {
                assert(after.polys[i] == geometry.polys[i]);
                if i > 0 {
                    assert(after.polys[i - 1] == geometry.polys[i - 1]);
                }
            } else if count > 0 {
                assert(after.polys[count - 1] == geometry.polys[count - 1]);
            }
        }
    }
    assert(after.resolve(count) =~= points);
    assert forall|i: int| 0 <= i < count implies after.resolve(i) == geometry.resolve(i) by {
        assert(after.polys[i] == geometry.polys[i]);
        assert(after.resolve(i) =~= geometry.resolve(i));
    }
}

impl View for Geometry {
    type V = GeometryView;

    closed spec fn view(&self) -> GeometryView {
        GeometryView { bounds: self.bounds, coords: self.coords@, polys: self.polys@ }
    }
}

impl Geometry {
    /// An empty store.
    pub fn new(bounds: Bounds) -> (geometry: Geometry)
        ensures
            geometry@ == (GeometryView { bounds, coords: Seq::empty(), polys: Seq::empty() }),
            geometry@.tiled(),
    {
        Geometry { bounds, coords: Vec::new(), polys: Vec::new() }
    }

    /// The canvas that the store was made for.
    pub fn bounds(&self) -> (bounds: Bounds)
        ensures
            bounds == self@.bounds,
    {
        self.bounds
    }

    /// The number of features in the store.
    pub fn len(&self) -> (count: usize)
        ensures
            count == self@.polys.len(),
    {
        self.polys.len()
    }

    /// Appends the points of a feature to the buffer and hands back the position
    /// of its range. The features that the store held keep their positions and
    /// their points.
    pub fn append(&mut self, points: &[Point]) -> (range_idx: RangeIdx)
        requires
            old(self)@.tiled(),
        ensures
            range_idx == old(self)@.polys.len(),
            final(self)@ == old(self)@.appended(points@),
            final(self)@.tiled(),
            final(self)@.resolve(range_idx as int) == points@,
            forall|i: int|
                0 <= i < old(self)@.polys.len() ==> final(self)@.resolve(i) == old(self)@.resolve(
                    i,
                ),
    {
        let range_idx = self.polys.len();
        let start = self.coords.len();
        let mut i: usize = 0;
        while i < points.len()
            invariant
                i <= points.len(),
                start == old(self).coords@.len(),
                self.bounds == old(self).bounds,
                self.polys == old(self).polys,
                self.coords@ == old(self).coords@ + points@.subrange(0, i as int),
            decreases points.len() - i,
        {
            self.coords.push(points[i]);
            assert(self.coords@ =~= old(self).coords@ + points@.subrange(0, i + 1));
            i += 1;
        }
        assert(points@.subrange(0, i as int) =~= points@);
        let end = self.coords.len();
        self.polys.push(start..end);
        proof {
            assert(self@ =~= old(self)@.appended(points@));
            appended_keeps_features(old(self)@, points@);
        }
        range_idx
    }

    /// The points of the feature at `range_idx`.
    pub fn resolve_coords(&self, range_idx: RangeIdx) -> (points: &[Point])
        requires
            self@.tiled(),
            range_idx < self@.polys.len(),
        ensures
            points@ == self@.resolve(range_idx as int),
    {
        let range = &self.polys[range_idx];
        &self.coords[range.start..range.end]
    }
}

/// A classification rule. It accepts a tag if the key of the tag is the key that
/// the rule names, and the value the value that it names; where the rule names no
/// key, or no value, every key, or value, will do.
#[derive(Debug)]
pub struct Rule<T> {
    pub key: Option<String>,
    pub val: Option<String>,
    /// What the rule makes of a feature with a tag that it accepts.
    pub gives: T,
}

/// A classification rule, as a value.
pub struct RuleView<T> {
    pub key: Option<Seq<char>>,
    pub val: Option<Seq<char>>,
    pub gives: T,
}

impl<T> View for Rule<T> {
    type V = RuleView<T>;

    open spec fn view(&self) -> RuleView<T> {
        RuleView {
            key: match self.key {
                Some(key) => Some(key@),
                None => None,
            },
            val: match self.val {
                Some(val) => Some(val@),
                None => None,
            },
            gives: self.gives,
        }
    }
}

/// The rules of a list, as values.
pub open spec fn rules_view<T>(rules: Seq<Rule<T>>) -> Seq<RuleView<T>> {
    rules.map_values(|rule: Rule<T>| rule@)
}

impl<T> RuleView<T> {
    /// Whether the rule accepts a tag.
    pub open spec fn accepts(self, tag: TagView) -> bool {
        &&& self.key is Some ==> self.key->0 == tag.key
        &&& self.val is Some ==> self.val->0 == tag.val
    }
}

/// What the rules make of one tag: what the first rule that accepts the tag gives.
pub open spec fn verdict<T>(rules: Seq<RuleView<T>>, tag: TagView) -> Option<T>
    decreases rules.len(),
{
    if rules.len() == 0 {
        None
    } else if rules.first().accepts(tag) {
        Some(rules.first().gives)
    } else {
        verdict(rules.drop_first(), tag)
    }
}

/// What the rules make of a list of tags: their verdict on the first tag on which
/// they have one.
pub open spec fn classified<T>(rules: Seq<RuleView<T>>, tags: Seq<TagView>) -> Option<T>
    decreases tags.len(),
{
    if tags.len() == 0 {
        None
    } else if verdict(rules, tags.first()) is Some {
        verdict(rules, tags.first())
    } else {
        classified(rules, tags.drop_first())
    }
}

/// Tags that come after a tag with a verdict do not count.
proof fn lemma_classified_concat<T>(
    rules: Seq<RuleView<T>>,
    before: Seq<TagView>,
    after: Seq<TagView>,
)
    ensures
        classified(rules, before + after) == (if classified(rules, before) is Some {
            classified(rules, before)
        } else {
            classified(rules, after)
        }),
    decreases before.len(),
{
    if before.len() == 0 {
        assert(before + after =~= after);
    } else {
        assert((before + after).first() == before.first());
        assert((before + after).drop_first() =~= before.drop_first() + after);
        lemma_classified_concat(rules, before.drop_first(), after);
    }
}

impl<T: Copy> Rule<T> {
    /// Whether the rule accepts a tag.
    pub fn accepts(&self, tag: &Tag) -> (accepted: bool)
        ensures
            accepted == self@.accepts(tag@),
    {
        let key_fits = match &self.key {
            Some(key) => *key == tag.key,
            None => true,
        };
        let val_fits = match &self.val {
            Some(val) => *val == tag.val,
            None => true,
        };
        key_fits && val_fits
    }
}

/// What the rules make of one tag.
fn verdict_on<T: Copy>(rules: &[Rule<T>], tag: &Tag) -> (found: Option<T>)
    ensures
        found == verdict(rules_view(rules@), tag@),
{
    let ghost all = rules_view(rules@);
    let mut i: usize = 0;
    assert(all.skip(0) =~= all);
    while i < rules.len()
        invariant
            i <= rules.len(),
            all == rules_view(rules@),
            verdict(all, tag@) == verdict(all.skip(i as int), tag@),
        decreases rules.len() - i,
    {
        assert(all.skip(i as int).first() == rules[i as int]@);
        assert(all.skip(i as int).drop_first() =~= all.skip(i + 1));
        if rules[i].accepts(tag) {
            return Some(rules[i].gives);
        }
        i += 1;
    }
    None
}

/// What the rules make of a list of tags.
fn classify<T: Copy>(rules: &[Rule<T>], tags: &[Tag]) -> (found: Option<T>)
    ensures
        found == classified(rules_view(rules@), tags_view(tags@)),
{
    let ghost all = tags_view(tags@);
    let mut i: usize = 0;
    assert(all.skip(0) =~= all);
    while i < tags.len()
        invariant
            i <= tags.len(),
            all == tags_view(tags@),
            classified(rules_view(rules@), all) == classified(
                rules_view(rules@),
                all.skip(i as int),
            ),
        decreases tags.len() - i,
    {
        assert(all.skip(i as int).first() == tags[i as int]@);
        assert(all.skip(i as int).drop_first() =~= all.skip(i + 1));
        let computed = verdict_on(rules, &tags[i]);
        if computed.is_some() {
            return computed;
        }
        i += 1;
    }
    None
}

/// Classifies a feature by its tags.
///
/// The tags of the enclosing relation are looked at first, in their order, then
/// the feature's own. The first tag that some rule accepts decides, and for that
/// tag the first rule that accepts it. A feature none of whose tags is accepted
/// by any rule is not classified.
pub fn simple_filterer<T: Copy>(
    rules: &[Rule<T>],
    relationship_tags: &[Tag],
    way_tags: &[Tag],
) -> (found: Option<T>)
    ensures
        found == classified(
            rules_view(rules@),
            tags_view(relationship_tags@) + tags_view(way_tags@),
        ),
{
    proof {
        lemma_classified_concat(
            rules_view(rules@),
            tags_view(relationship_tags@),
            tags_view(way_tags@),
        );
    }
    let computed = classify(rules, relationship_tags);
    if computed.is_some() {
        return computed;
    }
    classify(rules, way_tags)
}

} // verus!
