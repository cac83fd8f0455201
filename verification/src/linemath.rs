//! The line-stitching engine: removing duplicate fragments, joining fragments that
//! share endpoints, and forcing a fragment into a closed loop.

use std::collections::BTreeMap;
use vstd::prelude::*;
use crate::point::{polylines, same_points, Point};

verus! {

/// What closing appends to a fragment: the corner that combines the first point's
/// primary axis with the last point's secondary axis, then the first point again.
pub open spec fn closing_points(segment: Seq<Point>) -> Seq<Point> {
    seq![Point { x: segment.first().x, y: segment.last().y }, segment.first()]
}

/// Forces a fragment into a closed loop by appending two points.
///
/// The loop is closed even where the fragment does not return to its start; the added
/// corner is then an approximation and may cut across the shape.
pub fn equalize(segment: &mut Vec<Point>)
    requires
        old(segment)@.len() >= 1,
    ensures
        final(segment)@ == old(segment)@ + closing_points(old(segment)@),
{
    let first = segment[0];
    let last = segment[segment.len() - 1];
    segment.push(Point { x: first.x, y: last.y });
    segment.push(first);
    assert(segment@ =~= old(segment)@ + closing_points(old(segment)@));
}

/// Fragment `k` is redundant: it is empty, or an earlier fragment holds the same
/// points in the same order.
pub open spec fn redundant(s: Seq<Seq<Point>>, k: int) -> bool {
    s[k].len() == 0 || exists|j: int| 0 <= j < k && s[j] == s[k]
}

/// A list after the entry at `i` was removed by moving the last entry into its place.
pub open spec fn swap_removed<A>(s: Seq<A>, i: int) -> Seq<A> {
    s.update(i, s.last()).drop_last()
}

/// The list after every redundant fragment at index `k` or above was removed, the
/// one at the highest index first, each by moving the last entry into its place.
pub open spec fn purged_from(s: Seq<Seq<Point>>, k: int) -> Seq<Seq<Point>>
    decreases s.len() - k,
{
    if k < 0 || k >= s.len() {
        s
    } else if redundant(s, k) {
        swap_removed(purged_from(s, k + 1), k)
    } else {
        purged_from(s, k + 1)
    }
}

/// The list that deduplication ends with.
pub open spec fn deduplicated(s: Seq<Seq<Point>>) -> Seq<Seq<Point>> {
    purged_from(s, 0)
}

/// The key under which fragments are grouped: the axes of a fragment's first point.
pub open spec fn start_key(line: Seq<Point>) -> (u64, u64) {
    (line.first().x.word(), line.first().y.word())
}

/// Removing redundant fragments from `k` on leaves the fragments before `k` in place.
proof fn lemma_purged_prefix(s: Seq<Seq<Point>>, k: int)
    requires
        0 <= k <= s.len(),
    ensures
        k <= purged_from(s, k).len() <= s.len(),
        forall|a: int| 0 <= a < k ==> purged_from(s, k)[a] == s[a],
    decreases s.len() - k,
{
    if k < s.len() {
        lemma_purged_prefix(s, k + 1);
    }
}

/// Where no fragment from `a` up to `b` is redundant, removing from `a` on is
/// removing from `b` on.
proof fn lemma_purged_skip(s: Seq<Seq<Point>>, a: int, b: int)
    requires
        0 <= a <= b <= s.len(),
        forall|j: int| a <= j < b ==> !redundant(s, j),
    ensures
        purged_from(s, a) == purged_from(s, b),
    decreases b - a,
{
    if a < b {
        lemma_purged_skip(s, a + 1, b);
    }
}

/// A fragment that repeats an earlier one repeats one that is not redundant.
proof fn lemma_first_copy(s: Seq<Seq<Point>>, i: int, j: int)
    requires
        0 <= j < i < s.len(),
        s[j] == s[i],
        s[i].len() > 0,
    ensures
        exists|f: int| 0 <= f <= j && s[f] == s[i] && !redundant(s, f),
    decreases j,
{
    if redundant(s, j) {
        let e = choose|e: int| 0 <= e < j && s[e] == s[j];
        lemma_first_copy(s, i, e);
    }
}

/// Whether one of the fragments listed in `group` holds the same points as fragment `i`.
fn group_holds(line_segments: &Vec<Vec<Point>>, group: &Vec<usize>, i: usize) -> (held: bool)
    requires
        i < line_segments.len(),
        forall|t: int| 0 <= t < group.len() ==> group[t] < line_segments.len(),
    ensures
        held == exists|t: int|
            0 <= t < group.len() && line_segments[group[t] as int]@ == line_segments[i as int]@,
{
    let mut t: usize = 0;
    while t < group.len()
        invariant
            i < line_segments.len(),
            t <= group.len(),
            forall|u: int| 0 <= u < group.len() ==> group[u] < line_segments.len(),
            forall|u: int|
                0 <= u < t ==> line_segments[group[u] as int]@ != line_segments[i as int]@,
        decreases group.len() - t,
    {
        if same_points(line_segments[group[t]].as_slice(), line_segments[i].as_slice()) {
            return true;
        }
        t += 1;
    }
    false
}

/// The state of the grouping pass before fragment `i` is looked at: each group lists
/// fragments that start on its key, and every fragment before `i` that is not
/// redundant is listed in the group of its first point.
spec fn grouped(s: Seq<Seq<Point>>, groups: Map<(u64, u64), Vec<usize>>, i: int) -> bool {
    &&& forall|key: (u64, u64), t: int|
        groups.contains_key(key) && 0 <= t < groups[key].len() ==> {
            let idx = #[trigger] groups[key][t];
            idx < i && s[idx as int].len() > 0 && start_key(s[idx as int]) == key
        }
    &&& forall|j: int|
        0 <= j < i && !redundant(s, j) ==> groups.contains_key(start_key(#[trigger] s[j]))
            && exists|t: int|
            0 <= t < groups[start_key(s[j])].len() && groups[start_key(s[j])][t] == j
}

/// The removal list before fragment `i` is looked at: the redundant fragments before
/// `i`, in ascending order.
spec fn marked(s: Seq<Seq<Point>>, doomed: Seq<usize>, i: int) -> bool {
    &&& forall|t: int| 0 <= t < doomed.len() ==> doomed[t] < i && redundant(s, doomed[t] as int)
    &&& forall|t: int, u: int| 0 <= t < u < doomed.len() ==> doomed[t] < doomed[u]
    &&& forall|j: int|
        0 <= j < i && redundant(s, j) ==> exists|t: int| 0 <= t < doomed.len() && doomed[t] == j
}

/// The removal list takes fragment `i` exactly if it is redundant.
proof fn lemma_marked_next(s: Seq<Seq<Point>>, doomed: Seq<usize>, i: int)
    requires
        0 <= i < s.len(),
        i <= usize::MAX,
        marked(s, doomed, i),
    ensures
        redundant(s, i) ==> marked(s, doomed.push(i as usize), i + 1),
        !redundant(s, i) ==> marked(s, doomed, i + 1),
{
    if redundant(s, i) {
        let next = doomed.push(i as usize);
        assert forall|j: int| 0 <= j < i + 1 && redundant(s, j) implies exists|t: int|
            0 <= t < next.len() && next[t] == j by {
            if j < i {
                let t = choose|t: int| 0 <= t < doomed.len() && doomed[t] == j;
                assert(next[t] == j);
            } else {
                assert(next[doomed.len() as int] == j);
            }
        }
    }
}

/// Removes empty fragments and fragments that repeat an earlier one.
///
/// Fragments are grouped by their first point; within a group a fragment is dropped
/// only if an earlier fragment holds the same points in the same order. Dropped
/// fragments leave by the last fragment moving into their place, so the order of
/// what remains is not the order given.
pub fn dedup_inner(line_segments: &mut Vec<Vec<Point>>)
    ensures
        polylines(final(line_segments)@) == deduplicated(polylines(old(line_segments)@)),
        all_nonempty(polylines(final(line_segments)@)),
{
    let ghost s = polylines(line_segments@);
    proof {
        dedup_leaves_nothing_redundant(s);
        assert forall|k: int| 0 <= k < deduplicated(s).len() implies (#[trigger] deduplicated(
            s,
        )[k]).len() > 0 by {
            assert(!redundant(deduplicated(s), k));
        }
    }
    let n = line_segments.len();
    let mut start_points: BTreeMap<(u64, u64), Vec<usize>> = BTreeMap::new();
    let mut should_remove: Vec<usize> = Vec::new();

    let mut i: usize = 0;
    while i < n
        invariant
            n == line_segments.len(),
            s == polylines(line_segments@),
            i <= n,
            grouped(s, start_points@, i as int),
            marked(s, should_remove@, i as int),
        decreases n - i,
    {
        let line_segment = &line_segments[i];
        assert(s[i as int] == line_segment@);
        let ghost doomed = should_remove@;
        if line_segment.is_empty() {
            should_remove.push(i);
            proof {
                lemma_marked_next(s, doomed, i as int);
            }
        } else {
            let my_start = (line_segment[0].x.to_bits(), line_segment[0].y.to_bits());
            let ghost before = start_points@;
            let mut collided = false;
            let mut group: Vec<usize> = Vec::new();
            match start_points.remove(&my_start) {
                None => {
                    assert(!before.contains_key(my_start));
                },
                Some(listed) => {
                    assert(before.contains_key(my_start) && before[my_start] == listed);
                    assert forall|t: int| 0 <= t < listed.len() implies listed[t] < n by {
                        assert(before[my_start][t] < i);
                    }
                    collided = group_holds(line_segments, &listed, i);
                    group = listed;
                },
            }
            let ghost listed = group@;
            assert(start_points@ == before.remove(my_start));
            assert(before.contains_key(my_start) ==> before[my_start]@ == listed);
            assert(!before.contains_key(my_start) ==> listed.len() == 0 && !collided);
            assert forall|t: int| 0 <= t < listed.len() implies listed[t] < i && start_key(
                s[listed[t] as int],
            ) == my_start by {
                assert(before[my_start][t] == listed[t]);
            }
            // Whether the fragment repeats an earlier one is settled within its group.
            assert(collided == redundant(s, i as int)) by {
                if collided {
                    let t = choose|t: int|
                        0 <= t < listed.len() && line_segments[listed[t] as int]@
                            == line_segments[i as int]@;
                    assert(s[listed[t] as int] == s[i as int]);
                }
                if redundant(s, i as int) {
                    let j = choose|j: int| 0 <= j < i && s[j] == s[i as int];
                    lemma_first_copy(s, i as int, j);
                    let f = choose|f: int| 0 <= f <= j && s[f] == s[i as int] && !redundant(s, f);
                    assert(start_key(s[f]) == my_start);
                    assert(before.contains_key(my_start));
                    let t = choose|t: int|
                        0 <= t < before[my_start].len() && before[my_start][t] == f;
                    assert(line_segments[listed[t] as int]@ == line_segments[i as int]@);
                }
            }
            if collided {
                should_remove.push(i);
            } else {
                group.push(i);
            }
            proof {
                lemma_marked_next(s, doomed, i as int);
            }
            let ghost refilled = group@;
            start_points.insert(my_start, group);
            assert(grouped(s, start_points@, i + 1)) by {
                let after = start_points@;
                assert forall|key: (u64, u64), t: int|
                    after.contains_key(key) && 0 <= t < after[key].len() implies ({
                        let idx = #[trigger] after[key][t];
                        idx < i + 1 && s[idx as int].len() > 0 && start_key(s[idx as int]) == key
                    }) by {
                    if key == my_start {
                        if t < listed.len() {
                            assert(refilled[t] == listed[t]);
                            if before.contains_key(my_start) {
                                assert(before[my_start][t] == listed[t]);
                            }
                        }
                    } else {
                        assert(before.contains_key(key) && before[key] == after[key]);
                        assert(before[key][t] < i);
                    }
                }
                assert forall|j: int| 0 <= j < i + 1 && !redundant(s, j) implies after.contains_key(
                    start_key(#[trigger] s[j]),
                ) && exists|t: int|
                    0 <= t < after[start_key(s[j])].len() && after[start_key(s[j])][t] == j by {
                    let key = start_key(s[j]);
                    if j == i {
                        assert(after[key]@ == refilled);
                        assert(refilled[refilled.len() - 1] == i);
                    } else {
                        assert(before.contains_key(key));
                        let t = choose|t: int| 0 <= t < before[key].len() && before[key][t] == j;
                        if key == my_start {
                            assert(after[key]@ == refilled);
                            assert(refilled[t] == listed[t]);
                            assert(after[key][t] == j);
                        } else {
                            assert(after[key] == before[key]);
                            assert(after[key][t] == j);
                        }
                    }
                }
            }
        }
        i += 1;
    }

    let mut t: usize = should_remove.len();
    let ghost mut bound: int = n as int;
    proof {
        lemma_purged_prefix(s, bound);
    }
    while t > 0
        invariant
            n == s.len(),
            t <= should_remove.len(),
            marked(s, should_remove@, n as int),
            0 <= bound <= n,
            polylines(line_segments@) == purged_from(s, bound),
            forall|u: int| 0 <= u < t ==> should_remove[u] < bound,
            forall|u: int| t <= u < should_remove.len() ==> should_remove[u] >= bound,
        decreases t,
    {
        t -= 1;
        let idx = should_remove[t];
        proof {
            assert forall|j: int| idx < j < bound implies !redundant(s, j) by {
                if redundant(s, j) {
                    let u = choose|u: int| 0 <= u < should_remove.len() && should_remove[u] == j;
                    if u < t {
                        assert(should_remove[u] < should_remove[t as int]);
                    } else if u > t {
                        assert(should_remove[u] >= bound);
                    }
                }
            }
            lemma_purged_skip(s, idx + 1, bound);
            lemma_purged_prefix(s, idx + 1);
        }
        let ghost before = polylines(line_segments@);
        line_segments.swap_remove(idx);
        assert(polylines(line_segments@) =~= swap_removed(before, idx as int));
        proof {
            bound = idx as int;
        }
    }
    proof {
        assert forall|j: int| 0 <= j < bound implies !redundant(s, j) by {
            if redundant(s, j) {
                let u = choose|u: int| 0 <= u < should_remove.len() && should_remove[u] == j;
            }
        }
        lemma_purged_skip(s, 0, bound);
    }
}

/// Removes empty fragments and fragments that repeat an earlier one, and hands back
/// what remains. See [`dedup_inner`].
pub fn dedup(line_segments: Vec<Vec<Point>>) -> (kept: Vec<Vec<Point>>)
    ensures
        polylines(kept@) == deduplicated(polylines(line_segments@)),
        all_nonempty(polylines(kept@)),
{
    let mut into = line_segments;
    dedup_inner(&mut into);
    into
}

/// Every fragment holds at least one point.
pub open spec fn all_nonempty(s: Seq<Seq<Point>>) -> bool {
    forall|k: int| 0 <= k < s.len() ==> (#[trigger] s[k]).len() > 0
}

/// Fragment `i` continues fragment `j`: they are two different fragments, and `i`
/// starts on the point on which `j` ends.
pub open spec fn continues(s: Seq<Seq<Point>>, i: int, j: int) -> bool {
    &&& 0 <= i < s.len()
    &&& 0 <= j < s.len()
    &&& i != j
    &&& s[i].first() == s[j].last()
}

/// The scan visits the pair `(i, j)` before the pair `(a, b)`: outer index ascending,
/// then inner index ascending.
pub open spec fn scanned_before(i: int, j: int, a: int, b: int) -> bool {
    i < a || (i == a && j < b)
}

/// `(i, j)` is the first pair, in scan order, in which `i` continues `j`.
pub open spec fn first_match(s: Seq<Seq<Point>>, i: int, j: int) -> bool {
    &&& continues(s, i, j)
    &&& forall|a: int, b: int| scanned_before(a, b, i, j) ==> !continues(s, a, b)
}

/// No fragment continues another.
pub open spec fn settled(s: Seq<Seq<Point>>) -> bool {
    forall|a: int, b: int| !continues(s, a, b)
}

/// One merge: fragments `i` and `j` leave the list, the one at the higher index first,
/// and `j` followed by `i` joins it at the end.
pub open spec fn merged(s: Seq<Seq<Point>>, i: int, j: int) -> Seq<Seq<Point>> {
    let rest = if i > j {
        swap_removed(swap_removed(s, i), j)
    } else {
        swap_removed(swap_removed(s, j), i)
    };
    rest.push(s[j] + s[i])
}

/// The list that connecting ends with: as long as some fragment continues another,
/// the first such pair in scan order is merged and the scan starts over.
pub open spec fn connected(s: Seq<Seq<Point>>) -> Seq<Seq<Point>>
    decreases s.len(),
{
    if exists|i: int, j: int| first_match(s, i, j) {
        let (i, j) = choose|i: int, j: int| first_match(s, i, j);
        connected(merged(s, i, j))
    } else {
        s
    }
}

/// At most one pair is the first match, so connecting a list is connecting what
/// the merge of that pair leaves.
pub(crate) proof fn lemma_first_match_unique(s: Seq<Seq<Point>>, i: int, j: int)
    requires
        first_match(s, i, j),
    ensures
        forall|a: int, b: int| first_match(s, a, b) ==> a == i && b == j,
        connected(s) == connected(merged(s, i, j)),
{
    assert forall|a: int, b: int| first_match(s, a, b) implies a == i && b == j by {
        if scanned_before(a, b, i, j) {
            assert(!continues(s, a, b));
        } else if scanned_before(i, j, a, b) {
            assert(!continues(s, i, j));
        }
    }
    let (a, b) = choose|a: int, b: int| first_match(s, a, b);
    assert(first_match(s, a, b));
}



/// Finds the first pair, in scan order, in which one fragment continues another.
fn find_match(segments: &Vec<Vec<Point>>) -> (found: Option<(usize, usize)>)
    requires
        all_nonempty(polylines(segments@)),
    ensures
        match found {
            Some((i, j)) => first_match(polylines(segments@), i as int, j as int),
            None => settled(polylines(segments@)),
        },
{
    let ghost s = polylines(segments@);
    let n = segments.len();
    let mut i: usize = 0;
    while i < n
        invariant
            n == segments.len(),
            s == polylines(segments@),
            all_nonempty(s),
            i <= n,
            forall|a: int, b: int| a < i ==> !continues(s, a, b),
        decreases n - i,
    {
        let mut j: usize = 0;
        while j < n
            invariant
                n == segments.len(),
                s == polylines(segments@),
                all_nonempty(s),
                i < n,
                j <= n,
                forall|a: int, b: int|
                    scanned_before(a, b, i as int, j as int) ==> !continues(s, a, b),
            decreases n - j,
        {
            if i != j {
                let line_i = &segments[i];
                let line_j = &segments[j];
                assert(s[i as int] == line_i@ && s[j as int] == line_j@);
                let start_i = line_i[0];
                let end_j = line_j[line_j.len() - 1];
                if start_i == end_j {
                    return Some((i, j));
                }
            }
            j += 1;
        }
        i += 1;
    }
    None
}

/// Joins fragments that share endpoints.
///
/// While some fragment starts on the point on which another ends, the first such pair
/// in scan order is replaced by one fragment, the second followed by the first, and
/// the scan starts over. The joined fragment holds all points of both: the point
/// that the two share comes twice. A ring is a fragment like any other. The order
/// of the fragments that come back is not the order in which they were given.
pub fn connect(segments: Vec<Vec<Point>>) -> (joined: Vec<Vec<Point>>)
    requires
        all_nonempty(polylines(segments@)),
    ensures
        polylines(joined@) == connected(polylines(segments@)),
        settled(polylines(joined@)),
        all_nonempty(polylines(joined@)),
{
    let mut segments = segments;
    let ghost given = polylines(segments@);
    loop
        invariant
            all_nonempty(polylines(segments@)),
            connected(polylines(segments@)) == connected(given),
        ensures
            polylines(segments@) == connected(given),
            settled(polylines(segments@)),
            all_nonempty(polylines(segments@)),
        decreases segments.len(),
    {
        let ghost s = polylines(segments@);
        match find_match(&segments) {
            Some((i, j)) => {
                proof {
                    lemma_first_match_unique(s, i as int, j as int);
                }
                let (mut i_contents, mut j_contents) = if i > j {
                    let i_contents = segments.swap_remove(i);
                    let j_contents = segments.swap_remove(j);
                    (i_contents, j_contents)
                } else {
                    let j_contents = segments.swap_remove(j);
                    let i_contents = segments.swap_remove(i);
                    (i_contents, j_contents)
                };
                j_contents.append(&mut i_contents);
                segments.push(j_contents);
                assert(polylines(segments@) =~= merged(s, i as int, j as int));
            },
            None => {
                assert(!exists|i: int, j: int| first_match(s, i, j));
                break ;
            },
        }
    }
    segments
}

/// Where each entry of the list `t` came from: `origin[p]` is the index in `s` of the
/// fragment at `p`. No fragment is listed twice, the fragments before `k` are in
/// place, and the others are fragments from `k` on that are not redundant.
spec fn traced(s: Seq<Seq<Point>>, k: int, t: Seq<Seq<Point>>, origin: Seq<int>) -> bool {
    &&& origin.len() == t.len()
    &&& forall|p: int|
        0 <= p < t.len() ==> 0 <= #[trigger] origin[p] < s.len() && t[p] == s[origin[p]]
    &&& forall|p: int, q: int| 0 <= p < q < t.len() ==> origin[p] != origin[q]
    &&& forall|p: int| 0 <= p < k && p < t.len() ==> origin[p] == p
    &&& forall|p: int| k <= p < t.len() ==> origin[p] >= k && !redundant(s, #[trigger] origin[p])
}

/// Every fragment that is left after removing from `k` on can be traced to the list given.
proof fn lemma_purged_traced(s: Seq<Seq<Point>>, k: int) -> (origin: Seq<int>)
    requires
        0 <= k <= s.len(),
    ensures
        traced(s, k, purged_from(s, k), origin),
    decreases s.len() - k,
{
    if k == s.len() {
        Seq::new(s.len(), |p: int| p)
    } else {
        let later = lemma_purged_traced(s, k + 1);
        lemma_purged_prefix(s, k + 1);
        if redundant(s, k) {
            swap_removed(later, k)
        } else {
            later
        }
    }
}

/// Nothing that deduplication leaves is redundant.
pub proof fn dedup_leaves_nothing_redundant(s: Seq<Seq<Point>>)
    ensures
        forall|k: int| 0 <= k < deduplicated(s).len() ==> !redundant(deduplicated(s), k),
{
    let t = deduplicated(s);
    let origin = lemma_purged_traced(s, 0);
    assert forall|k: int| 0 <= k < t.len() implies !redundant(t, k) by {
        assert(!redundant(s, origin[k]));
        if redundant(t, k) {
            let j = choose|j: int| 0 <= j < k && t[j] == t[k];
            assert(!redundant(s, origin[j]));
            if origin[j] < origin[k] {
                assert(s[origin[j]] == s[origin[k]]);
            } else {
                assert(s[origin[k]] == s[origin[j]]);
            }
        }
    }
}

/// Deduplicating a second time changes nothing: not the fragments, and not their order.
pub proof fn dedup_idempotent(s: Seq<Seq<Point>>)
    ensures
        deduplicated(deduplicated(s)) == deduplicated(s),
        deduplicated(deduplicated(s)).to_multiset() == deduplicated(s).to_multiset(),
{
    let t = deduplicated(s);
    dedup_leaves_nothing_redundant(s);
    lemma_purged_skip(t, 0, t.len() as int);
}

/// Removing one entry by moving the last into its place takes one copy of that entry
/// out of the list and leaves every other entry.
proof fn lemma_swap_removed_multiset<A>(s: Seq<A>, i: int)
    requires
        0 <= i < s.len(),
    ensures
        swap_removed(s, i).len() == s.len() - 1,
        swap_removed(s, i).to_multiset() == s.to_multiset().remove(s[i]),
{
    broadcast use vstd::seq_lib::group_to_multiset_ensures;

    let last = s.len() - 1;
    if i == last {
        assert(swap_removed(s, i) =~= s.remove(i));
    } else {
        let shorter = s.remove(last);
        assert(swap_removed(s, i) =~= shorter.remove(i).insert(i, s[last]));
        assert(shorter.remove(i).insert(i, s[last]).to_multiset() =~= s.to_multiset().remove(
            s[i],
        ));
    }
}

/// A fragment that sits at exactly two indices of a list is counted twice.
proof fn lemma_count_of_a_pair(s: Seq<Seq<Point>>, a: int, b: int)
    requires
        0 <= a < b < s.len(),
        s[a] == s[b],
        forall|k: int| 0 <= k < s.len() && s[k] == s[a] ==> k == a || k == b,
    ensures
        s.to_multiset().count(s[a]) == 2,
{
    broadcast use vstd::seq_lib::group_to_multiset_ensures;

    let without_b = s.remove(b);
    let without_both = without_b.remove(a);
    assert(without_b[a] == s[a]);
    assert(!without_both.contains(s[a])) by {
        if without_both.contains(s[a]) {
            let k = choose|k: int| 0 <= k < without_both.len() && without_both[k] == s[a];
            let back = if k < a { k } else if k + 1 < b { k + 1 } else { k + 2 };
            assert(s[back] == s[a]);
        }
    }
    assert(without_both.to_multiset().count(s[a]) == 0);
    assert(without_both.to_multiset() == s.to_multiset().remove(s[b]).remove(s[a]));
}

/// Where exactly one fragment repeats an earlier one and none is empty, deduplication
/// takes out the later of the two and nothing else: one fragment fewer comes back,
/// and one copy of the repeated fragment is among them.
pub proof fn dedup_drops_the_later_copy(s: Seq<Seq<Point>>, a: int, b: int)
    requires
        all_nonempty(s),
        0 <= a < b < s.len(),
        s[a] == s[b],
        forall|i: int, j: int| 0 <= i < j < s.len() && s[i] == s[j] ==> i == a && j == b,
    ensures
        deduplicated(s) == swap_removed(s, b),
        deduplicated(s).len() == s.len() - 1,
        deduplicated(s).to_multiset() == s.to_multiset().remove(s[b]),
        deduplicated(s).to_multiset().count(s[b]) == 1,
{
    broadcast use vstd::seq_lib::group_to_multiset_ensures;

    assert forall|k: int| 0 <= k < s.len() && k != b implies !redundant(s, k) by {
        assert(s[k].len() > 0);
    }
    lemma_purged_skip(s, 0, b);
    lemma_purged_skip(s, b + 1, s.len() as int);
    lemma_swap_removed_multiset(s, b);
    // The fragment at `a` is the only other entry that holds these points.
    lemma_count_of_a_pair(s, a, b);
}

/// Connecting fragments that hold points gives fragments that hold points, and
/// leaves no fragment that continues another.
pub proof fn connected_keeps_fragments_nonempty(s: Seq<Seq<Point>>)
    requires
        all_nonempty(s),
    ensures
        all_nonempty(connected(s)),
        settled(connected(s)),
    decreases s.len(),
{
    if exists|i: int, j: int| first_match(s, i, j) {
        let (i, j) = choose|i: int, j: int| first_match(s, i, j);
        assert(s[i].len() > 0 && s[j].len() > 0);
        connected_keeps_fragments_nonempty(merged(s, i, j));
    } else {
        assert forall|a: int, b: int| !continues(s, a, b) by {
            if continues(s, a, b) {
                let found = lemma_some_pair_is_first(s, 0, 0);
            }
        }
    }
}

/// Where some fragment continues another, the scan finds a first such pair.
pub(crate) proof fn lemma_some_pair_is_first(s: Seq<Seq<Point>>, i: int, j: int) -> (found: (int, int))
    requires
        0 <= i <= s.len(),
        0 <= j <= s.len(),
        forall|a: int, b: int| scanned_before(a, b, i, j) ==> !continues(s, a, b),
        exists|a: int, b: int| continues(s, a, b),
    ensures
        first_match(s, found.0, found.1),
    decreases s.len() - i, s.len() - j,
{
    if i >= s.len() {
        let (a, b) = choose|a: int, b: int| continues(s, a, b);
        assert(scanned_before(a, b, i, j));
        (0, 0)
    } else if j >= s.len() {
        assert forall|a: int, b: int| scanned_before(a, b, i + 1, 0) implies !continues(
            s,
            a,
            b,
        ) by {
            if a == i && b < s.len() {
                assert(scanned_before(a, b, i, j));
            }
        }
        lemma_some_pair_is_first(s, i + 1, 0)
    } else if continues(s, i, j) {
        (i, j)
    } else {
        assert forall|a: int, b: int| scanned_before(a, b, i, j + 1) implies !continues(
            s,
            a,
            b,
        ) by {
            if !(a == i && b == j) {
                assert(scanned_before(a, b, i, j));
            }
        }
        lemma_some_pair_is_first(s, i, j + 1)
    }
}

/// Where no fragment continues another, connecting hands the list back as it is.
pub proof fn connect_leaves_settled_lists(s: Seq<Seq<Point>>)
    requires
        settled(s),
    ensures
        connected(s) == s,
        connected(s).to_multiset() == s.to_multiset(),
{
    assert forall|i: int, j: int| !first_match(s, i, j) by {
        assert(!continues(s, i, j));
    }
}

} // verus!
