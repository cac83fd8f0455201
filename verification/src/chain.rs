//! What connecting makes of a chain: fragments of which each but the first starts on
//! the point on which the one before it ends.

use vstd::prelude::*;
use vstd::seq_lib::lemma_flatten_concat;
use crate::linemath::{
    all_nonempty, connected, continues, first_match, lemma_first_match_unique,
    lemma_some_pair_is_first, merged,
};
use crate::point::Point;

verus! {

/// `order` has the fragment `b` at `t` and the fragment `a` right after it.
pub open spec fn linked(order: Seq<int>, t: int, a: int, b: int) -> bool {
    0 <= t < order.len() - 1 && order[t] == b && order[t + 1] == a
}

/// The fragments of `s` form a chain when taken in the order in which `order` lists
/// them: `order` lists every fragment once, every fragment but the first continues
/// the one listed before it, and no fragment continues another otherwise.
pub open spec fn is_chain(s: Seq<Seq<Point>>, order: Seq<int>) -> bool {
    &&& order.len() == s.len()
    &&& forall|t: int| 0 <= t < order.len() ==> 0 <= #[trigger] order[t] < s.len()
    &&& forall|t: int, u: int| 0 <= t < u < order.len() ==> order[t] != order[u]
    &&& forall|a: int, b: int|
        continues(s, a, b) <==> exists|t: int| #[trigger] linked(order, t, a, b)
}

/// The points of the fragments of `s`, taken in the order in which `order` lists
/// them, one fragment after the other.
pub open spec fn chained(s: Seq<Seq<Point>>, order: Seq<int>) -> Seq<Point> {
    order.map_values(|t: int| s[t]).flatten()
}

/// Where a fragment that is left by a merge of `high` and `low` came from: the
/// index, before the merge, of the fragment at `p` after it.
spec fn origin(n: int, high: int, low: int, p: int) -> int {
    let after_high = |q: int|
        if q == high {
            n - 1
        } else {
            q
        };
    if p == low {
        after_high(n - 2)
    } else {
        after_high(p)
    }
}

/// Where a fragment that a merge of `high` and `low` leaves is found after it.
spec fn place(n: int, high: int, low: int, a: int) -> int {
    if a < n - 2 {
        a
    } else if a == n - 2 {
        low
    } else if high < n - 2 {
        high
    } else {
        low
    }
}

/// The order of the chain after the link at `t` was merged: the fragments before
/// the link at their new places, the merged fragment, which is the last of the
/// list, and the fragments after the link at their new places.
spec fn merged_order(order: Seq<int>, high: int, low: int, t: int) -> Seq<int> {
    let n = order.len() as int;
    Seq::new(
        (n - 1) as nat,
        |u: int|
            if u < t {
                place(n, high, low, order[u])
            } else if u == t {
                n - 2
            } else {
                place(n, high, low, order[u + 1])
            },
    )
}

/// A merge of the link at `t` of a chain: fragment `i` continues fragment `j`, which
/// stands right before it in the order of the chain; `high` is the greater of the
/// two indices and `low` the smaller.
spec fn merging(
    s: Seq<Seq<Point>>,
    order: Seq<int>,
    i: int,
    j: int,
    t: int,
    high: int,
    low: int,
) -> bool {
    &&& all_nonempty(s)
    &&& is_chain(s, order)
    &&& continues(s, i, j)
    &&& linked(order, t, i, j)
    &&& high == (if i > j { i } else { j })
    &&& low == (if i > j { j } else { i })
}

/// What a merge does to the list: the merged fragment is the last, it starts as `j`
/// did and ends as `i` did, and every other fragment is left as it was, at the
/// place that `place` gives, which `origin` takes back.
spec fn placed(
    s: Seq<Seq<Point>>,
    order: Seq<int>,
    i: int,
    j: int,
    t: int,
    high: int,
    low: int,
) -> bool {
    let n = s.len() as int;
    let s2 = merged(s, i, j);
    &&& s2.len() == n - 1
    &&& all_nonempty(s2)
    &&& s2[n - 2].first() == s[j].first()
    &&& s2[n - 2].last() == s[i].last()
    &&& s2[n - 2] == s[j] + s[i]
    &&& forall|p: int|
        #![trigger s2[p]]
        #![trigger origin(n, high, low, p)]
        0 <= p < n - 2 ==> {
            let from = origin(n, high, low, p);
            &&& 0 <= from < n
            &&& from != i
            &&& from != j
            &&& s2[p] == s[from]
            &&& place(n, high, low, from) == p
        }
    &&& forall|a: int|
        #![trigger place(n, high, low, a)]
        0 <= a < n && a != i && a != j ==> {
            let to = place(n, high, low, a);
            &&& 0 <= to < n - 2
            &&& origin(n, high, low, to) == a
        }
    &&& forall|u: int|
        0 <= u < n && u != t && u != t + 1 ==> #[trigger] order[u] != i && order[u] != j
}

/// A merge does to the list what `placed` says.
proof fn lemma_placed(
    s: Seq<Seq<Point>>,
    order: Seq<int>,
    i: int,
    j: int,
    t: int,
    high: int,
    low: int,
)
    requires
        merging(s, order, i, j, t, high, low),
    ensures
        placed(s, order, i, j, t, high, low),
{
    let n = s.len() as int;
    let s2 = merged(s, i, j);
    assert(s[j].len() > 0 && s[i].len() > 0);
    assert((s[j] + s[i]).first() == s[j].first());
    assert((s[j] + s[i]).last() == s[i].last());
    assert forall|a: int| #![trigger place(n, high, low, a)] 0 <= a < n && a != i && a != j implies {
        let to = place(n, high, low, a);
        &&& 0 <= to < n - 2
        &&& origin(n, high, low, to) == a
    } by {}
    assert forall|p: int|
        #![trigger s2[p]]
        #![trigger origin(n, high, low, p)]
        0 <= p < n - 2 implies {
        let from = origin(n, high, low, p);
        &&& 0 <= from < n
        &&& from != i
        &&& from != j
        &&& s2[p] == s[from]
        &&& place(n, high, low, from) == p
    } by {
        let from = origin(n, high, low, p);
        assert(origin(n, high, low, place(n, high, low, from)) == from);
    }
    assert forall|u: int| 0 <= u < n && u != t && u != t + 1 implies #[trigger] order[u] != i
        && order[u] != j by {
        if u < t {
            assert(order[u] != order[t] && order[u] != order[t + 1]);
        } else {
            assert(order[t] != order[u] && order[t + 1] != order[u]);
        }
    }
}

/// After a merge, the order lists every fragment once.
proof fn lemma_merged_lists_once(
    s: Seq<Seq<Point>>,
    order: Seq<int>,
    i: int,
    j: int,
    t: int,
    high: int,
    low: int,
)
    requires
        merging(s, order, i, j, t, high, low),
    ensures
        merged_order(order, high, low, t).len() == merged(s, i, j).len(),
        forall|u: int|
            0 <= u < merged_order(order, high, low, t).len() ==> 0 <= #[trigger] merged_order(
                order,
                high,
                low,
                t,
            )[u] < merged(s, i, j).len(),
        forall|u: int, v: int|
            0 <= u < v < merged_order(order, high, low, t).len() ==> merged_order(
                order,
                high,
                low,
                t,
            )[u] != merged_order(order, high, low, t)[v],
{
    let n = s.len() as int;
    let s2 = merged(s, i, j);
    let order2 = merged_order(order, high, low, t);
    lemma_placed(s, order, i, j, t, high, low);
    assert forall|u: int| 0 <= u < order2.len() implies 0 <= #[trigger] order2[u] < s2.len() by {
        if u < t {
            assert(0 <= place(n, high, low, order[u]) < n - 2);
        } else if u > t {
            assert(0 <= place(n, high, low, order[u + 1]) < n - 2);
        }
    }
    assert forall|u: int, v: int| 0 <= u < v < order2.len() implies order2[u] != order2[v] by {
        let from_u = if u < t { order[u] } else { order[u + 1] };
        let from_v = if v < t { order[v] } else { order[v + 1] };
        if u != t && v != t {
            assert(from_u != from_v);
            assert(origin(n, high, low, place(n, high, low, from_u)) == from_u);
            assert(origin(n, high, low, place(n, high, low, from_v)) == from_v);
        } else if u == t {
            assert(0 <= place(n, high, low, from_v) < n - 2);
        } else {
            assert(0 <= place(n, high, low, from_u) < n - 2);
        }
    }
}

/// The fragment on whose first point the fragment at `p` starts after a merge.
spec fn head_of(n: int, i: int, j: int, high: int, low: int, p: int) -> int {
    if p == n - 2 {
        j
    } else {
        origin(n, high, low, p)
    }
}

/// The fragment on whose last point the fragment at `p` ends after a merge.
spec fn tail_of(n: int, i: int, j: int, high: int, low: int, p: int) -> int {
    if p == n - 2 {
        i
    } else {
        origin(n, high, low, p)
    }
}

/// After a merge, a fragment that continues another follows it in the order.
proof fn lemma_merged_links_forward(
    s: Seq<Seq<Point>>,
    order: Seq<int>,
    i: int,
    j: int,
    t: int,
    high: int,
    low: int,
    a: int,
    b: int,
)
    requires
        merging(s, order, i, j, t, high, low),
        continues(merged(s, i, j), a, b),
    ensures
        exists|u: int| #[trigger] linked(merged_order(order, high, low, t), u, a, b),
{
    let n = s.len() as int;
    let s2 = merged(s, i, j);
    let order2 = merged_order(order, high, low, t);
    lemma_placed(s, order, i, j, t, high, low);
    let head = head_of(n, i, j, high, low, a);
    let tail = tail_of(n, i, j, high, low, b);
    if a < n - 2 {
        assert(s2[a] == s[origin(n, high, low, a)]);
    }
    if b < n - 2 {
        assert(s2[b] == s[origin(n, high, low, b)]);
    }
    assert(s2[a].first() == s[head].first());
    assert(s2[b].last() == s[tail].last());
    if a < n - 2 && b < n - 2 {
        assert(place(n, high, low, origin(n, high, low, a)) == a);
        assert(place(n, high, low, origin(n, high, low, b)) == b);
    }
    assert(head != tail);
    assert(continues(s, head, tail));
    let t0 = choose|t0: int| #[trigger] linked(order, t0, head, tail);
    if a == n - 2 {
        // The merged fragment starts as the fragment at `t` did.
        if t0 + 1 < t {
            assert(order[t0 + 1] != order[t]);
        } else if t0 + 1 > t {
            assert(order[t] != order[t0 + 1]);
        }
        assert(place(n, high, low, origin(n, high, low, b)) == b);
        assert(linked(order2, t - 1, a, b));
    } else if b == n - 2 {
        // The merged fragment ends as the fragment after `t` did.
        if t0 < t + 1 {
            assert(order[t0] != order[t + 1]);
        } else if t0 > t + 1 {
            assert(order[t + 1] != order[t0]);
        }
        assert(place(n, high, low, origin(n, high, low, a)) == a);
        assert(linked(order2, t, a, b));
    } else {
        assert(order[t0] != i && order[t0] != j && order[t0 + 1] != i && order[t0 + 1] != j);
        if t0 + 1 < t {
            assert(linked(order2, t0, a, b));
        } else {
            assert(t0 >= t + 2);
            assert(linked(order2, t0 - 1, a, b));
        }
    }
}

/// After a merge, a fragment that follows another in the order continues it.
proof fn lemma_merged_links_back(
    s: Seq<Seq<Point>>,
    order: Seq<int>,
    i: int,
    j: int,
    t: int,
    high: int,
    low: int,
    a: int,
    b: int,
    u: int,
)
    requires
        merging(s, order, i, j, t, high, low),
        linked(merged_order(order, high, low, t), u, a, b),
    ensures
        continues(merged(s, i, j), a, b),
{
    let n = s.len() as int;
    let s2 = merged(s, i, j);
    let order2 = merged_order(order, high, low, t);
    lemma_placed(s, order, i, j, t, high, low);
    lemma_merged_lists_once(s, order, i, j, t, high, low);
    assert(order2[u] != order2[u + 1]);
    assert(0 <= order2[u] < s2.len() && 0 <= order2[u + 1] < s2.len());
    if u + 1 < t {
        assert(linked(order, u, order[u + 1], order[u]));
        assert(continues(s, order[u + 1], order[u]));
        assert(origin(n, high, low, place(n, high, low, order[u + 1])) == order[u + 1]);
        assert(origin(n, high, low, place(n, high, low, order[u])) == order[u]);
        assert(s2[a] == s[order[u + 1]] && s2[b] == s[order[u]]);
    } else if u + 1 == t {
        assert(linked(order, t - 1, order[t], order[t - 1]));
        assert(continues(s, j, order[t - 1]));
        assert(origin(n, high, low, place(n, high, low, order[t - 1])) == order[t - 1]);
        assert(s2[b] == s[order[t - 1]]);
    } else if u == t {
        assert(linked(order, t + 1, order[t + 2], order[t + 1]));
        assert(continues(s, order[t + 2], i));
        assert(origin(n, high, low, place(n, high, low, order[t + 2])) == order[t + 2]);
        assert(s2[a] == s[order[t + 2]]);
    } else {
        assert(linked(order, u + 1, order[u + 2], order[u + 1]));
        assert(continues(s, order[u + 2], order[u + 1]));
        assert(origin(n, high, low, place(n, high, low, order[u + 2])) == order[u + 2]);
        assert(origin(n, high, low, place(n, high, low, order[u + 1])) == order[u + 1]);
        assert(s2[a] == s[order[u + 2]] && s2[b] == s[order[u + 1]]);
    }
}

/// After a merge, the chain holds the same points in the same order.
proof fn lemma_merged_points(
    s: Seq<Seq<Point>>,
    order: Seq<int>,
    i: int,
    j: int,
    t: int,
    high: int,
    low: int,
)
    requires
        merging(s, order, i, j, t, high, low),
    ensures
        chained(merged(s, i, j), merged_order(order, high, low, t)) == chained(s, order),
{
    let n = s.len() as int;
    let s2 = merged(s, i, j);
    let order2 = merged_order(order, high, low, t);
    lemma_placed(s, order, i, j, t, high, low);
    let lines = order.map_values(|x: int| s[x]);
    let lines2 = order2.map_values(|x: int| s2[x]);
    let front = lines.subrange(0, t);
    let back = lines.subrange(t + 2, n);
    assert forall|u: int| 0 <= u < n - 1 implies lines2[u] == (if u < t {
        lines[u]
    } else if u == t {
        lines[t] + lines[t + 1]
    } else {
        lines[u + 1]
    }) by {
        if u < t {
            assert(origin(n, high, low, place(n, high, low, order[u])) == order[u]);
            assert(s2[order2[u]] == s[order[u]]);
        } else if u > t {
            assert(origin(n, high, low, place(n, high, low, order[u + 1])) == order[u + 1]);
            assert(s2[order2[u]] == s[order[u + 1]]);
        }
    }
    assert(lines =~= front + seq![lines[t]] + seq![lines[t + 1]] + back);
    assert(lines2 =~= front + seq![lines[t] + lines[t + 1]] + back);
    lemma_flatten_concat(front, seq![lines[t]]);
    lemma_flatten_concat(front + seq![lines[t]], seq![lines[t + 1]]);
    lemma_flatten_concat(front + seq![lines[t]] + seq![lines[t + 1]], back);
    lemma_flatten_concat(front, seq![lines[t] + lines[t + 1]]);
    lemma_flatten_concat(front + seq![lines[t] + lines[t + 1]], back);
    seq![lines[t]].lemma_flatten_one_element();
    seq![lines[t + 1]].lemma_flatten_one_element();
    seq![lines[t] + lines[t + 1]].lemma_flatten_one_element();
    assert(lines2.flatten() =~= lines.flatten());
}

/// After the first link found by the scan is merged, the fragments still form a
/// chain, with the same points in the same order.
proof fn lemma_merged_chain(
    s: Seq<Seq<Point>>,
    order: Seq<int>,
    i: int,
    j: int,
    t: int,
    high: int,
    low: int,
)
    requires
        merging(s, order, i, j, t, high, low),
    ensures
        all_nonempty(merged(s, i, j)),
        merged(s, i, j).len() == s.len() - 1,
        is_chain(merged(s, i, j), merged_order(order, high, low, t)),
        chained(merged(s, i, j), merged_order(order, high, low, t)) == chained(s, order),
{
    let s2 = merged(s, i, j);
    let order2 = merged_order(order, high, low, t);
    lemma_placed(s, order, i, j, t, high, low);
    lemma_merged_lists_once(s, order, i, j, t, high, low);
    lemma_merged_points(s, order, i, j, t, high, low);
    assert forall|a: int, b: int| continues(s2, a, b) <==> exists|u: int| #[trigger]
        linked(order2, u, a, b) by {
        if continues(s2, a, b) {
            lemma_merged_links_forward(s, order, i, j, t, high, low, a, b);
        }
        if exists|u: int| #[trigger] linked(order2, u, a, b) {
            let u = choose|u: int| #[trigger] linked(order2, u, a, b);
            lemma_merged_links_back(s, order, i, j, t, high, low, a, b, u);
        }
    }
}

/// Connecting a chain gives one fragment: the points of the fragments of the chain,
/// in the order of the chain, whatever the order in which the fragments were given.
///
/// A point on which one fragment ends and the next starts is held by both, so it
/// comes twice.
pub proof fn connect_joins_a_chain(s: Seq<Seq<Point>>, order: Seq<int>)
    requires
        s.len() >= 1,
        all_nonempty(s),
        is_chain(s, order),
    ensures
        connected(s) == seq![chained(s, order)],
    decreases s.len(),
{
    if s.len() == 1 {
        assert forall|i: int, j: int| !first_match(s, i, j) by {
            assert(!continues(s, i, j));
        }
        let lines = order.map_values(|x: int| s[x]);
        assert(order[0] == 0);
        lines.lemma_flatten_one_element();
        assert(s =~= seq![chained(s, order)]);
    } else {
        assert(linked(order, 0, order[1], order[0]));
        assert(continues(s, order[1], order[0]));
        let (i, j) = lemma_some_pair_is_first(s, 0, 0);
        let t = choose|t: int| #[trigger] linked(order, t, i, j);
        let high = if i > j { i } else { j };
        let low = if i > j { j } else { i };
        lemma_merged_chain(s, order, i, j, t, high, low);
        lemma_first_match_unique(s, i, j);
        connect_joins_a_chain(merged(s, i, j), merged_order(order, high, low, t));
    }
}

} // verus!
