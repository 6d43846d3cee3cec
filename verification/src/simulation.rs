use crate::aabb::AABB;
use crate::gjk::{edge_between, edge_of};
use crate::rtree::{matching, matching_permutation, payloads, RTree};
use vstd::prelude::*;

verus! {

/// The broad phase of a simulation step: it finds the pairs of bodies whose
/// bounding boxes overlap, with a spatial index that is rebuilt on every
/// step.
#[derive(Debug)]
pub struct BroadPhase {
    pub rtree: RTree<usize>,
}

/// Bodies `i` and `j`, `i` before `j`, have overlapping boxes.
pub open spec fn overlapping_pair(aabbs: Seq<AABB>, i: int, j: int) -> bool {
    0 <= i < j < aabbs.len() && aabbs[i].meets(aabbs[j])
}

/// The first `n` boxes, each with its index as payload.
pub open spec fn indexed(aabbs: Seq<AABB>, n: int) -> Seq<(AABB, usize)> {
    Seq::new(n as nat, |k: int| (aabbs[k], k as usize))
}

/// A search over the indexed boxes finds each index whose box overlaps the
/// query, once, and nothing else.
proof fn indexed_matches(aabbs: Seq<AABB>, n: int, q: AABB)
    requires
        0 <= n <= aabbs.len() <= usize::MAX,
    ensures
        matching(indexed(aabbs, n), q).no_duplicates(),
        forall|j: usize|
            matching(indexed(aabbs, n), q).contains(j) <==> (j < n && aabbs[j as int].meets(q)),
    decreases n,
{
    if n > 0 {
        indexed_matches(aabbs, n - 1, q);
        let all = indexed(aabbs, n);
        let rest = indexed(aabbs, n - 1);
        let found = matching(all, q);
        let before = matching(rest, q);
        assert(all.drop_last() =~= rest);
        assert(all.last() == (aabbs[n - 1], (n - 1) as usize));
        if aabbs[n - 1].meets(q) {
            assert(found == before.push((n - 1) as usize));
            assert forall|j: usize| found.contains(j) <==> (j < n && aabbs[j as int].meets(
                q,
            )) by {
                if found.contains(j) {
                    let k = choose|k: int| 0 <= k < found.len() && found[k] == j;
                    if k < before.len() {
                        assert(before[k] == j);
                        assert(before.contains(j));
                    }
                }
                if j < n && aabbs[j as int].meets(q) {
                    if j == n - 1 {
                        assert(found[found.len() - 1] == j);
                    } else {
                        assert(before.contains(j));
                        let k = choose|k: int| 0 <= k < before.len() && before[k] == j;
                        assert(found[k] == j);
                    }
                }
            }
            assert forall|k: int, l: int|
                0 <= k < found.len() && 0 <= l < found.len() && k != l implies found[k]
                != found[l] by {
                if k < before.len() && l < before.len() {
                    assert(before[k] != before[l]);
                } else if k < before.len() {
                    assert(before.contains(before[k]));
                } else {
                    assert(before.contains(before[l]));
                }
            }
        } else {
            assert(found == before);
        }
    } else {
        assert(matching(indexed(aabbs, n), q) =~= Seq::empty());
    }
}

/// A search in any sequence that holds the indexed boxes, in whatever
/// order, finds each index whose box overlaps the query, once, and nothing
/// else.
proof fn index_search_is_exact(entries: Seq<(AABB, usize)>, aabbs: Seq<AABB>, q: AABB)
    requires
        aabbs.len() <= usize::MAX,
        entries.to_multiset() == indexed(aabbs, aabbs.len() as int).to_multiset(),
    ensures
        matching(entries, q).no_duplicates(),
        forall|j: usize|
            matching(entries, q).contains(j) <==> (j < aabbs.len() && aabbs[j as int].meets(q)),
{
    broadcast use vstd::seq_lib::group_to_multiset_ensures;

    let n = aabbs.len() as int;
    let found = matching(entries, q);
    let model = matching(indexed(aabbs, n), q);
    indexed_matches(aabbs, n, q);
    matching_permutation(entries, indexed(aabbs, n), q);
    model.lemma_multiset_has_no_duplicates();
    found.lemma_multiset_has_no_duplicates_conv();
    assert forall|j: usize| found.contains(j) <==> (j < aabbs.len() && aabbs[j as int].meets(
        q,
    )) by {
        assert(found.contains(j) <==> found.to_multiset().count(j) > 0);
        assert(model.contains(j) <==> model.to_multiset().count(j) > 0);
    }
}

/// Which end of a body's interval on the x axis an endpoint is.
#[derive(Clone, Copy, Debug, PartialEq, Eq, Structural)]
pub enum Interval {
    Start,
    End,
}

/// One end of the interval that the box of a body covers on the x axis.
#[derive(Clone, Copy, Debug)]
pub struct Endpoint {
    pub body: usize,
    pub x: i32,
    pub kind: Interval,
}

/// The two ends of the interval of body `i`.
pub open spec fn start_of(aabbs: Seq<AABB>, i: int) -> Endpoint {
    Endpoint { body: i as usize, x: aabbs[i].lo().x, kind: Interval::Start }
}

pub open spec fn end_of(aabbs: Seq<AABB>, i: int) -> Endpoint {
    Endpoint { body: i as usize, x: aabbs[i].hi().x, kind: Interval::End }
}

/// The ends of the intervals of the first `n` bodies: start, then end, body
/// after body.
pub open spec fn endpoints(aabbs: Seq<AABB>, n: int) -> Seq<Endpoint> {
    Seq::new(
        (2 * n) as nat,
        |q: int|
            if q % 2 == 0 {
                start_of(aabbs, q / 2)
            } else {
                end_of(aabbs, q / 2)
            },
    )
}

/// The endpoints are in ascending order of `x`.
pub open spec fn sorted_by_x(s: Seq<Endpoint>) -> bool {
    forall|p: int, r: int| 0 <= p <= r < s.len() ==> s[p].x <= s[r].x
}

/// The body whose interval starts at position `from` has not ended before
/// position `at`.
pub open spec fn open_at(s: Seq<Endpoint>, from: int, at: int) -> bool {
    &&& 0 <= from < at <= s.len()
    &&& s[from].kind == Interval::Start
    &&& forall|r: int|
        from < r < at ==> !((#[trigger] s[r]).kind == Interval::End && s[r].body == s[from].body)
}

/// The interval of `body` starts before position `at`.
pub open spec fn started_before(s: Seq<Endpoint>, at: int, body: usize) -> bool {
    exists|from: int|
        0 <= from < at && (#[trigger] s[from]).kind == Interval::Start && s[from].body == body
}

/// The boxes of bodies `i` and `j` overlap on the y and z axes, and on the
/// x axis in more than a border.
pub open spec fn overlapping_inside(aabbs: Seq<AABB>, i: int, j: int) -> bool {
    &&& aabbs[i].meets_y(aabbs[j])
    &&& aabbs[i].meets_z(aabbs[j])
    &&& aabbs[i].lo().x < aabbs[j].hi().x
    &&& aabbs[j].lo().x < aabbs[i].hi().x
}

/// Sorts the endpoints by `x` with `sort_unstable_by_key` of the standard
/// library: what comes out holds the same endpoints, in ascending order of
/// `x`; endpoints with the same `x` come in any order.
#[verifier::external_body]
fn sort_by_x(intervals: &mut Vec<Endpoint>)
    ensures
        final(intervals)@.to_multiset() == old(intervals)@.to_multiset(),
        sorted_by_x(final(intervals)@),
{
    intervals.sort_unstable_by_key(|e| e.x);
}

/// What a sequence with the endpoints of all bodies, in any order, holds.
proof fn endpoint_facts(aabbs: Seq<AABB>, s: Seq<Endpoint>)
    requires
        aabbs.len() <= usize::MAX,
        s.to_multiset() == endpoints(aabbs, aabbs.len() as int).to_multiset(),
    ensures
        s.len() == 2 * aabbs.len(),
        forall|p: int| 0 <= p < s.len() ==> (#[trigger] s[p]).body < aabbs.len(),
        forall|p: int|
            0 <= p < s.len() ==> (#[trigger] s[p]) == (if s[p].kind == Interval::Start {
                start_of(aabbs, s[p].body as int)
            } else {
                end_of(aabbs, s[p].body as int)
            }),
        forall|p: int, r: int|
            0 <= p < s.len() && 0 <= r < s.len() && p != r ==> !((#[trigger] s[p]).body == (
            #[trigger] s[r]).body && s[p].kind == s[r].kind),
        forall|i: int| 0 <= i < aabbs.len() ==> s.contains(#[trigger] start_of(aabbs, i)),
        forall|i: int| 0 <= i < aabbs.len() ==> s.contains(#[trigger] end_of(aabbs, i)),
{
    broadcast use vstd::seq_lib::group_to_multiset_ensures;

    let n = aabbs.len() as int;
    let all = endpoints(aabbs, n);
    assert(s.to_multiset().len() == s.len());
    assert(all.to_multiset().len() == all.len());
    assert forall|p: int| 0 <= p < s.len() implies (#[trigger] s[p]).body < aabbs.len() && s[p] == (
    if s[p].kind == Interval::Start {
        start_of(aabbs, s[p].body as int)
    } else {
        end_of(aabbs, s[p].body as int)
    }) by {
        assert(s.contains(s[p]));
        assert(s.to_multiset().count(s[p]) > 0);
        assert(all.contains(s[p]));
        let q = choose|q: int| 0 <= q < all.len() && all[q] == s[p];
        assert(0 <= q / 2 < n);
    }
    assert forall|q: int, t: int| 0 <= q < all.len() && 0 <= t < all.len() && q != t implies all[q]
        != all[t] by {
        assert(0 <= q / 2 < n && 0 <= t / 2 < n);
        if q / 2 == t / 2 {
            assert(q % 2 != t % 2);
        }
    }
    assert(all.no_duplicates());
    all.lemma_multiset_has_no_duplicates();
    s.lemma_multiset_has_no_duplicates_conv();
    assert forall|p: int, r: int|
        0 <= p < s.len() && 0 <= r < s.len() && p != r implies !((#[trigger] s[p]).body == (
    #[trigger] s[r]).body && s[p].kind == s[r].kind) by {
        assert(s[p] != s[r]);
    }
    assert forall|i: int| 0 <= i < aabbs.len() implies s.contains(
        #[trigger] start_of(aabbs, i),
    ) by {
        assert(all[2 * i] == start_of(aabbs, i));
        assert(all.contains(start_of(aabbs, i)));
        assert(all.to_multiset().count(start_of(aabbs, i)) > 0);
    }
    assert forall|i: int| 0 <= i < aabbs.len() implies s.contains(#[trigger] end_of(aabbs, i)) by {
        assert(all[2 * i + 1] == end_of(aabbs, i));
        assert(all.contains(end_of(aabbs, i)));
        assert(all.to_multiset().count(end_of(aabbs, i)) > 0);
    }
}

/// Takes `body` out of the list if it is there; the last element takes its
/// place.
fn close_interval(open: &mut Vec<usize>, body: usize)
    requires
        old(open)@.no_duplicates(),
    ensures
        final(open)@.no_duplicates(),
        !final(open)@.contains(body),
        forall|other: usize|
            other != body ==> final(open)@.contains(other) == old(open)@.contains(other),
{
    let ghost before = open@;
    let mut i: usize = 0;
    while i < open.len()
        invariant
            0 <= i <= open@.len(),
            open@ == before,
            before == old(open)@,
            before.no_duplicates(),
            forall|k: int| 0 <= k < i ==> before[k] != body,
        decreases open@.len() - i,
    {
        if open[i] == body {
            open.swap_remove(i);
            proof {
                let after = open@;
                let last = before.len() - 1;
                assert forall|k: int, l: int|
                    0 <= k < after.len() && 0 <= l < after.len() && k != l implies after[k]
                    != after[l] by {
                    assert(after[k] == before[if k == i { last } else { k }]);
                    assert(after[l] == before[if l == i { last } else { l }]);
                }
                assert forall|other: usize| other != body implies after.contains(other)
                    == before.contains(other) by {
                    if after.contains(other) {
                        let k = choose|k: int| 0 <= k < after.len() && after[k] == other;
                        assert(before[if k == i { last } else { k }] == other);
                    }
                    if before.contains(other) {
                        let k = choose|k: int| 0 <= k < before.len() && before[k] == other;
                        if k == last {
                            assert(after[i as int] == other);
                        } else {
                            assert(after[k] == other);
                        }
                    }
                }
                assert(!after.contains(body)) by {
                    if after.contains(body) {
                        let k = choose|k: int| 0 <= k < after.len() && after[k] == body;
                        assert(before[if k == i { last } else { k }] == body);
                    }
                }
            }
            return ;
        }
        i += 1;
    }
}

/// The box of body `i` has no extent on the x axis.
pub open spec fn flat_in_x(aabbs: Seq<AABB>, i: usize) -> bool {
    aabbs[i as int].lo().x == aabbs[i as int].hi().x
}

/// A pair that the sweep reports: two bodies, the smaller index first, whose
/// boxes overlap on the y and z axes, and on the x axis too unless one of
/// them has no extent there.
pub open spec fn sound_pair(aabbs: Seq<AABB>, pair: (usize, usize)) -> bool {
    &&& pair.0 < pair.1 < aabbs.len()
    &&& aabbs[pair.0 as int].meets_y(aabbs[pair.1 as int])
    &&& aabbs[pair.0 as int].meets_z(aabbs[pair.1 as int])
    &&& aabbs[pair.0 as int].meets_x(aabbs[pair.1 as int]) || flat_in_x(aabbs, pair.0)
        || flat_in_x(aabbs, pair.1)
}

/// Every box has its low corner below its high corner on the x axis.
spec fn ordered_in_x(aabbs: Seq<AABB>) -> bool {
    forall|i: int| 0 <= i < aabbs.len() ==> (#[trigger] aabbs[i]).lo().x <= aabbs[i].hi().x
}

/// The interval of `body` started before position `at` and is still open
/// there, or the box of `body` has no extent on the x axis.
spec fn held_open(aabbs: Seq<AABB>, s: Seq<Endpoint>, at: int, body: usize) -> bool {
    exists|from: int|
        0 <= from < at && (#[trigger] s[from]).kind == Interval::Start && s[from].body == body && (
        open_at(s, from, at) || flat_in_x(aabbs, body))
}

/// Bodies whose boxes overlap on the y and z axes.
spec fn beside(aabbs: Seq<AABB>, i: usize, j: usize) -> bool {
    aabbs[i as int].meets_y(aabbs[j as int]) && aabbs[i as int].meets_z(aabbs[j as int])
}

/// What holds of the sweep when the endpoints before position `k` are done:
/// the open list holds the bodies that have started and not ended, and the
/// pairs hold every body paired with each that was open when it started.
spec fn sweep_state(
    aabbs: Seq<AABB>,
    s: Seq<Endpoint>,
    k: int,
    open: Seq<usize>,
    pairs: Seq<(usize, usize)>,
) -> bool {
    &&& 0 <= k <= s.len()
    &&& aabbs.len() <= usize::MAX
    &&& ordered_in_x(aabbs)
    &&& sorted_by_x(s)
    &&& s.to_multiset() == endpoints(aabbs, aabbs.len() as int).to_multiset()
    &&& open.no_duplicates()
    &&& pairs.no_duplicates()
    &&& forall|t: int|
        0 <= t < pairs.len() ==> started_before(s, k, (#[trigger] pairs[t]).0) && started_before(
            s,
            k,
            pairs[t].1,
        )
    &&& forall|m: int| 0 <= m < open.len() ==> held_open(aabbs, s, k, #[trigger] open[m])
    &&& forall|from: int| #[trigger] open_at(s, from, k) ==> open.contains(s[from].body)
    &&& forall|t: int| 0 <= t < pairs.len() ==> sound_pair(aabbs, #[trigger] pairs[t])
    &&& forall|from: int, at: int|
        0 <= at < k && s[at].kind == Interval::Start && #[trigger] open_at(s, from, at) && beside(
            aabbs,
            s[at].body,
            s[from].body,
        ) ==> pairs.contains(edge_of(s[at].body, s[from].body))
}

/// A body that has started stays started.
proof fn started_stays(s: Seq<Endpoint>, k: int, body: usize)
    requires
        started_before(s, k, body),
    ensures
        started_before(s, k + 1, body),
{
    let from = choose|from: int|
        0 <= from < k && (#[trigger] s[from]).kind == Interval::Start && s[from].body == body;
    assert(0 <= from < k + 1 && s[from].kind == Interval::Start && s[from].body == body);
}

/// The step of the sweep at the end of an interval.
proof fn sweep_end_step(
    aabbs: Seq<AABB>,
    s: Seq<Endpoint>,
    k: int,
    was_open: Seq<usize>,
    now: Seq<usize>,
    pairs: Seq<(usize, usize)>,
)
    requires
        sweep_state(aabbs, s, k, was_open, pairs),
        k < s.len(),
        s[k].kind == Interval::End,
        now.no_duplicates(),
        !now.contains(s[k].body),
        forall|other: usize|
            other != s[k].body ==> now.contains(other) == was_open.contains(other),
    ensures
        sweep_state(aabbs, s, k + 1, now, pairs),
{
    assert forall|t: int| 0 <= t < pairs.len() implies started_before(
        s,
        k + 1,
        (#[trigger] pairs[t]).0,
    ) && started_before(s, k + 1, pairs[t].1) by {
        started_stays(s, k, pairs[t].0);
        started_stays(s, k, pairs[t].1);
    }
    assert forall|l: int| 0 <= l < now.len() implies held_open(aabbs, s, k + 1, #[trigger] now[l]) by {
        assert(now.contains(now[l]));
        assert(was_open.contains(now[l]));
        let l0 = choose|l0: int| 0 <= l0 < was_open.len() && was_open[l0] == now[l];
        assert(held_open(aabbs, s, k, was_open[l0]));
        let from = choose|from: int|
            0 <= from < k && (#[trigger] s[from]).kind == Interval::Start && s[from].body
                == was_open[l0] && (open_at(s, from, k) || flat_in_x(aabbs, was_open[l0]));
        if open_at(s, from, k) {
            assert(open_at(s, from, k + 1));
        }
        assert(0 <= from < k + 1 && s[from].kind == Interval::Start && s[from].body == now[l] && (
        open_at(s, from, k + 1) || flat_in_x(aabbs, now[l])));
    }
    assert forall|from: int| #[trigger] open_at(s, from, k + 1) implies now.contains(
        s[from].body,
    ) by {
        assert(from != k);
        assert(open_at(s, from, k));
        assert(!(s[k].kind == Interval::End && s[k].body == s[from].body));
    }
}

/// `pair` holds `body` and one of the first `upto` open bodies.
spec fn added_by(body: usize, was_open: Seq<usize>, upto: int, pair: (usize, usize)) -> bool {
    exists|l: int| 0 <= l < upto && #[trigger] edge_of(body, was_open[l]) == pair
}

/// The pairs that the body starting at `k` adds hold that body and one that
/// was open.
spec fn added_pairs(
    body: usize,
    was_open: Seq<usize>,
    upto: int,
    earlier: Seq<(usize, usize)>,
    pairs: Seq<(usize, usize)>,
) -> bool {
    &&& earlier.len() <= pairs.len()
    &&& forall|t: int| 0 <= t < earlier.len() ==> #[trigger] pairs[t] == earlier[t]
    &&& forall|t: int|
        earlier.len() <= t < pairs.len() ==> added_by(body, was_open, upto, #[trigger] pairs[t])
}

/// The step of the sweep at the start of the interval of a body, once the
/// body has been paired with the open bodies beside it.
proof fn sweep_start_step(
    aabbs: Seq<AABB>,
    s: Seq<Endpoint>,
    k: int,
    was_open: Seq<usize>,
    earlier: Seq<(usize, usize)>,
    pairs: Seq<(usize, usize)>,
)
    requires
        sweep_state(aabbs, s, k, was_open, earlier),
        k < s.len(),
        s[k].kind == Interval::Start,
        forall|l: int| 0 <= l < was_open.len() ==> #[trigger] was_open[l] != s[k].body,
        added_pairs(s[k].body, was_open, was_open.len() as int, earlier, pairs),
        pairs.no_duplicates(),
        forall|t: int| 0 <= t < pairs.len() ==> sound_pair(aabbs, #[trigger] pairs[t]),
        forall|l: int|
            0 <= l < was_open.len() && beside(aabbs, s[k].body, #[trigger] was_open[l])
                ==> pairs.contains(edge_of(s[k].body, was_open[l])),
    ensures
        sweep_state(aabbs, s, k + 1, was_open.push(s[k].body), pairs),
{
    let body = s[k].body;
    let now = was_open.push(body);
    assert(now[was_open.len() as int] == body);
    assert(s[k].kind == Interval::Start && s[k].body == body);
    assert(started_before(s, k + 1, body));
    assert forall|l: int, r: int|
        0 <= l < now.len() && 0 <= r < now.len() && l != r implies now[l] != now[r] by {
        if l < was_open.len() && r < was_open.len() {
            assert(was_open[l] != was_open[r]);
        } else if l < was_open.len() {
            assert(was_open[l] != body);
        } else {
            assert(was_open[r] != body);
        }
    }
    assert forall|l: int| 0 <= l < now.len() implies held_open(aabbs, s, k + 1, #[trigger] now[l]) by {
        if l < was_open.len() {
            assert(now[l] == was_open[l]);
            assert(held_open(aabbs, s, k, was_open[l]));
            let from = choose|from: int|
                0 <= from < k && (#[trigger] s[from]).kind == Interval::Start && s[from].body
                    == was_open[l] && (open_at(s, from, k) || flat_in_x(aabbs, was_open[l]));
            if open_at(s, from, k) {
                assert(open_at(s, from, k + 1));
            }
            assert(0 <= from < k + 1 && s[from].kind == Interval::Start && s[from].body == now[l]
                && (open_at(s, from, k + 1) || flat_in_x(aabbs, now[l])));
        } else {
            assert(open_at(s, k, k + 1));
            assert(0 <= k < k + 1 && s[k].kind == Interval::Start && s[k].body == now[l] && (
            open_at(s, k, k + 1) || flat_in_x(aabbs, now[l])));
        }
    }
    assert forall|t: int| 0 <= t < pairs.len() implies started_before(
        s,
        k + 1,
        (#[trigger] pairs[t]).0,
    ) && started_before(s, k + 1, pairs[t].1) by {
        if t < earlier.len() {
            assert(pairs[t] == earlier[t]);
            started_stays(s, k, earlier[t].0);
            started_stays(s, k, earlier[t].1);
        } else {
            assert(added_by(body, was_open, was_open.len() as int, pairs[t]));
            let l = choose|l: int|
                0 <= l < was_open.len() && #[trigger] edge_of(body, was_open[l]) == pairs[t];
            assert(held_open(aabbs, s, k, was_open[l]));
            let from = choose|from: int|
                0 <= from < k && (#[trigger] s[from]).kind == Interval::Start && s[from].body
                    == was_open[l] && (open_at(s, from, k) || flat_in_x(aabbs, was_open[l]));
            assert(started_before(s, k, was_open[l]));
            started_stays(s, k, was_open[l]);
        }
    }
    assert forall|from: int| #[trigger] open_at(s, from, k + 1) implies now.contains(
        s[from].body,
    ) by {
        if from == k {
            assert(now[was_open.len() as int] == s[from].body);
        } else {
            assert(open_at(s, from, k));
            let l = choose|l: int| 0 <= l < was_open.len() && was_open[l] == s[from].body;
            assert(now[l] == s[from].body);
        }
    }
    assert forall|from: int, at: int|
        0 <= at < k + 1 && s[at].kind == Interval::Start && #[trigger] open_at(s, from, at)
            && beside(aabbs, s[at].body, s[from].body) implies pairs.contains(
        edge_of(s[at].body, s[from].body),
    ) by {
        if at < k {
            assert(earlier.contains(edge_of(s[at].body, s[from].body)));
            let t = choose|t: int|
                0 <= t < earlier.len() && earlier[t] == edge_of(s[at].body, s[from].body);
            assert(pairs[t] == earlier[t]);
        } else {
            assert(was_open.contains(s[from].body));
            let l = choose|l: int| 0 <= l < was_open.len() && was_open[l] == s[from].body;
            assert(pairs.contains(edge_of(body, was_open[l])));
        }
    }
}

/// A body that is open when another starts overlaps it on the x axis,
/// unless its own box has no extent there.
proof fn open_body_meets_x(
    aabbs: Seq<AABB>,
    s: Seq<Endpoint>,
    k: int,
    open: Seq<usize>,
    pairs: Seq<(usize, usize)>,
    j: usize,
)
    requires
        sweep_state(aabbs, s, k, open, pairs),
        k < s.len(),
        s[k].kind == Interval::Start,
        held_open(aabbs, s, k, j),
    ensures
        j < aabbs.len(),
        s[k].body < aabbs.len(),
        aabbs[s[k].body as int].meets_x(aabbs[j as int]) || flat_in_x(aabbs, j),
{
    endpoint_facts(aabbs, s);
    let body = s[k].body;
    let from = choose|from: int|
        0 <= from < k && (#[trigger] s[from]).kind == Interval::Start && s[from].body == j && (
        open_at(s, from, k) || flat_in_x(aabbs, j));
    assert(s[from].body < aabbs.len());
    assert(s[from] == start_of(aabbs, j as int));
    assert(s[k] == start_of(aabbs, body as int));
    assert(aabbs[body as int].lo().x <= aabbs[body as int].hi().x);
    assert(aabbs[j as int].lo().x <= aabbs[j as int].hi().x);
    if !flat_in_x(aabbs, j) {
        assert(s.contains(end_of(aabbs, j as int)));
        let pe = choose|pe: int| 0 <= pe < s.len() && s[pe] == end_of(aabbs, j as int);
        assert(s[from].x <= s[k].x);
        if pe < from {
            assert(s[pe].x <= s[from].x);
        } else if pe < k {
            assert(!(s[pe].kind == Interval::End && s[pe].body == s[from].body));
        } else {
            assert(s[k].x <= s[pe].x);
        }
    }
}

/// When the sweep is done, every pair of bodies whose boxes overlap, on the
/// x axis in more than a border, has been reported.
proof fn sweep_is_complete(
    aabbs: Seq<AABB>,
    s: Seq<Endpoint>,
    open: Seq<usize>,
    pairs: Seq<(usize, usize)>,
)
    requires
        sweep_state(aabbs, s, s.len() as int, open, pairs),
    ensures
        forall|i: usize, j: usize|
            i < j < aabbs.len() && overlapping_inside(aabbs, i as int, j as int)
                ==> pairs.contains((i, j)),
{
    endpoint_facts(aabbs, s);
    assert forall|i: usize, j: usize|
        i < j < aabbs.len() && overlapping_inside(aabbs, i as int, j as int) implies pairs.contains(
        (i, j),
    ) by {
        let si = start_of(aabbs, i as int);
        let sj = start_of(aabbs, j as int);
        assert(s.contains(si));
        assert(s.contains(sj));
        let pi = choose|p: int| 0 <= p < s.len() && s[p] == si;
        let pj = choose|p: int| 0 <= p < s.len() && s[p] == sj;
        AABB::overlaps_symmetric(aabbs[i as int], aabbs[j as int]);
        if pi < pj {
            assert forall|r: int| pi < r < pj implies !((#[trigger] s[r]).kind == Interval::End
                && s[r].body == s[pi].body) by {
                if s[r].kind == Interval::End && s[r].body == s[pi].body {
                    assert(s[r] == end_of(aabbs, i as int));
                    assert(s[r].x <= s[pj].x);
                }
            }
            assert(open_at(s, pi, pj));
            assert(beside(aabbs, s[pj].body, s[pi].body));
            assert(pairs.contains(edge_of(s[pj].body, s[pi].body)));
        } else {
            assert forall|r: int| pj < r < pi implies !((#[trigger] s[r]).kind == Interval::End
                && s[r].body == s[pj].body) by {
                if s[r].kind == Interval::End && s[r].body == s[pj].body {
                    assert(s[r] == end_of(aabbs, j as int));
                    assert(s[r].x <= s[pi].x);
                }
            }
            assert(open_at(s, pj, pi));
            assert(beside(aabbs, s[pi].body, s[pj].body));
            assert(pairs.contains(edge_of(s[pi].body, s[pj].body)));
        }
    }
}

/// Pairs the body whose interval starts at position `k` with the open
/// bodies beside it, and opens its interval.
fn sweep_start(
    aabbs: &Vec<AABB>,
    intervals: &Vec<Endpoint>,
    k: usize,
    open: &mut Vec<usize>,
    pairs: &mut Vec<(usize, usize)>,
)
    requires
        sweep_state(aabbs@, intervals@, k as int, old(open)@, old(pairs)@),
        k < intervals@.len(),
        intervals@[k as int].kind == Interval::Start,
    ensures
        sweep_state(aabbs@, intervals@, k + 1, final(open)@, final(pairs)@),
{
    let ghost s = intervals@;
    let ghost was_open = open@;
    let ghost earlier = pairs@;
    let body = intervals[k].body;
    let n = aabbs.len();
    proof {
        endpoint_facts(aabbs@, s);
        assert forall|from: int| 0 <= from < k implies !((#[trigger] s[from]).kind
            == Interval::Start && s[from].body == body) by {
            assert(!(s[from].body == s[k as int].body && s[from].kind == s[k as int].kind));
        }
        assert forall|m: int| 0 <= m < was_open.len() implies #[trigger] was_open[m] != body
            && was_open[m] < n && (aabbs@[body as int].meets_x(aabbs@[was_open[m] as int])
            || flat_in_x(aabbs@, was_open[m])) by {
            assert(held_open(aabbs@, s, k as int, was_open[m]));
            open_body_meets_x(aabbs@, s, k as int, was_open, earlier, was_open[m]);
            let from = choose|from: int|
                0 <= from < k && (#[trigger] s[from]).kind == Interval::Start && s[from].body
                    == was_open[m] && (open_at(s, from, k as int) || flat_in_x(
                    aabbs@,
                    was_open[m],
                ));
        }
        assert forall|t: int| 0 <= t < earlier.len() implies (#[trigger] earlier[t]).0 != body
            && earlier[t].1 != body by {
            assert(started_before(s, k as int, earlier[t].0));
            assert(started_before(s, k as int, earlier[t].1));
        }
    }
    let mut m: usize = 0;
    while m < open.len()
        invariant
            0 <= m <= open@.len(),
            open@ == was_open,
            body < n,
            n == aabbs@.len(),
            forall|l: int|
                0 <= l < was_open.len() ==> #[trigger] was_open[l] != body && was_open[l] < n && (
                aabbs@[body as int].meets_x(aabbs@[was_open[l] as int]) || flat_in_x(
                    aabbs@,
                    was_open[l],
                )),
            was_open.no_duplicates(),
            forall|t: int|
                0 <= t < earlier.len() ==> (#[trigger] earlier[t]).0 != body && earlier[t].1
                    != body,
            added_pairs(body, was_open, m as int, earlier, pairs@),
            pairs@.no_duplicates(),
            forall|t: int| 0 <= t < pairs@.len() ==> sound_pair(aabbs@, #[trigger] pairs@[t]),
            forall|l: int|
                0 <= l < m && beside(aabbs@, body, #[trigger] was_open[l]) ==> pairs@.contains(
                    edge_of(body, was_open[l]),
                ),
        decreases open@.len() - m,
    {
        let j = open[m];
        assert(j == was_open[m as int]);
        let ghost held = pairs@;
        if aabbs[body].overlaps_yz(&aabbs[j]) {
            pairs.push(edge_between(body, j));
            proof {
                AABB::overlaps_symmetric(aabbs@[body as int], aabbs@[j as int]);
                assert(pairs@[held.len() as int] == edge_of(body, j));
                assert forall|t: int| 0 <= t < held.len() implies #[trigger] held[t] != edge_of(
                    body,
                    j,
                ) by {
                    if t < earlier.len() {
                        assert(held[t] == earlier[t]);
                    } else {
                        assert(added_by(body, was_open, m as int, held[t]));
                        let l = choose|l: int|
                            0 <= l < m && #[trigger] edge_of(body, was_open[l]) == held[t];
                        assert(was_open[l] != was_open[m as int]);
                    }
                }
                assert forall|t: int, r: int|
                    0 <= t < pairs@.len() && 0 <= r < pairs@.len() && t != r implies pairs@[t]
                    != pairs@[r] by {
                    if t < held.len() && r < held.len() {
                        assert(held[t] != held[r]);
                    } else if t < held.len() {
                        assert(pairs@[t] == held[t]);
                    } else {
                        assert(pairs@[r] == held[r]);
                    }
                }
                assert forall|t: int| 0 <= t < pairs@.len() implies sound_pair(
                    aabbs@,
                    #[trigger] pairs@[t],
                ) by {
                    if t < held.len() {
                        assert(pairs@[t] == held[t]);
                    }
                }
                assert forall|l: int|
                    0 <= l < m + 1 && beside(aabbs@, body, #[trigger] was_open[l]) implies pairs@.contains(
                    edge_of(body, was_open[l]),
                ) by {
                    if l < m {
                        let t = choose|t: int|
                            0 <= t < held.len() && held[t] == edge_of(body, was_open[l]);
                        assert(pairs@[t] == held[t]);
                    }
                }
            }
        }
        proof {
            assert forall|t: int| earlier.len() <= t < pairs@.len() implies added_by(
                body,
                was_open,
                m + 1,
                #[trigger] pairs@[t],
            ) by {
                if t < held.len() {
                    assert(pairs@[t] == held[t]);
                    assert(added_by(body, was_open, m as int, held[t]));
                    let l = choose|l: int|
                        0 <= l < m && #[trigger] edge_of(body, was_open[l]) == held[t];
                    assert(0 <= l < m + 1 && edge_of(body, was_open[l]) == pairs@[t]);
                } else {
                    assert(0 <= m < m + 1 && edge_of(body, was_open[m as int]) == pairs@[t]);
                }
            }
            assert forall|t: int| 0 <= t < earlier.len() implies #[trigger] pairs@[t]
                == earlier[t] by {
                assert(held[t] == earlier[t]);
            }
        }
        m += 1;
    }
    open.push(body);
    proof {
        sweep_start_step(aabbs@, s, k as int, was_open, earlier, pairs@);
    }
}

impl BroadPhase {
    /// Creates a broad phase with an empty index.
    pub fn new() -> (phase: Self)
        ensures
            phase.rtree.wf(),
            phase.rtree@ == Seq::<(AABB, usize)>::empty(),
    {
        Self { rtree: RTree::new() }
    }

    /// Rebuilds the index from the boxes of the bodies, and returns every
    /// pair of bodies whose boxes overlap: each pair once, the smaller index
    /// first, ordered by that index.
    pub fn candidate_pairs(&mut self, aabbs: &Vec<AABB>) -> (pairs: Vec<(usize, usize)>)
        ensures
            final(self).rtree.wf(),
            final(self).rtree@.to_multiset() == indexed(aabbs@, aabbs@.len() as int).to_multiset(),
            forall|k: int|
                0 <= k < pairs@.len() ==> overlapping_pair(
                    aabbs@,
                    (#[trigger] pairs@[k]).0 as int,
                    pairs@[k].1 as int,
                ),
            forall|i: usize, j: usize|
                overlapping_pair(aabbs@, i as int, j as int) ==> pairs@.contains((i, j)),
            pairs@.no_duplicates(),
            forall|k: int, l: int| 0 <= k <= l < pairs@.len() ==> pairs@[k].0 <= pairs@[l].0,
    {
        broadcast use vstd::seq_lib::group_to_multiset_ensures;

        self.rtree.clear();
        let mut i: usize = 0;
        assert(indexed(aabbs@, 0) =~= Seq::empty());
        while i < aabbs.len()
            invariant
                0 <= i <= aabbs@.len(),
                self.rtree.wf(),
                self.rtree@.to_multiset() == indexed(aabbs@, i as int).to_multiset(),
            decreases aabbs@.len() - i,
        {
            self.rtree.insert(aabbs[i], i);
            proof {
                assert(indexed(aabbs@, i + 1) =~= indexed(aabbs@, i as int).push(
                    (aabbs@[i as int], i),
                ));
                vstd::seq_lib::to_multiset_build(indexed(aabbs@, i as int), (aabbs@[i as int], i));
            }
            i += 1;
        }
        let mut pairs: Vec<(usize, usize)> = Vec::with_capacity(aabbs.len());
        let mut i: usize = 0;
        while i < aabbs.len()
            invariant
                0 <= i <= aabbs@.len(),
                self.rtree.wf(),
                self.rtree@.to_multiset() == indexed(aabbs@, aabbs@.len() as int).to_multiset(),
                forall|k: int|
                    0 <= k < pairs@.len() ==> overlapping_pair(
                        aabbs@,
                        (#[trigger] pairs@[k]).0 as int,
                        pairs@[k].1 as int,
                    ) && pairs@[k].0 < i,
                forall|a: usize, b: usize|
                    overlapping_pair(aabbs@, a as int, b as int) && a < i ==> pairs@.contains(
                        (a, b),
                    ),
                pairs@.no_duplicates(),
                forall|k: int, l: int| 0 <= k <= l < pairs@.len() ==> pairs@[k].0 <= pairs@[l].0,
            decreases aabbs@.len() - i,
        {
            let found = self.rtree.search(&aabbs[i]);
            let ghost hits = payloads(found@);
            let ghost earlier = pairs@;
            proof {
                index_search_is_exact(self.rtree@, aabbs@, aabbs@[i as int]);
            }
            let mut k: usize = 0;
            while k < found.len()
                invariant
                    0 <= k <= found@.len(),
                    0 <= i < aabbs@.len(),
                    hits == payloads(found@),
                    hits.no_duplicates(),
                    forall|j: usize|
                        hits.contains(j) <==> (j < aabbs@.len() && aabbs@[j as int].meets(
                            aabbs@[i as int],
                        )),
                    earlier.len() <= pairs@.len(),
                    forall|p: int| 0 <= p < earlier.len() ==> pairs@[p] == earlier[p],
                    forall|p: int| 0 <= p < earlier.len() ==> (#[trigger] earlier[p]).0 < i,
                    forall|p: int|
                        earlier.len() <= p < pairs@.len() ==> (#[trigger] pairs@[p]).0 == i
                            && exists|m: int| 0 <= m < k && hits[m] == pairs@[p].1,
                    forall|m: int|
                        0 <= m < k && i < #[trigger] hits[m] ==> pairs@.contains((i, hits[m])),
                    forall|p: int|
                        0 <= p < pairs@.len() ==> overlapping_pair(
                            aabbs@,
                            (#[trigger] pairs@[p]).0 as int,
                            pairs@[p].1 as int,
                        ),
                    pairs@.no_duplicates(),
                    forall|p: int, l: int|
                        0 <= p <= l < pairs@.len() ==> pairs@[p].0 <= pairs@[l].0,
                decreases found@.len() - k,
            {
                let j: usize = *found[k];
                assert(j == hits[k as int]);
                if i < j {
                    let ghost held = pairs@;
                    pairs.push((i, j));
                    proof {
                        assert(hits.contains(j));
                        AABB::overlaps_symmetric(aabbs@[i as int], aabbs@[j as int]);
                        assert forall|p: int| 0 <= p < pairs@.len() implies (#[trigger] pairs@[p]).0
                            <= i by {
                            if p < earlier.len() {
                                assert(pairs@[p] == earlier[p]);
                            } else if p < held.len() {
                                assert(held[p].0 == i);
                            }
                        }
                        assert forall|p: int, l: int| 0 <= p <= l < pairs@.len() implies pairs@[p].0
                            <= pairs@[l].0 by {
                            if l < held.len() {
                                assert(held[p].0 <= held[l].0);
                            } else {
                                assert(pairs@[l].0 == i);
                            }
                        }
                        assert forall|m: int| 0 <= m < k + 1 && i < #[trigger] hits[m] implies pairs@.contains(
                            (i, hits[m]),
                        ) by {
                            if m < k {
                                assert(held.contains((i, hits[m])));
                                let p = choose|p: int| 0 <= p < held.len() && held[p] == (i, hits[m]);
                                assert(pairs@[p] == (i, hits[m]));
                            } else {
                                assert(pairs@[held.len() as int] == (i, j));
                            }
                        }
                        assert forall|p: int, l: int|
                            0 <= p < pairs@.len() && 0 <= l < pairs@.len() && p != l implies pairs@[p]
                            != pairs@[l] by {
                            if p < held.len() && l < held.len() {
                                assert(held[p] != held[l]);
                            } else {
                                let other = if p < held.len() {
                                    p
                                } else {
                                    l
                                };
                                if other >= earlier.len() {
                                    assert(pairs@[other].0 == i);
                                    let m = choose|m: int|
                                        0 <= m < k && hits[m] == pairs@[other].1;
                                    assert(hits[m] != hits[k as int]);
                                } else {
                                    assert(pairs@[other] == earlier[other]);
                                }
                            }
                        }
                    }
                }
                k += 1;
            }
            proof {
                assert forall|p: int| 0 <= p < pairs@.len() implies (#[trigger] pairs@[p]).0 < i
                    + 1 by {
                    if p < earlier.len() {
                        assert(pairs@[p] == earlier[p]);
                    }
                }
                assert forall|a: usize, b: usize|
                    overlapping_pair(aabbs@, a as int, b as int) && a < i + 1 implies pairs@.contains(
                    (a, b),
                ) by {
                    if a < i {
                        assert(earlier.contains((a, b)));
                        let p = choose|p: int| 0 <= p < earlier.len() && earlier[p] == (a, b);
                        assert(pairs@[p] == (a, b));
                    } else {
                        AABB::overlaps_symmetric(aabbs@[a as int], aabbs@[b as int]);
                        assert(hits.contains(b));
                        let m = choose|m: int| 0 <= m < hits.len() && hits[m] == b;
                        assert(i < hits[m]);
                    }
                }
            }
            i += 1;
        }
        pairs
    }

    /// Finds pairs of bodies whose boxes overlap by a sweep along the x
    /// axis: the ends of all intervals are sorted, and a body is paired with
    /// each body whose interval is open when its own starts, if their boxes
    /// overlap on the other two axes. Every pair whose boxes overlap, on the
    /// x axis in more than a border, is found.
    pub fn candidate_pairs_1axis(&self, aabbs: &Vec<AABB>) -> (pairs: Vec<(usize, usize)>)
        ensures
            forall|t: int| 0 <= t < pairs@.len() ==> sound_pair(aabbs@, #[trigger] pairs@[t]),
            pairs@.no_duplicates(),
            forall|i: usize, j: usize|
                i < j < aabbs@.len() && overlapping_inside(aabbs@, i as int, j as int)
                    ==> pairs@.contains((i, j)),
    {
        let n = aabbs.len();
        let mut intervals: Vec<Endpoint> = Vec::new();
        let mut i: usize = 0;
        assert(intervals@ =~= endpoints(aabbs@, 0));
        while i < n
            invariant
                0 <= i <= n,
                n == aabbs@.len(),
                intervals@ == endpoints(aabbs@, i as int),
                forall|q: int| 0 <= q < i ==> (#[trigger] aabbs@[q]).lo().x <= aabbs@[q].hi().x,
            decreases n - i,
        {
            intervals.push(Endpoint { body: i, x: aabbs[i].start().x, kind: Interval::Start });
            intervals.push(Endpoint { body: i, x: aabbs[i].end().x, kind: Interval::End });
            proof {
                assert(intervals@ =~= endpoints(aabbs@, i + 1));
            }
            i += 1;
        }
        sort_by_x(&mut intervals);
        let mut open: Vec<usize> = Vec::new();
        let mut pairs: Vec<(usize, usize)> = Vec::new();
        let mut k: usize = 0;
        while k < intervals.len()
            invariant
                0 <= k <= intervals@.len(),
                sweep_state(aabbs@, intervals@, k as int, open@, pairs@),
            decreases intervals@.len() - k,
        {
            match intervals[k].kind {
                Interval::Start => {
                    sweep_start(aabbs, &intervals, k, &mut open, &mut pairs);
                },
                Interval::End => {
                    let ghost was_open = open@;
                    close_interval(&mut open, intervals[k].body);
                    proof {
                        sweep_end_step(aabbs@, intervals@, k as int, was_open, open@, pairs@);
                    }
                },
            }
            k += 1;
        }
        proof {
            sweep_is_complete(aabbs@, intervals@, open@, pairs@);
        }
        pairs
    }
}

} // verus!
