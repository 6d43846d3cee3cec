use crate::aabb::AABB;
use vstd::multiset::Multiset;
use vstd::prelude::*;

verus! {

/// The largest number of children or entries that a node holds.
pub const NODE_MAX_CHILDREN: usize = 16;

/// A spatial index: a tree of nested bounding boxes whose leaves hold
/// entries, each a box with a payload.
#[derive(Debug)]
pub struct RTree<T> {
    root: Option<Node<T>>,
}

#[derive(Debug)]
struct Node<T> {
    aabb: AABB,
    entry: Entry<T>,
}

#[derive(Debug)]
struct Leaf<T> {
    aabb: AABB,
    data: T,
}

#[derive(Debug)]
enum Entry<T> {
    Nodes(Vec<Node<T>>),
    Leaves(Vec<Leaf<T>>),
}

/// The payloads of those entries whose box overlaps `q`, in the order of
/// `entries`.
pub open spec fn matching<T>(entries: Seq<(AABB, T)>, q: AABB) -> Seq<T>
    decreases entries.len(),
{
    if entries.len() == 0 {
        Seq::empty()
    } else if entries.last().0.meets(q) {
        matching(entries.drop_last(), q).push(entries.last().1)
    } else {
        matching(entries.drop_last(), q)
    }
}

/// The values that a sequence of references points to.
pub open spec fn payloads<T>(refs: Seq<&T>) -> Seq<T> {
    refs.map_values(|r: &T| *r)
}

/// `matching` of a concatenation is the concatenation of the two results.
pub proof fn matching_concat<T>(a: Seq<(AABB, T)>, b: Seq<(AABB, T)>, q: AABB)
    ensures
        matching(a + b, q) == matching(a, q) + matching(b, q),
    decreases b.len(),
{
    if b.len() == 0 {
        assert(a + b =~= a);
        assert(matching(a, q) + matching(b, q) =~= matching(a, q));
    } else {
        matching_concat(a, b.drop_last(), q);
        assert((a + b).drop_last() =~= a + b.drop_last());
        assert((a + b).last() == b.last());
        if b.last().0.meets(q) {
            assert(matching(a, q) + matching(b.drop_last(), q).push(b.last().1) =~= (matching(a, q)
                + matching(b.drop_last(), q)).push(b.last().1));
        }
    }
}

/// What one entry adds to a search for `q`.
pub open spec fn match_of<T>(entry: (AABB, T), q: AABB) -> Multiset<T> {
    if entry.0.meets(q) {
        Multiset::singleton(entry.1)
    } else {
        Multiset::empty()
    }
}

/// Taking one entry away takes away what it adds to a search.
pub proof fn matching_remove<T>(entries: Seq<(AABB, T)>, i: int, q: AABB)
    requires
        0 <= i < entries.len(),
    ensures
        matching(entries, q).to_multiset() =~= matching(entries.remove(i), q).to_multiset().add(
            match_of(entries[i], q),
        ),
{
    broadcast use vstd::multiset::group_multiset_axioms;
    broadcast use vstd::seq_lib::group_to_multiset_ensures;

    let front = entries.take(i);
    let one = Seq::<(AABB, T)>::empty().push(entries[i]);
    let back = entries.skip(i + 1);
    assert(entries =~= front + one + back);
    assert(entries.remove(i) =~= front + back);
    matching_concat(front, one, q);
    matching_concat(front + one, back, q);
    matching_concat(front, back, q);
    assert(one.drop_last() =~= Seq::empty());
    assert(matching(Seq::<(AABB, T)>::empty(), q) =~= Seq::empty());
    assert(matching(one, q).to_multiset() =~= match_of(entries[i], q)) by {
        if entries[i].0.meets(q) {
            assert(matching(one, q) =~= Seq::<T>::empty().push(entries[i].1));
        }
    }
    vstd::seq_lib::lemma_multiset_commutative(matching(front, q), matching(one, q));
    vstd::seq_lib::lemma_multiset_commutative(
        matching(front, q) + matching(one, q),
        matching(back, q),
    );
    vstd::seq_lib::lemma_multiset_commutative(matching(front, q), matching(back, q));
}

/// A search finds the same payloads, each as often, in any two sequences
/// that hold the same entries.
pub proof fn matching_permutation<T>(a: Seq<(AABB, T)>, b: Seq<(AABB, T)>, q: AABB)
    requires
        a.to_multiset() == b.to_multiset(),
    ensures
        matching(a, q).to_multiset() == matching(b, q).to_multiset(),
    decreases a.len(),
{
    broadcast use vstd::multiset::group_multiset_axioms;
    broadcast use vstd::seq_lib::group_to_multiset_ensures;

    assert(a.to_multiset().len() == a.len());
    assert(b.to_multiset().len() == b.len());
    if a.len() == 0 {
        assert(a =~= b);
    } else {
        let x = a.last();
        assert(a.contains(x));
        assert(b.to_multiset().count(x) > 0);
        assert(b.contains(x));
        let i = choose|i: int| 0 <= i < b.len() && b[i] == x;
        assert(a.drop_last() =~= a.remove(a.len() - 1));
        assert(a.drop_last().to_multiset() =~= b.remove(i).to_multiset());
        matching_permutation(a.drop_last(), b.remove(i), q);
        matching_remove(b, i, q);
        matching_remove(a, a.len() - 1, q);
        assert(matching(a, q).to_multiset() =~= matching(b, q).to_multiset());
    }
}

/// Whatever the shape of the tree, a search in a tree that holds `entries`
/// finds the payload of every entry whose box overlaps the query, and finds
/// nothing but payloads of such entries.
pub proof fn search_is_sound_and_complete<T>(
    tree: Seq<(AABB, T)>,
    entries: Seq<(AABB, T)>,
    q: AABB,
)
    requires
        tree.to_multiset() == entries.to_multiset(),
    ensures
        forall|k: int|
            0 <= k < entries.len() && (#[trigger] entries[k]).0.meets(q) ==> matching(
                tree,
                q,
            ).contains(entries[k].1),
        forall|d: T|
            matching(tree, q).contains(d) ==> exists|k: int|
                0 <= k < entries.len() && (#[trigger] entries[k]).0.meets(q) && entries[k].1 == d,
        matching(tree, q).len() <= entries.len(),
{
    broadcast use vstd::seq_lib::group_to_multiset_ensures;

    matching_permutation(tree, entries, q);
    matching_members(entries, q);
    let found = matching(tree, q);
    let model = matching(entries, q);
    assert(found.len() == found.to_multiset().len());
    assert(model.len() == model.to_multiset().len());
    assert forall|k: int| 0 <= k < entries.len() && (#[trigger] entries[k]).0.meets(
        q,
    ) implies found.contains(entries[k].1) by {
        assert(model.contains(entries[k].1));
        assert(model.to_multiset().count(entries[k].1) > 0);
    }
    assert forall|d: T| found.contains(d) implies exists|k: int|
        0 <= k < entries.len() && (#[trigger] entries[k]).0.meets(q) && entries[k].1 == d by {
        assert(found.to_multiset().count(d) > 0);
        assert(model.contains(d));
    }
}

/// `matching` holds the payload of each entry that overlaps the query, and
/// only such payloads; it is no longer than the entries.
pub proof fn matching_members<T>(entries: Seq<(AABB, T)>, q: AABB)
    ensures
        matching(entries, q).len() <= entries.len(),
        forall|k: int|
            0 <= k < entries.len() && (#[trigger] entries[k]).0.meets(q) ==> matching(
                entries,
                q,
            ).contains(entries[k].1),
        forall|d: T|
            matching(entries, q).contains(d) ==> exists|k: int|
                0 <= k < entries.len() && (#[trigger] entries[k]).0.meets(q) && entries[k].1 == d,
    decreases entries.len(),
{
    if entries.len() > 0 {
        let rest = entries.drop_last();
        let last = entries.last();
        let found = matching(entries, q);
        let before = matching(rest, q);
        matching_members(rest, q);
        assert forall|k: int| 0 <= k < entries.len() && (#[trigger] entries[k]).0.meets(
            q,
        ) implies found.contains(entries[k].1) by {
            if k < rest.len() {
                assert(rest[k] == entries[k]);
                assert(before.contains(entries[k].1));
                let m = choose|m: int| 0 <= m < before.len() && before[m] == entries[k].1;
                assert(found[m] == entries[k].1);
            } else {
                assert(found[found.len() - 1] == last.1);
            }
        }
        assert forall|d: T| found.contains(d) implies exists|k: int|
            0 <= k < entries.len() && (#[trigger] entries[k]).0.meets(q) && entries[k].1 == d by {
            let m = choose|m: int| 0 <= m < found.len() && found[m] == d;
            if m < before.len() {
                assert(before[m] == d);
                assert(before.contains(d));
                let k = choose|k: int|
                    0 <= k < rest.len() && (#[trigger] rest[k]).0.meets(q) && rest[k].1 == d;
                assert(entries[k] == rest[k]);
            } else {
                assert(entries[entries.len() - 1] == last);
            }
        }
    }
}

/// Entries that overlap nothing of `q` contribute nothing.
proof fn matching_none<T>(entries: Seq<(AABB, T)>, q: AABB)
    requires
        forall|i: int| 0 <= i < entries.len() ==> !(#[trigger] entries[i]).0.meets(q),
    ensures
        matching(entries, q) == Seq::<T>::empty(),
    decreases entries.len(),
{
    if entries.len() > 0 {
        assert(entries.drop_last() =~= entries.subrange(0, entries.len() - 1));
        assert forall|i: int| 0 <= i < entries.drop_last().len() implies !(
        #[trigger] entries.drop_last()[i]).0.meets(q) by {
            assert(entries.drop_last()[i] == entries[i]);
        }
        matching_none(entries.drop_last(), q);
        assert(entries.last() == entries[entries.len() - 1]);
    }
}

/// The boxes that a sequence of references points to.
pub open spec fn boxes_of(refs: Seq<&AABB>) -> Seq<AABB> {
    refs.map_values(|r: &AABB| *r)
}

spec fn leaf_boxes<T>(leaves: Seq<Leaf<T>>) -> Seq<AABB> {
    leaves.map_values(|l: Leaf<T>| l.aabb)
}

spec fn nodes_boxes<T>(nodes: Seq<Node<T>>) -> Seq<AABB>
    decreases nodes,
{
    if nodes.len() == 0 {
        Seq::empty()
    } else {
        nodes_boxes(nodes.drop_last()) + nodes.last().boxes()
    }
}

spec fn leaf_entries<T>(leaves: Seq<Leaf<T>>) -> Seq<(AABB, T)> {
    leaves.map_values(|l: Leaf<T>| (l.aabb, l.data))
}

spec fn nodes_entries<T>(nodes: Seq<Node<T>>) -> Seq<(AABB, T)>
    decreases nodes,
{
    if nodes.len() == 0 {
        Seq::empty()
    } else {
        nodes_entries(nodes.drop_last()) + nodes.last().entries()
    }
}

/// What a node has in common with a leaf entry: a box, and the entries that
/// it stands for.
trait HasAABB<T> {
    spec fn bounds(&self) -> AABB;

    spec fn items(&self) -> Multiset<(AABB, T)>;

    fn aabb(&self) -> (r: &AABB)
        ensures
            *r == self.bounds(),
    ;
}

impl<T> HasAABB<T> for Node<T> {
    closed spec fn bounds(&self) -> AABB {
        self.aabb
    }

    closed spec fn items(&self) -> Multiset<(AABB, T)> {
        self.entries().to_multiset()
    }

    fn aabb(&self) -> (r: &AABB) {
        &self.aabb
    }
}

impl<T> HasAABB<T> for Leaf<T> {
    closed spec fn bounds(&self) -> AABB {
        self.aabb
    }

    closed spec fn items(&self) -> Multiset<(AABB, T)> {
        Multiset::singleton((self.aabb, self.data))
    }

    fn aabb(&self) -> (r: &AABB) {
        &self.aabb
    }
}

/// All entries that the members of `s` stand for.
spec fn total<T, N: HasAABB<T>>(s: Seq<N>) -> Multiset<(AABB, T)>
    decreases s.len(),
{
    if s.len() == 0 {
        Multiset::empty()
    } else {
        total::<T, N>(s.drop_last()).add(s.last().items())
    }
}

/// The smallest box around the boxes of all members of a non-empty `s`.
spec fn hull_of<T, N: HasAABB<T>>(s: Seq<N>) -> AABB
    decreases s.len(),
{
    if s.len() <= 1 {
        s[0].bounds()
    } else {
        hull_of::<T, N>(s.drop_last()).merged(s.last().bounds())
    }
}

proof fn hull_encloses_members<T, N: HasAABB<T>>(s: Seq<N>)
    requires
        s.len() >= 1,
    ensures
        forall|i: int| 0 <= i < s.len() ==> hull_of::<T, N>(s).encloses((#[trigger] s[i]).bounds()),
    decreases s.len(),
{
    if s.len() > 1 {
        let rest = s.drop_last();
        hull_encloses_members::<T, N>(rest);
        assert forall|i: int| 0 <= i < s.len() implies hull_of::<T, N>(s).encloses(
            (#[trigger] s[i]).bounds(),
        ) by {
            AABB::merge_is_least_enclosing(hull_of::<T, N>(rest), s.last().bounds(), s[i].bounds());
            if i < rest.len() {
                assert(rest[i] == s[i]);
                AABB::encloses_transitive(
                    hull_of::<T, N>(s),
                    hull_of::<T, N>(rest),
                    s[i].bounds(),
                );
            }
        }
    } else {
        AABB::merge_is_least_enclosing(s[0].bounds(), s[0].bounds(), s[0].bounds());
        AABB::merge_commutative(s[0].bounds(), s[0].bounds());
        assert(s[0].bounds().encloses(s[0].bounds())) by {
            AABB::encloses_reflexive(s[0].bounds());
        }
    }
}

proof fn hull_is_least<T, N: HasAABB<T>>(s: Seq<N>, outer: AABB)
    requires
        s.len() >= 1,
        forall|i: int| 0 <= i < s.len() ==> outer.encloses((#[trigger] s[i]).bounds()),
    ensures
        outer.encloses(hull_of::<T, N>(s)),
    decreases s.len(),
{
    if s.len() > 1 {
        let rest = s.drop_last();
        assert forall|i: int| 0 <= i < rest.len() implies outer.encloses(
            (#[trigger] rest[i]).bounds(),
        ) by {
            assert(rest[i] == s[i]);
        }
        hull_is_least::<T, N>(rest, outer);
        assert(s.last() == s[s.len() - 1]);
        AABB::merge_is_least_enclosing(hull_of::<T, N>(rest), s.last().bounds(), outer);
    }
}

/// A box that encloses every member and lies in the hull is the hull.
proof fn hull_characterized<T, N: HasAABB<T>>(s: Seq<N>, h: AABB)
    requires
        s.len() >= 1,
        forall|i: int| 0 <= i < s.len() ==> h.encloses((#[trigger] s[i]).bounds()),
        hull_of::<T, N>(s).encloses(h),
    ensures
        h == hull_of::<T, N>(s),
{
    hull_is_least::<T, N>(s, h);
    AABB::encloses_antisymmetric(h, hull_of::<T, N>(s));
}

/// When members grow or join so that all of them stay within the old hull
/// merged with `x`, while the old members and `x` stay covered, the new hull
/// is the old one merged with `x`.
proof fn hull_after_growth<T, N: HasAABB<T>>(kids: Seq<N>, now: Seq<N>, x: AABB)
    requires
        kids.len() >= 1,
        now.len() >= 1,
        forall|k: int|
            0 <= k < now.len() ==> hull_of::<T, N>(kids).merged(x).encloses(
                (#[trigger] now[k]).bounds(),
            ),
        forall|k: int|
            0 <= k < kids.len() ==> hull_of::<T, N>(now).encloses((#[trigger] kids[k]).bounds()),
        hull_of::<T, N>(now).encloses(x),
    ensures
        hull_of::<T, N>(now) == hull_of::<T, N>(kids).merged(x),
{
    hull_is_least::<T, N>(kids, hull_of::<T, N>(now));
    AABB::merge_is_least_enclosing(hull_of::<T, N>(kids), x, hull_of::<T, N>(now));
    hull_characterized::<T, N>(now, hull_of::<T, N>(kids).merged(x));
}

/// Two groups that together hold the members of `all`, and nothing else,
/// have hulls that merge to the hull of `all`.
proof fn hull_of_two_groups<T, N: HasAABB<T>>(all: Seq<N>, g1: Seq<N>, g2: Seq<N>)
    requires
        g1.len() >= 1,
        g2.len() >= 1,
        all.len() >= 1,
        forall|k: int| 0 <= k < g1.len() ==> all.contains(#[trigger] g1[k]),
        forall|k: int| 0 <= k < g2.len() ==> all.contains(#[trigger] g2[k]),
        forall|k: int| 0 <= k < all.len() ==> g1.contains(#[trigger] all[k]) || g2.contains(all[k]),
    ensures
        hull_of::<T, N>(g1).merged(hull_of::<T, N>(g2)) == hull_of::<T, N>(all),
{
    let h1 = hull_of::<T, N>(g1);
    let h2 = hull_of::<T, N>(g2);
    let whole = hull_of::<T, N>(all);
    hull_encloses_members::<T, N>(g1);
    hull_encloses_members::<T, N>(g2);
    hull_encloses_members::<T, N>(all);
    AABB::merge_is_least_enclosing(h1, h2, whole);
    assert forall|k: int| 0 <= k < all.len() implies h1.merged(h2).encloses(
        (#[trigger] all[k]).bounds(),
    ) by {
        if g1.contains(all[k]) {
            let j = choose|j: int| 0 <= j < g1.len() && g1[j] == all[k];
            AABB::encloses_transitive(h1.merged(h2), h1, g1[j].bounds());
        } else {
            let j = choose|j: int| 0 <= j < g2.len() && g2[j] == all[k];
            AABB::encloses_transitive(h1.merged(h2), h2, g2[j].bounds());
        }
    }
    assert forall|k: int| 0 <= k < g1.len() implies whole.encloses((#[trigger] g1[k]).bounds()) by {
        let j = choose|j: int| 0 <= j < all.len() && all[j] == g1[k];
        assert(whole.encloses(all[j].bounds()));
    }
    assert forall|k: int| 0 <= k < g2.len() implies whole.encloses((#[trigger] g2[k]).bounds()) by {
        let j = choose|j: int| 0 <= j < all.len() && all[j] == g2[k];
        assert(whole.encloses(all[j].bounds()));
    }
    hull_is_least::<T, N>(g1, whole);
    hull_is_least::<T, N>(g2, whole);
    hull_characterized::<T, N>(all, h1.merged(h2));
}

proof fn total_remove<T, N: HasAABB<T>>(s: Seq<N>, i: int)
    requires
        0 <= i < s.len(),
    ensures
        total::<T, N>(s) =~= total::<T, N>(s.remove(i)).add(s[i].items()),
    decreases s.len(),
{
    if i == s.len() - 1 {
        assert(s.remove(i) =~= s.drop_last());
    } else {
        total_remove::<T, N>(s.drop_last(), i);
        assert(s.remove(i).drop_last() =~= s.drop_last().remove(i));
        assert(s.remove(i).last() == s.last());
    }
}

proof fn total_update<T, N: HasAABB<T>>(s: Seq<N>, i: int, n: N)
    requires
        0 <= i < s.len(),
    ensures
        total::<T, N>(s.update(i, n)).add(s[i].items()) =~= total::<T, N>(s).add(n.items()),
    decreases s.len(),
{
    broadcast use vstd::multiset::group_multiset_axioms;

    let rest = s.drop_last();
    let t = s.update(i, n);
    if i == s.len() - 1 {
        assert(t.drop_last() =~= rest);
        assert(t.last() == n);
        assert(s.last() == s[i]);
        assert(total::<T, N>(t) == total::<T, N>(rest).add(n.items()));
        assert(total::<T, N>(s) == total::<T, N>(rest).add(s[i].items()));
        assert(total::<T, N>(t).add(s[i].items()) =~= total::<T, N>(s).add(n.items()));
    } else {
        total_update::<T, N>(rest, i, n);
        assert(t.drop_last() =~= rest.update(i, n));
        assert(t.last() == s.last());
        assert(rest[i] == s[i]);
        assert(total::<T, N>(t) == total::<T, N>(rest.update(i, n)).add(s.last().items()));
        assert(total::<T, N>(s) == total::<T, N>(rest).add(s.last().items()));
        let x = total::<T, N>(rest.update(i, n));
        let r = total::<T, N>(rest);
        assert forall|v: (AABB, T)|
            total::<T, N>(t).add(s[i].items()).count(v) == total::<T, N>(s).add(n.items()).count(
                v,
            ) by {
            assert(x.add(rest[i].items()).count(v) == r.add(n.items()).count(v));
        }
    }
}

proof fn total_swap_remove<T, N: HasAABB<T>>(s: Seq<N>, i: int)
    requires
        0 <= i < s.len(),
    ensures
        total::<T, N>(s) =~= total::<T, N>(s.update(i, s.last()).drop_last()).add(s[i].items()),
{
    if i == s.len() - 1 {
        assert(s.update(i, s.last()).drop_last() =~= s.drop_last());
    } else {
        let rest = s.drop_last();
        total_update::<T, N>(rest, i, s.last());
        assert(s.update(i, s.last()).drop_last() =~= rest.update(i, s.last()));
        assert(rest[i] == s[i]);
    }
}

proof fn leaf_entries_total<T>(leaves: Seq<Leaf<T>>)
    ensures
        leaf_entries(leaves).to_multiset() =~= total::<T, Leaf<T>>(leaves),
    decreases leaves.len(),
{
    broadcast use vstd::seq_lib::group_to_multiset_ensures;

    if leaves.len() == 0 {
        assert(leaf_entries(leaves) =~= Seq::empty());
    } else {
        leaf_entries_total(leaves.drop_last());
        let last = leaves.last();
        assert(leaf_entries(leaves) =~= leaf_entries(leaves.drop_last()).push(
            (last.aabb, last.data),
        ));
    }
}

proof fn nodes_entries_total<T>(nodes: Seq<Node<T>>)
    ensures
        nodes_entries(nodes).to_multiset() =~= total::<T, Node<T>>(nodes),
    decreases nodes.len(),
{
    broadcast use vstd::seq_lib::group_to_multiset_ensures;

    if nodes.len() == 0 {
    } else {
        nodes_entries_total(nodes.drop_last());
        vstd::seq_lib::lemma_multiset_commutative(
            nodes_entries(nodes.drop_last()),
            nodes.last().entries(),
        );
    }
}


/// `best` is the index of the node whose box grows least when `aabb` is
/// merged into it; of several such nodes, the first.
spec fn is_best_match<T>(nodes: Seq<Node<T>>, aabb: AABB, best: int) -> bool {
    &&& 0 <= best < nodes.len()
    &&& forall|j: int|
        0 <= j < nodes.len() ==> nodes[best].aabb.growth_by(aabb) <= (
        #[trigger] nodes[j]).aabb.growth_by(aabb)
    &&& forall|j: int|
        0 <= j < best ==> nodes[best].aabb.growth_by(aabb) < (#[trigger] nodes[j]).aabb.growth_by(
            aabb,
        )
}

/// The index of the node whose box grows least when `aabb` is merged into
/// it; of several such nodes, the first.
fn find_best_match<T>(nodes: &Vec<Node<T>>, aabb: &AABB) -> (best: usize)
    requires
        nodes@.len() >= 1,
    ensures
        is_best_match(nodes@, *aabb, best as int),
{
    let mut best: usize = 0;
    let mut least: u128 = nodes[0].aabb.growth(aabb);
    let mut i: usize = 1;
    while i < nodes.len()
        invariant
            1 <= i <= nodes@.len(),
            best < i,
            least == nodes@[best as int].aabb.growth_by(*aabb),
            forall|j: int|
                0 <= j < i ==> least <= (#[trigger] nodes@[j]).aabb.growth_by(*aabb),
            forall|j: int|
                0 <= j < best ==> least < (#[trigger] nodes@[j]).aabb.growth_by(*aabb),
        decreases nodes@.len() - i,
    {
        let g: u128 = nodes[i].aabb.growth(aabb);
        if g < least {
            best = i;
            least = g;
        }
        i += 1;
    }
    best
}

/// The volume of the box around members `i` and `j`.
spec fn pair_size<T, N: HasAABB<T>>(s: Seq<N>, i: int, j: int) -> int {
    s[i].bounds().merged(s[j].bounds()).volume()
}

/// `(i, j)` is the pair of members whose common box is largest; of several
/// such pairs, the one that comes last when pairs are listed by `i`, then `j`.
spec fn is_seed_pair<T, N: HasAABB<T>>(s: Seq<N>, i: int, j: int) -> bool {
    &&& 0 <= i < j < s.len()
    &&& forall|a: int, b: int|
        0 <= a < b < s.len() ==> #[trigger] pair_size::<T, N>(s, a, b) <= pair_size::<T, N>(s, i, j)
    &&& forall|a: int, b: int|
        0 <= a < b < s.len() && (i < a || (i == a && j < b)) ==> #[trigger] pair_size::<T, N>(
            s,
            a,
            b,
        ) < pair_size::<T, N>(s, i, j)
}

/// Finds the two members that are worst to keep together.
fn pick_seeds<T, N: HasAABB<T>>(nodes: &Vec<N>) -> (seeds: (usize, usize))
    requires
        nodes@.len() >= 2,
    ensures
        is_seed_pair::<T, N>(nodes@, seeds.0 as int, seeds.1 as int),
{
    let mut seed1: usize = 0;
    let mut seed2: usize = 1;
    let mut largest: u128 = nodes[0].aabb().merge(nodes[1].aabb()).size();
    let mut i: usize = 0;
    while i < nodes.len()
        invariant
            0 <= i <= nodes@.len(),
            nodes@.len() >= 2,
            0 <= seed1 < seed2 < nodes@.len(),
            largest == pair_size::<T, N>(nodes@, seed1 as int, seed2 as int),
            forall|a: int, b: int|
                0 <= a < b < nodes@.len() && a < i ==> #[trigger] pair_size::<T, N>(nodes@, a, b)
                    <= largest,
            forall|a: int, b: int|
                0 <= a < b < nodes@.len() && a < i && (seed1 < a || (seed1 == a && seed2 < b))
                    ==> #[trigger] pair_size::<T, N>(nodes@, a, b) < largest,
            i > 0 || (seed1 == 0 && seed2 == 1),
            seed1 < i || i == 0,
        decreases nodes@.len() - i,
    {
        let mut j: usize = i + 1;
        while j < nodes.len()
            invariant
                0 <= i < nodes@.len(),
                i < j <= nodes@.len(),
                nodes@.len() >= 2,
                0 <= seed1 < seed2 < nodes@.len(),
                largest == pair_size::<T, N>(nodes@, seed1 as int, seed2 as int),
                forall|a: int, b: int|
                    0 <= a < b < nodes@.len() && (a < i || (a == i && b < j))
                        ==> #[trigger] pair_size::<T, N>(nodes@, a, b) <= largest,
                forall|a: int, b: int|
                    0 <= a < b < nodes@.len() && (a < i || (a == i && b < j)) && (seed1 < a || (
                    seed1 == a && seed2 < b)) ==> #[trigger] pair_size::<T, N>(nodes@, a, b)
                        < largest,
                (i == 0 && j == 1) ==> (seed1 == 0 && seed2 == 1),
                seed1 < i || (seed1 == i && seed2 < j) || (i == 0 && j == 1),
            decreases nodes@.len() - j,
        {
            let size: u128 = nodes[i].aabb().merge(nodes[j].aabb()).size();
            if size >= largest {
                largest = size;
                seed1 = i;
                seed2 = j;
            }
            j += 1;
        }
        i += 1;
    }
    (seed1, seed2)
}

/// `s` without member `i`, whose place the last member takes.
spec fn taken_out<N>(s: Seq<N>, i: int) -> Seq<N> {
    s.update(i, s.last()).drop_last()
}

/// The two groups once each member of `rest` has joined, in turn, the group
/// whose box it enlarges less; where both grow alike, the second.
spec fn distributed<T, N: HasAABB<T>>(rest: Seq<N>, first: Seq<N>, second: Seq<N>) -> (Seq<N>, Seq<N>)
    decreases rest.len(),
{
    if rest.len() == 0 {
        (first, second)
    } else if hull_of::<T, N>(first).growth_by(rest[0].bounds()) < hull_of::<T, N>(
        second,
    ).growth_by(rest[0].bounds()) {
        distributed::<T, N>(rest.remove(0), first.push(rest[0]), second)
    } else {
        distributed::<T, N>(rest.remove(0), first, second.push(rest[0]))
    }
}

/// The two groups that `all` is split into: the two members that are worst
/// to keep together seed them, and the others are distributed in turn.
spec fn is_split<T, N: HasAABB<T>>(all: Seq<N>, first: Seq<N>, second: Seq<N>) -> bool {
    exists|i: int, j: int| #[trigger]
        is_seed_pair::<T, N>(all, i, j) && (first, second) == distributed::<T, N>(
            taken_out(taken_out(all, j), i),
            seq![all[i]],
            seq![all[j]],
        )
}

/// How a node settles once `members` have been put into it: it keeps them
/// all under the box `grown`, or, if they are more than
/// `NODE_MAX_CHILDREN`, it keeps the first group of the split and hands the
/// second to a new sibling, each under the merge of its boxes.
spec fn settles<T, N: HasAABB<T>>(
    members: Seq<N>,
    grown: AABB,
    kept: Seq<N>,
    kept_box: AABB,
    sibling: Option<(AABB, Seq<N>)>,
) -> bool {
    if members.len() > NODE_MAX_CHILDREN {
        match sibling {
            Some((sibling_box, handed)) => {
                &&& is_split::<T, N>(members, kept, handed)
                &&& kept_box == hull_of::<T, N>(kept)
                &&& sibling_box == hull_of::<T, N>(handed)
            },
            None => false,
        }
    } else {
        sibling is None && kept == members && kept_box == grown
    }
}

/// Drains the nodes into two groups, each with the box around it: the two
/// members that are worst to keep together seed the groups, and each other
/// member joins the group whose box it enlarges less.
fn split<T, N: HasAABB<T>>(nodes: &mut Vec<N>) -> (groups: ((AABB, Vec<N>), (AABB, Vec<N>)))
    requires
        old(nodes)@.len() >= 2,
    ensures
        final(nodes)@.len() == 0,
        groups.0.1@.len() >= 1,
        groups.1.1@.len() >= 1,
        groups.0.1@.len() + groups.1.1@.len() == old(nodes)@.len(),
        groups.0.0 == hull_of::<T, N>(groups.0.1@),
        groups.1.0 == hull_of::<T, N>(groups.1.1@),
        groups.0.0.merged(groups.1.0) == hull_of::<T, N>(old(nodes)@),
        total::<T, N>(groups.0.1@).add(total::<T, N>(groups.1.1@)) =~= total::<T, N>(old(nodes)@),
        forall|k: int| 0 <= k < groups.0.1@.len() ==> old(nodes)@.contains(#[trigger] groups.0.1@[k]),
        forall|k: int| 0 <= k < groups.1.1@.len() ==> old(nodes)@.contains(#[trigger] groups.1.1@[k]),
        is_split::<T, N>(old(nodes)@, groups.0.1@, groups.1.1@),
{
    broadcast use vstd::multiset::group_multiset_axioms;

    let ghost all = nodes@;
    let (seed1, seed2) = pick_seeds::<T, N>(nodes);
    let second = nodes.swap_remove(seed2);
    let ghost after_second = nodes@;
    let first = nodes.swap_remove(seed1);
    proof {
        total_swap_remove::<T, N>(all, seed2 as int);
        total_swap_remove::<T, N>(after_second, seed1 as int);
        assert(first == all[seed1 as int]);
        assert(second == all[seed2 as int]);
        assert forall|k: int| 0 <= k < nodes@.len() implies all.contains(#[trigger] nodes@[k]) by {
            let via = if k == seed1 as int {
                after_second.len() - 1
            } else {
                k
            };
            assert(nodes@[k] == after_second[via]);
            let origin = if via == seed2 as int {
                all.len() - 1
            } else {
                via
            };
            assert(after_second[via] == all[origin]);
        }
        assert forall|k: int| 0 <= k < all.len() implies #[trigger] all[k] == first || all[k]
            == second || nodes@.contains(all[k]) by {
            if k != seed2 as int {
                let via = if k == all.len() - 1 {
                    seed2 as int
                } else {
                    k
                };
                assert(after_second[via] == all[k]);
                if via != seed1 as int {
                    let to = if via == after_second.len() - 1 {
                        seed1 as int
                    } else {
                        via
                    };
                    assert(nodes@[to] == all[k]);
                }
            }
        }
    }
    let mut aabb1 = *first.aabb();
    let mut aabb2 = *second.aabb();
    let mut nodes1: Vec<N> = Vec::new();
    nodes1.push(first);
    let mut nodes2: Vec<N> = Vec::new();
    nodes2.push(second);
    proof {
        assert(nodes1@.drop_last() =~= Seq::empty());
        assert(nodes2@.drop_last() =~= Seq::empty());
        assert(total::<T, N>(Seq::<N>::empty()) =~= Multiset::empty());
        assert(nodes1@.last() == first);
        assert(nodes2@.last() == second);
        assert(total::<T, N>(nodes1@) =~= first.items());
        assert(total::<T, N>(nodes2@) =~= second.items());
        assert(nodes1@[0] == first);
        assert(nodes2@[0] == second);
        assert(nodes1@ =~= seq![all[seed1 as int]]);
        assert(nodes2@ =~= seq![all[seed2 as int]]);
        assert(nodes@ == taken_out(taken_out(all, seed2 as int), seed1 as int));
        assert forall|k: int| 0 <= k < all.len() implies nodes1@.contains(#[trigger] all[k])
            || nodes2@.contains(all[k]) || nodes@.contains(all[k]) by {
            if all[k] == first {
                assert(nodes1@.contains(all[k]));
            } else if all[k] == second {
                assert(nodes2@.contains(all[k]));
            }
        }
    }
    while nodes.len() > 0
        invariant
            nodes1@.len() >= 1,
            nodes2@.len() >= 1,
            nodes1@.len() + nodes2@.len() + nodes@.len() == all.len(),
            aabb1 == hull_of::<T, N>(nodes1@),
            aabb2 == hull_of::<T, N>(nodes2@),
            total::<T, N>(nodes1@).add(total::<T, N>(nodes2@)).add(total::<T, N>(nodes@))
                =~= total::<T, N>(all),
            forall|k: int| 0 <= k < nodes@.len() ==> all.contains(#[trigger] nodes@[k]),
            forall|k: int| 0 <= k < nodes1@.len() ==> all.contains(#[trigger] nodes1@[k]),
            forall|k: int| 0 <= k < nodes2@.len() ==> all.contains(#[trigger] nodes2@[k]),
            forall|k: int|
                0 <= k < all.len() ==> nodes1@.contains(#[trigger] all[k]) || nodes2@.contains(
                    all[k],
                ) || nodes@.contains(all[k]),
            all.len() >= 2,
            distributed::<T, N>(nodes@, nodes1@, nodes2@) == distributed::<T, N>(
                taken_out(taken_out(all, seed2 as int), seed1 as int),
                seq![all[seed1 as int]],
                seq![all[seed2 as int]],
            ),
            is_seed_pair::<T, N>(all, seed1 as int, seed2 as int),
            seed1 < seed2 < all.len(),
            nodes1@[0] == all[seed1 as int],
            nodes2@[0] == all[seed2 as int],
        decreases nodes@.len(),
    {
        let ghost rest = nodes@;
        let ghost held1 = nodes1@;
        let ghost held2 = nodes2@;
        let node = nodes.remove(0);
        proof {
            total_remove::<T, N>(rest, 0);
            assert(node == rest[0]);
            assert forall|k: int| 0 <= k < nodes@.len() implies all.contains(
                #[trigger] nodes@[k],
            ) by {
                assert(nodes@[k] == rest[k + 1]);
            }
        }
        let new_aabb1 = aabb1.merge(node.aabb());
        let new_aabb2 = aabb2.merge(node.aabb());
        let diff1 = aabb1.growth(node.aabb());
        let diff2 = aabb2.growth(node.aabb());
        if diff1 < diff2 {
            nodes1.push(node);
            aabb1 = new_aabb1;
            proof {
                assert(nodes1@.drop_last() =~= held1);
            }
        } else {
            nodes2.push(node);
            aabb2 = new_aabb2;
            proof {
                assert(nodes2@.drop_last() =~= held2);
            }
        }
        proof {
            assert forall|k: int| 0 <= k < all.len() implies nodes1@.contains(#[trigger] all[k])
                || nodes2@.contains(all[k]) || nodes@.contains(all[k]) by {
                if held1.contains(all[k]) {
                    let j = choose|j: int| 0 <= j < held1.len() && held1[j] == all[k];
                    assert(nodes1@[j] == all[k]);
                } else if held2.contains(all[k]) {
                    let j = choose|j: int| 0 <= j < held2.len() && held2[j] == all[k];
                    assert(nodes2@[j] == all[k]);
                } else {
                    let j = choose|j: int| 0 <= j < rest.len() && rest[j] == all[k];
                    if j == 0 {
                        assert(nodes1@.last() == node || nodes2@.last() == node);
                        assert(nodes1@[nodes1@.len() - 1] == nodes1@.last());
                        assert(nodes2@[nodes2@.len() - 1] == nodes2@.last());
                    } else {
                        assert(nodes@[j - 1] == all[k]);
                    }
                }
            }
        }
    }
    proof {
        assert(total::<T, N>(nodes@) =~= Multiset::empty());
        hull_of_two_groups::<T, N>(all, nodes1@, nodes2@);
    }
    ((aabb1, nodes1), (aabb2, nodes2))
}

enum InsertResult<T> {
    Split(Node<T>),
    NoSplit,
}

impl<T> InsertResult<T> {
    /// The new sibling, if the node was split.
    spec fn sibling(self) -> Option<Node<T>> {
        match self {
            InsertResult::Split(node) => Some(node),
            InsertResult::NoSplit => None,
        }
    }
}


impl<T> Node<T> {
    /// The entries below this node, in the order in which a walk meets them.
    spec fn entries(self) -> Seq<(AABB, T)>
        decreases self,
    {
        match self.entry {
            Entry::Leaves(leaves) => leaf_entries(leaves@),
            Entry::Nodes(nodes) => nodes_entries(nodes@),
        }
    }

    /// A node holds between one and `NODE_MAX_CHILDREN` children or entries,
    /// its box is the merge of their boxes, and its child nodes are well
    /// formed.
    spec fn wf(self) -> bool
        decreases self,
    {
        match self.entry {
            Entry::Leaves(leaves) => {
                &&& 1 <= leaves@.len() <= NODE_MAX_CHILDREN
                &&& self.aabb == hull_of::<T, Leaf<T>>(leaves@)
            },
            Entry::Nodes(nodes) => {
                &&& 1 <= nodes@.len() <= NODE_MAX_CHILDREN
                &&& self.aabb == hull_of::<T, Node<T>>(nodes@)
                &&& forall|i: int| 0 <= i < nodes@.len() ==> (#[trigger] nodes@[i]).wf()
            },
        }
    }

    /// The boxes of a well-formed node start with its own box and hold the
    /// box of every entry below it; there is at least one entry.
    proof fn boxes_hold_entries(self)
        requires
            self.wf(),
        ensures
            self.entries().len() >= 1,
            self.boxes().len() > self.entries().len(),
            self.boxes()[0] == self.aabb,
            forall|k: int|
                0 <= k < self.entries().len() ==> self.boxes().contains(
                    (#[trigger] self.entries()[k]).0,
                ),
        decreases self, 1int,
    {
        match self.entry {
            Entry::Leaves(leaves) => {
                assert forall|k: int| 0 <= k < self.entries().len() implies self.boxes().contains(
                    (#[trigger] self.entries()[k]).0,
                ) by {
                    assert(self.boxes()[k + 1] == leaves@[k].aabb);
                }
            },
            Entry::Nodes(nodes) => {
                Self::boxes_hold_entries_of(nodes@);
                let below = nodes_boxes(nodes@);
                assert(self.entries() == nodes_entries(nodes@));
                assert forall|k: int| 0 <= k < self.entries().len() implies self.boxes().contains(
                    (#[trigger] self.entries()[k]).0,
                ) by {
                    assert(below.contains(nodes_entries(nodes@)[k].0));
                    let m = choose|m: int| 0 <= m < below.len() && below[m] == self.entries()[k].0;
                    assert(self.boxes()[m + 1] == below[m]);
                }
            },
        }
    }

    proof fn boxes_hold_entries_of(nodes: Seq<Node<T>>)
        requires
            forall|i: int| 0 <= i < nodes.len() ==> (#[trigger] nodes[i]).wf(),
        ensures
            nodes_entries(nodes).len() >= nodes.len(),
            nodes_boxes(nodes).len() >= nodes_entries(nodes).len() + nodes.len(),
            forall|k: int|
                0 <= k < nodes_entries(nodes).len() ==> nodes_boxes(nodes).contains(
                    (#[trigger] nodes_entries(nodes)[k]).0,
                ),
        decreases nodes, 0int,
    {
        if nodes.len() > 0 {
            let rest = nodes.drop_last();
            let last = nodes.last();
            assert forall|i: int| 0 <= i < rest.len() implies (#[trigger] rest[i]).wf() by {
                assert(rest[i] == nodes[i]);
            }
            Self::boxes_hold_entries_of(rest);
            assert(last == nodes[nodes.len() - 1]);
            last.boxes_hold_entries();
            let front = nodes_entries(rest);
            let front_boxes = nodes_boxes(rest);
            assert forall|k: int| 0 <= k < nodes_entries(nodes).len() implies nodes_boxes(
                nodes,
            ).contains((#[trigger] nodes_entries(nodes)[k]).0) by {
                if k < front.len() {
                    assert(nodes_entries(nodes)[k] == front[k]);
                    assert(front_boxes.contains(front[k].0));
                    let m = choose|m: int| 0 <= m < front_boxes.len() && front_boxes[m] == front[k].0;
                    assert(nodes_boxes(nodes)[m] == front_boxes[m]);
                } else {
                    let at = k - front.len();
                    assert(nodes_entries(nodes)[k] == last.entries()[at]);
                    assert(last.boxes().contains(last.entries()[at].0));
                    let m = choose|m: int|
                        0 <= m < last.boxes().len() && last.boxes()[m] == last.entries()[at].0;
                    assert(nodes_boxes(nodes)[front_boxes.len() + m] == last.boxes()[m]);
                }
            }
        }
    }

    /// Every box that encloses the boxes of all entries below a well-formed
    /// node encloses the box of the node.
    proof fn box_is_least(self, outer: AABB)
        requires
            self.wf(),
            forall|k: int|
                0 <= k < self.entries().len() ==> outer.encloses((#[trigger] self.entries()[k]).0),
        ensures
            outer.encloses(self.aabb),
        decreases self,
    {
        match self.entry {
            Entry::Leaves(leaves) => {
                assert forall|i: int| 0 <= i < leaves@.len() implies outer.encloses(
                    (#[trigger] leaves@[i]).bounds(),
                ) by {
                    assert(self.entries()[i].0 == leaves@[i].bounds());
                }
                hull_is_least::<T, Leaf<T>>(leaves@, outer);
            },
            Entry::Nodes(nodes) => {
                assert(self.entries() == nodes_entries(nodes@));
                assert forall|i: int| 0 <= i < nodes@.len() implies outer.encloses(
                    (#[trigger] nodes@[i]).bounds(),
                ) by {
                    let child = nodes@[i];
                    assert forall|k: int| 0 <= k < child.entries().len() implies outer.encloses(
                        (#[trigger] child.entries()[k]).0,
                    ) by {
                        Self::child_entries_within(nodes@, i, k);
                        let at = choose|at: int|
                            0 <= at < nodes_entries(nodes@).len() && nodes_entries(nodes@)[at]
                                == child.entries()[k];
                        assert(outer.encloses(self.entries()[at].0));
                    }
                    child.box_is_least(outer);
                }
                hull_is_least::<T, Node<T>>(nodes@, outer);
            },
        }
    }

    /// The entries below a child are among those below all children.
    proof fn child_entries_within(nodes: Seq<Node<T>>, i: int, k: int)
        requires
            0 <= i < nodes.len(),
            0 <= k < nodes[i].entries().len(),
        ensures
            nodes_entries(nodes).contains(nodes[i].entries()[k]),
        decreases nodes.len(),
    {
        let rest = nodes.drop_last();
        let front = nodes_entries(rest);
        if i == nodes.len() - 1 {
            assert(nodes.last() == nodes[i]);
            assert(nodes_entries(nodes)[front.len() + k] == nodes[i].entries()[k]);
        } else {
            assert(rest[i] == nodes[i]);
            Self::child_entries_within(rest, i, k);
            let at = choose|at: int| 0 <= at < front.len() && front[at] == nodes[i].entries()[k];
            assert(nodes_entries(nodes)[at] == front[at]);
        }
    }

    /// The box of a well-formed node encloses the box of every entry below
    /// it.
    proof fn encloses_entries(self)
        requires
            self.wf(),
        ensures
            forall|k: int|
                0 <= k < self.entries().len() ==> self.aabb.encloses(
                    (#[trigger] self.entries()[k]).0,
                ),
        decreases self, 1int,
    {
        match self.entry {
            Entry::Leaves(leaves) => {
                hull_encloses_members::<T, Leaf<T>>(leaves@);
                assert forall|k: int| 0 <= k < self.entries().len() implies self.aabb.encloses(
                    (#[trigger] self.entries()[k]).0,
                ) by {
                    assert(self.entries()[k].0 == leaves@[k].bounds());
                }
            },
            Entry::Nodes(nodes) => {
                hull_encloses_members::<T, Node<T>>(nodes@);
                assert forall|i: int| 0 <= i < nodes@.len() implies self.aabb.encloses(
                    (#[trigger] nodes@[i]).aabb,
                ) && nodes@[i].wf() by {
                    assert(nodes@[i].bounds() == nodes@[i].aabb);
                }
                Self::encloses_entries_of(self.aabb, nodes@);
                assert(self.entries() == nodes_entries(nodes@));
            },
        }
    }

    proof fn encloses_entries_of(outer: AABB, nodes: Seq<Node<T>>)
        requires
            forall|i: int|
                0 <= i < nodes.len() ==> outer.encloses((#[trigger] nodes[i]).aabb)
                    && nodes[i].wf(),
        ensures
            forall|k: int|
                0 <= k < nodes_entries(nodes).len() ==> outer.encloses(
                    (#[trigger] nodes_entries(nodes)[k]).0,
                ),
        decreases nodes, 0int,
    {
        if nodes.len() > 0 {
            let rest = nodes.drop_last();
            let last = nodes.last();
            assert forall|i: int| 0 <= i < rest.len() implies outer.encloses(
                (#[trigger] rest[i]).aabb,
            ) && rest[i].wf() by {
                assert(rest[i] == nodes[i]);
            }
            Self::encloses_entries_of(outer, rest);
            assert(last == nodes[nodes.len() - 1]);
            last.encloses_entries();
            assert forall|k: int| 0 <= k < nodes_entries(nodes).len() implies outer.encloses(
                (#[trigger] nodes_entries(nodes)[k]).0,
            ) by {
                let front = nodes_entries(rest);
                if k < front.len() {
                    assert(nodes_entries(nodes)[k] == front[k]);
                } else {
                    assert(nodes_entries(nodes)[k] == last.entries()[k - front.len()]);
                    AABB::encloses_transitive(
                        outer,
                        last.aabb,
                        last.entries()[k - front.len()].0,
                    );
                }
            }
        }
    }

    /// A query that misses the box of a well-formed node misses every entry
    /// below it.
    proof fn missed_node_has_no_match(self, q: AABB)
        requires
            self.wf(),
            !self.aabb.meets(q),
        ensures
            matching(self.entries(), q) == Seq::<T>::empty(),
    {
        self.encloses_entries();
        assert forall|k: int| 0 <= k < self.entries().len() implies !(
        #[trigger] self.entries()[k]).0.meets(q) by {
            if self.entries()[k].0.meets(q) {
                AABB::enclosed_overlap(self.aabb, self.entries()[k].0, q);
            }
        }
        matching_none(self.entries(), q);
    }

    /// The entries that a leaf node holds; none for a node of nodes.
    spec fn leaf_members(self) -> Seq<Leaf<T>> {
        match self.entry {
            Entry::Leaves(leaves) => leaves@,
            Entry::Nodes(_) => Seq::empty(),
        }
    }

    /// The children of a node of nodes; none for a leaf node.
    spec fn child_nodes(self) -> Seq<Node<T>> {
        match self.entry {
            Entry::Leaves(_) => Seq::empty(),
            Entry::Nodes(nodes) => nodes@,
        }
    }

    /// Names a way down for the quantifier in `is_grown`: into child `best`,
    /// which becomes `child`, with `extra` beside it.
    spec fn way_down(best: int, child: Node<T>, extra: Option<Node<T>>) -> bool {
        true
    }

    /// `after`, with `sibling` beside it, is what `before` becomes when the
    /// entry `(aabb, data)` is added below it: the entry goes down, at each
    /// level, into the child whose box grows least, and joins the entries of
    /// the leaf node that it reaches; each node on the way back settles with
    /// what it then holds.
    spec fn is_grown(
        before: Node<T>,
        aabb: AABB,
        data: T,
        after: Node<T>,
        sibling: Option<Node<T>>,
    ) -> bool
        decreases before,
    {
        match before.entry {
            Entry::Leaves(leaves) => {
                &&& after.entry is Leaves
                &&& sibling matches Some(n) ==> n.entry is Leaves
                &&& settles::<T, Leaf<T>>(
                    leaves@.push(Leaf { aabb, data }),
                    before.aabb.merged(aabb),
                    after.leaf_members(),
                    after.aabb,
                    match sibling {
                        Some(n) => Some((n.aabb, n.leaf_members())),
                        None => None,
                    },
                )
            },
            Entry::Nodes(nodes) => {
                &&& after.entry is Nodes
                &&& sibling matches Some(n) ==> n.entry is Nodes
                &&& exists|best: int, child: Node<T>, extra: Option<Node<T>>|
                    #[trigger] Self::way_down(best, child, extra) && is_best_match(
                        nodes@,
                        aabb,
                        best,
                    ) && Self::is_grown(nodes@[best], aabb, data, child, extra)
                        && settles::<T, Node<T>>(
                        match extra {
                            Some(n) => nodes@.update(best, child).push(n),
                            None => nodes@.update(best, child),
                        },
                        before.aabb.merged(aabb),
                        after.child_nodes(),
                        after.aabb,
                        match sibling {
                            Some(n) => Some((n.aabb, n.child_nodes())),
                            None => None,
                        },
                    )
            },
        }
    }

    /// Adds an entry below this node. When the node would hold more than
    /// `NODE_MAX_CHILDREN` members it is split, and the second half comes
    /// back as a new sibling.
    fn insert(&mut self, aabb: AABB, data: T) -> (res: InsertResult<T>)
        requires
            old(self).wf(),
        ensures
            final(self).wf(),
            match res {
                InsertResult::NoSplit => {
                    &&& final(self).entries().to_multiset() =~= old(
                        self,
                    ).entries().to_multiset().insert((aabb, data))
                    &&& final(self).aabb == old(self).aabb.merged(aabb)
                },
                InsertResult::Split(sibling) => {
                    &&& sibling.wf()
                    &&& final(self).entries().to_multiset().add(sibling.entries().to_multiset())
                        =~= old(self).entries().to_multiset().insert((aabb, data))
                    &&& final(self).aabb.merged(sibling.aabb) == old(self).aabb.merged(aabb)
                },
            },
            Self::is_grown(*old(self), aabb, data, *final(self), res.sibling()),
        decreases *old(self),
    {
        broadcast use vstd::multiset::group_multiset_axioms;

        let ghost before = *self;
        let ghost mut through_nodes: bool = false;
        let ghost mut went: int = 0;
        let ghost mut child_after: Node<T> = before;
        let ghost mut extra: Option<Node<T>> = None;
        let ghost mut members: Seq<Node<T>> = Seq::empty();
        let ghost mut kept: Seq<Node<T>> = Seq::empty();
        let ghost mut handed: Seq<Node<T>> = Seq::empty();
        let grown = self.aabb.merge(&aabb);
        let res = match &mut self.entry {
            Entry::Nodes(nodes) => {
                let ghost kids = nodes@;
                let best = find_best_match(nodes, &aabb);
                let res = nodes[best].insert(aabb, data);
                let ghost updated = nodes@;
                proof {
                    assert(updated =~= kids.update(best as int, updated[best as int]));
                    total_update::<T, Node<T>>(kids, best as int, updated[best as int]);
                    nodes_entries_total(kids);
                    nodes_entries_total(updated);
                    assert forall|k: int| 0 <= k < updated.len() implies (#[trigger] updated[k]).wf() by {
                        if k != best as int {
                            assert(updated[k] == kids[k]);
                        }
                    }
                    hull_encloses_members::<T, Node<T>>(kids);
                    assert(before.aabb == hull_of::<T, Node<T>>(kids));
                }
                let ghost child = kids[best as int];
                let ghost grown_child = child.aabb.merged(aabb);
                proof {
                    went = best as int;
                    child_after = updated[best as int];
                    extra = res.sibling();
                    assert(Self::is_grown(kids[went], aabb, data, child_after, extra));
                    assert(is_best_match(kids, aabb, went));
                    assert(before.child_nodes() == kids);
                }
                let ghost target = before.entries().to_multiset().insert((aabb, data));
                proof {
                    assert(before.entries() == nodes_entries(kids));
                }
                match res {
                    InsertResult::Split(new_node) => {
                        nodes.push(new_node);
                        let ghost pushed = nodes@;
                        proof {
                            assert(pushed.drop_last() =~= updated);
                            assert(pushed.last() == new_node);
                            assert forall|v: (AABB, T)|
                                total::<T, Node<T>>(pushed).count(v) == target.count(v) by {
                                assert(total::<T, Node<T>>(updated).add(
                                    kids[best as int].items(),
                                ).count(v) == total::<T, Node<T>>(kids).add(
                                    updated[best as int].items(),
                                ).count(v));
                                assert(updated[best as int].items().add(new_node.items()).count(v)
                                    == kids[best as int].items().insert((aabb, data)).count(v));
                            }
                            assert(total::<T, Node<T>>(pushed) =~= target);
                            nodes_entries_total(pushed);
                            assert forall|k: int| 0 <= k < pushed.len() implies (
                            #[trigger] pushed[k]).wf() by {
                                if k < updated.len() {
                                    assert(pushed[k] == updated[k]);
                                }
                            }
                            let top = hull_of::<T, Node<T>>(pushed);
                            hull_encloses_members::<T, Node<T>>(pushed);
                            AABB::merge_monotone(before.aabb, child.bounds(), aabb);
                            AABB::merge_is_least_enclosing(
                                updated[best as int].aabb,
                                new_node.aabb,
                                top,
                            );
                            AABB::merge_is_least_enclosing(child.aabb, aabb, top);
                            assert(top.encloses(pushed[best as int].bounds()));
                            assert(top.encloses(pushed[pushed.len() - 1].bounds()));
                            assert(top.encloses(grown_child));
                            AABB::encloses_transitive(top, grown_child, aabb);
                            assert forall|k: int| 0 <= k < pushed.len() implies grown.encloses(
                                (#[trigger] pushed[k]).bounds(),
                            ) by {
                                if k == best as int || k == pushed.len() - 1 {
                                    AABB::encloses_transitive(
                                        grown,
                                        grown_child,
                                        pushed[k].bounds(),
                                    );
                                } else {
                                    assert(pushed[k] == kids[k]);
                                    AABB::merge_monotone(before.aabb, kids[k].bounds(), aabb);
                                }
                            }
                            assert forall|k: int| 0 <= k < kids.len() implies top.encloses(
                                (#[trigger] kids[k]).bounds(),
                            ) by {
                                if k == best as int {
                                    AABB::encloses_transitive(top, grown_child, child.bounds());
                                } else {
                                    assert(pushed[k] == kids[k]);
                                }
                            }
                            hull_after_growth::<T, Node<T>>(kids, pushed, aabb);
                        }
                        if nodes.len() > NODE_MAX_CHILDREN {
                            let ((aabb1, nodes1), (aabb2, nodes2)) = split::<T, Node<T>>(nodes);
                            proof {
                                nodes_entries_total(nodes1@);
                                nodes_entries_total(nodes2@);
                                assert forall|k: int| 0 <= k < nodes1@.len() implies (
                                #[trigger] nodes1@[k]).wf() by {
                                    assert(pushed.contains(nodes1@[k]));
                                }
                                assert forall|k: int| 0 <= k < nodes2@.len() implies (
                                #[trigger] nodes2@[k]).wf() by {
                                    assert(pushed.contains(nodes2@[k]));
                                }
                            }
                            proof {
                                through_nodes = true;
                                members = pushed;
                                kept = nodes1@;
                                handed = nodes2@;
                                assert(members == kids.update(went, child_after).push(new_node));
                                assert(is_split::<T, Node<T>>(members, kept, handed));
                            }
                            self.aabb = aabb1;
                            *nodes = nodes1;
                            InsertResult::Split(Self { aabb: aabb2, entry: Entry::Nodes(nodes2) })
                        } else {
                            proof {
                                through_nodes = true;
                                members = pushed;
                                kept = pushed;
                                assert(members == kids.update(went, child_after).push(new_node));
                            }
                            self.aabb = grown;
                            InsertResult::NoSplit
                        }
                    },
                    InsertResult::NoSplit => {
                        proof {
                            assert forall|v: (AABB, T)|
                                total::<T, Node<T>>(updated).count(v) == target.count(v) by {
                                assert(total::<T, Node<T>>(updated).add(
                                    kids[best as int].items(),
                                ).count(v) == total::<T, Node<T>>(kids).add(
                                    updated[best as int].items(),
                                ).count(v));
                                assert(updated[best as int].items().count(v)
                                    == kids[best as int].items().insert((aabb, data)).count(v));
                            }
                            assert(total::<T, Node<T>>(updated) =~= target);
                            let top = hull_of::<T, Node<T>>(updated);
                            hull_encloses_members::<T, Node<T>>(updated);
                            AABB::merge_monotone(before.aabb, child.bounds(), aabb);
                            AABB::merge_is_least_enclosing(child.aabb, aabb, top);
                            assert(top.encloses(updated[best as int].bounds()));
                            AABB::encloses_transitive(top, grown_child, aabb);
                            assert forall|k: int| 0 <= k < updated.len() implies grown.encloses(
                                (#[trigger] updated[k]).bounds(),
                            ) by {
                                if k != best as int {
                                    assert(updated[k] == kids[k]);
                                    AABB::merge_monotone(before.aabb, kids[k].bounds(), aabb);
                                }
                            }
                            assert forall|k: int| 0 <= k < kids.len() implies top.encloses(
                                (#[trigger] kids[k]).bounds(),
                            ) by {
                                if k == best as int {
                                    AABB::encloses_transitive(top, grown_child, child.bounds());
                                } else {
                                    assert(updated[k] == kids[k]);
                                }
                            }
                            hull_after_growth::<T, Node<T>>(kids, updated, aabb);
                            through_nodes = true;
                            members = updated;
                            kept = updated;
                            assert(members == kids.update(went, child_after));
                        }
                        self.aabb = grown;
                        InsertResult::NoSplit
                    },
                }
            },
            Entry::Leaves(leaves) => {
                let ghost held = leaves@;
                leaves.push(Leaf { aabb, data });
                let ghost pushed = leaves@;
                proof {
                    assert(pushed.drop_last() =~= held);
                    assert(pushed.last() == (Leaf { aabb, data }));
                    leaf_entries_total(held);
                    leaf_entries_total(pushed);
                    assert(before.entries() == leaf_entries(held));
                    assert(total::<T, Leaf<T>>(pushed) =~= before.entries().to_multiset().insert(
                        (aabb, data),
                    ));
                    assert(before.aabb == hull_of::<T, Leaf<T>>(held));
                    assert(pushed.last().bounds() == aabb);
                    assert(hull_of::<T, Leaf<T>>(pushed) == grown);
                }
                if leaves.len() > NODE_MAX_CHILDREN {
                    let ((aabb1, leaves1), (aabb2, leaves2)) = split::<T, Leaf<T>>(leaves);
                    proof {
                        leaf_entries_total(leaves1@);
                        leaf_entries_total(leaves2@);
                    }
                    self.aabb = aabb1;
                    *leaves = leaves1;
                    InsertResult::Split(Self { aabb: aabb2, entry: Entry::Leaves(leaves2) })
                } else {
                    self.aabb = grown;
                    InsertResult::NoSplit
                }
            },
        };
        proof {
            let sibling = res.sibling();
            if through_nodes {
                let kids = before.child_nodes();
                let beside = match sibling {
                    Some(n) => Some((n.aabb, n.child_nodes())),
                    None => None,
                };
                assert(self.child_nodes() == kept);
                assert(members == match extra {
                    Some(n) => kids.update(went, child_after).push(n),
                    None => kids.update(went, child_after),
                });
                assert(settles::<T, Node<T>>(
                    members,
                    before.aabb.merged(aabb),
                    self.child_nodes(),
                    self.aabb,
                    beside,
                ));
                assert(is_best_match(kids, aabb, went) && Self::is_grown(
                    kids[went],
                    aabb,
                    data,
                    child_after,
                    extra,
                ));
                assert(self.entry is Nodes);
                assert(sibling matches Some(n) ==> n.entry is Nodes);
                assert(before.entry is Nodes);
                assert(Self::way_down(went, child_after, extra));
                assert(Self::is_grown(before, aabb, data, *self, sibling));
            }
        }
        res
    }


    /// The box of this node, then the boxes of everything below it, in the
    /// order in which a walk meets them.
    spec fn boxes(self) -> Seq<AABB>
        decreases self,
    {
        match self.entry {
            Entry::Leaves(leaves) => seq![self.aabb] + leaf_boxes(leaves@),
            Entry::Nodes(nodes) => seq![self.aabb] + nodes_boxes(nodes@),
        }
    }

    fn aabbs_into<'a>(&'a self, collector: &mut Vec<&'a AABB>)
        ensures
            boxes_of(final(collector)@) == boxes_of(old(collector)@) + self.boxes(),
        decreases self,
    {
        let ghost before = boxes_of(collector@);
        collector.push(&self.aabb);
        let ghost started = before + seq![self.aabb];
        assert(boxes_of(collector@) =~= started);
        match &self.entry {
            Entry::Nodes(nodes) => {
                let mut i: usize = 0;
                assert(nodes@.take(0) =~= Seq::empty());
                assert(started + nodes_boxes(nodes@.take(0)) =~= started);
                while i < nodes.len()
                    invariant
                        0 <= i <= nodes.len(),
                        self.entry == Entry::Nodes(*nodes),
                        boxes_of(collector@) == started + nodes_boxes(nodes@.take(i as int)),
                    decreases nodes.len() - i,
                {
                    proof {
                        assert(nodes@.take(i + 1).drop_last() =~= nodes@.take(i as int));
                        assert(nodes@.take(i + 1).last() == nodes@[i as int]);
                    }
                    let node = &nodes[i];
                    assert(match self.entry {
                        Entry::Nodes(children) => children == *nodes,
                        Entry::Leaves(_) => false,
                    });
                    node.aabbs_into(collector);
                    assert(boxes_of(collector@) =~= started + nodes_boxes(nodes@.take(i + 1)));
                    i += 1;
                }
                assert(nodes@.take(nodes.len() as int) =~= nodes@);
                assert(boxes_of(collector@) =~= before + self.boxes());
            },
            Entry::Leaves(leaves) => {
                let mut i: usize = 0;
                assert(started + leaf_boxes(leaves@).take(0) =~= started);
                while i < leaves.len()
                    invariant
                        0 <= i <= leaves.len(),
                        boxes_of(collector@) == started + leaf_boxes(leaves@).take(i as int),
                    decreases leaves.len() - i,
                {
                    let ghost held = collector@;
                    collector.push(&leaves[i].aabb);
                    assert(boxes_of(collector@) =~= boxes_of(held).push(leaves@[i as int].aabb));
                    assert(leaf_boxes(leaves@).take(i + 1) =~= leaf_boxes(leaves@).take(
                        i as int,
                    ).push(leaves@[i as int].aabb));
                    assert(boxes_of(collector@) =~= started + leaf_boxes(leaves@).take(i + 1));
                    i += 1;
                }
                assert(leaf_boxes(leaves@).take(leaves.len() as int) =~= leaf_boxes(leaves@));
                assert(boxes_of(collector@) =~= before + self.boxes());
            },
        }
    }

    fn search_into<'a>(&'a self, aabb: &AABB, collector: &mut Vec<&'a T>)
        requires
            self.wf(),
        ensures
            payloads(final(collector)@) == payloads(old(collector)@) + matching(
                self.entries(),
                *aabb,
            ),
        decreases self,
    {
        let ghost before = payloads(collector@);
        match &self.entry {
            Entry::Nodes(nodes) => {
                let mut i: usize = 0;
                assert(nodes@.take(0) =~= Seq::empty());
                assert(before + matching(nodes_entries(nodes@.take(0)), *aabb) =~= before);
                while i < nodes.len()
                    invariant
                        0 <= i <= nodes.len(),
                        self.wf(),
                        self.entry == Entry::Nodes(*nodes),
                        payloads(collector@) == before + matching(
                            nodes_entries(nodes@.take(i as int)),
                            *aabb,
                        ),
                    decreases nodes.len() - i,
                {
                    let node = &nodes[i];
                    let ghost sofar = nodes_entries(nodes@.take(i as int));
                    proof {
                        assert(nodes@.take(i + 1).drop_last() =~= nodes@.take(i as int));
                        assert(nodes@.take(i + 1).last() == nodes@[i as int]);
                        matching_concat(sofar, node.entries(), *aabb);
                        assert(node.wf());
                    }
                    if node.aabb.overlaps(aabb) {
                        node.search_into(aabb, collector);
                    } else {
                        proof {
                            node.missed_node_has_no_match(*aabb);
                        }
                    }
                    assert(payloads(collector@) =~= before + matching(
                        nodes_entries(nodes@.take(i + 1)),
                        *aabb,
                    ));
                    i += 1;
                }
                assert(nodes@.take(nodes.len() as int) =~= nodes@);
            },
            Entry::Leaves(leaves) => {
                let mut i: usize = 0;
                assert(leaf_entries(leaves@).take(0) =~= Seq::empty());
                assert(before + matching(leaf_entries(leaves@).take(0), *aabb) =~= before);
                while i < leaves.len()
                    invariant
                        0 <= i <= leaves.len(),
                        payloads(collector@) == before + matching(
                            leaf_entries(leaves@).take(i as int),
                            *aabb,
                        ),
                    decreases leaves.len() - i,
                {
                    let leaf = &leaves[i];
                    proof {
                        let all = leaf_entries(leaves@);
                        assert(all.take(i + 1).drop_last() =~= all.take(i as int));
                        assert(all.take(i + 1).last() == (leaf.aabb, leaf.data));
                    }
                    if leaf.aabb.overlaps(aabb) {
                        let ghost held = collector@;
                        collector.push(&leaf.data);
                        assert(payloads(collector@) =~= payloads(held).push(leaf.data));
                        assert(matching(leaf_entries(leaves@).take(i + 1), *aabb) == matching(
                            leaf_entries(leaves@).take(i as int),
                            *aabb,
                        ).push(leaf.data));
                        assert(payloads(collector@) =~= before + matching(
                            leaf_entries(leaves@).take(i + 1),
                            *aabb,
                        ));
                    }
                    i += 1;
                }
                assert(leaf_entries(leaves@).take(leaves.len() as int) =~= leaf_entries(leaves@));
            },
        }
    }
}

impl<T> RTree<T> {
    /// The entries of the tree, in the order in which a search walks them.
    pub closed spec fn view(&self) -> Seq<(AABB, T)> {
        match self.root {
            Some(root) => root.entries(),
            None => Seq::empty(),
        }
    }

    /// Every node keeps its fan-out within `NODE_MAX_CHILDREN` and its box
    /// around everything below it.
    pub closed spec fn wf(&self) -> bool {
        match self.root {
            Some(root) => root.wf(),
            None => true,
        }
    }

    /// Creates an empty tree.
    pub fn new() -> (tree: Self)
        ensures
            tree.wf(),
            tree@ == Seq::<(AABB, T)>::empty(),
    {
        Self { root: None }
    }

    /// Removes every entry.
    pub fn clear(&mut self)
        ensures
            final(self).wf(),
            final(self)@ == Seq::<(AABB, T)>::empty(),
    {
        self.root = None;
    }

    /// This tree is what `before` becomes when the entry `(aabb, data)` is
    /// added. In an empty tree the entry becomes the only one of a leaf node.
    /// Otherwise it goes down from the root, at each level into the child
    /// whose box grows least, the first of several, and joins the leaf node
    /// that it reaches. A node that then holds more than `NODE_MAX_CHILDREN`
    /// members is split: the two members whose common box is largest seed
    /// two groups, each other member joins the group whose box it enlarges
    /// less, and the second group becomes a new sibling. When the root is
    /// split, a new root holds both halves.
    pub closed spec fn grown_from(&self, before: RTree<T>, aabb: AABB, data: T) -> bool {
        match self.root {
            Some(root) => match before.root {
                None => {
                    &&& root.entry is Leaves
                    &&& root.leaf_members() == seq![Leaf { aabb, data }]
                    &&& root.aabb == aabb
                },
                Some(old_root) => exists|kept: Node<T>, sibling: Option<Node<T>>| #[trigger]
                    Node::is_grown(old_root, aabb, data, kept, sibling) && match sibling {
                        None => root == kept,
                        Some(n) => {
                            &&& root.entry is Nodes
                            &&& root.child_nodes() == seq![kept, n]
                            &&& root.aabb == kept.aabb.merged(n.aabb)
                        },
                    },
            },
            None => false,
        }
    }

    /// Adds the entry `(aabb, data)`.
    pub fn insert(&mut self, aabb: AABB, data: T)
        requires
            old(self).wf(),
        ensures
            final(self).wf(),
            final(self)@.to_multiset() =~= old(self)@.to_multiset().insert((aabb, data)),
            final(self).grown_from(*old(self), aabb, data),
    {
        broadcast use vstd::multiset::group_multiset_axioms;
        broadcast use vstd::seq_lib::group_to_multiset_ensures;

        let ghost before = self@;
        let ghost old_tree = *self;
        self.root = Some(
            if let Some(mut root) = self.root.take() {
                let ghost old_root = root;
                let res = root.insert(aabb, data);
                proof {
                    assert(old_tree.root == Some(old_root));
                    assert(Node::is_grown(old_root, aabb, data, root, res.sibling()));
                }
                if let InsertResult::Split(new_node) = res {
                    let both = root.aabb.merge(&new_node.aabb);
                    let mut children: Vec<Node<T>> = Vec::new();
                    let ghost first = root;
                    children.push(root);
                    children.push(new_node);
                    proof {
                        assert(children@ =~= seq![first, new_node]);
                        assert(children@.drop_last().len() == 1);
                        assert(children@.drop_last()[0] == first);
                        assert(children@.last() == new_node);
                        assert(hull_of::<T, Node<T>>(children@.drop_last()) == first.aabb);
                        assert(hull_of::<T, Node<T>>(children@) == both);
                        assert(children@.drop_last().drop_last() =~= Seq::empty());
                        assert(children@.drop_last().last() == first);
                        assert(nodes_entries(Seq::<Node<T>>::empty()) =~= Seq::empty());
                        assert(nodes_entries(children@.drop_last()) =~= first.entries());
                        vstd::seq_lib::lemma_multiset_commutative(
                            first.entries(),
                            new_node.entries(),
                        );
                    }
                    Node { aabb: both, entry: Entry::Nodes(children) }
                } else {
                    root
                }
            } else {
                let mut leaves: Vec<Leaf<T>> = Vec::new();
                leaves.push(Leaf { aabb, data });
                proof {
                    assert(old_tree.root is None);
                    assert(leaves@ =~= seq![Leaf { aabb, data }]);
                    assert(leaves@[0].bounds() == aabb);
                    assert(leaf_entries(leaves@) =~= Seq::empty().push((aabb, data)));
                    assert(before =~= Seq::empty());
                }
                Node { aabb, entry: Entry::Leaves(leaves) }
            },
        );
    }

    /// The boxes of all nodes and entries: the box of a node, then what lies
    /// below it, the root first.
    pub closed spec fn boxes(&self) -> Seq<AABB> {
        match self.root {
            Some(root) => root.boxes(),
            None => Seq::empty(),
        }
    }

    /// The boxes of a well-formed tree hold the box of every entry, after the
    /// boxes of the nodes above it, and the first of them encloses them all.
    pub proof fn boxes_cover_entries(&self)
        requires
            self.wf(),
        ensures
            self@.len() == 0 <==> self.boxes().len() == 0,
            self@.len() > 0 ==> self.boxes().len() > self@.len(),
            forall|k: int| 0 <= k < self@.len() ==> self.boxes().contains((#[trigger] self@[k]).0),
            forall|k: int|
                0 <= k < self@.len() ==> self.boxes()[0].encloses((#[trigger] self@[k]).0),
    {
        match self.root {
            Some(root) => {
                root.boxes_hold_entries();
                root.encloses_entries();
            },
            None => {},
        }
    }

    /// The first box of a well-formed tree is the merge of the boxes of all
    /// entries: it lies in every box that encloses them all.
    pub proof fn root_box_is_least(&self, outer: AABB)
        requires
            self.wf(),
            self@.len() > 0,
            forall|k: int| 0 <= k < self@.len() ==> outer.encloses((#[trigger] self@[k]).0),
        ensures
            outer.encloses(self.boxes()[0]),
    {
        match self.root {
            Some(root) => {
                root.boxes_hold_entries();
                root.box_is_least(outer);
            },
            None => {},
        }
    }

    /// The boxes of all nodes and entries of the tree.
    pub fn aabbs(&self) -> (found: Vec<&AABB>)
        ensures
            boxes_of(found@) == self.boxes(),
    {
        let mut collector = Vec::new();
        assert(boxes_of(collector@) =~= Seq::<AABB>::empty());
        if let Some(ref root) = self.root {
            root.aabbs_into(&mut collector);
            assert(boxes_of(collector@) =~= self.boxes());
        }
        collector
    }

    /// The payloads of all entries whose box overlaps `aabb`.
    pub fn search(&self, aabb: &AABB) -> (found: Vec<&T>)
        requires
            self.wf(),
        ensures
            payloads(found@) == matching(self@, *aabb),
    {
        let mut collector = Vec::new();
        assert(payloads(collector@) =~= Seq::<T>::empty());
        if let Some(ref root) = self.root {
            root.search_into(aabb, &mut collector);
            assert(payloads(collector@) =~= matching(self@, *aabb));
        }
        collector
    }
}

} // verus!
