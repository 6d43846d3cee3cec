use vstd::multiset::Multiset;
use vstd::prelude::*;
use vstd::std_specs::cmp::PartialOrdIs;
use vstd::std_specs::cmp::PartialOrdSpec;

verus! {

/// How often the polytope is expanded at most before the closest face
/// found so far is taken as the answer.
pub const EPA_MAX_ITER: usize = 1000;

/// How many support points the simplex search adds at most.
pub const GJK_MAX_ITER: usize = 12;

/// The largest number of points in a simplex.
pub const SIMPLEX_MAX_DIM: usize = 4;

/// An edge of the polytope: the indices of its two vertices, the smaller
/// one first.
pub type Edge = (usize, usize);

/// A triangular face of the expanding polytope: the indices of its three
/// vertices, what the caller keeps about its point closest to the origin,
/// and whether the face is visible from the point that is being added.
#[derive(Debug)]
pub struct PolytopeFace<P> {
    pub vertices: [usize; 3],
    pub closest: P,
    pub visible: bool,
}

/// The two values in ascending order.
pub fn minmax<T: Ord>(a: T, b: T) -> (pair: (T, T))
    ensures
        pair == (a, b) || pair == (b, a),
        T::obeys_partial_cmp_spec() ==> pair == (if a.is_le(&b) {
            (a, b)
        } else {
            (b, a)
        }),
{
    if a <= b {
        (a, b)
    } else {
        (b, a)
    }
}

/// The edge between two vertices, the smaller index first.
pub open spec fn edge_of(a: usize, b: usize) -> Edge {
    if a <= b {
        (a, b)
    } else {
        (b, a)
    }
}

/// The edge between two vertices, the smaller index first.
pub fn edge_between(a: usize, b: usize) -> (edge: Edge)
    ensures
        edge == edge_of(a, b),
{
    minmax(a, b)
}

/// `edges` without `edge` if it holds it, with `edge` at the end if it does
/// not. The last element takes the place of the one that leaves.
pub open spec fn toggled(edges: Seq<Edge>, edge: Edge) -> Seq<Edge> {
    if edges.contains(edge) {
        edges.update(edges.index_of(edge), edges.last()).drop_last()
    } else {
        edges.push(edge)
    }
}

/// Removes `edge` from the list if it is there, and adds it if it is not.
pub fn add_or_remove(edges: &mut Vec<Edge>, edge: Edge)
    requires
        old(edges)@.no_duplicates(),
    ensures
        final(edges)@ == toggled(old(edges)@, edge),
        final(edges)@.no_duplicates(),
        final(edges)@.contains(edge) == !old(edges)@.contains(edge),
        forall|other: Edge|
            other != edge ==> final(edges)@.contains(other) == old(edges)@.contains(other),
{
    let ghost before = edges@;
    let mut i: usize = 0;
    while i < edges.len()
        invariant
            0 <= i <= edges@.len(),
            edges@ == before,
            before == old(edges)@,
            before.no_duplicates(),
            forall|k: int| 0 <= k < i ==> before[k] != edge,
        decreases edges@.len() - i,
    {
        if edges[i].0 == edge.0 && edges[i].1 == edge.1 {
            proof {
                assert(before[i as int] == edge);
                assert(before.contains(edge));
                let first = before.index_of(edge);
                assert(before[first] == edge);
                assert(first == i);
            }
            edges.swap_remove(i);
            proof {
                let after = edges@;
                assert forall|other: Edge| other != edge implies after.contains(other)
                    == before.contains(other) by {
                    if after.contains(other) {
                        let k = choose|k: int| 0 <= k < after.len() && after[k] == other;
                        if k == i {
                            assert(before[before.len() - 1] == other);
                        } else {
                            assert(before[k] == other);
                        }
                    }
                    if before.contains(other) {
                        let k = choose|k: int| 0 <= k < before.len() && before[k] == other;
                        if k == before.len() - 1 {
                            assert(after[i as int] == other);
                        } else {
                            assert(after[k] == other);
                        }
                    }
                }
                assert forall|k: int, l: int|
                    0 <= k < after.len() && 0 <= l < after.len() && k != l implies after[k]
                    != after[l] by {
                    let from_k = if k == i {
                        before.len() - 1
                    } else {
                        k
                    };
                    let from_l = if l == i {
                        before.len() - 1
                    } else {
                        l
                    };
                    assert(after[k] == before[from_k]);
                    assert(after[l] == before[from_l]);
                }
                assert(!after.contains(edge)) by {
                    if after.contains(edge) {
                        let k = choose|k: int| 0 <= k < after.len() && after[k] == edge;
                        if k == i {
                            assert(before[before.len() - 1] == edge);
                        } else {
                            assert(before[k] == edge);
                        }
                    }
                }
            }
            return ;
        }
        i += 1;
    }
    edges.push(edge);
    proof {
        let after = edges@;
        assert(!before.contains(edge));
        assert(after[before.len() as int] == edge);
        assert forall|k: int, l: int|
            0 <= k < after.len() && 0 <= l < after.len() && k != l implies after[k] != after[l] by {
            if k < before.len() && l < before.len() {
                assert(before[k] != before[l]);
            } else if k < before.len() {
                assert(before.contains(before[k]));
            } else {
                assert(before.contains(before[l]));
            }
        }
        assert forall|other: Edge| other != edge implies after.contains(other) == before.contains(
            other,
        ) by {
            if after.contains(other) {
                let k = choose|k: int| 0 <= k < after.len() && after[k] == other;
                assert(before[k] == other);
            }
            if before.contains(other) {
                let k = choose|k: int| 0 <= k < before.len() && before[k] == other;
                assert(after[k] == other);
            }
        }
    }
}

/// How many of the three sides of a face are the edge `e`.
pub open spec fn side_hits(vertices: [usize; 3], e: Edge) -> nat {
    let first: nat = if edge_of(vertices[0], vertices[1]) == e {
        1
    } else {
        0
    };
    let second: nat = if edge_of(vertices[1], vertices[2]) == e {
        1
    } else {
        0
    };
    let third: nat = if edge_of(vertices[2], vertices[0]) == e {
        1
    } else {
        0
    };
    first + second + third
}

/// What a face adds to the count of visible faces on the edge `e`.
pub open spec fn border_share<P>(face: PolytopeFace<P>, e: Edge) -> nat {
    if face.visible {
        side_hits(face.vertices, e)
    } else {
        0
    }
}

/// On how many sides of visible faces the edge `e` lies.
pub open spec fn border_count<P>(faces: Seq<PolytopeFace<P>>, e: Edge) -> nat
    decreases faces.len(),
{
    if faces.len() == 0 {
        0
    } else {
        border_count(faces.drop_last(), e) + border_share(faces.last(), e)
    }
}

proof fn border_count_update<P>(s: Seq<PolytopeFace<P>>, i: int, f: PolytopeFace<P>, e: Edge)
    requires
        0 <= i < s.len(),
    ensures
        border_count(s.update(i, f), e) + border_share(s[i], e) == border_count(s, e)
            + border_share(f, e),
    decreases s.len(),
{
    let rest = s.drop_last();
    let t = s.update(i, f);
    if i == s.len() - 1 {
        assert(t.drop_last() =~= rest);
        assert(t.last() == f);
    } else {
        border_count_update(rest, i, f, e);
        assert(t.drop_last() =~= rest.update(i, f));
        assert(t.last() == s.last());
        assert(rest[i] == s[i]);
    }
}

proof fn border_count_swap_remove<P>(s: Seq<PolytopeFace<P>>, i: int, e: Edge)
    requires
        0 <= i < s.len(),
    ensures
        border_count(s, e) == border_count(s.update(i, s.last()).drop_last(), e) + border_share(
            s[i],
            e,
        ),
{
    let rest = s.drop_last();
    if i == s.len() - 1 {
        assert(s.update(i, s.last()).drop_last() =~= rest);
    } else {
        border_count_update(rest, i, s.last(), e);
        assert(s.update(i, s.last()).drop_last() =~= rest.update(i, s.last()));
        assert(rest[i] == s[i]);
    }
}

proof fn border_count_none<P>(s: Seq<PolytopeFace<P>>, e: Edge)
    requires
        forall|k: int| 0 <= k < s.len() ==> !(#[trigger] s[k]).visible,
    ensures
        border_count(s, e) == 0,
    decreases s.len(),
{
    if s.len() > 0 {
        assert forall|k: int| 0 <= k < s.drop_last().len() implies !(#[trigger] s.drop_last()[k]).visible by {
            assert(s.drop_last()[k] == s[k]);
        }
        border_count_none(s.drop_last(), e);
        assert(s.last() == s[s.len() - 1]);
    }
}

proof fn swap_remove_multiset<A>(s: Seq<A>, i: int)
    requires
        0 <= i < s.len(),
    ensures
        s.to_multiset() =~= s.update(i, s.last()).drop_last().to_multiset().insert(s[i]),
{
    broadcast use vstd::multiset::group_multiset_axioms;
    broadcast use vstd::seq_lib::group_to_multiset_ensures;

    let last = s.len() - 1;
    let t = s.update(i, s.last());
    assert(t.drop_last() =~= t.remove(last));
    vstd::seq_lib::to_multiset_remove(t, last);
    assert(t.to_multiset().count(t[last]) > 0) by {
        assert(t.contains(t[last]));
    }
    if i == last {
        assert(t =~= s);
    } else {
        assert(t.remove(i) =~= s.remove(i));
        vstd::seq_lib::to_multiset_remove(t, i);
        vstd::seq_lib::to_multiset_remove(s, i);
        assert(t.to_multiset().count(t[i]) > 0) by {
            assert(t.contains(t[i]));
        }
        assert(s.to_multiset().count(s[i]) > 0) by {
            assert(s.contains(s[i]));
        }
        assert(t[i] == s[last]);
        assert(t[last] == s[last]);
        assert forall|v: A|
            s.to_multiset().count(v) == t.drop_last().to_multiset().insert(s[i]).count(v) by {
            assert(t.to_multiset().remove(t[i]).count(v) == s.to_multiset().remove(s[i]).count(v));
            assert(t.drop_last().to_multiset().count(v) == t.to_multiset().remove(t[last]).count(v));
        }
    }
}

/// The edges of the hole once the three sides of a face have been passed:
/// a side met for the first time is added, one met again is taken out.
pub open spec fn with_sides(edges: Seq<Edge>, vertices: [usize; 3]) -> Seq<Edge> {
    toggled(
        toggled(toggled(edges, edge_of(vertices[0], vertices[1])), edge_of(vertices[1], vertices[2])),
        edge_of(vertices[2], vertices[0]),
    )
}

/// The faces that stay, in the order in which they are left: the faces are
/// visited from position `i` on, and the last face moves into the place of a
/// visible one, where it is visited next.
pub open spec fn without_visible<P>(faces: Seq<PolytopeFace<P>>, i: int) -> Seq<PolytopeFace<P>>
    decreases faces.len() - i,
{
    if i < 0 || i >= faces.len() {
        faces
    } else if faces[i].visible {
        without_visible(faces.update(i, faces.last()).drop_last(), i)
    } else {
        without_visible(faces, i + 1)
    }
}

/// The edges of the hole in the order in which they are left, when the
/// visible faces are taken out as `without_visible` says and `edges` were
/// collected before.
pub open spec fn hole_edges<P>(faces: Seq<PolytopeFace<P>>, i: int, edges: Seq<Edge>) -> Seq<Edge>
    decreases faces.len() - i,
{
    if i < 0 || i >= faces.len() {
        edges
    } else if faces[i].visible {
        hole_edges(
            faces.update(i, faces.last()).drop_last(),
            i,
            with_sides(edges, faces[i].vertices),
        )
    } else {
        hole_edges(faces, i + 1, edges)
    }
}

/// The four faces of the tetrahedron that the expansion starts from.
pub fn tetrahedron_faces() -> (faces: Vec<[usize; 3]>)
    ensures
        faces@.len() == 4,
        faces@[0]@ == seq![0usize, 1, 2],
        faces@[1]@ == seq![0usize, 2, 3],
        faces@[2]@ == seq![0usize, 3, 1],
        faces@[3]@ == seq![1usize, 2, 3],
{
    let mut faces: Vec<[usize; 3]> = Vec::new();
    faces.push([0, 1, 2]);
    faces.push([0, 2, 3]);
    faces.push([0, 3, 1]);
    faces.push([1, 2, 3]);
    proof {
        assert(faces@[0]@ =~= seq![0usize, 1, 2]);
        assert(faces@[1]@ =~= seq![0usize, 2, 3]);
        assert(faces@[2]@ =~= seq![0usize, 3, 1]);
        assert(faces@[3]@ =~= seq![1usize, 2, 3]);
    }
    faces
}

/// Takes the visible faces out of the polytope and returns the edges of the
/// hole that they leave: the edges that lie on an odd number of sides of the
/// faces taken out.
pub fn remove_visible_faces<P>(faces: &mut Vec<PolytopeFace<P>>) -> (edges: Vec<Edge>)
    ensures
        final(faces)@.to_multiset() =~= old(faces)@.to_multiset().filter(
            |f: PolytopeFace<P>| !f.visible,
        ),
        edges@.no_duplicates(),
        forall|e: Edge| edges@.contains(e) <==> border_count(old(faces)@, e) % 2 == 1,
        final(faces)@ == without_visible(old(faces)@, 0),
        edges@ == hole_edges(old(faces)@, 0, Seq::<Edge>::empty()),
{
    broadcast use vstd::multiset::group_multiset_axioms;

    let ghost all = faces@;
    let ghost mut gone: Multiset<PolytopeFace<P>> = Multiset::empty();
    let mut edges: Vec<Edge> = Vec::new();
    let mut i: usize = 0;
    while i < faces.len()
        invariant
            0 <= i <= faces@.len(),
            all == old(faces)@,
            forall|k: int| 0 <= k < i ==> !(#[trigger] faces@[k]).visible,
            faces@.to_multiset().add(gone) =~= all.to_multiset(),
            forall|f: PolytopeFace<P>| gone.count(f) > 0 ==> f.visible,
            edges@.no_duplicates(),
            forall|e: Edge| border_count(faces@, e) <= border_count(all, e),
            forall|e: Edge|
                edges@.contains(e) <==> (border_count(all, e) - border_count(faces@, e)) % 2 == 1,
            without_visible(all, 0) == without_visible(faces@, i as int),
            hole_edges(all, 0, Seq::<Edge>::empty()) == hole_edges(faces@, i as int, edges@),
        decreases faces@.len() - i,
    {
        if faces[i].visible {
            let ghost held = faces@;
            let ghost border = edges@;
            let a: usize = faces[i].vertices[0];
            let b: usize = faces[i].vertices[1];
            let c: usize = faces[i].vertices[2];
            add_or_remove(&mut edges, edge_between(a, b));
            let ghost after_first = edges@;
            add_or_remove(&mut edges, edge_between(b, c));
            let ghost after_second = edges@;
            add_or_remove(&mut edges, edge_between(c, a));
            let removed = faces.swap_remove(i);
            proof {
                assert(edges@ == with_sides(border, held[i as int].vertices));
                swap_remove_multiset(held, i as int);
                gone = gone.insert(removed);
                assert forall|e: Edge| #[trigger]
                    border_count(faces@, e) <= border_count(all, e) by {
                    border_count_swap_remove(held, i as int, e);
                }
                assert forall|e: Edge|
                    edges@.contains(e) <==> (border_count(all, e) - border_count(faces@, e)) % 2
                        == 1 by {
                    border_count_swap_remove(held, i as int, e);
                    assert(border_share(held[i as int], e) == side_hits(removed.vertices, e));
                    assert(border.contains(e) <==> (border_count(all, e) - border_count(held, e))
                        % 2 == 1);
                    assert(after_first.contains(e) == (border.contains(e) != (edge_of(a, b) == e)));
                    assert(after_second.contains(e) == (after_first.contains(e) != (edge_of(b, c)
                        == e)));
                    assert(edges@.contains(e) == (after_second.contains(e) != (edge_of(c, a)
                        == e)));
                }
            }
        } else {
            i += 1;
        }
    }
    proof {
        assert forall|e: Edge| edges@.contains(e) <==> border_count(all, e) % 2 == 1 by {
            border_count_none(faces@, e);
        }
        assert forall|f: PolytopeFace<P>|
            faces@.to_multiset().count(f) == all.to_multiset().filter(
                |f: PolytopeFace<P>| !f.visible,
            ).count(f) by {
            assert(faces@.to_multiset().add(gone).count(f) == all.to_multiset().count(f));
            if f.visible {
                if faces@.to_multiset().count(f) > 0 {
                    broadcast use vstd::seq_lib::group_to_multiset_ensures;

                    assert(faces@.contains(f));
                }
            } else {
                assert(gone.count(f) == 0);
            }
        }
    }
    edges
}

/// The faces that close the hole: one for each edge of the hole, from the
/// edge to the new vertex.
pub fn horizon_faces(edges: &Vec<Edge>, new_vertex: usize) -> (faces: Vec<[usize; 3]>)
    ensures
        faces@.len() == edges@.len(),
        forall|k: int|
            0 <= k < edges@.len() ==> (#[trigger] faces@[k])@ == seq![
                edges@[k].0,
                edges@[k].1,
                new_vertex,
            ],
{
    let mut faces: Vec<[usize; 3]> = Vec::new();
    let mut k: usize = 0;
    while k < edges.len()
        invariant
            0 <= k <= edges@.len(),
            faces@.len() == k,
            forall|m: int|
                0 <= m < k ==> (#[trigger] faces@[m])@ == seq![
                    edges@[m].0,
                    edges@[m].1,
                    new_vertex,
                ],
        decreases edges@.len() - k,
    {
        let face: [usize; 3] = [edges[k].0, edges[k].1, new_vertex];
        proof {
            assert(face@ =~= seq![edges@[k as int].0, edges@[k as int].1, new_vertex]);
        }
        faces.push(face);
        k += 1;
    }
    faces
}

} // verus!
