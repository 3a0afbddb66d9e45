//! Laws of the generated mesh: it is a closed surface of triangles, and its
//! dual has twelve pentagons among hexagons.

use crate::topology::{
    add_face_neighbors,
    add_neighbor,
    corners_at,
    edge_order,
    face_has,
    incident_faces,
    lemma_edge_order,
    midpoint,
    neighbor_list,
    neighbors_via,
    norm_edge,
    split_face,
    split_faces,
    Face,
};
use vstd::prelude::*;

verus! {

/// Face `i` names both `v` and `x`.
pub open spec fn joins(faces: Seq<Face>, i: int, v: usize, x: usize) -> bool {
    0 <= i < faces.len() && face_has(faces[i], v) && face_has(faces[i], x)
}

/// `x` is another vertex on a face with `v`.
pub open spec fn linked(faces: Seq<Face>, v: usize, x: usize) -> bool {
    x != v && exists|i: int| joins(faces, i, v, x)
}

/// The faces that meet at `v` are the faces that name `v`.
pub proof fn lemma_incident_members(faces: Seq<Face>, v: usize)
    requires
        faces.len() <= usize::MAX,
    ensures
        forall|i: usize| #[trigger]
            incident_faces(faces, v).contains(i) ==> i < faces.len() && face_has(
                faces[i as int],
                v,
            ),
        forall|i: int|
            0 <= i < faces.len() && face_has(#[trigger] faces[i], v) ==> incident_faces(
                faces,
                v,
            ).contains(i as usize),
    decreases faces.len(),
{
    if faces.len() > 0 {
        let head = faces.drop_last();
        let last = (faces.len() - 1) as usize;
        let a = incident_faces(head, v);
        let b = corners_at(faces.last(), v, last);
        lemma_incident_members(head, v);
        assert(incident_faces(faces, v) == a + b);
        assert forall|i: usize| #[trigger] (a + b).contains(i) implies i < faces.len() && face_has(
            faces[i as int],
            v,
        ) by {
            let k = choose|k: int| 0 <= k < (a + b).len() && (a + b)[k] == i;
            if k < a.len() {
                assert(a[k] == i);
                assert(a.contains(i));
                assert(head[i as int] == faces[i as int]);
            } else {
                assert(b[k - a.len()] == i);
            }
        }
        assert forall|i: int| 0 <= i < faces.len() && face_has(#[trigger] faces[i], v) implies (a
            + b).contains(i as usize) by {
            if i < head.len() {
                assert(head[i] == faces[i]);
                assert(a.contains(i as usize));
                let k = choose|k: int| 0 <= k < a.len() && a[k] == i as usize;
                assert((a + b)[k] == i as usize);
            } else {
                assert(b.len() > 0);
                assert(b[0] == last);
                assert((a + b)[a.len() as int] == last);
            }
        }
    }
}

/// What `add_neighbor` does to a list without duplicates.
pub proof fn lemma_add_neighbor(list: Seq<usize>, x: usize, v: usize)
    requires
        list.no_duplicates(),
    ensures
        add_neighbor(list, x, v).no_duplicates(),
        forall|y: usize| #[trigger]
            add_neighbor(list, x, v).contains(y) <==> list.contains(y) || (y == x && x != v),
{
    let after = add_neighbor(list, x, v);
    assert forall|y: usize| #[trigger] after.contains(y) <==> list.contains(y) || (y == x && x
        != v) by {
        if after.contains(y) {
            let k = choose|k: int| 0 <= k < after.len() && after[k] == y;
            if k < list.len() {
                assert(list[k] == y);
            }
        }
        if list.contains(y) {
            let k = choose|k: int| 0 <= k < list.len() && list[k] == y;
            assert(after[k] == y);
        }
        if y == x && x != v && !list.contains(x) {
            assert(after[list.len() as int] == x);
        }
    }
}

/// What `add_face_neighbors` does to a list without duplicates.
pub proof fn lemma_add_face_neighbors(list: Seq<usize>, f: Face, v: usize)
    requires
        list.no_duplicates(),
    ensures
        add_face_neighbors(list, f, v).no_duplicates(),
        forall|y: usize| #[trigger]
            add_face_neighbors(list, f, v).contains(y) <==> list.contains(y) || (y != v
                && face_has(f, y)),
{
    let l1 = add_neighbor(list, f.a, v);
    let l2 = add_neighbor(l1, f.b, v);
    let l3 = add_neighbor(l2, f.c, v);
    lemma_add_neighbor(list, f.a, v);
    lemma_add_neighbor(l1, f.b, v);
    lemma_add_neighbor(l2, f.c, v);
    assert forall|y: usize| #[trigger] l3.contains(y) <==> list.contains(y) || (y != v && face_has(
        f,
        y,
    )) by {
        assert(l1.contains(y) <==> list.contains(y) || (y == f.a && f.a != v));
        assert(l2.contains(y) <==> l1.contains(y) || (y == f.b && f.b != v));
    }
}

/// The neighbours gathered from a list of faces: each other vertex of those
/// faces, once.
pub proof fn lemma_neighbors_via(faces: Seq<Face>, incident: Seq<usize>, v: usize)
    ensures
        neighbors_via(faces, incident, v).no_duplicates(),
        forall|y: usize| #[trigger]
            neighbors_via(faces, incident, v).contains(y) ==> y != v && exists|k: int|
                0 <= k < incident.len() && face_has(faces[(#[trigger] incident[k]) as int], y),
        forall|y: usize, k: int|
            0 <= k < incident.len() && y != v && face_has(
                faces[(#[trigger] incident[k]) as int],
                y,
            ) ==> #[trigger] neighbors_via(faces, incident, v).contains(y),
    decreases incident.len(),
{
    if incident.len() > 0 {
        let head = incident.drop_last();
        let f = faces[incident.last() as int];
        let before = neighbors_via(faces, head, v);
        let after = neighbors_via(faces, incident, v);
        lemma_neighbors_via(faces, head, v);
        lemma_add_face_neighbors(before, f, v);
        assert forall|y: usize| #[trigger] after.contains(y) implies y != v && exists|k: int|
            0 <= k < incident.len() && face_has(faces[(#[trigger] incident[k]) as int], y) by {
            if before.contains(y) {
                let k = choose|k: int|
                    0 <= k < head.len() && face_has(faces[(#[trigger] head[k]) as int], y);
                assert(incident[k] == head[k]);
            } else {
                assert(face_has(faces[incident[incident.len() - 1] as int], y));
            }
        }
        assert forall|y: usize, k: int|
            0 <= k < incident.len() && y != v && face_has(
                faces[(#[trigger] incident[k]) as int],
                y,
            ) implies #[trigger] after.contains(y) by {
            if k < head.len() {
                assert(head[k] == incident[k]);
                assert(before.contains(y));
            }
        }
    }
}

/// The neighbours of a vertex are the other vertices on its faces, each
/// once.
pub proof fn lemma_neighbor_members(faces: Seq<Face>, v: usize)
    requires
        faces.len() <= usize::MAX,
    ensures
        neighbor_list(faces, v).no_duplicates(),
        forall|y: usize| #[trigger] neighbor_list(faces, v).contains(y) ==> linked(faces, v, y),
        forall|y: usize| #[trigger] linked(faces, v, y) ==> neighbor_list(faces, v).contains(y),
{
    let incident = incident_faces(faces, v);
    let list = neighbor_list(faces, v);
    lemma_incident_members(faces, v);
    lemma_neighbors_via(faces, incident, v);
    assert forall|y: usize| #[trigger] list.contains(y) implies linked(faces, v, y) by {
        let k = choose|k: int|
            0 <= k < incident.len() && face_has(faces[(#[trigger] incident[k]) as int], y);
        assert(incident.contains(incident[k]));
        assert(joins(faces, incident[k] as int, v, y));
    }
    assert forall|y: usize| #[trigger] linked(faces, v, y) implies list.contains(y) by {
        let i = choose|i: int| joins(faces, i, v, y);
        assert(face_has(faces[i], v));
        assert(incident.contains(i as usize));
        let k = choose|k: int| 0 <= k < incident.len() && incident[k] == i as usize;
        assert(face_has(faces[incident[k] as int], y));
    }
}

/// Adjacency is symmetric: `b` is a neighbour of `a` exactly when `a` is a
/// neighbour of `b`, whatever the faces.
pub proof fn lemma_adjacency_symmetric(faces: Seq<Face>, a: usize, b: usize)
    requires
        faces.len() <= usize::MAX,
    ensures
        neighbor_list(faces, a).contains(b) <==> neighbor_list(faces, b).contains(a),
{
    lemma_neighbor_members(faces, a);
    lemma_neighbor_members(faces, b);
    if linked(faces, a, b) {
        let i = choose|i: int| joins(faces, i, a, b);
        assert(joins(faces, i, b, a));
    }
    if linked(faces, b, a) {
        let i = choose|i: int| joins(faces, i, b, a);
        assert(joins(faces, i, a, b));
    }
}

// ---------------------------------------------------------------------------
// Closed surfaces
// ---------------------------------------------------------------------------

/// Corner `s` of a face: 0, 1 and 2 for `a`, `b` and `c`.
pub open spec fn corner(f: Face, s: int) -> usize {
    if s == 0 {
        f.a
    } else if s == 1 {
        f.b
    } else {
        f.c
    }
}

/// The corner after corner `s`, in winding order.
pub open spec fn nxt(s: int) -> int {
    if s == 2 {
        0
    } else {
        s + 1
    }
}

/// The corner before corner `s`, in winding order.
pub open spec fn prv(s: int) -> int {
    if s == 0 {
        2
    } else {
        s - 1
    }
}

/// The face has three different corners among the first `n` vertices.
pub open spec fn tri_ok(f: Face, n: nat) -> bool {
    &&& f.a < n && f.b < n && f.c < n
    &&& f.a != f.b && f.b != f.c && f.c != f.a
}

/// `(j, s)` names a side of a face: the edge of face `j` that runs from its
/// corner `s` to the next corner.
pub open spec fn is_he(faces: Seq<Face>, j: int, s: int) -> bool {
    0 <= j < faces.len() && 0 <= s < 3
}

/// Where side `(j, s)` starts.
pub open spec fn he_src(faces: Seq<Face>, j: int, s: int) -> usize {
    corner(faces[j], s)
}

/// Where side `(j, s)` ends.
pub open spec fn he_dst(faces: Seq<Face>, j: int, s: int) -> usize {
    corner(faces[j], nxt(s))
}

/// The corner of face `j` opposite its side `s`.
pub open spec fn he_apex(faces: Seq<Face>, j: int, s: int) -> usize {
    corner(faces[j], prv(s))
}

/// Two sides run along the same edge in the same direction.
pub open spec fn same_dir(faces: Seq<Face>, j1: int, s1: int, j2: int, s2: int) -> bool {
    &&& is_he(faces, j1, s1)
    &&& is_he(faces, j2, s2)
    &&& he_src(faces, j1, s1) == he_src(faces, j2, s2)
    &&& he_dst(faces, j1, s1) == he_dst(faces, j2, s2)
}

/// Two sides run along the same edge in opposite directions.
pub open spec fn twins(faces: Seq<Face>, j1: int, s1: int, j2: int, s2: int) -> bool {
    &&& is_he(faces, j1, s1)
    &&& is_he(faces, j2, s2)
    &&& he_src(faces, j2, s2) == he_dst(faces, j1, s1)
    &&& he_dst(faces, j2, s2) == he_src(faces, j1, s1)
}

/// Side `(j, s)` has a twin.
pub open spec fn has_twin(faces: Seq<Face>, j: int, s: int) -> bool {
    exists|j2: int, s2: int| twins(faces, j, s, j2, s2)
}

/// The faces form a closed surface over the first `n` vertices: every face
/// is a proper triangle; no two sides run along an edge in the same
/// direction; every side has a twin that runs the other way; and the two
/// faces at an edge have different third corners.
pub open spec fn closed_surface(faces: Seq<Face>, n: nat) -> bool {
    &&& forall|j: int| 0 <= j < faces.len() ==> tri_ok(#[trigger] faces[j], n)
    &&& forall|j1: int, s1: int, j2: int, s2: int| #[trigger]
        same_dir(faces, j1, s1, j2, s2) ==> j1 == j2 && s1 == s2
    &&& forall|j: int, s: int| is_he(faces, j, s) ==> #[trigger] has_twin(faces, j, s)
    &&& forall|j1: int, s1: int, j2: int, s2: int| #[trigger]
        twins(faces, j1, s1, j2, s2) ==> he_apex(faces, j1, s1) != he_apex(faces, j2, s2)
}

/// The midpoint of side `(j, s)`.
pub open spec fn he_mid(
    faces: Seq<Face>,
    first: usize,
    edges: Seq<(usize, usize)>,
    j: int,
    s: int,
) -> usize {
    midpoint(first, edges, he_src(faces, j, s), he_dst(faces, j, s))
}

/// A closed surface about to be subdivided, with `first` its number of
/// vertices and `edges` its edge list.
#[verifier::opaque]
pub open spec fn splitting(faces: Seq<Face>, first: usize, edges: Seq<(usize, usize)>) -> bool {
    &&& closed_surface(faces, first as nat)
    &&& edges == edge_order(faces)
    &&& first + edges.len() <= usize::MAX
    &&& 4 * faces.len() <= usize::MAX
}

/// What equal midpoints tell of two sides: they are one side, or twins, and
/// then their faces have different third corners.
pub open spec fn mids_tell(
    faces: Seq<Face>,
    first: usize,
    edges: Seq<(usize, usize)>,
    j1: int,
    s1: int,
    j2: int,
    s2: int,
) -> bool {
    he_mid(faces, first, edges, j1, s1) == he_mid(faces, first, edges, j2, s2) <==> ((j1 == j2
        && s1 == s2) || (twins(faces, j1, s1, j2, s2) && he_apex(faces, j1, s1) != he_apex(
        faces,
        j2,
        s2,
    )))
}

/// The midpoint of a side is a new vertex, and the edge list holds the
/// side's edge at its place.
pub proof fn lemma_he_mid_range(
    faces: Seq<Face>,
    first: usize,
    edges: Seq<(usize, usize)>,
    j: int,
    s: int,
)
    requires
        splitting(faces, first, edges),
        is_he(faces, j, s),
    ensures
        first <= he_mid(faces, first, edges, j, s) < first + edges.len(),
        edges[he_mid(faces, first, edges, j, s) - first] == norm_edge(
            he_src(faces, j, s),
            he_dst(faces, j, s),
        ),
        he_src(faces, j, s) < first,
        he_dst(faces, j, s) < first,
        he_apex(faces, j, s) < first,
{
    reveal(splitting);
    lemma_edge_order(faces);
    let f = faces[j];
    assert(tri_ok(f, first as nat));
    assert(edges.contains(norm_edge(f.a, f.b)));
    assert(edges.contains(norm_edge(f.b, f.c)));
    assert(edges.contains(norm_edge(f.c, f.a)));
    crate::topology::lemma_midpoint_range(first, edges, he_src(faces, j, s), he_dst(faces, j, s));
}

/// Two sides have the same midpoint exactly when they are one side or
/// twins.
pub proof fn lemma_mids_tell(
    faces: Seq<Face>,
    first: usize,
    edges: Seq<(usize, usize)>,
    j1: int,
    s1: int,
    j2: int,
    s2: int,
)
    requires
        splitting(faces, first, edges),
        is_he(faces, j1, s1),
        is_he(faces, j2, s2),
    ensures
        mids_tell(faces, first, edges, j1, s1, j2, s2),
{
    reveal(splitting);
    lemma_he_mid_range(faces, first, edges, j1, s1);
    lemma_he_mid_range(faces, first, edges, j2, s2);
    let u1 = he_src(faces, j1, s1);
    let w1 = he_dst(faces, j1, s1);
    let u2 = he_src(faces, j2, s2);
    let w2 = he_dst(faces, j2, s2);
    assert(tri_ok(faces[j1], first as nat));
    assert(tri_ok(faces[j2], first as nat));
    if he_mid(faces, first, edges, j1, s1) == he_mid(faces, first, edges, j2, s2) {
        assert(norm_edge(u1, w1) == norm_edge(u2, w2));
        if u1 == u2 {
            assert(same_dir(faces, j1, s1, j2, s2));
        } else {
            assert(twins(faces, j1, s1, j2, s2));
        }
    }
    if twins(faces, j1, s1, j2, s2) {
        assert(norm_edge(u1, w1) == norm_edge(u2, w2));
    }
}

/// What the midpoints tell of every pair of sides of faces `i1` and `i2`.
pub open spec fn pair_facts(
    faces: Seq<Face>,
    first: usize,
    edges: Seq<(usize, usize)>,
    i1: int,
    i2: int,
) -> bool {
    &&& mids_tell(faces, first, edges, i1, 0, i2, 0)
    &&& mids_tell(faces, first, edges, i1, 0, i2, 1)
    &&& mids_tell(faces, first, edges, i1, 0, i2, 2)
    &&& mids_tell(faces, first, edges, i1, 1, i2, 0)
    &&& mids_tell(faces, first, edges, i1, 1, i2, 1)
    &&& mids_tell(faces, first, edges, i1, 1, i2, 2)
    &&& mids_tell(faces, first, edges, i1, 2, i2, 0)
    &&& mids_tell(faces, first, edges, i1, 2, i2, 1)
    &&& mids_tell(faces, first, edges, i1, 2, i2, 2)
    &&& tri_ok(faces[i1], first as nat)
    &&& tri_ok(faces[i2], first as nat)
    &&& first <= he_mid(faces, first, edges, i1, 0) < first + edges.len()
    &&& first <= he_mid(faces, first, edges, i1, 1) < first + edges.len()
    &&& first <= he_mid(faces, first, edges, i1, 2) < first + edges.len()
    &&& first <= he_mid(faces, first, edges, i2, 0) < first + edges.len()
    &&& first <= he_mid(faces, first, edges, i2, 1) < first + edges.len()
    &&& first <= he_mid(faces, first, edges, i2, 2) < first + edges.len()
}

/// The facts of a pair of faces hold on a surface that is being split.
pub proof fn lemma_pair_facts(
    faces: Seq<Face>,
    first: usize,
    edges: Seq<(usize, usize)>,
    i1: int,
    i2: int,
)
    requires
        splitting(faces, first, edges),
        0 <= i1 < faces.len(),
        0 <= i2 < faces.len(),
    ensures
        pair_facts(faces, first, edges, i1, i2),
{
    reveal(splitting);
    lemma_mids_tell(faces, first, edges, i1, 0, i2, 0);
    lemma_mids_tell(faces, first, edges, i1, 0, i2, 1);
    lemma_mids_tell(faces, first, edges, i1, 0, i2, 2);
    lemma_mids_tell(faces, first, edges, i1, 1, i2, 0);
    lemma_mids_tell(faces, first, edges, i1, 1, i2, 1);
    lemma_mids_tell(faces, first, edges, i1, 1, i2, 2);
    lemma_mids_tell(faces, first, edges, i1, 2, i2, 0);
    lemma_mids_tell(faces, first, edges, i1, 2, i2, 1);
    lemma_mids_tell(faces, first, edges, i1, 2, i2, 2);
    lemma_he_mid_range(faces, first, edges, i1, 0);
    lemma_he_mid_range(faces, first, edges, i1, 1);
    lemma_he_mid_range(faces, first, edges, i1, 2);
    lemma_he_mid_range(faces, first, edges, i2, 0);
    lemma_he_mid_range(faces, first, edges, i2, 1);
    lemma_he_mid_range(faces, first, edges, i2, 2);
    assert(tri_ok(faces[i1], first as nat));
    assert(tri_ok(faces[i2], first as nat));
}

/// Corner `s` of the `c`-th part of face `i`, by the corners and midpoints
/// of the face: a corner part holds a corner of the face, the midpoint of
/// the side that leaves it and the midpoint of the side that reaches it;
/// the part in the middle holds the three midpoints.
pub open spec fn new_corner(
    faces: Seq<Face>,
    first: usize,
    edges: Seq<(usize, usize)>,
    i: int,
    c: int,
    s: int,
) -> usize {
    if c < 3 {
        if s == 0 {
            corner(faces[i], c)
        } else if s == 1 {
            he_mid(faces, first, edges, i, c)
        } else {
            he_mid(faces, first, edges, i, prv(c))
        }
    } else {
        he_mid(faces, first, edges, i, s)
    }
}

/// The corners of the split faces are as `new_corner` says.
pub proof fn lemma_new_corner(
    faces: Seq<Face>,
    first: usize,
    edges: Seq<(usize, usize)>,
    j: int,
    s: int,
)
    requires
        0 <= j < 4 * faces.len(),
        0 <= s < 3,
    ensures
        corner(split_faces(faces, first, edges)[j], s) == new_corner(
            faces,
            first,
            edges,
            j / 4,
            j % 4,
            s,
        ),
        0 <= j / 4 < faces.len(),
        0 <= j % 4 < 4,
{
    assert(split_faces(faces, first, edges)[j] == split_face(faces[j / 4], first, edges, j % 4));
}

/// The three corners of a split face, and the old face it comes from.
pub proof fn lemma_new_face(faces: Seq<Face>, first: usize, edges: Seq<(usize, usize)>, j: int)
    requires
        0 <= j < 4 * faces.len(),
    ensures
        0 <= j / 4 < faces.len(),
        0 <= j % 4 < 4,
        j == 4 * (j / 4) + j % 4,
        split_faces(faces, first, edges)[j].a == new_corner(faces, first, edges, j / 4, j % 4, 0),
        split_faces(faces, first, edges)[j].b == new_corner(faces, first, edges, j / 4, j % 4, 1),
        split_faces(faces, first, edges)[j].c == new_corner(faces, first, edges, j / 4, j % 4, 2),
{
    lemma_new_corner(faces, first, edges, j, 0);
    lemma_new_corner(faces, first, edges, j, 1);
    lemma_new_corner(faces, first, edges, j, 2);
}

/// The split faces are proper triangles over the old and the new vertices.
pub proof fn lemma_split_tri_ok(faces: Seq<Face>, first: usize, edges: Seq<(usize, usize)>, j: int)
    requires
        splitting(faces, first, edges),
        0 <= j < 4 * faces.len(),
    ensures
        tri_ok(split_faces(faces, first, edges)[j], (first + edges.len()) as nat),
{
    reveal(splitting);
    lemma_new_face(faces, first, edges, j);
    lemma_pair_facts(faces, first, edges, j / 4, j / 4);
}

/// No two sides of the split faces run along an edge in the same
/// direction.
pub proof fn lemma_split_same_dir(
    faces: Seq<Face>,
    first: usize,
    edges: Seq<(usize, usize)>,
    j1: int,
    s1: int,
    j2: int,
    s2: int,
)
    requires
        splitting(faces, first, edges),
        same_dir(split_faces(faces, first, edges), j1, s1, j2, s2),
    ensures
        j1 == j2 && s1 == s2,
{
    reveal(splitting);
    lemma_new_face(faces, first, edges, j1);
    lemma_new_face(faces, first, edges, j2);
    lemma_pair_facts(faces, first, edges, j1 / 4, j2 / 4);
}

/// Every side of a split face has a twin.
pub proof fn lemma_split_twin(
    faces: Seq<Face>,
    first: usize,
    edges: Seq<(usize, usize)>,
    j: int,
    s: int,
)
    requires
        splitting(faces, first, edges),
        is_he(split_faces(faces, first, edges), j, s),
    ensures
        has_twin(split_faces(faces, first, edges), j, s),
{
    reveal(splitting);
    let parts = split_faces(faces, first, edges);
    let i = j / 4;
    let c = j % 4;
    lemma_new_face(faces, first, edges, j);
    lemma_pair_facts(faces, first, edges, i, i);
    if c == 3 {
        let j2 = 4 * i + nxt(s);
        lemma_new_face(faces, first, edges, j2);
        assert(twins(parts, j, s, j2, 1));
    } else if s == 1 {
        let j2 = 4 * i + 3;
        lemma_new_face(faces, first, edges, j2);
        assert(twins(parts, j, s, j2, prv(c)));
    } else if s == 0 {
        assert(has_twin(faces, i, c));
        let (i2, l) = choose|i2: int, l: int| twins(faces, i, c, i2, l);
        let j2 = 4 * i2 + nxt(l);
        lemma_new_face(faces, first, edges, j2);
        lemma_pair_facts(faces, first, edges, i, i2);
        assert(twins(parts, j, s, j2, 2));
    } else {
        assert(has_twin(faces, i, prv(c)));
        let (i2, l) = choose|i2: int, l: int| twins(faces, i, prv(c), i2, l);
        let j2 = 4 * i2 + l;
        lemma_new_face(faces, first, edges, j2);
        lemma_pair_facts(faces, first, edges, i, i2);
        assert(twins(parts, j, s, j2, 0));
    }
}

/// The two split faces at an edge have different third corners.
pub proof fn lemma_split_apex(
    faces: Seq<Face>,
    first: usize,
    edges: Seq<(usize, usize)>,
    j1: int,
    s1: int,
    j2: int,
    s2: int,
)
    requires
        splitting(faces, first, edges),
        twins(split_faces(faces, first, edges), j1, s1, j2, s2),
    ensures
        he_apex(split_faces(faces, first, edges), j1, s1) != he_apex(
            split_faces(faces, first, edges),
            j2,
            s2,
        ),
{
    reveal(splitting);
    lemma_new_face(faces, first, edges, j1);
    lemma_new_face(faces, first, edges, j2);
    lemma_pair_facts(faces, first, edges, j1 / 4, j2 / 4);
}

/// A closed surface stays one when every face is split in four.
pub proof fn lemma_split_closed(faces: Seq<Face>, first: usize, edges: Seq<(usize, usize)>)
    requires
        splitting(faces, first, edges),
    ensures
        closed_surface(split_faces(faces, first, edges), (first + edges.len()) as nat),
{
    reveal(splitting);
    let parts = split_faces(faces, first, edges);
    let n = (first + edges.len()) as nat;
    assert forall|j: int| 0 <= j < parts.len() implies tri_ok(#[trigger] parts[j], n) by {
        lemma_split_tri_ok(faces, first, edges, j);
    }
    assert forall|j1: int, s1: int, j2: int, s2: int| #[trigger]
        same_dir(parts, j1, s1, j2, s2) implies j1 == j2 && s1 == s2 by {
        lemma_split_same_dir(faces, first, edges, j1, s1, j2, s2);
    }
    assert forall|j: int, s: int| is_he(parts, j, s) implies #[trigger] has_twin(parts, j, s) by {
        lemma_split_twin(faces, first, edges, j, s);
    }
    assert forall|j1: int, s1: int, j2: int, s2: int| #[trigger]
        twins(parts, j1, s1, j2, s2) implies he_apex(parts, j1, s1) != he_apex(parts, j2, s2) by {
        lemma_split_apex(faces, first, edges, j1, s1, j2, s2);
    }
}

// ---------------------------------------------------------------------------
// Neighbours on a closed surface and after a split
// ---------------------------------------------------------------------------

/// Side `(j, s)` runs from `v` to `x`.
pub open spec fn side_from(faces: Seq<Face>, j: int, s: int, v: usize, x: usize) -> bool {
    is_he(faces, j, s) && he_src(faces, j, s) == v && he_dst(faces, j, s) == x
}

/// On a closed surface a side runs from each vertex to each of its
/// neighbours.
pub proof fn lemma_linked_side(faces: Seq<Face>, n: nat, v: usize, x: usize)
    requires
        closed_surface(faces, n),
        linked(faces, v, x),
    ensures
        exists|j: int, s: int| side_from(faces, j, s, v, x),
{
    let i = choose|i: int| joins(faces, i, v, x);
    let f = faces[i];
    assert(tri_ok(f, n));
    if (f.a == v && f.b == x) {
        assert(side_from(faces, i, 0, v, x));
    } else if (f.b == v && f.c == x) {
        assert(side_from(faces, i, 1, v, x));
    } else if (f.c == v && f.a == x) {
        assert(side_from(faces, i, 2, v, x));
    } else {
        let s = if f.a == x {
            0int
        } else if f.b == x {
            1int
        } else {
            2int
        };
        assert(is_he(faces, i, s));
        assert(he_src(faces, i, s) == x && he_dst(faces, i, s) == v);
        assert(has_twin(faces, i, s));
        let (j2, s2) = choose|j2: int, s2: int| twins(faces, i, s, j2, s2);
        assert(side_from(faces, j2, s2, v, x));
    }
}

/// The ends of a side are neighbours.
pub proof fn lemma_side_linked(faces: Seq<Face>, n: nat, j: int, s: int)
    requires
        closed_surface(faces, n),
        is_he(faces, j, s),
    ensures
        linked(faces, he_src(faces, j, s), he_dst(faces, j, s)),
        linked(faces, he_dst(faces, j, s), he_src(faces, j, s)),
        linked(faces, he_src(faces, j, s), he_apex(faces, j, s)),
{
    assert(tri_ok(faces[j], n));
    assert(joins(faces, j, he_src(faces, j, s), he_dst(faces, j, s)));
    assert(joins(faces, j, he_dst(faces, j, s), he_src(faces, j, s)));
    assert(joins(faces, j, he_src(faces, j, s), he_apex(faces, j, s)));
}

/// A side has one twin.
pub proof fn lemma_twin_unique(
    faces: Seq<Face>,
    n: nat,
    j: int,
    s: int,
    j1: int,
    s1: int,
    j2: int,
    s2: int,
)
    requires
        closed_surface(faces, n),
        twins(faces, j, s, j1, s1),
        twins(faces, j, s, j2, s2),
    ensures
        j1 == j2 && s1 == s2,
{
    assert(same_dir(faces, j1, s1, j2, s2));
}

/// The midpoint between `v` and each of its neighbours, as a function of
/// the neighbour.
pub open spec fn mid_from(first: usize, edges: Seq<(usize, usize)>, v: usize) -> spec_fn(
    usize,
) -> usize {
    |x: usize| midpoint(first, edges, v, x)
}

/// After a split, the neighbours of an old vertex are the midpoints
/// between it and its old neighbours.
pub proof fn lemma_old_vertex_links(
    faces: Seq<Face>,
    first: usize,
    edges: Seq<(usize, usize)>,
    v: usize,
)
    requires
        splitting(faces, first, edges),
        v < first,
    ensures
        forall|y: usize| #[trigger]
            linked(split_faces(faces, first, edges), v, y) ==> exists|x: usize| #[trigger]
                linked(faces, v, x) && y == midpoint(first, edges, v, x),
        forall|x: usize| #[trigger]
            linked(faces, v, x) ==> linked(
                split_faces(faces, first, edges),
                v,
                midpoint(first, edges, v, x),
            ),
{
    reveal(splitting);
    let parts = split_faces(faces, first, edges);
    assert forall|y: usize| #[trigger] linked(parts, v, y) implies exists|x: usize| #[trigger]
        linked(faces, v, x) && y == midpoint(first, edges, v, x) by {
        let j = choose|j: int| joins(parts, j, v, y);
        let i = j / 4;
        let c = j % 4;
        lemma_new_face(faces, first, edges, j);
        lemma_pair_facts(faces, first, edges, i, i);
        assert(c < 3);
        assert(is_he(faces, i, c));
        assert(is_he(faces, i, prv(c)));
        lemma_side_linked(faces, first as nat, i, c);
        if y == he_mid(faces, first, edges, i, c) {
            let x = he_dst(faces, i, c);
            assert(linked(faces, v, x) && y == midpoint(first, edges, v, x));
        } else {
            let x = he_apex(faces, i, c);
            assert(norm_edge(x, v) == norm_edge(v, x));
            assert(linked(faces, v, x) && y == midpoint(first, edges, v, x));
        }
    }
    assert forall|x: usize| #[trigger] linked(faces, v, x) implies linked(
        parts,
        v,
        midpoint(first, edges, v, x),
    ) by {
        lemma_linked_side(faces, first as nat, v, x);
        let (j, s) = choose|j: int, s: int| side_from(faces, j, s, v, x);
        lemma_new_face(faces, first, edges, 4 * j + s);
        lemma_pair_facts(faces, first, edges, j, j);
        assert(joins(parts, 4 * j + s, v, he_mid(faces, first, edges, j, s)));
    }
}

/// An old vertex has as many neighbours after a split as before.
pub proof fn lemma_old_vertex_degree(
    faces: Seq<Face>,
    first: usize,
    edges: Seq<(usize, usize)>,
    v: usize,
)
    requires
        splitting(faces, first, edges),
        v < first,
    ensures
        neighbor_list(split_faces(faces, first, edges), v).len() == neighbor_list(faces, v).len(),
{
    reveal(splitting);
    let parts = split_faces(faces, first, edges);
    let old_list = neighbor_list(faces, v);
    let new_list = neighbor_list(parts, v);
    let f = mid_from(first, edges, v);
    let mapped = old_list.map_values(f);
    lemma_neighbor_members(faces, v);
    lemma_neighbor_members(parts, v);
    lemma_old_vertex_links(faces, first, edges, v);
    assert forall|a: int, b: int| 0 <= a < mapped.len() && 0 <= b < mapped.len() && a != b implies mapped[a]
        != mapped[b] by {
        let xa = old_list[a];
        let xb = old_list[b];
        assert(old_list.contains(xa) && old_list.contains(xb));
        lemma_linked_side(faces, first as nat, v, xa);
        lemma_linked_side(faces, first as nat, v, xb);
        let (ja, sa) = choose|j: int, s: int| side_from(faces, j, s, v, xa);
        let (jb, sb) = choose|j: int, s: int| side_from(faces, j, s, v, xb);
        lemma_mids_tell(faces, first, edges, ja, sa, jb, sb);
        assert(tri_ok(faces[ja], first as nat));
    }
    assert forall|y: usize| #[trigger] new_list.to_set().contains(y) implies mapped.to_set().contains(
        y,
    ) by {
        assert(new_list.contains(y));
        assert(linked(parts, v, y));
        let x = choose|x: usize| #[trigger] linked(faces, v, x) && y == midpoint(first, edges, v, x);
        assert(old_list.contains(x));
        let k = choose|k: int| 0 <= k < old_list.len() && old_list[k] == x;
        assert(mapped[k] == y);
    }
    assert forall|y: usize| #[trigger] mapped.to_set().contains(y) implies new_list.to_set().contains(
        y,
    ) by {
        let k = choose|k: int| 0 <= k < mapped.len() && mapped[k] == y;
        let x = old_list[k];
        assert(old_list.contains(x));
        assert(linked(faces, v, x));
        assert(linked(parts, v, midpoint(first, edges, v, x)));
    }
    assert(new_list.to_set() =~= mapped.to_set());
    new_list.unique_seq_to_set();
    mapped.unique_seq_to_set();
}

/// Side `(j, s)` runs along edge `e`.
pub open spec fn side_of(faces: Seq<Face>, j: int, s: int, e: (usize, usize)) -> bool {
    is_he(faces, j, s) && norm_edge(he_src(faces, j, s), he_dst(faces, j, s)) == e
}

/// Every edge of the edge list is the edge of a side.
pub proof fn lemma_edge_order_sides(faces: Seq<Face>, e: (usize, usize))
    requires
        edge_order(faces).contains(e),
    ensures
        exists|j: int, s: int| side_of(faces, j, s, e),
    decreases faces.len(),
{
    if faces.len() > 0 {
        let head = faces.drop_last();
        let f = faces.last();
        let last = faces.len() - 1;
        let e0 = edge_order(head);
        let e1 = crate::topology::add_edge(e0, norm_edge(f.a, f.b));
        let e2 = crate::topology::add_edge(e1, norm_edge(f.b, f.c));
        let e3 = crate::topology::add_edge(e2, norm_edge(f.c, f.a));
        assert(edge_order(faces) == e3);
        let k = choose|k: int| 0 <= k < e3.len() && e3[k] == e;
        if e0.contains(e) {
            lemma_edge_order_sides(head, e);
            let (j, s) = choose|j: int, s: int| side_of(head, j, s, e);
            assert(head[j] == faces[j]);
            assert(side_of(faces, j, s, e));
        } else if e == norm_edge(f.a, f.b) {
            assert(side_of(faces, last, 0, e));
        } else if e == norm_edge(f.b, f.c) {
            assert(side_of(faces, last, 1, e));
        } else if e == norm_edge(f.c, f.a) {
            assert(side_of(faces, last, 2, e));
        } else {
            assert(e2[k] == e);
            assert(e1[k] == e);
            assert(e0[k] == e);
        }
    }
}

/// `y` is one of the six vertices round the midpoint of side `(i, k)`,
/// whose twin is `(i2, l)`: an end of the side, or the midpoint of another
/// side of one of the two faces.
pub open spec fn in_ring(
    faces: Seq<Face>,
    first: usize,
    edges: Seq<(usize, usize)>,
    i: int,
    k: int,
    i2: int,
    l: int,
    y: usize,
) -> bool {
    ||| y == he_src(faces, i, k)
    ||| y == he_dst(faces, i, k)
    ||| y == he_mid(faces, first, edges, i, nxt(k))
    ||| y == he_mid(faces, first, edges, i, prv(k))
    ||| y == he_mid(faces, first, edges, i2, nxt(l))
    ||| y == he_mid(faces, first, edges, i2, prv(l))
}

/// Six different values make a set of six.
pub proof fn lemma_set_of_six(a: usize, b: usize, c: usize, d: usize, e: usize, f: usize)
    requires
        a != b && a != c && a != d && a != e && a != f,
        b != c && b != d && b != e && b != f,
        c != d && c != e && c != f,
        d != e && d != f,
        e != f,
    ensures
        set![a, b, c, d, e, f].len() == 6,
        set![a, b, c, d, e, f].finite(),
{
}

/// The six vertices round a midpoint are different from one another.
pub proof fn lemma_ring_distinct(
    faces: Seq<Face>,
    first: usize,
    edges: Seq<(usize, usize)>,
    i: int,
    k: int,
    i2: int,
    l: int,
)
    requires
        splitting(faces, first, edges),
        twins(faces, i, k, i2, l),
    ensures
        set![
            he_src(faces, i, k),
            he_dst(faces, i, k),
            he_mid(faces, first, edges, i, nxt(k)),
            he_mid(faces, first, edges, i, prv(k)),
            he_mid(faces, first, edges, i2, nxt(l)),
            he_mid(faces, first, edges, i2, prv(l)),
        ].len() == 6,
{
    reveal(splitting);
    lemma_pair_facts(faces, first, edges, i, i);
    lemma_pair_facts(faces, first, edges, i2, i2);
    lemma_pair_facts(faces, first, edges, i, i2);
    let u = he_src(faces, i, k);
    let w = he_dst(faces, i, k);
    let near_next = he_mid(faces, first, edges, i, nxt(k));
    let near_prev = he_mid(faces, first, edges, i, prv(k));
    let far_next = he_mid(faces, first, edges, i2, nxt(l));
    let far_prev = he_mid(faces, first, edges, i2, prv(l));
    assert(he_apex(faces, i, k) != he_apex(faces, i2, l));
    assert(u != w);
    assert(near_next != near_prev);
    assert(far_next != far_prev);
    assert(near_next != far_next);
    assert(near_next != far_prev);
    assert(near_prev != far_next);
    assert(near_prev != far_prev);
    lemma_set_of_six(u, w, near_next, near_prev, far_next, far_prev);
}

/// A neighbour of a midpoint after the split is one of the six vertices
/// round it.
pub proof fn lemma_ring_covers(
    faces: Seq<Face>,
    first: usize,
    edges: Seq<(usize, usize)>,
    i: int,
    k: int,
    i2: int,
    l: int,
    j: int,
    y: usize,
)
    requires
        splitting(faces, first, edges),
        twins(faces, i, k, i2, l),
        joins(split_faces(faces, first, edges), j, he_mid(faces, first, edges, i, k), y),
        y != he_mid(faces, first, edges, i, k),
    ensures
        in_ring(faces, first, edges, i, k, i2, l, y),
{
    reveal(splitting);
    let i3 = j / 4;
    let c = j % 4;
    let m = he_mid(faces, first, edges, i, k);
    lemma_new_face(faces, first, edges, j);
    lemma_pair_facts(faces, first, edges, i3, i3);
    lemma_pair_facts(faces, first, edges, i3, i);
    lemma_pair_facts(faces, first, edges, i, i2);
    // Which side of face `i3` has its midpoint at `m`.
    let k3 = if he_mid(faces, first, edges, i3, 0) == m {
        0int
    } else if he_mid(faces, first, edges, i3, 1) == m {
        1int
    } else {
        2int
    };
    assert(he_mid(faces, first, edges, i3, k3) == m);
    assert(mids_tell(faces, first, edges, i3, k3, i, k));
    if !(i3 == i && k3 == k) {
        assert(twins(faces, i3, k3, i, k));
        assert(same_dir(faces, i3, k3, i2, l));
        assert(i3 == i2 && k3 == l);
    }
}

/// Each of the six vertices round a midpoint is a neighbour of it after the
/// split.
pub proof fn lemma_ring_members(
    faces: Seq<Face>,
    first: usize,
    edges: Seq<(usize, usize)>,
    i: int,
    k: int,
    i2: int,
    l: int,
    y: usize,
)
    requires
        splitting(faces, first, edges),
        twins(faces, i, k, i2, l),
        in_ring(faces, first, edges, i, k, i2, l, y),
    ensures
        linked(split_faces(faces, first, edges), he_mid(faces, first, edges, i, k), y),
{
    reveal(splitting);
    let parts = split_faces(faces, first, edges);
    let m = he_mid(faces, first, edges, i, k);
    lemma_pair_facts(faces, first, edges, i, i);
    lemma_pair_facts(faces, first, edges, i2, i2);
    lemma_pair_facts(faces, first, edges, i, i2);
    assert(he_mid(faces, first, edges, i2, l) == m);
    if y == he_src(faces, i, k) || y == he_mid(faces, first, edges, i, prv(k)) {
        lemma_new_face(faces, first, edges, 4 * i + k);
        assert(joins(parts, 4 * i + k, m, y));
    } else if y == he_dst(faces, i, k) || y == he_mid(faces, first, edges, i, nxt(k)) {
        lemma_new_face(faces, first, edges, 4 * i + nxt(k));
        assert(joins(parts, 4 * i + nxt(k), m, y));
    } else if y == he_mid(faces, first, edges, i2, nxt(l)) {
        lemma_new_face(faces, first, edges, 4 * i2 + nxt(l));
        assert(joins(parts, 4 * i2 + nxt(l), m, y));
    } else {
        lemma_new_face(faces, first, edges, 4 * i2 + l);
        assert(joins(parts, 4 * i2 + l, m, y));
    }
}

/// Finds a side whose midpoint is the new vertex `m`, and its twin.
pub proof fn lemma_midpoint_side(
    faces: Seq<Face>,
    first: usize,
    edges: Seq<(usize, usize)>,
    m: usize,
) -> (r: (int, int, int, int))
    requires
        splitting(faces, first, edges),
        first <= m < first + edges.len(),
    ensures
        twins(faces, r.0, r.1, r.2, r.3),
        he_mid(faces, first, edges, r.0, r.1) == m,
{
    reveal(splitting);
    lemma_edge_order(faces);
    let e = edges[m - first];
    lemma_edge_order_sides(faces, e);
    let (i, k) = choose|i: int, k: int| side_of(faces, i, k, e);
    lemma_he_mid_range(faces, first, edges, i, k);
    assert(he_mid(faces, first, edges, i, k) == m);
    assert(has_twin(faces, i, k));
    let (i2, l) = choose|i2: int, l: int| twins(faces, i, k, i2, l);
    (i, k, i2, l)
}

/// After a split, the vertex at the midpoint of an edge has six
/// neighbours: the ends of the edge and the midpoints of the four other
/// sides of the two faces at the edge.
pub proof fn lemma_new_vertex_degree(
    faces: Seq<Face>,
    first: usize,
    edges: Seq<(usize, usize)>,
    m: usize,
)
    requires
        splitting(faces, first, edges),
        first <= m < first + edges.len(),
    ensures
        neighbor_list(split_faces(faces, first, edges), m).len() == 6,
{
    let parts = split_faces(faces, first, edges);
    let list = neighbor_list(parts, m);
    let (i, k, i2, l) = lemma_midpoint_side(faces, first, edges, m);
    let ring = set![
        he_src(faces, i, k),
        he_dst(faces, i, k),
        he_mid(faces, first, edges, i, nxt(k)),
        he_mid(faces, first, edges, i, prv(k)),
        he_mid(faces, first, edges, i2, nxt(l)),
        he_mid(faces, first, edges, i2, prv(l)),
    ];
    assert(parts.len() <= usize::MAX) by {
        reveal(splitting);
    }
    lemma_neighbor_members(parts, m);
    assert forall|y: usize| #[trigger] list.to_set().contains(y) implies ring.contains(y) by {
        assert(list.contains(y));
        assert(linked(parts, m, y));
        let j = choose|j: int| joins(parts, j, m, y);
        lemma_ring_covers(faces, first, edges, i, k, i2, l, j, y);
    }
    assert forall|y: usize| #[trigger] ring.contains(y) implies list.to_set().contains(y) by {
        assert(in_ring(faces, first, edges, i, k, i2, l, y));
        lemma_ring_members(faces, first, edges, i, k, i2, l, y);
    }
    assert(list.to_set() =~= ring);
    list.unique_seq_to_set();
    lemma_ring_distinct(faces, first, edges, i, k, i2, l);
}

} // verus!
