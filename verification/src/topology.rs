//! The cell graph of the polyhedron: an icosahedron whose triangles are
//! split again and again, and the dual of the resulting mesh.
//!
//! Vertices are numbers. The first twelve are the corners of the
//! icosahedron; every later vertex is the midpoint of an edge between two
//! earlier ones, its parents. Each vertex of the final mesh is one cell of
//! the board.

use crate::board::{list_contains, lists_of, valid_adjacency};
use crate::goldberg::{cell_count, lemma_goldberg, lemma_mesh_adjacency_valid};
use crate::surface::closed_surface;
use std::collections::HashMap;
use vstd::prelude::*;

verus! {

/// The number of corners of the icosahedron.
pub const BASE_VERTICES: usize = 12;

/// The number of faces of the icosahedron.
pub const BASE_FACES: usize = 20;

/// The largest number of subdivision rounds: up to here every count fits a
/// machine word of 32 bits.
pub const MAX_SUBDIVISIONS: usize = 12;

/// A triangle of the mesh, by the numbers of its corners in winding order.
#[derive(Debug, Clone, Copy, PartialEq, Eq, Hash, Structural)]
pub struct Face {
    pub a: usize,
    pub b: usize,
    pub c: usize,
}

/// The polyhedron as the generator hands it out. Vertex `v` is cell `v` of
/// the board. `parents[k]` are the two vertices between which vertex
/// `BASE_VERTICES + k` lies; `incident[v]` numbers the faces that meet at
/// `v`, whose centres are the corners of the cell; `adjacency[v]` lists the
/// neighbours of `v`.
#[derive(Debug, Clone, PartialEq, Eq)]
pub struct Polyhedron {
    pub parents: Vec<(usize, usize)>,
    pub faces: Vec<Face>,
    pub incident: Vec<Vec<usize>>,
    pub adjacency: Vec<Vec<usize>>,
}

/// A mesh in the course of subdivision: the parents of every vertex beyond
/// the twelve corners, and the faces.
pub struct Mesh {
    pub parents: Seq<(usize, usize)>,
    pub faces: Seq<Face>,
}

/// The face with corners `a`, `b`, `c`.
pub open spec fn face(a: usize, b: usize, c: usize) -> Face {
    Face { a, b, c }
}

/// The twenty faces of the icosahedron.
pub open spec fn icosahedron() -> Seq<Face> {
    seq![
        face(0, 11, 5),
        face(0, 5, 1),
        face(0, 1, 7),
        face(0, 7, 10),
        face(0, 10, 11),
        face(1, 5, 9),
        face(5, 11, 4),
        face(11, 10, 2),
        face(10, 7, 6),
        face(7, 1, 8),
        face(3, 9, 4),
        face(3, 4, 2),
        face(3, 2, 6),
        face(3, 6, 8),
        face(3, 8, 9),
        face(4, 9, 5),
        face(2, 4, 11),
        face(6, 2, 10),
        face(8, 6, 7),
        face(9, 8, 1),
    ]
}

/// The edge between `u` and `v`, smaller end first.
pub open spec fn norm_edge(u: usize, v: usize) -> (usize, usize) {
    if u < v {
        (u, v)
    } else {
        (v, u)
    }
}

/// `edges` with `e` at its end, unless it holds `e` already.
pub open spec fn add_edge(edges: Seq<(usize, usize)>, e: (usize, usize)) -> Seq<(usize, usize)> {
    if edges.contains(e) {
        edges
    } else {
        edges.push(e)
    }
}

/// `edges` with the three edges of `f` added in winding order.
pub open spec fn add_face_edges(edges: Seq<(usize, usize)>, f: Face) -> Seq<(usize, usize)> {
    add_edge(add_edge(add_edge(edges, norm_edge(f.a, f.b)), norm_edge(f.b, f.c)), norm_edge(f.c, f.a))
}

/// The edges of the faces, each once, in the order in which they first
/// occur.
pub open spec fn edge_order(faces: Seq<Face>) -> Seq<(usize, usize)>
    decreases faces.len(),
{
    if faces.len() == 0 {
        Seq::empty()
    } else {
        add_face_edges(edge_order(faces.drop_last()), faces.last())
    }
}

/// The vertex at the midpoint of the edge between `u` and `v`, where the
/// midpoints of `edges` are numbered from `first` on.
pub open spec fn midpoint(first: usize, edges: Seq<(usize, usize)>, u: usize, v: usize) -> usize {
    (first + edges.index_of(norm_edge(u, v))) as usize
}

/// The `k`-th of the four faces that replace `f`: the three corner faces,
/// then the face between the midpoints.
pub open spec fn split_face(f: Face, first: usize, edges: Seq<(usize, usize)>, k: int) -> Face {
    let ab = midpoint(first, edges, f.a, f.b);
    let bc = midpoint(first, edges, f.b, f.c);
    let ca = midpoint(first, edges, f.c, f.a);
    if k == 0 {
        face(f.a, ab, ca)
    } else if k == 1 {
        face(f.b, bc, ab)
    } else if k == 2 {
        face(f.c, ca, bc)
    } else {
        face(ab, bc, ca)
    }
}

/// The faces after one round: each face replaced by its four parts.
pub open spec fn split_faces(faces: Seq<Face>, first: usize, edges: Seq<(usize, usize)>) -> Seq<
    Face,
> {
    Seq::new(4 * faces.len(), |i: int| split_face(faces[i / 4], first, edges, i % 4))
}

/// The number of vertices of a mesh.
pub open spec fn vertex_count(m: Mesh) -> nat {
    BASE_VERTICES as nat + m.parents.len()
}

/// The mesh after one round of subdivision: every edge gets a midpoint,
/// numbered in the order of `edge_order`, and every face is split in four.
pub open spec fn subdivided(m: Mesh) -> Mesh {
    let edges = edge_order(m.faces);
    Mesh {
        parents: m.parents + edges,
        faces: split_faces(m.faces, vertex_count(m) as usize, edges),
    }
}

/// The icosahedron after `rounds` rounds of subdivision.
pub open spec fn geodesic_mesh(rounds: nat) -> Mesh
    decreases rounds,
{
    if rounds == 0 {
        Mesh { parents: Seq::empty(), faces: icosahedron() }
    } else {
        subdivided(geodesic_mesh((rounds - 1) as nat))
    }
}

/// The face names vertex `v` as one of its corners.
pub open spec fn face_has(f: Face, v: usize) -> bool {
    f.a == v || f.b == v || f.c == v
}

/// Every corner of every face is one of the first `vertices` vertices.
pub open spec fn faces_in_range(faces: Seq<Face>, vertices: nat) -> bool {
    forall|i: int|
        0 <= i < faces.len() ==> (#[trigger] faces[i]).a < vertices && faces[i].b < vertices
            && faces[i].c < vertices
}

/// The number `i` of a face, once for each corner at which the face names
/// `v`.
pub open spec fn corners_at(f: Face, v: usize, i: usize) -> Seq<usize> {
    (if f.a == v {
        seq![i]
    } else {
        Seq::empty()
    }) + (if f.b == v {
        seq![i]
    } else {
        Seq::empty()
    }) + (if f.c == v {
        seq![i]
    } else {
        Seq::empty()
    })
}

/// The numbers of the faces that meet at vertex `v`, in rising order.
pub open spec fn incident_faces(faces: Seq<Face>, v: usize) -> Seq<usize>
    decreases faces.len(),
{
    if faces.len() == 0 {
        Seq::empty()
    } else {
        incident_faces(faces.drop_last(), v) + corners_at(
            faces.last(),
            v,
            (faces.len() - 1) as usize,
        )
    }
}

/// `list` with `x` at its end, unless `x` is `v` itself or stands in the
/// list already.
pub open spec fn add_neighbor(list: Seq<usize>, x: usize, v: usize) -> Seq<usize> {
    if x == v || list.contains(x) {
        list
    } else {
        list.push(x)
    }
}

/// `list` with the corners of `f` other than `v` added.
pub open spec fn add_face_neighbors(list: Seq<usize>, f: Face, v: usize) -> Seq<usize> {
    add_neighbor(add_neighbor(add_neighbor(list, f.a, v), f.b, v), f.c, v)
}

/// The vertices other than `v` on the faces numbered in `incident`, each
/// once, in the order in which they first occur.
pub open spec fn neighbors_via(faces: Seq<Face>, incident: Seq<usize>, v: usize) -> Seq<usize>
    decreases incident.len(),
{
    if incident.len() == 0 {
        Seq::empty()
    } else {
        add_face_neighbors(
            neighbors_via(faces, incident.drop_last(), v),
            faces[incident.last() as int],
            v,
        )
    }
}

/// The neighbours of vertex `v`: the other vertices on the faces that meet
/// at `v`.
pub open spec fn neighbor_list(faces: Seq<Face>, v: usize) -> Seq<usize> {
    neighbors_via(faces, incident_faces(faces, v), v)
}

/// `p` is the icosahedron after `rounds` rounds of subdivision, with the
/// faces that meet at each vertex and the neighbours of each vertex.
pub open spec fn is_geodesic(p: Polyhedron, rounds: nat) -> bool {
    let mesh = geodesic_mesh(rounds);
    &&& p.parents@ == mesh.parents
    &&& p.faces@ == mesh.faces
    &&& p.incident@.len() == vertex_count(mesh)
    &&& p.adjacency@.len() == vertex_count(mesh)
    &&& forall|v: int|
        0 <= v < vertex_count(mesh) ==> (#[trigger] p.incident@[v])@ == incident_faces(
            mesh.faces,
            v as usize,
        )
    &&& forall|v: int|
        0 <= v < vertex_count(mesh) ==> (#[trigger] p.adjacency@[v])@ == neighbor_list(
            mesh.faces,
            v as usize,
        )
}

/// The neighbour lists of the cells of the polyhedron after `rounds` rounds
/// of subdivision.
pub open spec fn mesh_adjacency(rounds: nat) -> Seq<Seq<usize>> {
    Seq::new(
        vertex_count(geodesic_mesh(rounds)),
        |v: int| neighbor_list(geodesic_mesh(rounds).faces, v as usize),
    )
}

/// Four to the power `k`.
pub open spec fn pow4(k: nat) -> nat
    decreases k,
{
    if k == 0 {
        1
    } else {
        4 * pow4((k - 1) as nat)
    }
}

/// The key of an edge in the midpoint cache.
spec fn edge_key(e: (usize, usize)) -> u128 {
    (e.0 as int * 0x1_0000_0000_0000_0000 + e.1 as int) as u128
}

/// The midpoint cache of a round that began with `start` parents: it maps
/// the key of each edge met in this round to the vertex at its midpoint.
spec fn cache_wf(cache: Map<u128, usize>, parents: Seq<(usize, usize)>, start: int) -> bool {
    &&& 0 <= start <= parents.len()
    &&& parents.skip(start).no_duplicates()
    &&& forall|k: int|
        start <= k < parents.len() ==> cache.contains_key(#[trigger] edge_key(parents[k]))
            && cache[edge_key(parents[k])] == BASE_VERTICES + k
    &&& forall|key: u128| #[trigger]
        cache.contains_key(key) ==> exists|k: int|
            start <= k < parents.len() && edge_key(#[trigger] parents[k]) == key
}

/// Different edges have different keys.
proof fn lemma_edge_key_injective(e1: (usize, usize), e2: (usize, usize))
    requires
        edge_key(e1) == edge_key(e2),
    ensures
        e1 == e2,
{
    assert(usize::MAX <= 0xffff_ffff_ffff_ffff);
}

/// Adding an edge keeps a list free of duplicates, keeps the places of the
/// edges it held, and puts the new edge where `index_of` finds it.
pub proof fn lemma_add_edge(edges: Seq<(usize, usize)>, e: (usize, usize))
    requires
        edges.no_duplicates(),
    ensures
        add_edge(edges, e).no_duplicates(),
        add_edge(edges, e).contains(e),
        edges.len() <= add_edge(edges, e).len() <= edges.len() + 1,
        add_edge(edges, e).take(edges.len() as int) == edges,
        forall|x: (usize, usize)| #[trigger]
            edges.contains(x) ==> add_edge(edges, e).contains(x) && add_edge(edges, e).index_of(x)
                == edges.index_of(x),
        !edges.contains(e) ==> add_edge(edges, e).index_of(e) == edges.len(),
{
    let after = add_edge(edges, e);
    assert(after.take(edges.len() as int) =~= edges);
    if !edges.contains(e) {
        assert(after[edges.len() as int] == e);
    }
    assert forall|x: (usize, usize)| #[trigger] edges.contains(x) implies after.contains(x)
        && after.index_of(x) == edges.index_of(x) by {
        let k = edges.index_of(x);
        assert(after[k] == x);
        let k2 = after.index_of(x);
        assert(after[k2] == x);
    }
}

/// Looks up the midpoint of the edge between `u` and `v`, and makes the
/// vertex where the round has not met the edge before.
///
/// A new vertex is recorded by its parents at the end of `parents`, so its
/// number is `BASE_VERTICES` plus its place there. The cache is keyed by
/// the edge with its smaller end first: an edge shared by two faces gets
/// one midpoint, whichever way round each face names it.
fn get_midpoint(
    u: usize,
    v: usize,
    parents: &mut Vec<(usize, usize)>,
    cache: &mut HashMap<u128, usize>,
    Ghost(start): Ghost<int>,
) -> (idx: usize)
    requires
        cache_wf(old(cache)@, old(parents)@, start),
        BASE_VERTICES + old(parents).len() < usize::MAX,
    ensures
        cache_wf(final(cache)@, final(parents)@, start),
        final(parents)@.take(start) == old(parents)@.take(start),
        final(parents)@.skip(start) == add_edge(old(parents)@.skip(start), norm_edge(u, v)),
        idx == midpoint(
            (BASE_VERTICES + start) as usize,
            final(parents)@.skip(start),
            u,
            v,
        ),
{
    broadcast use vstd::std_specs::hash::group_hash_axioms;

    let edge = if u < v {
        (u, v)
    } else {
        (v, u)
    };
    let ghost round = parents@.skip(start);
    assert(usize::MAX <= 0xffff_ffff_ffff_ffff);
    let key: u128 = (edge.0 as u128) * 0x1_0000_0000_0000_0000u128 + (edge.1 as u128);
    assert(key == edge_key(edge));
    proof {
        lemma_add_edge(round, edge);
    }
    match cache.get(&key) {
        Some(found) => {
            let idx = *found;
            proof {
                let k = choose|k: int|
                    start <= k < parents@.len() && edge_key(#[trigger] parents@[k]) == key;
                lemma_edge_key_injective(parents@[k], edge);
                assert(round[k - start] == edge);
                assert(parents@.skip(start) =~= add_edge(round, edge));
                let w = round.index_of(edge);
                assert(round[w] == edge);
            }
            idx
        },
        None => {
            let idx = BASE_VERTICES + parents.len();
            proof {
                if round.contains(edge) {
                    let w = choose|w: int| 0 <= w < round.len() && round[w] == edge;
                    assert(parents@[start + w] == edge);
                    assert(cache@.contains_key(edge_key(parents@[start + w])));
                }
            }
            let ghost before = parents@;
            parents.push(edge);
            cache.insert(key, idx);
            proof {
                assert(parents@.skip(start) =~= round.push(edge));
                assert(parents@.take(start) =~= before.take(start));
                assert forall|k: int| start <= k < parents@.len() implies cache@.contains_key(
                    #[trigger] edge_key(parents@[k]),
                ) && cache@[edge_key(parents@[k])] == BASE_VERTICES + k by {
                    if k < before.len() {
                        assert(parents@[k] == before[k]);
                        assert(old(cache)@.contains_key(edge_key(before[k])));
                        if edge_key(before[k]) == key {
                            lemma_edge_key_injective(before[k], edge);
                            assert(round[k - start] == edge);
                        }
                    }
                }
                assert forall|other: u128| #[trigger] cache@.contains_key(other) implies exists|
                    k: int,
                |
                    start <= k < parents@.len() && edge_key(#[trigger] parents@[k]) == other by {
                    if other == key {
                        assert(edge_key(parents@[before.len() as int]) == other);
                    } else {
                        assert(old(cache)@.contains_key(other));
                        let k = choose|k: int|
                            start <= k < before.len() && edge_key(#[trigger] before[k]) == other;
                        assert(edge_key(parents@[k]) == other);
                    }
                }
            }
            idx
        },
    }
}

/// The edge list of the first `i + 1` faces is that of the first `i` with
/// the edges of face `i` added.
pub proof fn lemma_edge_order_step(faces: Seq<Face>, i: int)
    requires
        0 <= i < faces.len(),
    ensures
        edge_order(faces.take(i + 1)) == add_face_edges(edge_order(faces.take(i)), faces[i]),
{
    assert(faces.take(i + 1).drop_last() =~= faces.take(i));
    assert(faces.take(i + 1).last() == faces[i]);
}

/// Adding the edges of a face keeps a list free of duplicates, keeps what
/// it held in place, and makes it hold the three edges of the face.
pub proof fn lemma_add_face_edges(edges: Seq<(usize, usize)>, f: Face)
    requires
        edges.no_duplicates(),
    ensures
        add_face_edges(edges, f).no_duplicates(),
        edges.is_prefix_of(add_face_edges(edges, f)),
        add_face_edges(edges, f).len() <= edges.len() + 3,
        add_face_edges(edges, f).contains(norm_edge(f.a, f.b)),
        add_face_edges(edges, f).contains(norm_edge(f.b, f.c)),
        add_face_edges(edges, f).contains(norm_edge(f.c, f.a)),
{
    let e1 = add_edge(edges, norm_edge(f.a, f.b));
    let e2 = add_edge(e1, norm_edge(f.b, f.c));
    let e3 = add_edge(e2, norm_edge(f.c, f.a));
    lemma_add_edge(edges, norm_edge(f.a, f.b));
    lemma_add_edge(e1, norm_edge(f.b, f.c));
    lemma_add_edge(e2, norm_edge(f.c, f.a));
    assert(e2.contains(norm_edge(f.a, f.b)));
    assert(e3.contains(norm_edge(f.a, f.b)));
    assert(e3.contains(norm_edge(f.b, f.c)));
    assert(edges =~= e3.subrange(0, edges.len() as int)) by {
        assert(e1.take(edges.len() as int) == edges);
        assert(e2.take(e1.len() as int) == e1);
        assert(e3.take(e2.len() as int) == e2);
        assert forall|k: int| 0 <= k < edges.len() implies edges[k] == e3[k] by {
            assert(e1.take(edges.len() as int)[k] == e1[k]);
            assert(e2.take(e1.len() as int)[k] == e2[k]);
            assert(e3.take(e2.len() as int)[k] == e3[k]);
        }
    }
}

/// The edge list of a mesh names no edge twice, is at most three times as
/// long as the face list, and holds every edge of every face.
pub proof fn lemma_edge_order(faces: Seq<Face>)
    ensures
        edge_order(faces).no_duplicates(),
        edge_order(faces).len() <= 3 * faces.len(),
        forall|j: int|
            0 <= j < faces.len() ==> {
                &&& edge_order(faces).contains(norm_edge((#[trigger] faces[j]).a, faces[j].b))
                &&& edge_order(faces).contains(norm_edge(faces[j].b, faces[j].c))
                &&& edge_order(faces).contains(norm_edge(faces[j].c, faces[j].a))
            },
    decreases faces.len(),
{
    if faces.len() > 0 {
        let head = faces.drop_last();
        lemma_edge_order(head);
        lemma_add_face_edges(edge_order(head), faces.last());
        let all = edge_order(faces);
        assert forall|j: int| 0 <= j < faces.len() implies {
            &&& all.contains(norm_edge((#[trigger] faces[j]).a, faces[j].b))
            &&& all.contains(norm_edge(faces[j].b, faces[j].c))
            &&& all.contains(norm_edge(faces[j].c, faces[j].a))
        } by {
            if j < head.len() {
                assert(head[j] == faces[j]);
                lemma_prefix_contains(edge_order(head), all, norm_edge(faces[j].a, faces[j].b));
                lemma_prefix_contains(edge_order(head), all, norm_edge(faces[j].b, faces[j].c));
                lemma_prefix_contains(edge_order(head), all, norm_edge(faces[j].c, faces[j].a));
            }
        }
    }
}

/// What a prefix holds, the whole list holds, at the same place.
pub proof fn lemma_prefix_contains(
    short: Seq<(usize, usize)>,
    long: Seq<(usize, usize)>,
    e: (usize, usize),
)
    requires
        short.is_prefix_of(long),
        long.no_duplicates(),
        short.contains(e),
    ensures
        long.contains(e),
        long.index_of(e) == short.index_of(e),
{
    let k = short.index_of(e);
    assert(short[k] == e);
    assert(long.subrange(0, short.len() as int)[k] == long[k]);
    let k2 = long.index_of(e);
    assert(long[k2] == e);
}

/// The midpoint of an edge keeps its number when the edge list grows at
/// its end.
pub proof fn lemma_midpoint_stable(
    first: usize,
    short: Seq<(usize, usize)>,
    long: Seq<(usize, usize)>,
    u: usize,
    v: usize,
)
    requires
        short.is_prefix_of(long),
        long.no_duplicates(),
        short.contains(norm_edge(u, v)),
    ensures
        midpoint(first, long, u, v) == midpoint(first, short, u, v),
{
    lemma_prefix_contains(short, long, norm_edge(u, v));
}

/// A face is split alike under an edge list and under a longer one, once
/// the shorter list holds the edges of the face.
pub proof fn lemma_split_face_stable(
    f: Face,
    first: usize,
    short: Seq<(usize, usize)>,
    long: Seq<(usize, usize)>,
    k: int,
)
    requires
        short.is_prefix_of(long),
        long.no_duplicates(),
        short.contains(norm_edge(f.a, f.b)),
        short.contains(norm_edge(f.b, f.c)),
        short.contains(norm_edge(f.c, f.a)),
    ensures
        split_face(f, first, long, k) == split_face(f, first, short, k),
{
    lemma_midpoint_stable(first, short, long, f.a, f.b);
    lemma_midpoint_stable(first, short, long, f.b, f.c);
    lemma_midpoint_stable(first, short, long, f.c, f.a);
}

/// One round of subdivision: every edge of the mesh gets a midpoint and
/// every face is replaced by four.
///
/// The parents of the new vertices are added to `parents` in the order in
/// which the faces first name their edges.
pub fn subdivide(faces: &Vec<Face>, parents: &mut Vec<(usize, usize)>) -> (next: Vec<Face>)
    requires
        BASE_VERTICES + old(parents).len() + 3 * faces.len() < usize::MAX,
    ensures
        final(parents)@ == old(parents)@ + edge_order(faces@),
        next@ == split_faces(
            faces@,
            (BASE_VERTICES + old(parents).len()) as usize,
            edge_order(faces@),
        ),
{
    let ghost start = parents.len() as int;
    let ghost before = parents@;
    let ghost first = (BASE_VERTICES + parents.len()) as usize;
    let mut cache: HashMap<u128, usize> = HashMap::new();
    let mut next: Vec<Face> = Vec::new();
    let mut i: usize = 0;
    proof {
        assert(parents@.skip(start) =~= Seq::<(usize, usize)>::empty());
        assert(faces@.take(0) =~= Seq::<Face>::empty());
        assert(parents@.take(start) =~= before);
    }
    while i < faces.len()
        invariant
            i <= faces.len(),
            start == before.len(),
            first == BASE_VERTICES + start,
            BASE_VERTICES + start + 3 * faces.len() < usize::MAX,
            cache_wf(cache@, parents@, start),
            parents@.take(start) == before,
            parents@.skip(start) == edge_order(faces@.take(i as int)),
            parents@.len() <= start + 3 * i,
            next@.len() == 4 * i,
            forall|j: int|
                0 <= j < 4 * i ==> #[trigger] next@[j] == split_face(
                    faces@[j / 4],
                    first,
                    parents@.skip(start),
                    j % 4,
                ),
        decreases faces.len() - i,
    {
        let f = faces[i];
        let ghost r0 = parents@.skip(start);
        let ghost done = next@;
        let ab = get_midpoint(f.a, f.b, parents, &mut cache, Ghost(start));
        let ghost r1 = parents@.skip(start);
        let bc = get_midpoint(f.b, f.c, parents, &mut cache, Ghost(start));
        let ghost r2 = parents@.skip(start);
        let ca = get_midpoint(f.c, f.a, parents, &mut cache, Ghost(start));
        let ghost r3 = parents@.skip(start);
        next.push(Face { a: f.a, b: ab, c: ca });
        next.push(Face { a: f.b, b: bc, c: ab });
        next.push(Face { a: f.c, b: ca, c: bc });
        next.push(Face { a: ab, b: bc, c: ca });
        proof {
            lemma_edge_order(faces@.take(i as int));
            lemma_edge_order_step(faces@, i as int);
            lemma_add_edge(r0, norm_edge(f.a, f.b));
            lemma_add_edge(r1, norm_edge(f.b, f.c));
            lemma_add_edge(r2, norm_edge(f.c, f.a));
            lemma_add_face_edges(r0, f);
            assert(r3 == add_face_edges(r0, f));
            assert(r1.is_prefix_of(r3)) by {
                assert(r2.take(r1.len() as int) == r1);
                assert(r3.take(r2.len() as int) == r2);
                assert forall|k: int| 0 <= k < r1.len() implies r1[k] == r3[k] by {
                    assert(r2.take(r1.len() as int)[k] == r2[k]);
                    assert(r3.take(r2.len() as int)[k] == r3[k]);
                }
                assert(r1 =~= r3.subrange(0, r1.len() as int));
            }
            assert(r2.is_prefix_of(r3)) by {
                assert(r3.take(r2.len() as int) == r2);
                assert(r2 =~= r3.subrange(0, r2.len() as int));
            }
            lemma_midpoint_stable(first, r1, r3, f.a, f.b);
            lemma_midpoint_stable(first, r2, r3, f.b, f.c);
            assert forall|j: int| 0 <= j < 4 * (i + 1) implies #[trigger] next@[j] == split_face(
                faces@[j / 4],
                first,
                r3,
                j % 4,
            ) by {
                if j < 4 * i {
                    assert(next@[j] == done[j]);
                    let g = faces@[j / 4];
                    assert(faces@.take(i as int)[j / 4] == g);
                    lemma_split_face_stable(g, first, r0, r3, j % 4);
                }
            }
        }
        i += 1;
    }
    proof {
        assert(faces@.take(faces.len() as int) =~= faces@);
        assert(parents@ =~= parents@.take(start) + parents@.skip(start));
        assert(next@ =~= split_faces(faces@, first, edge_order(faces@)));
    }
    next
}

/// The faces of the icosahedron.
pub fn icosahedron_faces() -> (faces: Vec<Face>)
    ensures
        faces@ == icosahedron(),
{
    let faces = vec![
        Face { a: 0, b: 11, c: 5 },
        Face { a: 0, b: 5, c: 1 },
        Face { a: 0, b: 1, c: 7 },
        Face { a: 0, b: 7, c: 10 },
        Face { a: 0, b: 10, c: 11 },
        Face { a: 1, b: 5, c: 9 },
        Face { a: 5, b: 11, c: 4 },
        Face { a: 11, b: 10, c: 2 },
        Face { a: 10, b: 7, c: 6 },
        Face { a: 7, b: 1, c: 8 },
        Face { a: 3, b: 9, c: 4 },
        Face { a: 3, b: 4, c: 2 },
        Face { a: 3, b: 2, c: 6 },
        Face { a: 3, b: 6, c: 8 },
        Face { a: 3, b: 8, c: 9 },
        Face { a: 4, b: 9, c: 5 },
        Face { a: 2, b: 4, c: 11 },
        Face { a: 6, b: 2, c: 10 },
        Face { a: 8, b: 6, c: 7 },
        Face { a: 9, b: 8, c: 1 },
    ];
    assert(faces@ =~= icosahedron());
    faces
}

/// Powers of four grow with the exponent.
pub proof fn lemma_pow4_monotone(a: nat, b: nat)
    requires
        a <= b,
    ensures
        pow4(a) <= pow4(b),
        pow4(a) >= 1,
    decreases b,
{
    if a < b {
        lemma_pow4_monotone(a, (b - 1) as nat);
    } else if a > 0 {
        lemma_pow4_monotone((a - 1) as nat, (a - 1) as nat);
    }
}

/// The mesh after `rounds` rounds has `20 * 4^rounds` faces and at most
/// that many midpoints.
pub proof fn lemma_mesh_sizes(rounds: nat)
    ensures
        geodesic_mesh(rounds).faces.len() == BASE_FACES * pow4(rounds),
        geodesic_mesh(rounds).parents.len() + BASE_FACES <= BASE_FACES * pow4(rounds),
    decreases rounds,
{
    if rounds > 0 {
        let prev = geodesic_mesh((rounds - 1) as nat);
        lemma_mesh_sizes((rounds - 1) as nat);
        lemma_edge_order(prev.faces);
    }
}

/// Builds the icosahedron and subdivides it `subdivisions` times.
pub fn subdivided_icosahedron(subdivisions: usize) -> (mesh: (Vec<(usize, usize)>, Vec<Face>))
    requires
        subdivisions <= MAX_SUBDIVISIONS,
    ensures
        mesh.0@ == geodesic_mesh(subdivisions as nat).parents,
        mesh.1@ == geodesic_mesh(subdivisions as nat).faces,
{
    let mut parents: Vec<(usize, usize)> = Vec::new();
    let mut faces = icosahedron_faces();
    let mut round: usize = 0;
    while round < subdivisions
        invariant
            round <= subdivisions <= MAX_SUBDIVISIONS,
            parents@ == geodesic_mesh(round as nat).parents,
            faces@ == geodesic_mesh(round as nat).faces,
        decreases subdivisions - round,
    {
        proof {
            lemma_mesh_sizes(round as nat);
            lemma_pow4_monotone(round as nat, 12);
            assert(pow4(12) == 16777216) by {
                reveal_with_fuel(pow4, 13);
            }
            assert(BASE_FACES * pow4(round as nat) <= 20 * 16777216) by (nonlinear_arith)
                requires
                    pow4(round as nat) <= 16777216,
                    BASE_FACES == 20,
            ;
            assert(usize::MAX >= 0xffff_ffff);
        }
        faces = subdivide(&faces, &mut parents);
        round += 1;
    }
    (parents, faces)
}

/// The midpoint of an edge that the list holds is one of its vertices.
pub proof fn lemma_midpoint_range(first: usize, edges: Seq<(usize, usize)>, u: usize, v: usize)
    requires
        edges.contains(norm_edge(u, v)),
        first + edges.len() <= usize::MAX,
    ensures
        first <= midpoint(first, edges, u, v) < first + edges.len(),
        edges[midpoint(first, edges, u, v) - first] == norm_edge(u, v),
{
    let k = edges.index_of(norm_edge(u, v));
    assert(0 <= k < edges.len() && edges[k] == norm_edge(u, v));
}

/// Every corner of every face of the mesh is a vertex of the mesh.
pub proof fn lemma_mesh_in_range(rounds: nat)
    requires
        rounds <= MAX_SUBDIVISIONS,
    ensures
        faces_in_range(geodesic_mesh(rounds).faces, vertex_count(geodesic_mesh(rounds))),
        vertex_count(geodesic_mesh(rounds)) <= 0xffff_ffff,
    decreases rounds,
{
    lemma_mesh_sizes(rounds);
    lemma_pow4_monotone(rounds, 12);
    assert(pow4(12) == 16777216) by {
        reveal_with_fuel(pow4, 13);
    }
    assert(BASE_FACES * pow4(rounds) <= 20 * 16777216) by (nonlinear_arith)
        requires
            pow4(rounds) <= 16777216,
            BASE_FACES == 20,
    ;
    assert(usize::MAX >= 0xffff_ffff);
    let mesh = geodesic_mesh(rounds);
    if rounds == 0 {
        assert forall|i: int| 0 <= i < mesh.faces.len() implies (#[trigger] mesh.faces[i]).a < 12
            && mesh.faces[i].b < 12 && mesh.faces[i].c < 12 by {}
    } else {
        let prev = geodesic_mesh((rounds - 1) as nat);
        lemma_mesh_in_range((rounds - 1) as nat);
        lemma_edge_order(prev.faces);
        let first = vertex_count(prev) as usize;
        let edges = edge_order(prev.faces);
        assert forall|i: int| 0 <= i < mesh.faces.len() implies (#[trigger] mesh.faces[i]).a
            < vertex_count(mesh) && mesh.faces[i].b < vertex_count(mesh) && mesh.faces[i].c
            < vertex_count(mesh) by {
            let f = prev.faces[i / 4];
            assert(f.a < first && f.b < first && f.c < first);
            lemma_midpoint_range(first, edges, f.a, f.b);
            lemma_midpoint_range(first, edges, f.b, f.c);
            lemma_midpoint_range(first, edges, f.c, f.a);
            assert(mesh.faces[i] == split_face(f, first, edges, i % 4));
        }
    }
}

/// The faces that meet at a vertex are faces of the mesh.
pub proof fn lemma_incident_in_range(faces: Seq<Face>, v: usize)
    requires
        faces.len() <= usize::MAX,
    ensures
        forall|k: int|
            0 <= k < incident_faces(faces, v).len() ==> (#[trigger] incident_faces(faces, v)[k])
                < faces.len(),
    decreases faces.len(),
{
    if faces.len() > 0 {
        let head = incident_faces(faces.drop_last(), v);
        let tail = corners_at(faces.last(), v, (faces.len() - 1) as usize);
        lemma_incident_in_range(faces.drop_last(), v);
        assert forall|k: int| 0 <= k < (head + tail).len() implies (#[trigger] (head + tail)[k])
            < faces.len() by {
            if k < head.len() {
                assert(head[k] < faces.len() - 1);
            } else {
                assert((head + tail)[k] == tail[k - head.len()]);
            }
        }
    }
}

/// Records face `i` among the faces that meet at vertex `v`.
fn push_incident(incident: &mut Vec<Vec<usize>>, v: usize, i: usize)
    requires
        v < old(incident)@.len(),
    ensures
        final(incident)@.len() == old(incident)@.len(),
        final(incident)@[v as int]@ == old(incident)@[v as int]@.push(i),
        forall|w: int|
            0 <= w < old(incident)@.len() && w != v ==> #[trigger] final(incident)@[w] == old(
                incident,
            )@[w],
{
    incident[v].push(i);
}

/// Lists, for each of the first `vertices` vertices, the faces that meet
/// there.
pub fn incident_lists(faces: &Vec<Face>, vertices: usize) -> (incident: Vec<Vec<usize>>)
    requires
        faces_in_range(faces@, vertices as nat),
    ensures
        incident@.len() == vertices,
        forall|v: int|
            0 <= v < vertices ==> (#[trigger] incident@[v])@ == incident_faces(faces@, v as usize),
        forall|v: int, k: int|
            0 <= v < vertices && 0 <= k < incident@[v]@.len() ==> (#[trigger] incident@[v]@[k])
                < faces@.len(),
{
    let mut incident: Vec<Vec<usize>> = Vec::new();
    let mut v: usize = 0;
    while v < vertices
        invariant
            v <= vertices,
            incident@.len() == v,
            forall|w: int| 0 <= w < v ==> (#[trigger] incident@[w])@ == Seq::<usize>::empty(),
        decreases vertices - v,
    {
        incident.push(Vec::new());
        v += 1;
    }
    let mut i: usize = 0;
    assert(faces@.take(0) =~= Seq::<Face>::empty());
    while i < faces.len()
        invariant
            i <= faces.len(),
            faces_in_range(faces@, vertices as nat),
            incident@.len() == vertices,
            forall|w: int|
                0 <= w < vertices ==> (#[trigger] incident@[w])@ == incident_faces(
                    faces@.take(i as int),
                    w as usize,
                ),
        decreases faces.len() - i,
    {
        let f = faces[i];
        let ghost s0 = incident@;
        assert(f.a < vertices && f.b < vertices && f.c < vertices);
        push_incident(&mut incident, f.a, i);
        let ghost s1 = incident@;
        push_incident(&mut incident, f.b, i);
        let ghost s2 = incident@;
        push_incident(&mut incident, f.c, i);
        proof {
            let head = faces@.take(i + 1);
            assert(head.drop_last() =~= faces@.take(i as int));
            assert(head.last() == f);
            assert forall|w: int| 0 <= w < vertices implies (#[trigger] incident@[w])@
                == incident_faces(head, w as usize) by {
                lemma_three_pushes(s0[w]@, s1[w]@, s2[w]@, incident@[w]@, f, w as usize, i);
                assert(s0[w]@ == incident_faces(faces@.take(i as int), w as usize));
            }
        }
        i += 1;
    }
    proof {
        assert(faces@.take(faces.len() as int) =~= faces@);
        assert forall|v: int, k: int|
            0 <= v < vertices && 0 <= k < incident@[v]@.len() implies (#[trigger] incident@[v]@[k])
            < faces@.len() by {
            lemma_incident_in_range(faces@, v as usize);
            assert(incident@[v]@ == incident_faces(faces@, v as usize));
        }
    }
    incident
}

/// Three lists, each the one before with `i` pushed where the face names
/// `w` at that corner: the last is the first with the corners of the face
/// at `w` added.
proof fn lemma_three_pushes(
    l0: Seq<usize>,
    l1: Seq<usize>,
    l2: Seq<usize>,
    l3: Seq<usize>,
    f: Face,
    w: usize,
    i: usize,
)
    requires
        l1 == if f.a == w {
            l0.push(i)
        } else {
            l0
        },
        l2 == if f.b == w {
            l1.push(i)
        } else {
            l1
        },
        l3 == if f.c == w {
            l2.push(i)
        } else {
            l2
        },
    ensures
        l3 == l0 + corners_at(f, w, i),
{
    assert(l3 =~= l0 + corners_at(f, w, i));
}

/// Adds `x` to the neighbours of `v` gathered in `list`, unless it is `v`
/// or is there already.
fn push_neighbor(list: &mut Vec<usize>, x: usize, v: usize)
    ensures
        final(list)@ == add_neighbor(old(list)@, x, v),
{
    if x != v && !list_contains(list, x) {
        list.push(x);
    }
}

/// Lists the neighbours of each vertex: the other corners of the faces that
/// meet there.
pub fn neighbor_lists_of(faces: &Vec<Face>, incident: &Vec<Vec<usize>>) -> (adjacency: Vec<
    Vec<usize>,
>)
    requires
        forall|v: int, k: int|
            0 <= v < incident@.len() && 0 <= k < incident@[v]@.len() ==> (
            #[trigger] incident@[v]@[k]) < faces@.len(),
    ensures
        adjacency@.len() == incident@.len(),
        forall|v: int|
            0 <= v < incident@.len() ==> (#[trigger] adjacency@[v])@ == neighbors_via(
                faces@,
                incident@[v]@,
                v as usize,
            ),
{
    let mut adjacency: Vec<Vec<usize>> = Vec::new();
    let mut v: usize = 0;
    while v < incident.len()
        invariant
            v <= incident.len(),
            adjacency@.len() == v,
            forall|w: int, k: int|
                0 <= w < incident@.len() && 0 <= k < incident@[w]@.len() ==> (
                #[trigger] incident@[w]@[k]) < faces@.len(),
            forall|w: int|
                0 <= w < v ==> (#[trigger] adjacency@[w])@ == neighbors_via(
                    faces@,
                    incident@[w]@,
                    w as usize,
                ),
        decreases incident.len() - v,
    {
        let around = &incident[v];
        let mut list: Vec<usize> = Vec::new();
        let mut k: usize = 0;
        assert(around@.take(0) =~= Seq::<usize>::empty());
        while k < around.len()
            invariant
                k <= around.len(),
                around@ == incident@[v as int]@,
                forall|j: int| 0 <= j < around@.len() ==> (#[trigger] around@[j]) < faces@.len(),
                list@ == neighbors_via(faces@, around@.take(k as int), v),
            decreases around.len() - k,
        {
            let f = faces[around[k]];
            proof {
                let head = around@.take(k + 1);
                assert(head.drop_last() =~= around@.take(k as int));
                assert(head.last() == around@[k as int]);
            }
            push_neighbor(&mut list, f.a, v);
            push_neighbor(&mut list, f.b, v);
            push_neighbor(&mut list, f.c, v);
            k += 1;
        }
        assert(around@.take(around.len() as int) =~= around@);
        adjacency.push(list);
        v += 1;
    }
    adjacency
}

/// Generates the polyhedron: the icosahedron after `subdivisions` rounds of
/// subdivision, and the graph of its cells.
///
/// Each vertex of the mesh is one cell. The result names the parents of
/// every vertex beyond the first twelve, the faces of the mesh, the faces
/// that meet at each vertex, and the neighbours of each vertex. There are
/// `10 * 4^subdivisions + 2` cells; the first twelve have five neighbours,
/// all others six; the neighbour lists form a valid adjacency; and the
/// faces form a closed surface, so that two neighbouring cells share one
/// edge.
pub fn generate_goldberg_polyhedron(subdivisions: usize) -> (p: Polyhedron)
    requires
        subdivisions <= MAX_SUBDIVISIONS,
    ensures
        is_geodesic(p, subdivisions as nat),
        p.adjacency@.len() == cell_count(subdivisions as nat),
        forall|v: int|
            0 <= v < p.adjacency@.len() ==> (#[trigger] p.adjacency@[v])@.len() == if v
                < BASE_VERTICES {
                5int
            } else {
                6int
            },
        valid_adjacency(lists_of(p.adjacency@)),
        closed_surface(p.faces@, p.adjacency@.len() as nat),
{
    let (parents, faces) = subdivided_icosahedron(subdivisions);
    proof {
        lemma_mesh_in_range(subdivisions as nat);
        assert(usize::MAX >= 0xffff_ffff);
    }
    let vertices = BASE_VERTICES + parents.len();
    let incident = incident_lists(&faces, vertices);
    let adjacency = neighbor_lists_of(&faces, &incident);
    proof {
        let rounds = subdivisions as nat;
        lemma_goldberg(rounds);
        lemma_mesh_adjacency_valid(rounds);
        assert(lists_of(adjacency@) =~= mesh_adjacency(rounds));
        assert forall|v: int| 0 <= v < adjacency@.len() implies (#[trigger] adjacency@[v])@.len()
            == if v < BASE_VERTICES {
            5int
        } else {
            6int
        } by {
            assert(adjacency@[v]@ == neighbor_list(geodesic_mesh(rounds).faces, v as usize));
        }
    }
    Polyhedron { parents, faces, incident, adjacency }
}

} // verus!
