//! The laws of the generated polyhedron: its number of cells, its twelve
//! pentagons among hexagons, and the validity of its adjacency.

use crate::board::{valid_adjacency, valid_link, valid_neighbors, MAX_NEIGHBORS};
use crate::edge_count::lemma_edge_count;
use crate::icosahedron::{lemma_icosahedron_closed, lemma_icosahedron_degree};
use crate::surface::{
    closed_surface,
    joins,
    lemma_adjacency_symmetric,
    lemma_neighbor_members,
    lemma_new_vertex_degree,
    lemma_old_vertex_degree,
    lemma_split_closed,
    linked,
    splitting,
    tri_ok,
};
use crate::topology::{
    edge_order,
    geodesic_mesh,
    lemma_mesh_in_range,
    lemma_mesh_sizes,
    mesh_adjacency,
    neighbor_list,
    pow4,
    vertex_count,
    Face,
    BASE_VERTICES,
    MAX_SUBDIVISIONS,
};
use vstd::prelude::*;

verus! {

/// The number of cells after `rounds` rounds of subdivision.
pub open spec fn cell_count(rounds: nat) -> nat {
    10 * pow4(rounds) + 2
}

/// Twelve pentagons among hexagons: each of the first twelve of the `n`
/// vertices has five neighbours, every other one six.
pub open spec fn is_goldberg(faces: Seq<Face>, n: nat) -> bool {
    forall|v: int|
        0 <= v < n ==> #[trigger] neighbor_list(faces, v as usize).len() == if v < BASE_VERTICES {
            5int
        } else {
            6int
        }
}

/// The mesh after any number of rounds is a closed surface with
/// `10 * 4^rounds + 2` vertices, of which the twelve corners of the
/// icosahedron have five neighbours and all others six.
pub proof fn lemma_goldberg(rounds: nat)
    requires
        rounds <= MAX_SUBDIVISIONS,
    ensures
        closed_surface(geodesic_mesh(rounds).faces, vertex_count(geodesic_mesh(rounds))),
        vertex_count(geodesic_mesh(rounds)) == cell_count(rounds),
        is_goldberg(geodesic_mesh(rounds).faces, vertex_count(geodesic_mesh(rounds))),
    decreases rounds,
{
    let mesh = geodesic_mesh(rounds);
    if rounds == 0 {
        lemma_icosahedron_closed();
        assert forall|v: int| 0 <= v < 12 implies #[trigger] neighbor_list(mesh.faces, v as usize).len()
            == 5 by {
            lemma_icosahedron_degree(v as usize);
        }
    } else {
        let prev = geodesic_mesh((rounds - 1) as nat);
        let first = vertex_count(prev) as usize;
        let edges = edge_order(prev.faces);
        lemma_goldberg((rounds - 1) as nat);
        lemma_mesh_in_range(rounds);
        lemma_mesh_in_range((rounds - 1) as nat);
        lemma_mesh_sizes(rounds);
        lemma_mesh_sizes((rounds - 1) as nat);
        assert(usize::MAX >= 0xffff_ffff);
        assert(mesh.faces.len() + BASE_VERTICES <= vertex_count(mesh) + mesh.faces.len());
        assert(splitting(prev.faces, first, edges)) by {
            reveal(splitting);
            assert(4 * prev.faces.len() == mesh.faces.len());
            assert(mesh.faces.len() <= 20 * 16777216) by {
                crate::topology::lemma_pow4_monotone(rounds, 12);
                assert(pow4(12) == 16777216) by {
                    reveal_with_fuel(pow4, 13);
                }
                assert(20 * pow4(rounds) <= 20 * 16777216) by (nonlinear_arith)
                    requires
                        pow4(rounds) <= 16777216,
                ;
            }
        }
        lemma_split_closed(prev.faces, first, edges);
        lemma_edge_count(prev.faces, first as nat);
        assert(vertex_count(mesh) == first + edges.len());
        assert forall|v: int| 0 <= v < vertex_count(mesh) implies #[trigger] neighbor_list(
            mesh.faces,
            v as usize,
        ).len() == if v < BASE_VERTICES {
            5int
        } else {
            6int
        } by {
            if v < first {
                lemma_old_vertex_degree(prev.faces, first, edges, v as usize);
                assert(neighbor_list(prev.faces, v as usize).len() == if v < BASE_VERTICES {
                    5int
                } else {
                    6int
                });
            } else {
                lemma_new_vertex_degree(prev.faces, first, edges, v as usize);
            }
        }
    }
}

/// The neighbour lists of the generated polyhedron form a valid adjacency:
/// symmetric, without loops or double edges, within the board.
pub proof fn lemma_mesh_adjacency_valid(rounds: nat)
    requires
        rounds <= MAX_SUBDIVISIONS,
    ensures
        valid_adjacency(mesh_adjacency(rounds)),
{
    let mesh = geodesic_mesh(rounds);
    let adj = mesh_adjacency(rounds);
    let n = vertex_count(mesh);
    lemma_goldberg(rounds);
    lemma_mesh_in_range(rounds);
    lemma_mesh_sizes(rounds);
    assert(usize::MAX >= 0xffff_ffff);
    assert(mesh.faces.len() <= usize::MAX) by {
        crate::topology::lemma_pow4_monotone(rounds, 12);
        assert(pow4(12) == 16777216) by {
            reveal_with_fuel(pow4, 13);
        }
        assert(20 * pow4(rounds) <= 20 * 16777216) by (nonlinear_arith)
            requires
                pow4(rounds) <= 16777216,
        ;
    }
    assert forall|i: int| 0 <= i < adj.len() implies #[trigger] valid_neighbors(adj, i) by {
        let list = neighbor_list(mesh.faces, i as usize);
        assert(adj[i] == list);
        lemma_neighbor_members(mesh.faces, i as usize);
        assert(list.len() <= MAX_NEIGHBORS);
        assert forall|k: int| 0 <= k < adj[i].len() implies valid_link(adj, i, #[trigger] adj[i][k]) by {
            let j = list[k];
            assert(list.contains(j));
            assert(linked(mesh.faces, i as usize, j));
            let faces = mesh.faces;
            let from = i as usize;
            let f = choose|f: int| joins(faces, f, from, j);
            assert(tri_ok(faces[f], n));
            lemma_adjacency_symmetric(mesh.faces, i as usize, j);
            assert(adj[j as int] == neighbor_list(mesh.faces, j));
        }
    }
}

} // verus!
