//! Counting the edges of a closed surface: each edge has two sides, so a
//! surface of `F` triangles has `3 F / 2` edges.

use crate::surface::{
    closed_surface,
    has_twin,
    he_dst,
    he_src,
    is_he,
    lemma_edge_order_sides,
    lemma_twin_unique,
    same_dir,
    side_of,
    tri_ok,
    twins,
};
use crate::topology::{edge_order, lemma_edge_order, norm_edge, Face};
use vstd::multiset::Multiset;
use vstd::prelude::*;

verus! {

/// The edges of all sides, face after face.
pub open spec fn side_edges(faces: Seq<Face>) -> Seq<(usize, usize)> {
    Seq::new(
        3 * faces.len(),
        |p: int| norm_edge(he_src(faces, p / 3, p % 3), he_dst(faces, p / 3, p % 3)),
    )
}

/// A value that stands at two places of a sequence and nowhere else is
/// counted twice.
pub proof fn lemma_count_two<T>(s: Seq<T>, p: int, q: int, e: T)
    requires
        0 <= p < q < s.len(),
        s[p] == e,
        s[q] == e,
        forall|r: int| 0 <= r < s.len() && s[r] == e ==> r == p || r == q,
    ensures
        s.to_multiset().count(e) == 2,
{
    broadcast use vstd::multiset::group_multiset_axioms;

    let s1 = s.remove(q);
    let s2 = s1.remove(p);
    vstd::seq_lib::to_multiset_remove(s, q);
    vstd::seq_lib::to_multiset_remove(s1, p);
    vstd::seq_lib::to_multiset_contains(s, e);
    vstd::seq_lib::to_multiset_contains(s1, e);
    vstd::seq_lib::to_multiset_contains(s2, e);
    assert(s1[p] == e);
    assert(s1.contains(e));
    assert(s.contains(e));
    if s2.contains(e) {
        let r = choose|r: int| 0 <= r < s2.len() && s2[r] == e;
        if r < p {
            assert(s[r] == e);
        } else if r + 1 < q {
            assert(s1[r + 1] == e);
            assert(s[r + 1] == e);
        } else {
            assert(s1[r + 1] == e);
            assert(s[r + 2] == e);
        }
    }
    let m = s.to_multiset();
    assert(s1.to_multiset() == m.remove(e));
    assert(s2.to_multiset() == m.remove(e).remove(e));
}

/// A multiset that holds each of its values twice is twice as large as its
/// domain.
pub proof fn lemma_twice_len<T>(m: Multiset<T>)
    requires
        forall|v: T| m.count(v) == 0 || m.count(v) == 2,
    ensures
        m.len() == 2 * m.dom().len(),
    decreases m.len(),
{
    broadcast use vstd::multiset::group_multiset_axioms;

    if m.len() == 0 {
        vstd::multiset::lemma_multiset_empty_len(m);
        assert(m.dom() =~= Set::<T>::empty());
    } else {
        let x = m.choose();
        assert(m.count(x) == 2);
        let one = Multiset::singleton(x);
        let m1 = m.sub(one);
        assert(one.subset_of(m));
        assert(m1.count(x) == 1);
        assert(one.subset_of(m1));
        let m2 = m1.sub(one);
        assert(m2.len() == m.len() - 2);
        assert forall|v: T| m2.count(v) == 0 || m2.count(v) == 2 by {
            if v != x {
                assert(m2.count(v) == m.count(v));
            }
        }
        lemma_twice_len(m2);
        assert(m2.dom() =~= m.dom().remove(x)) by {
            assert forall|v: T| m2.dom().contains(v) == m.dom().remove(x).contains(v) by {
                if v != x {
                    assert(m2.count(v) == m.count(v));
                }
            }
        }
        vstd::set::axiom_set_remove_len(m.dom(), x);
    }
}

/// On a closed surface every edge has exactly two sides.
pub proof fn lemma_side_edges_twice(faces: Seq<Face>, n: nat, e: (usize, usize))
    requires
        closed_surface(faces, n),
    ensures
        side_edges(faces).to_multiset().count(e) == 0 || side_edges(faces).to_multiset().count(e)
            == 2,
{
    let all = side_edges(faces);
    vstd::seq_lib::to_multiset_contains(all, e);
    if all.contains(e) {
        let p = choose|p: int| 0 <= p < all.len() && all[p] == e;
        let j = p / 3;
        let s = p % 3;
        assert(is_he(faces, j, s));
        assert(has_twin(faces, j, s));
        let (j2, s2) = choose|j2: int, s2: int| twins(faces, j, s, j2, s2);
        let q = 3 * j2 + s2;
        assert(q / 3 == j2 && q % 3 == s2);
        assert(tri_ok(faces[j], n));
        assert(all[q] == e);
        assert(p != q);
        assert forall|r: int| 0 <= r < all.len() && all[r] == e implies r == p || r == q by {
            let jr = r / 3;
            let sr = r % 3;
            assert(is_he(faces, jr, sr));
            assert(tri_ok(faces[jr], n));
            if he_src(faces, jr, sr) == he_src(faces, j, s) {
                assert(same_dir(faces, jr, sr, j, s));
            } else {
                assert(twins(faces, j, s, jr, sr));
                lemma_twin_unique(faces, n, j, s, jr, sr, j2, s2);
            }
        }
        if p < q {
            lemma_count_two(all, p, q, e);
        } else {
            lemma_count_two(all, q, p, e);
        }
    }
}

/// A closed surface of `F` triangles has `3 F / 2` edges.
pub proof fn lemma_edge_count(faces: Seq<Face>, n: nat)
    requires
        closed_surface(faces, n),
    ensures
        2 * edge_order(faces).len() == 3 * faces.len(),
{
    let all = side_edges(faces);
    let edges = edge_order(faces);
    let m = all.to_multiset();
    assert forall|e: (usize, usize)| m.count(e) == 0 || m.count(e) == 2 by {
        lemma_side_edges_twice(faces, n, e);
    }
    lemma_twice_len(m);
    vstd::seq_lib::to_multiset_len(all);
    lemma_edge_order(faces);
    assert(m.dom() =~= edges.to_set()) by {
        assert forall|e: (usize, usize)| m.dom().contains(e) == edges.to_set().contains(e) by {
            vstd::seq_lib::to_multiset_contains(all, e);
            if all.contains(e) {
                let p = choose|p: int| 0 <= p < all.len() && all[p] == e;
                let f = faces[p / 3];
                assert(edges.contains(norm_edge(f.a, f.b)));
                assert(edges.contains(norm_edge(f.b, f.c)));
                assert(edges.contains(norm_edge(f.c, f.a)));
            }
            if edges.contains(e) {
                lemma_edge_order_sides(faces, e);
                let (j, s) = choose|j: int, s: int| side_of(faces, j, s, e);
                let p = 3 * j + s;
                assert(p / 3 == j && p % 3 == s);
                assert(all[p] == e);
            }
        }
    }
    edges.unique_seq_to_set();
}

} // verus!
