//! The icosahedron as a closed surface: the base of the subdivision.

use crate::surface::{
    closed_surface,
    has_twin,
    he_apex,
    he_dst,
    he_src,
    is_he,
    joins,
    lemma_neighbor_members,
    linked,
    same_dir,
    tri_ok,
    twins,
};
use crate::topology::{face, icosahedron, neighbor_list};
use vstd::prelude::*;

verus! {

/// The side of the icosahedron that runs from `u` to `w`, as a face and a
/// corner of it; `(-1, -1)` where no side does.
pub open spec fn ico_side(u: usize, w: usize) -> (int, int) {
    if u == 0 {
        if w == 1 {
            (2, 0)
        } else if w == 5 {
            (1, 0)
        } else if w == 7 {
            (3, 0)
        } else if w == 10 {
            (4, 0)
        } else if w == 11 {
            (0, 0)
        } else {
            (-1, -1)
        }
    } else if u == 1 {
        if w == 0 {
            (1, 2)
        } else if w == 5 {
            (5, 0)
        } else if w == 7 {
            (2, 1)
        } else if w == 8 {
            (9, 1)
        } else if w == 9 {
            (19, 2)
        } else {
            (-1, -1)
        }
    } else if u == 2 {
        if w == 3 {
            (11, 2)
        } else if w == 4 {
            (16, 0)
        } else if w == 6 {
            (12, 1)
        } else if w == 10 {
            (17, 1)
        } else if w == 11 {
            (7, 2)
        } else {
            (-1, -1)
        }
    } else if u == 3 {
        if w == 2 {
            (12, 0)
        } else if w == 4 {
            (11, 0)
        } else if w == 6 {
            (13, 0)
        } else if w == 8 {
            (14, 0)
        } else if w == 9 {
            (10, 0)
        } else {
            (-1, -1)
        }
    } else if u == 4 {
        if w == 2 {
            (11, 1)
        } else if w == 3 {
            (10, 2)
        } else if w == 5 {
            (6, 2)
        } else if w == 9 {
            (15, 0)
        } else if w == 11 {
            (16, 1)
        } else {
            (-1, -1)
        }
    } else if u == 5 {
        if w == 0 {
            (0, 2)
        } else if w == 1 {
            (1, 1)
        } else if w == 4 {
            (15, 2)
        } else if w == 9 {
            (5, 1)
        } else if w == 11 {
            (6, 0)
        } else {
            (-1, -1)
        }
    } else if u == 6 {
        if w == 2 {
            (17, 0)
        } else if w == 3 {
            (12, 2)
        } else if w == 7 {
            (18, 1)
        } else if w == 8 {
            (13, 1)
        } else if w == 10 {
            (8, 2)
        } else {
            (-1, -1)
        }
    } else if u == 7 {
        if w == 0 {
            (2, 2)
        } else if w == 1 {
            (9, 0)
        } else if w == 6 {
            (8, 1)
        } else if w == 8 {
            (18, 2)
        } else if w == 10 {
            (3, 1)
        } else {
            (-1, -1)
        }
    } else if u == 8 {
        if w == 1 {
            (19, 1)
        } else if w == 3 {
            (13, 2)
        } else if w == 6 {
            (18, 0)
        } else if w == 7 {
            (9, 2)
        } else if w == 9 {
            (14, 1)
        } else {
            (-1, -1)
        }
    } else if u == 9 {
        if w == 1 {
            (5, 2)
        } else if w == 3 {
            (14, 2)
        } else if w == 4 {
            (10, 1)
        } else if w == 5 {
            (15, 1)
        } else if w == 8 {
            (19, 0)
        } else {
            (-1, -1)
        }
    } else if u == 10 {
        if w == 0 {
            (3, 2)
        } else if w == 2 {
            (7, 1)
        } else if w == 6 {
            (17, 2)
        } else if w == 7 {
            (8, 0)
        } else if w == 11 {
            (4, 1)
        } else {
            (-1, -1)
        }
    } else if u == 11 {
        if w == 0 {
            (4, 2)
        } else if w == 2 {
            (16, 2)
        } else if w == 4 {
            (6, 1)
        } else if w == 5 {
            (0, 1)
        } else if w == 10 {
            (7, 0)
        } else {
            (-1, -1)
        }
    } else {
        (-1, -1)
    }
}

/// The neighbours of corner `v` of the icosahedron.
pub open spec fn ico_ring(v: usize) -> Set<usize> {
    if v == 0 {
        set![1usize, 5usize, 7usize, 10usize, 11usize]
    } else
    if v == 1 {
        set![0usize, 5usize, 7usize, 8usize, 9usize]
    } else
    if v == 2 {
        set![3usize, 4usize, 6usize, 10usize, 11usize]
    } else
    if v == 3 {
        set![2usize, 4usize, 6usize, 8usize, 9usize]
    } else
    if v == 4 {
        set![2usize, 3usize, 5usize, 9usize, 11usize]
    } else
    if v == 5 {
        set![0usize, 1usize, 4usize, 9usize, 11usize]
    } else
    if v == 6 {
        set![2usize, 3usize, 7usize, 8usize, 10usize]
    } else
    if v == 7 {
        set![0usize, 1usize, 6usize, 8usize, 10usize]
    } else
    if v == 8 {
        set![1usize, 3usize, 6usize, 7usize, 9usize]
    } else
    if v == 9 {
        set![1usize, 3usize, 4usize, 5usize, 8usize]
    } else
    if v == 10 {
        set![0usize, 2usize, 6usize, 7usize, 11usize]
    } else {
        set![0usize, 2usize, 4usize, 5usize, 10usize]
    }
}

/// The faces of the icosahedron, one by one.
pub proof fn lemma_ico_faces()
    ensures
        icosahedron().len() == 20,
        icosahedron()[0] == face(0, 11, 5),
        icosahedron()[1] == face(0, 5, 1),
        icosahedron()[2] == face(0, 1, 7),
        icosahedron()[3] == face(0, 7, 10),
        icosahedron()[4] == face(0, 10, 11),
        icosahedron()[5] == face(1, 5, 9),
        icosahedron()[6] == face(5, 11, 4),
        icosahedron()[7] == face(11, 10, 2),
        icosahedron()[8] == face(10, 7, 6),
        icosahedron()[9] == face(7, 1, 8),
        icosahedron()[10] == face(3, 9, 4),
        icosahedron()[11] == face(3, 4, 2),
        icosahedron()[12] == face(3, 2, 6),
        icosahedron()[13] == face(3, 6, 8),
        icosahedron()[14] == face(3, 8, 9),
        icosahedron()[15] == face(4, 9, 5),
        icosahedron()[16] == face(2, 4, 11),
        icosahedron()[17] == face(6, 2, 10),
        icosahedron()[18] == face(8, 6, 7),
        icosahedron()[19] == face(9, 8, 1),
{
}

/// The table of sides is right: it finds each side of the icosahedron by
/// its ends, and the side found the other way round is its twin, on a face
/// with another third corner.
pub proof fn lemma_ico_side(j: int, s: int)
    requires
        is_he(icosahedron(), j, s),
    ensures
        tri_ok(icosahedron()[j], 12),
        ico_side(he_src(icosahedron(), j, s), he_dst(icosahedron(), j, s)) == (j, s),
        twins(
            icosahedron(),
            j,
            s,
            ico_side(he_dst(icosahedron(), j, s), he_src(icosahedron(), j, s)).0,
            ico_side(he_dst(icosahedron(), j, s), he_src(icosahedron(), j, s)).1,
        ),
        he_apex(icosahedron(), j, s) != he_apex(
            icosahedron(),
            ico_side(he_dst(icosahedron(), j, s), he_src(icosahedron(), j, s)).0,
            ico_side(he_dst(icosahedron(), j, s), he_src(icosahedron(), j, s)).1,
        ),
{
    lemma_ico_faces();
    assert(j == 0 || j == 1 || j == 2 || j == 3 || j == 4 || j == 5 || j == 6 || j == 7 || j == 8 || j == 9 || j == 10 || j == 11 || j == 12 || j == 13 || j == 14 || j == 15 || j == 16 || j == 17 || j == 18 || j == 19);
    assert(s == 0 || s == 1 || s == 2);
}

/// What the table of sides finds is a side of the icosahedron with those
/// ends.
pub proof fn lemma_ico_side_back(u: usize, w: usize)
    requires
        ico_side(u, w).0 >= 0,
    ensures
        is_he(icosahedron(), ico_side(u, w).0, ico_side(u, w).1),
        he_src(icosahedron(), ico_side(u, w).0, ico_side(u, w).1) == u,
        he_dst(icosahedron(), ico_side(u, w).0, ico_side(u, w).1) == w,
        ico_ring(u).contains(w),
        u < 12,
{
    lemma_ico_faces();
    assert(u == 0 || u == 1 || u == 2 || u == 3 || u == 4 || u == 5 || u == 6 || u == 7 || u == 8 || u == 9 || u == 10 || u == 11);
}

/// The icosahedron is a closed surface over twelve vertices.
pub proof fn lemma_icosahedron_closed()
    ensures
        closed_surface(icosahedron(), 12),
{
    let ico = icosahedron();
    assert forall|j: int| 0 <= j < ico.len() implies tri_ok(#[trigger] ico[j], 12) by {
        lemma_ico_side(j, 0);
    }
    assert forall|j1: int, s1: int, j2: int, s2: int| #[trigger]
        same_dir(ico, j1, s1, j2, s2) implies j1 == j2 && s1 == s2 by {
        lemma_ico_side(j1, s1);
        lemma_ico_side(j2, s2);
    }
    assert forall|j: int, s: int| is_he(ico, j, s) implies #[trigger] has_twin(ico, j, s) by {
        lemma_ico_side(j, s);
    }
    assert forall|j1: int, s1: int, j2: int, s2: int| #[trigger]
        twins(ico, j1, s1, j2, s2) implies he_apex(ico, j1, s1) != he_apex(ico, j2, s2) by {
        lemma_ico_side(j1, s1);
        lemma_ico_side(j2, s2);
    }
}

/// Every corner of the icosahedron has five neighbours.
pub proof fn lemma_icosahedron_degree(v: usize)
    requires
        v < 12,
    ensures
        neighbor_list(icosahedron(), v).len() == 5,
{
    let ico = icosahedron();
    let list = neighbor_list(ico, v);
    lemma_ico_faces();
    lemma_neighbor_members(ico, v);
    assert forall|x: usize| #[trigger] list.to_set().contains(x) implies ico_ring(v).contains(
        x,
    ) by {
        assert(list.contains(x));
        assert(linked(ico, v, x));
        let i = choose|i: int| joins(ico, i, v, x);
        lemma_ico_side(i, 0);
        lemma_ico_side(i, 1);
        lemma_ico_side(i, 2);
        lemma_ico_side_back(v, x);
    }
    assert forall|x: usize| #[trigger] ico_ring(v).contains(x) implies list.to_set().contains(
        x,
    ) by {
        assert(ico_side(v, x).0 >= 0);
        lemma_ico_side_back(v, x);
        assert(joins(ico, ico_side(v, x).0, v, x));
        assert(linked(ico, v, x));
    }
    assert(list.to_set() =~= ico_ring(v));
    list.unique_seq_to_set();
    assert(ico_ring(v).len() == 5) by {
        assert(v == 0 || v == 1 || v == 2 || v == 3 || v == 4 || v == 5 || v == 6 || v == 7 || v == 8 || v == 9 || v == 10 || v == 11);
    }
}

} // verus!
