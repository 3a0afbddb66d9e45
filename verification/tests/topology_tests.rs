use sphere_sweeper::board::{is_valid_adjacency, Board};
use sphere_sweeper::topology::{
    generate_goldberg_polyhedron, icosahedron_faces, incident_lists, neighbor_lists_of,
    subdivide, subdivided_icosahedron, Face, BASE_FACES, BASE_VERTICES, MAX_SUBDIVISIONS,
};

fn pow4(k: usize) -> usize {
    let mut p = 1;
    for _ in 0..k {
        p *= 4;
    }
    p
}

#[test]
fn cell_count_matches_the_closed_form() {
    let expected = [12usize, 42, 162, 642, 2562];
    for s in 0..=4usize {
        let p = generate_goldberg_polyhedron(s);
        assert_eq!(p.adjacency.len(), expected[s]);
        assert_eq!(p.adjacency.len(), 10 * pow4(s) + 2);
        assert_eq!(p.incident.len(), expected[s]);
        assert_eq!(p.parents.len() + BASE_VERTICES, expected[s]);
        assert_eq!(p.faces.len(), BASE_FACES * pow4(s));
    }
}

#[test]
fn twelve_pentagons_and_hexagons_otherwise() {
    for s in 0..=4usize {
        let p = generate_goldberg_polyhedron(s);
        let mut fives = 0;
        for (v, list) in p.adjacency.iter().enumerate() {
            if v < BASE_VERTICES {
                assert_eq!(list.len(), 5);
                fives += 1;
            } else {
                assert_eq!(list.len(), 6);
            }
            assert_eq!(p.incident[v].len(), list.len());
        }
        assert_eq!(fives, 12);
    }
}

#[test]
fn adjacency_is_symmetric() {
    for s in 0..=4usize {
        let p = generate_goldberg_polyhedron(s);
        for (a, list) in p.adjacency.iter().enumerate() {
            for &b in list {
                assert!(b < p.adjacency.len());
                assert_ne!(a, b);
                assert!(p.adjacency[b].contains(&a));
            }
            let mut sorted = list.clone();
            sorted.sort();
            sorted.dedup();
            assert_eq!(sorted.len(), list.len());
        }
        assert!(is_valid_adjacency(&p.adjacency));
        assert!(Board::new(&p.adjacency).is_some());
    }
}

#[test]
fn zero_subdivisions_give_the_dodecahedron() {
    let p = generate_goldberg_polyhedron(0);
    assert!(p.parents.is_empty());
    assert_eq!(p.faces, icosahedron_faces());
    assert_eq!(p.adjacency[0], vec![11, 5, 1, 7, 10]);
    assert_eq!(p.incident[0], vec![0, 1, 2, 3, 4]);
    assert_eq!(p.adjacency[3], vec![9, 4, 2, 6, 8]);
}

#[test]
fn icosahedron_has_twenty_faces_over_twelve_corners() {
    let faces = icosahedron_faces();
    assert_eq!(faces.len(), 20);
    assert_eq!(faces[0], Face { a: 0, b: 11, c: 5 });
    assert_eq!(faces[19], Face { a: 9, b: 8, c: 1 });
    for f in &faces {
        assert!(f.a < 12 && f.b < 12 && f.c < 12);
        assert!(f.a != f.b && f.b != f.c && f.c != f.a);
    }
}

#[test]
fn one_round_splits_a_triangle_in_four() {
    let faces = vec![Face { a: 0, b: 1, c: 2 }];
    let mut parents: Vec<(usize, usize)> = Vec::new();
    let next = subdivide(&faces, &mut parents);
    assert_eq!(parents, vec![(0, 1), (1, 2), (0, 2)]);
    assert_eq!(
        next,
        vec![
            Face { a: 0, b: 12, c: 14 },
            Face { a: 1, b: 13, c: 12 },
            Face { a: 2, b: 14, c: 13 },
            Face { a: 12, b: 13, c: 14 },
        ]
    );
}

#[test]
fn shared_edge_gets_one_midpoint() {
    let faces = vec![Face { a: 0, b: 1, c: 2 }, Face { a: 1, b: 0, c: 3 }];
    let mut parents: Vec<(usize, usize)> = Vec::new();
    let next = subdivide(&faces, &mut parents);
    assert_eq!(parents, vec![(0, 1), (1, 2), (0, 2), (0, 3), (1, 3)]);
    assert_eq!(next.len(), 8);
    assert_eq!(next[0].b, 12);
    assert_eq!(next[4], Face { a: 1, b: 12, c: 16 });
    assert_eq!(next[7], Face { a: 12, b: 15, c: 16 });
}

#[test]
fn first_round_numbers_midpoints_in_order_of_first_use() {
    let (parents, faces) = subdivided_icosahedron(1);
    assert_eq!(parents.len(), 30);
    assert_eq!(faces.len(), 80);
    assert_eq!(parents[0], (0, 11));
    assert_eq!(parents[1], (5, 11));
    assert_eq!(parents[2], (0, 5));
    assert_eq!(parents[3], (1, 5));
    assert_eq!(faces[0], Face { a: 0, b: 12, c: 14 });
    assert_eq!(faces[3], Face { a: 12, b: 13, c: 14 });
    assert_eq!(faces[4], Face { a: 0, b: 14, c: 16 });
    let mut sorted = parents.clone();
    sorted.sort();
    sorted.dedup();
    assert_eq!(sorted.len(), 30);
    for (lo, hi) in parents {
        assert!(lo < hi && hi < 12);
    }
}

#[test]
fn parents_come_before_their_midpoint() {
    let p = generate_goldberg_polyhedron(3);
    for (k, (lo, hi)) in p.parents.iter().enumerate() {
        assert!(lo < hi);
        assert!(*hi < BASE_VERTICES + k);
    }
}

#[test]
fn incident_faces_name_their_vertex() {
    let p = generate_goldberg_polyhedron(2);
    for (v, around) in p.incident.iter().enumerate() {
        for &i in around {
            let f = p.faces[i];
            assert!(f.a == v || f.b == v || f.c == v);
        }
        let mut count = 0;
        for f in &p.faces {
            if f.a == v || f.b == v || f.c == v {
                count += 1;
            }
        }
        assert_eq!(count, around.len());
    }
}

#[test]
fn lists_of_a_single_triangle() {
    let faces = vec![Face { a: 0, b: 1, c: 2 }];
    let incident = incident_lists(&faces, 4);
    assert_eq!(incident, vec![vec![0], vec![0], vec![0], vec![]]);
    let adjacency = neighbor_lists_of(&faces, &incident);
    assert_eq!(adjacency, vec![vec![1, 2], vec![0, 2], vec![0, 1], vec![]]);
}

#[test]
fn largest_depth_is_twelve() {
    assert_eq!(MAX_SUBDIVISIONS, 12);
}

#[test]
fn five_rounds_keep_the_pattern() {
    let p = generate_goldberg_polyhedron(5);
    assert_eq!(p.adjacency.len(), 10242);
    assert_eq!(p.faces.len(), 20480);
    for (v, list) in p.adjacency.iter().enumerate() {
        assert_eq!(list.len(), if v < 12 { 5 } else { 6 });
    }
}
