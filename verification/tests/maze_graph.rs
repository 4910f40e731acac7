use triangulator::graph::{make_delauney_connections, make_planar_connections};

fn cube(n: usize) -> Vec<Vec<Vec<bool>>> {
    vec![vec![vec![false; n]; n]; n]
}

#[test]
fn delaunay_keeps_edges_of_empty_triangles() {
    let mut flags = cube(4);
    flags[0][1][2] = true;
    let kept = make_delauney_connections(4, &flags);
    for a in 0..4 {
        for b in 0..4 {
            let expect = a != b && a < 3 && b < 3;
            assert_eq!(kept[a][b], expect, "entry {} {}", a, b);
        }
    }
}

#[test]
fn delaunay_ignores_flags_outside_the_search() {
    let mut flags = cube(3);
    // p1 >= p2, or p3 equal to a corner, is never examined
    flags[2][1][0] = true;
    flags[0][1][1] = true;
    let kept = make_delauney_connections(3, &flags);
    assert!(kept.iter().all(|row| row.iter().all(|&k| !k)));
}

#[test]
fn delaunay_is_symmetric() {
    let mut flags = cube(5);
    flags[0][3][4] = true;
    flags[1][2][0] = true;
    let kept = make_delauney_connections(5, &flags);
    for a in 0..5 {
        assert!(!kept[a][a]);
        for b in 0..5 {
            assert_eq!(kept[a][b], kept[b][a]);
        }
    }
    assert!(kept[3][4] && kept[0][4] && kept[1][2] && kept[0][2]);
    assert!(!kept[3][2]);
}

#[test]
fn delaunay_on_no_points() {
    assert!(make_delauney_connections(0, &Vec::new()).is_empty());
}

fn ccw_table(points: &[(f64, f64)]) -> Vec<Vec<Vec<bool>>> {
    let n = points.len();
    let ccw = |a: usize, b: usize, c: usize| {
        let (ax, ay) = points[a];
        let (bx, by) = points[b];
        let (cx, cy) = points[c];
        (cy - ay) * (bx - ax) > (by - ay) * (cx - ax)
    };
    (0..n)
        .map(|a| (0..n).map(|b| (0..n).map(|c| ccw(a, b, c)).collect()).collect())
        .collect()
}

fn crosses(t: &[Vec<Vec<bool>>], i: usize, j: usize, k: usize, l: usize) -> bool {
    t[i][k][l] != t[j][k][l] && t[i][j][k] != t[i][j][l]
}

fn as_bits(m: &[Vec<bool>]) -> Vec<Vec<u8>> {
    m.iter().map(|row| row.iter().map(|&b| b as u8).collect()).collect()
}

#[test]
fn planar_on_a_square_with_its_diagonals() {
    // 0 and 1 are opposite corners, and so are 2 and 3; a segment that shares an
    // end point with the examined one counts as crossing when the orientation test
    // says so, which removes side 1-2 as well
    let points = [(0.0, 0.0), (1.0, 1.0), (1.0, 0.0), (0.0, 1.0)];
    let ccw = ccw_table(&points);
    let present = vec![vec![true; 4]; 4];
    let res = make_planar_connections(present, &ccw);
    assert_eq!(
        as_bits(&res),
        vec![vec![1, 1, 1, 1], vec![1, 1, 0, 1], vec![1, 0, 1, 0], vec![1, 1, 0, 1]]
    );
}

#[test]
fn planar_result_has_no_crossings_and_only_removes() {
    let points = [(0.0, 0.0), (4.0, 1.0), (1.0, 3.0), (3.0, 4.0), (2.0, 0.5), (0.5, 2.0)];
    let n = points.len();
    let ccw = ccw_table(&points);
    let present: Vec<Vec<bool>> = (0..n).map(|a| (0..n).map(|b| a != b).collect()).collect();
    let res = make_planar_connections(present.clone(), &ccw);
    for a in 0..n {
        for b in 0..n {
            assert!(!res[a][b] || present[a][b]);
            assert_eq!(res[a][b], res[b][a]);
        }
    }
    for i in 0..n {
        for j in 0..i {
            for k in 0..n {
                for l in 0..k {
                    if (i, j) == (k, l) {
                        continue;
                    }
                    assert!(!(res[i][j] && res[k][l] && crosses(&ccw, i, j, k, l)));
                }
            }
        }
    }
}

#[test]
fn planar_skips_absent_edges() {
    let points = [(0.0, 0.0), (1.0, 1.0), (1.0, 0.0), (0.0, 1.0)];
    let ccw = ccw_table(&points);
    let mut present = vec![vec![true; 4]; 4];
    present[1][0] = false;
    present[0][1] = false;
    let res = make_planar_connections(present, &ccw);
    assert_eq!(
        as_bits(&res),
        vec![vec![1, 0, 1, 1], vec![0, 1, 1, 1], vec![1, 1, 1, 0], vec![1, 1, 0, 1]]
    );
}
