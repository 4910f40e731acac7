//! Choosing the connections of a maze graph on `n` points, given the outcome of the
//! geometric tests on the points.
//!
//! An adjacency matrix is seen here by which entries are non-zero: `present[a][b]`.
use vstd::prelude::*;

verus! {

/// `table` is an `n` by `n` by `n` cube of booleans.
pub open spec fn is_cube(table: Seq<Vec<Vec<bool>>>, n: int) -> bool {
    &&& table.len() == n
    &&& forall|a: int| 0 <= a < n ==> (#[trigger] table[a])@.len() == n
    &&& forall|a: int, b: int| 0 <= a < n && 0 <= b < n ==> (#[trigger] table[a]@[b])@.len() == n
}

/// `m` is an `n` by `n` matrix of booleans.
pub open spec fn is_square(m: Seq<Vec<bool>>, n: int) -> bool {
    &&& m.len() == n
    &&& forall|a: int| 0 <= a < n ==> (#[trigger] m[a])@.len() == n
}

/// The point triples the triangle search visits: `p1 < p2`, and `p3` any third point.
pub open spec fn is_candidate(n: int, p1: int, p2: int, p3: int) -> bool {
    &&& 0 <= p1 < p2 < n
    &&& 0 <= p3 < n
    &&& p3 != p1
    &&& p3 != p2
}

/// `(a, b)` is an ordered pair of two different corners of triangle `p1 p2 p3`.
pub open spec fn covers(p1: int, p2: int, p3: int, a: int, b: int) -> bool {
    &&& a != b
    &&& (a == p1 || a == p2 || a == p3)
    &&& (b == p1 || b == p2 || b == p3)
}

/// `(p1, p2, p3)` comes before `(q1, q2, q3)` in the search order.
pub open spec fn lex_before(p1: int, p2: int, p3: int, q1: int, q2: int, q3: int) -> bool {
    p1 < q1 || (p1 == q1 && (p2 < q2 || (p2 == q2 && p3 < q3)))
}

/// Some candidate triangle before `(q1, q2, q3)` whose circumcircle holds no other
/// point has `(a, b)` as an edge.
pub open spec fn kept_before(
    n: int,
    empty_circle: Seq<Vec<Vec<bool>>>,
    a: int,
    b: int,
    q1: int,
    q2: int,
    q3: int,
) -> bool {
    exists|p1: int, p2: int, p3: int|
        #![trigger empty_circle[p1]@[p2]@[p3]]
        is_candidate(n, p1, p2, p3) && empty_circle[p1]@[p2]@[p3] && covers(p1, p2, p3, a, b)
            && lex_before(p1, p2, p3, q1, q2, q3)
}

/// The edge `(a, b)` belongs to some candidate triangle whose circumcircle holds no
/// other point.
pub open spec fn delaunay_kept(n: int, empty_circle: Seq<Vec<Vec<bool>>>, a: int, b: int) -> bool {
    kept_before(n, empty_circle, a, b, n, 0, 0)
}

/// Keeps the edges of the triangles whose circumcircle is empty.
/// `empty_circle[p1][p2][p3]` tells whether every point other than `p1`, `p2`, `p3`
/// lies outside the circle through them; it is read for `p1 < p2` and `p3` distinct
/// from both. The result marks the entries of the adjacency matrix that are kept;
/// every other entry becomes 0.
pub fn make_delauney_connections(n: usize, empty_circle: &Vec<Vec<Vec<bool>>>) -> (res: Vec<
    Vec<bool>,
>)
    requires
        is_cube(empty_circle@, n as int),
    ensures
        is_square(res@, n as int),
        forall|a: int, b: int|
            0 <= a < n && 0 <= b < n ==> #[trigger] res@[a]@[b] == delaunay_kept(
                n as int,
                empty_circle@,
                a,
                b,
            ),
        forall|p1: int, p2: int, p3: int|
            0 <= p1 < p2 < n && 0 <= p3 < n && p3 != p1 && p3 != p2
                && #[trigger] empty_circle@[p1]@[p2]@[p3] ==> {
                &&& res@[p1]@[p2] && res@[p2]@[p1]
                &&& res@[p1]@[p3] && res@[p3]@[p1]
                &&& res@[p2]@[p3] && res@[p3]@[p2]
            },
        forall|a: int, b: int|
            0 <= a < n && 0 <= b < n && #[trigger] res@[a]@[b] ==> exists|p1: int, p2: int, p3: int|
                #![trigger empty_circle@[p1]@[p2]@[p3]]
                0 <= p1 < p2 < n && 0 <= p3 < n && p3 != p1 && p3 != p2
                    && empty_circle@[p1]@[p2]@[p3] && a != b && (a == p1 || a == p2 || a == p3) && (b
                    == p1 || b == p2 || b == p3),
{
    let mut kept: Vec<Vec<bool>> = Vec::new();
    let mut a: usize = 0;
    while a < n
        invariant
            a <= n,
            kept@.len() == a,
            forall|r: int| 0 <= r < a ==> (#[trigger] kept@[r])@.len() == n,
            forall|r: int, c: int| 0 <= r < a && 0 <= c < n ==> !#[trigger] kept@[r]@[c],
        decreases n - a,
    {
        let mut row: Vec<bool> = Vec::new();
        let mut b: usize = 0;
        while b < n
            invariant
                b <= n,
                row@.len() == b,
                forall|c: int| 0 <= c < b ==> !#[trigger] row@[c],
            decreases n - b,
        {
            row.push(false);
            b += 1;
        }
        kept.push(row);
        a += 1;
    }
    let ghost ec = empty_circle@;
    let mut p1: usize = 0;
    while p1 < n
        invariant
            p1 <= n,
            ec == empty_circle@,
            is_cube(ec, n as int),
            is_square(kept@, n as int),
            forall|a: int, b: int|
                0 <= a < n && 0 <= b < n ==> #[trigger] kept@[a]@[b] == kept_before(
                    n as int,
                    ec,
                    a,
                    b,
                    p1 as int,
                    0,
                    0,
                ),
        decreases n - p1,
    {
        let mut p2: usize = p1 + 1;
        proof {
            assert forall|a: int, b: int|
                0 <= a < n && 0 <= b < n implies #[trigger] kept@[a]@[b] == kept_before(
                n as int,
                ec,
                a,
                b,
                p1 as int,
                p2 as int,
                0,
            ) by {
                if kept_before(n as int, ec, a, b, p1 as int, p2 as int, 0) {
                    let (q1, q2, q3) = choose|q1: int, q2: int, q3: int|
                        #![trigger ec[q1]@[q2]@[q3]]
                        is_candidate(n as int, q1, q2, q3) && ec[q1]@[q2]@[q3] && covers(
                            q1,
                            q2,
                            q3,
                            a,
                            b,
                        ) && lex_before(q1, q2, q3, p1 as int, p2 as int, 0);
                    assert(lex_before(q1, q2, q3, p1 as int, 0, 0));
                }
                if kept_before(n as int, ec, a, b, p1 as int, 0, 0) {
                    let (q1, q2, q3) = choose|q1: int, q2: int, q3: int|
                        #![trigger ec[q1]@[q2]@[q3]]
                        is_candidate(n as int, q1, q2, q3) && ec[q1]@[q2]@[q3] && covers(
                            q1,
                            q2,
                            q3,
                            a,
                            b,
                        ) && lex_before(q1, q2, q3, p1 as int, 0, 0);
                    assert(lex_before(q1, q2, q3, p1 as int, p2 as int, 0));
                }
            }
        }
        while p2 < n
            invariant
                p1 < n,
                p1 < p2 <= n,
                ec == empty_circle@,
                is_cube(ec, n as int),
                is_square(kept@, n as int),
                forall|a: int, b: int|
                    0 <= a < n && 0 <= b < n ==> #[trigger] kept@[a]@[b] == kept_before(
                        n as int,
                        ec,
                        a,
                        b,
                        p1 as int,
                        p2 as int,
                        0,
                    ),
            decreases n - p2,
        {
            let mut p3: usize = 0;
            while p3 < n
                invariant
                    p1 < p2 < n,
                    p3 <= n,
                    ec == empty_circle@,
                    is_cube(ec, n as int),
                    is_square(kept@, n as int),
                    forall|a: int, b: int|
                        0 <= a < n && 0 <= b < n ==> #[trigger] kept@[a]@[b] == kept_before(
                            n as int,
                            ec,
                            a,
                            b,
                            p1 as int,
                            p2 as int,
                            p3 as int,
                        ),
                decreases n - p3,
            {
                let ghost before = kept@;
                if p3 != p2 && p3 != p1 && empty_circle[p1][p2][p3] {
                    kept[p1].set(p2, true);
                    kept[p2].set(p1, true);
                    kept[p1].set(p3, true);
                    kept[p3].set(p1, true);
                    kept[p2].set(p3, true);
                    kept[p3].set(p2, true);
                }
                proof {
                    let flag = is_candidate(n as int, p1 as int, p2 as int, p3 as int)
                        && ec[p1 as int]@[p2 as int]@[p3 as int];
                    assert forall|a: int, b: int|
                        0 <= a < n && 0 <= b < n implies #[trigger] kept@[a]@[b] == kept_before(
                        n as int,
                        ec,
                        a,
                        b,
                        p1 as int,
                        p2 as int,
                        p3 + 1,
                    ) by {
                        let now = flag && covers(p1 as int, p2 as int, p3 as int, a, b);
                        assert(kept@[a]@[b] == (before[a]@[b] || now));
                        if kept_before(n as int, ec, a, b, p1 as int, p2 as int, p3 + 1) && !now {
                            let (q1, q2, q3) = choose|q1: int, q2: int, q3: int|
                                #![trigger ec[q1]@[q2]@[q3]]
                                is_candidate(n as int, q1, q2, q3) && ec[q1]@[q2]@[q3] && covers(
                                    q1,
                                    q2,
                                    q3,
                                    a,
                                    b,
                                ) && lex_before(q1, q2, q3, p1 as int, p2 as int, p3 + 1);
                            assert(lex_before(q1, q2, q3, p1 as int, p2 as int, p3 as int));
                        }
                        if now {
                            assert(ec[p1 as int]@[p2 as int]@[p3 as int]);
                        }
                        if before[a]@[b] {
                            let (q1, q2, q3) = choose|q1: int, q2: int, q3: int|
                                #![trigger ec[q1]@[q2]@[q3]]
                                is_candidate(n as int, q1, q2, q3) && ec[q1]@[q2]@[q3] && covers(
                                    q1,
                                    q2,
                                    q3,
                                    a,
                                    b,
                                ) && lex_before(q1, q2, q3, p1 as int, p2 as int, p3 as int);
                            assert(lex_before(q1, q2, q3, p1 as int, p2 as int, p3 + 1));
                        }
                    }
                }
                p3 += 1;
            }
            proof {
                assert forall|a: int, b: int|
                    0 <= a < n && 0 <= b < n implies #[trigger] kept@[a]@[b] == kept_before(
                    n as int,
                    ec,
                    a,
                    b,
                    p1 as int,
                    p2 + 1,
                    0,
                ) by {
                    if kept_before(n as int, ec, a, b, p1 as int, p2 + 1, 0) {
                        let (q1, q2, q3) = choose|q1: int, q2: int, q3: int|
                            #![trigger ec[q1]@[q2]@[q3]]
                            is_candidate(n as int, q1, q2, q3) && ec[q1]@[q2]@[q3] && covers(
                                q1,
                                q2,
                                q3,
                                a,
                                b,
                            ) && lex_before(q1, q2, q3, p1 as int, p2 + 1, 0);
                        assert(lex_before(q1, q2, q3, p1 as int, p2 as int, n as int));
                    }
                    if kept_before(n as int, ec, a, b, p1 as int, p2 as int, n as int) {
                        let (q1, q2, q3) = choose|q1: int, q2: int, q3: int|
                            #![trigger ec[q1]@[q2]@[q3]]
                            is_candidate(n as int, q1, q2, q3) && ec[q1]@[q2]@[q3] && covers(
                                q1,
                                q2,
                                q3,
                                a,
                                b,
                            ) && lex_before(q1, q2, q3, p1 as int, p2 as int, n as int);
                        assert(lex_before(q1, q2, q3, p1 as int, p2 + 1, 0));
                    }
                }
            }
            p2 += 1;
        }
        proof {
            assert forall|a: int, b: int|
                0 <= a < n && 0 <= b < n implies #[trigger] kept@[a]@[b] == kept_before(
                n as int,
                ec,
                a,
                b,
                p1 + 1,
                0,
                0,
            ) by {
                if kept_before(n as int, ec, a, b, p1 + 1, 0, 0) {
                    let (q1, q2, q3) = choose|q1: int, q2: int, q3: int|
                        #![trigger ec[q1]@[q2]@[q3]]
                        is_candidate(n as int, q1, q2, q3) && ec[q1]@[q2]@[q3] && covers(
                            q1,
                            q2,
                            q3,
                            a,
                            b,
                        ) && lex_before(q1, q2, q3, p1 + 1, 0, 0);
                    assert(lex_before(q1, q2, q3, p1 as int, n as int, 0));
                }
                if kept_before(n as int, ec, a, b, p1 as int, n as int, 0) {
                    let (q1, q2, q3) = choose|q1: int, q2: int, q3: int|
                        #![trigger ec[q1]@[q2]@[q3]]
                        is_candidate(n as int, q1, q2, q3) && ec[q1]@[q2]@[q3] && covers(
                            q1,
                            q2,
                            q3,
                            a,
                            b,
                        ) && lex_before(q1, q2, q3, p1 as int, n as int, 0);
                    assert(lex_before(q1, q2, q3, p1 + 1, 0, 0));
                }
            }
        }
        p1 += 1;
    }
    proof {
        let ec = empty_circle@;
        assert forall|p1: int, p2: int, p3: int|
            0 <= p1 < p2 < n && 0 <= p3 < n && p3 != p1 && p3 != p2
                && #[trigger] ec[p1]@[p2]@[p3] implies {
            &&& kept@[p1]@[p2] && kept@[p2]@[p1]
            &&& kept@[p1]@[p3] && kept@[p3]@[p1]
            &&& kept@[p2]@[p3] && kept@[p3]@[p2]
        } by {
            assert(is_candidate(n as int, p1, p2, p3) && lex_before(p1, p2, p3, n as int, 0, 0));
            assert(covers(p1, p2, p3, p1, p2) && covers(p1, p2, p3, p2, p1));
            assert(covers(p1, p2, p3, p1, p3) && covers(p1, p2, p3, p3, p1));
            assert(covers(p1, p2, p3, p2, p3) && covers(p1, p2, p3, p3, p2));
            assert(delaunay_kept(n as int, ec, p1, p2) && delaunay_kept(n as int, ec, p2, p1));
            assert(delaunay_kept(n as int, ec, p1, p3) && delaunay_kept(n as int, ec, p3, p1));
            assert(delaunay_kept(n as int, ec, p2, p3) && delaunay_kept(n as int, ec, p3, p2));
        }
        assert forall|a: int, b: int|
            0 <= a < n && 0 <= b < n && #[trigger] kept@[a]@[b] implies exists|
            p1: int,
            p2: int,
            p3: int,
        |
            #![trigger ec[p1]@[p2]@[p3]]
            0 <= p1 < p2 < n && 0 <= p3 < n && p3 != p1 && p3 != p2 && ec[p1]@[p2]@[p3] && a
                != b && (a == p1 || a == p2 || a == p3) && (b == p1 || b == p2 || b == p3) by {
            assert(delaunay_kept(n as int, ec, a, b));
            let (q1, q2, q3) = choose|q1: int, q2: int, q3: int|
                #![trigger ec[q1]@[q2]@[q3]]
                is_candidate(n as int, q1, q2, q3) && ec[q1]@[q2]@[q3] && covers(q1, q2, q3, a, b)
                    && lex_before(q1, q2, q3, n as int, 0, 0);
            assert(ec[q1]@[q2]@[q3]);
        }
    }
    kept
}

/// No entry is kept on the diagonal, and an entry is kept exactly when its mirror
/// image is.
pub proof fn lemma_delaunay_symmetric(n: int, empty_circle: Seq<Vec<Vec<bool>>>, a: int, b: int)
    ensures
        delaunay_kept(n, empty_circle, a, b) == delaunay_kept(n, empty_circle, b, a),
        !delaunay_kept(n, empty_circle, a, a),
{
    let ec = empty_circle;
    if delaunay_kept(n, ec, a, b) {
        let (q1, q2, q3) = choose|q1: int, q2: int, q3: int|
            #![trigger ec[q1]@[q2]@[q3]]
            is_candidate(n, q1, q2, q3) && ec[q1]@[q2]@[q3] && covers(q1, q2, q3, a, b)
                && lex_before(q1, q2, q3, n, 0, 0);
        assert(covers(q1, q2, q3, b, a));
    }
    if delaunay_kept(n, ec, b, a) {
        let (q1, q2, q3) = choose|q1: int, q2: int, q3: int|
            #![trigger ec[q1]@[q2]@[q3]]
            is_candidate(n, q1, q2, q3) && ec[q1]@[q2]@[q3] && covers(q1, q2, q3, b, a)
                && lex_before(q1, q2, q3, n, 0, 0);
        assert(covers(q1, q2, q3, a, b));
    }
}

/// The rows of a boolean matrix, as sequences.
pub open spec fn matrix_view(m: Seq<Vec<bool>>) -> Seq<Seq<bool>> {
    m.map_values(|r: Vec<bool>| r@)
}

/// The segments `i j` and `k l` cross, by the orientation test: `ccw[a][b][c]` tells
/// whether `a`, `b`, `c` turn counter-clockwise.
pub open spec fn crosses(ccw: Seq<Vec<Vec<bool>>>, i: int, j: int, k: int, l: int) -> bool {
    ccw[i]@[k]@[l] != ccw[j]@[k]@[l] && ccw[i]@[j]@[k] != ccw[i]@[j]@[l]
}

/// While edge `i j` is examined, the other edge `k l` (`l < k`) is deleted when the two
/// cross.
pub open spec fn erases(ccw: Seq<Vec<Vec<bool>>>, i: int, j: int, k: int, l: int) -> bool {
    !(i == k && j == l) && !(i == l && j == k) && crosses(ccw, i, j, k, l)
}

/// Entry `[a][b]` is cleared while edge `i j` is examined.
pub open spec fn entry_erased(ccw: Seq<Vec<Vec<bool>>>, i: int, j: int, a: int, b: int) -> bool {
    (a > b && erases(ccw, i, j, a, b)) || (b > a && erases(ccw, i, j, b, a))
}

/// The connections after examining edge `i j`: when it is present, every edge it
/// crosses is removed, in both directions.
pub open spec fn after_edge(m: Seq<Seq<bool>>, ccw: Seq<Vec<Vec<bool>>>, i: int, j: int) -> Seq<
    Seq<bool>,
> {
    if m[i][j] {
        Seq::new(
            m.len(),
            |a: int| Seq::new(m[a].len(), |b: int| m[a][b] && !entry_erased(ccw, i, j, a, b)),
        )
    } else {
        m
    }
}

/// The connections once the edges `i' j'` with `j' < i'` have been examined in order,
/// for every `i' < i`, and for `i' == i` up to `j' < j`.
pub open spec fn planar_state(m0: Seq<Seq<bool>>, ccw: Seq<Vec<Vec<bool>>>, i: int, j: int) -> Seq<
    Seq<bool>,
>
    decreases i, j,
{
    if i <= 0 {
        m0
    } else if j <= 0 {
        planar_state(m0, ccw, i - 1, i - 1)
    } else {
        after_edge(planar_state(m0, ccw, i, j - 1), ccw, i, j - 1)
    }
}

/// `m` is an `n` by `n` matrix.
pub open spec fn is_square_view(m: Seq<Seq<bool>>, n: int) -> bool {
    &&& m.len() == n
    &&& forall|a: int| 0 <= a < n ==> (#[trigger] m[a]).len() == n
}

/// Examining edges keeps the shape of the matrix.
proof fn lemma_planar_state_square(m0: Seq<Seq<bool>>, ccw: Seq<Vec<Vec<bool>>>, n: int, i: int, j: int)
    requires
        is_square_view(m0, n),
    ensures
        is_square_view(planar_state(m0, ccw, i, j), n),
    decreases i, j,
{
    if i > 0 {
        if j <= 0 {
            lemma_planar_state_square(m0, ccw, n, i - 1, i - 1);
        } else {
            lemma_planar_state_square(m0, ccw, n, i, j - 1);
        }
    }
}

/// Deletes crossing connections: for each present edge `i j` with `j < i`, in order,
/// every edge `k l` with `l < k` that crosses it is removed in both directions. The
/// matrix `present` tells which adjacency entries are non-zero; `ccw[a][b][c]` tells
/// whether `a`, `b`, `c` turn counter-clockwise. The result marks the entries that stay
/// non-zero.
pub fn make_planar_connections(present: Vec<Vec<bool>>, ccw: &Vec<Vec<Vec<bool>>>) -> (res: Vec<
    Vec<bool>,
>)
    requires
        is_square(present@, present@.len() as int),
        is_cube(ccw@, present@.len() as int),
    ensures
        is_square(res@, present@.len() as int),
        matrix_view(res@) == planar_state(
            matrix_view(present@),
            ccw@,
            present@.len() as int,
            0,
        ),
        forall|a: int, b: int|
            0 <= a < present@.len() && 0 <= b < present@.len() && #[trigger] res@[a]@[b]
                ==> present@[a]@[b],
        forall|i: int, j: int, k: int, l: int|
            #![trigger res@[i]@[j], res@[k]@[l]]
            0 <= j < i < present@.len() && 0 <= l < k < present@.len() && !(i == k && j == l)
                && res@[i]@[j] && res@[k]@[l] ==> !(ccw@[i]@[k]@[l] != ccw@[j]@[k]@[l]
                && ccw@[i]@[j]@[k] != ccw@[i]@[j]@[l]),
        forall|a: int, b: int|
            0 <= a < present@.len() && 0 <= b < present@.len() && #[trigger] present@[a]@[b] && (
            forall|i: int, j: int|
                0 <= j < i < present@.len() && #[trigger] present@[i]@[j] ==> !((a > b && !(i == a
                    && j == b) && ccw@[i]@[a]@[b] != ccw@[j]@[a]@[b] && ccw@[i]@[j]@[a]
                    != ccw@[i]@[j]@[b]) || (b > a && !(i == b && j == a) && ccw@[i]@[b]@[a]
                    != ccw@[j]@[b]@[a] && ccw@[i]@[j]@[b] != ccw@[i]@[j]@[a]))) ==> res@[a]@[b],
{
    let ghost p0 = present@;
    let n = present.len();
    let mut adj = present;
    let ghost m0 = matrix_view(adj@);
    let ghost cc = ccw@;
    proof {
        assert forall|a: int| 0 <= a < n implies (#[trigger] m0[a]).len() == n by {
            assert(m0[a] == adj@[a]@);
        }
    }
    let mut i: usize = 0;
    while i < n
        invariant
            i <= n,
            n == adj@.len(),
            cc == ccw@,
            is_cube(cc, n as int),
            is_square(adj@, n as int),
            is_square_view(m0, n as int),
            matrix_view(adj@) == planar_state(m0, cc, i as int, 0),
        decreases n - i,
    {
        proof {
            if i > 0 {
                assert(planar_state(m0, cc, i as int, 0) == planar_state(
                    m0,
                    cc,
                    i - 1,
                    i - 1,
                ));
            }
        }
        let mut j: usize = 0;
        while j < i
            invariant
                i < n,
                j <= i,
                n == adj@.len(),
                cc == ccw@,
                is_cube(cc, n as int),
                is_square(adj@, n as int),
                is_square_view(m0, n as int),
                matrix_view(adj@) == planar_state(m0, cc, i as int, j as int),
            decreases i - j,
        {
            let ghost base = matrix_view(adj@);
            proof {
                assert(base[i as int] == adj@[i as int]@);
            }
            if adj[i][j] {
                let mut k: usize = 0;
                while k < n
                    invariant
                        j < i < n,
                        k <= n,
                        n == adj@.len(),
                        cc == ccw@,
                        is_cube(cc, n as int),
                        is_square(adj@, n as int),
                        is_square_view(base, n as int),
                        forall|a: int, b: int|
                            0 <= a < n && 0 <= b < n ==> #[trigger] adj@[a]@[b] == (base[a][b]
                                && !(entry_erased(cc, i as int, j as int, a, b) && ((a > b && a < k)
                                || (b > a && b < k)))),
                    decreases n - k,
                {
                    let mut l: usize = 0;
                    while l < k
                        invariant
                            j < i < n,
                            l <= k < n,
                            n == adj@.len(),
                            cc == ccw@,
                            is_cube(cc, n as int),
                            is_square(adj@, n as int),
                            is_square_view(base, n as int),
                            forall|a: int, b: int|
                                0 <= a < n && 0 <= b < n ==> #[trigger] adj@[a]@[b] == (base[a][b]
                                    && !(entry_erased(cc, i as int, j as int, a, b) && ((a > b && (a
                                    < k || (a == k && b < l))) || (b > a && (b < k || (b == k && a
                                    < l)))))),
                        decreases k - l,
                    {
                        let skip = (i == k && j == l) || (i == l && j == k) || ccw[i][k][l]
                            == ccw[j][k][l] || ccw[i][j][k] == ccw[i][j][l];
                        let ghost before = adj@;
                        if !skip {
                            adj[k].set(l, false);
                            adj[l].set(k, false);
                        }
                        proof {
                            assert(skip == !erases(cc, i as int, j as int, k as int, l as int));
                            assert forall|a: int, b: int|
                                0 <= a < n && 0 <= b < n implies #[trigger] adj@[a]@[b] == (
                            base[a][b] && !(entry_erased(cc, i as int, j as int, a, b) && ((a > b
                                && (a < k || (a == k && b < l + 1))) || (b > a && (b < k || (b
                                == k && a < l + 1)))))) by {
                                assert(before[a]@[b] == (base[a][b] && !(entry_erased(
                                    cc,
                                    i as int,
                                    j as int,
                                    a,
                                    b,
                                ) && ((a > b && (a < k || (a == k && b < l))) || (b > a && (b < k
                                    || (b == k && a < l)))))));
                            }
                        }
                        l += 1;
                    }
                    k += 1;
                }
                proof {
                    let after = after_edge(base, cc, i as int, j as int);
                    assert(base[i as int][j as int]);
                    assert forall|a: int| 0 <= a < n implies #[trigger] matrix_view(adj@)[a]
                        =~= after[a] by {
                        assert(matrix_view(adj@)[a] == adj@[a]@);
                    }
                    assert(matrix_view(adj@) =~= after);
                }
            }
            proof {
                assert(planar_state(m0, cc, i as int, j + 1) == after_edge(
                    planar_state(m0, cc, i as int, j as int),
                    cc,
                    i as int,
                    j as int,
                ));
            }
            j += 1;
        }
        proof {
            assert(planar_state(m0, cc, i + 1, 0) == planar_state(m0, cc, i as int, i as int));
        }
        i += 1;
    }
    proof {
        let fin = matrix_view(adj@);
        assert forall|a: int, b: int| 0 <= a < n && 0 <= b < n && #[trigger] adj@[a]@[b] implies m0[a][b] by {
            lemma_planar_only_removes(m0, cc, n as int, a, b);
            assert(fin[a] == adj@[a]@);
        }
        assert forall|i: int, j: int, k: int, l: int|
            #![trigger adj@[i]@[j], adj@[k]@[l]]
            0 <= j < i < n && 0 <= l < k < n && !(i == k && j == l) && adj@[i]@[j] && adj@[k]@[l]
                implies !(cc[i]@[k]@[l] != cc[j]@[k]@[l] && cc[i]@[j]@[k] != cc[i]@[j]@[l]) by {
            lemma_planar_no_crossings(m0, cc, n as int, i, j, k, l);
            assert(fin[i] == adj@[i]@ && fin[k] == adj@[k]@);
        }
        assert forall|a: int, b: int|
            0 <= a < n && 0 <= b < n && #[trigger] p0[a]@[b] && (forall|i: int, j: int|
                0 <= j < i < n && #[trigger] p0[i]@[j] ==> !((a > b && !(i == a && j == b)
                    && cc[i]@[a]@[b] != cc[j]@[a]@[b] && cc[i]@[j]@[a] != cc[i]@[j]@[b]) || (b
                    > a && !(i == b && j == a) && cc[i]@[b]@[a] != cc[j]@[b]@[a] && cc[i]@[j]@[b]
                    != cc[i]@[j]@[a]))) implies adj@[a]@[b] by {
            assert(m0[a] == p0[a]@);
            assert forall|i2: int, j2: int|
                0 <= j2 < i2 < n && #[trigger] m0[i2][j2] implies !entry_erased(cc, i2, j2, a, b) by {
                assert(m0[i2] == p0[i2]@);
                assert(p0[i2]@[j2]);
            }
            lemma_planar_keeps_entry(m0, cc, n as int, a, b, n as int, 0);
            assert(fin[a] == adj@[a]@);
        }
    }
    adj
}

/// Every entry set in `m1` is set in `m2`.
pub open spec fn entries_within(m1: Seq<Seq<bool>>, m2: Seq<Seq<bool>>, n: int) -> bool {
    forall|a: int, b: int| 0 <= a < n && 0 <= b < n && #[trigger] m1[a][b] ==> m2[a][b]
}

/// The state after a later edge lies within the state after an earlier one.
proof fn lemma_planar_monotone(
    m0: Seq<Seq<bool>>,
    ccw: Seq<Vec<Vec<bool>>>,
    n: int,
    i1: int,
    j1: int,
    i2: int,
    j2: int,
)
    requires
        is_square_view(m0, n),
        0 <= j1 <= i1,
        0 <= j2 <= i2,
        i1 < i2 || (i1 == i2 && j1 <= j2),
    ensures
        entries_within(planar_state(m0, ccw, i2, j2), planar_state(m0, ccw, i1, j1), n),
    decreases i2, j2,
{
    if i1 == i2 && j1 == j2 {
    } else if j2 > 0 {
        lemma_planar_monotone(m0, ccw, n, i1, j1, i2, j2 - 1);
        lemma_planar_state_square(m0, ccw, n, i2, j2 - 1);
        let m = planar_state(m0, ccw, i2, j2 - 1);
        let after = after_edge(m, ccw, i2, j2 - 1);
        assert(planar_state(m0, ccw, i2, j2) == after);
        assert forall|a: int, b: int|
            0 <= a < n && 0 <= b < n && #[trigger] after[a][b] implies m[a][b] by {
        }
    } else {
        lemma_planar_monotone(m0, ccw, n, i1, j1, i2 - 1, i2 - 1);
    }
}

/// An entry stays while no edge present at the start erases it.
proof fn lemma_planar_keeps_entry(
    m0: Seq<Seq<bool>>,
    ccw: Seq<Vec<Vec<bool>>>,
    n: int,
    a: int,
    b: int,
    i: int,
    j: int,
)
    requires
        is_square_view(m0, n),
        0 <= a < n,
        0 <= b < n,
        m0[a][b],
        0 <= j <= i <= n,
        i < n || j == 0,
        forall|i2: int, j2: int|
            0 <= j2 < i2 < n && #[trigger] m0[i2][j2] ==> !entry_erased(ccw, i2, j2, a, b),
    ensures
        planar_state(m0, ccw, i, j)[a][b],
    decreases i, j,
{
    if i > 0 {
        if j <= 0 {
            lemma_planar_keeps_entry(m0, ccw, n, a, b, i - 1, i - 1);
        } else {
            lemma_planar_keeps_entry(m0, ccw, n, a, b, i, j - 1);
            lemma_planar_state_square(m0, ccw, n, i, j - 1);
            lemma_planar_monotone(m0, ccw, n, 0, 0, i, j - 1);
            let m = planar_state(m0, ccw, i, j - 1);
            if m[i][j - 1] {
                assert(m0[i][j - 1]);
            }
        }
    }
}

/// Deleting crossing connections never adds one.
pub proof fn lemma_planar_only_removes(
    present: Seq<Seq<bool>>,
    ccw: Seq<Vec<Vec<bool>>>,
    n: int,
    a: int,
    b: int,
)
    requires
        is_square_view(present, n),
        0 <= a < n,
        0 <= b < n,
    ensures
        planar_state(present, ccw, n, 0)[a][b] ==> present[a][b],
{
    if n > 0 {
        lemma_planar_monotone(present, ccw, n, 0, 0, n, 0);
    }
}

/// Once crossing connections are deleted, no two remaining edges `i j` (`j < i`) and
/// `k l` (`l < k`) cross, unless they are the same segment.
pub proof fn lemma_planar_no_crossings(
    present: Seq<Seq<bool>>,
    ccw: Seq<Vec<Vec<bool>>>,
    n: int,
    i: int,
    j: int,
    k: int,
    l: int,
)
    requires
        is_square_view(present, n),
        0 <= j < i < n,
        0 <= l < k < n,
    ensures
        !(planar_state(present, ccw, n, 0)[i][j] && planar_state(present, ccw, n, 0)[k][l]
            && erases(ccw, i, j, k, l)),
{
    let fin = planar_state(present, ccw, n, 0);
    lemma_planar_monotone(present, ccw, n, i, j, n, 0);
    lemma_planar_monotone(present, ccw, n, i, j + 1, n, 0);
    lemma_planar_state_square(present, ccw, n, i, j);
    let m = planar_state(present, ccw, i, j);
    assert(planar_state(present, ccw, i, j + 1) == after_edge(m, ccw, i, j));
    if fin[i][j] {
        assert(m[i][j]);
        assert(!after_edge(m, ccw, i, j)[k][l] || !erases(ccw, i, j, k, l));
    }
}

/// `m` is symmetric.
pub open spec fn is_symmetric(m: Seq<Seq<bool>>, n: int) -> bool {
    forall|a: int, b: int| 0 <= a < n && 0 <= b < n ==> #[trigger] m[a][b] == m[b][a]
}

/// Deleting crossing connections keeps a symmetric matrix symmetric.
pub proof fn lemma_planar_keeps_symmetry(
    present: Seq<Seq<bool>>,
    ccw: Seq<Vec<Vec<bool>>>,
    n: int,
    i: int,
    j: int,
)
    requires
        is_square_view(present, n),
        is_symmetric(present, n),
    ensures
        is_symmetric(planar_state(present, ccw, i, j), n),
    decreases i, j,
{
    if i > 0 {
        if j <= 0 {
            lemma_planar_keeps_symmetry(present, ccw, n, i - 1, i - 1);
        } else {
            lemma_planar_keeps_symmetry(present, ccw, n, i, j - 1);
            lemma_planar_state_square(present, ccw, n, i, j - 1);
            let m = planar_state(present, ccw, i, j - 1);
            let after = after_edge(m, ccw, i, j - 1);
            assert forall|a: int, b: int| 0 <= a < n && 0 <= b < n implies #[trigger] after[a][b]
                == after[b][a] by {
                assert(m[a][b] == m[b][a]);
            }
        }
    }
}

} // verus!
