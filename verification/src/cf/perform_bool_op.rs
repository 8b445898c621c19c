//! Boolean operations on meshes: the discrete part, which sorts the triangles
//! of a cut mesh into those inside and those outside the other mesh.
//!
//! After a mesh has been cut along the intersection curve, the triangles that
//! touch the curve ("the intersection area") carry a marker: `BoundInner` or
//! `BoundOuter` when their side is known, `Bound` when they only touch the
//! curve in a point. `separate` spreads these sides over the whole mesh along
//! the neighbour relation.

use vstd::prelude::*;

verus! {

/// The outcome of a boolean operation.
#[derive(Clone, Copy, PartialEq, Eq, Structural, Debug)]
pub enum InfoBoolOp {
    Intersecting,
    NotIntersecting,
}

/// The side of a triangle of a cut mesh.
#[derive(Clone, Copy, PartialEq, Eq, Structural, Debug)]
pub enum Marker {
    Unclassified,
    Inner,
    Outer,
    Bound,
    BoundInner,
    BoundOuter,
}

/// Why a cut mesh could not be separated into an inner and an outer part.
#[derive(Clone, Copy, PartialEq, Eq, Structural, Debug)]
pub enum SeparateError {
    /// A triangle of the intersection area had no known side when its turn
    /// to spread its side came.
    UnsidedSeed,
    /// A triangle was left without a side after the spreading.
    UnsidedTriangle,
}

/// A side known on the intersection curve.
pub open spec fn is_bound_side(m: Marker) -> bool {
    m == Marker::BoundInner || m == Marker::BoundOuter
}

/// A marker that puts a triangle into one of the two parts.
pub open spec fn is_sided(m: Marker) -> bool {
    m == Marker::Inner || m == Marker::Outer || is_bound_side(m)
}

/// A marker that puts a triangle into the inner part.
pub open spec fn is_inner_side(m: Marker) -> bool {
    m == Marker::Inner || m == Marker::BoundInner
}

/// The marker given to the triangles flooded from a seed with side `side`.
pub open spec fn fill_of(side: Marker) -> Marker {
    if side == Marker::BoundInner {
        Marker::Inner
    } else {
        Marker::Outer
    }
}

/// The neighbour lists as sequences.
pub open spec fn lists_view(v: Seq<Vec<usize>>) -> Seq<Seq<usize>> {
    v.map_values(|l: Vec<usize>| l@)
}

/// The per-neighbour flags as sequences.
pub open spec fn flags_view(v: Seq<Vec<bool>>) -> Seq<Seq<bool>> {
    v.map_values(|l: Vec<bool>| l@)
}

/// Every neighbour index names one of the `n` triangles.
pub open spec fn lists_in_range(nbs: Seq<Seq<usize>>, n: int) -> bool {
    forall|i: int, p: int|
        0 <= i < nbs.len() && 0 <= p < nbs[i].len() ==> (#[trigger] nbs[i][p]) < n
}

/// The markers before any spreading: `Unclassified` everywhere, then the
/// markers of the intersection area in order (a later entry wins).
pub open spec fn initial_markers(n: nat, ia: Seq<(usize, Marker)>) -> Seq<Marker>
    decreases ia.len(),
{
    if ia.len() == 0 {
        Seq::new(n, |i: int| Marker::Unclassified)
    } else {
        let prev = initial_markers(n, ia.drop_last());
        if (ia.last().0 as int) < prev.len() {
            prev.update(ia.last().0 as int, ia.last().1)
        } else {
            prev
        }
    }
}

/// The side of the first neighbour, from position `p` on, that has a known
/// side on the curve and shares an edge with the triangle.
pub open spec fn first_touching_side(m: Seq<Marker>, nb: Seq<usize>, tc: Seq<bool>, p: int) -> Option<
    Marker,
>
    decreases nb.len() - p,
{
    if p < 0 || p >= nb.len() {
        None
    } else if is_bound_side(m[nb[p] as int]) && tc[p] {
        Some(m[nb[p] as int])
    } else {
        first_touching_side(m, nb, tc, p + 1)
    }
}

/// The markers after the first `k` entries of the intersection area have been
/// looked at: a `Bound` entry takes the side of its first edge-sharing
/// neighbour with a known side.
pub open spec fn bound_step(
    m: Seq<Marker>,
    nbs: Seq<Seq<usize>>,
    tcs: Seq<Seq<bool>>,
    ia: Seq<(usize, Marker)>,
    k: nat,
) -> Seq<Marker>
    decreases k,
{
    if k == 0 {
        m
    } else {
        let prev = bound_step(m, nbs, tcs, ia, (k - 1) as nat);
        let e = ia[k - 1];
        if e.1 == Marker::Bound {
            match first_touching_side(prev, nbs[e.0 as int], tcs[e.0 as int], 0) {
                Some(x) => prev.update(e.0 as int, x),
                None => prev,
            }
        } else {
            prev
        }
    }
}

/// `path` leads from `s` along neighbour links through triangles that are all
/// unclassified in `m` (all but the first).
pub open spec fn is_flood_path(m: Seq<Marker>, nbs: Seq<Seq<usize>>, s: int, path: Seq<usize>) -> bool {
    &&& path.len() >= 2
    &&& path[0] == s
    &&& forall|j: int| 0 <= j < path.len() ==> (#[trigger] path[j] as int) < nbs.len()
    &&& forall|j: int|
        1 <= j < path.len() ==> nbs[path[j - 1] as int].contains(#[trigger] path[j])
    &&& forall|j: int| 1 <= j < path.len() ==> m[#[trigger] path[j] as int] == Marker::Unclassified
}

/// Triangle `u` is reached when flooding from `s`.
pub open spec fn floods(m: Seq<Marker>, nbs: Seq<Seq<usize>>, s: int, u: int) -> bool {
    exists|path: Seq<usize>| #[trigger] is_flood_path(m, nbs, s, path) && path.last() == u
}

/// Triangle `b` is a neighbour of a triangle reached when flooding from `s`.
pub open spec fn flood_borders(m: Seq<Marker>, nbs: Seq<Seq<usize>>, s: int, b: int) -> bool {
    exists|u: int|
        0 <= u < nbs.len() && #[trigger] floods(m, nbs, s, u) && nbs[u].contains(b as usize)
}

/// The markers after flooding from seed `s`: the unclassified triangles it
/// reaches take the seed's side as `Inner` or `Outer`, and the `Bound`
/// triangles next to them take the seed's marker.
pub open spec fn flood(m: Seq<Marker>, nbs: Seq<Seq<usize>>, s: int) -> Seq<Marker> {
    Seq::new(
        m.len(),
        |u: int|
            if m[u] == Marker::Unclassified && floods(m, nbs, s, u) {
                fill_of(m[s])
            } else if m[u] == Marker::Bound && flood_borders(m, nbs, s, u) {
                m[s]
            } else {
                m[u]
            },
    )
}

/// The markers after flooding from the seeds of the first `k` entries of the
/// intersection area, in order; `None` when a seed has no known side at its
/// turn.
pub open spec fn flood_all(m: Seq<Marker>, nbs: Seq<Seq<usize>>, ia: Seq<(usize, Marker)>, k: nat) -> Option<
    Seq<Marker>,
>
    decreases k,
{
    if k == 0 {
        Some(m)
    } else {
        match flood_all(m, nbs, ia, (k - 1) as nat) {
            None => None,
            Some(prev) => {
                let s = ia[k - 1].0 as int;
                if is_bound_side(prev[s]) {
                    Some(flood(prev, nbs, s))
                } else {
                    None
                }
            },
        }
    }
}

/// The indices below `k`, in increasing order, whose marker is on the inner
/// side (`inner`) or on the outer side (`!inner`).
pub open spec fn side_indices(m: Seq<Marker>, inner: bool, k: nat) -> Seq<usize>
    decreases k,
{
    if k == 0 {
        Seq::empty()
    } else {
        let prev = side_indices(m, inner, (k - 1) as nat);
        let x = m[k - 1];
        if is_sided(x) && is_inner_side(x) == inner {
            prev.push((k - 1) as usize)
        } else {
            prev
        }
    }
}

/// What `separate` computes: the indices of the inner and of the outer
/// triangles, or the reason why there is no such separation.
pub open spec fn spec_separate(
    nbs: Seq<Seq<usize>>,
    tcs: Seq<Seq<bool>>,
    ia: Seq<(usize, Marker)>,
) -> Result<(Seq<usize>, Seq<usize>), SeparateError> {
    let m0 = initial_markers(nbs.len(), ia);
    let m1 = bound_step(m0, nbs, tcs, ia, ia.len());
    match flood_all(m1, nbs, ia, ia.len()) {
        None => Err(SeparateError::UnsidedSeed),
        Some(m2) => if forall|i: int| 0 <= i < m2.len() ==> is_sided(#[trigger] m2[i]) {
            Ok((side_indices(m2, true, m2.len()), side_indices(m2, false, m2.len())))
        } else {
            Err(SeparateError::UnsidedTriangle)
        },
    }
}

/// The number of unclassified markers.
pub open spec fn count_unclassified(m: Seq<Marker>) -> nat
    decreases m.len(),
{
    if m.len() == 0 {
        0
    } else {
        count_unclassified(m.drop_last()) + if m.last() == Marker::Unclassified {
            1nat
        } else {
            0nat
        }
    }
}

proof fn lemma_count_update(m: Seq<Marker>, i: int, x: Marker)
    requires
        0 <= i < m.len(),
        x != Marker::Unclassified,
    ensures
        count_unclassified(m.update(i, x)) == count_unclassified(m) - (if m[i]
            == Marker::Unclassified {
            1int
        } else {
            0int
        }),
    decreases m.len(),
{
    if i == m.len() - 1 {
        assert(m.update(i, x).drop_last() =~= m.drop_last());
    } else {
        lemma_count_update(m.drop_last(), i, x);
        assert(m.update(i, x).drop_last() =~= m.drop_last().update(i, x));
    }
}

proof fn lemma_flood_all_stays_none(
    m: Seq<Marker>,
    nbs: Seq<Seq<usize>>,
    ia: Seq<(usize, Marker)>,
    k: nat,
    k2: nat,
)
    requires
        k <= k2,
        flood_all(m, nbs, ia, k) is None,
    ensures
        flood_all(m, nbs, ia, k2) is None,
    decreases k2 - k,
{
    if k < k2 {
        lemma_flood_all_stays_none(m, nbs, ia, k, (k2 - 1) as nat);
    }
}

/// Triangle `u` has been reached by the flood from `s` (or is `s`).
spec fn visited(m0: Seq<Marker>, m: Seq<Marker>, s: int, u: int) -> bool {
    u == s || (m0[u] == Marker::Unclassified && m[u] == fill_of(m0[s]))
}

/// Every marker changed so far is a change that the flood makes.
spec fn marker_ok(m0: Seq<Marker>, m: Seq<Marker>, nbs: Seq<Seq<usize>>, s: int, u: int) -> bool {
    ||| m[u] == m0[u]
    ||| m0[u] == Marker::Unclassified && m[u] == fill_of(m0[s]) && floods(m0, nbs, s, u)
    ||| m0[u] == Marker::Bound && m[u] == m0[s] && flood_borders(m0, nbs, s, u)
}

/// All neighbours of `v` have been dealt with.
spec fn handled(m0: Seq<Marker>, m: Seq<Marker>, nbs: Seq<Seq<usize>>, s: int, v: int) -> bool {
    forall|q: int|
        0 <= q < nbs[v].len() ==> {
            &&& m[#[trigger] nbs[v][q] as int] != Marker::Unclassified
            &&& (m0[nbs[v][q] as int] == Marker::Bound && v != s) ==> m[nbs[v][q] as int] == m0[s]
        }
}

/// The flood reaches every triangle on a flood path once all reached
/// triangles have been dealt with.
proof fn lemma_path_visited(
    m0: Seq<Marker>,
    m: Seq<Marker>,
    nbs: Seq<Seq<usize>>,
    s: int,
    path: Seq<usize>,
    j: int,
)
    requires
        0 <= s < nbs.len(),
        m0.len() == nbs.len(),
        m.len() == nbs.len(),
        is_bound_side(m0[s]),
        is_flood_path(m0, nbs, s, path),
        0 <= j < path.len(),
        forall|u: int| 0 <= u < nbs.len() && visited(m0, m, s, u) ==> handled(m0, m, nbs, s, u),
        forall|u: int| 0 <= u < nbs.len() ==> marker_ok(m0, m, nbs, s, u),
    ensures
        visited(m0, m, s, path[j] as int),
    decreases j,
{
    if j > 0 {
        lemma_path_visited(m0, m, nbs, s, path, j - 1);
        let v = path[j - 1] as int;
        let w = path[j];
        assert((path[j - 1] as int) < nbs.len());
        assert((path[j] as int) < nbs.len());
        assert(nbs[v].contains(w));
        let q = choose|q: int| 0 <= q < nbs[v].len() && nbs[v][q] == w;
        assert(handled(m0, m, nbs, s, v));
        assert(m[nbs[v][q] as int] != Marker::Unclassified);
        assert(m0[path[j] as int] == Marker::Unclassified);
        assert(marker_ok(m0, m, nbs, s, w as int));
    }
}

/// Every marker changed so far, at every triangle, is a change that the
/// flood makes.
spec fn all_ok(m0: Seq<Marker>, m: Seq<Marker>, nbs: Seq<Seq<usize>>, s: int, n: int) -> bool {
    forall|u: int| 0 <= u < n ==> #[trigger] marker_ok(m0, m, nbs, s, u)
}

/// The triangles in `done` have been reached and all their neighbours dealt with.
spec fn done_ok(m0: Seq<Marker>, m: Seq<Marker>, nbs: Seq<Seq<usize>>, s: int, done: Set<int>, n: int) -> bool {
    forall|u: int|
        #[trigger] done.contains(u) ==> 0 <= u < n && visited(m0, m, s, u) && handled(m0, m, nbs, s, u)
}

/// One change of the flood keeps the bookkeeping of the changes made so far.
proof fn lemma_flood_step(
    m0: Seq<Marker>,
    m: Seq<Marker>,
    nbs: Seq<Seq<usize>>,
    s: int,
    done: Set<int>,
    n: int,
    w: int,
    x: Marker,
)
    requires
        m.len() == n,
        m0.len() == n,
        nbs.len() == n,
        lists_in_range(nbs, n),
        0 <= s < n,
        0 <= w < n,
        is_bound_side(m0[s]),
        all_ok(m0, m, nbs, s, n),
        done_ok(m0, m, nbs, s, done, n),
        (m[w] == Marker::Unclassified && x == fill_of(m0[s]) && floods(m0, nbs, s, w)) || (m[w]
            == Marker::Bound && m0[w] == Marker::Bound && x == m0[s] && flood_borders(
            m0,
            nbs,
            s,
            w,
        )),
    ensures
        all_ok(m0, m.update(w, x), nbs, s, n),
        done_ok(m0, m.update(w, x), nbs, s, done, n),
        forall|u: int|
            0 <= u < n && u != w ==> visited(m0, m.update(w, x), s, u) == visited(m0, m, s, u),
        m[w] == Marker::Unclassified ==> visited(m0, m.update(w, x), s, w),
        count_unclassified(m.update(w, x)) == count_unclassified(m) - (if m[w]
            == Marker::Unclassified {
            1int
        } else {
            0int
        }),
{
    let m2 = m.update(w, x);
    lemma_count_update(m, w, x);
    assert(marker_ok(m0, m, nbs, s, w));
    assert(marker_ok(m0, m, nbs, s, s));
    assert forall|u: int| 0 <= u < n implies #[trigger] marker_ok(m0, m2, nbs, s, u) by {
        assert(marker_ok(m0, m, nbs, s, u));
    }
    assert forall|u: int| #[trigger] done.contains(u) implies 0 <= u < n && visited(m0, m2, s, u)
        && handled(m0, m2, nbs, s, u) by {
        assert(visited(m0, m, s, u));
        assert(handled(m0, m, nbs, s, u));
        assert forall|q: int| 0 <= q < nbs[u].len() implies {
            &&& m2[#[trigger] nbs[u][q] as int] != Marker::Unclassified
            &&& (m0[nbs[u][q] as int] == Marker::Bound && u != s) ==> m2[nbs[u][q] as int] == m0[s]
        } by {
            assert(m[nbs[u][q] as int] != Marker::Unclassified);
            assert(nbs[u][q] < n);
        }
    }
}

/// Floods from seed `s`, whose side is known.
fn flood_from(markers: &mut Vec<Marker>, neighbors: &Vec<Vec<usize>>, s: usize)
    requires
        old(markers).len() == neighbors.len(),
        s < neighbors.len(),
        is_bound_side(old(markers)@[s as int]),
        lists_in_range(lists_view(neighbors@), neighbors.len() as int),
    ensures
        final(markers)@ == flood(old(markers)@, lists_view(neighbors@), s as int),
{
    let ghost m0 = markers@;
    let ghost nbs = lists_view(neighbors@);
    let ghost si = s as int;
    let n = neighbors.len();
    let side = markers[s];
    let fill = if side == Marker::BoundInner {
        Marker::Inner
    } else {
        Marker::Outer
    };
    let mut stack: Vec<usize> = Vec::new();
    stack.push(s);
    let ghost mut done: Set<int> = Set::empty();
    proof {
        assert(stack@[0] == s);
        assert forall|u: int| 0 <= u < n implies #[trigger] marker_ok(m0, markers@, nbs, si, u) by {
        }
    }
    while stack.len() > 0
        invariant
            n == neighbors.len(),
            markers.len() == n,
            s < n,
            si == s as int,
            m0.len() == n,
            nbs == lists_view(neighbors@),
            lists_in_range(nbs, n as int),
            m0[si] == side,
            is_bound_side(side),
            fill == fill_of(side),
            forall|j: int| 0 <= j < stack.len() ==> (#[trigger] stack@[j]) < n,
            forall|j: int| 0 <= j < stack.len() ==> visited(m0, markers@, si, #[trigger] stack@[j] as int),
            all_ok(m0, markers@, nbs, si, n as int),
            done_ok(m0, markers@, nbs, si, done, n as int),
            forall|u: int|
                0 <= u < n && visited(m0, markers@, si, u) ==> done.contains(u) || stack@.contains(
                    u as usize,
                ),
        decreases 2 * count_unclassified(markers@) + stack.len(),
    {
        let ghost measure = 2 * count_unclassified(markers@) + stack.len();
        let ghost old_stack = stack@;
        let cur = stack.pop().unwrap();
        let ghost ci = cur as int;
        proof {
            assert forall|u: int|
                0 <= u < n && visited(m0, markers@, si, u) implies u == ci || done.contains(u)
                    || stack@.contains(u as usize) by {
                if !done.contains(u) {
                    let j = choose|j: int| 0 <= j < old_stack.len() && old_stack[j] == u as usize;
                    if j < old_stack.len() - 1 {
                        assert(stack@[j] == u as usize);
                    }
                }
            }
            assert forall|j: int| 0 <= j < stack.len() implies visited(
                m0,
                markers@,
                si,
                #[trigger] stack@[j] as int,
            ) by {
                assert(stack@[j] == old_stack[j]);
            }
            assert(old_stack[old_stack.len() - 1] == cur);
        }
        let nb = &neighbors[cur];
        assert(nbs[ci] == nb@);
        let len = nb.len();
        let mut p: usize = 0;
        while p < len
            invariant
                n == neighbors.len(),
                markers.len() == n,
                s < n,
                si == s as int,
                m0.len() == n,
                nbs == lists_view(neighbors@),
                lists_in_range(nbs, n as int),
                m0[si] == side,
                is_bound_side(side),
                fill == fill_of(side),
                cur < n,
                ci == cur as int,
                nb@ == nbs[ci],
                len == nb.len(),
                p <= len,
                visited(m0, markers@, si, ci),
                2 * count_unclassified(markers@) + stack.len() < measure,
                forall|j: int| 0 <= j < stack.len() ==> (#[trigger] stack@[j]) < n,
                forall|j: int|
                    0 <= j < stack.len() ==> visited(m0, markers@, si, #[trigger] stack@[j] as int),
                all_ok(m0, markers@, nbs, si, n as int),
                done_ok(m0, markers@, nbs, si, done, n as int),
                forall|u: int|
                    0 <= u < n && visited(m0, markers@, si, u) ==> u == ci || done.contains(u)
                        || stack@.contains(u as usize),
                forall|q: int|
                    0 <= q < p ==> {
                        &&& markers@[#[trigger] nbs[ci][q] as int] != Marker::Unclassified
                        &&& (m0[nbs[ci][q] as int] == Marker::Bound && ci != si) ==> markers@[nbs[ci][q] as int]
                            == side
                    },
            decreases len - p,
        {
            let w = nb[p];
            let ghost wi = w as int;
            assert(nbs[ci][p as int] == w);
            assert(w < n);
            let mw = markers[w];
            let ghost before = markers@;
            let ghost before_stack = stack@;
            assert(marker_ok(m0, before, nbs, si, wi));
            assert(marker_ok(m0, before, nbs, si, ci));
            assert(marker_ok(m0, before, nbs, si, si));
            assert(nbs[ci].contains(w));
            if mw == Marker::Unclassified {
                proof {
                    assert(m0[wi] == Marker::Unclassified);
                    if ci == si {
                        let path = seq![s, w];
                        assert(is_flood_path(m0, nbs, si, path));
                        assert(floods(m0, nbs, si, wi));
                    } else {
                        assert(floods(m0, nbs, si, ci));
                        let path0 = choose|path: Seq<usize>|
                            #[trigger] is_flood_path(m0, nbs, si, path) && path.last() == ci;
                        let path = path0.push(w);
                        assert(path[path.len() - 2] == cur);
                        assert(is_flood_path(m0, nbs, si, path));
                        assert(floods(m0, nbs, si, wi));
                    }
                    lemma_flood_step(m0, before, nbs, si, done, n as int, wi, fill);
                }
                markers.set(w, fill);
                stack.push(w);
                proof {
                    assert forall|u: int|
                        0 <= u < n && visited(m0, markers@, si, u) implies u == ci || done.contains(
                            u,
                        ) || stack@.contains(u as usize) by {
                        if u == wi {
                            assert(stack@[stack.len() - 1] == w);
                        } else if !(u == ci || done.contains(u)) {
                            assert(visited(m0, before, si, u));
                            let j = choose|j: int|
                                0 <= j < before_stack.len() && before_stack[j] == u as usize;
                            assert(stack@[j] == u as usize);
                        }
                    }
                    assert forall|j: int| 0 <= j < stack.len() implies visited(
                        m0,
                        markers@,
                        si,
                        #[trigger] stack@[j] as int,
                    ) by {
                        if j < stack.len() - 1 {
                            assert(stack@[j] == before_stack[j]);
                            assert(visited(m0, before, si, before_stack[j] as int));
                        }
                    }
                    assert forall|q: int| 0 <= q < p + 1 implies {
                        &&& markers@[#[trigger] nbs[ci][q] as int] != Marker::Unclassified
                        &&& (m0[nbs[ci][q] as int] == Marker::Bound && ci != si)
                            ==> markers@[nbs[ci][q] as int] == side
                    } by {
                        if q < p {
                            assert(before[nbs[ci][q] as int] != Marker::Unclassified);
                        }
                    }
                }
            } else if mw == Marker::Bound {
                let mc = markers[cur];
                if !(mc == Marker::BoundInner || mc == Marker::BoundOuter) {
                    proof {
                        assert(ci != si);
                        assert(m0[wi] == Marker::Bound);
                        assert(floods(m0, nbs, si, ci));
                        assert(flood_borders(m0, nbs, si, wi));
                        lemma_flood_step(m0, before, nbs, si, done, n as int, wi, side);
                    }
                    markers.set(w, side);
                    proof {
                        assert forall|u: int|
                            0 <= u < n && visited(m0, markers@, si, u) implies u == ci
                            || done.contains(u) || stack@.contains(u as usize) by {
                            assert(visited(m0, before, si, u));
                        }
                        assert forall|j: int| 0 <= j < stack.len() implies visited(
                            m0,
                            markers@,
                            si,
                            #[trigger] stack@[j] as int,
                        ) by {
                            assert(visited(m0, before, si, stack@[j] as int));
                        }
                        assert forall|q: int| 0 <= q < p + 1 implies {
                            &&& markers@[#[trigger] nbs[ci][q] as int] != Marker::Unclassified
                            &&& (m0[nbs[ci][q] as int] == Marker::Bound && ci != si)
                                ==> markers@[nbs[ci][q] as int] == side
                        } by {
                            if q < p {
                                assert(before[nbs[ci][q] as int] != Marker::Unclassified);
                            }
                        }
                    }
                } else {
                    proof {
                        assert(ci == si);
                    }
                }
            }
            p = p + 1;
        }
        proof {
            assert(handled(m0, markers@, nbs, si, ci));
            done = done.insert(ci);
            assert forall|u: int| #[trigger] done.contains(u) implies 0 <= u < n && visited(
                m0,
                markers@,
                si,
                u,
            ) && handled(m0, markers@, nbs, si, u) by {
                if u != ci {
                    assert(done.remove(ci).contains(u));
                }
            }
        }
    }
    proof {
        let m = markers@;
        assert forall|u: int| 0 <= u < n && visited(m0, m, si, u) implies handled(
            m0,
            m,
            nbs,
            si,
            u,
        ) by {
            assert(done.contains(u));
        }
        assert forall|u: int| 0 <= u < n implies m[u] == flood(m0, nbs, si)[u] by {
            assert(marker_ok(m0, m, nbs, si, u));
            assert(marker_ok(m0, m, nbs, si, si));
            if m0[u] == Marker::Unclassified && floods(m0, nbs, si, u) {
                let path = choose|path: Seq<usize>|
                    #[trigger] is_flood_path(m0, nbs, si, path) && path.last() == u;
                lemma_path_visited(m0, m, nbs, si, path, path.len() - 1);
            } else if m0[u] == Marker::Bound && flood_borders(m0, nbs, si, u) {
                let v = choose|v: int|
                    0 <= v < nbs.len() && #[trigger] floods(m0, nbs, si, v) && nbs[v].contains(
                        u as usize,
                    );
                let path = choose|path: Seq<usize>|
                    #[trigger] is_flood_path(m0, nbs, si, path) && path.last() == v;
                lemma_path_visited(m0, m, nbs, si, path, path.len() - 1);
                assert(m0[v] == Marker::Unclassified);
                assert(v != si);
                assert(handled(m0, m, nbs, si, v));
                let q = choose|q: int| 0 <= q < nbs[v].len() && nbs[v][q] == u as usize;
                assert(m[nbs[v][q] as int] == m0[si]);
            }
        }
        assert(m =~= flood(m0, nbs, si));
    }
}

proof fn lemma_initial_markers_len(n: nat, ia: Seq<(usize, Marker)>)
    ensures
        initial_markers(n, ia).len() == n,
    decreases ia.len(),
{
    if ia.len() > 0 {
        lemma_initial_markers_len(n, ia.drop_last());
    }
}

proof fn lemma_bound_step_len(
    m: Seq<Marker>,
    nbs: Seq<Seq<usize>>,
    tcs: Seq<Seq<bool>>,
    ia: Seq<(usize, Marker)>,
    k: nat,
)
    requires
        k <= ia.len(),
        forall|j: int| 0 <= j < ia.len() ==> ((#[trigger] ia[j]).0 as int) < m.len(),
    ensures
        bound_step(m, nbs, tcs, ia, k).len() == m.len(),
    decreases k,
{
    if k > 0 {
        lemma_bound_step_len(m, nbs, tcs, ia, (k - 1) as nat);
        assert((ia[k - 1].0 as int) < m.len());
    }
}

/// The markers before any spreading.
fn initial_marking(n: usize, ia: &Vec<(usize, Marker)>) -> (m: Vec<Marker>)
    requires
        forall|k: int| 0 <= k < ia.len() ==> (#[trigger] ia@[k]).0 < n,
    ensures
        m@ == initial_markers(n as nat, ia@),
{
    let mut m: Vec<Marker> = Vec::new();
    let mut i: usize = 0;
    while i < n
        invariant
            i <= n,
            m@ == Seq::new(i as nat, |j: int| Marker::Unclassified),
        decreases n - i,
    {
        m.push(Marker::Unclassified);
        i = i + 1;
        assert(m@ =~= Seq::new(i as nat, |j: int| Marker::Unclassified));
    }
    assert(ia@.take(0) =~= Seq::<(usize, Marker)>::empty());
    assert(m@ =~= initial_markers(n as nat, ia@.take(0)));
    let mut k: usize = 0;
    while k < ia.len()
        invariant
            k <= ia.len(),
            forall|k: int| 0 <= k < ia.len() ==> (#[trigger] ia@[k]).0 < n,
            m@ == initial_markers(n as nat, ia@.take(k as int)),
            m.len() == n,
        decreases ia.len() - k,
    {
        let (idx, mk) = ia[k];
        assert(ia@[k as int].0 < n);
        proof {
            lemma_initial_markers_len(n as nat, ia@.take(k as int));
        }
        m.set(idx, mk);
        assert(ia@.take(k as int + 1).drop_last() =~= ia@.take(k as int));
        k = k + 1;
    }
    assert(ia@.take(ia.len() as int) =~= ia@);
    m
}

/// A neighbour that does not qualify is passed over.
proof fn lemma_first_touching_skip(m: Seq<Marker>, nb: Seq<usize>, tc: Seq<bool>, p: int)
    requires
        0 <= p < nb.len(),
        !(is_bound_side(m[nb[p] as int]) && tc[p]),
    ensures
        first_touching_side(m, nb, tc, p) == first_touching_side(m, nb, tc, p + 1),
{
}

/// Gives each `Bound` entry of the intersection area the side of its first
/// edge-sharing neighbour with a known side.
fn bound_marking(
    markers: &mut Vec<Marker>,
    neighbors: &Vec<Vec<usize>>,
    touching: &Vec<Vec<bool>>,
    ia: &Vec<(usize, Marker)>,
)
    requires
        old(markers).len() == neighbors.len(),
        touching.len() == neighbors.len(),
        forall|i: int| 0 <= i < neighbors.len() ==> (#[trigger] touching@[i]).len() == neighbors@[i].len(),
        lists_in_range(lists_view(neighbors@), neighbors.len() as int),
        forall|k: int| 0 <= k < ia.len() ==> (#[trigger] ia@[k]).0 < neighbors.len(),
    ensures
        final(markers)@ == bound_step(
            old(markers)@,
            lists_view(neighbors@),
            flags_view(touching@),
            ia@,
            ia.len() as nat,
        ),
        final(markers).len() == old(markers).len(),
        forall|i: int|
            0 <= i < old(markers).len() && (forall|j: int|
                0 <= j < ia.len() && (#[trigger] ia@[j]).0 as int == i ==> ia@[j].1 != Marker::Bound)
                ==> #[trigger] final(markers)@[i] == old(markers)@[i],
{
    let ghost m0 = markers@;
    let ghost nbs = lists_view(neighbors@);
    let ghost tcs = flags_view(touching@);
    let n = neighbors.len();
    let mut k: usize = 0;
    while k < ia.len()
        invariant
            k <= ia.len(),
            n == neighbors.len(),
            markers.len() == n,
            touching.len() == n,
            nbs == lists_view(neighbors@),
            tcs == flags_view(touching@),
            forall|i: int| 0 <= i < n ==> (#[trigger] touching@[i]).len() == neighbors@[i].len(),
            lists_in_range(nbs, n as int),
            forall|k: int| 0 <= k < ia.len() ==> (#[trigger] ia@[k]).0 < n,
            markers@ == bound_step(m0, nbs, tcs, ia@, k as nat),
        decreases ia.len() - k,
    {
        let (i, mk) = ia[k];
        assert(ia@[k as int].0 < n);
        if mk == Marker::Bound {
            let nb = &neighbors[i];
            let tc = &touching[i];
            assert(nbs[i as int] == nb@);
            assert(tcs[i as int] == tc@);
            let len = nb.len();
            let mut p: usize = 0;
            let mut found = false;
            while p < len && !found
                invariant
                    n == neighbors.len(),
                    markers.len() == n,
                    i < n,
                    nb@ == nbs[i as int],
                    tc@ == tcs[i as int],
                    len == nb.len(),
                    tc.len() == len,
                    p <= len,
                    lists_in_range(nbs, n as int),
                    nbs.len() == n,
                    !found ==> markers@ == bound_step(m0, nbs, tcs, ia@, k as nat),
                    !found ==> first_touching_side(markers@, nb@, tc@, 0) == first_touching_side(
                        markers@,
                        nb@,
                        tc@,
                        p as int,
                    ),
                    found ==> ({
                        let prev = bound_step(m0, nbs, tcs, ia@, k as nat);
                        match first_touching_side(prev, nb@, tc@, 0) {
                            Some(x) => markers@ == prev.update(i as int, x),
                            None => false,
                        }
                    }),
                decreases len - p + (if found {
                    0int
                } else {
                    1int
                }),
            {
                let w = nb[p];
                assert(nbs[i as int][p as int] == w);
                let mw = markers[w];
                if (mw == Marker::BoundInner || mw == Marker::BoundOuter) && tc[p] {
                    markers.set(i, mw);
                    found = true;
                } else {
                    proof {
                        lemma_first_touching_skip(markers@, nb@, tc@, p as int);
                    }
                    p = p + 1;
                }
            }
        }
        k = k + 1;
    }
    proof {
        assert forall|i: int|
            0 <= i < m0.len() && (forall|j: int|
                0 <= j < ia.len() && (#[trigger] ia@[j]).0 as int == i ==> ia@[j].1
                    != Marker::Bound) implies #[trigger] markers@[i] == m0[i] by {
            lemma_bound_step_keeps(m0, nbs, tcs, ia@, ia.len() as nat, i);
        }
    }
}

/// The indices of the inner and of the outer triangles, when every triangle
/// has a side.
fn sides(markers: &Vec<Marker>) -> (r: Result<(Vec<usize>, Vec<usize>), SeparateError>)
    ensures
        match r {
            Ok((inner, outer)) => {
                &&& forall|i: int| 0 <= i < markers@.len() ==> is_sided(#[trigger] markers@[i])
                &&& inner@ == side_indices(markers@, true, markers@.len())
                &&& outer@ == side_indices(markers@, false, markers@.len())
            },
            Err(e) => e == SeparateError::UnsidedTriangle && !(forall|i: int|
                0 <= i < markers@.len() ==> is_sided(#[trigger] markers@[i])),
        },
{
    let mut inner: Vec<usize> = Vec::new();
    let mut outer: Vec<usize> = Vec::new();
    let mut i: usize = 0;
    while i < markers.len()
        invariant
            i <= markers.len(),
            forall|j: int| 0 <= j < i ==> is_sided(#[trigger] markers@[j]),
            inner@ == side_indices(markers@, true, i as nat),
            outer@ == side_indices(markers@, false, i as nat),
        decreases markers.len() - i,
    {
        let m = markers[i];
        match m {
            Marker::BoundInner | Marker::Inner => {
                inner.push(i);
            },
            Marker::BoundOuter | Marker::Outer => {
                outer.push(i);
            },
            _ => {
                return Err(SeparateError::UnsidedTriangle);
            },
        }
        i = i + 1;
    }
    Ok((inner, outer))
}

/// Sorts the triangles of a cut mesh into the inner and the outer part.
///
/// `neighbors[i]` lists the neighbours of triangle `i`; `touching[i][p]` says
/// whether triangle `i` shares an edge with its neighbour `neighbors[i][p]`;
/// `ia` lists the triangles of the intersection area with their markers.
/// First every `Bound` entry takes the side of its first edge-sharing
/// neighbour with a known side; then, entry by entry, each seed floods the
/// unclassified triangles it reaches with its side; the result lists the
/// inner and the outer triangles in increasing order.
pub fn separate(
    neighbors: &Vec<Vec<usize>>,
    touching: &Vec<Vec<bool>>,
    ia: &Vec<(usize, Marker)>,
) -> (r: Result<(Vec<usize>, Vec<usize>), SeparateError>)
    requires
        touching.len() == neighbors.len(),
        forall|i: int| 0 <= i < neighbors.len() ==> (#[trigger] touching@[i]).len() == neighbors@[i].len(),
        lists_in_range(lists_view(neighbors@), neighbors.len() as int),
        forall|k: int| 0 <= k < ia.len() ==> (#[trigger] ia@[k]).0 < neighbors.len(),
    ensures
        match r {
            Ok((inner, outer)) => spec_separate(lists_view(neighbors@), flags_view(touching@), ia@)
                == Ok::<(Seq<usize>, Seq<usize>), SeparateError>((inner@, outer@)),
            Err(e) => spec_separate(lists_view(neighbors@), flags_view(touching@), ia@) == Err::<
                (Seq<usize>, Seq<usize>),
                SeparateError,
            >(e),
        },
{
    let ghost nbs = lists_view(neighbors@);
    let ghost tcs = flags_view(touching@);
    let n = neighbors.len();
    let mut markers = initial_marking(n, ia);
    proof {
        lemma_initial_markers_len(n as nat, ia@);
    }
    let ghost m_init = markers@;
    bound_marking(&mut markers, neighbors, touching, ia);
    proof {
        lemma_bound_step_len(m_init, nbs, flags_view(touching@), ia@, ia.len() as nat);
    }
    let ghost m1 = markers@;
    assert(nbs.len() == n);
    assert(m1 == bound_step(initial_markers(nbs.len(), ia@), nbs, tcs, ia@, ia.len() as nat));
    let mut k: usize = 0;
    while k < ia.len()
        invariant
            k <= ia.len(),
            n == neighbors.len(),
            markers.len() == n,
            nbs == lists_view(neighbors@),
            lists_in_range(nbs, n as int),
            forall|k: int| 0 <= k < ia.len() ==> (#[trigger] ia@[k]).0 < n,
            flood_all(m1, nbs, ia@, k as nat) == Some(markers@),
            tcs == flags_view(touching@),
            m1 == bound_step(initial_markers(nbs.len(), ia@), nbs, tcs, ia@, ia.len() as nat),
        decreases ia.len() - k,
    {
        let s = ia[k].0;
        assert(ia@[k as int].0 < n);
        let side = markers[s];
        if !(side == Marker::BoundInner || side == Marker::BoundOuter) {
            proof {
                assert(flood_all(m1, nbs, ia@, (k + 1) as nat) is None);
                lemma_flood_all_stays_none(m1, nbs, ia@, (k + 1) as nat, ia.len() as nat);
                assert(tcs == flags_view(touching@));
                assert(spec_separate(nbs, tcs, ia@) == Err::<(Seq<usize>, Seq<usize>), SeparateError>(
                    SeparateError::UnsidedSeed,
                ));
            }
            return Err(SeparateError::UnsidedSeed);
        }
        flood_from(&mut markers, neighbors, s);
        k = k + 1;
    }
    sides(&markers)
}

proof fn lemma_side_indices(m: Seq<Marker>, inner: bool, k: nat)
    requires
        k <= m.len(),
        k <= usize::MAX + 1,
    ensures
        forall|p: int|
            0 <= p < side_indices(m, inner, k).len() ==> (#[trigger] side_indices(m, inner, k)[p])
                < k,
        forall|p: int, q: int|
            0 <= p < q < side_indices(m, inner, k).len() ==> (#[trigger] side_indices(
                m,
                inner,
                k,
            )[p]) < #[trigger] side_indices(m, inner, k)[q],
        forall|i: int|
            0 <= i < k ==> (#[trigger] side_indices(m, inner, k).contains(i as usize) <==> (
            is_sided(m[i]) && is_inner_side(m[i]) == inner)),
    decreases k,
{
    if k > 0 {
        let prev = side_indices(m, inner, (k - 1) as nat);
        lemma_side_indices(m, inner, (k - 1) as nat);
        let cur = side_indices(m, inner, k);
        assert forall|i: int| 0 <= i < k implies (#[trigger] cur.contains(i as usize) <==> (is_sided(
            m[i],
        ) && is_inner_side(m[i]) == inner)) by {
            if cur.contains(i as usize) {
                let p = choose|p: int| 0 <= p < cur.len() && cur[p] == i as usize;
                if i < k - 1 && p < prev.len() {
                    assert(prev[p] == cur[p]);
                }
            }
            if i < k - 1 && prev.contains(i as usize) {
                let p = choose|p: int| 0 <= p < prev.len() && prev[p] == i as usize;
                assert(cur[p] == prev[p]);
            }
            if i == k - 1 && is_sided(m[i]) && is_inner_side(m[i]) == inner {
                assert(cur[cur.len() - 1] == i as usize);
            }
        }
    }
}

proof fn lemma_side_counts(m: Seq<Marker>, k: nat)
    requires
        k <= m.len(),
        forall|i: int| 0 <= i < m.len() ==> is_sided(#[trigger] m[i]),
    ensures
        side_indices(m, true, k).len() + side_indices(m, false, k).len() == k,
    decreases k,
{
    if k > 0 {
        lemma_side_counts(m, (k - 1) as nat);
        assert(is_sided(m[k - 1]));
    }
}

/// A separation splits the triangles of the mesh: every triangle is in
/// exactly one of the two parts, each part lists its triangles once and in
/// increasing order, and the two parts together have as many entries as the
/// mesh has triangles.
pub proof fn lemma_separation_partitions(
    nbs: Seq<Seq<usize>>,
    tcs: Seq<Seq<bool>>,
    ia: Seq<(usize, Marker)>,
    inner: Seq<usize>,
    outer: Seq<usize>,
)
    requires
        nbs.len() <= usize::MAX,
        forall|k: int| 0 <= k < ia.len() ==> ((#[trigger] ia[k]).0 as int) < nbs.len(),
        lists_in_range(nbs, nbs.len() as int),
        spec_separate(nbs, tcs, ia) == Ok::<(Seq<usize>, Seq<usize>), SeparateError>((inner, outer)),
    ensures
        inner.len() + outer.len() == nbs.len(),
        forall|i: int|
            0 <= i < nbs.len() ==> (#[trigger] inner.contains(i as usize) <==> !outer.contains(
                i as usize,
            )),
        forall|p: int| 0 <= p < inner.len() ==> (#[trigger] inner[p] as int) < nbs.len(),
        forall|p: int| 0 <= p < outer.len() ==> (#[trigger] outer[p] as int) < nbs.len(),
        forall|p: int, q: int| 0 <= p < q < inner.len() ==> #[trigger] inner[p] < #[trigger] inner[q],
        forall|p: int, q: int| 0 <= p < q < outer.len() ==> #[trigger] outer[p] < #[trigger] outer[q],
{
    let m0 = initial_markers(nbs.len(), ia);
    lemma_initial_markers_len(nbs.len(), ia);
    let m1 = bound_step(m0, nbs, tcs, ia, ia.len());
    lemma_bound_step_len(m0, nbs, tcs, ia, ia.len());
    let m2 = flood_all(m1, nbs, ia, ia.len())->0;
    lemma_flood_all_len(m1, nbs, ia, ia.len());
    assert(m2.len() == nbs.len());
    lemma_side_indices(m2, true, m2.len());
    lemma_side_indices(m2, false, m2.len());
    lemma_side_counts(m2, m2.len());
}

proof fn lemma_flood_all_len(m: Seq<Marker>, nbs: Seq<Seq<usize>>, ia: Seq<(usize, Marker)>, k: nat)
    ensures
        flood_all(m, nbs, ia, k) matches Some(r) ==> r.len() == m.len(),
    decreases k,
{
    if k > 0 {
        lemma_flood_all_len(m, nbs, ia, (k - 1) as nat);
    }
}

/// The last entry of the intersection area for a triangle sets its initial
/// marker.
proof fn lemma_initial_marker_of_entry(n: nat, ia: Seq<(usize, Marker)>, k: int)
    requires
        0 <= k < ia.len(),
        forall|j: int| 0 <= j < ia.len() ==> ((#[trigger] ia[j]).0 as int) < n,
        forall|j: int| k < j < ia.len() ==> (#[trigger] ia[j]).0 != ia[k].0,
    ensures
        initial_markers(n, ia)[ia[k].0 as int] == ia[k].1,
    decreases ia.len(),
{
    let d = ia.drop_last();
    lemma_initial_markers_len(n, d);
    assert(ia.last() == ia[ia.len() - 1]);
    if k < ia.len() - 1 {
        assert forall|j: int| 0 <= j < d.len() implies ((#[trigger] d[j]).0 as int) < n by {
            assert(d[j] == ia[j]);
        }
        assert forall|j: int| k < j < d.len() implies (#[trigger] d[j]).0 != d[k].0 by {
            assert(d[j] == ia[j]);
        }
        assert(d[k] == ia[k]);
        lemma_initial_marker_of_entry(n, d, k);
    }
}

/// The bound step leaves the marker of a triangle alone when no entry of the
/// intersection area marks it `Bound`.
proof fn lemma_bound_step_keeps(
    m: Seq<Marker>,
    nbs: Seq<Seq<usize>>,
    tcs: Seq<Seq<bool>>,
    ia: Seq<(usize, Marker)>,
    k: nat,
    i: int,
)
    requires
        k <= ia.len(),
        0 <= i < m.len(),
        forall|j: int| 0 <= j < ia.len() ==> ((#[trigger] ia[j]).0 as int) < m.len(),
        forall|j: int|
            0 <= j < ia.len() && (#[trigger] ia[j]).0 as int == i ==> ia[j].1 != Marker::Bound,
    ensures
        bound_step(m, nbs, tcs, ia, k)[i] == m[i],
    decreases k,
{
    if k > 0 {
        lemma_bound_step_keeps(m, nbs, tcs, ia, (k - 1) as nat, i);
        lemma_bound_step_len(m, nbs, tcs, ia, (k - 1) as nat);
        let e = ia[k - 1];
        assert((e.0 as int) < m.len());
    }
}

/// Flooding never changes a marker that is a known side on the curve.
proof fn lemma_flood_all_keeps_sides(
    m: Seq<Marker>,
    nbs: Seq<Seq<usize>>,
    ia: Seq<(usize, Marker)>,
    k: nat,
    u: int,
)
    requires
        0 <= u < m.len(),
        is_bound_side(m[u]),
    ensures
        flood_all(m, nbs, ia, k) matches Some(r) ==> r[u] == m[u],
    decreases k,
{
    if k > 0 {
        lemma_flood_all_keeps_sides(m, nbs, ia, (k - 1) as nat, u);
        lemma_flood_all_len(m, nbs, ia, (k - 1) as nat);
    }
}

/// A triangle of the intersection area whose side is known keeps that side:
/// when the last entry for triangle `ia[k].0` gives it `BoundInner` (or
/// `BoundOuter`) and no entry marks it `Bound`, a successful separation puts
/// it into the inner (or the outer) part and not into the other one.
pub proof fn lemma_known_side_kept(
    nbs: Seq<Seq<usize>>,
    tcs: Seq<Seq<bool>>,
    ia: Seq<(usize, Marker)>,
    inner: Seq<usize>,
    outer: Seq<usize>,
    k: int,
)
    requires
        nbs.len() <= usize::MAX,
        forall|j: int| 0 <= j < ia.len() ==> ((#[trigger] ia[j]).0 as int) < nbs.len(),
        lists_in_range(nbs, nbs.len() as int),
        0 <= k < ia.len(),
        is_bound_side(ia[k].1),
        forall|j: int| k < j < ia.len() ==> (#[trigger] ia[j]).0 != ia[k].0,
        forall|j: int|
            0 <= j < ia.len() && (#[trigger] ia[j]).0 == ia[k].0 ==> ia[j].1 != Marker::Bound,
        spec_separate(nbs, tcs, ia) == Ok::<(Seq<usize>, Seq<usize>), SeparateError>((inner, outer)),
    ensures
        ia[k].1 == Marker::BoundInner ==> inner.contains(ia[k].0) && !outer.contains(ia[k].0),
        ia[k].1 == Marker::BoundOuter ==> outer.contains(ia[k].0) && !inner.contains(ia[k].0),
{
    let i = ia[k].0 as int;
    let m0 = initial_markers(nbs.len(), ia);
    lemma_initial_markers_len(nbs.len(), ia);
    lemma_initial_marker_of_entry(nbs.len(), ia, k);
    let m1 = bound_step(m0, nbs, tcs, ia, ia.len());
    lemma_bound_step_len(m0, nbs, tcs, ia, ia.len());
    lemma_bound_step_keeps(m0, nbs, tcs, ia, ia.len(), i);
    let m2 = flood_all(m1, nbs, ia, ia.len())->0;
    lemma_flood_all_len(m1, nbs, ia, ia.len());
    lemma_flood_all_keeps_sides(m1, nbs, ia, ia.len(), i);
    assert(m2[i] == ia[k].1);
    lemma_side_indices(m2, true, m2.len());
    lemma_side_indices(m2, false, m2.len());
    assert(inner == side_indices(m2, true, m2.len()));
    assert(outer == side_indices(m2, false, m2.len()));
    assert(inner.contains(i as usize) <==> is_inner_side(m2[i]));
    assert(outer.contains(i as usize) <==> !is_inner_side(m2[i]));
}

/// A triangle that no entry of the intersection area names starts out
/// unclassified.
proof fn lemma_initial_marker_unlisted(n: nat, ia: Seq<(usize, Marker)>, u: int)
    requires
        0 <= u < n,
        forall|j: int| 0 <= j < ia.len() ==> (#[trigger] ia[j]).0 as int != u,
    ensures
        initial_markers(n, ia)[u] == Marker::Unclassified,
    decreases ia.len(),
{
    if ia.len() > 0 {
        let d = ia.drop_last();
        lemma_initial_markers_len(n, d);
        assert forall|j: int| 0 <= j < d.len() implies (#[trigger] d[j]).0 as int != u by {
            assert(d[j] == ia[j]);
        }
        lemma_initial_marker_unlisted(n, d, u);
        assert(ia.last() == ia[ia.len() - 1]);
    }
}

/// A flood path to `u` goes on to an unclassified neighbour `w` of `u`.
proof fn lemma_floods_extend(m: Seq<Marker>, nbs: Seq<Seq<usize>>, s: int, u: int, w: int)
    requires
        floods(m, nbs, s, u),
        nbs[u].contains(w as usize),
        0 <= w < nbs.len(),
        nbs.len() <= usize::MAX,
        m[w] == Marker::Unclassified,
    ensures
        floods(m, nbs, s, w),
{
    let path = choose|path: Seq<usize>| #[trigger] is_flood_path(m, nbs, s, path) && path.last() == u;
    let p2 = path.push(w as usize);
    assert forall|j: int| 0 <= j < p2.len() implies (#[trigger] p2[j] as int) < nbs.len() by {
        if j < path.len() {
            assert(p2[j] == path[j]);
        }
    }
    assert forall|j: int| 1 <= j < p2.len() implies nbs[p2[j - 1] as int].contains(
        #[trigger] p2[j],
    ) by {
        if j < path.len() {
            assert(p2[j] == path[j]);
            assert(p2[j - 1] == path[j - 1]);
        } else {
            assert(p2[j - 1] == path[path.len() - 1]);
        }
    }
    assert forall|j: int| 1 <= j < p2.len() implies m[#[trigger] p2[j] as int]
        == Marker::Unclassified by {
        if j < path.len() {
            assert(p2[j] == path[j]);
        } else {
            assert(p2[j] == w as usize);
        }
    }
    assert(is_flood_path(m, nbs, s, p2));
    assert(p2.last() == w as usize);
}

/// Triangles `u` and `w` carry the same marker, and it is not one of the
/// curve's markers.
spec fn same_open_side(m: Seq<Marker>, u: int, w: int) -> bool {
    &&& m[u] == m[w]
    &&& m[u] == Marker::Unclassified || m[u] == Marker::Inner || m[u] == Marker::Outer
}

/// Flooding keeps two triangles that list each other as neighbours on the
/// same side while neither is on the curve.
proof fn lemma_flood_all_same_side(
    m: Seq<Marker>,
    nbs: Seq<Seq<usize>>,
    ia: Seq<(usize, Marker)>,
    k: nat,
    u: int,
    w: int,
)
    requires
        m.len() == nbs.len(),
        nbs.len() <= usize::MAX,
        0 <= u < m.len(),
        0 <= w < m.len(),
        nbs[u].contains(w as usize),
        nbs[w].contains(u as usize),
        same_open_side(m, u, w),
    ensures
        flood_all(m, nbs, ia, k) matches Some(r) ==> same_open_side(r, u, w),
    decreases k,
{
    if k > 0 {
        lemma_flood_all_same_side(m, nbs, ia, (k - 1) as nat, u, w);
        lemma_flood_all_len(m, nbs, ia, (k - 1) as nat);
        if let Some(prev) = flood_all(m, nbs, ia, (k - 1) as nat) {
            let s = ia[k - 1].0 as int;
            if is_bound_side(prev[s]) && prev[u] == Marker::Unclassified {
                if floods(prev, nbs, s, u) {
                    lemma_floods_extend(prev, nbs, s, u, w);
                }
                if floods(prev, nbs, s, w) {
                    lemma_floods_extend(prev, nbs, s, w, u);
                }
            }
        }
    }
}

/// Neighbouring triangles away from the intersection area end up on the same
/// side: when triangles `u` and `w` list each other as neighbours and no entry
/// of the intersection area names either, a successful separation puts both
/// into the inner part or both into the outer part.
pub proof fn lemma_neighbors_same_side(
    nbs: Seq<Seq<usize>>,
    tcs: Seq<Seq<bool>>,
    ia: Seq<(usize, Marker)>,
    inner: Seq<usize>,
    outer: Seq<usize>,
    u: int,
    w: int,
)
    requires
        nbs.len() <= usize::MAX,
        forall|j: int| 0 <= j < ia.len() ==> ((#[trigger] ia[j]).0 as int) < nbs.len(),
        0 <= u < nbs.len(),
        0 <= w < nbs.len(),
        nbs[u].contains(w as usize),
        nbs[w].contains(u as usize),
        forall|j: int| 0 <= j < ia.len() ==> (#[trigger] ia[j]).0 as int != u && ia[j].0 as int != w,
        spec_separate(nbs, tcs, ia) == Ok::<(Seq<usize>, Seq<usize>), SeparateError>((inner, outer)),
    ensures
        inner.contains(u as usize) <==> inner.contains(w as usize),
        outer.contains(u as usize) <==> outer.contains(w as usize),
{
    let m0 = initial_markers(nbs.len(), ia);
    lemma_initial_markers_len(nbs.len(), ia);
    lemma_initial_marker_unlisted(nbs.len(), ia, u);
    lemma_initial_marker_unlisted(nbs.len(), ia, w);
    let m1 = bound_step(m0, nbs, tcs, ia, ia.len());
    lemma_bound_step_len(m0, nbs, tcs, ia, ia.len());
    lemma_bound_step_keeps(m0, nbs, tcs, ia, ia.len(), u);
    lemma_bound_step_keeps(m0, nbs, tcs, ia, ia.len(), w);
    let m2 = flood_all(m1, nbs, ia, ia.len())->0;
    lemma_flood_all_len(m1, nbs, ia, ia.len());
    lemma_flood_all_same_side(m1, nbs, ia, ia.len(), u, w);
    assert(m2[u] == m2[w]);
    lemma_side_indices(m2, true, m2.len());
    lemma_side_indices(m2, false, m2.len());
    assert(inner == side_indices(m2, true, m2.len()));
    assert(outer == side_indices(m2, false, m2.len()));
    assert(inner.contains(u as usize) <==> (is_sided(m2[u]) && is_inner_side(m2[u])));
    assert(inner.contains(w as usize) <==> (is_sided(m2[w]) && is_inner_side(m2[w])));
    assert(outer.contains(u as usize) <==> (is_sided(m2[u]) && !is_inner_side(m2[u])));
    assert(outer.contains(w as usize) <==> (is_sided(m2[w]) && !is_inner_side(m2[w])));
}

/// When some neighbour from position `p0` on has a known side on the curve
/// and shares an edge with the triangle, a first such side is found, and
/// whatever is found is a known side.
proof fn lemma_first_touching_found(m: Seq<Marker>, nb: Seq<usize>, tc: Seq<bool>, p0: int, p: int)
    requires
        0 <= p0 <= p < nb.len(),
        tc[p],
        is_bound_side(m[nb[p] as int]),
    ensures
        first_touching_side(m, nb, tc, p0) matches Some(x) && is_bound_side(x),
    decreases p - p0,
{
    if p0 < p && !(is_bound_side(m[nb[p0] as int]) && tc[p0]) {
        lemma_first_touching_found(m, nb, tc, p0 + 1, p);
    }
}

/// Once a triangle has a known side on the curve, the later steps of the
/// bound step keep it on a known side.
proof fn lemma_bound_step_stays_sided(
    m: Seq<Marker>,
    nbs: Seq<Seq<usize>>,
    tcs: Seq<Seq<bool>>,
    ia: Seq<(usize, Marker)>,
    k1: nat,
    k2: nat,
    i: int,
)
    requires
        k1 <= k2 <= ia.len(),
        0 <= i < m.len(),
        forall|j: int| 0 <= j < ia.len() ==> ((#[trigger] ia[j]).0 as int) < m.len(),
        is_bound_side(bound_step(m, nbs, tcs, ia, k1)[i]),
    ensures
        is_bound_side(bound_step(m, nbs, tcs, ia, k2)[i]),
    decreases k2 - k1,
{
    if k1 < k2 {
        lemma_bound_step_stays_sided(m, nbs, tcs, ia, k1, (k2 - 1) as nat, i);
        lemma_bound_step_len(m, nbs, tcs, ia, (k2 - 1) as nat);
        let prev = bound_step(m, nbs, tcs, ia, (k2 - 1) as nat);
        let e = ia[k2 - 1];
        assert((e.0 as int) < m.len());
        if e.1 == Marker::Bound && e.0 as int == i {
            lemma_first_touching_is_side(prev, nbs[e.0 as int], tcs[e.0 as int], 0);
        }
    }
}

/// What `first_touching_side` finds is a known side on the curve.
proof fn lemma_first_touching_is_side(m: Seq<Marker>, nb: Seq<usize>, tc: Seq<bool>, p: int)
    ensures
        first_touching_side(m, nb, tc, p) matches Some(x) ==> is_bound_side(x),
    decreases nb.len() - p,
{
    if 0 <= p < nb.len() && !(is_bound_side(m[nb[p] as int]) && tc[p]) {
        lemma_first_touching_is_side(m, nb, tc, p + 1);
    }
}

/// Triangle `i` has a known side on the curve that nothing overrides: its
/// last entry in the intersection area is `BoundInner` or `BoundOuter`, and no
/// entry marks it `Bound`.
pub open spec fn settled(ia: Seq<(usize, Marker)>, i: int) -> bool {
    &&& exists|k: int|
        0 <= k < ia.len() && (#[trigger] ia[k]).0 as int == i && is_bound_side(ia[k].1) && (forall|
            j: int,
        | k < j < ia.len() ==> (#[trigger] ia[j]).0 as int != i)
    &&& forall|j: int| 0 <= j < ia.len() && (#[trigger] ia[j]).0 as int == i ==> ia[j].1 != Marker::Bound
}

/// With every seed on a known side at the start of the flooding, every seed
/// is still on a known side at its turn.
proof fn lemma_flood_all_some(m: Seq<Marker>, nbs: Seq<Seq<usize>>, ia: Seq<(usize, Marker)>, k: nat)
    requires
        k <= ia.len(),
        forall|j: int| 0 <= j < ia.len() ==> ((#[trigger] ia[j]).0 as int) < m.len(),
        forall|j: int| 0 <= j < ia.len() ==> is_bound_side(m[(#[trigger] ia[j]).0 as int]),
    ensures
        flood_all(m, nbs, ia, k) is Some,
    decreases k,
{
    if k > 0 {
        lemma_flood_all_some(m, nbs, ia, (k - 1) as nat);
        let s = ia[k - 1].0 as int;
        lemma_flood_all_keeps_sides(m, nbs, ia, (k - 1) as nat, s);
    }
}

/// No seed lacks a side when each entry of the intersection area names a
/// settled triangle, or marks its triangle `Bound` and that triangle shares an
/// edge with a settled neighbour: the separation then does not fail for want
/// of a seed's side.
pub proof fn lemma_seeds_get_sides(nbs: Seq<Seq<usize>>, tcs: Seq<Seq<bool>>, ia: Seq<(usize, Marker)>)
    requires
        forall|j: int| 0 <= j < ia.len() ==> ((#[trigger] ia[j]).0 as int) < nbs.len(),
        lists_in_range(nbs, nbs.len() as int),
        forall|k: int|
            0 <= k < ia.len() ==> settled(ia, (#[trigger] ia[k]).0 as int) || (ia[k].1
                == Marker::Bound && exists|p: int|
                0 <= p < nbs[ia[k].0 as int].len() && #[trigger] tcs[ia[k].0 as int][p] && settled(
                    ia,
                    nbs[ia[k].0 as int][p] as int,
                )),
    ensures
        spec_separate(nbs, tcs, ia) != Err::<(Seq<usize>, Seq<usize>), SeparateError>(
            SeparateError::UnsidedSeed,
        ),
{
    let n = nbs.len();
    let m0 = initial_markers(n, ia);
    lemma_initial_markers_len(n, ia);
    let m1 = bound_step(m0, nbs, tcs, ia, ia.len());
    lemma_bound_step_len(m0, nbs, tcs, ia, ia.len());
    assert forall|k: int| 0 <= k < ia.len() implies is_bound_side(m1[(#[trigger] ia[k]).0 as int]) by {
        let i = ia[k].0 as int;
        if settled(ia, i) {
            let k0 = choose|k0: int|
                0 <= k0 < ia.len() && (#[trigger] ia[k0]).0 as int == i && is_bound_side(ia[k0].1)
                    && (forall|j: int| k0 < j < ia.len() ==> (#[trigger] ia[j]).0 as int != i);
            lemma_initial_marker_of_entry(n, ia, k0);
            lemma_bound_step_keeps(m0, nbs, tcs, ia, ia.len(), i);
        } else {
            let p = choose|p: int|
                0 <= p < nbs[i].len() && #[trigger] tcs[i][p] && settled(ia, nbs[i][p] as int);
            let q = nbs[i][p] as int;
            assert(q < n);
            let k1 = choose|k1: int|
                0 <= k1 < ia.len() && (#[trigger] ia[k1]).0 as int == q && is_bound_side(ia[k1].1)
                    && (forall|j: int| k1 < j < ia.len() ==> (#[trigger] ia[j]).0 as int != q);
            lemma_initial_marker_of_entry(n, ia, k1);
            lemma_bound_step_keeps(m0, nbs, tcs, ia, k as nat, q);
            lemma_bound_step_len(m0, nbs, tcs, ia, k as nat);
            let prev = bound_step(m0, nbs, tcs, ia, k as nat);
            lemma_first_touching_found(prev, nbs[i], tcs[i], 0, p);
            assert(is_bound_side(bound_step(m0, nbs, tcs, ia, (k + 1) as nat)[i]));
            lemma_bound_step_stays_sided(m0, nbs, tcs, ia, (k + 1) as nat, ia.len(), i);
        }
    }
    lemma_flood_all_some(m1, nbs, ia, ia.len());
}

/// The last vertex number (1 to 3) whose flag is set and whose flag in
/// `skip` is not, or 0 when there is none.
pub open spec fn last_flagged(flags: [bool; 3], skip: [bool; 3]) -> usize {
    if flags@[2] && !skip@[2] {
        3
    } else if flags@[1] && !skip@[1] {
        2
    } else if flags@[0] && !skip@[0] {
        1
    } else {
        0
    }
}

/// Finds the side of a cut triangle that lies on a segment of the
/// intersection curve: `at_start[k]` and `at_end[k]` say whether vertex `k + 1`
/// equals the segment's start and end point. A vertex that equals the start is
/// not tried against the end, and a later vertex wins. When both ends are
/// found, the result is the vertex numbers (1 to 3) of the start, of the end
/// and of the third vertex.
pub fn curve_edge(at_start: [bool; 3], at_end: [bool; 3]) -> (r: Option<(usize, usize, usize)>)
    ensures
        ({
            let i1 = last_flagged(at_start, [false, false, false]);
            let i2 = last_flagged(at_end, at_start);
            if i1 != 0 && i2 != 0 {
                r == Some((i1, i2, (6 - i1 - i2) as usize))
            } else {
                r is None
            }
        }),
        r matches Some((i1, i2, j)) ==> {
            &&& 1 <= i1 <= 3
            &&& 1 <= i2 <= 3
            &&& 1 <= j <= 3
            &&& i1 != i2
            &&& i1 != j
            &&& i2 != j
            &&& at_start[i1 - 1]
            &&& at_end[i2 - 1] && !at_start[i2 - 1]
            &&& forall|v: int| i1 <= v < 3 ==> !at_start@[v]
            &&& forall|v: int| i2 <= v < 3 ==> !(at_end@[v] && !at_start@[v])
        },
        r is None <==> (forall|v: int| 0 <= v < 3 ==> !at_start@[v]) || (forall|v: int|
            0 <= v < 3 ==> (at_end@[v] ==> at_start@[v])),
        forall|a: int, b: int|
            #![trigger at_start@[a], at_end@[b]]
            0 <= a < 3 && 0 <= b < 3 && a != b && (forall|v: int|
                0 <= v < 3 ==> (at_start@[v] <==> v == a)) && (forall|v: int|
                0 <= v < 3 ==> (at_end@[v] <==> v == b)) ==> r == Some(
                ((a + 1) as usize, (b + 1) as usize, (6 - (a + 1) - (b + 1)) as usize),
            ),
{
    let mut i1: usize = 0;
    let mut i2: usize = 0;
    let mut i: usize = 1;
    while i < 4
        invariant
            1 <= i <= 4,
            i1 == last_flagged(
                [at_start[0] && 1 < i, at_start[1] && 2 < i, at_start[2] && 3 < i],
                [false, false, false],
            ),
            i2 == last_flagged(
                [at_end[0] && 1 < i, at_end[1] && 2 < i, at_end[2] && 3 < i],
                at_start,
            ),
        decreases 4 - i,
    {
        if at_start[i - 1] {
            i1 = i;
        } else if at_end[i - 1] {
            i2 = i;
        }
        i = i + 1;
    }
    assert([at_start[0] && 1 < 4, at_start[1] && 2 < 4, at_start[2] && 3 < 4]@ =~= at_start@);
    assert([at_end[0] && 1 < 4, at_end[1] && 2 < 4, at_end[2] && 3 < 4]@ =~= at_end@);
    if i1 != 0 && i2 != 0 {
        Some((i1, i2, 6 - i1 - i2))
    } else {
        None
    }
}

/// When exactly one vertex `a` equals the start of the curve segment and
/// exactly one other vertex `b` equals its end, the edge found runs from
/// vertex `a + 1` to vertex `b + 1`.
pub proof fn lemma_curve_edge_found(at_start: [bool; 3], at_end: [bool; 3], a: int, b: int)
    requires
        0 <= a < 3,
        0 <= b < 3,
        a != b,
        forall|v: int| 0 <= v < 3 ==> (at_start@[v] <==> v == a),
        forall|v: int| 0 <= v < 3 ==> (at_end@[v] <==> v == b),
    ensures
        last_flagged(at_start, [false, false, false]) == a + 1,
        last_flagged(at_end, at_start) == b + 1,
{
    assert(at_start@[0] == (a == 0));
    assert(at_start@[1] == (a == 1));
    assert(at_start@[2] == (a == 2));
    assert(at_end@[0] == (b == 0));
    assert(at_end@[1] == (b == 1));
    assert(at_end@[2] == (b == 2));
}

} // verus!
