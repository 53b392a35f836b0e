//! Thinning out the vertices of a line.
use vstd::prelude::*;
use crate::grid::Point;
use crate::number::{eq, equal, is_nan, less, lt};

verus! {

/// The farthest of the vertices behind `a` and its distance, given their distances in order:
/// the first that is farther than all before it and than nothing at all.
pub open spec fn farthest(ds: Seq<u64>, a: int) -> (int, u64)
    decreases ds.len(),
{
    if ds.len() == 0 {
        (0, 0)
    } else {
        let (i, far) = farthest(ds.drop_last(), a);
        if less(far, ds.last()) {
            (a + ds.len(), ds.last())
        } else {
            (i, far)
        }
    }
}

/// Whether these are distances, as `perp` gives them, of the vertices between `a` and `b`
/// from the segment between those two.
pub open spec fn answers<F: Fn(Point, Point, Point) -> u64>(
    perp: F,
    pts: Seq<Point>,
    a: int,
    b: int,
    ds: Seq<u64>,
) -> bool {
    &&& ds.len() == b - a - 1
    &&& forall|k: int|
        0 <= k < ds.len() ==> call_ensures(
            perp,
            (pts[a + 1 + k], pts[a], pts[b]),
            #[trigger] ds[k],
        )
}

/// Whether `s` are the vertices that are kept between `a` and `b`: none where no vertex lies
/// farther than the tolerance from the segment between those two; else the farthest, and what
/// is kept on either side of it.
pub open spec fn kept_between<F: Fn(Point, Point, Point) -> u64>(
    perp: F,
    pts: Seq<Point>,
    tol: u64,
    a: int,
    b: int,
    s: Set<int>,
) -> bool
    decreases b - a, 1int,
{
    if b <= a + 1 {
        s == Set::<int>::empty()
    } else {
        exists|ds: Seq<u64>| #[trigger]
            answers(perp, pts, a, b, ds) && if less(tol, farthest(ds, a).1) {
                kept_around(perp, pts, tol, a, farthest(ds, a).0, b, s)
            } else {
                s == Set::<int>::empty()
            }
    }
}

/// Whether `s` are a vertex between `a` and `b` and what is kept on either side of it.
pub open spec fn kept_around<F: Fn(Point, Point, Point) -> u64>(
    perp: F,
    pts: Seq<Point>,
    tol: u64,
    a: int,
    i: int,
    b: int,
    s: Set<int>,
) -> bool
    decreases b - a, 0int,
{
    a < i < b && exists|s1: Set<int>, s2: Set<int>| #[trigger]
        made_of(s, s1, i, s2) && kept_between(perp, pts, tol, a, i, s1) && kept_between(
            perp,
            pts,
            tol,
            i,
            b,
            s2,
        )
}

/// Whether `s` is a vertex together with those of two sets.
pub open spec fn made_of(s: Set<int>, s1: Set<int>, i: int, s2: Set<int>) -> bool {
    s == s1.union(s2).insert(i)
}

/// Whether a tolerance asks for nothing to be left out.
pub open spec fn no_tolerance(tol: u64) -> bool {
    less(tol, 0) || equal(tol, 0)
}

/// Whether a place is listed.
pub open spec fn lists(r: Seq<usize>, i: int) -> bool {
    exists|k: int| 0 <= k < r.len() && #[trigger] r[k] == i
}

/// Whether places stand in ascending order, each once.
pub open spec fn rising(r: Seq<usize>) -> bool {
    forall|i: int, j: int| 0 <= i < j < r.len() ==> #[trigger] r[i] < #[trigger] r[j]
}

/// Whether the listed places are the ends of a line and the vertices kept between them.
pub open spec fn thinned<F: Fn(Point, Point, Point) -> u64>(
    perp: F,
    pts: Seq<Point>,
    tol: u64,
    r: Seq<usize>,
) -> bool {
    exists|s: Set<int>| #[trigger]
        kept_between(perp, pts, tol, 0, pts.len() - 1, s) && forall|i: int|
            #![trigger lists(r, i)]
            #![trigger s.contains(i)]
            lists(r, i) <==> i == 0 || i == pts.len() - 1 || s.contains(i)
}

/// Whether the listed places are those of the vertices that stay of a line: all of them where
/// it has no inner vertex or there is no tolerance, and else those that thinning it out leaves.
pub open spec fn simplified<F: Fn(Point, Point, Point) -> u64>(
    perp: F,
    pts: Seq<Point>,
    tol: u64,
    r: Seq<usize>,
) -> bool {
    &&& rising(r)
    &&& if pts.len() < 3 || no_tolerance(tol) {
        forall|i: int| #[trigger] lists(r, i) <==> 0 <= i < pts.len()
    } else {
        thinned(perp, pts, tol, r)
    }
}

proof fn lemma_farthest(ds: Seq<u64>, a: int)
    ensures
        farthest(ds, a) == (0int, 0u64) || a < farthest(ds, a).0 <= a + ds.len(),
    decreases ds.len(),
{
    if ds.len() > 0 {
        lemma_farthest(ds.drop_last(), a);
    }
}

/// The places that are kept between the ends.
spec fn kept_inside(keep: Seq<bool>) -> Set<int> {
    Set::new(|i: int| 0 < i < keep.len() - 1 && keep[i])
}

spec fn unions(ss: Seq<Set<int>>) -> Set<int> {
    Set::new(|i: int| exists|k: int| 0 <= k < ss.len() && #[trigger] ss[k].contains(i))
}

spec fn fits_stack<F: Fn(Point, Point, Point) -> u64>(
    perp: F,
    pts: Seq<Point>,
    tol: u64,
    st: Seq<(usize, usize)>,
    ss: Seq<Set<int>>,
) -> bool {
    &&& ss.len() == st.len()
    &&& forall|k: int|
        0 <= k < st.len() ==> kept_between(perp, pts, tol, st[k].0 as int, st[k].1 as int, #[trigger] ss[k])
}

/// Whatever is kept in the open ranges completes what is kept already.
spec fn completes<F: Fn(Point, Point, Point) -> u64>(
    perp: F,
    pts: Seq<Point>,
    tol: u64,
    st: Seq<(usize, usize)>,
    keep: Seq<bool>,
) -> bool {
    forall|ss: Seq<Set<int>>| #[trigger]
        fits_stack(perp, pts, tol, st, ss) ==> kept_between(
            perp,
            pts,
            tol,
            0,
            keep.len() - 1,
            kept_inside(keep).union(unions(ss)),
        )
}

spec fn open_work(st: Seq<(usize, usize)>) -> int
    decreases st.len(),
{
    if st.len() == 0 {
        0
    } else {
        open_work(st.drop_last()) + 2 * (st.last().1 - st.last().0) - 1
    }
}

proof fn lemma_open_work(st: Seq<(usize, usize)>)
    requires
        forall|k: int| 0 <= k < st.len() ==> (#[trigger] st[k]).0 < st[k].1,
    ensures
        open_work(st) >= st.len(),
    decreases st.len(),
{
    if st.len() > 0 {
        lemma_open_work(st.drop_last());
        assert(st[st.len() - 1].0 < st[st.len() - 1].1);
    }
}

proof fn lemma_closed<F: Fn(Point, Point, Point) -> u64>(
    perp: F,
    pts: Seq<Point>,
    tol: u64,
    st: Seq<(usize, usize)>,
    keep: Seq<bool>,
)
    requires
        st.len() > 0,
        completes(perp, pts, tol, st, keep),
        kept_between(perp, pts, tol, st.last().0 as int, st.last().1 as int, Set::<int>::empty()),
    ensures
        completes(perp, pts, tol, st.drop_last(), keep),
{
    let rest = st.drop_last();
    assert forall|ss: Seq<Set<int>>| #[trigger] fits_stack(perp, pts, tol, rest, ss) implies kept_between(
        perp,
        pts,
        tol,
        0,
        keep.len() - 1,
        kept_inside(keep).union(unions(ss)),
    ) by {
        let tt = ss.push(Set::<int>::empty());
        assert forall|k: int| 0 <= k < st.len() implies kept_between(
            perp,
            pts,
            tol,
            st[k].0 as int,
            st[k].1 as int,
            #[trigger] tt[k],
        ) by {
            if k < rest.len() {
                assert(kept_between(perp, pts, tol, rest[k].0 as int, rest[k].1 as int, ss[k]));
            }
        }
        assert(fits_stack(perp, pts, tol, st, tt));
        assert forall|i: int| unions(tt).contains(i) <==> unions(ss).contains(i) by {
            if unions(tt).contains(i) {
                let k = choose|k: int| 0 <= k < tt.len() && #[trigger] tt[k].contains(i);
                assert(ss[k].contains(i));
            }
            if unions(ss).contains(i) {
                let k = choose|k: int| 0 <= k < ss.len() && #[trigger] ss[k].contains(i);
                assert(tt[k].contains(i));
            }
        }
        assert(unions(tt) =~= unions(ss));
    }
}

proof fn lemma_kept<F: Fn(Point, Point, Point) -> u64>(
    perp: F,
    pts: Seq<Point>,
    tol: u64,
    a: int,
    b: int,
    ds: Seq<u64>,
    s1: Set<int>,
    s2: Set<int>,
)
    requires
        answers(perp, pts, a, b, ds),
        less(tol, farthest(ds, a).1),
        a < farthest(ds, a).0 < b,
        kept_between(perp, pts, tol, a, farthest(ds, a).0, s1),
        kept_between(perp, pts, tol, farthest(ds, a).0, b, s2),
    ensures
        kept_between(perp, pts, tol, a, b, s1.union(s2).insert(farthest(ds, a).0)),
{
    let i = farthest(ds, a).0;
    let s = s1.union(s2).insert(i);
    assert(made_of(s, s1, i, s2));
    assert(kept_around(perp, pts, tol, a, i, b, s));
}

proof fn lemma_split<F: Fn(Point, Point, Point) -> u64>(
    perp: F,
    pts: Seq<Point>,
    tol: u64,
    st: Seq<(usize, usize)>,
    keep: Seq<bool>,
    i: usize,
    ds: Seq<u64>,
)
    requires
        st.len() > 0,
        completes(perp, pts, tol, st, keep),
        st.last().0 < i < st.last().1 < keep.len(),
        answers(perp, pts, st.last().0 as int, st.last().1 as int, ds),
        farthest(ds, st.last().0 as int).0 == i,
        less(tol, farthest(ds, st.last().0 as int).1),
    ensures
        completes(
            perp,
            pts,
            tol,
            st.drop_last().push((st.last().0, i)).push((i, st.last().1)),
            keep.update(i as int, true),
        ),
{
    let rest = st.drop_last();
    let (a, b) = st.last();
    let next = rest.push((a, i)).push((i, b));
    let after = keep.update(i as int, true);
    assert forall|ss: Seq<Set<int>>| #[trigger] fits_stack(perp, pts, tol, next, ss) implies kept_between(
        perp,
        pts,
        tol,
        0,
        after.len() - 1,
        kept_inside(after).union(unions(ss)),
    ) by {
        let n = rest.len() as int;
        let (s1, s2) = (ss[n], ss[n + 1]);
        assert(next[n] == (a, i) && next[n + 1] == (i, b));
        let s = s1.union(s2).insert(i as int);
        assert(kept_between(perp, pts, tol, a as int, i as int, s1));
        assert(kept_between(perp, pts, tol, i as int, b as int, s2));
        lemma_kept(perp, pts, tol, a as int, b as int, ds, s1, s2);
        let tt = ss.take(n).push(s);
        assert forall|k: int| 0 <= k < st.len() implies kept_between(
            perp,
            pts,
            tol,
            st[k].0 as int,
            st[k].1 as int,
            #[trigger] tt[k],
        ) by {
            if k < n {
                assert(next[k] == st[k]);
                assert(kept_between(perp, pts, tol, next[k].0 as int, next[k].1 as int, ss[k]));
            }
        }
        assert(fits_stack(perp, pts, tol, st, tt));
        let x = kept_inside(keep).union(unions(tt));
        let y = kept_inside(after).union(unions(ss));
        assert forall|j: int| x.contains(j) <==> y.contains(j) by {
            if unions(tt).contains(j) {
                let k = choose|k: int| 0 <= k < tt.len() && #[trigger] tt[k].contains(j);
                if k < n {
                    assert(ss[k].contains(j));
                } else if j == i {
                    assert(kept_inside(after).contains(j));
                } else if s1.contains(j) {
                    assert(ss[n].contains(j));
                } else {
                    assert(ss[n + 1].contains(j));
                }
            }
            if unions(ss).contains(j) {
                let k = choose|k: int| 0 <= k < ss.len() && #[trigger] ss[k].contains(j);
                if k < n {
                    assert(tt[k].contains(j));
                } else {
                    assert(tt[n].contains(j));
                }
            }
            if kept_inside(after).contains(j) && !kept_inside(keep).contains(j) {
                assert(tt[n].contains(i as int));
            }
        }
        assert(x =~= y);
    }
}

fn kept_places(keep: &Vec<bool>) -> (r: Vec<usize>)
    ensures
        rising(r@),
        forall|i: int| #[trigger] lists(r@, i) <==> 0 <= i < keep.len() && keep@[i],
{
    let mut out: Vec<usize> = Vec::new();
    let mut i: usize = 0;
    while i < keep.len()
        invariant
            i <= keep.len(),
            rising(out@),
            forall|k: int| 0 <= k < out.len() ==> #[trigger] out@[k] < i,
            forall|j: int| #[trigger] lists(out@, j) <==> 0 <= j < i && keep@[j],
        decreases keep.len() - i,
    {
        if keep[i] {
            let ghost before = out@;
            out.push(i);
            assert forall|j: int| #[trigger] lists(out@, j) <==> 0 <= j < i + 1 && keep@[j] by {
                if lists(out@, j) {
                    let k = choose|k: int| 0 <= k < out@.len() && #[trigger] out@[k] == j;
                    if k < before.len() {
                        assert(before[k] == j);
                        assert(lists(before, j));
                    }
                }
                if lists(before, j) {
                    let k = choose|k: int| 0 <= k < before.len() && #[trigger] before[k] == j;
                    assert(out@[k] == j);
                }
                assert(out@[before.len() as int] == i);
            }
        }
        i += 1;
    }
    out
}

/// Picks the vertices of a line that stay when it may leave its course by no more than a
/// tolerance; `perp` gives the distance of a point from the segment between two others.
pub fn simplify<F: Fn(Point, Point, Point) -> u64>(p: &Vec<Point>, tol: u64, perp: &F) -> (r: Vec<
    usize,
>)
    requires
        forall|x: Point, y: Point, z: Point| #[trigger] call_requires(*perp, (x, y, z)),
    ensures
        simplified(*perp, p@, tol, r@),
{
    let n = p.len();
    let mut keep: Vec<bool> = Vec::new();
    let all = n < 3 || lt(tol, 0) || eq(tol, 0);
    let mut k: usize = 0;
    while k < n
        invariant
            k <= n,
            keep.len() == k,
            forall|i: int| 0 <= i < k ==> #[trigger] keep@[i] == (all || i == 0 || i == n - 1),
        decreases n - k,
    {
        keep.push(all || k == 0 || k == n - 1);
        k += 1;
    }
    if all {
        return kept_places(&keep);
    }
    let last = n - 1;
    let mut st: Vec<(usize, usize)> = Vec::new();
    st.push((0, last));
    proof {
        assert forall|ss: Seq<Set<int>>| #[trigger] fits_stack(*perp, p@, tol, st@, ss) implies kept_between(
            *perp,
            p@,
            tol,
            0,
            keep@.len() - 1,
            kept_inside(keep@).union(unions(ss)),
        ) by {
            assert(kept_between(*perp, p@, tol, st@[0].0 as int, st@[0].1 as int, ss[0]));
            assert forall|i: int| unions(ss).contains(i) <==> ss[0].contains(i) by {
                if unions(ss).contains(i) {
                    let k = choose|k: int| 0 <= k < ss.len() && #[trigger] ss[k].contains(i);
                    assert(k == 0);
                }
            }
            assert(kept_inside(keep@).union(unions(ss)) =~= ss[0]);
        }
    }
    loop
        invariant
            n >= 3,
            last == n - 1,
            keep.len() == n,
            !no_tolerance(tol),
            keep@[0],
            keep@[last as int],
            n == p.len(),
            forall|x: Point, y: Point, z: Point| #[trigger] call_requires(*perp, (x, y, z)),
            forall|k: int| 0 <= k < st.len() ==> (#[trigger] st@[k]).0 < st@[k].1 <= last,
            completes(*perp, p@, tol, st@, keep@),
        ensures
            st.len() == 0,
            keep.len() == n,
            keep@[0],
            keep@[last as int],
            completes(*perp, p@, tol, st@, keep@),
        decreases open_work(st@),
    {
        let ghost before = st@;
        proof {
            lemma_open_work(st@);
        }
        let (a, b) = match st.pop() {
            Some(p) => p,
            None => {
                break;
            },
        };
        assert(before.last() == (a, b));
        assert(before[before.len() - 1].0 < before[before.len() - 1].1);
        assert(st@ =~= before.drop_last());
        proof {
            lemma_open_work(st@);
            assert(open_work(before) == open_work(st@) + 2 * (b - a) - 1);
        }
        if b - a <= 1 {
            proof {
                lemma_closed(*perp, p@, tol, before, keep@);
            }
            continue ;
        }
        let mut idx: usize = 0;
        let mut far: u64 = 0;
        let mut i = a + 1;
        let ghost mut ds: Seq<u64> = Seq::empty();
        while i < b
            invariant
                a < i <= b <= last,
                last == n - 1,
                n >= 3,
                ds.len() == i - a - 1,
                n == p.len(),
                forall|x: Point, y: Point, z: Point| #[trigger] call_requires(*perp, (x, y, z)),
                forall|k: int|
                    0 <= k < ds.len() ==> call_ensures(
                        *perp,
                        (p@[a + 1 + k], p@[a as int], p@[b as int]),
                        #[trigger] ds[k],
                    ),
                (idx as int, far) == farthest(ds, a as int),
            decreases b - i,
        {
            let d = (*perp)(p[i], p[a], p[b]);
            proof {
                let was = ds;
                ds = ds.push(d);
                assert(ds.drop_last() =~= was);
                assert forall|k: int| 0 <= k < ds.len() implies call_ensures(
                    *perp,
                    (p@[a + 1 + k], p@[a as int], p@[b as int]),
                    #[trigger] ds[k],
                ) by {
                    if k < was.len() {
                        assert(ds[k] == was[k]);
                    }
                }
            }
            if lt(far, d) {
                far = d;
                idx = i;
            }
            i += 1;
        }
        proof {
            lemma_farthest(ds, a as int);
            assert(answers(*perp, p@, a as int, b as int, ds));
        }
        if lt(tol, far) {
            proof {
                lemma_split(*perp, p@, tol, before, keep@, idx, ds);
            }
            keep.set(idx, true);
            st.push((a, idx));
            st.push((idx, b));
            proof {
                let two = before.drop_last().push((a, idx));
                assert(st@ =~= two.push((idx, b)));
                assert(st@.drop_last() =~= two);
                assert(two.drop_last() =~= before.drop_last());
                assert(open_work(two) == open_work(before.drop_last()) + 2 * (idx - a) - 1);
                assert(open_work(st@) == open_work(two) + 2 * (b - idx) - 1);
            }
        } else {
            proof {
                lemma_closed(*perp, p@, tol, before, keep@);
            }
        }
    }
    let r = kept_places(&keep);
    proof {
        let ss = Seq::<Set<int>>::empty();
        assert(fits_stack(*perp, p@, tol, st@, ss));
        let s = kept_inside(keep@);
        assert(kept_inside(keep@).union(unions(ss)) =~= s);
        assert(kept_between(*perp, p@, tol, 0, n - 1, s));
    }
    r
}

proof fn lemma_kept_range<F: Fn(Point, Point, Point) -> u64>(
    perp: F,
    pts: Seq<Point>,
    tol: u64,
    a: int,
    b: int,
    s: Set<int>,
)
    requires
        kept_between(perp, pts, tol, a, b, s),
    ensures
        forall|i: int| #[trigger] s.contains(i) ==> a < i < b,
    decreases b - a,
{
    if b > a + 1 {
        let ds = choose|ds: Seq<u64>| #[trigger]
            answers(perp, pts, a, b, ds) && if less(tol, farthest(ds, a).1) {
                kept_around(perp, pts, tol, a, farthest(ds, a).0, b, s)
            } else {
                s == Set::<int>::empty()
            };
        if less(tol, farthest(ds, a).1) {
            let i = farthest(ds, a).0;
            let (s1, s2) = choose|s1: Set<int>, s2: Set<int>| #[trigger]
                made_of(s, s1, i, s2) && kept_between(perp, pts, tol, a, i, s1) && kept_between(
                    perp,
                    pts,
                    tol,
                    i,
                    b,
                    s2,
                );
            lemma_kept_range(perp, pts, tol, a, i, s1);
            lemma_kept_range(perp, pts, tol, i, b, s2);
        }
    }
}

/// The places that stay are places of the line.
pub proof fn lemma_simplified_places<F: Fn(Point, Point, Point) -> u64>(
    perp: F,
    pts: Seq<Point>,
    tol: u64,
    r: Seq<usize>,
)
    requires
        simplified(perp, pts, tol, r),
    ensures
        forall|k: int| 0 <= k < r.len() ==> #[trigger] r[k] < pts.len(),
{
    assert forall|k: int| 0 <= k < r.len() implies #[trigger] r[k] < pts.len() by {
        assert(lists(r, r[k] as int));
        if pts.len() >= 3 && !no_tolerance(tol) {
            let s = choose|s: Set<int>| #[trigger]
                kept_between(perp, pts, tol, 0, pts.len() - 1, s) && forall|i: int|
                    #![trigger lists(r, i)]
                    #![trigger s.contains(i)]
                    lists(r, i) <==> i == 0 || i == pts.len() - 1 || s.contains(i);
            lemma_kept_range(perp, pts, tol, 0, pts.len() - 1, s);
        }
    }
}

proof fn lemma_none_farther(ds: Seq<u64>, a: int, k: int)
    requires
        0 <= k < ds.len(),
    ensures
        !less(farthest(ds, a).1, ds[k]),
        !is_nan(farthest(ds, a).1),
    decreases ds.len(),
{
    let d = ds.drop_last();
    if k < d.len() {
        lemma_none_farther(d, a, k);
    } else if d.len() > 0 {
        lemma_none_farther(d, a, 0);
    } else {
        assert(farthest(d, a) == (0int, 0u64));
    }
}

/// Where a line was thinned out, every vertex that was left out lies no farther than the
/// tolerance from the segment between the two kept vertices around it.
pub proof fn law_dropped_within_tolerance<F: Fn(Point, Point, Point) -> u64>(
    perp: F,
    pts: Seq<Point>,
    tol: u64,
    a: int,
    b: int,
    s: Set<int>,
    p: int,
    q: int,
)
    requires
        kept_between(perp, pts, tol, a, b, s),
        a <= p < q <= b,
        p == a || s.contains(p),
        q == b || s.contains(q),
        forall|i: int| p < i < q ==> !s.contains(i),
        q > p + 1,
    ensures
        exists|ds: Seq<u64>| #[trigger]
            answers(perp, pts, p, q, ds) && forall|k: int| 0 <= k < ds.len() ==> !less(tol, #[trigger] ds[k]),
    decreases b - a,
{
    if b > a + 1 {
        let ds = choose|ds: Seq<u64>| #[trigger]
            answers(perp, pts, a, b, ds) && if less(tol, farthest(ds, a).1) {
                kept_around(perp, pts, tol, a, farthest(ds, a).0, b, s)
            } else {
                s == Set::<int>::empty()
            };
        if less(tol, farthest(ds, a).1) {
            let i = farthest(ds, a).0;
            let (s1, s2) = choose|s1: Set<int>, s2: Set<int>| #[trigger]
                made_of(s, s1, i, s2) && kept_between(perp, pts, tol, a, i, s1) && kept_between(
                    perp,
                    pts,
                    tol,
                    i,
                    b,
                    s2,
                );
            lemma_kept_range(perp, pts, tol, a, i, s1);
            lemma_kept_range(perp, pts, tol, i, b, s2);
            assert(s.contains(i));
            assert forall|j: int| p < j < q implies !s1.contains(j) && !s2.contains(j) by {
                assert(!s.contains(j));
            }
            if q <= i {
                law_dropped_within_tolerance(perp, pts, tol, a, i, s1, p, q);
            } else {
                assert(p >= i);
                law_dropped_within_tolerance(perp, pts, tol, i, b, s2, p, q);
            }
        } else {
            assert forall|k: int| 0 <= k < ds.len() implies !less(tol, #[trigger] ds[k]) by {
                lemma_none_farther(ds, a, k);
            }
        }
    }
}

/// A thinned line begins and ends where the line does.
pub proof fn law_thinned_keeps_ends<F: Fn(Point, Point, Point) -> u64>(
    perp: F,
    pts: Seq<Point>,
    tol: u64,
    r: Seq<usize>,
)
    requires
        pts.len() >= 3,
        rising(r),
        thinned(perp, pts, tol, r),
    ensures
        r.len() >= 2,
        r[0] == 0,
        r[r.len() - 1] == pts.len() - 1,
{
    let s = choose|s: Set<int>| #[trigger]
        kept_between(perp, pts, tol, 0, pts.len() - 1, s) && forall|i: int|
            #![trigger lists(r, i)]
            #![trigger s.contains(i)]
            lists(r, i) <==> i == 0 || i == pts.len() - 1 || s.contains(i);
    lemma_kept_range(perp, pts, tol, 0, pts.len() - 1, s);
    assert(lists(r, 0));
    assert(lists(r, pts.len() - 1));
    let j = choose|j: int| 0 <= j < r.len() && #[trigger] r[j] == 0;
    let k = choose|k: int| 0 <= k < r.len() && #[trigger] r[k] == pts.len() - 1;
    if j > 0 {
        assert(r[0] < r[j]);
    }
    if k < r.len() - 1 {
        let z = r[r.len() - 1] as int;
        assert(r[k] < r[r.len() - 1]);
        assert(lists(r, z));
        assert(s.contains(z));
    }
}

proof fn lemma_none_between(r: Seq<usize>, k: int, i: int)
    requires
        rising(r),
        0 <= k < r.len() - 1,
        r[k] < i < r[k + 1],
    ensures
        !lists(r, i),
{
    if lists(r, i) {
        let x = choose|x: int| 0 <= x < r.len() && #[trigger] r[x] == i;
        if x < k {
            assert(r[x] < r[k]);
        } else if x > k + 1 {
            assert(r[k + 1] < r[x]);
        }
    }
}

/// What is left of a line begins and ends where the line does.
pub proof fn law_simplified_keeps_ends<F: Fn(Point, Point, Point) -> u64>(
    perp: F,
    pts: Seq<Point>,
    tol: u64,
    r: Seq<usize>,
)
    requires
        pts.len() >= 1,
        simplified(perp, pts, tol, r),
    ensures
        r.len() >= 1,
        r[0] == 0,
        r[r.len() - 1] == pts.len() - 1,
{
    let n = pts.len() as int;
    if n < 3 || no_tolerance(tol) {
        assert(lists(r, 0) && lists(r, n - 1));
        let a = choose|k: int| 0 <= k < r.len() && #[trigger] r[k] == 0;
        let b = choose|k: int| 0 <= k < r.len() && #[trigger] r[k] == n - 1;
        if a > 0 {
            assert(r[0] < r[a]);
        }
        if b < r.len() - 1 {
            assert(r[b] < r[r.len() - 1]);
            assert(lists(r, r[r.len() - 1] as int));
        }
    } else {
        law_thinned_keeps_ends(perp, pts, tol, r);
    }
}

/// Every vertex that is left out of a line lies no farther than the tolerance from the segment
/// that takes its place.
pub proof fn law_simplified_stays_near<F: Fn(Point, Point, Point) -> u64>(
    perp: F,
    pts: Seq<Point>,
    tol: u64,
    r: Seq<usize>,
    k: int,
    j: int,
)
    requires
        simplified(perp, pts, tol, r),
        0 <= k < r.len() - 1,
        r[k] < j < r[k + 1],
    ensures
        exists|d: u64| #[trigger]
            call_ensures(perp, (pts[j], pts[r[k] as int], pts[r[k + 1] as int]), d) && !less(tol, d),
{
    let n = pts.len() as int;
    let (p, q) = (r[k] as int, r[k + 1] as int);
    lemma_none_between(r, k, j);
    assert(lists(r, p) && lists(r, q));
    if n < 3 || no_tolerance(tol) {
        assert(lists(r, j));
    } else {
        let s = choose|s: Set<int>| #[trigger]
            kept_between(perp, pts, tol, 0, n - 1, s) && forall|i: int|
                #![trigger lists(r, i)]
                #![trigger s.contains(i)]
                lists(r, i) <==> i == 0 || i == n - 1 || s.contains(i);
        lemma_kept_range(perp, pts, tol, 0, n - 1, s);
        assert forall|i: int| p < i < q implies !s.contains(i) by {
            lemma_none_between(r, k, i);
        }
        law_dropped_within_tolerance(perp, pts, tol, 0, n - 1, s, p, q);
        let ds = choose|ds: Seq<u64>| #[trigger]
            answers(perp, pts, p, q, ds) && forall|k: int|
                0 <= k < ds.len() ==> !less(tol, #[trigger] ds[k]);
        let d = ds[j - p - 1];
        assert(call_ensures(perp, (pts[p + 1 + (j - p - 1)], pts[p], pts[q]), d));
    }
}

proof fn lemma_farthest_is_one(ds: Seq<u64>, a: int)
    ensures
        farthest(ds, a) == (0int, 0u64) || ds[farthest(ds, a).0 - a - 1] == farthest(ds, a).1,
    decreases ds.len(),
{
    if ds.len() > 0 {
        lemma_farthest_is_one(ds.drop_last(), a);
        lemma_farthest(ds.drop_last(), a);
    }
}

/// No vertex is kept for nothing: one that is kept between the ends lies farther than the
/// tolerance from the segment between two vertices around it.
pub proof fn law_kept_lies_far<F: Fn(Point, Point, Point) -> u64>(
    perp: F,
    pts: Seq<Point>,
    tol: u64,
    a: int,
    b: int,
    s: Set<int>,
    i: int,
)
    requires
        0 <= a,
        kept_between(perp, pts, tol, a, b, s),
        s.contains(i),
    ensures
        exists|p: int, q: int, d: u64|
            a <= p < i < q <= b && #[trigger] call_ensures(perp, (pts[i], pts[p], pts[q]), d)
                && less(tol, d),
    decreases b - a,
{
    if b > a + 1 {
        let ds = choose|ds: Seq<u64>| #[trigger]
            answers(perp, pts, a, b, ds) && if less(tol, farthest(ds, a).1) {
                kept_around(perp, pts, tol, a, farthest(ds, a).0, b, s)
            } else {
                s == Set::<int>::empty()
            };
        let m = farthest(ds, a).0;
        lemma_farthest_is_one(ds, a);
        lemma_farthest(ds, a);
        let (s1, s2) = choose|s1: Set<int>, s2: Set<int>| #[trigger]
            made_of(s, s1, m, s2) && kept_between(perp, pts, tol, a, m, s1) && kept_between(
                perp,
                pts,
                tol,
                m,
                b,
                s2,
            );
        if i == m {
            let d = ds[m - a - 1];
            assert(call_ensures(perp, (pts[a + 1 + (m - a - 1)], pts[a], pts[b]), d));
        } else if s1.contains(i) {
            law_kept_lies_far(perp, pts, tol, a, m, s1, i);
        } else {
            law_kept_lies_far(perp, pts, tol, m, b, s2, i);
        }
    }
}

/// Where there is no tolerance, every vertex is kept.
pub proof fn law_no_tolerance_keeps_all<F: Fn(Point, Point, Point) -> u64>(
    perp: F,
    pts: Seq<Point>,
    tol: u64,
    r: Seq<usize>,
    i: int,
)
    requires
        simplified(perp, pts, tol, r),
        less(tol, 0) || equal(tol, 0),
        0 <= i < pts.len(),
    ensures
        exists|k: int| 0 <= k < r.len() && #[trigger] r[k] == i,
{
    assert(lists(r, i));
}

proof fn lemma_farthest_far(ds: Seq<u64>, a: int)
    ensures
        ({
            let (i, far) = farthest(ds, a);
            &&& !is_nan(far)
            &&& !less(far, 0)
            &&& forall|k: int| 0 <= k < ds.len() ==> !less(far, #[trigger] ds[k])
            &&& less(0, far) ==> a < i <= a + ds.len() && ds[i - a - 1] == far && forall|k: int|
                0 <= k < i - a - 1 ==> less(#[trigger] ds[k], far) || is_nan(ds[k])
        }),
    decreases ds.len(),
{
    if ds.len() > 0 {
        let d = ds.drop_last();
        let n = ds.len() - 1;
        lemma_farthest_far(d, a);
        let (i, far) = farthest(ds, a);
        assert(ds[n] == ds.last());
        assert forall|k: int| 0 <= k < ds.len() implies !less(far, #[trigger] ds[k]) by {
            if k < n {
                assert(d[k] == ds[k]);
            }
        }
        if less(0, far) {
            assert forall|k: int| 0 <= k < i - a - 1 implies less(#[trigger] ds[k], far) || is_nan(
                ds[k],
            ) by {
                assert(d[k] == ds[k]);
                assert(!less(farthest(d, a).1, d[k]));
            }
            if !less(farthest(d, a).1, ds.last()) {
                assert(d[i - a - 1] == ds[i - a - 1]);
            }
        }
    }
}

/// Whether the vertex behind `a` and `m` others is kept, and none lies farther than it.
pub open spec fn kept_as_farthest(s: Set<int>, ds: Seq<u64>, a: int, m: int) -> bool {
    0 <= m < ds.len() && s.contains(a + 1 + m) && forall|k: int|
        0 <= k < ds.len() ==> !less(ds[m], #[trigger] ds[k])
}

/// Between two vertices that stay, nothing is kept where no vertex lies farther than the tolerance
/// from the segment between them; where one does, the farthest of them is kept.
pub proof fn law_farthest_is_kept<F: Fn(Point, Point, Point) -> u64>(
    perp: F,
    pts: Seq<Point>,
    tol: u64,
    a: int,
    b: int,
    s: Set<int>,
)
    requires
        kept_between(perp, pts, tol, a, b, s),
        a + 1 < b,
        less(0, tol),
    ensures
        exists|ds: Seq<u64>| #[trigger]
            answers(perp, pts, a, b, ds) && ((forall|k: int|
                0 <= k < ds.len() ==> !less(tol, #[trigger] ds[k])) ==> s == Set::<int>::empty()) && ((
            exists|k: int| 0 <= k < ds.len() && less(tol, #[trigger] ds[k])) ==> exists|m: int|
                #[trigger] kept_as_farthest(s, ds, a, m)),
{
    let ds = choose|ds: Seq<u64>| #[trigger]
        answers(perp, pts, a, b, ds) && if less(tol, farthest(ds, a).1) {
            kept_around(perp, pts, tol, a, farthest(ds, a).0, b, s)
        } else {
            s == Set::<int>::empty()
        };
    lemma_farthest_far(ds, a);
    let (i, far) = farthest(ds, a);
    if less(tol, far) {
        let m = i - a - 1;
        assert(less(tol, ds[m]));
        let (s1, s2) = choose|s1: Set<int>, s2: Set<int>| #[trigger]
            made_of(s, s1, i, s2) && kept_between(perp, pts, tol, a, i, s1) && kept_between(
                perp,
                pts,
                tol,
                i,
                b,
                s2,
            );
        assert(s.contains(i));
        assert(kept_as_farthest(s, ds, a, m));
    } else {
        assert forall|k: int| 0 <= k < ds.len() implies !less(tol, #[trigger] ds[k]) by {
            assert(!less(far, ds[k]));
        }
    }
}

} // verus!
