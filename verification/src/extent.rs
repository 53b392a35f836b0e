//! The extent of points.
use vstd::prelude::*;
use crate::geom::{contents, Geom, GeomView, Vertex};
use crate::grid::Point;
use crate::number::{is_nan, less, lt, rank};
use crate::paint::points;

verus! {

/// The largest number.
pub const LARGEST: u64 = 0x7fef_ffff_ffff_ffff;

/// The smallest number.
pub const SMALLEST: u64 = 0xffef_ffff_ffff_ffff;

/// The lower of a number and another; what is no number does not count.
pub open spec fn lower(a: u64, b: u64) -> u64 {
    if less(b, a) {
        b
    } else {
        a
    }
}

/// The higher of a number and another; what is no number does not count.
pub open spec fn higher(a: u64, b: u64) -> u64 {
    if less(a, b) {
        b
    } else {
        a
    }
}

/// The lowest of a number and others.
pub open spec fn lowest(a: u64, vs: Seq<u64>) -> u64
    decreases vs.len(),
{
    if vs.len() == 0 {
        a
    } else {
        lower(lowest(a, vs.drop_last()), vs.last())
    }
}

/// The highest of a number and others.
pub open spec fn highest(a: u64, vs: Seq<u64>) -> u64
    decreases vs.len(),
{
    if vs.len() == 0 {
        a
    } else {
        higher(highest(a, vs.drop_last()), vs.last())
    }
}

/// The eastings of points.
pub open spec fn eastings(ps: Seq<Point>) -> Seq<u64> {
    ps.map_values(|p: Point| p.0)
}

/// The northings of points.
pub open spec fn northings(ps: Seq<Point>) -> Seq<u64> {
    ps.map_values(|p: Point| p.1)
}

/// The points of lines, one line after the other.
pub open spec fn lines_points(ls: Seq<Seq<Vertex>>) -> Seq<Point>
    decreases ls.len(),
{
    if ls.len() == 0 {
        Seq::empty()
    } else {
        lines_points(ls.drop_last()) + points(ls.last())
    }
}

/// The points of a geometry.
pub open spec fn geom_points(g: GeomView) -> Seq<Point> {
    match g {
        GeomView::Line(l) => points(l),
        GeomView::Multi(ls) => lines_points(ls),
        GeomView::Poly(l) => points(l),
    }
}

/// The lowest and the highest easting and northing of points.
#[derive(Clone, Copy)]
pub struct Extent {
    pub lo: Point,
    pub hi: Point,
}

impl Extent {
    /// The extent of nothing: no finite number lies above its low side or below its high side.
    pub open spec fn nothing() -> Extent {
        Extent { lo: (LARGEST, LARGEST), hi: (SMALLEST, SMALLEST) }
    }

    /// The extent of what it is the extent of and of more points.
    pub open spec fn with(self, ps: Seq<Point>) -> Extent {
        Extent {
            lo: (lowest(self.lo.0, eastings(ps)), lowest(self.lo.1, northings(ps))),
            hi: (highest(self.hi.0, eastings(ps)), highest(self.hi.1, northings(ps))),
        }
    }

    /// The extent of nothing.
    pub fn new() -> (r: Extent)
        ensures
            r == Extent::nothing(),
    {
        Extent { lo: (LARGEST, LARGEST), hi: (SMALLEST, SMALLEST) }
    }

    /// Takes in a point.
    pub fn see(&mut self, p: Point)
        ensures
            *final(self) == old(self).with(seq![p]),
    {
        proof {
            let one = seq![p];
            assert(eastings(one) =~= seq![p.0]);
            assert(northings(one) =~= seq![p.1]);
            lemma_one(self.lo.0, p.0);
            lemma_one(self.lo.1, p.1);
            lemma_one(self.hi.0, p.0);
            lemma_one(self.hi.1, p.1);
        }
        let (lo, hi) = (self.lo, self.hi);
        self.lo = (
            if lt(p.0, lo.0) {
                p.0
            } else {
                lo.0
            },
            if lt(p.1, lo.1) {
                p.1
            } else {
                lo.1
            },
        );
        self.hi = (
            if lt(hi.0, p.0) {
                p.0
            } else {
                hi.0
            },
            if lt(hi.1, p.1) {
                p.1
            } else {
                hi.1
            },
        );
    }

    /// Takes in points.
    pub fn see_all(&mut self, ps: &Vec<Point>)
        ensures
            *final(self) == old(self).with(ps@),
    {
        let ghost was = *self;
        let mut i: usize = 0;
        assert(ps@.take(0) =~= Seq::empty());
        proof {
            lemma_none(was);
        }
        while i < ps.len()
            invariant
                i <= ps.len(),
                *self == was.with(ps@.take(i as int)),
            decreases ps.len() - i,
        {
            proof {
                law_extent_in_parts(was, ps@.take(i as int), seq![ps@[i as int]]);
            }
            self.see(ps[i]);
            i += 1;
            assert(ps@.take(i as int) =~= ps@.take(i - 1) + seq![ps@[i - 1]]);
        }
        assert(ps@.take(i as int) =~= ps@);
    }

    fn see_line(&mut self, l: &Vec<Vertex>)
        ensures
            *final(self) == old(self).with(points(l@)),
    {
        let ghost was = *self;
        let ghost ps = points(l@);
        let mut i: usize = 0;
        assert(ps.take(0) =~= Seq::empty());
        proof {
            lemma_none(was);
        }
        while i < l.len()
            invariant
                i <= l.len(),
                ps == points(l@),
                *self == was.with(ps.take(i as int)),
            decreases l.len() - i,
        {
            proof {
                law_extent_in_parts(was, ps.take(i as int), seq![ps[i as int]]);
            }
            self.see((l[i].x, l[i].y));
            i += 1;
            assert(ps.take(i as int) =~= ps.take(i - 1) + seq![ps[i - 1]]);
        }
        assert(ps.take(i as int) =~= ps);
    }

    /// Takes in a geometry.
    pub fn see_geom(&mut self, g: &Geom)
        ensures
            *final(self) == old(self).with(geom_points(g.deep_view())),
    {
        match g {
            Geom::Line(l) => self.see_line(l),
            Geom::Poly(l) => self.see_line(l),
            Geom::Multi(ls) => {
                let ghost was = *self;
                let ghost c = contents(ls@);
                let mut i: usize = 0;
                assert(c.take(0) =~= Seq::empty());
                proof {
                    lemma_none(was);
                }
                while i < ls.len()
                    invariant
                        i <= ls.len(),
                        c == contents(ls@),
                        *self == was.with(lines_points(c.take(i as int))),
                    decreases ls.len() - i,
                {
                    proof {
                        assert(c[i as int] == ls@[i as int]@);
                        assert(c.take(i + 1).drop_last() =~= c.take(i as int));
                        law_extent_in_parts(
                            was,
                            lines_points(c.take(i as int)),
                            points(c[i as int]),
                        );
                    }
                    self.see_line(&ls[i]);
                    i += 1;
                }
                assert(c.take(i as int) =~= c);
            },
        }
    }
}

proof fn lemma_none(e: Extent)
    ensures
        e.with(Seq::empty()) == e,
{
    assert(eastings(Seq::empty()) =~= Seq::empty());
    assert(northings(Seq::empty()) =~= Seq::empty());
}

proof fn lemma_one(a: u64, v: u64)
    ensures
        lowest(a, seq![v]) == lower(a, v),
        highest(a, seq![v]) == higher(a, v),
{
    let one = seq![v];
    assert(one.drop_last() =~= Seq::empty());
    assert(lowest(a, one.drop_last()) == a);
    assert(highest(a, one.drop_last()) == a);
}

proof fn lemma_in_parts(a: u64, x: Seq<u64>, y: Seq<u64>)
    ensures
        lowest(lowest(a, x), y) == lowest(a, x + y),
        highest(highest(a, x), y) == highest(a, x + y),
    decreases y.len(),
{
    if y.len() == 0 {
        assert(x + y =~= x);
    } else {
        assert((x + y).drop_last() =~= x + y.drop_last());
        lemma_in_parts(a, x, y.drop_last());
    }
}

/// The extent of points taken in part by part is that of all of them.
pub proof fn law_extent_in_parts(e: Extent, a: Seq<Point>, b: Seq<Point>)
    ensures
        e.with(a).with(b) == e.with(a + b),
{
    assert(eastings(a + b) =~= eastings(a) + eastings(b));
    assert(northings(a + b) =~= northings(a) + northings(b));
    lemma_in_parts(e.lo.0, eastings(a), eastings(b));
    lemma_in_parts(e.lo.1, northings(a), northings(b));
    lemma_in_parts(e.hi.0, eastings(a), eastings(b));
    lemma_in_parts(e.hi.1, northings(a), northings(b));
}

proof fn lemma_sides(lo: u64, hi: u64, vs: Seq<u64>)
    requires
        !is_nan(lo),
        !is_nan(hi),
    ensures
        !is_nan(lowest(lo, vs)),
        !is_nan(highest(hi, vs)),
        lowest(lo, vs) == lo || vs.contains(lowest(lo, vs)),
        highest(hi, vs) == hi || vs.contains(highest(hi, vs)),
        forall|k: int|
            0 <= k < vs.len() ==> !less(#[trigger] vs[k], lowest(lo, vs)) && !less(
                highest(hi, vs),
                vs[k],
            ),
    decreases vs.len(),
{
    if vs.len() > 0 {
        let d = vs.drop_last();
        let n = vs.len() - 1;
        lemma_sides(lo, hi, d);
        assert(vs[n] == vs.last());
        if lowest(lo, vs) != lo && lowest(lo, vs) != vs.last() {
            let k = choose|k: int| 0 <= k < d.len() && d[k] == lowest(lo, d);
            assert(vs[k] == lowest(lo, vs));
        }
        if highest(hi, vs) != hi && highest(hi, vs) != vs.last() {
            let k = choose|k: int| 0 <= k < d.len() && d[k] == highest(hi, d);
            assert(vs[k] == highest(hi, vs));
        }
        assert forall|k: int| 0 <= k < vs.len() implies !less(#[trigger] vs[k], lowest(lo, vs))
            && !less(highest(hi, vs), vs[k]) by {
            if k < n {
                assert(vs[k] == d[k]);
            }
        }
    }
}

/// Every point lies inside the extent.
pub proof fn law_points_inside_extent(ps: Seq<Point>, k: int)
    requires
        0 <= k < ps.len(),
    ensures
        ({
            let e = Extent::nothing().with(ps);
            &&& !less(ps[k].0, e.lo.0) && !less(e.hi.0, ps[k].0)
            &&& !less(ps[k].1, e.lo.1) && !less(e.hi.1, ps[k].1)
        }),
{
    lemma_sides(LARGEST, SMALLEST, eastings(ps));
    lemma_sides(LARGEST, SMALLEST, northings(ps));
    assert(eastings(ps)[k] == ps[k].0);
    assert(northings(ps)[k] == ps[k].1);
}

/// Whether a bit pattern is that of a finite number.
pub open spec fn finite(v: u64) -> bool {
    rank(SMALLEST) <= rank(v) <= rank(LARGEST)
}

proof fn lemma_attained(vs: Seq<u64>, k: int)
    requires
        0 <= k < vs.len(),
        finite(vs[k]),
    ensures
        vs.contains(lowest(LARGEST, vs)),
        vs.contains(highest(SMALLEST, vs)),
{
    lemma_sides(LARGEST, SMALLEST, vs);
    assert(!less(vs[k], lowest(LARGEST, vs)));
    assert(lowest(LARGEST, vs) == LARGEST ==> vs[k] == LARGEST);
    assert(highest(SMALLEST, vs) == SMALLEST ==> vs[k] == SMALLEST);
}

/// Each side of the extent is attained by a point, where some easting and some northing are
/// finite.
pub proof fn law_extent_attained(ps: Seq<Point>, k: int, m: int)
    requires
        0 <= k < ps.len(),
        0 <= m < ps.len(),
        finite(ps[k].0),
        finite(ps[m].1),
    ensures
        ({
            let e = Extent::nothing().with(ps);
            &&& exists|i: int| 0 <= i < ps.len() && (#[trigger] ps[i]).0 == e.lo.0
            &&& exists|i: int| 0 <= i < ps.len() && (#[trigger] ps[i]).0 == e.hi.0
            &&& exists|i: int| 0 <= i < ps.len() && (#[trigger] ps[i]).1 == e.lo.1
            &&& exists|i: int| 0 <= i < ps.len() && (#[trigger] ps[i]).1 == e.hi.1
        }),
{
    let (x, y) = (eastings(ps), northings(ps));
    let e = Extent::nothing().with(ps);
    assert(x[k] == ps[k].0 && y[m] == ps[m].1);
    lemma_attained(x, k);
    lemma_attained(y, m);
    let i = choose|i: int| 0 <= i < x.len() && x[i] == e.lo.0;
    assert(ps[i].0 == e.lo.0);
    let i = choose|i: int| 0 <= i < x.len() && x[i] == e.hi.0;
    assert(ps[i].0 == e.hi.0);
    let i = choose|i: int| 0 <= i < y.len() && y[i] == e.lo.1;
    assert(ps[i].1 == e.lo.1);
    let i = choose|i: int| 0 <= i < y.len() && y[i] == e.hi.1;
    assert(ps[i].1 == e.hi.1);
}

/// The points of a geometry are those of its vertices, line after line.
pub proof fn law_points_of_geometries(p: Seq<Vertex>, ls: Seq<Seq<Vertex>>, k: int)
    requires
        0 <= k < p.len(),
    ensures
        geom_points(GeomView::Line(p)).len() == p.len(),
        geom_points(GeomView::Line(p))[k] == (p[k].x, p[k].y),
        geom_points(GeomView::Poly(p)) == geom_points(GeomView::Line(p)),
        geom_points(GeomView::Multi(ls.push(p))) == geom_points(GeomView::Multi(ls)) + geom_points(
            GeomView::Line(p),
        ),
        geom_points(GeomView::Multi(Seq::empty())).len() == 0,
{
    assert(ls.push(p).drop_last() =~= ls);
}

/// The extent of nothing has every number between its sides turned round: its low side is the
/// largest finite number and its high side the smallest.
pub proof fn law_extent_of_nothing(v: u64)
    requires
        v < 0x7ff0_0000_0000_0000,
    ensures
        ({
            let e = Extent::nothing();
            &&& !less(e.lo.0, v) && !less(e.lo.1, v)
            &&& !less((v + 0x8000_0000_0000_0000) as u64, e.hi.0)
            &&& !less((v + 0x8000_0000_0000_0000) as u64, e.hi.1)
            &&& e.lo.0 < 0x7ff0_0000_0000_0000 && e.lo.1 < 0x7ff0_0000_0000_0000
            &&& e.hi.0 < 0xfff0_0000_0000_0000 && e.hi.1 < 0xfff0_0000_0000_0000
        }),
{
}

} // verus!
