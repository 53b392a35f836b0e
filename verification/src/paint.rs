//! Drawing the network into the map's two layers.
use vstd::prelude::*;
use crate::bucket::{Row, RowView};
use crate::geom::Vertex;
use crate::grid::{joined, law_records_come_from_pieces, on_grid, Grid, Knife, MapCfg, Point};
use crate::map::{borrowed_lines, drawn_lines, lines_to_draw, segment_year, settled, span_of, widened, year_of_segment, Look, Style, YearSpan};
use crate::number::{less, lt};
use crate::order::by_cell;
use crate::records::{counts_of, idx_bytes, records_bytes, write_base, write_layer, Layer, Rec};
use crate::simplify::{law_simplified_keeps_ends, law_simplified_stays_near, lemma_simplified_places, simplified, simplify};
use crate::years::{stamped, Years};

verus! {

/// What has been drawn: the detailed records, those of the coarse skeleton, and the years of
/// the former.
pub struct Painter {
    pub detail: Vec<Rec>,
    pub base: Vec<Rec>,
    pub span: YearSpan,
}

/// What lines are drawn with: the distance of a point from the segment between two others, the
/// place of a segment's middle in the table of years, the length of a line, and how segments
/// are cut.
pub struct Pen<D, H, L, T, P, Q> {
    pub perp: D,
    pub spot: H,
    pub length: L,
    pub knife: Knife<T, P, Q>,
}

/// What a line leaves on the map: detailed records, records of the coarse skeleton, and the
/// years of the detailed segments.
pub struct Stroke {
    pub detail: Seq<Rec>,
    pub base: Seq<Rec>,
    pub years: Seq<u8>,
}

impl<
    D: Fn(Point, Point, Point) -> u64,
    H: Fn(Point, Point) -> (i64, i64),
    L: Fn(&Vec<Point>) -> u64,
    T: Fn(Point, Point) -> Vec<u64>,
    P: Fn(Point, Point, u64, u64) -> Option<(i64, i64)>,
    Q: Fn(Point, Point, u64, u64, u32, u32) -> [u16; 4],
> Pen<D, H, L, T, P, Q> {
    /// Whether everything can be drawn on a grid.
    pub open spec fn usable(&self, g: Grid) -> bool {
        &&& forall|x: Point, a: Point, b: Point| #[trigger] call_requires(self.perp, (x, a, b))
        &&& forall|a: Point, b: Point| #[trigger] call_requires(self.spot, (a, b))
        &&& forall|v: &Vec<Point>| #[trigger] call_requires(self.length, (v,))
        &&& self.knife.usable(g)
    }

    /// Whether a segment has this year and these records.
    pub open spec fn segment(
        &self,
        g: Grid,
        st: Style,
        years: Map<u32, u8>,
        a: Point,
        b: Point,
        yr: u8,
        recs: Seq<Rec>,
    ) -> bool {
        exists|x: (i64, i64)| #[trigger]
            call_ensures(self.spot, (a, b), x) && yr == year_of_segment(
                st,
                years,
                x.0 as int,
                x.1 as int,
            ) && self.knife.cut(g, a, b, st.mark, yr, recs)
    }

    /// Whether the segments between the listed points of a line have these years and records.
    pub open spec fn segments(
        &self,
        g: Grid,
        st: Style,
        years: Map<u32, u8>,
        ps: Seq<Point>,
        ks: Seq<usize>,
        yrs: Seq<u8>,
        parts: Seq<Seq<Rec>>,
    ) -> bool {
        &&& parts.len() == yrs.len()
        &&& parts.len() == if ks.len() == 0 {
            0
        } else {
            ks.len() - 1
        }
        &&& forall|k: int|
            0 <= k < parts.len() ==> self.segment(
                g,
                st,
                years,
                ps[ks[k] as int],
                ps[ks[k + 1] as int],
                yrs[k],
                #[trigger] parts[k],
            )
    }

    /// Whether a line that is thinned out to a tolerance has these years and records.
    pub open spec fn thin_line(
        &self,
        g: Grid,
        st: Style,
        years: Map<u32, u8>,
        ps: Seq<Point>,
        tol: u64,
        yrs: Seq<u8>,
        recs: Seq<Rec>,
    ) -> bool {
        exists|ks: Seq<usize>, parts: Seq<Seq<Rec>>|
            simplified(self.perp, ps, tol, ks) && #[trigger] self.segments(
                g,
                st,
                years,
                ps,
                ks,
                yrs,
                parts,
            ) && recs == joined(parts)
    }

    /// Whether a line belongs to the coarse skeleton, or does not: it is longer than the least
    /// length.
    pub open spec fn longer(&self, ps: Seq<Point>, least: u64, r: bool) -> bool {
        exists|v: &Vec<Point>, len: u64|
            v@ == ps && #[trigger] call_ensures(self.length, (v,), len) && r == less(least, len)
    }

    /// Whether a line has these records on the skeleton.
    pub open spec fn skeleton(
        &self,
        g: Grid,
        st: Style,
        years: Map<u32, u8>,
        ps: Seq<Point>,
        m: MapCfg,
        recs: Seq<Rec>,
    ) -> bool {
        ||| self.longer(ps, m.base_min_len_m, false) && recs == Seq::<Rec>::empty()
        ||| self.longer(ps, m.base_min_len_m, true) && exists|yrs: Seq<u8>| #[trigger]
            self.thin_line(g, st, years, ps, m.simplify_base_m, yrs, recs)
    }

    /// Whether a line leaves this on the map: all of it, lightly thinned out, and where it is
    /// long enough a heavily thinned line on the skeleton.
    pub open spec fn leaves(
        &self,
        g: Grid,
        st: Style,
        years: Map<u32, u8>,
        ps: Seq<Point>,
        m: MapCfg,
        s: Stroke,
    ) -> bool {
        &&& self.thin_line(g, st, years, ps, m.simplify_detail_m, s.years, s.detail)
        &&& self.skeleton(g, st, years, ps, m, s.base)
    }

    /// Whether lines leave this on the map, line by line.
    pub open spec fn leave_all(
        &self,
        g: Grid,
        years: Map<u32, u8>,
        lines: Seq<(Style, Seq<Point>)>,
        m: MapCfg,
        ss: Seq<Stroke>,
    ) -> bool {
        &&& ss.len() == lines.len()
        &&& forall|k: int|
            0 <= k < ss.len() ==> self.leaves(
                g,
                lines[k].0,
                years,
                lines[k].1,
                m,
                #[trigger] ss[k],
            )
    }
}

/// The points of a line.
pub open spec fn points(l: Seq<Vertex>) -> Seq<Point> {
    l.map_values(|v: Vertex| (v.x, v.y))
}

/// Lines with how they are drawn.
pub open spec fn styled(st: Style, ls: Seq<Seq<Vertex>>) -> Seq<(Style, Seq<Point>)> {
    ls.map_values(|l: Seq<Vertex>| (st, points(l)))
}

/// The lines of features in order, with how they are drawn.
pub open spec fn lines_of_rows(look: Look, rows: Seq<RowView>) -> Seq<(Style, Seq<Point>)>
    decreases rows.len(),
{
    if rows.len() == 0 {
        Seq::empty()
    } else {
        lines_of_rows(look, rows.drop_last()) + styled(
            look.style_of_row(rows.last()),
            drawn_lines(rows.last().geom),
        )
    }
}

/// The contents of features.
pub open spec fn row_views(rows: Seq<Row>) -> Seq<RowView> {
    rows.map_values(|r: Row| r.deep_view())
}

/// A range with more year bytes.
pub open spec fn seen(s: YearSpan, ys: Seq<u8>) -> YearSpan
    decreases ys.len(),
{
    if ys.len() == 0 {
        s
    } else {
        widened(seen(s, ys.drop_last()), ys.last())
    }
}

/// What strokes leave one after the other.
pub open spec fn all_strokes(ss: Seq<Stroke>) -> Stroke
    decreases ss.len(),
{
    if ss.len() == 0 {
        Stroke { detail: Seq::empty(), base: Seq::empty(), years: Seq::empty() }
    } else {
        let r = all_strokes(ss.drop_last());
        Stroke {
            detail: r.detail + ss.last().detail,
            base: r.base + ss.last().base,
            years: r.years + ss.last().years,
        }
    }
}

proof fn lemma_seen(s: YearSpan, xs: Seq<u8>, ys: Seq<u8>)
    ensures
        seen(s, xs + ys) == seen(seen(s, xs), ys),
    decreases ys.len(),
{
    if ys.len() == 0 {
        assert(xs + ys =~= xs);
    } else {
        lemma_seen(s, xs, ys.drop_last());
        assert((xs + ys).drop_last() =~= xs + ys.drop_last());
    }
}

fn points_of(l: &Vec<Vertex>) -> (r: Vec<Point>)
    ensures
        r@ == points(l@),
{
    let mut out: Vec<Point> = Vec::new();
    let mut i: usize = 0;
    while i < l.len()
        invariant
            i <= l.len(),
            out@ == points(l@).take(i as int),
        decreases l.len() - i,
    {
        out.push((l[i].x, l[i].y));
        i += 1;
        assert(points(l@).take(i as int) =~= points(l@).take(i - 1).push(points(l@)[i - 1]));
    }
    assert(points(l@).take(i as int) =~= points(l@));
    out
}

/// Thins a line out to a tolerance, cuts what is left of it and appends the records; returns
/// the years of its segments.
fn draw<
    D: Fn(Point, Point, Point) -> u64,
    H: Fn(Point, Point) -> (i64, i64),
    L: Fn(&Vec<Point>) -> u64,
    T: Fn(Point, Point) -> Vec<u64>,
    P: Fn(Point, Point, u64, u64) -> Option<(i64, i64)>,
    Q: Fn(Point, Point, u64, u64, u32, u32) -> [u16; 4],
>(
    g: &Grid,
    st: &Style,
    years: &Years,
    ps: &Vec<Point>,
    tol: u64,
    pen: &Pen<D, H, L, T, P, Q>,
    out: &mut Vec<Rec>,
) -> (yrs: Vec<u8>)
    requires
        g.wf(),
        pen.usable(*g),
        on_grid(old(out)@, *g),
    ensures
        exists|recs: Seq<Rec>| #[trigger]
            pen.thin_line(*g, *st, years@, ps@, tol, yrs@, recs) && final(out)@ == old(out)@ + recs,
        on_grid(final(out)@, *g),
{
    let ghost before = out@;
    let ks = simplify(ps, tol, &pen.perp);
    let ghost mut parts: Seq<Seq<Rec>> = Seq::empty();
    let mut yrs: Vec<u8> = Vec::new();
    proof {
        lemma_simplified_places(pen.perp, ps@, tol, ks@);
        assert(before + joined(parts) =~= before);
    }
    let mut k: usize = 0;
    while k + 1 < ks.len()
        invariant
            g.wf(),
            pen.usable(*g),
            on_grid(out@, *g),
            forall|j: int| 0 <= j < ks.len() ==> #[trigger] ks@[j] < ps.len(),
            k == parts.len(),
            k == yrs.len(),
            k == 0 || k < ks.len(),
            out@ == before + joined(parts),
            forall|j: int|
                0 <= j < parts.len() ==> pen.segment(
                    *g,
                    *st,
                    years@,
                    ps@[ks@[j] as int],
                    ps@[ks@[j + 1] as int],
                    yrs@[j],
                    #[trigger] parts[j],
                ),
        decreases ks.len() - k,
    {
        let ghost now = out@;
        let ghost old_yrs = yrs@;
        assert(ks@[k as int] < ps.len() && ks@[k + 1] < ps.len());
        let (a, b) = (ps[ks[k]], ps[ks[k + 1]]);
        let (x, y) = (pen.spot)(a, b);
        let yr = segment_year(st, years, x, y);
        g.clip(a, b, &pen.knife, st.mark, yr, out);
        yrs.push(yr);
        proof {
            let recs = choose|recs: Seq<Rec>| #[trigger]
                pen.knife.cut(*g, a, b, st.mark, yr, recs) && out@ == now + recs;
            let was = parts;
            parts = parts.push(recs);
            assert(parts.drop_last() =~= was);
            assert(out@ =~= before + joined(parts));
            assert(pen.segment(*g, *st, years@, a, b, yr, recs)) by {
                assert(call_ensures(pen.spot, (a, b), (x, y)));
            }
            assert forall|j: int| 0 <= j < parts.len() implies pen.segment(
                *g,
                *st,
                years@,
                ps@[ks@[j] as int],
                ps@[ks@[j + 1] as int],
                yrs@[j],
                #[trigger] parts[j],
            ) by {
                if j < k {
                    assert(parts[j] == was[j]);
                    assert(yrs@[j] == old_yrs[j]);
                }
            }
        }
        k += 1;
    }
    proof {
        assert(pen.segments(*g, *st, years@, ps@, ks@, yrs@, parts));
        assert(pen.thin_line(*g, *st, years@, ps@, tol, yrs@, joined(parts)));
    }
    yrs
}

impl Painter {
    /// Whether all that has been drawn lies in the cells of a grid.
    pub open spec fn fits(&self, g: Grid) -> bool {
        on_grid(self.detail@, g) && on_grid(self.base@, g)
    }

    /// Whether this is what was drawn before and a stroke behind it.
    pub open spec fn follows(&self, was: Painter, s: Stroke) -> bool {
        &&& self.detail@ == was.detail@ + s.detail
        &&& self.base@ == was.base@ + s.base
        &&& self.span == seen(was.span, s.years)
    }

    /// Nothing drawn yet.
    pub fn new() -> (r: Painter)
        ensures
            r.detail@ == Seq::<Rec>::empty(),
            r.base@ == Seq::<Rec>::empty(),
            r.span == span_of(Seq::empty()),
            forall|g: Grid| r.fits(g),
    {
        Painter { detail: Vec::new(), base: Vec::new(), span: YearSpan::new() }
    }

    /// Draws a line.
    pub fn line<
        D: Fn(Point, Point, Point) -> u64,
        H: Fn(Point, Point) -> (i64, i64),
        L: Fn(&Vec<Point>) -> u64,
        T: Fn(Point, Point) -> Vec<u64>,
        P: Fn(Point, Point, u64, u64) -> Option<(i64, i64)>,
        Q: Fn(Point, Point, u64, u64, u32, u32) -> [u16; 4],
    >(
        &mut self,
        g: &Grid,
        st: &Style,
        years: &Years,
        ps: &Vec<Point>,
        m: &MapCfg,
        pen: &Pen<D, H, L, T, P, Q>,
    )
        requires
            g.wf(),
            pen.usable(*g),
            old(self).fits(*g),
        ensures
            exists|s: Stroke| #[trigger]
                pen.leaves(*g, *st, years@, ps@, *m, s) && final(self).follows(*old(self), s),
            final(self).fits(*g),
    {
        let ghost was = *self;
        let yrs = draw(g, st, years, ps, m.simplify_detail_m, pen, &mut self.detail);
        let ghost detail = choose|recs: Seq<Rec>| #[trigger]
            pen.thin_line(*g, *st, years@, ps@, m.simplify_detail_m, yrs@, recs) && self.detail@
                == was.detail@ + recs;
        let mut k: usize = 0;
        assert(seen(was.span, yrs@.take(0)) == was.span);
        while k < yrs.len()
            invariant
                k <= yrs.len(),
                self.span == seen(was.span, yrs@.take(k as int)),
                self.base@ == was.base@,
                self.detail@ == was.detail@ + detail,
                on_grid(self.detail@, *g),
            decreases yrs.len() - k,
        {
            self.span.see(yrs[k]);
            assert(yrs@.take(k + 1).drop_last() =~= yrs@.take(k as int));
            k += 1;
        }
        assert(yrs@.take(k as int) =~= yrs@);
        let len = (pen.length)(ps);
        let long = lt(m.base_min_len_m, len);
        assert(pen.longer(ps@, m.base_min_len_m, long)) by {
            assert(call_ensures(pen.length, (ps,), len));
        }
        let ghost mut base: Seq<Rec> = Seq::empty();
        if long {
            let ys = draw(g, st, years, ps, m.simplify_base_m, pen, &mut self.base);
            proof {
                base = choose|recs: Seq<Rec>| #[trigger]
                    pen.thin_line(*g, *st, years@, ps@, m.simplify_base_m, ys@, recs) && self.base@
                        == was.base@ + recs;
            }
        } else {
            assert(self.base@ =~= was.base@ + base);
        }
        proof {
            let s = Stroke { detail, base, years: yrs@ };
            assert(pen.skeleton(*g, *st, years@, ps@, *m, base));
            assert(pen.leaves(*g, *st, years@, ps@, *m, s));
            assert(self.follows(was, s));
        }
    }

    /// Draws features.
    pub fn rows<
        D: Fn(Point, Point, Point) -> u64,
        H: Fn(Point, Point) -> (i64, i64),
        L: Fn(&Vec<Point>) -> u64,
        T: Fn(Point, Point) -> Vec<u64>,
        P: Fn(Point, Point, u64, u64) -> Option<(i64, i64)>,
        Q: Fn(Point, Point, u64, u64, u32, u32) -> [u16; 4],
    >(
        &mut self,
        g: &Grid,
        rows: &Vec<Row>,
        look: &Look,
        years: &Years,
        m: &MapCfg,
        pen: &Pen<D, H, L, T, P, Q>,
    )
        requires
            rows.len() > 0 ==> g.wf(),
            pen.usable(*g),
            old(self).fits(*g),
        ensures
            exists|ss: Seq<Stroke>| #[trigger]
                pen.leave_all(*g, years@, lines_of_rows(*look, row_views(rows@)), *m, ss)
                    && final(self).follows(*old(self), all_strokes(ss)),
            final(self).fits(*g),
    {
        let ghost was = *self;
        let ghost rv = row_views(rows@);
        let ghost mut done: Seq<(Style, Seq<Point>)> = Seq::empty();
        let ghost mut ss: Seq<Stroke> = Seq::empty();
        let mut i: usize = 0;
        assert(self.follows(was, all_strokes(ss)));
        while i < rows.len()
            invariant
                rows.len() > 0 ==> g.wf(),
                pen.usable(*g),
                self.fits(*g),
                i <= rows.len(),
                rv == row_views(rows@),
                done == lines_of_rows(*look, rv.take(i as int)),
                pen.leave_all(*g, years@, done, *m, ss),
                self.follows(was, all_strokes(ss)),
            decreases rows.len() - i,
        {
            let r = &rows[i];
            let st = look.style_row(r);
            let lines = lines_to_draw(&r.geom);
            let ghost before = done;
            let ghost add = styled(st, drawn_lines(rv[i as int].geom));
            assert(rv.take(i + 1).drop_last() =~= rv.take(i as int));
            assert(rv.take(i + 1).last() == r.deep_view());
            let mut j: usize = 0;
            assert(before + add.take(0) =~= before);
            while j < lines.len()
                invariant
                    g.wf(),
                    pen.usable(*g),
                    self.fits(*g),
                    j <= lines.len(),
                    borrowed_lines(lines@) == drawn_lines(rv[i as int].geom),
                    add == styled(st, drawn_lines(rv[i as int].geom)),
                    done == before + add.take(j as int),
                    pen.leave_all(*g, years@, done, *m, ss),
                    self.follows(was, all_strokes(ss)),
                decreases lines.len() - j,
            {
                let ghost now = *self;
                let ps = points_of(lines[j]);
                self.line(g, &st, years, &ps, m, pen);
                proof {
                    let s = choose|s: Stroke| #[trigger]
                        pen.leaves(*g, st, years@, ps@, *m, s) && self.follows(now, s);
                    assert(borrowed_lines(lines@)[j as int] == lines@[j as int]@);
                    assert(add[j as int] == (st, ps@));
                    let (old_done, old_ss) = (done, ss);
                    done = done.push((st, ps@));
                    ss = ss.push(s);
                    assert(add.take(j + 1) =~= add.take(j as int).push(add[j as int]));
                    assert(done =~= before + add.take(j + 1));
                    assert(ss.drop_last() =~= old_ss);
                    lemma_seen(was.span, all_strokes(old_ss).years, s.years);
                    assert(self.detail@ =~= was.detail@ + all_strokes(ss).detail);
                    assert(self.base@ =~= was.base@ + all_strokes(ss).base);
                    assert forall|k: int| 0 <= k < ss.len() implies pen.leaves(
                        *g,
                        done[k].0,
                        years@,
                        done[k].1,
                        *m,
                        #[trigger] ss[k],
                    ) by {
                        if k < old_ss.len() {
                            assert(ss[k] == old_ss[k]);
                            assert(done[k] == old_done[k]);
                        }
                    }
                }
                j += 1;
            }
            assert(add.take(j as int) =~= add);
            i += 1;
        }
        assert(rv.take(i as int) =~= rv);
    }

    /// Sorts both layers by cell and writes them, with the range of years.
    pub fn finish(self, g: &Grid) -> (r: MapFiles)
        requires
            g.nc * g.nr <= 0x1_0000,
            self.fits(*g),
            self.detail.len() <= u32::MAX,
        ensures
            layer_of(self.detail@, (g.nc * g.nr) as nat, r.layer),
            base_of(self.base@, r.base@),
            r.span == settled(self.span),
    {
        let ghost whole = self;
        let Painter { mut detail, mut base, span } = self;
        let layer = write_layer(&mut detail, g.nc * g.nr);
        let bytes = write_base(&mut base);
        assert(sorted_from(detail@, whole.detail@));
        assert(sorted_from(base@, whole.base@));
        MapFiles { layer, base: bytes, span: span.settle() }
    }
}

/// The map as it is written out: the detailed layer, the coarse skeleton and the range of
/// years.
pub struct MapFiles {
    pub layer: Layer,
    pub base: Vec<u8>,
    pub span: YearSpan,
}

/// Whether these are the same records in the order of their cells.
pub open spec fn sorted_from(s: Seq<Rec>, r: Seq<Rec>) -> bool {
    by_cell(s) && s.to_multiset() == r.to_multiset()
}

/// Whether a layer holds these records in the order of their cells, and an index to them.
pub open spec fn layer_of(recs: Seq<Rec>, ncell: nat, l: Layer) -> bool {
    exists|s: Seq<Rec>| #[trigger]
        sorted_from(s, recs) && l.bin@ == records_bytes(s) && l.idx@ == idx_bytes(
            counts_of(s, ncell),
        )
}

/// Whether bytes hold these records in the order of their cells.
pub open spec fn base_of(recs: Seq<Rec>, b: Seq<u8>) -> bool {
    exists|s: Seq<Rec>| #[trigger] sorted_from(s, recs) && b == records_bytes(s)
}

/// Whether a point lies no farther than the tolerance from the segment between two others.
pub open spec fn near<D: Fn(Point, Point, Point) -> u64>(
    perp: D,
    tol: u64,
    x: Point,
    a: Point,
    b: Point,
) -> bool {
    exists|d: u64| #[trigger] call_ensures(perp, (x, a, b), d) && !less(tol, d)
}

/// Whether a line is drawn over some of its points, from the first to the last, segment by
/// segment, and each point that is passed over lies no farther than the tolerance from the
/// segment that passes it.
pub open spec fn drawn_near<
    D: Fn(Point, Point, Point) -> u64,
    H: Fn(Point, Point) -> (i64, i64),
    L: Fn(&Vec<Point>) -> u64,
    T: Fn(Point, Point) -> Vec<u64>,
    P: Fn(Point, Point, u64, u64) -> Option<(i64, i64)>,
    Q: Fn(Point, Point, u64, u64, u32, u32) -> [u16; 4],
>(
    pen: Pen<D, H, L, T, P, Q>,
    g: Grid,
    st: Style,
    years: Map<u32, u8>,
    ps: Seq<Point>,
    tol: u64,
    ks: Seq<usize>,
    yrs: Seq<u8>,
    parts: Seq<Seq<Rec>>,
    recs: Seq<Rec>,
) -> bool {
    &&& ks.len() >= 1
    &&& ks[0] == 0
    &&& ks[ks.len() - 1] == ps.len() - 1
    &&& parts.len() == ks.len() - 1
    &&& yrs.len() == parts.len()
    &&& recs == joined(parts)
    &&& forall|k: int|
        0 <= k < parts.len() ==> ks[k] < ks[k + 1] && pen.segment(
            g,
            st,
            years,
            ps[ks[k] as int],
            ps[ks[k + 1] as int],
            yrs[k],
            #[trigger] parts[k],
        )
    &&& forall|k: int, j: int|
        0 <= k < parts.len() && ks[k] < j < ks[k + 1] ==> #[trigger] near(
            pen.perp,
            tol,
            ps[j],
            ps[ks[k] as int],
            ps[ks[k + 1] as int],
        )
}

proof fn lemma_thin_line_near<
    D: Fn(Point, Point, Point) -> u64,
    H: Fn(Point, Point) -> (i64, i64),
    L: Fn(&Vec<Point>) -> u64,
    T: Fn(Point, Point) -> Vec<u64>,
    P: Fn(Point, Point, u64, u64) -> Option<(i64, i64)>,
    Q: Fn(Point, Point, u64, u64, u32, u32) -> [u16; 4],
>(
    pen: Pen<D, H, L, T, P, Q>,
    g: Grid,
    st: Style,
    years: Map<u32, u8>,
    ps: Seq<Point>,
    tol: u64,
    yrs: Seq<u8>,
    recs: Seq<Rec>,
)
    requires
        ps.len() >= 1,
        pen.thin_line(g, st, years, ps, tol, yrs, recs),
    ensures
        exists|ks: Seq<usize>, parts: Seq<Seq<Rec>>|
            drawn_near(pen, g, st, years, ps, tol, ks, yrs, parts, recs),
{
    let (ks, parts) = choose|ks: Seq<usize>, parts: Seq<Seq<Rec>>|
        simplified(pen.perp, ps, tol, ks) && #[trigger] pen.segments(
            g,
            st,
            years,
            ps,
            ks,
            yrs,
            parts,
        ) && recs == joined(parts);
    law_simplified_keeps_ends(pen.perp, ps, tol, ks);
    assert forall|k: int| 0 <= k < parts.len() implies ks[k] < ks[k + 1] && pen.segment(
        g,
        st,
        years,
        ps[ks[k] as int],
        ps[ks[k + 1] as int],
        yrs[k],
        #[trigger] parts[k],
    ) by {
        assert(ks[k] < ks[k + 1]);
    }
    assert forall|k: int, j: int| 0 <= k < parts.len() && ks[k] < j < ks[k + 1] implies #[trigger] near(
        pen.perp,
        tol,
        ps[j],
        ps[ks[k] as int],
        ps[ks[k + 1] as int],
    ) by {
        law_simplified_stays_near(pen.perp, ps, tol, ks, k, j);
    }
    assert(drawn_near(pen, g, st, years, ps, tol, ks, yrs, parts, recs));
}

/// On the detailed layer no point of a line lies farther from what is drawn of it than the
/// tolerance for details.
pub proof fn law_detail_stays_near<
    D: Fn(Point, Point, Point) -> u64,
    H: Fn(Point, Point) -> (i64, i64),
    L: Fn(&Vec<Point>) -> u64,
    T: Fn(Point, Point) -> Vec<u64>,
    P: Fn(Point, Point, u64, u64) -> Option<(i64, i64)>,
    Q: Fn(Point, Point, u64, u64, u32, u32) -> [u16; 4],
>(
    pen: Pen<D, H, L, T, P, Q>,
    g: Grid,
    st: Style,
    years: Map<u32, u8>,
    ps: Seq<Point>,
    m: MapCfg,
    s: Stroke,
)
    requires
        ps.len() >= 1,
        pen.leaves(g, st, years, ps, m, s),
    ensures
        exists|ks: Seq<usize>, parts: Seq<Seq<Rec>>|
            drawn_near(
                pen,
                g,
                st,
                years,
                ps,
                m.simplify_detail_m,
                ks,
                s.years,
                parts,
                s.detail,
            ),
{
    lemma_thin_line_near(pen, g, st, years, ps, m.simplify_detail_m, s.years, s.detail);
}

/// The skeleton holds a line only where it is longer than the least length, and then no point of
/// it lies farther from what is drawn than the tolerance for the skeleton.
pub proof fn law_skeleton_stays_near<
    D: Fn(Point, Point, Point) -> u64,
    H: Fn(Point, Point) -> (i64, i64),
    L: Fn(&Vec<Point>) -> u64,
    T: Fn(Point, Point) -> Vec<u64>,
    P: Fn(Point, Point, u64, u64) -> Option<(i64, i64)>,
    Q: Fn(Point, Point, u64, u64, u32, u32) -> [u16; 4],
>(
    pen: Pen<D, H, L, T, P, Q>,
    g: Grid,
    st: Style,
    years: Map<u32, u8>,
    ps: Seq<Point>,
    m: MapCfg,
    s: Stroke,
)
    requires
        ps.len() >= 1,
        pen.leaves(g, st, years, ps, m, s),
        s.base.len() > 0,
    ensures
        exists|v: &Vec<Point>, len: u64|
            v@ == ps && #[trigger] call_ensures(pen.length, (v,), len) && less(
                m.base_min_len_m,
                len,
            ),
        exists|yrs: Seq<u8>, ks: Seq<usize>, parts: Seq<Seq<Rec>>|
            drawn_near(pen, g, st, years, ps, m.simplify_base_m, ks, yrs, parts, s.base),
{
    let yrs = choose|yrs: Seq<u8>| #[trigger]
        pen.thin_line(g, st, years, ps, m.simplify_base_m, yrs, s.base);
    lemma_thin_line_near(pen, g, st, years, ps, m.simplify_base_m, yrs, s.base);
    let (ks, parts) = choose|ks: Seq<usize>, parts: Seq<Seq<Rec>>|
        drawn_near(pen, g, st, years, ps, m.simplify_base_m, ks, yrs, parts, s.base);
    assert(drawn_near(pen, g, st, years, ps, m.simplify_base_m, ks, yrs, parts, s.base));
}

/// A line that is longer than the least length, however it is measured, is on the skeleton from
/// its first to its last point.
pub proof fn law_long_lines_are_on_the_skeleton<
    D: Fn(Point, Point, Point) -> u64,
    H: Fn(Point, Point) -> (i64, i64),
    L: Fn(&Vec<Point>) -> u64,
    T: Fn(Point, Point) -> Vec<u64>,
    P: Fn(Point, Point, u64, u64) -> Option<(i64, i64)>,
    Q: Fn(Point, Point, u64, u64, u32, u32) -> [u16; 4],
>(
    pen: Pen<D, H, L, T, P, Q>,
    g: Grid,
    st: Style,
    years: Map<u32, u8>,
    ps: Seq<Point>,
    m: MapCfg,
    s: Stroke,
)
    requires
        ps.len() >= 1,
        pen.leaves(g, st, years, ps, m, s),
        forall|v: &Vec<Point>, len: u64|
            v@ == ps && #[trigger] call_ensures(pen.length, (v,), len) ==> less(
                m.base_min_len_m,
                len,
            ),
    ensures
        exists|yrs: Seq<u8>, ks: Seq<usize>, parts: Seq<Seq<Rec>>|
            drawn_near(pen, g, st, years, ps, m.simplify_base_m, ks, yrs, parts, s.base),
{
    let yrs = choose|yrs: Seq<u8>| #[trigger]
        pen.thin_line(g, st, years, ps, m.simplify_base_m, yrs, s.base);
    lemma_thin_line_near(pen, g, st, years, ps, m.simplify_base_m, yrs, s.base);
    let (ks, parts) = choose|ks: Seq<usize>, parts: Seq<Seq<Rec>>|
        drawn_near(pen, g, st, years, ps, m.simplify_base_m, ks, yrs, parts, s.base);
    assert(drawn_near(pen, g, st, years, ps, m.simplify_base_m, ks, yrs, parts, s.base));
}

/// The two layers do not depend on each other's settings: under one tolerance for details, the
/// details drawn with one setting of the skeleton can stand beside the skeleton of another.
pub proof fn law_layers_have_their_own_settings<
    D: Fn(Point, Point, Point) -> u64,
    H: Fn(Point, Point) -> (i64, i64),
    L: Fn(&Vec<Point>) -> u64,
    T: Fn(Point, Point) -> Vec<u64>,
    P: Fn(Point, Point, u64, u64) -> Option<(i64, i64)>,
    Q: Fn(Point, Point, u64, u64, u32, u32) -> [u16; 4],
>(
    pen: Pen<D, H, L, T, P, Q>,
    g: Grid,
    st: Style,
    years: Map<u32, u8>,
    ps: Seq<Point>,
    m: MapCfg,
    n: MapCfg,
    s: Stroke,
    t: Stroke,
)
    requires
        pen.leaves(g, st, years, ps, m, s),
        pen.leaves(g, st, years, ps, n, t),
    ensures
        m.simplify_detail_m == n.simplify_detail_m ==> pen.leaves(
            g,
            st,
            years,
            ps,
            n,
            Stroke { detail: s.detail, base: t.base, years: s.years },
        ),
        m.simplify_base_m == n.simplify_base_m && m.base_min_len_m == n.base_min_len_m
            ==> pen.leaves(
            g,
            st,
            years,
            ps,
            n,
            Stroke { detail: t.detail, base: s.base, years: t.years },
        ),
{
}

/// A segment's year is that of its style or, where that gives none, what the table of years has
/// for its tone at the place that the segment's middle falls into; and all its records carry
/// the mark of the style and that year.
pub proof fn law_segment_carries_mark_and_year<
    D: Fn(Point, Point, Point) -> u64,
    H: Fn(Point, Point) -> (i64, i64),
    L: Fn(&Vec<Point>) -> u64,
    T: Fn(Point, Point) -> Vec<u64>,
    P: Fn(Point, Point, u64, u64) -> Option<(i64, i64)>,
    Q: Fn(Point, Point, u64, u64, u32, u32) -> [u16; 4],
>(
    pen: Pen<D, H, L, T, P, Q>,
    g: Grid,
    st: Style,
    years: Map<u32, u8>,
    a: Point,
    b: Point,
    yr: u8,
    recs: Seq<Rec>,
)
    requires
        pen.segment(g, st, years, a, b, yr, recs),
    ensures
        st.year matches Some(y) ==> yr == y,
        st.year is None ==> exists|x: (i64, i64)| #[trigger]
            call_ensures(pen.spot, (a, b), x) && yr == stamped(
                years,
                x.0 as int,
                x.1 as int,
                st.tone,
            ),
        forall|i: int|
            0 <= i < recs.len() ==> (#[trigger] recs[i]).b0 == st.mark && recs[i].b1 == yr,
{
    law_records_come_from_pieces(pen.knife, g, a, b, st.mark, yr, recs);
}

/// The points of a line are the places of its vertices.
pub proof fn law_points_are_the_vertices(l: Seq<Vertex>, i: int)
    requires
        0 <= i < l.len(),
    ensures
        points(l).len() == l.len(),
        points(l)[i].0 == l[i].x,
        points(l)[i].1 == l[i].y,
{
}

/// Features are drawn one after the other, each line of a feature in the feature's own style.
pub proof fn law_rows_are_drawn_in_order(look: Look, rows: Seq<RowView>, r: RowView)
    ensures
        ({
            let was = lines_of_rows(look, rows);
            let now = lines_of_rows(look, rows.push(r));
            &&& now.len() == was.len() + drawn_lines(r.geom).len()
            &&& now.take(was.len() as int) == was
            &&& forall|i: int|
                0 <= i < drawn_lines(r.geom).len() ==> {
                    &&& (#[trigger] now[was.len() + i]).0 == look.style_of_row(r)
                    &&& now[was.len() + i].1 == points(drawn_lines(r.geom)[i])
                }
        }),
{
    assert(rows.push(r).drop_last() =~= rows);
    assert(lines_of_rows(look, rows.push(r)).take(lines_of_rows(look, rows).len() as int)
        =~= lines_of_rows(look, rows));
}

/// Strokes follow one another on each layer.
pub proof fn law_strokes_follow_one_another(ss: Seq<Stroke>, s: Stroke)
    ensures
        ({
            let was = all_strokes(ss);
            let now = all_strokes(ss.push(s));
            &&& now.detail == was.detail + s.detail
            &&& now.base == was.base + s.base
            &&& now.years == was.years + s.years
        }),
{
    assert(ss.push(s).drop_last() =~= ss);
}

/// What a stroke leaves comes behind what was drawn before, on each layer, and its years join
/// the range.
pub proof fn law_stroke_comes_behind(now: Painter, was: Painter, s: Stroke, i: int)
    requires
        now.follows(was, s),
    ensures
        now.detail@.len() == was.detail@.len() + s.detail.len(),
        now.base@.len() == was.base@.len() + s.base.len(),
        0 <= i < was.detail@.len() ==> now.detail@[i] == was.detail@[i],
        0 <= i < was.base@.len() ==> now.base@[i] == was.base@[i],
        0 <= i < s.detail.len() ==> now.detail@[was.detail@.len() + i] == s.detail[i],
        0 <= i < s.base.len() ==> now.base@[was.base@.len() + i] == s.base[i],
        now.span == seen(was.span, s.years),
{
}

/// The range of years seen in parts is that of all of them.
pub proof fn law_range_of_all_years(xs: Seq<u8>, ys: Seq<u8>)
    ensures
        seen(span_of(xs), ys) == span_of(xs + ys),
    decreases ys.len(),
{
    if ys.len() == 0 {
        assert(xs + ys =~= xs);
    } else {
        law_range_of_all_years(xs, ys.drop_last());
        assert((xs + ys).drop_last() =~= xs + ys.drop_last());
    }
}

/// Each of several lines leaves a stroke of its own, in order and in its own style.
pub proof fn law_each_line_leaves_its_stroke<
    D: Fn(Point, Point, Point) -> u64,
    H: Fn(Point, Point) -> (i64, i64),
    L: Fn(&Vec<Point>) -> u64,
    T: Fn(Point, Point) -> Vec<u64>,
    P: Fn(Point, Point, u64, u64) -> Option<(i64, i64)>,
    Q: Fn(Point, Point, u64, u64, u32, u32) -> [u16; 4],
>(
    pen: Pen<D, H, L, T, P, Q>,
    g: Grid,
    years: Map<u32, u8>,
    lines: Seq<(Style, Seq<Point>)>,
    m: MapCfg,
    ss: Seq<Stroke>,
    k: int,
)
    requires
        pen.leave_all(g, years, lines, m, ss),
        0 <= k < lines.len(),
    ensures
        ss.len() == lines.len(),
        pen.leaves(g, lines[k].0, years, lines[k].1, m, ss[k]),
{
}

/// The detailed layer holds all records that were drawn and no others, in the order of their
/// cells, and its index counts those of each cell.
pub proof fn law_layer_holds_what_was_drawn(recs: Seq<Rec>, n: nat, l: Layer)
    requires
        layer_of(recs, n, l),
    ensures
        exists|s: Seq<Rec>|
            #![trigger records_bytes(s)]
            l.bin@ == records_bytes(s) && l.idx@ == idx_bytes(counts_of(s, n)) && s.to_multiset()
                == recs.to_multiset() && forall|i: int, j: int|
                0 <= i < j < s.len() ==> (#[trigger] s[i]).cell <= (#[trigger] s[j]).cell,
{
    let s = choose|s: Seq<Rec>| #[trigger]
        sorted_from(s, recs) && l.bin@ == records_bytes(s) && l.idx@ == idx_bytes(counts_of(s, n));
    assert(l.bin@ == records_bytes(s));
}

/// The skeleton's bytes hold all records that were drawn on it and no others, in the order of
/// their cells.
pub proof fn law_skeleton_holds_what_was_drawn(recs: Seq<Rec>, b: Seq<u8>)
    requires
        base_of(recs, b),
    ensures
        exists|s: Seq<Rec>|
            #![trigger records_bytes(s)]
            b == records_bytes(s) && s.to_multiset() == recs.to_multiset() && forall|i: int, j: int|
                0 <= i < j < s.len() ==> (#[trigger] s[i]).cell <= (#[trigger] s[j]).cell,
{
    let s = choose|s: Seq<Rec>| #[trigger] sorted_from(s, recs) && b == records_bytes(s);
    assert(b == records_bytes(s));
}

} // verus!
