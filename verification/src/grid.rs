//! The grid of cells that the map's layers are binned by.
//!
//! Lengths and places are kept as the bit patterns of their numbers.
use vstd::prelude::*;
use vstd::seq_lib::to_multiset_insert;
use crate::number::{less, lt, total_rank, total_rank_of};
use crate::records::Rec;

verus! {

/// A point: the bits of its easting and its northing.
pub type Point = (u64, u64);

/// The map: where its files go, its grid, its first view, and how far lines are thinned out.
pub struct MapCfg {
    pub dir: String,
    pub cell_km: u64,
    pub origin: (u64, u64),
    pub ncols: usize,
    pub nrows: usize,
    pub view: (u64, u64, u64),
    pub simplify_detail_m: u64,
    pub simplify_base_m: u64,
    pub base_min_len_m: u64,
}

/// How far the detailed lines may leave their course by default: half a metre.
pub fn d_detail() -> (r: u64)
    ensures
        r == 0x3fe0_0000_0000_0000,
{
    0x3fe0_0000_0000_0000
}

/// How far the coarse lines may leave their course by default: 45 metres.
pub fn d_base() -> (r: u64)
    ensures
        r == 0x4046_8000_0000_0000,
{
    0x4046_8000_0000_0000
}

/// How long a coarse line is at least by default: 110 metres.
pub fn d_blen() -> (r: u64)
    ensures
        r == 0x405b_8000_0000_0000,
{
    0x405b_8000_0000_0000
}

/// The grid: its origin, the size of a cell, and how many columns and rows it has.
pub struct Grid {
    pub minx: u64,
    pub miny: u64,
    pub cell: u64,
    pub nc: usize,
    pub nr: usize,
}

/// The bits of the number 1.
pub const ONE: u64 = 0x3ff0_0000_0000_0000;

/// Where along a segment it is cut: strictly between its ends.
pub open spec fn inner(t: u64) -> bool {
    less(0, t) && less(t, ONE)
}

/// Whether numbers stand in ascending order.
pub open spec fn in_order(s: Seq<u64>) -> bool {
    forall|i: int, j: int|
        0 <= i < j < s.len() ==> total_rank(#[trigger] s[i]) <= total_rank(#[trigger] s[j])
}

/// The ends of a segment and the places strictly between them, unordered.
pub open spec fn cut_list(ts: Seq<u64>) -> Seq<u64> {
    seq![0u64] + ts.filter(|t: u64| inner(t)) + seq![ONE]
}

/// Whether these are the ends of a segment and the places strictly between them, in order.
pub open spec fn cuts_of(ts: Seq<u64>, r: Seq<u64>) -> bool {
    in_order(r) && r.to_multiset() == cut_list(ts).to_multiset()
}

fn insert_sorted(v: &mut Vec<u64>, t: u64)
    requires
        in_order(old(v)@),
    ensures
        in_order(final(v)@),
        final(v)@.to_multiset() == old(v)@.to_multiset().insert(t),
{
    let ghost s = v@;
    let k = total_rank_of(t);
    let mut i: usize = 0;
    while i < v.len() && total_rank_of(v[i]) <= k
        invariant
            i <= v.len(),
            v@ == s,
            k == total_rank(t),
            forall|j: int| 0 <= j < i ==> total_rank(#[trigger] v@[j]) <= k,
        decreases v.len() - i,
    {
        i += 1;
    }
    v.insert(i, t);
    proof {
        to_multiset_insert(s, i as int, t);
        assert forall|a: int, b: int| 0 <= a < b < v@.len() implies total_rank(#[trigger] v@[a])
            <= total_rank(#[trigger] v@[b]) by {
            if a < i {
                assert(v@[a] == s[a]);
            }
            if b > i {
                assert(v@[b] == s[b - 1]);
                if a > i {
                    assert(v@[a] == s[a - 1]);
                } else if a == i && i < b - 1 {
                    assert(total_rank(s[i as int]) <= total_rank(s[b - 1]));
                }
            } else if b < i {
                assert(v@[b] == s[b]);
            }
        }
    }
}

/// Orders the places at which a segment is cut, with its ends.
pub fn cuts(ts: &Vec<u64>) -> (r: Vec<u64>)
    ensures
        cuts_of(ts@, r@),
{
    let mut v: Vec<u64> = Vec::new();
    v.push(0);
    let mut i: usize = 0;
    let ghost inside = |t: u64| inner(t);
    let ghost mut list: Seq<u64> = seq![0u64];
    proof {
        assert(v@ =~= list);
        assert(ts@.take(0).filter(inside) =~= Seq::empty());
        assert(list =~= seq![0u64] + ts@.take(0).filter(inside));
    }
    while i < ts.len()
        invariant
            i <= ts.len(),
            inside == (|t: u64| inner(t)),
            list == seq![0u64] + ts@.take(i as int).filter(inside),
            in_order(v@),
            v@.to_multiset() == list.to_multiset(),
        decreases ts.len() - i,
    {
        let t = ts[i];
        proof {
            assert(ts@.take(i + 1).drop_last() =~= ts@.take(i as int));
            reveal(Seq::filter);
        }
        if lt(0, t) && lt(t, ONE) {
            insert_sorted(&mut v, t);
            proof {
                list.to_multiset_ensures();
                list = list.push(t);
                assert(list =~= seq![0u64] + ts@.take(i + 1).filter(inside));
            }
        } else {
            assert(list =~= seq![0u64] + ts@.take(i + 1).filter(inside));
        }
        i += 1;
    }
    insert_sorted(&mut v, ONE);
    proof {
        assert(ts@.take(i as int) =~= ts@);
        list.to_multiset_ensures();
        assert(list.push(ONE) =~= cut_list(ts@));
    }
    v
}

/// The ordered places begin at 0 and end at 1, and the others lie strictly between.
pub proof fn law_cuts_span_segment(ts: Seq<u64>, r: Seq<u64>)
    requires
        cuts_of(ts, r),
    ensures
        r.len() >= 2,
        r[0] == 0,
        r[r.len() - 1] == ONE,
        forall|i: int| 0 < i < r.len() - 1 ==> inner(#[trigger] r[i]) && ts.contains(r[i]),
{
    let c = cut_list(ts);
    let f = ts.filter(|t: u64| inner(t));
    r.to_multiset_ensures();
    c.to_multiset_ensures();
    assert forall|i: int| 0 <= i < f.len() implies inner(#[trigger] f[i]) && ts.contains(f[i]) by {
        lemma_inner(ts, i);
    }
    assert forall|x: u64| #[trigger] c.contains(x) implies x == 0 || x == ONE || (inner(x)
        && f.contains(x)) by {
        let i = choose|i: int| 0 <= i < c.len() && c[i] == x;
        if 0 < i < c.len() - 1 {
            assert(f[i - 1] == x);
        }
    }
    assert(c[0] == 0 && c[c.len() - 1] == ONE);
    assert(c.contains(0) && c.contains(ONE));
    assert(r.to_multiset().count(0) > 0 && r.to_multiset().count(ONE) > 0);
    let j = choose|j: int| 0 <= j < r.len() && r[j] == 0;
    let k = choose|k: int| 0 <= k < r.len() && r[k] == ONE;
    let n = r.len() as int;
    assert(r.contains(r[0]) && r.contains(r[n - 1]));
    assert(r.to_multiset().count(r[0]) > 0 && r.to_multiset().count(r[n - 1]) > 0);
    assert(total_rank(r[0]) <= total_rank(r[j]));
    assert(total_rank(r[k]) <= total_rank(r[n - 1]));
    assert(r[0] == 0);
    assert(r[n - 1] == ONE);
    let r1 = r.remove(0);
    let c1 = c.remove(0);
    assert(r1.to_multiset() =~= c1.to_multiset());
    r1.to_multiset_ensures();
    c1.to_multiset_ensures();
    let r2 = r1.remove(n - 2);
    let c2 = c1.remove(c1.len() - 1);
    assert(r1[n - 2] == ONE && c1[c1.len() - 1] == ONE);
    assert(r2.to_multiset() =~= c2.to_multiset());
    r2.to_multiset_ensures();
    c2.to_multiset_ensures();
    assert(c2 =~= f);
    assert forall|i: int| 0 < i < n - 1 implies inner(#[trigger] r[i]) && ts.contains(r[i]) by {
        assert(r2[i - 1] == r[i]);
        assert(r2.contains(r[i]));
        assert(r2.to_multiset().count(r[i]) > 0);
        assert(f.contains(r[i]));
    }
}

proof fn lemma_inner(ts: Seq<u64>, i: int)
    requires
        0 <= i < ts.filter(|t: u64| inner(t)).len(),
    ensures
        inner(ts.filter(|t: u64| inner(t))[i]),
        ts.contains(ts.filter(|t: u64| inner(t))[i]),
    decreases ts.len(),
{
    reveal(Seq::filter);
    let d = ts.drop_last();
    let f = ts.filter(|t: u64| inner(t));
    let g = d.filter(|t: u64| inner(t));
    if i < g.len() {
        lemma_inner(d, i);
        let k = choose|k: int| 0 <= k < d.len() && d[k] == g[i];
        assert(ts[k] == f[i]);
    } else {
        assert(ts[ts.len() - 1] == f[i]);
    }
}

impl Grid {
    /// Whether the grid has cells, and no more than two bytes can number.
    pub open spec fn wf(&self) -> bool {
        &&& 1 <= self.nc
        &&& 1 <= self.nr
        &&& self.nc * self.nr <= 0x1_0000
    }

    /// The grid of a map.
    pub fn new(m: &MapCfg) -> (r: Grid)
        requires
            m.ncols * m.nrows <= 0x1_0000,
        ensures
            r.minx == m.origin.0,
            r.miny == m.origin.1,
            r.cell == m.cell_km,
            r.nc == m.ncols,
            r.nr == m.nrows,
    {
        Grid { minx: m.origin.0, miny: m.origin.1, cell: m.cell_km, nc: m.ncols, nr: m.nrows }
    }
}

/// The column or row that an index falls into, the outermost where it lies outside.
pub open spec fn clamped(i: int, n: int) -> int {
    if i < 0 {
        0
    } else if i > n - 1 {
        n - 1
    } else {
        i
    }
}

fn clamp_index(i: i64, n: usize) -> (r: u32)
    requires
        1 <= n <= 0x1_0000,
    ensures
        r == clamped(i as int, n as int),
        r < n,
{
    if i < 0 {
        0
    } else if i > n as i64 - 1 {
        (n - 1) as u32
    } else {
        i as u32
    }
}

/// The cell of a column and a row.
pub open spec fn cell_id(nc: int, c: int, r: int) -> int {
    c + nc * r
}

proof fn lemma_cell_id(nc: int, nr: int, c: int, r: int)
    requires
        0 <= c < nc,
        0 <= r < nr,
    ensures
        0 <= cell_id(nc, c, r) < nc * nr,
        nc * r <= nc * nr,
{
    assert(nc * r + nc == nc * (r + 1)) by (nonlinear_arith);
    assert(nc * (r + 1) <= nc * nr) by (nonlinear_arith)
        requires
            r + 1 <= nr,
            0 <= nc,
    ;
    assert(0 <= nc * r) by (nonlinear_arith)
        requires
            0 <= nc,
            0 <= r,
    ;
}

impl Grid {
    /// The cell that a column and a row index fall into.
    pub open spec fn cell_of(&self, col: int, row: int) -> int {
        cell_id(
            self.nc as int,
            clamped(col, self.nc as int),
            clamped(row, self.nr as int),
        )
    }

    /// The cell that a column and a row index fall into.
    pub fn cell(&self, col: i64, row: i64) -> (r: u32)
        requires
            self.wf(),
        ensures
            r == self.cell_of(col as int, row as int),
            r < self.nc * self.nr,
    {
        proof {
            lemma_sides(self.nc as int, self.nr as int);
        }
        let c = clamp_index(col, self.nc);
        let r = clamp_index(row, self.nr);
        proof {
            lemma_cell_id(self.nc as int, self.nr as int, c as int, r as int);
        }
        c + self.nc as u32 * r
    }
}

proof fn lemma_sides(nc: int, nr: int)
    requires
        1 <= nc,
        1 <= nr,
        nc * nr <= 0x1_0000,
    ensures
        nc <= 0x1_0000,
        nr <= 0x1_0000,
{
    assert(nc <= nc * nr) by (nonlinear_arith)
        requires
            1 <= nc,
            1 <= nr,
    ;
    assert(nr <= nc * nr) by (nonlinear_arith)
        requires
            1 <= nc,
            1 <= nr,
    ;
}

/// Whether a piece has an extent.
pub open spec fn has_extent(q: [u16; 4]) -> bool {
    q@[0] != q@[2] || q@[1] != q@[3]
}

/// The records of the pieces of a segment: one for each piece that is not too short and that
/// has an extent in its cell.
pub open spec fn emitted(
    g: Grid,
    places: Seq<Option<(i64, i64)>>,
    quants: Seq<[u16; 4]>,
    b0: u8,
    b1: u8,
) -> Seq<Rec>
    decreases places.len(),
{
    if places.len() == 0 {
        Seq::empty()
    } else {
        let rest = emitted(g, places.drop_last(), quants.drop_last(), b0, b1);
        match places.last() {
            Some((col, row)) => if has_extent(quants.last()) {
                rest.push(
                    Rec {
                        cell: g.cell_of(col as int, row as int) as u32,
                        q: quants.last(),
                        b0,
                        b1,
                    },
                )
            } else {
                rest
            },
            None => rest,
        }
    }
}

/// How segments are cut: where along a segment it meets the bounds of cells, the column and row
/// of the middle of a piece, none where the piece is too short, and the ends of a piece in the
/// coordinates of its cell. A piece is given by where along the segment it begins and ends.
pub struct Knife<T, P, Q> {
    pub cross: T,
    pub place: P,
    pub quant: Q,
}

impl<
    T: Fn(Point, Point) -> Vec<u64>,
    P: Fn(Point, Point, u64, u64) -> Option<(i64, i64)>,
    Q: Fn(Point, Point, u64, u64, u32, u32) -> [u16; 4],
> Knife<T, P, Q> {
    /// Whether all segments can be cut for a grid.
    pub open spec fn usable(&self, g: Grid) -> bool {
        &&& forall|a: Point, b: Point| #[trigger] call_requires(self.cross, (a, b))
        &&& forall|a: Point, b: Point, s: u64, t: u64| #[trigger]
            call_requires(self.place, (a, b, s, t))
        &&& forall|a: Point, b: Point, s: u64, t: u64, c: u32, r: u32|
            c < g.nc && r < g.nr ==> #[trigger] call_requires(self.quant, (a, b, s, t, c, r))
    }

    /// Whether these are places and ends of the pieces between neighbouring cuts.
    pub open spec fn pieces(
        &self,
        g: Grid,
        a: Point,
        b: Point,
        cs: Seq<u64>,
        places: Seq<Option<(i64, i64)>>,
        quants: Seq<[u16; 4]>,
    ) -> bool {
        &&& places.len() == cs.len() - 1
        &&& quants.len() == places.len()
        &&& forall|k: int|
            0 <= k < places.len() ==> call_ensures(
                self.place,
                (a, b, cs[k], cs[k + 1]),
                #[trigger] places[k],
            )
        &&& forall|k: int|
            0 <= k < quants.len() && places[k] is Some ==> call_ensures(
                self.quant,
                (
                    a,
                    b,
                    cs[k],
                    cs[k + 1],
                    clamped((places[k]->0).0 as int, g.nc as int) as u32,
                    clamped((places[k]->0).1 as int, g.nr as int) as u32,
                ),
                #[trigger] quants[k],
            )
    }

    /// Whether these are the records of a segment.
    pub open spec fn cut(
        &self,
        g: Grid,
        a: Point,
        b: Point,
        b0: u8,
        b1: u8,
        recs: Seq<Rec>,
    ) -> bool {
        exists|
            ts: Vec<u64>,
            cs: Seq<u64>,
            places: Seq<Option<(i64, i64)>>,
            quants: Seq<[u16; 4]>,
        |
            #![trigger call_ensures(self.cross, (a, b), ts), self.pieces(g, a, b, cs, places, quants)]
            call_ensures(self.cross, (a, b), ts) && cuts_of(ts@, cs) && self.pieces(
                g,
                a,
                b,
                cs,
                places,
                quants,
            ) && recs == emitted(g, places, quants, b0, b1)
    }

    /// Whether these are the records of the segments of a line, segment by segment.
    pub open spec fn cut_line(
        &self,
        g: Grid,
        ps: Seq<Point>,
        b0: u8,
        b1: u8,
        parts: Seq<Seq<Rec>>,
    ) -> bool {
        &&& parts.len() == if ps.len() == 0 {
            0
        } else {
            ps.len() - 1
        }
        &&& forall|k: int|
            0 <= k < parts.len() ==> self.cut(g, ps[k], ps[k + 1], b0, b1, #[trigger] parts[k])
    }
}

/// Records one part after the other.
pub open spec fn joined(parts: Seq<Seq<Rec>>) -> Seq<Rec>
    decreases parts.len(),
{
    if parts.len() == 0 {
        Seq::empty()
    } else {
        joined(parts.drop_last()) + parts.last()
    }
}

/// Whether records lie in the cells of a grid.
pub open spec fn on_grid(s: Seq<Rec>, g: Grid) -> bool {
    forall|i: int| 0 <= i < s.len() ==> (#[trigger] s[i]).cell < g.nc * g.nr
}

impl Grid {
    /// Cuts a segment at the bounds of cells and appends a record for each piece.
    pub fn clip<
        T: Fn(Point, Point) -> Vec<u64>,
        P: Fn(Point, Point, u64, u64) -> Option<(i64, i64)>,
        Q: Fn(Point, Point, u64, u64, u32, u32) -> [u16; 4],
    >(&self, a: Point, b: Point, knife: &Knife<T, P, Q>, b0: u8, b1: u8, out: &mut Vec<Rec>)
        requires
            self.wf(),
            knife.usable(*self),
            on_grid(old(out)@, *self),
        ensures
            exists|recs: Seq<Rec>| #[trigger]
                knife.cut(*self, a, b, b0, b1, recs) && final(out)@ == old(out)@ + recs,
            on_grid(final(out)@, *self),
    {
        let ghost before = out@;
        let ts = (knife.cross)(a, b);
        let cs = cuts(&ts);
        let ghost mut places: Seq<Option<(i64, i64)>> = Seq::empty();
        let ghost mut quants: Seq<[u16; 4]> = Seq::empty();
        let mut k: usize = 0;
        proof {
            law_cuts_span_segment(ts@, cs@);
            lemma_sides(self.nc as int, self.nr as int);
            assert(before + emitted(*self, places, quants, b0, b1) =~= before);
        }
        while k < cs.len() - 1
            invariant
                self.wf(),
                self.nc <= 0x1_0000,
                self.nr <= 0x1_0000,
                knife.usable(*self),
                cs.len() >= 2,
                k <= cs.len() - 1,
                places.len() == k,
                quants.len() == k,
                knife.pieces(*self, a, b, cs@.take(k + 1), places, quants),
                out@ == before + emitted(*self, places, quants, b0, b1),
                on_grid(out@, *self),
            decreases cs.len() - k,
        {
            let (t0, t1) = (cs[k], cs[k + 1]);
            let at = (knife.place)(a, b, t0, t1);
            let ghost was = (places, quants);
            let ghost mut ends: [u16; 4] = arbitrary();
            match at {
                Some((col, row)) => {
                    let c = clamp_index(col, self.nc);
                    let r = clamp_index(row, self.nr);
                    let q = (knife.quant)(a, b, t0, t1, c, r);
                    if q[0] != q[2] || q[1] != q[3] {
                        out.push(Rec { cell: self.cell(col, row), q, b0, b1 });
                    }
                    proof {
                        ends = q;
                    }
                },
                None => {},
            }
            proof {
                places = places.push(at);
                quants = quants.push(ends);
                assert(places.drop_last() =~= was.0);
                assert(quants.drop_last() =~= was.1);
                assert(out@ =~= before + emitted(*self, places, quants, b0, b1));
                let (p, q) = (cs@.take(k + 1), cs@.take(k + 2));
                assert forall|j: int| 0 <= j < places.len() implies call_ensures(
                    knife.place,
                    (a, b, q[j], q[j + 1]),
                    #[trigger] places[j],
                ) by {
                    if j < k {
                        assert(places[j] == was.0[j]);
                        assert(p[j] == q[j] && p[j + 1] == q[j + 1]);
                    }
                }
                assert forall|j: int| 0 <= j < quants.len() && places[j] is Some implies call_ensures(
                    knife.quant,
                    (
                        a,
                        b,
                        q[j],
                        q[j + 1],
                        clamped((places[j]->0).0 as int, self.nc as int) as u32,
                        clamped((places[j]->0).1 as int, self.nr as int) as u32,
                    ),
                    #[trigger] quants[j],
                ) by {
                    if j < k {
                        assert(places[j] == was.0[j]);
                        assert(quants[j] == was.1[j]);
                        assert(p[j] == q[j] && p[j + 1] == q[j + 1]);
                    }
                }
            }
            k += 1;
        }
        proof {
            assert(cs@.take(k + 1) =~= cs@);
            let recs = emitted(*self, places, quants, b0, b1);
            assert(knife.cut(*self, a, b, b0, b1, recs));
        }
    }

    /// Cuts the segments of a line and appends a record for each piece.
    pub fn clip_line<
        T: Fn(Point, Point) -> Vec<u64>,
        P: Fn(Point, Point, u64, u64) -> Option<(i64, i64)>,
        Q: Fn(Point, Point, u64, u64, u32, u32) -> [u16; 4],
    >(&self, ps: &Vec<Point>, knife: &Knife<T, P, Q>, b0: u8, b1: u8, out: &mut Vec<Rec>)
        requires
            self.wf(),
            knife.usable(*self),
            on_grid(old(out)@, *self),
        ensures
            exists|parts: Seq<Seq<Rec>>| #[trigger]
                knife.cut_line(*self, ps@, b0, b1, parts) && final(out)@ == old(out)@ + joined(
                    parts,
                ),
            on_grid(final(out)@, *self),
    {
        let ghost before = out@;
        let ghost mut parts: Seq<Seq<Rec>> = Seq::empty();
        assert(before + joined(parts) =~= before);
        let mut k: usize = 0;
        while k + 1 < ps.len()
            invariant
                self.wf(),
                knife.usable(*self),
                on_grid(out@, *self),
                k == parts.len(),
                k == 0 || k < ps.len(),
                out@ == before + joined(parts),
                forall|j: int|
                    0 <= j < parts.len() ==> knife.cut(
                        *self,
                        ps@[j],
                        ps@[j + 1],
                        b0,
                        b1,
                        #[trigger] parts[j],
                    ),
            decreases ps.len() - k,
        {
            let ghost now = out@;
            self.clip(ps[k], ps[k + 1], knife, b0, b1, out);
            proof {
                let recs = choose|recs: Seq<Rec>| #[trigger]
                    knife.cut(*self, ps@[k as int], ps@[k + 1], b0, b1, recs) && out@ == now + recs;
                let was = parts;
                parts = parts.push(recs);
                assert(parts.drop_last() =~= was);
                assert(out@ =~= before + joined(parts));
                assert forall|j: int| 0 <= j < parts.len() implies knife.cut(
                    *self,
                    ps@[j],
                    ps@[j + 1],
                    b0,
                    b1,
                    #[trigger] parts[j],
                ) by {
                    if j < k {
                        assert(parts[j] == was[j]);
                    }
                }
            }
            k += 1;
        }
        assert(knife.cut_line(*self, ps@, b0, b1, parts));
    }
}

/// The cell of a column and row on the grid counts row by row, and what lies beyond an edge
/// belongs to the outermost column or row there.
pub proof fn law_cells_count_row_by_row(g: Grid, col: int, row: int)
    requires
        g.wf(),
    ensures
        0 <= col < g.nc && 0 <= row < g.nr ==> g.cell_of(col, row) == row * g.nc + col,
        col < 0 ==> g.cell_of(col, row) == g.cell_of(0, row),
        col >= g.nc ==> g.cell_of(col, row) == g.cell_of(g.nc - 1, row),
        row < 0 ==> g.cell_of(col, row) == g.cell_of(col, 0),
        row >= g.nr ==> g.cell_of(col, row) == g.cell_of(col, g.nr - 1),
{
    assert(g.nc * row == row * g.nc) by (nonlinear_arith);
}

/// Whether a record is that of a piece: the middle of the piece falls into the record's cell, its
/// ends are the record's coordinates, and it has an extent.
pub open spec fn record_of(
    g: Grid,
    place: Option<(i64, i64)>,
    q: [u16; 4],
    b0: u8,
    b1: u8,
    r: Rec,
) -> bool {
    &&& place is Some
    &&& r.cell == g.cell_of((place->0).0 as int, (place->0).1 as int) as u32
    &&& r.q == q
    &&& r.b0 == b0
    &&& r.b1 == b1
    &&& q@[0] != q@[2] || q@[1] != q@[3]
}

/// Whether records are those of the pieces at some places, in order, and every other piece is too
/// short or has no extent.
pub open spec fn records_at(
    g: Grid,
    places: Seq<Option<(i64, i64)>>,
    quants: Seq<[u16; 4]>,
    b0: u8,
    b1: u8,
    at: Seq<int>,
    recs: Seq<Rec>,
) -> bool {
    &&& at.len() == recs.len()
    &&& forall|i: int|
        0 <= i < at.len() ==> 0 <= (#[trigger] at[i]) < places.len() && record_of(
            g,
            places[at[i]],
            quants[at[i]],
            b0,
            b1,
            recs[i],
        )
    &&& forall|i: int, j: int| 0 <= i < j < at.len() ==> (#[trigger] at[i]) < (#[trigger] at[j])
    &&& forall|k: int|
        0 <= k < places.len() && !at.contains(k) ==> (#[trigger] places[k]) is None || (quants[k]@[0]
            == quants[k]@[2] && quants[k]@[1] == quants[k]@[3])
}

/// A segment leaves one record for each of its pieces that is long enough and has an extent, in
/// order, and nothing else.
pub proof fn law_one_record_for_each_piece(
    g: Grid,
    places: Seq<Option<(i64, i64)>>,
    quants: Seq<[u16; 4]>,
    b0: u8,
    b1: u8,
)
    requires
        quants.len() == places.len(),
    ensures
        exists|at: Seq<int>|
            records_at(g, places, quants, b0, b1, at, emitted(g, places, quants, b0, b1)),
    decreases places.len(),
{
    let recs = emitted(g, places, quants, b0, b1);
    if places.len() == 0 {
        assert(records_at(g, places, quants, b0, b1, Seq::empty(), recs));
    } else {
        let n = places.len() - 1;
        let (p, q) = (places.drop_last(), quants.drop_last());
        law_one_record_for_each_piece(g, p, q, b0, b1);
        let was = emitted(g, p, q, b0, b1);
        let at = choose|at: Seq<int>| records_at(g, p, q, b0, b1, at, was);
        let now = if places.last() is Some && has_extent(quants.last()) {
            at.push(n)
        } else {
            at
        };
        assert(places[n] == places.last() && quants[n] == quants.last());
        assert forall|i: int| 0 <= i < now.len() implies 0 <= (#[trigger] now[i]) < places.len()
            && record_of(g, places[now[i]], quants[now[i]], b0, b1, recs[i]) by {
            if i < at.len() {
                assert(now[i] == at[i]);
                assert(places[at[i]] == p[at[i]] && quants[at[i]] == q[at[i]]);
                assert(recs[i] == was[i]);
            }
        }
        assert forall|i: int, j: int| 0 <= i < j < now.len() implies (#[trigger] now[i]) < (
        #[trigger] now[j]) by {
            assert(now[i] == at[i]);
            if j < at.len() {
                assert(now[j] == at[j]);
            }
        }
        assert forall|k: int| 0 <= k < places.len() && !now.contains(k) implies (
        #[trigger] places[k]) is None || (quants[k]@[0] == quants[k]@[2] && quants[k]@[1]
            == quants[k]@[3]) by {
            if k < n {
                assert(!at.contains(k)) by {
                    if at.contains(k) {
                        let i = choose|i: int| 0 <= i < at.len() && at[i] == k;
                        assert(now[i] == k);
                    }
                }
                assert(places[k] == p[k] && quants[k] == q[k]);
            } else if now.len() > at.len() {
                assert(now[at.len() as int] == n);
            }
        }
        assert(records_at(g, places, quants, b0, b1, now, recs));
    }
}

/// A cut that lies strictly between the ends of a segment is made.
pub proof fn law_every_inner_cut_is_made(ts: Seq<u64>, r: Seq<u64>, i: int)
    requires
        cuts_of(ts, r),
        0 <= i < ts.len(),
        less(0, ts[i]),
        less(ts[i], 0x3ff0_0000_0000_0000),
    ensures
        r.contains(ts[i]),
        r[0] == 0,
        r.last() == 0x3ff0_0000_0000_0000,
{
    law_cuts_span_segment(ts, r);
    let f = ts.filter(|t: u64| inner(t));
    lemma_filter_holds(ts, i);
    let j = choose|j: int| 0 <= j < f.len() && f[j] == ts[i];
    let c = cut_list(ts);
    assert(c[j + 1] == ts[i]);
    c.to_multiset_ensures();
    r.to_multiset_ensures();
    assert(c.contains(ts[i]));
    assert(r.to_multiset().count(ts[i]) > 0);
}

proof fn lemma_filter_holds(ts: Seq<u64>, i: int)
    requires
        0 <= i < ts.len(),
        inner(ts[i]),
    ensures
        ts.filter(|t: u64| inner(t)).contains(ts[i]),
    decreases ts.len(),
{
    reveal(Seq::filter);
    let d = ts.drop_last();
    let f = ts.filter(|t: u64| inner(t));
    let g = d.filter(|t: u64| inner(t));
    if i < d.len() {
        lemma_filter_holds(d, i);
        let j = choose|j: int| 0 <= j < g.len() && g[j] == d[i];
        assert(f[j] == g[j]);
    } else {
        assert(f[f.len() - 1] == ts[i]);
    }
}

/// Whether a record comes from the piece of a segment between two neighbouring cuts: the middle
/// of that piece lies in the record's column and row, and the record's coordinates are its ends
/// there.
pub open spec fn from_piece<
    T: Fn(Point, Point) -> Vec<u64>,
    P: Fn(Point, Point, u64, u64) -> Option<(i64, i64)>,
    Q: Fn(Point, Point, u64, u64, u32, u32) -> [u16; 4],
>(knife: Knife<T, P, Q>, g: Grid, a: Point, b: Point, s: u64, t: u64, r: Rec) -> bool {
    exists|col: i64, row: i64|
        #![trigger call_ensures(knife.place, (a, b, s, t), Some((col, row)))]
        call_ensures(knife.place, (a, b, s, t), Some((col, row))) && call_ensures(
            knife.quant,
            (
                a,
                b,
                s,
                t,
                clamped(col as int, g.nc as int) as u32,
                clamped(row as int, g.nr as int) as u32,
            ),
            r.q,
        ) && r.cell == g.cell_of(col as int, row as int) as u32
}

/// Every record of a segment comes from a piece between two neighbouring cuts, which run from
/// the segment's begin to its end, and carries the two bytes of the segment.
pub proof fn law_records_come_from_pieces<
    T: Fn(Point, Point) -> Vec<u64>,
    P: Fn(Point, Point, u64, u64) -> Option<(i64, i64)>,
    Q: Fn(Point, Point, u64, u64, u32, u32) -> [u16; 4],
>(knife: Knife<T, P, Q>, g: Grid, a: Point, b: Point, b0: u8, b1: u8, recs: Seq<Rec>)
    requires
        knife.cut(g, a, b, b0, b1, recs),
    ensures
        exists|ts: Vec<u64>, cs: Seq<u64>|
            #![trigger call_ensures(knife.cross, (a, b), ts), cuts_of(ts@, cs)]
            call_ensures(knife.cross, (a, b), ts) && cuts_of(ts@, cs) && forall|i: int|
                0 <= i < recs.len() ==> (#[trigger] recs[i]).b0 == b0 && recs[i].b1 == b1
                    && exists|k: int|
                    0 <= k < cs.len() - 1 && from_piece(
                        knife,
                        g,
                        a,
                        b,
                        #[trigger] cs[k],
                        cs[k + 1],
                        recs[i],
                    ),
{
    let (ts, cs, places, quants) = choose|
        ts: Vec<u64>,
        cs: Seq<u64>,
        places: Seq<Option<(i64, i64)>>,
        quants: Seq<[u16; 4]>,
    |
        #![trigger call_ensures(knife.cross, (a, b), ts), knife.pieces(g, a, b, cs, places, quants)]
        call_ensures(knife.cross, (a, b), ts) && cuts_of(ts@, cs) && knife.pieces(
            g,
            a,
            b,
            cs,
            places,
            quants,
        ) && recs == emitted(g, places, quants, b0, b1);
    law_one_record_for_each_piece(g, places, quants, b0, b1);
    let at = choose|at: Seq<int>| records_at(g, places, quants, b0, b1, at, recs);
    assert forall|i: int| 0 <= i < recs.len() implies (#[trigger] recs[i]).b0 == b0 && recs[i].b1
        == b1 && exists|k: int|
        0 <= k < cs.len() - 1 && from_piece(knife, g, a, b, #[trigger] cs[k], cs[k + 1], recs[i]) by {
        let k = at[i];
        let (col, row) = places[k]->0;
        assert(places[k] == Some((col, row)));
        assert(call_ensures(knife.place, (a, b, cs[k], cs[k + 1]), places[k]));
        assert(call_ensures(
            knife.quant,
            (
                a,
                b,
                cs[k],
                cs[k + 1],
                clamped(col as int, g.nc as int) as u32,
                clamped(row as int, g.nr as int) as u32,
            ),
            quants[k],
        ));
        assert(from_piece(knife, g, a, b, cs[k], cs[k + 1], recs[i]));
    }
}

/// The records of parts are those of each part, in order.
pub proof fn law_parts_joined_in_order(parts: Seq<Seq<Rec>>, more: Seq<Rec>)
    ensures
        joined(Seq::empty()) == Seq::<Rec>::empty(),
        joined(parts.push(more)) == joined(parts) + more,
{
    assert(parts.push(more).drop_last() =~= parts);
}

/// The places at which a segment is cut come in order along it.
pub proof fn law_cuts_come_in_order(ts: Seq<u64>, r: Seq<u64>, i: int, j: int)
    requires
        cuts_of(ts, r),
        0 <= i < j < r.len(),
    ensures
        !less(r[j], r[i]),
{
    assert(total_rank(r[i]) <= total_rank(r[j]));
}

/// A column or row beyond the grid stands for the outermost there, and any other for itself.
pub proof fn law_outermost_stand_for_beyond(i: int, n: int)
    requires
        0 < n,
    ensures
        i < 0 ==> clamped(i, n) == 0,
        0 <= i < n ==> clamped(i, n) == i,
        i >= n ==> clamped(i, n) == n - 1,
{
}

/// A line is cut segment by segment, each from one of its points to the next, and a line of
/// fewer than two points has no segment.
pub proof fn law_lines_are_cut_by_segment<
    T: Fn(Point, Point) -> Vec<u64>,
    P: Fn(Point, Point, u64, u64) -> Option<(i64, i64)>,
    Q: Fn(Point, Point, u64, u64, u32, u32) -> [u16; 4],
>(knife: Knife<T, P, Q>, g: Grid, ps: Seq<Point>, b0: u8, b1: u8, parts: Seq<Seq<Rec>>, k: int)
    requires
        knife.cut_line(g, ps, b0, b1, parts),
    ensures
        ps.len() < 2 ==> parts.len() == 0,
        ps.len() >= 2 ==> parts.len() == ps.len() - 1,
        0 <= k < ps.len() - 1 ==> knife.cut(g, ps[k], ps[k + 1], b0, b1, parts[k]),
{
}

/// Records that lie on a grid are those of its cells, which are as many as it has columns and
/// rows.
pub proof fn law_records_lie_in_cells(s: Seq<Rec>, r: Rec, g: Grid)
    ensures
        on_grid(s.push(r), g) <==> on_grid(s, g) && r.cell < g.nc * g.nr,
        on_grid(Seq::empty(), g),
{
    let t = s.push(r);
    if on_grid(t, g) {
        assert forall|i: int| 0 <= i < s.len() implies (#[trigger] s[i]).cell < g.nc * g.nr by {
            assert(t[i] == s[i]);
        }
        assert(t[s.len() as int] == r);
    }
}

} // verus!
