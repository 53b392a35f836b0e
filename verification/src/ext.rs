//! Networks of other operators, read from tables of text.
use vstd::prelude::*;
use vstd::string::*;
use vstd::utf8::*;
use crate::bucket::{geom_of, lines_geom, Row, RowView};
use crate::geom::{contents, GeomView, Vertex};
use crate::number::{byte_prefix, eq, equal, first_bytes, float_text, integer, integer_within, is_float, law_ascii_prefix, less, lt, parse_integer, total_rank, total_rank_of};
use crate::order::{is_order, law_order_puts_smaller_first, order_of};
use crate::records::{marker, marker_bytes};
use crate::text::{bytes_lt, is_trimmed, law_first_piece, law_strips_all_behind, law_trimmed, lines, lines_of, pieces, replace, replaced, same, split, strip_end, tokens, tokens_of, trim, trim_end, trimmed, Class};

verus! {

/// The tables of pipes and of sites.
pub struct ExtCfg {
    pub pipes: Vec<String>,
    pub sites: Option<String>,
}

/// The point that a text gives: its first two words, if they are numbers.
pub open spec fn point_of(p: Seq<char>) -> Option<(Seq<char>, Seq<char>)> {
    let t = tokens(p, Class::AsciiSpace);
    if t.len() >= 2 && is_float(t[0]) && is_float(t[1]) {
        Some((t[0], t[1]))
    } else {
        None
    }
}

/// The points that texts give; a text that gives none is passed over.
pub open spec fn points_of(ps: Seq<Seq<char>>) -> Seq<(Seq<char>, Seq<char>)>
    decreases ps.len(),
{
    if ps.len() == 0 {
        Seq::empty()
    } else {
        let r = points_of(ps.drop_last());
        match point_of(ps.last()) {
            Some(p) => r.push(p),
            None => r,
        }
    }
}

/// The points of a group: those between commas up to its closing bracket.
pub open spec fn ring_of(g: Seq<char>) -> Seq<(Seq<char>, Seq<char>)> {
    points_of(pieces(pieces(g, Class::Is(')'))[0], Class::Is(',')))
}

/// The groups of two points or more.
pub open spec fn rings_in(gs: Seq<Seq<char>>) -> Seq<Seq<(Seq<char>, Seq<char>)>>
    decreases gs.len(),
{
    if gs.len() == 0 {
        Seq::empty()
    } else {
        let r = rings_in(gs.drop_last());
        let g = ring_of(gs.last());
        if g.len() >= 2 {
            r.push(g)
        } else {
            r
        }
    }
}

/// Every list of coordinates in a well-known text, lines and polygon rings alike: what
/// follows each opening bracket.
pub open spec fn rings_of(w: Seq<char>) -> Seq<Seq<(Seq<char>, Seq<char>)>> {
    rings_in(pieces(w, Class::Is('(')))
}

proof fn lemma_pieces_some(s: Seq<char>, sep: Class)
    ensures
        pieces(s, sep).len() >= 1,
    decreases s.len(),
{
    if s.len() > 0 {
        lemma_pieces_some(s.drop_last(), sep);
    }
}

fn read_point(p: &str) -> (r: Option<(String, String)>)
    ensures
        r.deep_view() == point_of(p@),
{
    let t = tokens_of(p, Class::AsciiSpace);
    if t.len() < 2 {
        return None;
    }
    assert(t.deep_view()[0] == t@[0]@ && t.deep_view()[1] == t@[1]@);
    if float_text(t[0].as_str()) && float_text(t[1].as_str()) {
        Some((t[0].clone(), t[1].clone()))
    } else {
        None
    }
}

fn read_ring(g: &str) -> (r: Vec<(String, String)>)
    ensures
        r.deep_view() == ring_of(g@),
{
    proof {
        lemma_pieces_some(g@, Class::Is(')'));
    }
    let parts = split(g, Class::Is(')'));
    assert(parts.deep_view()[0] == parts@[0]@);
    let ps = split(parts[0].as_str(), Class::Is(','));
    let ghost pv = ps.deep_view();
    let mut out: Vec<(String, String)> = Vec::new();
    let mut i: usize = 0;
    assert(out.deep_view() =~= points_of(pv.take(0)));
    while i < ps.len()
        invariant
            i <= ps.len(),
            pv == ps.deep_view(),
            out.deep_view() == points_of(pv.take(i as int)),
        decreases ps.len() - i,
    {
        assert(pv.take(i + 1).drop_last() =~= pv.take(i as int));
        assert(pv.take(i + 1).last() == ps@[i as int]@);
        let ghost before = out.deep_view();
        match read_point(ps[i].as_str()) {
            Some(p) => {
                let ghost v = p.deep_view();
                out.push(p);
                assert(out.deep_view() =~= before.push(v));
            },
            None => {},
        }
        i += 1;
    }
    assert(pv.take(i as int) =~= pv);
    out
}

/// Reads every list of coordinates in a well-known text, as texts of numbers.
pub fn rings(w: &str) -> (r: Vec<Vec<(String, String)>>)
    ensures
        r.deep_view() == rings_of(w@),
{
    let gs = split(w, Class::Is('('));
    let ghost gv = gs.deep_view();
    let mut out: Vec<Vec<(String, String)>> = Vec::new();
    let mut i: usize = 0;
    assert(out.deep_view() =~= rings_in(gv.take(0)));
    while i < gs.len()
        invariant
            i <= gs.len(),
            gv == gs.deep_view(),
            out.deep_view() == rings_in(gv.take(i as int)),
        decreases gs.len() - i,
    {
        assert(gv.take(i + 1).drop_last() =~= gv.take(i as int));
        assert(gv.take(i + 1).last() == gs@[i as int]@);
        let g = read_ring(gs[i].as_str());
        let ghost before = out.deep_view();
        let ghost v = g.deep_view();
        assert(v.len() == g.len());
        if g.len() >= 2 {
            out.push(g);
            assert(out.deep_view() =~= before.push(v));
        }
        i += 1;
    }
    assert(gv.take(i as int) =~= gv);
    out
}

/// A ring without the last vertex where that repeats the first.
pub open spec fn opened(r: Seq<(u64, u64)>) -> Seq<(u64, u64)> {
    if r.len() > 1 && equal(r[0].0, r.last().0) && equal(r[0].1, r.last().1) {
        r.drop_last()
    } else {
        r
    }
}

/// Takes the last vertex off a ring where it repeats the first.
pub fn open_ring(mut r: Vec<(u64, u64)>) -> (o: Vec<(u64, u64)>)
    ensures
        o@ == opened(r@),
{
    let ghost before = r@;
    let n = r.len();
    if n > 1 && eq(r[0].0, r[n - 1].0) && eq(r[0].1, r[n - 1].1) {
        let _ = r.pop();
        assert(r@ =~= before.drop_last());
    }
    r
}

/// A vertex of a ring and its partner on the opposite wall: the ring and the place of each.
pub type Pair = (usize, usize, usize, usize);

/// The bits of the numbers 90, 120 and 400: how far along its own wall a vertex does not look
/// for a partner, how far a partner may lie, and how far the axis may leap, in metres.
pub const SAME_WALL: u64 = 0x4056_8000_0000_0000;

pub const ACROSS: u64 = 0x405e_0000_0000_0000;

pub const LEAP: u64 = 0x4079_0000_0000_0000;

/// A possible partner: its ring, its place and its distance; none where it lies too near on
/// the same wall.
pub type Cand = (int, int, Option<u64>);

/// The nearest of the possible partners, the first among equally near ones, if it lies within
/// reach.
pub open spec fn nearest(cs: Seq<Cand>) -> Option<(int, int, u64)>
    decreases cs.len(),
{
    if cs.len() == 0 {
        None
    } else {
        let best = nearest(cs.drop_last());
        let reach = match best {
            Some(b) => b.2,
            None => ACROSS,
        };
        match cs.last().2 {
            Some(d) => if less(d, reach) {
                Some((cs.last().0, cs.last().1, d))
            } else {
                best
            },
            None => best,
        }
    }
}

/// How many possible partners the rings before one have.
pub open spec fn before(lens: Seq<usize>, q: int) -> int
    decreases q,
{
    if q <= 0 {
        0
    } else {
        before(lens, q - 1) + lens[q - 1]
    }
}

/// Whether a possible partner is described by what `dist` and `arc` say of it.
pub open spec fn described<
    D: Fn(usize, usize, usize, usize) -> u64,
    A: Fn(usize, usize, usize) -> u64,
>(dist: D, arc: A, ri: int, i: int, c: Cand) -> bool {
    let (q, j) = (c.0, c.1);
    match c.2 {
        None => q == ri && exists|a: u64| #[trigger]
            call_ensures(arc, (ri as usize, i as usize, j as usize), a) && less(a, SAME_WALL),
        Some(d) => {
            &&& call_ensures(dist, (ri as usize, i as usize, q as usize, j as usize), d)
            &&& q == ri ==> exists|a: u64| #[trigger]
                call_ensures(arc, (ri as usize, i as usize, j as usize), a) && !less(a, SAME_WALL)
        },
    }
}

/// Whether these are all vertices of the first `q` rings, and of the next the first `j`, in
/// order, as possible partners of a vertex.
pub open spec fn surveyed<
    D: Fn(usize, usize, usize, usize) -> u64,
    A: Fn(usize, usize, usize) -> u64,
>(
    lens: Seq<usize>,
    dist: D,
    arc: A,
    ri: int,
    i: int,
    q: int,
    j: int,
    cs: Seq<Cand>,
) -> bool {
    &&& cs.len() == before(lens, q) + j
    &&& forall|p: int, k: int|
        #![trigger cs[before(lens, p) + k]]
        0 <= p < lens.len() && 0 <= k < lens[p] && before(lens, p) + k < cs.len() ==> {
            let c = cs[before(lens, p) + k];
            &&& c.0 == p
            &&& c.1 == k
            &&& described(dist, arc, ri, i, c)
        }
}

/// The partner of a vertex that the axis is traced by: the nearest, provided that it comes
/// after the vertex.
pub open spec fn traced(ri: int, i: int, cs: Seq<Cand>) -> Option<Pair> {
    match nearest(cs) {
        Some((q, j, d)) => if ri < q || (ri == q && i < j) {
            Some((ri as usize, i as usize, q as usize, j as usize))
        } else {
            None
        },
        None => None,
    }
}

/// Whether a vertex has this partner.
pub open spec fn partnered<
    D: Fn(usize, usize, usize, usize) -> u64,
    A: Fn(usize, usize, usize) -> u64,
>(lens: Seq<usize>, dist: D, arc: A, ri: int, i: int, pick: Option<Pair>) -> bool {
    exists|cs: Seq<Cand>| #[trigger]
        surveyed(lens, dist, arc, ri, i, lens.len() as int, 0, cs) && pick == traced(ri, i, cs)
}

proof fn lemma_before(lens: Seq<usize>, p: int, q: int)
    requires
        0 <= p < q <= lens.len(),
    ensures
        before(lens, p) + lens[p] <= before(lens, q),
    decreases q,
{
    if p < q - 1 {
        lemma_before(lens, p, q - 1);
    }
}

proof fn lemma_surveyed<
    D: Fn(usize, usize, usize, usize) -> u64,
    A: Fn(usize, usize, usize) -> u64,
>(
    lens: Seq<usize>,
    dist: D,
    arc: A,
    ri: int,
    i: int,
    q: int,
    j: int,
    cs: Seq<Cand>,
    c: Cand,
)
    requires
        0 <= q < lens.len(),
        0 <= j < lens[q],
        surveyed(lens, dist, arc, ri, i, q, j, cs),
        c.0 == q,
        c.1 == j,
        described(dist, arc, ri, i, c),
    ensures
        surveyed(lens, dist, arc, ri, i, q, j + 1, cs.push(c)),
{
    let ds = cs.push(c);
    assert forall|p: int, k: int|
        #![trigger ds[before(lens, p) + k]]
        0 <= p < lens.len() && 0 <= k < lens[p] && before(lens, p) + k < ds.len() implies {
        let x = ds[before(lens, p) + k];
        &&& x.0 == p
        &&& x.1 == k
        &&& described(dist, arc, ri, i, x)
    } by {
        if p < q {
            lemma_before(lens, p, q);
        } else if p > q {
            lemma_before(lens, q, p);
        }
        if before(lens, p) + k < cs.len() {
            assert(0 <= before(lens, p)) by {
                lemma_before_positive(lens, p);
            }
            assert(ds[before(lens, p) + k] == cs[before(lens, p) + k]);
        }
    }
}

proof fn lemma_before_positive(lens: Seq<usize>, p: int)
    ensures
        0 <= before(lens, p),
    decreases p,
{
    if p > 0 {
        lemma_before_positive(lens, p - 1);
    }
}

/// Finds the partner of a vertex.
fn partner<D: Fn(usize, usize, usize, usize) -> u64, A: Fn(usize, usize, usize) -> u64>(
    lens: &Vec<usize>,
    dist: &D,
    arc: &A,
    ri: usize,
    i: usize,
) -> (r: Option<Pair>)
    requires
        ri < lens.len(),
        i < lens@[ri as int],
        forall|a: usize, b: usize, c: usize, d: usize|
            a < lens.len() && b < lens@[a as int] && c < lens.len() && d < lens@[c as int]
                ==> #[trigger] call_requires(*dist, (a, b, c, d)),
        forall|a: usize, b: usize, c: usize|
            a < lens.len() && b < lens@[a as int] && c < lens@[a as int]
                ==> #[trigger] call_requires(*arc, (a, b, c)),
    ensures
        partnered(lens@, *dist, *arc, ri as int, i as int, r),
{
    let mut best: Option<(usize, usize, u64)> = None;
    let ghost mut cs: Seq<Cand> = Seq::empty();
    let mut q: usize = 0;
    assert forall|p: int| 0 <= #[trigger] before(lens@, p) by {
        lemma_before_positive(lens@, p);
    }
    while q < lens.len()
        invariant
            q <= lens.len(),
            ri < lens.len(),
            i < lens@[ri as int],
            forall|a: usize, b: usize, c: usize, d: usize|
                a < lens.len() && b < lens@[a as int] && c < lens.len() && d < lens@[c as int]
                    ==> #[trigger] call_requires(*dist, (a, b, c, d)),
            forall|a: usize, b: usize, c: usize|
                a < lens.len() && b < lens@[a as int] && c < lens@[a as int]
                    ==> #[trigger] call_requires(*arc, (a, b, c)),
            surveyed(lens@, *dist, *arc, ri as int, i as int, q as int, 0, cs),
            nearest(cs) == (match best {
                Some(b) => Some((b.0 as int, b.1 as int, b.2)),
                None => None,
            }),
        decreases lens.len() - q,
    {
        let n = lens[q];
        let mut j: usize = 0;
        while j < n
            invariant
                q < lens.len(),
                ri < lens.len(),
                i < lens@[ri as int],
                j <= n == lens@[q as int],
                forall|a: usize, b: usize, c: usize, d: usize|
                    a < lens.len() && b < lens@[a as int] && c < lens.len() && d < lens@[c as int]
                        ==> #[trigger] call_requires(*dist, (a, b, c, d)),
                forall|a: usize, b: usize, c: usize|
                    a < lens.len() && b < lens@[a as int] && c < lens@[a as int]
                        ==> #[trigger] call_requires(*arc, (a, b, c)),
                surveyed(lens@, *dist, *arc, ri as int, i as int, q as int, j as int, cs),
                nearest(cs) == (match best {
                    Some(b) => Some((b.0 as int, b.1 as int, b.2)),
                    None => None,
                }),
            decreases n - j,
        {
            let ghost was = cs;
            let ghost mut along: u64 = 0;
            let near = if q == ri {
                let a = (*arc)(ri, i, j);
                proof {
                    along = a;
                }
                lt(a, SAME_WALL)
            } else {
                false
            };
            assert(q == ri ==> call_ensures(
                *arc,
                ((ri as int) as usize, (i as int) as usize, (j as int) as usize),
                along,
            ) && near == less(along, SAME_WALL));
            if near {
                proof {
                    let c: Cand = (q as int, j as int, None);
                    lemma_surveyed(
                        lens@,
                        *dist,
                        *arc,
                        ri as int,
                        i as int,
                        q as int,
                        j as int,
                        cs,
                        c,
                    );
                    cs = cs.push(c);
                    assert(cs.drop_last() =~= was);
                }
            } else {
                let d = (*dist)(ri, i, q, j);
                proof {
                    let c: Cand = (q as int, j as int, Some(d));
                    lemma_surveyed(
                        lens@,
                        *dist,
                        *arc,
                        ri as int,
                        i as int,
                        q as int,
                        j as int,
                        cs,
                        c,
                    );
                    cs = cs.push(c);
                    assert(cs.drop_last() =~= was);
                }
                let reach = match best {
                    Some(b) => b.2,
                    None => ACROSS,
                };
                if lt(d, reach) {
                    best = Some((q, j, d));
                }
            }
            j += 1;
        }
        q += 1;
        assert(before(lens@, q as int) == before(lens@, q - 1) + lens@[q - 1]);
    }
    match best {
        Some((q, j, _)) => {
            if ri < q || (ri == q && i < j) {
                Some((ri, i, q, j))
            } else {
                None
            }
        },
        None => None,
    }
}

/// Lines with one more, provided that it has two points or more.
pub open spec fn with_line(lines: Seq<Seq<Pair>>, line: Seq<Pair>) -> Seq<Seq<Pair>> {
    if line.len() > 1 {
        lines.push(line)
    } else {
        lines
    }
}

/// The finished lines and the line that is being traced after the vertices of a ring with the
/// given partners; a line also ends where the axis leaps.
pub open spec fn tracing(picks: Seq<Option<Pair>>, leaps: Seq<bool>) -> (Seq<Seq<Pair>>, Seq<Pair>)
    decreases picks.len(),
{
    if picks.len() == 0 {
        (Seq::empty(), Seq::empty())
    } else {
        let (lines, line) = tracing(picks.drop_last(), leaps.drop_last());
        match picks.last() {
            None => (with_line(lines, line), Seq::empty()),
            Some(p) => if line.len() > 0 && leaps.last() {
                (with_line(lines, line), seq![p])
            } else {
                (lines, line.push(p))
            },
        }
    }
}

/// The lines that the vertices of a ring trace.
pub open spec fn ring_lines(picks: Seq<Option<Pair>>, leaps: Seq<bool>) -> Seq<Seq<Pair>> {
    let (lines, line) = tracing(picks, leaps);
    with_line(lines, line)
}

/// Whether the axis leaps where `gap`, the distance between two of its points, says so.
pub open spec fn leap_seen<G: Fn(Pair, Pair) -> u64>(
    gap: G,
    picks: Seq<Option<Pair>>,
    leaps: Seq<bool>,
    k: int,
) -> bool {
    let line = tracing(picks.take(k), leaps.take(k)).1;
    picks[k] matches Some(p) ==> line.len() > 0 ==> exists|g: u64| #[trigger]
        call_ensures(gap, (line.last(), p), g) && leaps[k] == less(LEAP, g)
}

/// Whether these are the partners of a ring's vertices and the leaps between their points.
pub open spec fn walked_ring<
    D: Fn(usize, usize, usize, usize) -> u64,
    A: Fn(usize, usize, usize) -> u64,
    G: Fn(Pair, Pair) -> u64,
>(
    lens: Seq<usize>,
    dist: D,
    arc: A,
    gap: G,
    ri: int,
    picks: Seq<Option<Pair>>,
    leaps: Seq<bool>,
) -> bool {
    &&& leaps.len() == picks.len()
    &&& forall|k: int|
        0 <= k < picks.len() ==> partnered(lens, dist, arc, ri, k, #[trigger] picks[k])
    &&& forall|k: int| 0 <= k < picks.len() ==> #[trigger] leap_seen(gap, picks, leaps, k)
}

/// Whether these are the lines that the vertices of a ring trace.
pub open spec fn ring_traced<
    D: Fn(usize, usize, usize, usize) -> u64,
    A: Fn(usize, usize, usize) -> u64,
    G: Fn(Pair, Pair) -> u64,
>(lens: Seq<usize>, dist: D, arc: A, gap: G, ri: int, lines: Seq<Seq<Pair>>) -> bool {
    exists|picks: Seq<Option<Pair>>, leaps: Seq<bool>| #[trigger]
        walked_ring(lens, dist, arc, gap, ri, picks, leaps) && picks.len() == lens[ri] && lines
            == ring_lines(picks, leaps)
}

/// The lines of several rings, one ring after the other.
pub open spec fn chained(ls: Seq<Seq<Seq<Pair>>>) -> Seq<Seq<Pair>>
    decreases ls.len(),
{
    if ls.len() == 0 {
        Seq::empty()
    } else {
        chained(ls.drop_last()) + ls.last()
    }
}

/// Whether these are the lines along the axis of a corridor with the given rings.
pub open spec fn axis_of<
    D: Fn(usize, usize, usize, usize) -> u64,
    A: Fn(usize, usize, usize) -> u64,
    G: Fn(Pair, Pair) -> u64,
>(lens: Seq<usize>, dist: D, arc: A, gap: G, r: Seq<Seq<Pair>>) -> bool {
    exists|ls: Seq<Seq<Seq<Pair>>>| #[trigger]
        rings_traced(lens, dist, arc, gap, ls) && ls.len() == lens.len() && r == chained(ls)
}

/// Whether these are the lines that each of the first rings traces.
pub open spec fn rings_traced<
    D: Fn(usize, usize, usize, usize) -> u64,
    A: Fn(usize, usize, usize) -> u64,
    G: Fn(Pair, Pair) -> u64,
>(lens: Seq<usize>, dist: D, arc: A, gap: G, ls: Seq<Seq<Seq<Pair>>>) -> bool {
    forall|ri: int| 0 <= ri < ls.len() ==> ring_traced(lens, dist, arc, gap, ri, #[trigger] ls[ri])
}

fn finish(lines: &mut Vec<Vec<Pair>>, line: Vec<Pair>)
    ensures
        final(lines).deep_view() == with_line(old(lines).deep_view(), line@),
{
    let ghost before = lines.deep_view();
    if line.len() > 1 {
        assert(line.deep_view() =~= line@);
        lines.push(line);
        assert(lines.deep_view() =~= before.push(line@));
    }
}

#[verifier::rlimit(40)]
fn trace_ring<
    D: Fn(usize, usize, usize, usize) -> u64,
    A: Fn(usize, usize, usize) -> u64,
    G: Fn(Pair, Pair) -> u64,
>(lens: &Vec<usize>, dist: &D, arc: &A, gap: &G, ri: usize) -> (r: Vec<Vec<Pair>>)
    requires
        ri < lens.len(),
        forall|a: usize, b: usize, c: usize, d: usize|
            a < lens.len() && b < lens@[a as int] && c < lens.len() && d < lens@[c as int]
                ==> #[trigger] call_requires(*dist, (a, b, c, d)),
        forall|a: usize, b: usize, c: usize|
            a < lens.len() && b < lens@[a as int] && c < lens@[a as int]
                ==> #[trigger] call_requires(*arc, (a, b, c)),
        forall|p: Pair, q: Pair| #[trigger] call_requires(*gap, (p, q)),
    ensures
        ring_traced(lens@, *dist, *arc, *gap, ri as int, r.deep_view()),
{
    let n = lens[ri];
    let mut lines: Vec<Vec<Pair>> = Vec::new();
    let mut line: Vec<Pair> = Vec::new();
    let ghost mut picks: Seq<Option<Pair>> = Seq::empty();
    let ghost mut leaps: Seq<bool> = Seq::empty();
    let mut i: usize = 0;
    assert(lines.deep_view() =~= Seq::empty());
    while i < n
        invariant
            ri < lens.len(),
            i <= n == lens@[ri as int],
            forall|a: usize, b: usize, c: usize, d: usize|
                a < lens.len() && b < lens@[a as int] && c < lens.len() && d < lens@[c as int]
                    ==> #[trigger] call_requires(*dist, (a, b, c, d)),
            forall|a: usize, b: usize, c: usize|
                a < lens.len() && b < lens@[a as int] && c < lens@[a as int]
                    ==> #[trigger] call_requires(*arc, (a, b, c)),
            forall|p: Pair, q: Pair| #[trigger] call_requires(*gap, (p, q)),
            picks.len() == i,
            walked_ring(lens@, *dist, *arc, *gap, ri as int, picks, leaps),
            (lines.deep_view(), line@) == tracing(picks, leaps),
        decreases n - i,
    {
        let pick = partner(lens, dist, arc, ri, i);
        let ghost was = (picks, leaps);
        let ghost mut leap = false;
        match pick {
            None => {
                finish(&mut lines, line);
                line = Vec::new();
                assert(line@ =~= Seq::empty());
            },
            Some(p) => {
                let ghost mut seen: u64 = 0;
                if line.len() > 0 {
                    let g = (*gap)(line[line.len() - 1], p);
                    proof {
                        seen = g;
                        leap = less(LEAP, g);
                        assert(call_ensures(*gap, (tracing(picks, leaps).1.last(), p), g));
                    }
                    if lt(LEAP, g) {
                        finish(&mut lines, line);
                        line = Vec::new();
                    }
                }
                let ghost now = line@;
                line.push(p);
                assert(now.len() == 0 ==> line@ =~= seq![p]);
            },
        }
        proof {
            picks = picks.push(pick);
            leaps = leaps.push(leap);
            assert(picks.drop_last() =~= was.0);
            assert(leaps.drop_last() =~= was.1);
            assert forall|k: int| 0 <= k < picks.len() implies #[trigger] leap_seen(
                *gap,
                picks,
                leaps,
                k,
            ) by {
                assert(picks.take(k) =~= was.0.take(k));
                assert(leaps.take(k) =~= was.1.take(k));
                if k < i {
                    assert(leap_seen(*gap, was.0, was.1, k));
                } else {
                    assert(was.0.take(k) =~= was.0);
                    assert(was.1.take(k) =~= was.1);
                }
            }
            assert forall|k: int| 0 <= k < picks.len() implies partnered(
                lens@,
                *dist,
                *arc,
                ri as int,
                k,
                #[trigger] picks[k],
            ) by {
                if k < i {
                    assert(picks[k] == was.0[k]);
                }
            }
        }
        i += 1;
    }
    finish(&mut lines, line);
    lines
}

/// Collapses a corridor of constant width to the lines along its axis. `lens` are the numbers
/// of vertices of its rings; `dist` gives the distance between two vertices, `arc` that along
/// a ring, and `gap` that between the middles of two pairs.
pub fn centreline<
    D: Fn(usize, usize, usize, usize) -> u64,
    A: Fn(usize, usize, usize) -> u64,
    G: Fn(Pair, Pair) -> u64,
>(lens: &Vec<usize>, dist: D, arc: A, gap: G) -> (r: Vec<Vec<Pair>>)
    requires
        forall|a: usize, b: usize, c: usize, d: usize|
            a < lens.len() && b < lens@[a as int] && c < lens.len() && d < lens@[c as int]
                ==> #[trigger] call_requires(dist, (a, b, c, d)),
        forall|a: usize, b: usize, c: usize|
            a < lens.len() && b < lens@[a as int] && c < lens@[a as int]
                ==> #[trigger] call_requires(arc, (a, b, c)),
        forall|p: Pair, q: Pair| #[trigger] call_requires(gap, (p, q)),
    ensures
        axis_of(lens@, dist, arc, gap, r.deep_view()),
{
    let mut out: Vec<Vec<Pair>> = Vec::new();
    let ghost mut ls: Seq<Seq<Seq<Pair>>> = Seq::empty();
    let mut ri: usize = 0;
    assert(out.deep_view() =~= chained(ls));
    while ri < lens.len()
        invariant
            ri <= lens.len(),
            forall|a: usize, b: usize, c: usize, d: usize|
                a < lens.len() && b < lens@[a as int] && c < lens.len() && d < lens@[c as int]
                    ==> #[trigger] call_requires(dist, (a, b, c, d)),
            forall|a: usize, b: usize, c: usize|
                a < lens.len() && b < lens@[a as int] && c < lens@[a as int]
                    ==> #[trigger] call_requires(arc, (a, b, c)),
            forall|p: Pair, q: Pair| #[trigger] call_requires(gap, (p, q)),
            ls.len() == ri,
            rings_traced(lens@, dist, arc, gap, ls),
            out.deep_view() == chained(ls),
        decreases lens.len() - ri,
    {
        let mut lines = trace_ring(lens, &dist, &arc, &gap, ri);
        let ghost v = lines.deep_view();
        let ghost was = ls;
        let ghost before = out.deep_view();
        out.append(&mut lines);
        proof {
            ls = ls.push(v);
            assert(ls.drop_last() =~= was);
            assert(out.deep_view() =~= before + v);
            assert forall|k: int| 0 <= k < ls.len() implies ring_traced(
                lens@,
                dist,
                arc,
                gap,
                k,
                #[trigger] ls[k],
            ) by {
                if k < ri {
                    assert(ls[k] == was[k]);
                }
            }
        }
        ri += 1;
    }
    out
}

/// Whether a line has two points or more, each between a vertex and one that comes after it.
pub open spec fn forward_line(l: Seq<Pair>) -> bool {
    l.len() >= 2 && forall|k: int| 0 <= k < l.len() ==> forward(#[trigger] l[k])
}

/// Whether the partner comes after the vertex.
pub open spec fn forward(p: Pair) -> bool {
    p.0 < p.2 || (p.0 == p.2 && p.1 < p.3)
}

proof fn lemma_tracing(picks: Seq<Option<Pair>>, leaps: Seq<bool>)
    requires
        forall|k: int| 0 <= k < picks.len() ==> (#[trigger] picks[k] matches Some(p) ==> forward(p)),
    ensures
        forall|m: int|
            0 <= m < tracing(picks, leaps).0.len() ==> forward_line(
                #[trigger] tracing(picks, leaps).0[m],
            ),
        forall|k: int|
            0 <= k < tracing(picks, leaps).1.len() ==> forward(#[trigger] tracing(picks, leaps).1[k]),
    decreases picks.len(),
{
    if picks.len() > 0 {
        let d = picks.drop_last();
        assert forall|k: int| 0 <= k < d.len() implies (#[trigger] d[k] matches Some(p) ==> forward(
            p,
        )) by {
            assert(d[k] == picks[k]);
        }
        lemma_tracing(d, leaps.drop_last());
        assert(picks[picks.len() - 1] == picks.last());
        let (lines, line) = tracing(d, leaps.drop_last());
        let (after, next) = tracing(picks, leaps);
        assert(line.len() > 1 ==> forward_line(line));
        assert forall|m: int| 0 <= m < after.len() implies forward_line(#[trigger] after[m]) by {
            if m < lines.len() {
                assert(after[m] == lines[m]);
            } else {
                assert(after[m] == line);
            }
        }
        assert forall|k: int| 0 <= k < next.len() implies forward(#[trigger] next[k]) by {
            if k < next.len() - 1 {
                assert(next[k] == line[k]);
            }
        }
    }
}

proof fn lemma_found_at(lens: Seq<usize>, at: int)
    requires
        0 <= at < before(lens, lens.len() as int),
    ensures
        exists|p: int, k: int|
            0 <= p < lens.len() && 0 <= k < lens[p] && #[trigger] (before(lens, p) + k) == at,
    decreases lens.len(),
{
    lemma_found_below(lens, lens.len() as int, at);
}

proof fn lemma_found_below(lens: Seq<usize>, q: int, at: int)
    requires
        0 <= q <= lens.len(),
        0 <= at < before(lens, q),
    ensures
        exists|p: int, k: int|
            0 <= p < lens.len() && 0 <= k < lens[p] && #[trigger] (before(lens, p) + k) == at,
    decreases q,
{
    if at < before(lens, q - 1) {
        lemma_found_below(lens, q - 1, at);
    } else {
        let k = at - before(lens, q - 1);
        assert(before(lens, q - 1) + k == at);
    }
}

proof fn lemma_nearest(cs: Seq<Cand>)
    ensures
        nearest(cs) matches Some((q, j, d)) ==> exists|at: int|
            0 <= at < cs.len() && (#[trigger] cs[at]).0 == q && cs[at].1 == j,
    decreases cs.len(),
{
    if cs.len() > 0 {
        let p = cs.drop_last();
        lemma_nearest(p);
        match nearest(cs) {
            Some((q, j, d)) => {
                if nearest(p) == nearest(cs) && exists|at: int|
                    0 <= at < p.len() && (#[trigger] p[at]).0 == q && p[at].1 == j {
                    let at = choose|at: int|
                        0 <= at < p.len() && (#[trigger] p[at]).0 == q && p[at].1 == j;
                    assert(cs[at].0 == q && cs[at].1 == j);
                } else {
                    assert(cs[cs.len() - 1].0 == q && cs[cs.len() - 1].1 == j);
                }
            },
            None => {},
        }
    }
}

/// Every line along the axis has two points or more, and each of its points lies between a
/// vertex and one that comes after it: the far wall does not trace the axis again.
pub proof fn law_axis_traced_once<
    D: Fn(usize, usize, usize, usize) -> u64,
    A: Fn(usize, usize, usize) -> u64,
    G: Fn(Pair, Pair) -> u64,
>(lens: Seq<usize>, dist: D, arc: A, gap: G, ri: int, lines: Seq<Seq<Pair>>)
    requires
        lens.len() <= usize::MAX,
        0 <= ri < lens.len(),
        ring_traced(lens, dist, arc, gap, ri, lines),
    ensures
        forall|m: int| 0 <= m < lines.len() ==> forward_line(#[trigger] lines[m]),
{
    let (picks, leaps) = choose|picks: Seq<Option<Pair>>, leaps: Seq<bool>| #[trigger]
        walked_ring(lens, dist, arc, gap, ri, picks, leaps) && picks.len() == lens[ri] && lines
            == ring_lines(picks, leaps);
    assert forall|k: int| 0 <= k < picks.len() implies (#[trigger] picks[k] matches Some(p)
        ==> forward(p)) by {
        assert(partnered(lens, dist, arc, ri, k, picks[k]));
        let cs = choose|cs: Seq<Cand>| #[trigger]
            surveyed(lens, dist, arc, ri, k, lens.len() as int, 0, cs) && picks[k] == traced(
                ri,
                k,
                cs,
            );
        lemma_nearest(cs);
        match nearest(cs) {
            Some((q, j, d)) => {
                let at = choose|at: int|
                    0 <= at < cs.len() && (#[trigger] cs[at]).0 == q && cs[at].1 == j;
                lemma_found_at(lens, at);
                let (p, m) = choose|p: int, m: int|
                    0 <= p < lens.len() && 0 <= m < lens[p] && #[trigger] (before(lens, p) + m)
                        == at;
                assert(cs[before(lens, p) + m].0 == p);
            },
            None => {},
        }
    }
    lemma_tracing(picks, leaps);
}

/// The layer of a pressure code; another code is its own layer.
pub open spec fn layer_of(p: Seq<char>) -> Seq<char> {
    if p == "LP"@ {
        "Low Pressure Mains & Plant"@
    } else if p == "MP"@ {
        "Medium Pressure Mains & Plant"@
    } else if p == "IP"@ {
        "Intermediate Pressure Mains & Plant"@
    } else if p == "HP"@ || p == "LHP"@ {
        "Local High Pressure Mains & Plant"@
    } else {
        p
    }
}

fn layer(p: &str) -> (r: String)
    ensures
        r@ == layer_of(p@),
{
    if same(p, "LP") {
        "Low Pressure Mains & Plant".to_owned()
    } else if same(p, "MP") {
        "Medium Pressure Mains & Plant".to_owned()
    } else if same(p, "IP") {
        "Intermediate Pressure Mains & Plant".to_owned()
    } else if same(p, "HP") || same(p, "LHP") {
        "Local High Pressure Mains & Plant".to_owned()
    } else {
        p.to_owned()
    }
}

/// A field of a line between tabs; empty where the line has too few.
pub open spec fn field(line: Seq<char>, i: int) -> Seq<char> {
    let f = pieces(line, Class::Is('\t'));
    if 0 <= i < f.len() {
        f[i]
    } else {
        Seq::empty()
    }
}

fn read_field(f: &Vec<String>, i: usize, line: &str) -> (r: String)
    requires
        f.deep_view() == pieces(line@, Class::Is('\t')),
    ensures
        r@ == field(line@, i as int),
{
    assert(f.deep_view().len() == f.len());
    if i < f.len() {
        assert(f.deep_view()[i as int] == f@[i as int]@);
        f[i].clone()
    } else {
        String::new()
    }
}

/// The year at the start of a date, in its first four bytes; 0 where there is none.
pub open spec fn year_of(date: Seq<char>) -> int {
    match byte_prefix(date, 4) {
        Some(y) => match integer_within(y, true, -0x8000_0000, 0x7fff_ffff) {
            Some(y) => y,
            None => 0,
        },
        None => 0,
    }
}

fn read_year(date: &str) -> (r: i32)
    ensures
        r == year_of(date@),
{
    match first_bytes(date, 4) {
        Some(y) => match parse_integer(y.as_str(), true, -0x8000_0000, 0x7fff_ffff) {
            Some(y) => y as i32,
            None => 0,
        },
        None => 0,
    }
}

/// The specification that a material code is written into.
pub open spec fn tip_for(m: Seq<char>) -> Option<Seq<char>> {
    if m.len() == 0 {
        None
    } else {
        Some("0MM "@ + m)
    }
}

/// A line of a table of pipes: its lists of coordinates, whether they bound a corridor, its
/// layer, its specification and its year.
pub struct PipeLine {
    pub rings: Vec<Vec<(String, String)>>,
    pub corridor: bool,
    pub layer: String,
    pub tip: Option<String>,
    pub year: i32,
}

/// The contents of a line of a table of pipes.
pub struct PipeLineView {
    pub rings: Seq<Seq<(Seq<char>, Seq<char>)>>,
    pub corridor: bool,
    pub layer: Seq<char>,
    pub tip: Option<Seq<char>>,
    pub year: int,
}

impl DeepView for PipeLine {
    type V = PipeLineView;

    open spec fn deep_view(&self) -> PipeLineView {
        PipeLineView {
            rings: self.rings.deep_view(),
            corridor: self.corridor,
            layer: self.layer@,
            tip: self.tip.deep_view(),
            year: self.year as int,
        }
    }
}

/// What a line of a table of pipes says: shape, pressure, material and date, between tabs.
pub open spec fn pipe_line_of(line: Seq<char>) -> PipeLineView {
    PipeLineView {
        rings: rings_of(field(line, 0)),
        corridor: field(line, 1) == "NTS"@,
        layer: layer_of(field(line, 1)),
        tip: tip_for(field(line, 2)),
        year: year_of(field(line, 3)),
    }
}

/// Reads a line of a table of pipes.
pub fn pipe_line(line: &str) -> (r: PipeLine)
    ensures
        r.deep_view() == pipe_line_of(line@),
{
    let f = split(line, Class::Is('\t'));
    let w = read_field(&f, 0, line);
    let p = read_field(&f, 1, line);
    let m = read_field(&f, 2, line);
    let d = read_field(&f, 3, line);
    let tip = if m.as_str().is_empty() {
        None
    } else {
        let mut t = "0MM ".to_owned();
        t.append(m.as_str());
        Some(t)
    };
    PipeLine {
        rings: rings(w.as_str()),
        corridor: same(p.as_str(), "NTS"),
        layer: layer(p.as_str()),
        tip,
        year: read_year(d.as_str()),
    }
}

/// The row of a line of a table of pipes, given the lines that it draws.
pub open spec fn pipe_row_of(l: PipeLineView, lines: Seq<Seq<Vertex>>) -> Option<RowView> {
    match lines_geom(lines) {
        Some(geom) => Some(
            RowView {
                fid: None,
                layer: l.layer,
                tip: l.tip,
                square: Seq::empty(),
                facet: Seq::empty(),
                src: None,
                date: None,
                year: Some(l.year as i32),
                geom,
            },
        ),
        None => None,
    }
}

/// Makes the row of a line of a table of pipes; none where it draws nothing.
pub fn pipe_row(l: PipeLine, lines: Vec<Vec<Vertex>>) -> (r: Option<Row>)
    ensures
        r.deep_view() == pipe_row_of(l.deep_view(), contents(lines@)),
{
    match geom_of(lines) {
        Some(geom) => {
            let r = Row {
                fid: None,
                layer: l.layer,
                tip: l.tip,
                square: String::new(),
                facet: String::new(),
                src: None,
                date: None,
                year: Some(l.year),
                geom,
            };
            assert(r.square@ =~= Seq::empty());
            assert(r.facet@ =~= Seq::empty());
            Some(r)
        },
        None => None,
    }
}

/// Whether this is the row that a line of a table of pipes makes when `axis` gives the lines
/// along the axis of a corridor and `course` those of other lists of coordinates.
pub open spec fn makes_row<
    C: Fn(&Vec<Vec<(String, String)>>) -> Vec<Vec<Vertex>>,
    S: Fn(&Vec<Vec<(String, String)>>) -> Vec<Vec<Vertex>>,
>(axis: C, course: S, l: PipeLineView, r: Option<RowView>) -> bool {
    exists|rings: &Vec<Vec<(String, String)>>, ls: Vec<Vec<Vertex>>|
        #![trigger call_ensures(axis, (rings,), ls)]
        #![trigger call_ensures(course, (rings,), ls)]
        rings.deep_view() == l.rings && (if l.corridor {
            call_ensures(axis, (rings,), ls)
        } else {
            call_ensures(course, (rings,), ls)
        }) && r == pipe_row_of(l, contents(ls@))
}

/// Whether these are the rows that the lines of a table of pipes make, none where a line draws
/// nothing.
pub open spec fn make_rows<
    C: Fn(&Vec<Vec<(String, String)>>) -> Vec<Vec<Vertex>>,
    S: Fn(&Vec<Vec<(String, String)>>) -> Vec<Vec<Vertex>>,
>(axis: C, course: S, ls: Seq<Seq<char>>, rs: Seq<Option<RowView>>) -> bool {
    &&& rs.len() == ls.len()
    &&& forall|k: int|
        0 <= k < rs.len() ==> makes_row(axis, course, pipe_line_of(ls[k]), #[trigger] rs[k])
}

/// The rows that are there.
pub open spec fn somes(rs: Seq<Option<RowView>>) -> Seq<RowView>
    decreases rs.len(),
{
    if rs.len() == 0 {
        Seq::empty()
    } else {
        match rs.last() {
            Some(r) => somes(rs.drop_last()).push(r),
            None => somes(rs.drop_last()),
        }
    }
}

/// Makes the rows of a table of pipes: a corridor is drawn by its axis, which `axis` gives, and
/// all else by its own course, which `course` gives.
pub fn rows<
    C: Fn(&Vec<Vec<(String, String)>>) -> Vec<Vec<Vertex>>,
    S: Fn(&Vec<Vec<(String, String)>>) -> Vec<Vec<Vertex>>,
>(text: &str, axis: &C, course: &S) -> (r: Vec<Row>)
    requires
        forall|v: &Vec<Vec<(String, String)>>| #[trigger] call_requires(*axis, (v,)),
        forall|v: &Vec<Vec<(String, String)>>| #[trigger] call_requires(*course, (v,)),
    ensures
        exists|rs: Seq<Option<RowView>>| #[trigger]
            make_rows(*axis, *course, lines(text@), rs) && r.deep_view() == somes(rs),
{
    let ls = lines_of(text);
    let ghost lv = ls.deep_view();
    let ghost mut rs: Seq<Option<RowView>> = Seq::empty();
    let mut out: Vec<Row> = Vec::new();
    let mut i: usize = 0;
    assert(out.deep_view() =~= somes(rs));
    while i < ls.len()
        invariant
            i <= ls.len(),
            lv == ls.deep_view(),
            forall|v: &Vec<Vec<(String, String)>>| #[trigger] call_requires(*axis, (v,)),
            forall|v: &Vec<Vec<(String, String)>>| #[trigger] call_requires(*course, (v,)),
            make_rows(*axis, *course, lv.take(i as int), rs),
            out.deep_view() == somes(rs),
        decreases ls.len() - i,
    {
        assert(lv[i as int] == ls@[i as int]@);
        let l = pipe_line(ls[i].as_str());
        let ghost view = l.deep_view();
        let drawn = if l.corridor {
            (*axis)(&l.rings)
        } else {
            (*course)(&l.rings)
        };
        let ghost c = contents(drawn@);
        assert(makes_row(*axis, *course, view, pipe_row_of(view, c))) by {
            let rings = &l.rings;
            assert(rings.deep_view() == view.rings);
            assert(if view.corridor {
                call_ensures(*axis, (rings,), drawn)
            } else {
                call_ensures(*course, (rings,), drawn)
            });
        }
        let ghost was = rs;
        let ghost before = out.deep_view();
        let r = pipe_row(l, drawn);
        let ghost v = r.deep_view();
        proof {
            rs = rs.push(v);
            assert(rs.drop_last() =~= was);
            assert forall|k: int| 0 <= k < rs.len() implies makes_row(
                *axis,
                *course,
                pipe_line_of(lv.take(i + 1)[k]),
                #[trigger] rs[k],
            ) by {
                if k < was.len() {
                    assert(rs[k] == was[k]);
                    assert(lv.take(i as int)[k] == lv[k]);
                }
            }
        }
        match r {
            Some(r) => {
                let ghost w = r.deep_view();
                out.push(r);
                assert(out.deep_view() =~= before.push(w));
            },
            None => {},
        }
        i += 1;
    }
    assert(lv.take(i as int) =~= lv);
    out
}

/// The bit pattern of the flag of a site, the number two.
pub const SITE: u32 = 0x4000_0000;

/// Writes the marker of a site, given the bit patterns of its easting and northing. It has no
/// day.
pub fn site_marker(x: u32, y: u32) -> (b: Vec<u8>)
    ensures
        b@ == marker_bytes(x, y, 0, SITE),
{
    marker(x, y, 0, SITE)
}

/// A site as it is shown: where it is and what it is.
pub open spec fn site_label(fac: Seq<char>, loc: Seq<char>) -> Seq<char> {
    trimmed(strip_end(replaced(loc, Class::Is('_'), ' '), Class::Digit)) + "\t"@ + facility(
        trimmed(fac),
    )
}

/// The words for a facility's code; another code stands for itself.
pub open spec fn facility(code: Seq<char>) -> Seq<char> {
    if code == "AGI"@ {
        "above-ground installation"@
    } else if code == "COMP"@ {
        "compressor station"@
    } else if code == "TCSITE"@ {
        "terminal"@
    } else {
        code
    }
}

/// A site: the ring around it and its label.
pub struct Site {
    pub ring: Vec<(String, String)>,
    pub label: String,
}

/// The contents of a site.
pub struct SiteView {
    pub ring: Seq<(Seq<char>, Seq<char>)>,
    pub label: Seq<char>,
}

impl DeepView for Site {
    type V = SiteView;

    open spec fn deep_view(&self) -> SiteView {
        SiteView { ring: self.ring.deep_view(), label: self.label@ }
    }
}

/// What a line of the table of sites says: shape, facility and location, between tabs.
/// Nothing where it has no ring.
pub open spec fn site_of(line: Seq<char>) -> Option<SiteView> {
    let rs = rings_of(field(line, 0));
    if rs.len() == 0 {
        None
    } else {
        Some(SiteView { ring: rs[0], label: site_label(field(line, 1), field(line, 2)) })
    }
}

/// Reads a line of the table of sites.
pub fn site(line: &str) -> (r: Option<Site>)
    ensures
        r.deep_view() == site_of(line@),
{
    let f = split(line, Class::Is('\t'));
    let w = read_field(&f, 0, line);
    let fac = read_field(&f, 1, line);
    let loc = read_field(&f, 2, line);
    let mut rs = rings(w.as_str());
    assert(rs.deep_view().len() == rs.len());
    if rs.len() == 0 {
        return None;
    }
    assert(rs.deep_view()[0] == rs@[0].deep_view());
    let ring = rs.swap_remove(0);
    let loc = replace(loc.as_str(), Class::Is('_'), ' ');
    let loc = trim_end(loc.as_str(), Class::Digit);
    let mut label = trim(loc.as_str());
    let fac = trim(fac.as_str());
    label.append("\t");
    if same(fac.as_str(), "AGI") {
        label.append("above-ground installation");
    } else if same(fac.as_str(), "COMP") {
        label.append("compressor station");
    } else if same(fac.as_str(), "TCSITE") {
        label.append("terminal");
    } else {
        label.append(fac.as_str());
    }
    Some(Site { ring, label })
}

/// The integers by which northings are ordered.
pub open spec fn northing_ranks(ys: Seq<u64>) -> Seq<i64> {
    ys.map_values(|y: u64| total_rank(y) as i64)
}

/// Orders sites from south to north and, on one northing, by their labels.
pub fn site_order(ys: &Vec<u64>, labels: &Vec<String>) -> (r: Vec<usize>)
    requires
        ys.len() == labels.len(),
    ensures
        is_order(northing_ranks(ys@), labels.deep_view(), r@),
{
    let mut ns: Vec<i64> = Vec::new();
    let mut i: usize = 0;
    while i < ys.len()
        invariant
            i <= ys.len(),
            ns@ == northing_ranks(ys@).take(i as int),
        decreases ys.len() - i,
    {
        ns.push(total_rank_of(ys[i]));
        i += 1;
        assert(northing_ranks(ys@).take(i as int) =~= northing_ranks(ys@).take(i - 1).push(
            northing_ranks(ys@)[i - 1],
        ));
    }
    assert(northing_ranks(ys@).take(i as int) =~= northing_ranks(ys@));
    order_of(&ns, labels)
}

/// The sites that lines tell of; a line that tells of none is passed over.
pub open spec fn sites_of(ls: Seq<Seq<char>>) -> Seq<SiteView>
    decreases ls.len(),
{
    if ls.len() == 0 {
        Seq::empty()
    } else {
        let r = sites_of(ls.drop_last());
        match site_of(ls.last()) {
            Some(s) => r.push(s),
            None => r,
        }
    }
}

/// Reads the table of sites.
pub fn sites(text: &str) -> (r: Vec<Site>)
    ensures
        r.deep_view() == sites_of(lines(text@)),
{
    let ls = lines_of(text);
    let ghost all = ls.deep_view();
    let mut out: Vec<Site> = Vec::new();
    let mut i: usize = 0;
    assert(out.deep_view() =~= sites_of(all.take(0)));
    while i < ls.len()
        invariant
            i <= ls.len(),
            all == ls.deep_view(),
            out.deep_view() == sites_of(all.take(i as int)),
        decreases ls.len() - i,
    {
        assert(all.take(i + 1).drop_last() =~= all.take(i as int));
        assert(all.take(i + 1).last() == ls@[i as int]@);
        let ghost before = out.deep_view();
        match site(ls[i].as_str()) {
            Some(s) => {
                let ghost v = s.deep_view();
                out.push(s);
                assert(out.deep_view() =~= before.push(v));
            },
            None => {},
        }
        i += 1;
    }
    assert(all.take(i as int) =~= all);
    out
}

/// A point is the first two words of its text, the easting first, where both are numbers.
pub proof fn law_point_is_two_words(p: Seq<char>, ps: Seq<Seq<char>>)
    ensures
        ({
            let t = tokens(p, Class::AsciiSpace);
            let was = points_of(ps);
            let now = points_of(ps.push(p));
            &&& t.len() >= 2 && is_float(t[0]) && is_float(t[1]) ==> now.len() == was.len() + 1
                && now.last().0 == t[0] && now.last().1 == t[1] && now.drop_last() == was
            &&& t.len() < 2 || !is_float(t[0]) || !is_float(t[1]) ==> now == was
        }),
{
    assert(ps.push(p).drop_last() =~= ps);
    let t = tokens(p, Class::AsciiSpace);
    if t.len() >= 2 && is_float(t[0]) && is_float(t[1]) {
        assert(points_of(ps.push(p)).drop_last() =~= points_of(ps));
    }
}

/// The points of a group stand between commas, and what follows its closing bracket is not among
/// them.
pub proof fn law_ring_ends_at_its_bracket(a: Seq<char>, rest: Seq<char>)
    requires
        forall|i: int| 0 <= i < a.len() ==> #[trigger] a[i] != ')',
    ensures
        ring_of(a) == points_of(pieces(a, Class::Is(','))),
        ring_of(a + seq![')'] + rest) == ring_of(a),
{
    law_first_piece(a, ')', rest);
}

/// Each opening bracket begins a list of coordinates, and each list of two points or more is
/// kept, in order; a shorter one is not.
pub proof fn law_lists_of_two_points_are_kept(gs: Seq<Seq<char>>, g: Seq<char>, w: Seq<char>)
    ensures
        ring_of(g).len() >= 2 ==> rings_in(gs.push(g)) == rings_in(gs).push(ring_of(g)),
        ring_of(g).len() < 2 ==> rings_in(gs.push(g)) == rings_in(gs),
        rings_of(w) == rings_in(pieces(w, Class::Is('('))),
        forall|i: int| 0 <= i < rings_in(gs).len() ==> (#[trigger] rings_in(gs)[i]).len() >= 2,
    decreases gs.len(),
{
    assert(gs.push(g).drop_last() =~= gs);
    if gs.len() > 0 {
        law_lists_of_two_points_are_kept(gs.drop_last(), g, w);
    }
}

/// A ring whose last vertex repeats its first loses that vertex and no other; any other ring
/// stays as it is.
pub proof fn law_opened_ring(r: Seq<(u64, u64)>, v: (u64, u64))
    ensures
        r.len() > 0 && v == r[0] && v.0 <= 0x7ff0_0000_0000_0000 && v.1 <= 0x7ff0_0000_0000_0000
            ==> opened(r.push(v)) == r,
        r.len() > 0 && less(v.0, r[0].0) ==> opened(r.push(v)) == r.push(v),
        r.len() > 0 && less(v.1, r[0].1) ==> opened(r.push(v)) == r.push(v),
        r.len() <= 1 ==> opened(r) == r,
{
    let s = r.push(v);
    assert(s.drop_last() =~= r);
    assert(s.last() == v);
    if r.len() > 0 {
        assert(s[0] == r[0]);
    }
}

/// Whether a possible partner at a place is this one, and none before it is equally near.
pub open spec fn first_such(cs: Seq<Cand>, at: int, c: (int, int, u64)) -> bool {
    &&& 0 <= at < cs.len()
    &&& cs[at] == (c.0, c.1, Some(c.2))
    &&& forall|m: int| 0 <= m < at ==> ((#[trigger] cs[m]).2 matches Some(e) ==> !equal(e, c.2))
}

/// A vertex's partner lies less than 120 metres away, no possible partner lies nearer, and of
/// equally near ones it is the first; there is none only where no possible partner lies within
/// that reach.
pub proof fn law_partner_is_the_nearest(cs: Seq<Cand>)
    ensures
        nearest(cs) matches Some(c) ==> {
            &&& less(c.2, 0x405e_0000_0000_0000)
            &&& forall|k: int| 0 <= k < cs.len() ==> ((#[trigger] cs[k]).2 matches Some(e) ==> !less(e, c.2))
            &&& exists|at: int| #[trigger] first_such(cs, at, c)
        },
        nearest(cs) is None ==> forall|k: int|
            0 <= k < cs.len() ==> ((#[trigger] cs[k]).2 matches Some(e) ==> !less(
                e,
                0x405e_0000_0000_0000,
            )),
    decreases cs.len(),
{
    if cs.len() > 0 {
        let p = cs.drop_last();
        let n = cs.len() - 1;
        law_partner_is_the_nearest(p);
        assert forall|k: int| 0 <= k < n implies #[trigger] cs[k] == p[k] by {}
        if nearest(cs) is Some {
            let c = nearest(cs)->0;
            let newer = match nearest(p) {
                Some(b) => b.2,
                None => ACROSS,
            };
            if cs[n].2 is Some && less(cs[n].2->0, newer) {
                assert(first_such(cs, n, c));
            } else {
                let at = choose|at: int| #[trigger] first_such(p, at, c);
                assert(first_such(cs, at, c));
            }
        }
    }
}

/// A vertex of the same wall is no possible partner where the way to it along the wall is less
/// than 90 metres; all other vertices are, at their distances.
pub proof fn law_own_wall_is_passed_over<
    D: Fn(usize, usize, usize, usize) -> u64,
    A: Fn(usize, usize, usize) -> u64,
>(dist: D, arc: A, ri: int, i: int, c: Cand)
    requires
        described(dist, arc, ri, i, c),
    ensures
        c.2 is None ==> c.0 == ri && exists|a: u64| #[trigger]
            call_ensures(arc, (ri as usize, i as usize, c.1 as usize), a) && less(
                a,
                0x4056_8000_0000_0000,
            ),
        c.2 is Some && c.0 == ri ==> exists|a: u64| #[trigger]
            call_ensures(arc, (ri as usize, i as usize, c.1 as usize), a) && !less(
                a,
                0x4056_8000_0000_0000,
            ),
        c.2 matches Some(d) ==> call_ensures(
            dist,
            (ri as usize, i as usize, c.0 as usize, c.1 as usize),
            d,
        ),
{
}

/// The axis passes between a vertex and its nearest partner.
pub proof fn law_axis_lies_between_partners(ri: usize, i: usize, cs: Seq<Cand>, q: usize, j: usize, d: u64)
    requires
        nearest(cs) == Some((q as int, j as int, d)),
    ensures
        q > ri || (q == ri && j > i) ==> traced(ri as int, i as int, cs) == Some((ri, i, q, j)),
        q < ri || (q == ri && j <= i) ==> traced(ri as int, i as int, cs) is None,
{
}

/// Whether a line runs through the partners of vertices that follow one another from the `s`th
/// on, without a leap between two of them.
pub open spec fn runs_from(l: Seq<Pair>, picks: Seq<Option<Pair>>, leaps: Seq<bool>, s: int) -> bool {
    &&& 0 <= s <= s + l.len() <= picks.len()
    &&& forall|m: int|
        0 <= m < l.len() ==> picks[s + m] == Some(#[trigger] l[m]) && (m > 0 ==> !leaps[s + m])
}

/// Whether a line runs through the partners of vertices that follow one another.
pub open spec fn runs(l: Seq<Pair>, picks: Seq<Option<Pair>>, leaps: Seq<bool>) -> bool {
    exists|s: int| #[trigger] runs_from(l, picks, leaps, s)
}

/// Whether two points follow one another in a line.
pub open spec fn adjacent(l: Seq<Pair>, p: Pair, q: Pair) -> bool {
    exists|m: int| 0 < m < l.len() && l[m - 1] == p && #[trigger] l[m] == q
}

/// Whether two points follow one another in one of several lines.
pub open spec fn linked(ls: Seq<Seq<Pair>>, p: Pair, q: Pair) -> bool {
    exists|n: int| 0 <= n < ls.len() && adjacent(#[trigger] ls[n], p, q)
}

proof fn lemma_runs_on(l: Seq<Pair>, picks: Seq<Option<Pair>>, leaps: Seq<bool>)
    requires
        picks.len() > 0,
        leaps.len() == picks.len(),
        runs(l, picks.drop_last(), leaps.drop_last()),
    ensures
        runs(l, picks, leaps),
{
    let s = choose|s: int| #[trigger] runs_from(l, picks.drop_last(), leaps.drop_last(), s);
    assert(runs_from(l, picks, leaps, s)) by {
        assert forall|m: int| 0 <= m < l.len() implies picks[s + m] == Some(#[trigger] l[m]) && (m
            > 0 ==> !leaps[s + m]) by {
            assert(picks.drop_last()[s + m] == picks[s + m]);
            assert(leaps.drop_last()[s + m] == leaps[s + m]);
        }
    }
}

proof fn lemma_traced_lines(picks: Seq<Option<Pair>>, leaps: Seq<bool>)
    requires
        leaps.len() == picks.len(),
    ensures
        ({
            let (ls, l) = tracing(picks, leaps);
            &&& forall|n: int| 0 <= n < ls.len() ==> runs(#[trigger] ls[n], picks, leaps)
            &&& runs_from(l, picks, leaps, picks.len() - l.len())
            &&& picks.len() > 0 ==> (l.len() > 0 <==> picks.last() is Some)
        }),
    decreases picks.len(),
{
    let (ls, l) = tracing(picks, leaps);
    if picks.len() > 0 {
        let (d, e) = (picks.drop_last(), leaps.drop_last());
        lemma_traced_lines(d, e);
        let (was, line) = tracing(d, e);
        assert(runs_from(line, d, e, d.len() - line.len()));
        assert(runs(line, d, e));
        lemma_runs_on(line, picks, leaps);
        assert forall|n: int| 0 <= n < ls.len() implies runs(#[trigger] ls[n], picks, leaps) by {
            if n < was.len() {
                assert(ls[n] == was[n]);
                lemma_runs_on(was[n], picks, leaps);
            } else {
                assert(ls[n] == line);
            }
        }
        let s = picks.len() - l.len();
        assert forall|m: int| 0 <= m < l.len() implies picks[s + m] == Some(#[trigger] l[m]) && (m
            > 0 ==> !leaps[s + m]) by {
            if m < l.len() - 1 {
                assert(l[m] == line[m]);
                assert(d[s + m] == picks[s + m]);
                assert(e[s + m] == leaps[s + m]);
            }
        }
        assert(runs_from(l, picks, leaps, s));
    }
}

/// Every line along the axis runs through the partners of vertices of the ring that follow one
/// another, without a leap between two of them.
pub proof fn law_axis_follows_the_ring(picks: Seq<Option<Pair>>, leaps: Seq<bool>, n: int)
    requires
        leaps.len() == picks.len(),
        0 <= n < ring_lines(picks, leaps).len(),
    ensures
        runs(ring_lines(picks, leaps)[n], picks, leaps),
        ring_lines(picks, leaps)[n].len() >= 2,
{
    lemma_traced_lines(picks, leaps);
    lemma_long_lines(picks, leaps);
    let (ls, l) = tracing(picks, leaps);
    assert(runs(l, picks, leaps));
}

proof fn lemma_long_lines(picks: Seq<Option<Pair>>, leaps: Seq<bool>)
    requires
        leaps.len() == picks.len(),
    ensures
        forall|n: int|
            0 <= n < tracing(picks, leaps).0.len() ==> (#[trigger] tracing(picks, leaps).0[n]).len() >= 2,
    decreases picks.len(),
{
    if picks.len() > 0 {
        let (d, e) = (picks.drop_last(), leaps.drop_last());
        lemma_long_lines(d, e);
        let was = tracing(d, e).0;
        let now = tracing(picks, leaps).0;
        assert forall|n: int| 0 <= n < now.len() implies (#[trigger] now[n]).len() >= 2 by {
            if n < was.len() {
                assert(now[n] == was[n]);
            }
        }
    }
}

/// Where two vertices that follow one another both have partners and the axis does not leap
/// between them, some line passes from the one to the other.
pub proof fn law_axis_misses_no_step(picks: Seq<Option<Pair>>, leaps: Seq<bool>, k: int, p: Pair, q: Pair)
    requires
        leaps.len() == picks.len(),
        0 < k < picks.len(),
        picks[k - 1] == Some(p),
        picks[k] == Some(q),
        !leaps[k],
    ensures
        linked(ring_lines(picks, leaps), p, q),
{
    lemma_steps(picks, leaps, k, p, q);
    let (ls, l) = tracing(picks, leaps);
    let all = ring_lines(picks, leaps);
    if linked(ls, p, q) {
        let n = choose|n: int| 0 <= n < ls.len() && adjacent(#[trigger] ls[n], p, q);
        assert(all[n] == ls[n]);
    } else {
        assert(all[ls.len() as int] == l);
    }
}

proof fn lemma_steps(picks: Seq<Option<Pair>>, leaps: Seq<bool>, k: int, p: Pair, q: Pair)
    requires
        leaps.len() == picks.len(),
        0 < k < picks.len(),
        picks[k - 1] == Some(p),
        picks[k] == Some(q),
        !leaps[k],
    ensures
        linked(tracing(picks, leaps).0, p, q) || adjacent(tracing(picks, leaps).1, p, q),
    decreases picks.len(),
{
    let (d, e) = (picks.drop_last(), leaps.drop_last());
    let (was, line) = tracing(d, e);
    let (ls, l) = tracing(picks, leaps);
    lemma_traced_lines(d, e);
    if k == picks.len() - 1 {
        assert(d.last() == Some(p));
        assert(line.len() > 0);
        assert(runs_from(line, d, e, d.len() - line.len()));
        assert(line[line.len() - 1] == p) by {
            assert(d[(d.len() - line.len()) + (line.len() - 1)] == Some(line[line.len() - 1]));
        }
        assert(l[l.len() - 1] == q && l[l.len() - 2] == p);
    } else {
        assert(d[k - 1] == picks[k - 1] && d[k] == picks[k] && e[k] == leaps[k]);
        lemma_steps(d, e, k, p, q);
        if linked(was, p, q) {
            let n = choose|n: int| 0 <= n < was.len() && adjacent(#[trigger] was[n], p, q);
            assert(ls[n] == was[n]);
        } else {
            let m = choose|m: int| 0 < m < line.len() && line[m - 1] == p && #[trigger] line[m] == q;
            if ls.len() > was.len() {
                assert(ls[was.len() as int] == line);
                assert(adjacent(ls[was.len() as int], p, q));
            } else {
                assert(l[m - 1] == p && l[m] == q);
            }
        }
    }
}

/// The axis leaps where the middles of two pairs that follow one another lie more than 400
/// metres apart.
pub proof fn law_axis_leaps_beyond_its_gap<G: Fn(Pair, Pair) -> u64>(
    gap: G,
    picks: Seq<Option<Pair>>,
    leaps: Seq<bool>,
    k: int,
    p: Pair,
    q: Pair,
)
    requires
        leaps.len() == picks.len(),
        0 < k < picks.len(),
        picks[k - 1] == Some(p),
        picks[k] == Some(q),
        leap_seen(gap, picks, leaps, k),
        forall|g: u64| #[trigger] call_ensures(gap, (p, q), g) ==> g <= 0x7ff0_0000_0000_0000,
    ensures
        exists|g: u64| #[trigger]
            call_ensures(gap, (p, q), g) && (leaps[k] <==> g > 0x4079_0000_0000_0000),
{
    let (a, b) = (picks.take(k), leaps.take(k));
    lemma_traced_lines(a, b);
    let line = tracing(a, b).1;
    assert(a.last() == Some(p));
    assert(runs_from(line, a, b, a.len() - line.len()));
    assert(line.last() == p) by {
        assert(a[(a.len() - line.len()) + (line.len() - 1)] == Some(line[line.len() - 1]));
    }
    let g = choose|g: u64| #[trigger]
        call_ensures(gap, (line.last(), q), g) && leaps[k] == less(LEAP, g);
    assert(call_ensures(gap, (p, q), g));
}

/// The lines of the rings follow one another in the order of the rings.
pub proof fn law_lines_of_rings_follow(ls: Seq<Seq<Seq<Pair>>>, l: Seq<Seq<Pair>>)
    ensures
        chained(ls.push(l)) == chained(ls) + l,
        chained(Seq::empty()).len() == 0,
{
    assert(ls.push(l).drop_last() =~= ls);
}

/// A line of a table of pipes has four fields between tabs: its shape, its pressure, its material
/// and its date. The shape gives the lists of coordinates, the pressure of the national network
/// marks a corridor, the material is written into a specification, and the date gives the year.
pub proof fn law_fields_of_pipe_lines(line: Seq<char>, y: int)
    requires
        pieces(line, Class::Is('\t')).len() >= 4,
    ensures
        ({
            let f = pieces(line, Class::Is('\t'));
            let l = pipe_line_of(line);
            &&& l.rings == rings_of(f[0])
            &&& l.corridor <==> f[1] == "NTS"@
            &&& f[1] == "LP"@ ==> l.layer == "Low Pressure Mains & Plant"@
            &&& f[1] == "MP"@ ==> l.layer == "Medium Pressure Mains & Plant"@
            &&& f[1] == "IP"@ ==> l.layer == "Intermediate Pressure Mains & Plant"@
            &&& f[1] == "HP"@ ==> l.layer == "Local High Pressure Mains & Plant"@
            &&& f[1] == "LHP"@ ==> l.layer == "Local High Pressure Mains & Plant"@
            &&& f[1] == "NTS"@ ==> l.layer == "NTS"@
            &&& f[2].len() == 0 ==> l.tip is None
            &&& f[2].len() > 0 ==> l.tip is Some && (l.tip->0).len() == 4 + f[2].len() && (
            l.tip->0).skip(4) == f[2] && (l.tip->0).take(4) == "0MM "@
            &&& f[3].len() >= 4 && (forall|i: int|
                0 <= i < f[3].len() ==> (#[trigger] f[3][i] as u32) < 0x80) && integer(
                f[3].subrange(0, 4),
                true,
            ) == Some(y) && -999 <= y <= 9999 ==> l.year == y
            &&& f[3].len() == 0 ==> l.year == 0
        }),
{
    reveal_strlit("LP");
    reveal_strlit("MP");
    reveal_strlit("IP");
    reveal_strlit("HP");
    reveal_strlit("LHP");
    reveal_strlit("NTS");
    reveal_strlit("0MM ");
    let f = pieces(line, Class::Is('\t'));
    assert("LP"@[0] == 'L' && "MP"@[0] == 'M' && "IP"@[0] == 'I' && "HP"@[0] == 'H');
    assert("LHP"@.len() == 3 && "NTS"@.len() == 3 && "LHP"@[0] == 'L' && "NTS"@[0] == 'N');
    if f[2].len() > 0 {
        let t = "0MM "@ + f[2];
        assert(t.skip(4) =~= f[2]);
        assert(t.take(4) =~= "0MM "@);
    }
    if f[3].len() == 0 {
        law_ascii_prefix(f[3], 4);
    }
    if f[3].len() >= 4 && (forall|i: int| 0 <= i < f[3].len() ==> (#[trigger] f[3][i] as u32) < 0x80) {
        law_ascii_prefix(f[3], 4);
        assert(f[3].take(4) =~= f[3].subrange(0, 4));
    }
}

/// A code of pressure without a layer of its own is its layer.
pub proof fn law_other_codes_are_layers(p: Seq<char>)
    requires
        p != "LP"@,
        p != "MP"@,
        p != "IP"@,
        p != "HP"@,
        p != "LHP"@,
    ensures
        layer_of(p) == p,
{
}

/// A field that a line does not have is empty.
pub proof fn law_missing_fields_are_empty(line: Seq<char>, i: int)
    requires
        i >= pieces(line, Class::Is('\t')).len(),
    ensures
        field(line, i).len() == 0,
{
}

/// The row of a line of a table of pipes has the line's layer, specification and year, no
/// identifier, source or date, and the lines that were drawn: one as a line, several together.
pub proof fn law_row_of_a_pipe_line(l: PipeLineView, ls: Seq<Seq<Vertex>>)
    requires
        -0x8000_0000 <= l.year <= 0x7fff_ffff,
    ensures
        ls.len() == 0 <==> pipe_row_of(l, ls) is None,
        ls.len() > 0 ==> {
            let r = pipe_row_of(l, ls)->0;
            &&& r.layer == l.layer
            &&& r.tip == l.tip
            &&& r.year is Some
            &&& r.year->0 == l.year
            &&& r.fid is None && r.src is None && r.date is None
            &&& r.square.len() == 0 && r.facet.len() == 0
            &&& ls.len() == 1 ==> r.geom == GeomView::Line(ls[0])
            &&& ls.len() > 1 ==> r.geom == GeomView::Multi(ls)
        },
{
}

/// The rows that are there come in the order of the lines.
pub proof fn law_rows_come_in_order(rs: Seq<Option<RowView>>, r: RowView)
    ensures
        somes(rs.push(Some(r))) == somes(rs).push(r),
        somes(rs.push(None)) == somes(rs),
{
    assert(rs.push(Some(r)).drop_last() =~= rs);
    assert(rs.push(None).drop_last() =~= rs);
}

/// A corridor is drawn by its axis and every other line by its own course, each from its own
/// lists of coordinates.
pub proof fn law_corridors_are_drawn_by_their_axis<
    C: Fn(&Vec<Vec<(String, String)>>) -> Vec<Vec<Vertex>>,
    S: Fn(&Vec<Vec<(String, String)>>) -> Vec<Vec<Vertex>>,
>(axis: C, course: S, l: PipeLineView, r: Option<RowView>)
    requires
        makes_row(axis, course, l, r),
    ensures
        l.corridor ==> exists|rings: &Vec<Vec<(String, String)>>, ls: Vec<Vec<Vertex>>| #[trigger]
            call_ensures(axis, (rings,), ls) && rings.deep_view() == l.rings && r == pipe_row_of(
                l,
                contents(ls@),
            ),
        !l.corridor ==> exists|rings: &Vec<Vec<(String, String)>>, ls: Vec<Vec<Vertex>>| #[trigger]
            call_ensures(course, (rings,), ls) && rings.deep_view() == l.rings && r == pipe_row_of(
                l,
                contents(ls@),
            ),
{
}

/// A site is labelled with its location without the digits at its end, then a tab, then the
/// words for its facility.
pub proof fn law_label_of_a_site(name: Seq<char>, digits: Seq<char>, fac: Seq<char>)
    requires
        forall|i: int| 0 <= i < name.len() ==> #[trigger] name[i] != '_',
        is_trimmed(name),
        name.len() > 0 ==> !('0' <= name.last() <= '9'),
        forall|i: int| 0 <= i < digits.len() ==> '0' <= #[trigger] digits[i] <= '9',
        is_trimmed(fac),
    ensures
        site_label(fac, name + digits) == name + seq!['\t'] + facility(fac),
{
    reveal_strlit("\t");
    let loc = name + digits;
    assert forall|i: int| 0 <= i < loc.len() implies #[trigger] loc[i] != '_' by {
        if i < name.len() {
            assert(loc[i] == name[i]);
        } else {
            assert(loc[i] == digits[i - name.len()]);
        }
    }
    assert(replaced(loc, Class::Is('_'), ' ') =~= loc);
    law_strips_all_behind(name, digits, Class::Digit);
    law_trimmed(name);
    law_trimmed(fac);
    assert("\t"@ =~= seq!['\t']);
}

/// Three codes of facilities have words, and any other stands for itself.
pub proof fn law_words_for_facilities(code: Seq<char>)
    ensures
        facility("AGI"@) == "above-ground installation"@,
        facility("COMP"@) == "compressor station"@,
        facility("TCSITE"@) == "terminal"@,
        code != "AGI"@ && code != "COMP"@ && code != "TCSITE"@ ==> facility(code) == code,
{
    reveal_strlit("AGI");
    reveal_strlit("COMP");
    reveal_strlit("TCSITE");
    assert("AGI"@.len() == 3 && "COMP"@.len() == 4 && "TCSITE"@.len() == 6);
}

/// Each underscore in a site's location is shown as a space.
pub proof fn law_underscores_are_shown_as_spaces(fac: Seq<char>, a: Seq<char>, b: Seq<char>)
    ensures
        site_label(fac, a + seq!['_'] + b) == site_label(fac, a + seq![' '] + b),
{
    assert(replaced(a + seq!['_'] + b, Class::Is('_'), ' ') =~= replaced(
        a + seq![' '] + b,
        Class::Is('_'),
        ' ',
    ));
}

/// A site's line has its shape, its facility and its location between tabs; the site lies in the
/// first list of coordinates, and there is none where there is no list.
pub proof fn law_fields_of_sites(line: Seq<char>, ls: Seq<Seq<char>>)
    requires
        pieces(line, Class::Is('\t')).len() >= 3,
    ensures
        ({
            let f = pieces(line, Class::Is('\t'));
            let r = rings_of(f[0]);
            let was = sites_of(ls);
            let now = sites_of(ls.push(line));
            &&& r.len() == 0 ==> now == was
            &&& r.len() > 0 ==> now.len() == was.len() + 1 && now.drop_last() == was
                && now.last().ring == r[0] && now.last().label == site_label(f[1], f[2])
        }),
{
    assert(ls.push(line).drop_last() =~= ls);
    let now = sites_of(ls.push(line));
    if rings_of(field(line, 0)).len() > 0 {
        assert(now.drop_last() =~= sites_of(ls));
    }
}

/// Sites come from south to north and, on one northing, by their labels.
pub proof fn law_sites_come_from_south_to_north(
    ys: Seq<u64>,
    labels: Seq<Seq<char>>,
    r: Seq<usize>,
    i: int,
    j: int,
)
    requires
        is_order(northing_ranks(ys), labels, r),
        0 <= i < j < r.len(),
    ensures
        r.len() == ys.len(),
        r[i] != r[j],
        !less(ys[r[j] as int], ys[r[i] as int]),
        ys[r[i] as int] == ys[r[j] as int] ==> !bytes_lt(
            encode_utf8(labels[r[j] as int]),
            encode_utf8(labels[r[i] as int]),
        ),
{
    law_order_puts_smaller_first(northing_ranks(ys), labels, r, i, j);
}

/// The bit pattern of a site's flag is that of the number two.
pub proof fn law_site_flag_is_two()
    ensures
        SITE / 0x80_0000 == 128,
        SITE % 0x80_0000 == 0,
{
}

/// A date whose first four characters are no number gives no year.
pub proof fn law_dates_without_a_year(date: Seq<char>)
    requires
        forall|i: int| 0 <= i < date.len() ==> (#[trigger] date[i] as u32) < 0x80,
    ensures
        date.len() < 4 ==> year_of(date) == 0,
        date.len() >= 4 && integer(date.subrange(0, 4), true) is None ==> year_of(date) == 0,
{
    law_ascii_prefix(date, 4);
    if date.len() >= 4 {
        assert(date.take(4) =~= date.subrange(0, 4));
    }
}

/// Every vertex of every ring is looked at as a possible partner of a vertex, ring by ring and in
/// the order of each ring.
pub proof fn law_every_vertex_is_looked_at<
    D: Fn(usize, usize, usize, usize) -> u64,
    A: Fn(usize, usize, usize) -> u64,
>(lens: Seq<usize>, dist: D, arc: A, ri: int, i: int, cs: Seq<Cand>, p: int, k: int)
    requires
        surveyed(lens, dist, arc, ri, i, lens.len() as int, 0, cs),
        0 <= p < lens.len(),
        0 <= k < lens[p],
    ensures
        before(lens, 0) == 0,
        before(lens, p + 1) == before(lens, p) + lens[p],
        cs.len() == before(lens, lens.len() as int),
        0 <= before(lens, p) + k < cs.len(),
        cs[before(lens, p) + k].0 == p,
        cs[before(lens, p) + k].1 == k,
        described(dist, arc, ri, i, cs[before(lens, p) + k]),
{
    lemma_before(lens, p, lens.len() as int);
    lemma_before_positive(lens, p);
    assert(cs[before(lens, p) + k].0 == p);
}

/// The lines along the axis are traced ring by ring, each ring by the partners of all its
/// vertices.
pub proof fn law_axis_is_traced_by_all_rings<
    D: Fn(usize, usize, usize, usize) -> u64,
    A: Fn(usize, usize, usize) -> u64,
    G: Fn(Pair, Pair) -> u64,
>(lens: Seq<usize>, dist: D, arc: A, gap: G, r: Seq<Seq<Pair>>)
    requires
        axis_of(lens, dist, arc, gap, r),
    ensures
        exists|ls: Seq<Seq<Seq<Pair>>>| #[trigger]
            chained(ls) == r && ls.len() == lens.len() && forall|ri: int|
                0 <= ri < ls.len() ==> ring_traced(lens, dist, arc, gap, ri, #[trigger] ls[ri]),
{
    let ls = choose|ls: Seq<Seq<Seq<Pair>>>| #[trigger]
        rings_traced(lens, dist, arc, gap, ls) && ls.len() == lens.len() && r == chained(ls);
    assert(chained(ls) == r);
}

/// A ring's lines are those of the partners of its vertices, one for each vertex in order.
pub proof fn law_ring_is_traced_by_its_vertices<
    D: Fn(usize, usize, usize, usize) -> u64,
    A: Fn(usize, usize, usize) -> u64,
    G: Fn(Pair, Pair) -> u64,
>(lens: Seq<usize>, dist: D, arc: A, gap: G, ri: int, ls: Seq<Seq<Pair>>)
    requires
        ring_traced(lens, dist, arc, gap, ri, ls),
    ensures
        exists|picks: Seq<Option<Pair>>, leaps: Seq<bool>| #[trigger]
            ring_lines(picks, leaps) == ls && picks.len() == lens[ri] && leaps.len() == picks.len()
                && (forall|k: int|
                0 <= k < picks.len() ==> partnered(lens, dist, arc, ri, k, #[trigger] picks[k])) && (
            forall|k: int| 0 <= k < picks.len() ==> #[trigger] leap_seen(gap, picks, leaps, k)),
{
    let (picks, leaps) = choose|picks: Seq<Option<Pair>>, leaps: Seq<bool>| #[trigger]
        walked_ring(lens, dist, arc, gap, ri, picks, leaps) && picks.len() == lens[ri] && ls
            == ring_lines(picks, leaps);
    assert(ring_lines(picks, leaps) == ls);
}

/// Every line of a table of pipes makes a row or none, in order.
pub proof fn law_each_line_makes_its_row<
    C: Fn(&Vec<Vec<(String, String)>>) -> Vec<Vec<Vertex>>,
    S: Fn(&Vec<Vec<(String, String)>>) -> Vec<Vec<Vertex>>,
>(axis: C, course: S, ls: Seq<Seq<char>>, rs: Seq<Option<RowView>>, k: int)
    requires
        make_rows(axis, course, ls, rs),
        0 <= k < ls.len(),
    ensures
        rs.len() == ls.len(),
        makes_row(axis, course, pipe_line_of(ls[k]), rs[k]),
{
}

} // verus!
