//! Relief: a coarse grid of posts over the whole map and detailed ones in some cells.
//!
//! A post is an elevation in decimetres above a datum 100 metres below sea level.
use vstd::prelude::*;
use vstd::string::*;
use crate::bytes::{le, put_le};
use crate::number::{float_text, is_float, less, lt};
use crate::text::{lowercased, tokens, tokens_of, Class};
use crate::vocab::Vocab;

verus! {

/// How many detailed posts lie along the edge of a cell.
pub const P: usize = 251;

/// How many bytes the posts of a detailed cell take.
pub const CELL_BYTES: usize = 126_002;

/// Sea level.
pub const SEA: u16 = 1000;

/// The mark of a missing post.
pub const MISSING: u16 = 0xffff;

/// The bits of the numbers between which elevations lie, in metres: -100 and 3000.
pub const LOWEST: u64 = 0xc059_0000_0000_0000;

pub const HIGHEST: u64 = 0x40a7_7000_0000_0000;

/// Whether an elevation is one that occurs.
pub fn is_elevation(v: u64) -> (r: bool)
    ensures
        r == (less(LOWEST, v) && less(v, HIGHEST)),
{
    lt(LOWEST, v) && lt(v, HIGHEST)
}

/// How many coarse posts lie along and across the map when `k` lie along a cell.
pub fn t0_dims(k: usize, ncols: usize, nrows: usize) -> (r: (usize, usize))
    requires
        ncols * k + 1 <= usize::MAX,
        nrows * k + 1 <= usize::MAX,
    ensures
        r.0 == ncols * k + 1,
        r.1 == nrows * k + 1,
{
    (ncols * k + 1, nrows * k + 1)
}

/// What comes of reading a grid of elevations: its header, as texts of numbers, and its
/// values, as texts of numbers.
pub enum Asc {
    /// No number stands where the values should begin.
    Empty,
    /// A name of the header is followed by no number.
    Broken,
    /// The header and the values.
    Grid(Vocab, Vec<String>),
}

/// The numbers among words.
pub open spec fn numbers(ws: Seq<Seq<char>>) -> Seq<Seq<char>>
    decreases ws.len(),
{
    if ws.len() == 0 {
        Seq::empty()
    } else {
        let r = numbers(ws.drop_last());
        if is_float(ws.last()) {
            r.push(ws.last())
        } else {
            r
        }
    }
}

/// What the words from the `i`th on say: pairs of a name and a number up to the first number
/// in a name's place, which is the first value. `Some(None)` where the words end before it,
/// `None` where a name is followed by no number.
pub open spec fn asc_of(ws: Seq<Seq<char>>, i: int, header: Map<Seq<char>, Seq<char>>) -> Option<
    Option<(Map<Seq<char>, Seq<char>>, Seq<Seq<char>>)>,
>
    decreases ws.len() - i,
{
    if i < 0 || i >= ws.len() {
        Some(None)
    } else if is_float(ws[i]) {
        Some(Some((header, numbers(ws.skip(i)))))
    } else if i + 1 < ws.len() && is_float(ws[i + 1]) {
        asc_of(ws, i + 2, header.insert(lowercased(ws[i]), ws[i + 1]))
    } else {
        None
    }
}

fn number_words(ws: &Vec<String>, i: usize) -> (r: Vec<String>)
    requires
        i <= ws.len(),
    ensures
        r.deep_view() == numbers(ws.deep_view().skip(i as int)),
{
    let ghost v = ws.deep_view().skip(i as int);
    let mut out: Vec<String> = Vec::new();
    let mut j = i;
    assert(out.deep_view() =~= numbers(v.take(0)));
    while j < ws.len()
        invariant
            i <= j <= ws.len(),
            v == ws.deep_view().skip(i as int),
            out.deep_view() == numbers(v.take(j - i)),
        decreases ws.len() - j,
    {
        assert(v.take(j - i + 1).drop_last() =~= v.take(j - i));
        assert(v.take(j - i + 1).last() == ws@[j as int]@);
        if float_text(ws[j].as_str()) {
            let ghost before = out.deep_view();
            out.push(ws[j].clone());
            assert(out.deep_view() =~= before.push(ws@[j as int]@));
        }
        j += 1;
    }
    assert(v.take(v.len() as int) =~= v);
    out
}

/// Reads a grid of elevations.
pub fn read_asc(text: &str) -> (r: Asc)
    ensures
        asc_of(tokens(text@, Class::AsciiSpace), 0, Map::empty()) == (match r {
            Asc::Empty => Some(None),
            Asc::Broken => None,
            Asc::Grid(h, v) => Some(Some((h@, v.deep_view()))),
        }),
{
    let ws = tokens_of(text, Class::AsciiSpace);
    let ghost wv = ws.deep_view();
    let ghost all = asc_of(wv, 0, Map::empty());
    let mut header = Vocab::new();
    let mut i: usize = 0;
    while i < ws.len()
        invariant
            i <= ws.len(),
            wv == ws.deep_view(),
            wv == tokens(text@, Class::AsciiSpace),
            all == asc_of(wv, 0, Map::empty()),
            asc_of(wv, i as int, header@) == all,
        decreases ws.len() - i,
    {
        assert(wv[i as int] == ws@[i as int]@);
        if float_text(ws[i].as_str()) {
            return Asc::Grid(header, number_words(&ws, i));
        }
        if i + 1 >= ws.len() {
            return Asc::Broken;
        }
        assert(wv[i + 1] == ws@[i + 1]@);
        if !float_text(ws[i + 1].as_str()) {
            return Asc::Broken;
        }
        header.insert(ws[i].as_str().to_lowercase(), ws[i + 1].clone());
        i += 2;
    }
    Asc::Empty
}

/// The posts of the whole map, row by row from south to north.
pub struct Master {
    pub g: Vec<u16>,
    pub nx: usize,
    pub ny: usize,
}

/// The smaller of two numbers.
pub open spec fn lesser(a: int, b: int) -> int {
    if a < b {
        a
    } else {
        b
    }
}

/// The number of a post in its column and row.
pub open spec fn post_index(nx: int, x: int, y: int) -> int {
    y * nx + x
}

proof fn lemma_post_index(nx: int, ny: int, x: int, y: int)
    requires
        0 <= x < nx,
        0 <= y < ny,
    ensures
        0 <= y * nx,
        0 <= post_index(nx, x, y) < nx * ny,
{
    assert(0 <= y * nx) by (nonlinear_arith)
        requires
            0 <= y,
            0 <= nx,
    ;
    assert(y * nx + nx <= nx * ny) by (nonlinear_arith)
        requires
            y + 1 <= ny,
            0 <= nx,
    ;
}

proof fn lemma_posts_differ(nx: int, x: int, y: int, v: int, w: int)
    requires
        0 <= x < nx,
        0 <= v < nx,
        post_index(nx, x, y) == post_index(nx, v, w),
    ensures
        x == v,
        y == w,
{
    assert(y == w) by (nonlinear_arith)
        requires
            0 <= x < nx,
            0 <= v < nx,
            y * nx + x == w * nx + v,
    ;
}

/// What one grid of elevations writes: where its rows and columns fall among the posts, if
/// anywhere, and its posts, if they are in range.
pub struct Patch {
    pub rows: Vec<Option<usize>>,
    pub cols: Vec<Option<usize>>,
    pub vals: Vec<Option<u16>>,
}

impl Patch {
    /// Whether the patch fits: it has all values, and none falls outside the posts.
    pub open spec fn fits(&self, nx: int, ny: int) -> bool {
        &&& self.rows@.len() * self.cols@.len() <= self.vals@.len()
        &&& forall|r: int|
            0 <= r < self.rows@.len() ==> (#[trigger] self.rows@[r] matches Some(y) ==> y < ny)
        &&& forall|c: int|
            0 <= c < self.cols@.len() ==> (#[trigger] self.cols@[c] matches Some(x) ==> x < nx)
    }

    /// Whether the value in a row and column of the patch falls on a post.
    pub open spec fn hits(&self, r: int, c: int, x: int, y: int) -> bool {
        &&& 0 <= r < self.rows@.len()
        &&& 0 <= c < self.cols@.len()
        &&& self.rows@[r] matches Some(py) && py == y
        &&& self.cols@[c] matches Some(px) && px == x
        &&& self.vals@[r * self.cols@.len() + c] is Some
    }

    /// Whether none of the values is the mark of a missing post.
    pub open spec fn sound(&self) -> bool {
        forall|i: int| 0 <= i < self.vals@.len() ==> (#[trigger] self.vals@[i] matches Some(v) ==> v < MISSING)
    }

    /// Whether no value after a row and column of the patch falls on a post.
    pub open spec fn last_hit(&self, r: int, c: int, x: int, y: int) -> bool {
        &&& self.hits(r, c, x, y)
        &&& forall|s: int, d: int| #[trigger]
            self.hits(s, d, x, y) ==> s < r || (s == r && d <= c)
    }
}

/// What a post is after a patch: the last value that falls on it or, where none does, what it
/// was.
pub open spec fn post_after(p: Patch, x: int, y: int, was: u16, now: u16) -> bool {
    ||| exists|r: int, c: int| #[trigger]
        p.last_hit(r, c, x, y) && p.vals@[r * p.cols@.len() + c] == Some(now)
    ||| (now == was && forall|r: int, c: int| !(#[trigger] p.hits(r, c, x, y)))
}

impl Master {
    /// Whether there are posts, as many as columns and rows.
    pub open spec fn wf(&self) -> bool {
        &&& 1 <= self.nx
        &&& 1 <= self.ny
        &&& self.g.len() == self.nx * self.ny
    }

    /// Whether no post is the mark of a missing one.
    pub open spec fn sound(&self) -> bool {
        forall|i: int| 0 <= i < self.g@.len() ==> #[trigger] self.g@[i] < MISSING
    }

    /// The post in a column and row.
    pub open spec fn post(&self, x: int, y: int) -> u16 {
        self.g@[post_index(self.nx as int, x, y)]
    }

    /// Posts at sea level.
    pub fn new(nx: usize, ny: usize) -> (r: Master)
        requires
            1 <= nx,
            1 <= ny,
            nx * ny <= usize::MAX,
        ensures
            r.wf(),
            r.nx == nx,
            r.ny == ny,
            forall|i: int| 0 <= i < r.g.len() ==> #[trigger] r.g@[i] == SEA,
            r.sound(),
    {
        let n = nx * ny;
        let mut g: Vec<u16> = Vec::new();
        let mut i: usize = 0;
        while i < n
            invariant
                i <= n,
                g.len() == i,
                forall|k: int| 0 <= k < i ==> #[trigger] g@[k] == SEA,
            decreases n - i,
        {
            g.push(SEA);
            i += 1;
        }
        Master { g, nx, ny }
    }

    /// The post that is nearest to a column and row within the posts.
    pub fn nearest(&self, x: usize, y: usize) -> (r: u16)
        requires
            self.wf(),
        ensures
            r == self.post(lesser(x as int, self.nx - 1), lesser(y as int, self.ny - 1)),
            self.sound() ==> r < MISSING,
    {
        let x = if x < self.nx - 1 {
            x
        } else {
            self.nx - 1
        };
        let y = if y < self.ny - 1 {
            y
        } else {
            self.ny - 1
        };
        proof {
            lemma_post_index(self.nx as int, self.ny as int, x as int, y as int);
        }
        self.g[y * self.nx + x]
    }

    /// The four posts around a point whose column and row begin at `x` and `y`: south-west,
    /// south-east, north-west and north-east.
    pub fn corners(&self, x: usize, y: usize) -> (r: (u16, u16, u16, u16))
        requires
            self.wf(),
            x < usize::MAX,
            y < usize::MAX,
        ensures
            ({
                let (x0, y0) = (lesser(x as int, self.nx - 1), lesser(y as int, self.ny - 1));
                let (x1, y1) = (lesser(x + 1, self.nx - 1), lesser(y + 1, self.ny - 1));
                r == (
                    self.post(x0, y0),
                    self.post(x1, y0),
                    self.post(x0, y1),
                    self.post(x1, y1),
                )
            }),
            self.sound() ==> r.0 < MISSING && r.1 < MISSING && r.2 < MISSING && r.3 < MISSING,
    {
        (self.nearest(x, y), self.nearest(x + 1, y), self.nearest(x, y + 1), self.nearest(x + 1, y + 1))
    }
}

/// Whether a row and column of a patch come before others, row by row.
spec fn comes_before(r: int, c: int, s: int, d: int) -> bool {
    r < s || (r == s && c < d)
}

/// Whether a value falls on a post and no later one does, among those before a row and column.
spec fn last_before(p: Patch, s: int, d: int, r: int, c: int, x: int, y: int) -> bool {
    &&& p.hits(r, c, x, y)
    &&& comes_before(r, c, s, d)
    &&& forall|t: int, e: int| #[trigger]
        p.hits(t, e, x, y) && comes_before(t, e, s, d) ==> t < r || (t == r && e <= c)
}

/// What a post is after the values before a row and column.
spec fn post_so_far(p: Patch, s: int, d: int, x: int, y: int, was: u16, now: u16) -> bool {
    ||| exists|r: int, c: int| #[trigger]
        last_before(p, s, d, r, c, x, y) && p.vals@[r * p.cols@.len() + c] == Some(now)
    ||| (now == was && forall|r: int, c: int|
        #[trigger] p.hits(r, c, x, y) ==> !comes_before(r, c, s, d))
}

proof fn lemma_missed(p: Patch, s: int, d: int, x: int, y: int, was: u16, now: u16)
    requires
        post_so_far(p, s, d, x, y, was, now),
        !p.hits(s, d, x, y),
    ensures
        post_so_far(p, s, d + 1, x, y, was, now),
{
    if exists|r: int, c: int| #[trigger]
        last_before(p, s, d, r, c, x, y) && p.vals@[r * p.cols@.len() + c] == Some(now) {
        let (r, c) = choose|r: int, c: int| #[trigger]
            last_before(p, s, d, r, c, x, y) && p.vals@[r * p.cols@.len() + c] == Some(now);
        assert(last_before(p, s, d + 1, r, c, x, y));
    }
}

proof fn lemma_hit(p: Patch, s: int, d: int, x: int, y: int, was: u16, now: u16)
    requires
        p.hits(s, d, x, y),
        p.vals@[s * p.cols@.len() + d] == Some(now),
    ensures
        post_so_far(p, s, d + 1, x, y, was, now),
{
    assert(last_before(p, s, d + 1, s, d, x, y));
}

proof fn lemma_next_row(p: Patch, s: int, d: int, x: int, y: int, was: u16, now: u16)
    requires
        post_so_far(p, s, d, x, y, was, now),
        d == p.cols@.len() || (0 <= s < p.rows@.len() && p.rows@[s] is None),
    ensures
        post_so_far(p, s + 1, 0, x, y, was, now),
{
    if exists|r: int, c: int| #[trigger]
        last_before(p, s, d, r, c, x, y) && p.vals@[r * p.cols@.len() + c] == Some(now) {
        let (r, c) = choose|r: int, c: int| #[trigger]
            last_before(p, s, d, r, c, x, y) && p.vals@[r * p.cols@.len() + c] == Some(now);
        assert(last_before(p, s + 1, 0, r, c, x, y));
    }
}

proof fn lemma_all_seen(p: Patch, x: int, y: int, was: u16, now: u16)
    requires
        post_so_far(p, p.rows@.len() as int, 0, x, y, was, now),
    ensures
        post_after(p, x, y, was, now),
{
    let s = p.rows@.len() as int;
    if exists|r: int, c: int| #[trigger]
        last_before(p, s, 0, r, c, x, y) && p.vals@[r * p.cols@.len() + c] == Some(now) {
        let (r, c) = choose|r: int, c: int| #[trigger]
            last_before(p, s, 0, r, c, x, y) && p.vals@[r * p.cols@.len() + c] == Some(now);
        assert(p.last_hit(r, c, x, y));
    }
}

impl Master {
    /// Writes the values of a patch to the posts that they fall on.
    #[verifier::rlimit(60)]
    pub fn patch(&mut self, p: &Patch)
        requires
            old(self).wf(),
            p.fits(old(self).nx as int, old(self).ny as int),
        ensures
            final(self).wf(),
            final(self).nx == old(self).nx,
            final(self).ny == old(self).ny,
            forall|x: int, y: int|
                0 <= x < old(self).nx && 0 <= y < old(self).ny ==> post_after(
                    *p,
                    x,
                    y,
                    old(self).post(x, y),
                    #[trigger] final(self).post(x, y),
                ),
            old(self).sound() && p.sound() ==> final(self).sound(),
    {
        let ghost was = *self;
        let (nx, ny) = (self.nx, self.ny);
        let nr = p.rows.len();
        let nc = p.cols.len();
        let mut base: usize = 0;
        let mut r: usize = 0;
        while r < nr
            invariant
                was.wf(),
                self.wf(),
                self.nx == nx == was.nx,
                self.ny == ny == was.ny,
                nr == p.rows.len(),
                nc == p.cols.len(),
                p.fits(nx as int, ny as int),
                r <= nr,
                base == r * nc,
                nr * nc <= p.vals.len(),
                forall|x: int, y: int|
                    0 <= x < nx && 0 <= y < ny ==> post_so_far(
                        *p,
                        r as int,
                        0,
                        x,
                        y,
                        was.post(x, y),
                        #[trigger] self.post(x, y),
                    ),
            decreases nr - r,
        {
            assert(r * nc + nc == (r + 1) * nc) by (nonlinear_arith);
            assert((r + 1) * nc <= nr * nc) by (nonlinear_arith)
                requires
                    r + 1 <= nr,
                    0 <= nc,
            ;
            match p.rows[r] {
                None => {
                    assert forall|x: int, y: int| 0 <= x < nx && 0 <= y < ny implies post_so_far(
                        *p,
                        r + 1,
                        0,
                        x,
                        y,
                        was.post(x, y),
                        #[trigger] self.post(x, y),
                    ) by {
                        lemma_next_row(
                            *p,
                            r as int,
                            0,
                            x,
                            y,
                            was.post(x, y),
                            self.post(x, y),
                        );
                    }
                },
                Some(gy) => {
                    assert(p.rows@[r as int] == Some(gy));
                    let mut c: usize = 0;
                    while c < nc
                        invariant
                            was.wf(),
                            self.wf(),
                            self.nx == nx == was.nx,
                            self.ny == ny == was.ny,
                            nr == p.rows.len(),
                            nc == p.cols.len(),
                            p.fits(nx as int, ny as int),
                            r < nr,
                            c <= nc,
                            base == r * nc,
                            base + nc <= p.vals.len(),
                            p.rows@[r as int] == Some(gy),
                            gy < ny,
                            forall|x: int, y: int|
                                0 <= x < nx && 0 <= y < ny ==> post_so_far(
                                    *p,
                                    r as int,
                                    c as int,
                                    x,
                                    y,
                                    was.post(x, y),
                                    #[trigger] self.post(x, y),
                                ),
                        decreases nc - c,
                    {
                        let ghost now = *self;
                        let ghost mut hit: Option<(int, u16)> = None;
                        match (p.cols[c], p.vals[base + c]) {
                            (Some(gx), Some(v)) => {
                                assert(p.cols@[c as int] == Some(gx));
                                proof {
                                    lemma_post_index(
                                        nx as int,
                                        ny as int,
                                        gx as int,
                                        gy as int,
                                    );
                                    hit = Some((gx as int, v));
                                }
                                self.g.set(gy * nx + gx, v);
                            },
                            _ => {},
                        }
                        assert forall|x: int, y: int|
                            0 <= x < nx && 0 <= y < ny implies post_so_far(
                            *p,
                            r as int,
                            c + 1,
                            x,
                            y,
                            was.post(x, y),
                            #[trigger] self.post(x, y),
                        ) by {
                            lemma_post_index(nx as int, ny as int, x, y);
                            assert(post_so_far(
                                *p,
                                r as int,
                                c as int,
                                x,
                                y,
                                was.post(x, y),
                                now.post(x, y),
                            ));
                            match hit {
                                Some((gx, v)) => {
                                    if x == gx && y == gy {
                                        lemma_hit(*p, r as int, c as int, x, y, was.post(x, y), v);
                                    } else {
                                        if post_index(nx as int, x, y) == post_index(
                                            nx as int,
                                            gx,
                                            gy as int,
                                        ) {
                                            lemma_posts_differ(nx as int, x, y, gx, gy as int);
                                        }
                                        lemma_missed(
                                            *p,
                                            r as int,
                                            c as int,
                                            x,
                                            y,
                                            was.post(x, y),
                                            now.post(x, y),
                                        );
                                    }
                                },
                                None => {
                                    lemma_missed(
                                        *p,
                                        r as int,
                                        c as int,
                                        x,
                                        y,
                                        was.post(x, y),
                                        now.post(x, y),
                                    );
                                },
                            }
                        }
                        c += 1;
                    }
                    assert forall|x: int, y: int| 0 <= x < nx && 0 <= y < ny implies post_so_far(
                        *p,
                        r + 1,
                        0,
                        x,
                        y,
                        was.post(x, y),
                        #[trigger] self.post(x, y),
                    ) by {
                        lemma_next_row(
                            *p,
                            r as int,
                            nc as int,
                            x,
                            y,
                            was.post(x, y),
                            self.post(x, y),
                        );
                    }
                },
            }
            base += nc;
            r += 1;
        }
        assert forall|x: int, y: int| 0 <= x < nx && 0 <= y < ny implies post_after(
            *p,
            x,
            y,
            was.post(x, y),
            #[trigger] self.post(x, y),
        ) by {
            lemma_all_seen(*p, x, y, was.post(x, y), self.post(x, y));
        }
        proof {
            if was.sound() && p.sound() {
                law_patch_keeps_posts_sound(was, *p, *self);
            }
        }
    }
}

/// Where neither the posts nor the values of a patch are the mark of a missing post, no post is
/// after the patch.
pub proof fn law_patch_keeps_posts_sound(was: Master, p: Patch, now: Master)
    requires
        was.wf(),
        now.wf(),
        was.nx == now.nx,
        was.ny == now.ny,
        p.fits(was.nx as int, was.ny as int),
        was.sound(),
        p.sound(),
        forall|x: int, y: int|
            0 <= x < was.nx && 0 <= y < was.ny ==> post_after(
                p,
                x,
                y,
                was.post(x, y),
                #[trigger] now.post(x, y),
            ),
    ensures
        now.sound(),
{
    let (nx, ny) = (was.nx as int, was.ny as int);
    assert forall|i: int| 0 <= i < now.g@.len() implies #[trigger] now.g@[i] < MISSING by {
        let (x, y) = (i % nx, i / nx);
        lemma_post_of(nx, ny, i);
        lemma_post_index(nx, ny, x, y);
        assert(now.post(x, y) == now.g@[i]);
        assert(was.post(x, y) == was.g@[i]);
        if exists|r: int, c: int| #[trigger]
            p.last_hit(r, c, x, y) && p.vals@[r * p.cols@.len() + c] == Some(now.post(x, y)) {
            let (r, c) = choose|r: int, c: int| #[trigger]
                p.last_hit(r, c, x, y) && p.vals@[r * p.cols@.len() + c] == Some(now.post(x, y));
            let k = r * p.cols@.len() + c;
            let (nr, nc) = (p.rows@.len() as int, p.cols@.len() as int);
            assert(p.hits(r, c, x, y));
            assert(0 <= k < nr * nc) by (nonlinear_arith)
                requires
                    0 <= r < nr,
                    0 <= c < nc,
                    k == r * nc + c,
            ;
            assert(p.vals@[k] matches Some(v) ==> v < MISSING);
        }
    }
}

/// Every number of a post is that of a column and a row.
proof fn lemma_post_of(nx: int, ny: int, i: int)
    requires
        1 <= nx,
        0 <= i < nx * ny,
    ensures
        0 <= i % nx < nx,
        0 <= i / nx < ny,
        post_index(nx, i % nx, i / nx) == i,
{
    assert(0 <= i % nx < nx && i == (i / nx) * nx + i % nx && 0 <= i / nx) by (nonlinear_arith)
        requires
            1 <= nx,
            0 <= i,
    ;
    assert(i / nx < ny) by (nonlinear_arith)
        requires
            1 <= nx,
            i < nx * ny,
            i == (i / nx) * nx + i % nx,
            0 <= i % nx,
    ;
}

/// The bytes of the first `n` coarse posts of a row: every fourth post of the map's.
pub open spec fn coarse_row(m: Master, n: nat, y: int) -> Seq<u8>
    decreases n,
{
    if n == 0 {
        Seq::empty()
    } else {
        coarse_row(m, (n - 1) as nat, y) + le(
            m.post(lesser(4 * (n - 1), m.nx - 1), lesser(4 * y, m.ny - 1)) as nat,
            2,
        )
    }
}

/// The bytes of the first `k` rows of coarse posts.
pub open spec fn coarse_rows(m: Master, n: nat, k: nat) -> Seq<u8>
    decreases k,
{
    if k == 0 {
        Seq::empty()
    } else {
        coarse_rows(m, n, (k - 1) as nat) + coarse_row(m, n, k - 1)
    }
}

impl Master {
    /// Writes the coarse posts, row by row.
    pub fn tier0(&self, t0x: usize, t0y: usize) -> (b: Vec<u8>)
        requires
            self.wf(),
            4 * t0x <= usize::MAX,
            4 * t0y <= usize::MAX,
        ensures
            b@ == coarse_rows(*self, t0x as nat, t0y as nat),
            b.len() == 2 * (t0y * t0x),
            forall|i: int, j: int|
                #![trigger self.post(4 * i, 4 * j)]
                0 <= i < t0x && 0 <= j < t0y && 4 * i < self.nx && 4 * j < self.ny ==> b@[2 * (j
                    * t0x + i)] + 256 * b@[2 * (j * t0x + i) + 1] == self.post(4 * i, 4 * j),
    {
        let mut b: Vec<u8> = Vec::new();
        let mut j: usize = 0;
        while j < t0y
            invariant
                self.wf(),
                4 * t0x <= usize::MAX,
                4 * t0y <= usize::MAX,
                j <= t0y,
                b@ == coarse_rows(*self, t0x as nat, j as nat),
            decreases t0y - j,
        {
            let ghost before = b@;
            let mut i: usize = 0;
            assert(b@ =~= before + coarse_row(*self, 0, j as int));
            while i < t0x
                invariant
                    self.wf(),
                    4 * t0x <= usize::MAX,
                    4 * t0y <= usize::MAX,
                    j < t0y,
                    i <= t0x,
                    b@ == before + coarse_row(*self, i as nat, j as int),
                decreases t0x - i,
            {
                put_le(&mut b, self.nearest(4 * i, 4 * j) as u64, 2);
                i += 1;
                assert(b@ =~= before + coarse_row(*self, i as nat, j as int));
            }
            j += 1;
        }
        proof {
            lemma_coarse_rows_len(*self, t0x as nat, t0y as nat);
            assert forall|i: int, j: int|
                #![trigger self.post(4 * i, 4 * j)]
                0 <= i < t0x && 0 <= j < t0y && 4 * i < self.nx && 4 * j < self.ny implies b@[2 * (j
                * t0x + i)] + 256 * b@[2 * (j * t0x + i) + 1] == self.post(4 * i, 4 * j) by {
                law_coarse_posts_are_every_fourth(*self, t0x as nat, t0y as nat, i, j);
            }
        }
        b
    }
}

/// Whether the bytes of a cell have the right length; others mark a cell without detail.
pub fn is_detailed(raw: &Vec<u8>) -> (r: bool)
    ensures
        r == (raw@.len() == CELL_BYTES),
{
    raw.len() == CELL_BYTES
}

/// Whether a post of a cell is missing.
pub open spec fn hole(raw: Seq<u8>, k: int) -> bool {
    raw[2 * k] == 0xff && raw[2 * k + 1] == 0xff
}

/// How many of the first `n` posts are missing.
pub open spec fn hole_count(raw: Seq<u8>, n: nat) -> nat
    decreases n,
{
    if n == 0 {
        0
    } else {
        hole_count(raw, (n - 1) as nat) + if hole(raw, n - 1) {
            1nat
        } else {
            0nat
        }
    }
}

/// What the two bytes of a post are after the missing posts were filled by `at`.
pub open spec fn filled<F: Fn(usize) -> u16>(
    at: F,
    was: Seq<u8>,
    now: Seq<u8>,
    k: int,
) -> bool {
    if hole(was, k) {
        exists|v: u16| #[trigger]
            call_ensures(at, (k as usize,), v) && now[2 * k] == v % 256 && now[2 * k + 1] == v / 256
    } else {
        now[2 * k] == was[2 * k] && now[2 * k + 1] == was[2 * k + 1]
    }
}

/// Fills the missing posts of a cell with what `at` gives for them, and counts them.
pub fn fill<F: Fn(usize) -> u16>(raw: &mut Vec<u8>, at: F) -> (n: usize)
    requires
        old(raw).len() == CELL_BYTES,
        forall|k: usize| k < P * P ==> #[trigger] call_requires(at, (k,)),
    ensures
        final(raw).len() == CELL_BYTES,
        forall|k: int| 0 <= k < P * P ==> #[trigger] filled(at, old(raw)@, final(raw)@, k),
        n == hole_count(old(raw)@, (P * P) as nat),
{
    let ghost was = raw@;
    let mut n: usize = 0;
    let mut k: usize = 0;
    while k < P * P
        invariant
            k <= P * P,
            n <= k,
            raw.len() == CELL_BYTES,
            was.len() == CELL_BYTES,
            forall|k: usize| k < P * P ==> #[trigger] call_requires(at, (k,)),
            forall|j: int| 0 <= j < k ==> #[trigger] filled(at, was, raw@, j),
            forall|i: int| 2 * k <= i < CELL_BYTES ==> #[trigger] raw@[i] == was[i],
            n == hole_count(was, k as nat),
        decreases P * P - k,
    {
        let ghost before = raw@;
        if raw[2 * k] == 0xff && raw[2 * k + 1] == 0xff {
            assert(hole(was, k as int));
            let v = at(k);
            raw.set(2 * k, (v % 256) as u8);
            raw.set(2 * k + 1, (v / 256) as u8);
            n += 1;
            assert(filled(at, was, raw@, k as int)) by {
                assert(call_ensures(at, ((k as int) as usize,), v));
            }
        } else {
            assert(!hole(was, k as int));
            assert(filled(at, was, raw@, k as int));
        }
        assert forall|j: int| 0 <= j < k + 1 implies #[trigger] filled(at, was, raw@, j) by {
            if j < k {
                assert(filled(at, was, before, j));
                assert(raw@[2 * j] == before[2 * j] && raw@[2 * j + 1] == before[2 * j + 1]);
            }
        }
        k += 1;
    }
    n
}

/// Where no filling is itself the mark of a missing post, none is missing after filling.
pub proof fn law_no_hole_left<F: Fn(usize) -> u16>(at: F, was: Seq<u8>, now: Seq<u8>, k: int)
    requires
        filled(at, was, now, k),
        forall|v: u16| #[trigger] call_ensures(at, (k as usize,), v) ==> v != 0xffff,
    ensures
        !hole(now, k),
{
}

/// What is filled in from posts is never the mark of a missing one: a filling no higher than
/// some post of a map without that mark leaves no post missing.
pub proof fn law_no_hole_left_from_posts<F: Fn(usize) -> u16>(
    m: Master,
    at: F,
    was: Seq<u8>,
    now: Seq<u8>,
    k: int,
)
    requires
        m.sound(),
        filled(at, was, now, k),
        forall|v: u16| #[trigger]
            call_ensures(at, (k as usize,), v) ==> exists|i: int|
                0 <= i < m.g@.len() && v <= #[trigger] m.g@[i],
    ensures
        !hole(now, k),
{
    assert forall|v: u16| #[trigger] call_ensures(at, (k as usize,), v) implies v != MISSING by {
        let i = choose|i: int| 0 <= i < m.g@.len() && v <= #[trigger] m.g@[i];
        assert(m.g@[i] < MISSING);
    }
    law_no_hole_left(at, was, now, k);
}

/// Whether a cell is marked in a bitmap, the lowest bit of each byte first.
pub open spec fn marked(bits: Seq<u8>, c: int) -> bool {
    (bits[c / 8] >> ((c % 8) as u8)) & 1u8 == 1u8
}

/// An empty bitmap for some number of cells.
pub fn new_bits(ncell: usize) -> (r: Vec<u8>)
    ensures
        r.len() == ncell / 8 + if ncell % 8 == 0 {
            0int
        } else {
            1int
        },
        forall|c: int| 0 <= c < ncell ==> !(#[trigger] marked(r@, c)),
{
    let n = if ncell % 8 == 0 {
        ncell / 8
    } else {
        ncell / 8 + 1
    };
    let mut bits: Vec<u8> = Vec::new();
    let mut i: usize = 0;
    while i < n
        invariant
            i <= n,
            bits.len() == i,
            forall|k: int| 0 <= k < i ==> #[trigger] bits@[k] == 0,
        decreases n - i,
    {
        bits.push(0);
        i += 1;
    }
    assert forall|c: int| 0 <= c < ncell implies !(#[trigger] marked(bits@, c)) by {
        let k = (c % 8) as u8;
        assert(bits@[c / 8] == 0);
        assert((0u8 >> k) & 1u8 == 0u8) by (bit_vector);
    }
    bits
}

/// Marks a cell.
pub fn mark(bits: &mut Vec<u8>, cid: usize)
    requires
        cid / 8 < old(bits).len(),
    ensures
        final(bits).len() == old(bits).len(),
        forall|c: int|
            0 <= c < 8 * old(bits).len() ==> (#[trigger] marked(final(bits)@, c) <==> marked(
                old(bits)@,
                c,
            ) || c == cid),
{
    let ghost was = bits@;
    let i = cid / 8;
    let k = (cid % 8) as u8;
    let b = bits[i];
    bits.set(i, b | (1u8 << k));
    assert forall|c: int| 0 <= c < 8 * was.len() implies (#[trigger] marked(bits@, c) <==> marked(
        was,
        c,
    ) || c == cid) by {
        let j = (c % 8) as u8;
        if c / 8 == i {
            assert(((b | (1u8 << k)) >> j) & 1u8 == if j == k {
                1u8
            } else {
                (b >> j) & 1u8
            }) by (bit_vector)
                requires
                    k < 8,
                    j < 8,
            ;
            assert(j == k <==> c == cid);
        }
    }
}

/// Takes the bytes of a cell's detailed posts in: fills the missing ones, marks the cell, and
/// says how many were missing. Bytes of another length are no detail, and nothing happens.
pub fn detail<F: Fn(usize) -> u16>(bits: &mut Vec<u8>, cid: usize, raw: &mut Vec<u8>, at: F) -> (n:
    Option<usize>)
    requires
        cid / 8 < old(bits).len(),
        forall|k: usize| k < P * P ==> #[trigger] call_requires(at, (k,)),
    ensures
        final(bits).len() == old(bits).len(),
        match n {
            Some(n) => {
                &&& old(raw).len() == CELL_BYTES
                &&& final(raw).len() == CELL_BYTES
                &&& n == hole_count(old(raw)@, (P * P) as nat)
                &&& forall|k: int| 0 <= k < P * P ==> #[trigger] filled(at, old(raw)@, final(raw)@, k)
                &&& forall|c: int|
                    0 <= c < 8 * old(bits).len() ==> (#[trigger] marked(final(bits)@, c)
                        <==> marked(old(bits)@, c) || c == cid)
            },
            None => {
                &&& old(raw).len() != CELL_BYTES
                &&& final(raw)@ == old(raw)@
                &&& final(bits)@ == old(bits)@
            },
        },
{
    if is_detailed(raw) {
        let n = fill(raw, at);
        mark(bits, cid);
        Some(n)
    } else {
        None
    }
}

/// How many cells before one are marked.
pub open spec fn rank(bits: Seq<u8>, c: int) -> nat
    decreases c,
{
    if c <= 0 {
        0
    } else {
        rank(bits, c - 1) + if marked(bits, c - 1) {
            1nat
        } else {
            0nat
        }
    }
}

/// The bytes of the detailed cells in ascending order; the others have none.
pub open spec fn detail_bytes(cells: Seq<Option<Seq<u8>>>) -> Seq<u8>
    decreases cells.len(),
{
    if cells.len() == 0 {
        Seq::empty()
    } else {
        let r = detail_bytes(cells.drop_last());
        match cells.last() {
            Some(b) => r + b,
            None => r,
        }
    }
}

proof fn lemma_detail_len(cells: Seq<Option<Seq<u8>>>, bits: Seq<u8>, size: nat)
    requires
        forall|c: int| 0 <= c < cells.len() ==> (#[trigger] cells[c] is Some <==> marked(bits, c)),
        forall|c: int| 0 <= c < cells.len() ==> (#[trigger] cells[c] matches Some(b) ==> b.len() == size),
    ensures
        detail_bytes(cells).len() == rank(bits, cells.len() as int) * size,
    decreases cells.len(),
{
    if cells.len() > 0 {
        let d = cells.drop_last();
        assert forall|c: int| 0 <= c < d.len() implies (#[trigger] d[c] is Some <==> marked(bits, c)) by {
            assert(d[c] == cells[c]);
        }
        assert forall|c: int| 0 <= c < d.len() implies (#[trigger] d[c] matches Some(b) ==> b.len()
            == size) by {
            assert(d[c] == cells[c]);
        }
        lemma_detail_len(d, bits, size);
        let r = rank(bits, d.len() as int);
        assert(cells[cells.len() - 1] == cells.last());
        assert((r + 1) * size == r * size + size) by (nonlinear_arith);
    } else {
        assert(0 * size == 0);
    }
}

/// The bytes of a detailed cell begin at the number of marked cells before it times the bytes
/// that one takes.
pub proof fn law_rank_finds_cell(cells: Seq<Option<Seq<u8>>>, bits: Seq<u8>, size: nat, c: int)
    requires
        forall|i: int| 0 <= i < cells.len() ==> (#[trigger] cells[i] is Some <==> marked(bits, i)),
        forall|i: int| 0 <= i < cells.len() ==> (#[trigger] cells[i] matches Some(b) ==> b.len() == size),
        0 <= c < cells.len(),
        cells[c] is Some,
    ensures
        rank(bits, c) * size + size <= detail_bytes(cells).len(),
        Some(
            detail_bytes(cells).subrange(
                (rank(bits, c) * size) as int,
                (rank(bits, c) * size + size) as int,
            ),
        ) == cells[c],
    decreases cells.len(),
{
    let d = cells.drop_last();
    assert forall|i: int| 0 <= i < d.len() implies (#[trigger] d[i] is Some <==> marked(bits, i)) by {
        assert(d[i] == cells[i]);
    }
    assert forall|i: int| 0 <= i < d.len() implies (#[trigger] d[i] matches Some(b) ==> b.len()
        == size) by {
        assert(d[i] == cells[i]);
    }
    let at = (rank(bits, c) * size) as int;
    if c < d.len() {
        law_rank_finds_cell(d, bits, size, c);
        assert(d[c] == cells[c]);
        assert(detail_bytes(cells).subrange(at, at + size) =~= detail_bytes(d).subrange(
            at,
            at + size,
        ));
    } else {
        lemma_detail_len(d, bits, size);
        assert(cells[c] == cells.last());
        assert(detail_bytes(cells).subrange(at, at + size) =~= cells[c]->0);
    }
}

proof fn lemma_coarse_row(m: Master, n: nat, y: int, i: int)
    requires
        0 <= i < n,
    ensures
        coarse_row(m, n, y).len() == 2 * n,
        ({
            let v = m.post(lesser(4 * i, m.nx - 1), lesser(4 * y, m.ny - 1));
            &&& coarse_row(m, n, y)[2 * i] == v % 256
            &&& coarse_row(m, n, y)[2 * i + 1] == v / 256
        }),
    decreases n,
{
    let p = (n - 1) as nat;
    let v = m.post(lesser(4 * (n - 1), m.nx - 1), lesser(4 * y, m.ny - 1));
    reveal_with_fuel(le, 3);
    assert(le(v as nat, 2) =~= seq![(v % 256) as u8, (v / 256) as u8]);
    if p == 0 {
        assert(coarse_row(m, p, y).len() == 0);
    } else {
        lemma_coarse_row(m, p, y, if i < p {
            i
        } else {
            0
        });
    }
}

proof fn lemma_coarse_rows_len(m: Master, n: nat, k: nat)
    ensures
        coarse_rows(m, n, k).len() == 2 * (k * n),
    decreases k,
{
    if k == 0 {
        assert(0 * n == 0);
    } else {
        lemma_coarse_rows_len(m, n, (k - 1) as nat);
        if n > 0 {
            lemma_coarse_row(m, n, k - 1, 0);
        }
        assert((k - 1) * n + n == k * n) by (nonlinear_arith);
    }
}

proof fn lemma_coarse_rows(m: Master, n: nat, k: nat, i: int, j: int)
    requires
        0 <= i < n,
        0 <= j < k,
    ensures
        ({
            let v = m.post(lesser(4 * i, m.nx - 1), lesser(4 * j, m.ny - 1));
            let at = 2 * (j * n + i);
            &&& 0 <= at
            &&& at + 1 < coarse_rows(m, n, k).len()
            &&& coarse_rows(m, n, k)[at] == v % 256
            &&& coarse_rows(m, n, k)[at + 1] == v / 256
        }),
    decreases k,
{
    let p = (k - 1) as nat;
    lemma_coarse_rows_len(m, n, k);
    lemma_coarse_rows_len(m, n, p);
    lemma_coarse_row(m, n, p as int, i);
    assert(0 <= j * n) by (nonlinear_arith)
        requires
            0 <= j,
            0 <= n,
    ;
    if j < p {
        lemma_coarse_rows(m, n, p, i, j);
    }
}

/// Each coarse post is the post of the map four columns and four rows on from the coarse post
/// before it, so that coarse posts lie four times as far apart as those of the map. The bytes of
/// the one in column `i` and row `j` begin at twice its number, counted row by row, with the
/// lower byte first. Where the coarse posts reach beyond the map, the last column and the last
/// row of the map stand for what lies beyond.
pub proof fn law_coarse_posts_are_every_fourth(m: Master, t0x: nat, t0y: nat, i: int, j: int)
    requires
        m.wf(),
        0 <= i < t0x,
        0 <= j < t0y,
    ensures
        ({
            let b = coarse_rows(m, t0x, t0y);
            let at = 2 * (j * t0x + i);
            let post = b[at] + 256 * b[at + 1];
            let (nx, ny) = (m.nx as int, m.ny as int);
            &&& b.len() == 2 * (t0y * t0x)
            &&& 0 <= at
            &&& at + 1 < b.len()
            &&& 4 * i < nx && 4 * j < ny ==> post == m.g@[4 * j * nx + 4 * i]
            &&& 4 * i >= nx && 4 * j < ny ==> post == m.g@[4 * j * nx + (nx - 1)]
            &&& 4 * i < nx && 4 * j >= ny ==> post == m.g@[(ny - 1) * nx + 4 * i]
            &&& 4 * i >= nx && 4 * j >= ny ==> post == m.g@[(ny - 1) * nx + (nx - 1)]
        }),
{
    lemma_coarse_rows_len(m, t0x, t0y);
    lemma_coarse_rows(m, t0x, t0y, i, j);
}

/// Where the coarse posts are as many as the map needs, the last column and the last row of
/// them are the last ones of the map.
pub proof fn law_last_coarse_posts_are_the_last(m: Master, cols: nat, rows: nat, i: int, j: int)
    requires
        m.wf(),
        m.nx == 4 * cols + 1,
        m.ny == 4 * rows + 1,
        0 <= i <= cols,
        0 <= j <= rows,
    ensures
        ({
            let b = coarse_rows(m, cols + 1, rows + 1);
            let east = 2 * (j * (cols + 1) + cols);
            let north = 2 * (rows * (cols + 1) + i);
            &&& b[east] + 256 * b[east + 1] == m.post(m.nx - 1, 4 * j)
            &&& b[north] + 256 * b[north + 1] == m.post(4 * i, m.ny - 1)
        }),
{
    law_coarse_posts_are_every_fourth(m, cols + 1, rows + 1, cols as int, j);
    law_coarse_posts_are_every_fourth(m, cols + 1, rows + 1, i, rows as int);
}

/// Posts are counted row by row.
pub proof fn law_posts_count_row_by_row(m: Master, x: int, y: int)
    ensures
        m.post(0, 0) == m.g@[0],
        m.post(x, y) == m.g@[y * m.nx + x],
{
    assert(0 * (m.nx as int) == 0);
}

/// A value that a patch alone lays on a post becomes that post, and where several fall on one
/// it is the one in the last row and, there, in the last column; a post that no row or no column
/// of the patch falls on stays as it is, and so does one on which only missing values fall.
pub proof fn law_patch_lays_its_values(p: Patch, r: int, c: int, x: usize, y: usize, was: u16, now: u16)
    requires
        post_after(p, x as int, y as int, was, now),
    ensures
        ({
            let n = p.cols@.len();
            &&& (0 <= r < p.rows@.len() && 0 <= c < n && p.rows@[r] == Some(y) && p.cols@[c] == Some(x)
                && p.vals@[r * n + c] is Some && (forall|s: int|
                r < s < p.rows@.len() ==> #[trigger] p.rows@[s] != Some(y)) && (forall|d: int|
                c < d < n ==> #[trigger] p.cols@[d] != Some(x))) ==> Some(now) == p.vals@[r * n + c]
            &&& (forall|s: int| 0 <= s < p.rows@.len() ==> #[trigger] p.rows@[s] != Some(y)) ==> now
                == was
            &&& (forall|d: int| 0 <= d < n ==> #[trigger] p.cols@[d] != Some(x)) ==> now == was
            &&& (forall|i: int| 0 <= i < p.vals@.len() ==> #[trigger] p.vals@[i] is None)
                && p.rows@.len() * n <= p.vals@.len() ==> now == was
        }),
{
    let n = p.cols@.len();
    let (x, y) = (x as int, y as int);
    if 0 <= r < p.rows@.len() && 0 <= c < n && p.rows@[r] == Some(y as usize) && p.cols@[c] == Some(
        x as usize,
    ) && p.vals@[r * n + c] is Some {
        assert(p.hits(r, c, x, y));
    }
    if exists|s: int, d: int| #[trigger]
        p.last_hit(s, d, x, y) && p.vals@[s * n + d] == Some(now) {
        let (s, d) = choose|s: int, d: int| #[trigger]
            p.last_hit(s, d, x, y) && p.vals@[s * n + d] == Some(now);
        assert(p.hits(s, d, x, y));
        assert(p.rows@[s] == Some(y as usize) && p.cols@[d] == Some(x as usize));
        assert(0 <= s * n + d < p.rows@.len() * n) by (nonlinear_arith)
            requires
                0 <= s < p.rows@.len(),
                0 <= d < n,
        ;
    }
}

/// A post is missing where both its bytes are all ones, and only there; filling leaves every
/// other post alone and writes the filling of a missing one with its lower byte first.
pub proof fn law_filling_touches_holes_alone<F: Fn(usize) -> u16>(
    at: F,
    was: Seq<u8>,
    now: Seq<u8>,
    k: int,
)
    requires
        filled(at, was, now, k),
    ensures
        was[2 * k] + 256 * was[2 * k + 1] != 65535 ==> now[2 * k] == was[2 * k] && now[2 * k + 1]
            == was[2 * k + 1],
        was[2 * k] + 256 * was[2 * k + 1] == 65535 ==> exists|v: u16| #[trigger]
            call_ensures(at, (k as usize,), v) && now[2 * k] + 256 * now[2 * k + 1] == v,
{
    if was[2 * k] + 256 * was[2 * k + 1] == 65535 {
        assert(hole(was, k));
        let v = choose|v: u16| #[trigger]
            call_ensures(at, (k as usize,), v) && now[2 * k] == v % 256 && now[2 * k + 1] == v / 256;
        assert(now[2 * k] + 256 * now[2 * k + 1] == v);
    } else {
        assert(!hole(was, k));
    }
}

/// As many posts are counted as missing as there are whose two bytes are all ones.
pub proof fn law_missing_posts_are_counted(raw: Seq<u8>, n: nat)
    ensures
        hole_count(raw, n) == Seq::new(
            n,
            |k: int| raw[2 * k] + 256 * raw[2 * k + 1] == 65535,
        ).filter(|b: bool| b).len(),
    decreases n,
{
    reveal(Seq::filter);
    if n > 0 {
        law_missing_posts_are_counted(raw, (n - 1) as nat);
        let f = |k: int| raw[2 * k] + 256 * raw[2 * k + 1] == 65535;
        let s = Seq::new(n, f);
        assert(s.drop_last() =~= Seq::new((n - 1) as nat, f));
        assert(s.last() == hole(raw, n - 1));
    }
}

/// The cells are marked by the bits of the bytes in order, the lowest bit of each byte first.
pub proof fn law_marks_are_bits(bits: Seq<u8>, c: int)
    requires
        0 <= c < 8 * bits.len(),
    ensures
        marked(bits, c) <==> bits[c / 8] & (1u8 << ((c % 8) as u8)) != 0,
{
    let b = bits[c / 8];
    let k = (c % 8) as u8;
    assert((b >> k) & 1u8 == 1u8 <==> b & (1u8 << k) != 0) by (bit_vector)
        requires
            k < 8,
    ;
}

/// A cell's rank counts the marked cells before it: it grows by one behind each marked cell.
pub proof fn law_rank_counts_marks(bits: Seq<u8>, c: int)
    requires
        0 <= c,
    ensures
        rank(bits, 0) == 0,
        marked(bits, c) ==> rank(bits, c + 1) == rank(bits, c) + 1,
        !marked(bits, c) ==> rank(bits, c + 1) == rank(bits, c),
{
}

/// A detailed cell has 251 posts on each side, with two bytes for each; a missing post is 65535,
/// and sea level is a thousand decimetres above the datum. Elevations lie between -100 and 3000
/// metres: the bit patterns of those numbers stand for the bounds.
pub proof fn law_numbers_of_the_relief(v: u64)
    requires
        v <= 0x7ff0_0000_0000_0000,
    ensures
        CELL_BYTES == 2 * P * P,
        P == 251,
        MISSING == 65535,
        SEA == 10 * 100,
        less(LOWEST, v),
        less(v, HIGHEST) <==> v < 0x40a7_7000_0000_0000,
        less(LOWEST, (v + 0x8000_0000_0000_0000) as u64) <==> v < 0x4059_0000_0000_0000,
        less((v + 0x8000_0000_0000_0000) as u64, HIGHEST),
{
}

/// Pairs of a name and a number before the values make up the header, under the names in lower
/// case, the last of a name counting; the values are all numbers from the first on that stands in
/// a name's place.
pub proof fn law_grid_header_and_values(
    name: Seq<char>,
    number: Seq<char>,
    rest: Seq<Seq<char>>,
    header: Map<Seq<char>, Seq<char>>,
)
    requires
        !is_float(name),
        is_float(number),
        rest.len() > 0,
        is_float(rest[0]),
        forall|i: int| 0 <= i < rest.len() ==> is_float(#[trigger] rest[i]),
    ensures
        asc_of(rest, 0, header) == Some(Some((header, rest))),
        asc_of(seq![name, number] + rest, 0, header) == Some(
            Some((header.insert(lowercased(name), number), rest)),
        ),
        asc_of(seq![name, name] + rest, 0, header) is None,
        asc_of(seq![name, number], 0, header) == Some(
            None::<(Map<Seq<char>, Seq<char>>, Seq<Seq<char>>)>,
        ),
{
    lemma_all_numbers(rest);
    let ws = seq![name, number] + rest;
    assert(ws[0] == name && ws[1] == number && ws[2] == rest[0]);
    assert(ws.skip(2) =~= rest);
    assert(rest.skip(0) =~= rest);
    let h = header.insert(lowercased(name), number);
    assert(asc_of(ws, 2, h) == Some(Some((h, numbers(rest)))));
    let bad = seq![name, name] + rest;
    assert(bad[0] == name && bad[1] == name);
    let short = seq![name, number];
    assert(asc_of(short, 2, h) == Some(None::<(Map<Seq<char>, Seq<char>>, Seq<Seq<char>>)>));
}

proof fn lemma_all_numbers(ws: Seq<Seq<char>>)
    requires
        forall|i: int| 0 <= i < ws.len() ==> is_float(#[trigger] ws[i]),
    ensures
        numbers(ws) == ws,
    decreases ws.len(),
{
    if ws.len() > 0 {
        let d = ws.drop_last();
        assert forall|i: int| 0 <= i < d.len() implies is_float(#[trigger] d[i]) by {
            assert(d[i] == ws[i]);
        }
        lemma_all_numbers(d);
        assert(is_float(ws[ws.len() - 1]));
        assert(d.push(ws.last()) =~= ws);
    } else {
        assert(numbers(ws) =~= ws);
    }
}

/// Words that are no numbers are left out of the values, and all others stay in their order.
pub proof fn law_values_are_the_numbers(ws: Seq<Seq<char>>, w: Seq<char>)
    ensures
        is_float(w) ==> numbers(ws.push(w)) == numbers(ws).push(w),
        !is_float(w) ==> numbers(ws.push(w)) == numbers(ws),
        forall|i: int| 0 <= i < numbers(ws).len() ==> is_float(#[trigger] numbers(ws)[i]),
    decreases ws.len(),
{
    assert(ws.push(w).drop_last() =~= ws);
    if ws.len() > 0 {
        law_values_are_the_numbers(ws.drop_last(), w);
    }
}

/// The detailed cells' bytes follow one another in the order of the cells.
pub proof fn law_detail_follows_in_order(cells: Seq<Option<Seq<u8>>>, b: Seq<u8>)
    ensures
        detail_bytes(cells.push(Some(b))) == detail_bytes(cells) + b,
        detail_bytes(cells.push(None)) == detail_bytes(cells),
{
    assert(cells.push(Some(b)).drop_last() =~= cells);
    assert(cells.push(None).drop_last() =~= cells);
}

} // verus!
