//! The tile format: a WebCGM picture behind an obfuscated header.
//!
//! A picture is a run of big-endian commands. Each has a class, an element id and a
//! parameter block. Class 4 holds the drawn primitives, class 0 the delimiters of the
//! picture and of its application structures, class 9 the structures' attributes.
use vstd::prelude::*;
use vstd::slice::*;
use crate::config::Aps;
use crate::text::same;

verus! {

pub const POLYLINE: u8 = 1;

pub const DISJOINT: u8 = 2;

pub const POLYGON: u8 = 7;

pub const APS_BEGIN: u8 = 21;

pub const APS_END: u8 = 23;

pub const END_META: u8 = 2;

pub const END_PIC: u8 = 5;

pub const VDC_DEFAULT: i64 = 16000;

/// Parameter blocks longer than this occur only in class 4.
pub const LONGEST: usize = 8192;

/// How many commands an alignment check reads before it gives up.
pub const ALIGN_STEPS: u32 = 300_001;

/// One command: its class and element id, where its parameters start and end, and where
/// the next command starts.
#[derive(Clone, Copy)]
pub struct Cmd {
    pub class: u8,
    pub id: u8,
    pub start: usize,
    pub end: usize,
    pub next: usize,
}

/// The longest byte string that a slice can hold.
pub open spec fn fits(d: Seq<u8>) -> bool {
    d.len() <= isize::MAX
}

/// The position that byte `i` of `n` changes places with.
pub open spec fn partner(i: int, n: int) -> int {
    if i % 2 == 1 {
        i - 1
    } else if i + 1 < n {
        i + 1
    } else {
        i
    }
}

/// The header in readable form: every byte complemented, adjacent bytes exchanged.
pub open spec fn readable(d: Seq<u8>) -> Seq<u8> {
    Seq::new(d.len(), |i: int| (0xff - d[partner(i, d.len() as int)]) as u8)
}

/// Complements every byte and exchanges adjacent bytes.
pub fn deob(d: &[u8]) -> (x: Vec<u8>)
    ensures
        x@ == readable(d@),
{
    let mut x: Vec<u8> = Vec::new();
    let mut i: usize = 0;
    while i < d.len()
        invariant
            i <= d.len(),
            x.len() == i,
            forall|k: int| 0 <= k < i ==> x[k] == readable(d@)[k],
        decreases d.len() - i,
    {
        let j: usize = if i % 2 == 1 {
            i - 1
        } else if i < d.len() - 1 {
            i + 1
        } else {
            i
        };
        x.push(0xff - d[j]);
        i += 1;
    }
    x
}

/// To obfuscate twice changes nothing.
pub proof fn law_readable_involution(d: Seq<u8>)
    ensures
        readable(readable(d)) == d,
{
    assert forall|i: int| 0 <= i < d.len() implies readable(readable(d))[i] == d[i] by {
        let j = partner(i, d.len() as int);
        assert(0 <= j < d.len() && partner(j, d.len() as int) == i);
        assert(readable(d)[j] == 0xff - d[i]);
    }
    assert(readable(readable(d)) =~= d);
}

/// Whether `needle` stands in `hay` at position `i`.
pub open spec fn occurs(hay: Seq<u8>, needle: Seq<u8>, i: int) -> bool {
    0 <= i && i + needle.len() <= hay.len() && hay.subrange(i, i + needle.len()) == needle
}

/// The first position at or after `i` where `needle` stands in `hay`.
pub open spec fn first_at(hay: Seq<u8>, needle: Seq<u8>, i: int) -> Option<int>
    decreases hay.len() - i + 1,
{
    if i + needle.len() > hay.len() {
        None
    } else if occurs(hay, needle, i) {
        Some(i)
    } else {
        first_at(hay, needle, i + 1)
    }
}

/// The first position of `needle` in `hay`.
pub fn find(hay: &[u8], needle: &[u8]) -> (r: Option<usize>)
    requires
        needle@.len() > 0,
    ensures
        first_at(hay@, needle@, 0) == (match r {
            Some(i) => Some(i as int),
            None => None,
        }),
{
    let m = needle.len();
    if m > hay.len() {
        return None;
    }
    let last = hay.len() - m;
    let mut i: usize = 0;
    while i <= last
        invariant
            m == needle@.len() > 0,
            last == hay.len() - m,
            i <= last + 1,
            first_at(hay@, needle@, 0) == first_at(hay@, needle@, i as int),
        decreases last + 1 - i,
    {
        let mut k: usize = 0;
        while k < m && hay[i + k] == needle[k]
            invariant
                m == needle@.len(),
                last == hay.len() - m,
                i <= last,
                k <= m,
                forall|t: int| 0 <= t < k ==> hay@[i + t] == needle@[t],
            decreases m - k,
        {
            k += 1;
        }
        if k == m {
            assert(hay@.subrange(i as int, i + m) =~= needle@);
            return Some(i);
        }
        assert(hay@.subrange(i as int, i + m)[k as int] != needle@[k as int]);
        i += 1;
    }
    None
}

/// What `first_at` finds is an occurrence, and there is none before it.
pub proof fn lemma_first_at(hay: Seq<u8>, needle: Seq<u8>, i: int)
    requires
        0 <= i,
    ensures
        match first_at(hay, needle, i) {
            Some(r) => i <= r && occurs(hay, needle, r) && forall|j: int|
                i <= j < r ==> !occurs(hay, needle, j),
            None => forall|j: int| i <= j ==> !occurs(hay, needle, j),
        },
    decreases hay.len() - i + 1,
{
    if i + needle.len() <= hay.len() && !occurs(hay, needle, i) {
        lemma_first_at(hay, needle, i + 1);
    }
}

/// The big-endian number in the two bytes at `p`.
pub open spec fn be16(d: Seq<u8>, p: int) -> int {
    d[p] * 256 + d[p + 1]
}

/// The big-endian two's-complement number in the two bytes at `p`.
pub open spec fn be_i16(d: Seq<u8>, p: int) -> int {
    if be16(d, p) >= 0x8000 {
        be16(d, p) - 0x1_0000
    } else {
        be16(d, p)
    }
}

/// The command of the given class and id whose `len` parameter bytes start at `q`.
pub open spec fn block(d: Seq<u8>, class: int, id: int, q: int, len: int) -> Option<Cmd> {
    if q + len > d.len() {
        None
    } else {
        Some(
            Cmd {
                class: class as u8,
                id: id as u8,
                start: q as usize,
                end: (q + len) as usize,
                next: (q + len + len % 2) as usize,
            },
        )
    }
}

/// The command at `p`: four bits of class, seven of id, five of length. A length of 31
/// stands for a second word with the length; its top bit (partitioned data) is refused.
#[verifier::opaque]
pub open spec fn command(d: Seq<u8>, p: int) -> Option<Cmd> {
    if p < 0 || p + 2 > d.len() {
        None
    } else {
        let word = be16(d, p);
        let class = word / 4096;
        let id = (word / 32) % 128;
        if class > 9 {
            None
        } else if word % 32 != 31 {
            block(d, class, id, p + 2, word % 32)
        } else if p + 4 > d.len() || be16(d, p + 2) >= 0x8000 {
            None
        } else {
            block(d, class, id, p + 4, be16(d, p + 2))
        }
    }
}

/// A command lies inside its data, and the next one starts after it.
pub proof fn lemma_command(d: Seq<u8>, p: int)
    requires
        fits(d),
    ensures
        command(d, p) matches Some(c) ==> {
            &&& p + 2 <= c.start <= c.end <= d.len()
            &&& c.end <= c.next <= c.end + 1
            &&& c.end - c.start <= 0x7fff
            &&& c.class <= 9
            &&& c.id < 128
        },
{
    reveal(command);
}

/// Reads the command at `p`.
pub fn read_cmd(d: &[u8], p: usize) -> (r: Option<Cmd>)
    requires
        fits(d@),
    ensures
        r == command(d@, p as int),
{
    reveal(command);
    let n = d.len();
    if n < 2 || p > n - 2 {
        return None;
    }
    let word: u32 = d[p] as u32 * 256 + d[p + 1] as u32;
    let class: u8 = (word / 4096) as u8;
    let id: u8 = ((word / 32) % 128) as u8;
    if class > 9 {
        return None;
    }
    let mut len: usize = (word % 32) as usize;
    let mut q: usize = p + 2;
    if len == 31 {
        if q > n - 2 {
            return None;
        }
        let long: u32 = d[q] as u32 * 256 + d[q + 1] as u32;
        q += 2;
        if long >= 0x8000 {
            return None;
        }
        len = long as usize;
    }
    if len > n - q {
        return None;
    }
    let end: usize = q + len;
    Some(Cmd { class, id, start: q, end, next: end + len % 2 })
}

/// Reads the two's-complement number at `p`.
pub fn read_i16(d: &[u8], p: usize) -> (r: i16)
    requires
        p + 2 <= d@.len(),
    ensures
        r == be_i16(d@, p as int),
{
    let v: i32 = d[p] as i32 * 256 + d[p + 1] as i32;
    if v >= 0x8000 {
        (v - 0x1_0000) as i16
    } else {
        v as i16
    }
}

/// Whether a command draws geometry that is kept.
pub open spec fn draws(c: Cmd) -> bool {
    c.class == 4 && (c.id == POLYLINE || c.id == DISJOINT || c.id == POLYGON)
}

/// Whether a command ends the picture or the metafile.
pub open spec fn ends(c: Cmd) -> bool {
    c.class == 0 && (c.id == END_PIC || c.id == END_META)
}

/// Whether a command is so long that the reader must have lost its alignment.
pub open spec fn desynced(c: Cmd) -> bool {
    c.end - c.start > LONGEST && c.class != 4
}

pub open spec fn params(d: Seq<u8>, c: Cmd) -> Seq<u8> {
    d.subrange(c.start as int, c.end as int)
}

/// The side of an extent: zero stands for the default.
pub open spec fn side(a: int, b: int) -> int {
    let w = if a <= b { b - a } else { a - b };
    if w == 0 {
        VDC_DEFAULT as int
    } else {
        w
    }
}

/// The width and height of the coordinate space: those of the first extent command of
/// eight bytes from `p` on, before the picture body begins.
pub open spec fn extent(d: Seq<u8>, p: int) -> (int, int)
    decreases d.len() - p + 2,
    when fits(d)
    via extent_ends
{
    match command(d, p) {
        None => (VDC_DEFAULT as int, VDC_DEFAULT as int),
        Some(c) => if c.class == 2 && c.id == 6 && c.end - c.start == 8 {
            let q = c.start as int;
            (side(be_i16(d, q), be_i16(d, q + 4)), side(be_i16(d, q + 2), be_i16(d, q + 6)))
        } else if c.class == 0 && c.id == 4 {
            (VDC_DEFAULT as int, VDC_DEFAULT as int)
        } else {
            extent(d, c.next as int)
        },
    }
}

#[via_fn]
proof fn extent_ends(d: Seq<u8>, p: int) {
    lemma_command(d, p);
}

fn side_of(a: i16, b: i16) -> (r: i64)
    ensures
        r == side(a as int, b as int),
{
    let w: i64 = if a <= b {
        b as i64 - a as i64
    } else {
        a as i64 - b as i64
    };
    if w == 0 {
        VDC_DEFAULT
    } else {
        w
    }
}

/// The width and height of the coordinate space that a readable header declares.
pub fn vdc_extent(db: &[u8]) -> (r: (i64, i64))
    requires
        fits(db@),
    ensures
        (r.0 as int, r.1 as int) == extent(db@, 0),
        r.0 > 0 && r.1 > 0,
{
    let mut p: usize = 0;
    loop
        invariant
            fits(db@),
            p <= db@.len() + 1,
            extent(db@, 0) == extent(db@, p as int),
        decreases db@.len() + 2 - p,
    {
        proof {
            lemma_command(db@, p as int);
        }
        match read_cmd(db, p) {
            None => {
                return (VDC_DEFAULT, VDC_DEFAULT);
            },
            Some(c) => {
                if c.class == 2 && c.id == 6 && c.end - c.start == 8 {
                    let q = c.start;
                    return (
                        side_of(read_i16(db, q), read_i16(db, q + 4)),
                        side_of(read_i16(db, q + 2), read_i16(db, q + 6)),
                    );
                }
                if c.class == 0 && c.id == 4 {
                    return (VDC_DEFAULT, VDC_DEFAULT);
                }
                p = c.next;
            },
        }
    }
}

/// The coordinate pairs of a parameter block.
pub open spec fn points(par: Seq<u8>) -> Seq<(i16, i16)> {
    Seq::new(par.len() / 4, |k: int| (be_i16(par, 4 * k) as i16, be_i16(par, 4 * k + 2) as i16))
}

/// Decodes the coordinate pairs of a parameter block.
pub fn pts(par: &[u8]) -> (r: Vec<(i16, i16)>)
    ensures
        r@ == points(par@),
{
    let n = par.len() / 4;
    let mut out: Vec<(i16, i16)> = Vec::new();
    let mut k: usize = 0;
    while k < n
        invariant
            n == par.len() / 4,
            k <= n,
            out.len() == k,
            forall|i: int| 0 <= i < k ==> out[i] == #[trigger] points(par@)[i],
        decreases n - k,
    {
        out.push((read_i16(par, k * 4), read_i16(par, k * 4 + 2)));
        k += 1;
    }
    assert(out@ =~= points(par@));
    out
}

/// Every byte as the character of the same number.
pub open spec fn latin(b: Seq<u8>) -> Seq<char> {
    b.map_values(|c: u8| c as char)
}

/// The text whose characters have the numbers of the bytes.
pub fn latin1(b: &[u8]) -> (r: String)
    ensures
        r@ == latin(b@),
{
    let mut out = String::new();
    let mut i: usize = 0;
    while i < b.len()
        invariant
            i <= b.len(),
            out@ == latin(b@.take(i as int)),
        decreases b.len() - i,
    {
        out.push(b[i] as char);
        i += 1;
        assert(latin(b@.take(i as int)) =~= latin(b@.take(i - 1)).push(b@[i - 1] as char));
    }
    assert(b@.take(i as int) == b@);
    out
}

pub open spec fn printable(b: u8) -> bool {
    0x20 <= b <= 0x7e
}

/// Where the printable bytes that start at `i` end.
pub open spec fn run_end(s: Seq<u8>, i: int) -> int
    decreases s.len() - i,
{
    if 0 <= i < s.len() && printable(s[i]) {
        run_end(s, i + 1)
    } else {
        i
    }
}

/// The runs of two or more printable bytes from `i` on.
pub open spec fn runs_from(s: Seq<u8>, i: int) -> Seq<Seq<u8>>
    decreases s.len() - i,
    via runs_end
{
    if i < 0 || i >= s.len() {
        Seq::empty()
    } else if !printable(s[i]) {
        runs_from(s, i + 1)
    } else {
        let j = run_end(s, i);
        if j - i >= 2 {
            seq![s.subrange(i, j)] + runs_from(s, j)
        } else {
            runs_from(s, j)
        }
    }
}

#[via_fn]
proof fn runs_end(s: Seq<u8>, i: int) {
    if 0 <= i < s.len() && printable(s[i]) {
        lemma_run_end(s, i + 1);
    }
}

/// A run goes on to the first byte that is not printable, or to the end.
pub proof fn lemma_run_end(s: Seq<u8>, i: int)
    requires
        0 <= i <= s.len(),
    ensures
        i <= run_end(s, i) <= s.len(),
        forall|k: int| i <= k < run_end(s, i) ==> printable(s[k]),
        run_end(s, i) < s.len() ==> !printable(s[run_end(s, i)]),
    decreases s.len() - i,
{
    if i < s.len() && printable(s[i]) {
        lemma_run_end(s, i + 1);
    }
}

/// The contents of a list of slices.
pub open spec fn slices(v: Seq<&[u8]>) -> Seq<Seq<u8>> {
    v.map_values(|s: &[u8]| s@)
}

/// The runs of two or more printable bytes.
pub fn runs(par: &[u8]) -> (r: Vec<&[u8]>)
    ensures
        slices(r@) == runs_from(par@, 0),
{
    let mut out: Vec<&[u8]> = Vec::new();
    let mut i: usize = 0;
    assert(slices(out@) + runs_from(par@, 0) =~= runs_from(par@, 0));
    while i < par.len()
        invariant
            i <= par.len(),
            slices(out@) + runs_from(par@, i as int) == runs_from(par@, 0),
        decreases par.len() - i,
    {
        if 0x20 <= par[i] && par[i] <= 0x7e {
            let mut j: usize = i;
            while j < par.len() && 0x20 <= par[j] && par[j] <= 0x7e
                invariant
                    i <= j <= par.len(),
                    run_end(par@, i as int) == run_end(par@, j as int),
                decreases par.len() - j,
            {
                j += 1;
            }
            proof {
                lemma_run_end(par@, i + 1);
            }
            if j - i >= 2 {
                let ghost before = slices(out@);
                out.push(slice_subrange(par, i, j));
                assert(slices(out@) =~= before.push(par@.subrange(i as int, j as int)));
                assert(slices(out@) + runs_from(par@, j as int) =~= before + (seq![
                    par@.subrange(i as int, j as int),
                ] + runs_from(par@, j as int)));
            }
            i = j;
        } else {
            i += 1;
        }
    }
    assert(slices(out@) + runs_from(par@, i as int) =~= slices(out@));
    out
}

/// Every run has two printable bytes or more.
pub proof fn law_runs_printable(s: Seq<u8>, i: int, k: int)
    requires
        0 <= i,
        0 <= k < runs_from(s, i).len(),
    ensures
        runs_from(s, i)[k].len() >= 2,
        forall|t: int| 0 <= t < runs_from(s, i)[k].len() ==> printable(#[trigger] runs_from(s, i)[k][t]),
    decreases s.len() - i,
{
    if i < s.len() {
        if !printable(s[i]) {
            law_runs_printable(s, i + 1, k);
        } else {
            let j = run_end(s, i);
            lemma_run_end(s, i);
            lemma_run_end(s, i + 1);
            if j - i >= 2 {
                if k > 0 {
                    law_runs_printable(s, j, k - 1);
                }
            } else {
                law_runs_printable(s, j, k);
            }
        }
    }
}

/// Whether a coordinate lies where those of a real picture do.
pub open spec fn in_range(v: int) -> bool {
    -3000 <= v <= 19000
}

/// How many of the points have both coordinates in range.
pub open spec fn good_points(p: Seq<(i16, i16)>) -> int
    decreases p.len(),
{
    if p.len() == 0 {
        0
    } else {
        good_points(p.drop_last()) + if in_range(p.last().0 as int) && in_range(p.last().1 as int) {
            1int
        } else {
            0
        }
    }
}

pub proof fn lemma_good_points(p: Seq<(i16, i16)>)
    ensures
        0 <= good_points(p) <= p.len(),
    decreases p.len(),
{
    if p.len() > 0 {
        lemma_good_points(p.drop_last());
    }
}

/// The score of an offset: how many primitives, points and points in range the next `n`
/// commands hold.
#[derive(Clone, Copy)]
pub struct Score {
    pub prims: u32,
    pub points: u32,
    pub good: u32,
}

/// The score of the commands from `p` on, of `n` at most, up to the first that cannot be
/// read or shows that the alignment is lost.
pub open spec fn score(d: Seq<u8>, p: int, n: nat) -> (int, int, int)
    decreases n,
{
    if n == 0 {
        (0, 0, 0)
    } else {
        match command(d, p) {
            None => (0, 0, 0),
            Some(c) => if desynced(c) {
                (0, 0, 0)
            } else {
                plus(own_score(d, c), score(d, c.next as int, (n - 1) as nat))
            },
        }
    }
}

pub open spec fn plus(a: (int, int, int), b: (int, int, int)) -> (int, int, int) {
    (a.0 + b.0, a.1 + b.1, a.2 + b.2)
}

/// What one command adds to a score.
pub open spec fn own_score(d: Seq<u8>, c: Cmd) -> (int, int, int) {
    if draws(c) {
        let p = points(params(d, c));
        (1, p.len() as int, good_points(p))
    } else {
        (0, 0, 0)
    }
}

/// How many points of a parameter block are in range.
fn count_good(par: &[u8]) -> (r: u32)
    requires
        par@.len() <= 0x7fff,
    ensures
        r == good_points(points(par@)),
{
    let n = par.len() / 4;
    let mut good: u32 = 0;
    let mut k: usize = 0;
    let ghost p = points(par@);
    while k < n
        invariant
            n == par.len() / 4,
            par@.len() <= 0x7fff,
            k <= n,
            p == points(par@),
            good == good_points(p.take(k as int)),
            good <= k,
        decreases n - k,
    {
        let x = read_i16(par, k * 4);
        let y = read_i16(par, k * 4 + 2);
        assert(p.take(k + 1).drop_last() == p.take(k as int));
        if -3000 <= x && x <= 19000 && -3000 <= y && y <= 19000 {
            good += 1;
        }
        k += 1;
    }
    assert(p.take(k as int) == p);
    good
}

/// Whether the points of so many commands from `s` on can be counted in four bytes: there are
/// few commands, or few bytes.
pub open spec fn countable(d: Seq<u8>, s: int, cmds: int) -> bool {
    cmds <= 0x8_0000 || d.len() - s < 4 * 0x1_0000_0000
}

fn draws_cmd(c: &Cmd) -> (r: bool)
    ensures
        r == draws(*c),
{
    c.class == 4 && (c.id == POLYLINE || c.id == DISJOINT || c.id == POLYGON)
}

/// Scores the offset `s`: obfuscated bytes read as commands give coordinates at random, so
/// a high share of points in range marks the picture body.
pub fn body_score(d: &[u8], s: usize, cmds: u32) -> (r: Score)
    requires
        fits(d@),
        countable(d@, s as int, cmds as int),
    ensures
        (r.prims as int, r.points as int, r.good as int) == score(d@, s as int, cmds as nat),
        r.good <= r.points,
{
    let mut r = Score { prims: 0, points: 0, good: 0 };
    let mut p = s;
    let mut n: u32 = 0;
    while n < cmds
        invariant
            fits(d@),
            countable(d@, s as int, cmds as int),
            n <= cmds,
            r.prims <= n,
            r.good <= r.points <= n * 0x1fff,
            4 * r.points <= p - s,
            score(d@, s as int, cmds as nat) == plus(
                (r.prims as int, r.points as int, r.good as int),
                score(d@, p as int, (cmds - n) as nat),
            ),
        decreases cmds - n,
    {
        proof {
            lemma_command(d@, p as int);
        }
        let c = match read_cmd(d, p) {
            Some(c) => c,
            None => {
                return r;
            },
        };
        if c.end - c.start > LONGEST && c.class != 4 {
            return r;
        }
        if draws_cmd(&c) {
            let par = slice_subrange(d, c.start, c.end);
            let m = (par.len() / 4) as u32;
            let g = count_good(par);
            proof {
                lemma_good_points(points(par@));
                assert(m <= 0x1fff);
                assert(r.points + m <= (n + 1) * 0x1fff) by (nonlinear_arith)
                    requires
                        r.points <= n * 0x1fff,
                        m <= 0x1fff,
                ;
                if cmds <= 0x8_0000 {
                    assert((n + 1) * 0x1fff <= 0x8_0000 * 0x1fff) by (nonlinear_arith)
                        requires
                            n + 1 <= 0x8_0000,
                    ;
                }
                assert(r.points + m <= u32::MAX);
            }
            r = Score { prims: r.prims + 1, points: r.points + m, good: r.good + g };
        } else {
            assert(n * 0x1fff <= (n + 1) * 0x1fff) by (nonlinear_arith);
        }
        p = c.next;
        n += 1;
    }
    r
}

proof fn lemma_score_parts(d: Seq<u8>, p: int, n: nat)
    ensures
        ({
            let t = score(d, p, n);
            0 <= t.2 <= t.1 && 0 <= t.0 <= n
        }),
    decreases n,
{
    if n > 0 {
        match command(d, p) {
            Some(c) => {
                lemma_good_points(points(params(d, c)));
                lemma_score_parts(d, c.next as int, (n - 1) as nat);
            },
            None => {},
        }
    }
}

/// A score counts no more primitives than commands, no more points in range than points, and a
/// point for every four of the bytes left at most.
pub proof fn law_score_bounded(d: Seq<u8>, s: int, n: nat)
    requires
        fits(d),
        0 <= s <= d.len(),
    ensures
        ({
            let (prims, points, good) = score(d, s, n);
            &&& 0 <= prims <= n
            &&& 0 <= good <= points
            &&& 4 * points <= d.len() - s
        }),
    decreases n,
{
    lemma_score_parts(d, s, n);
    if n > 0 {
        lemma_command(d, s);
        match command(d, s) {
            Some(c) => {
                let rest = (n - 1) as nat;
                if c.next <= d.len() {
                    law_score_bounded(d, c.next as int, rest);
                } else {
                    assert(score(d, c.next as int, rest) == (0int, 0int, 0int)) by {
                        reveal(command);
                    }
                }
                assert(4 * own_score(d, c).1 <= c.end - c.start);
            },
            None => {},
        }
    }
}

/// A score of no commands counts nothing, and every part of a score grows with the commands.
pub proof fn law_score_grows(d: Seq<u8>, s: int, n: nat, m: nat)
    requires
        n <= m,
    ensures
        score(d, s, 0) == (0int, 0int, 0int),
        score(d, s, n).0 <= score(d, s, m).0,
        score(d, s, n).1 <= score(d, s, m).1,
        score(d, s, n).2 <= score(d, s, m).2,
    decreases n,
{
    lemma_score_parts(d, s, m);
    if n > 0 {
        match command(d, s) {
            Some(c) => {
                law_score_grows(d, c.next as int, (n - 1) as nat, (m - 1) as nat);
            },
            None => {},
        }
    }
}

/// The type keyword of a begun structure: its second run.
pub open spec fn keyword(par: Seq<u8>) -> Option<Seq<char>> {
    let r = runs_from(par, 0);
    if r.len() > 1 {
        Some(latin(r[1]))
    } else {
        None
    }
}

/// The type keyword of a begun structure.
pub fn keyword_of(par: &[u8]) -> (r: Option<String>)
    ensures
        r.deep_view() == keyword(par@),
{
    let r = runs(par);
    if r.len() > 1 {
        assert(slices(r@)[1] == r@[1]@);
        Some(latin1(r[1]))
    } else {
        None
    }
}

/// Whether a command begins a layer frame or a feature frame.
pub open spec fn frames(d: Seq<u8>, c: Cmd, a: Aps) -> bool {
    c.class == 0 && c.id == APS_BEGIN && (keyword(params(d, c)) matches Some(t) && (t == a.layer@
        || t == a.feature@))
}

/// Whether the commands from `p` on, of `n` at most, reach a layer or feature frame before
/// the picture ends and before the alignment proves lost.
pub open spec fn reaches(d: Seq<u8>, p: int, a: Aps, n: nat) -> bool
    decreases n,
{
    n > 0 && (command(d, p) matches Some(c) && !desynced(c) && (frames(d, c, a) || (!ends(c)
        && reaches(d, c.next as int, a, (n - 1) as nat))))
}

/// Whether `s` is aligned with the commands. Stray header bytes can decode as drawn
/// primitives, but they never spell a frame keyword.
pub fn aligned(d: &[u8], s: usize, a: &Aps) -> (r: bool)
    requires
        fits(d@),
    ensures
        r == reaches(d@, s as int, *a, ALIGN_STEPS as nat),
{
    let mut p = s;
    let mut n: u32 = 0;
    while n < ALIGN_STEPS
        invariant
            fits(d@),
            n <= ALIGN_STEPS,
            reaches(d@, s as int, *a, ALIGN_STEPS as nat) == reaches(
                d@,
                p as int,
                *a,
                (ALIGN_STEPS - n) as nat,
            ),
        decreases ALIGN_STEPS - n,
    {
        proof {
            lemma_command(d@, p as int);
        }
        let c = match read_cmd(d, p) {
            Some(c) => c,
            None => {
                return false;
            },
        };
        if c.end - c.start > LONGEST && c.class != 4 {
            return false;
        }
        if c.class == 0 && c.id == APS_BEGIN {
            match keyword_of(slice_subrange(d, c.start, c.end)) {
                Some(t) => {
                    if same(t.as_str(), a.layer.as_str()) || same(t.as_str(), a.feature.as_str()) {
                        return true;
                    }
                },
                None => {},
            }
        }
        if c.class == 0 && (c.id == END_PIC || c.id == END_META) {
            return false;
        }
        p = c.next;
        n += 1;
    }
    false
}

/// Whether enough primitives and points follow `s`, more than nineteen in twenty in range.
pub open spec fn plausible(t: (int, int, int), min_prims: int, min_points: int) -> bool {
    t.0 >= min_prims && t.1 >= min_points && 20 * t.2 > 19 * t.1
}

/// The first offset of every second one from `s` up to `hi` that scores well over the next
/// 64 commands and is aligned.
pub open spec fn first_start(
    d: Seq<u8>,
    a: Aps,
    s: int,
    hi: int,
    min_prims: int,
    min_points: int,
) -> Option<int>
    decreases hi - s + 1,
{
    if s >= hi {
        None
    } else if plausible(score(d, s, 64), min_prims, min_points) && reaches(d, s, a, ALIGN_STEPS as nat) {
        Some(s)
    } else {
        first_start(d, a, s + 2, hi, min_prims, min_points)
    }
}

/// The bytes of `Ymax`, the last key of the header.
pub open spec fn ymax() -> Seq<u8> {
    seq![0x59u8, 0x6d, 0x61, 0x78]
}

/// Where the search for the picture body begins: past the last header key.
pub open spec fn search_from(db: Seq<u8>) -> int {
    match first_at(db, ymax(), 0) {
        Some(j) => j + 12,
        None => 380,
    }
}

/// Where the search for the picture body ends.
pub open spec fn search_to(d: Seq<u8>, lo: int) -> int {
    if lo + 4000 <= d.len() {
        lo + 4000
    } else {
        d.len() as int
    }
}

/// Where the picture body starts: the first aligned offset with dense geometry after it, or
/// else the first with any.
pub open spec fn start(d: Seq<u8>, db: Seq<u8>, a: Aps) -> Option<int> {
    let lo = search_from(db);
    let hi = search_to(d, lo);
    match first_start(d, a, lo, hi, 2, 20) {
        Some(s) => Some(s),
        None => first_start(d, a, lo, hi, 1, 2),
    }
}

fn scan_start(d: &[u8], a: &Aps, lo: usize, hi: usize, min_prims: u32, min_points: u32) -> (r: Option<usize>)
    requires
        fits(d@),
        hi <= d@.len(),
    ensures
        first_start(d@, *a, lo as int, hi as int, min_prims as int, min_points as int) == (match r {
            Some(s) => Some(s as int),
            None => None,
        }),
{
    let mut s = lo;
    while s < hi
        invariant
            fits(d@),
            hi <= d@.len(),
            first_start(d@, *a, lo as int, hi as int, min_prims as int, min_points as int)
                == first_start(d@, *a, s as int, hi as int, min_prims as int, min_points as int),
        decreases hi - s + 1,
    {
        let t = body_score(d, s, 64);
        if t.prims >= min_prims && t.points >= min_points && 20 * t.good as u64 > 19 * t.points as u64
            && aligned(d, s, a) {
            return Some(s);
        }
        s += 2;
    }
    None
}

fn search_start(db: &[u8]) -> (r: usize)
    requires
        fits(db@),
    ensures
        r == search_from(db@),
{
    let key: [u8; 4] = [0x59, 0x6d, 0x61, 0x78];
    assert(key@ =~= ymax());
    proof {
        lemma_first_at(db@, ymax(), 0);
    }
    match find(db, key.as_slice()) {
        Some(j) => j + 12,
        None => 380,
    }
}

/// Finds where the picture body starts, given the tile and its readable form.
pub fn find_start(d: &[u8], db: &[u8], a: &Aps) -> (r: Option<usize>)
    requires
        fits(d@),
        fits(db@),
    ensures
        start(d@, db@, *a) == (match r {
            Some(s) => Some(s as int),
            None => None,
        }),
{
    let lo = search_start(db);
    let hi: usize = if d.len() >= 4000 && lo <= d.len() - 4000 {
        lo + 4000
    } else {
        d.len()
    };
    match scan_start(d, a, lo, hi, 2, 20) {
        Some(s) => Some(s),
        None => scan_start(d, a, lo, hi, 1, 2),
    }
}

/// A score and the one that follows it, if there is one.
pub open spec fn after(a: (int, int, int), b: Option<(int, int, int)>) -> Option<(int, int, int)> {
    match b {
        None => None,
        Some(t) => Some(plus(a, t)),
    }
}

/// The score of the `n` commands from `p` on, if all of them can be read.
pub open spec fn full_score(d: Seq<u8>, p: int, n: nat) -> Option<(int, int, int)>
    decreases n,
{
    if n == 0 {
        Some((0, 0, 0))
    } else {
        match command(d, p) {
            None => None,
            Some(c) => after(own_score(d, c), full_score(d, c.next as int, (n - 1) as nat)),
        }
    }
}

/// The first offset of every second one from `s` up to `hi` whose next 25 commands can all
/// be read and hold dense geometry.
pub open spec fn first_dense(d: Seq<u8>, s: int, hi: int) -> Option<int>
    decreases hi - s + 1,
{
    if s >= hi {
        None
    } else if full_score(d, s, 25) matches Some(t) && plausible(t, 2, 20) {
        Some(s)
    } else {
        first_dense(d, s + 2, hi)
    }
}

fn full_body_score(d: &[u8], s: usize, cmds: u32) -> (r: Option<Score>)
    requires
        fits(d@),
        countable(d@, s as int, cmds as int),
    ensures
        full_score(d@, s as int, cmds as nat) == (match r {
            Some(t) => Some((t.prims as int, t.points as int, t.good as int)),
            None => None,
        }),
{
    let mut r = Score { prims: 0, points: 0, good: 0 };
    let mut p = s;
    let mut n: u32 = 0;
    let ghost all = full_score(d@, s as int, cmds as nat);
    while n < cmds
        invariant
            fits(d@),
            countable(d@, s as int, cmds as int),
            n <= cmds,
            r.prims <= n,
            r.good <= r.points <= n * 0x1fff,
            4 * r.points <= p - s,
            all == full_score(d@, s as int, cmds as nat),
            all == after(
                (r.prims as int, r.points as int, r.good as int),
                full_score(d@, p as int, (cmds - n) as nat),
            ),
        decreases cmds - n,
    {
        proof {
            lemma_command(d@, p as int);
        }
        let c = match read_cmd(d, p) {
            Some(c) => c,
            None => {
                return None;
            },
        };
        if draws_cmd(&c) {
            let par = slice_subrange(d, c.start, c.end);
            let m = (par.len() / 4) as u32;
            let g = count_good(par);
            proof {
                lemma_good_points(points(par@));
                assert(m <= 0x1fff);
                assert(r.points + m <= (n + 1) * 0x1fff) by (nonlinear_arith)
                    requires
                        r.points <= n * 0x1fff,
                        m <= 0x1fff,
                ;
                if cmds <= 0x8_0000 {
                    assert((n + 1) * 0x1fff <= 0x8_0000 * 0x1fff) by (nonlinear_arith)
                        requires
                            n + 1 <= 0x8_0000,
                    ;
                }
                assert(r.points + m <= u32::MAX);
            }
            r = Score { prims: r.prims + 1, points: r.points + m, good: r.good + g };
        } else {
            assert(n * 0x1fff <= (n + 1) * 0x1fff) by (nonlinear_arith);
        }
        p = c.next;
        n += 1;
    }
    Some(r)
}

/// Finds the first offset with dense geometry after it, without regard to alignment.
pub fn find_dense_start(d: &[u8], db: &[u8]) -> (r: Option<usize>)
    requires
        fits(d@),
        fits(db@),
    ensures
        first_dense(d@, search_from(db@), search_to(d@, search_from(db@))) == (match r {
            Some(s) => Some(s as int),
            None => None,
        }),
{
    let lo = search_start(db);
    let hi: usize = if d.len() >= 4000 && lo <= d.len() - 4000 {
        lo + 4000
    } else {
        d.len()
    };
    let mut s = lo;
    while s < hi
        invariant
            fits(d@),
            hi <= d@.len(),
            lo == search_from(db@),
            hi == search_to(d@, lo as int),
            first_dense(d@, lo as int, hi as int) == first_dense(d@, s as int, hi as int),
        decreases hi - s + 1,
    {
        match full_body_score(d, s, 25) {
            Some(t) => {
                if t.prims >= 2 && t.points >= 20 && 20 * t.good as u64 > 19 * t.points as u64 {
                    return Some(s);
                }
            },
            None => {},
        }
        s += 2;
    }
    None
}

/// Whether the search may stop at `s`.
pub open spec fn accepts(d: Seq<u8>, a: Aps, s: int, min_prims: int, min_points: int) -> bool {
    plausible(score(d, s, 64), min_prims, min_points) && reaches(d, s, a, ALIGN_STEPS as nat)
}

/// Where a body is found, it is aligned with the commands, scores well and lies in the
/// searched range, and no earlier offset of the search is dense and aligned.
pub proof fn law_start_is_aligned(d: Seq<u8>, db: Seq<u8>, a: Aps)
    ensures
        start(d, db, a) matches Some(s) ==> {
            &&& search_from(db) <= s < search_to(d, search_from(db))
            &&& accepts(d, a, s, 1, 2)
            &&& forall|t: int|
                search_from(db) <= t < s && (t - search_from(db)) % 2 == 0 ==> !accepts(d, a, t, 2, 20)
        },
{
    let lo = search_from(db);
    lemma_first_start(d, a, lo, search_to(d, lo), 2, 20);
    lemma_first_start(d, a, lo, search_to(d, lo), 1, 2);
}

proof fn lemma_first_start(d: Seq<u8>, a: Aps, s: int, hi: int, min_prims: int, min_points: int)
    ensures
        match first_start(d, a, s, hi, min_prims, min_points) {
            Some(r) => s <= r < hi && accepts(d, a, r, min_prims, min_points) && forall|t: int|
                s <= t < r && (t - s) % 2 == 0 ==> !accepts(d, a, t, min_prims, min_points),
            None => forall|t: int|
                s <= t < hi && (t - s) % 2 == 0 ==> !accepts(d, a, t, min_prims, min_points),
        },
    decreases hi - s + 1,
{
    if s < hi {
        lemma_first_start(d, a, s + 2, hi, min_prims, min_points);
    }
}

/// In readable form, the bytes of each pair have changed places and every byte is the complement
/// of what it was; a last byte without a partner stays in its place.
pub proof fn law_readable_swaps_and_complements(d: Seq<u8>, k: int)
    requires
        0 <= 2 * k < d.len(),
    ensures
        readable(d).len() == d.len(),
        2 * k + 1 < d.len() ==> readable(d)[2 * k] + d[2 * k + 1] == 255,
        2 * k + 1 < d.len() ==> readable(d)[2 * k + 1] + d[2 * k] == 255,
        2 * k + 1 == d.len() ==> readable(d)[2 * k] + d[2 * k] == 255,
{
}

/// The two bytes of a number below 65536, the high one first.
pub open spec fn word_bytes(w: int) -> Seq<u8> {
    seq![(w / 256) as u8, (w % 256) as u8]
}

/// The bytes of a command: its head, with the length in a word of its own where the block is
/// long, and its parameters.
pub open spec fn command_bytes(class: int, id: int, par: Seq<u8>, long: bool) -> Seq<u8> {
    if long {
        word_bytes(class * 4096 + id * 32 + 31) + word_bytes(par.len() as int) + par
    } else {
        word_bytes(class * 4096 + id * 32 + par.len()) + par
    }
}

/// A command that is written anywhere is read back: its class, its id, its parameters, and the
/// next command at the next even distance behind them.
pub proof fn law_command_reads_back(
    before: Seq<u8>,
    class: int,
    id: int,
    par: Seq<u8>,
    long: bool,
    behind: Seq<u8>,
)
    requires
        0 <= class <= 9,
        0 <= id < 128,
        par.len() < if long {
            0x8000int
        } else {
            31
        },
        fits(before + command_bytes(class, id, par, long) + behind),
    ensures
        ({
            let d = before + command_bytes(class, id, par, long) + behind;
            let head: int = if long {
                4
            } else {
                2
            };
            command(d, before.len() as int) matches Some(c) && {
                &&& c.class == class
                &&& c.id == id
                &&& c.start == before.len() + head
                &&& c.end == c.start + par.len()
                &&& c.next == c.end + par.len() % 2
                &&& params(d, c) == par
            }
        }),
{
    reveal(command);
    let w = command_bytes(class, id, par, long);
    let d = before + w + behind;
    let p = before.len() as int;
    let len = if long {
        31int
    } else {
        par.len() as int
    };
    let word = class * 4096 + id * 32 + len;
    assert(w[0] == (word / 256) as u8 && w[1] == (word % 256) as u8);
    assert(d[p] == w[0] && d[p + 1] == w[1]);
    assert(be16(d, p) == word);
    assert(word / 4096 == class && (word / 32) % 128 == id && word % 32 == len);
    if long {
        assert(d[p + 2] == w[2] && d[p + 3] == w[3]);
        assert(be16(d, p + 2) == par.len());
        assert(d.subrange(p + 4, p + 4 + par.len()) =~= par);
    } else {
        assert(d.subrange(p + 2, p + 2 + par.len()) =~= par);
    }
}

/// The bytes of a coordinate, in two's complement.
pub open spec fn coordinate_bytes(v: i16) -> Seq<u8> {
    word_bytes(
        if v < 0 {
            v + 65536
        } else {
            v as int
        },
    )
}

/// The bytes of points.
pub open spec fn points_bytes(ps: Seq<(i16, i16)>) -> Seq<u8>
    decreases ps.len(),
{
    if ps.len() == 0 {
        Seq::empty()
    } else {
        points_bytes(ps.drop_last()) + coordinate_bytes(ps.last().0) + coordinate_bytes(ps.last().1)
    }
}

proof fn lemma_points_bytes(ps: Seq<(i16, i16)>)
    ensures
        points_bytes(ps).len() == 4 * ps.len(),
    decreases ps.len(),
{
    if ps.len() > 0 {
        lemma_points_bytes(ps.drop_last());
    }
}

/// Points that are written are read back, each with its easting before its northing. Up to three
/// bytes more make no point.
pub proof fn law_points_read_back(ps: Seq<(i16, i16)>, rest: Seq<u8>)
    requires
        rest.len() < 4,
    ensures
        points(points_bytes(ps) + rest) == ps,
    decreases ps.len(),
{
    lemma_points_bytes(ps);
    let b = points_bytes(ps) + rest;
    assert(points(b).len() == ps.len());
    if ps.len() > 0 {
        let q = ps.drop_last();
        let n = ps.len() - 1;
        lemma_points_bytes(q);
        law_points_read_back(q, Seq::empty());
        let c = points_bytes(q);
        assert(c + Seq::empty() =~= c);
        assert forall|k: int| 0 <= k < ps.len() implies points(b)[k] == ps[k] by {
            if k < n {
                assert(points(c)[k] == q[k]);
                assert(b[4 * k] == c[4 * k] && b[4 * k + 1] == c[4 * k + 1]);
                assert(b[4 * k + 2] == c[4 * k + 2] && b[4 * k + 3] == c[4 * k + 3]);
            } else {
                let (x, y) = ps[n];
                let (bx, by) = (coordinate_bytes(x), coordinate_bytes(y));
                assert(b[4 * n] == bx[0] && b[4 * n + 1] == bx[1]);
                assert(b[4 * n + 2] == by[0] && b[4 * n + 3] == by[1]);
                assert(be_i16(b, 4 * n) == x);
                assert(be_i16(b, 4 * n + 2) == y);
            }
        }
    }
    assert(points(b) =~= ps);
}

/// The size of the coordinate space is what the first extent command of eight bytes spans, each
/// way by itself, and 16000 where it spans nothing.
pub proof fn law_extent_is_what_is_spanned(d: Seq<u8>, p: int, c: Cmd)
    requires
        fits(d),
        command(d, p) == Some(c),
        c.class == 2 && c.id == 6 && c.end - c.start == 8,
    ensures
        ({
            let b = params(d, c);
            let w = points(b)[1].0 - points(b)[0].0;
            let h = points(b)[1].1 - points(b)[0].1;
            let (x, y) = extent(d, p);
            &&& x > 0 && y > 0
            &&& w != 0 ==> x == w || x == -w
            &&& w == 0 ==> x == 16000
            &&& h != 0 ==> y == h || y == -h
            &&& h == 0 ==> y == 16000
        }),
{
    lemma_command(d, p);
    let b = params(d, c);
    let q = c.start as int;
    assert(b.len() == 8);
    assert(b[0] == d[q] && b[1] == d[q + 1] && b[2] == d[q + 2] && b[3] == d[q + 3]);
    assert(b[4] == d[q + 4] && b[5] == d[q + 5] && b[6] == d[q + 6] && b[7] == d[q + 7]);
    assert(be_i16(b, 0) == be_i16(d, q) && be_i16(b, 4) == be_i16(d, q + 4));
    assert(be_i16(b, 2) == be_i16(d, q + 2) && be_i16(b, 6) == be_i16(d, q + 6));
    assert(points(b)[0] == (be_i16(b, 0) as i16, be_i16(b, 2) as i16));
    assert(points(b)[1] == (be_i16(b, 4) as i16, be_i16(b, 6) as i16));
}

/// Other commands are passed over, up to the one that begins the picture body or the last that
/// can be read; the size is then 16000 both ways.
pub proof fn law_extent_passes_others(d: Seq<u8>, p: int)
    requires
        fits(d),
    ensures
        command(d, p) is None ==> extent(d, p) == (16000int, 16000int),
        command(d, p) matches Some(c) ==> {
            &&& c.class == 0 && c.id == 4 ==> extent(d, p) == (16000int, 16000int)
            &&& !(c.class == 0 && c.id == 4) && !(c.class == 2 && c.id == 6 && c.end - c.start == 8)
                ==> extent(d, p) == extent(d, c.next as int)
        },
{
}

/// A byte as a text is the character of its number.
pub proof fn law_latin_keeps_numbers(b: Seq<u8>, i: int)
    requires
        0 <= i < b.len(),
    ensures
        latin(b).len() == b.len(),
        latin(b)[i] as int == b[i] as int,
{
}

proof fn lemma_run_end_in(s: Seq<u8>, i: int, e: int)
    requires
        0 <= i <= e <= s.len(),
        forall|k: int| i <= k < e ==> printable(#[trigger] s[k]),
        e < s.len() ==> !printable(s[e]),
    ensures
        run_end(s, i) == e,
    decreases e - i,
{
    if i < e {
        assert(printable(s[i]));
        lemma_run_end_in(s, i + 1, e);
    }
}

/// Printable bytes alone are one run, unless they are fewer than two.
pub proof fn law_printable_is_one_run(s: Seq<u8>)
    requires
        forall|k: int| 0 <= k < s.len() ==> 0x20 <= #[trigger] s[k] <= 0x7e,
    ensures
        runs_from(s, 0) == if s.len() >= 2 {
            seq![s]
        } else {
            Seq::empty()
        },
{
    if s.len() > 0 {
        assert(printable(s[0]));
        lemma_run_end_in(s, 0, s.len() as int);
        assert(s.subrange(0, s.len() as int) =~= s);
        assert(runs_from(s, s.len() as int) =~= Seq::empty());
        assert(runs_from(s, 0) =~= if s.len() >= 2 {
            seq![s]
        } else {
            Seq::empty()
        });
    }
}

proof fn lemma_runs_behind(x: Seq<u8>, b: u8, y: Seq<u8>, j: int)
    requires
        0 <= j <= y.len(),
    ensures
        runs_from(x + seq![b] + y, x.len() + 1 + j) == runs_from(y, j),
    decreases y.len() - j,
{
    let s = x + seq![b] + y;
    let o = x.len() + 1;
    if j < y.len() {
        assert(s[o + j] == y[j]);
        if printable(y[j]) {
            lemma_run_end(y, j);
            lemma_run_end(y, j + 1);
            let e = run_end(y, j);
            assert forall|k: int| o + j <= k < o + e implies printable(#[trigger] s[k]) by {
                assert(s[k] == y[k - o]);
            }
            if o + e < s.len() {
                assert(s[o + e] == y[e]);
            }
            lemma_run_end_in(s, o + j, o + e);
            assert(s.subrange(o + j, o + e) =~= y.subrange(j, e));
            lemma_runs_behind(x, b, y, e);
        } else {
            lemma_runs_behind(x, b, y, j + 1);
        }
    }
}

proof fn lemma_runs_before(x: Seq<u8>, b: u8, y: Seq<u8>, i: int)
    requires
        0 <= i <= x.len(),
        !printable(b),
    ensures
        runs_from(x + seq![b] + y, i) == runs_from(x, i) + runs_from(y, 0),
    decreases x.len() - i,
{
    let s = x + seq![b] + y;
    if i < x.len() {
        assert(s[i] == x[i]);
        if printable(x[i]) {
            lemma_run_end(x, i);
            lemma_run_end(x, i + 1);
            let e = run_end(x, i);
            assert forall|k: int| i <= k < e implies printable(#[trigger] s[k]) by {
                assert(s[k] == x[k]);
            }
            assert(!printable(s[e])) by {
                if e < x.len() {
                    assert(s[e] == x[e]);
                } else {
                    assert(s[e] == b);
                }
            }
            lemma_run_end_in(s, i, e);
            assert(s.subrange(i, e) =~= x.subrange(i, e));
            lemma_runs_before(x, b, y, e);
            assert(runs_from(s, i) =~= runs_from(x, i) + runs_from(y, 0));
        } else {
            lemma_runs_before(x, b, y, i + 1);
        }
    } else {
        assert(s[i] == b);
        lemma_runs_behind(x, b, y, 0);
        assert(runs_from(x, i) =~= Seq::empty());
        assert(runs_from(s, i) == runs_from(s, i + 1));
        assert(runs_from(s, i) =~= runs_from(x, i) + runs_from(y, 0));
    }
}

/// A byte that is not printable parts the runs before it from those behind it.
pub proof fn law_runs_part_at_other_bytes(x: Seq<u8>, b: u8, y: Seq<u8>)
    requires
        b < 0x20 || b > 0x7e,
    ensures
        runs_from(x + seq![b] + y, 0) == runs_from(x, 0) + runs_from(y, 0),
{
    lemma_runs_before(x, b, y, 0);
}

/// The points in range are counted one by one: a point counts where both its coordinates lie
/// between -3000 and 19000.
pub proof fn law_good_points_are_in_range(p: Seq<(i16, i16)>, x: i16, y: i16)
    ensures
        good_points(Seq::empty()) == 0,
        good_points(p.push((x, y))) == good_points(p) + if -3000 <= x <= 19000 && -3000 <= y <= 19000 {
            1int
        } else {
            0
        },
{
    assert(p.push((x, y)).drop_last() =~= p);
}

/// One command more is scored by what it draws: a polyline, disjoint polyline or polygon counts
/// as a primitive with its points, anything else counts nothing, and a block of more than 8192
/// bytes that draws nothing ends the count.
pub proof fn law_score_counts_what_is_drawn(d: Seq<u8>, p: int, n: nat)
    requires
        n > 0,
    ensures
        command(d, p) is None ==> score(d, p, n) == (0int, 0int, 0int),
        command(d, p) matches Some(c) ==> {
            let rest = score(d, c.next as int, (n - 1) as nat);
            let q = points(params(d, c));
            if c.class != 4 && c.end - c.start > 8192 {
                score(d, p, n) == (0int, 0int, 0int)
            } else if c.class == 4 && (c.id == 1 || c.id == 2 || c.id == 7) {
                score(d, p, n) == (1 + rest.0, q.len() + rest.1, good_points(q) + rest.2)
            } else {
                score(d, p, n) == rest
            }
        },
{
}

/// An offset is aligned exactly where the commands from it on lead, within the steps allowed, to
/// one that begins a layer or a feature, past none that ends the picture or is too long.
pub proof fn law_alignment_leads_to_a_frame(d: Seq<u8>, p: int, a: Aps, n: nat)
    requires
        n > 0,
    ensures
        reaches(d, p, a, n) <==> (command(d, p) matches Some(c) && !(c.class != 4 && c.end - c.start
            > 8192) && ((c.class == 0 && c.id == 21 && runs_from(params(d, c), 0).len() > 1 && (
        latin(runs_from(params(d, c), 0)[1]) == a.layer@ || latin(runs_from(params(d, c), 0)[1])
            == a.feature@)) || (!(c.class == 0 && (c.id == 2 || c.id == 5)) && reaches(
            d,
            c.next as int,
            a,
            (n - 1) as nat,
        )))),
        !reaches(d, p, a, 0),
{
}

/// The search for the body begins twelve bytes past the first `Ymax` of the readable header, or
/// at byte 380 where there is none, and goes on for 4000 bytes or to the end.
pub proof fn law_search_window(d: Seq<u8>, db: Seq<u8>)
    ensures
        ({
            let lo = search_from(db);
            let hi = search_to(d, lo);
            &&& (forall|j: int| 0 <= j ==> !occurs(db, seq![0x59u8, 0x6d, 0x61, 0x78], j)) ==> lo
                == 380
            &&& forall|j: int|
                occurs(db, seq![0x59u8, 0x6d, 0x61, 0x78], j) && (forall|i: int|
                    0 <= i < j ==> !occurs(db, seq![0x59u8, 0x6d, 0x61, 0x78], i)) ==> lo == #[trigger] (j + 12)
            &&& hi <= d.len() && hi <= lo + 4000
            &&& hi == d.len() || hi == lo + 4000
        }),
{
    lemma_first_at(db, ymax(), 0);
    assert(ymax() =~= seq![0x59u8, 0x6d, 0x61, 0x78]);
}

/// A start is accepted where the next 64 commands hold the least number of primitives and
/// points, and more than nineteen points in twenty are in range.
pub proof fn law_start_scores_well(d: Seq<u8>, a: Aps, s: int, min_prims: int, min_points: int)
    ensures
        accepts(d, a, s, min_prims, min_points) <==> {
            let t = score(d, s, 64);
            &&& t.0 >= min_prims
            &&& t.1 >= min_points
            &&& 20 * t.2 > 19 * t.1
            &&& reaches(d, s, a, 300_001)
        },
{
}

/// Where no even distance into the search is dense and aligned, the start is the first that is
/// aligned with any geometry, and there is none where there is not even that.
pub proof fn law_sparse_start_is_second_choice(d: Seq<u8>, db: Seq<u8>, a: Aps)
    ensures
        ({
            let lo = search_from(db);
            let hi = search_to(d, lo);
            let dense = exists|t: int|
                lo <= t < hi && (t - lo) % 2 == 0 && #[trigger] accepts(d, a, t, 2, 20);
            match start(d, db, a) {
                Some(s) => {
                    &&& lo <= s < hi && (s - lo) % 2 == 0
                    &&& dense ==> accepts(d, a, s, 2, 20) && forall|t: int|
                        lo <= t < s && (t - lo) % 2 == 0 ==> !#[trigger] accepts(d, a, t, 2, 20)
                    &&& !dense ==> accepts(d, a, s, 1, 2) && forall|t: int|
                        lo <= t < s && (t - lo) % 2 == 0 ==> !#[trigger] accepts(d, a, t, 1, 2)
                },
                None => !dense && forall|t: int|
                    lo <= t < hi && (t - lo) % 2 == 0 ==> !#[trigger] accepts(d, a, t, 1, 2),
            }
        }),
{
    let lo = search_from(db);
    let hi = search_to(d, lo);
    lemma_first_start(d, a, lo, hi, 2, 20);
    lemma_first_start(d, a, lo, hi, 1, 2);
    lemma_first_start_even(d, a, lo, hi, 2, 20);
    lemma_first_start_even(d, a, lo, hi, 1, 2);
}

proof fn lemma_first_start_even(
    d: Seq<u8>,
    a: Aps,
    s: int,
    hi: int,
    min_prims: int,
    min_points: int,
)
    ensures
        first_start(d, a, s, hi, min_prims, min_points) matches Some(r) ==> (r - s) % 2 == 0,
    decreases hi - s + 1,
{
    if s < hi {
        lemma_first_start_even(d, a, s + 2, hi, min_prims, min_points);
    }
}

/// The dense start is the first even distance into the search whose next 25 commands can all be
/// read and hold two primitives and twenty points or more, more than nineteen in twenty in range.
pub proof fn law_dense_start_is_first(d: Seq<u8>, s: int, hi: int)
    ensures
        match first_dense(d, s, hi) {
            Some(r) => {
                &&& s <= r < hi && (r - s) % 2 == 0
                &&& full_score(d, r, 25) matches Some(t) && t.0 >= 2 && t.1 >= 20 && 20 * t.2 > 19
                    * t.1
                &&& forall|q: int|
                    s <= q < r && (q - s) % 2 == 0 ==> !(#[trigger] full_score(d, q, 25) matches Some(
                        t,
                    ) && t.0 >= 2 && t.1 >= 20 && 20 * t.2 > 19 * t.1)
            },
            None => forall|q: int|
                s <= q < hi && (q - s) % 2 == 0 ==> !(#[trigger] full_score(d, q, 25) matches Some(t)
                    && t.0 >= 2 && t.1 >= 20 && 20 * t.2 > 19 * t.1),
        },
    decreases hi - s + 1,
{
    if s < hi {
        law_dense_start_is_first(d, s + 2, hi);
    }
}

/// The full score is that of all commands, and there is none where one cannot be read.
pub proof fn law_full_score_counts_all(d: Seq<u8>, p: int, n: nat)
    requires
        n > 0,
    ensures
        full_score(d, p, 0) == Some((0int, 0int, 0int)),
        full_score(d, p, n) is Some <==> (command(d, p) matches Some(c) && full_score(
            d,
            c.next as int,
            (n - 1) as nat,
        ) is Some),
        full_score(d, p, n) matches Some(t) ==> {
            let c = command(d, p)->0;
            let rest = full_score(d, c.next as int, (n - 1) as nat)->0;
            let q = points(params(d, c));
            if c.class == 4 && (c.id == 1 || c.id == 2 || c.id == 7) {
                t == (1 + rest.0, q.len() + rest.1, good_points(q) + rest.2)
            } else {
                t == rest
            }
        },
{
}

/// No command is read where its head, its length or its parameters reach beyond the data, where
/// its class is none, or where its data come in parts.
pub proof fn law_refused_commands(d: Seq<u8>, p: int)
    requires
        fits(d),
        0 <= p,
    ensures
        p + 2 > d.len() ==> command(d, p) is None,
        p + 2 <= d.len() && d[p] >= 160 ==> command(d, p) is None,
        p + 2 <= d.len() && d[p + 1] % 32 != 31 && p + 2 + d[p + 1] % 32 > d.len() ==> command(
            d,
            p,
        ) is None,
        p + 2 <= d.len() && d[p + 1] % 32 == 31 && p + 4 > d.len() ==> command(d, p) is None,
        p + 4 <= d.len() && d[p + 1] % 32 == 31 && d[p + 2] >= 128 ==> command(d, p) is None,
        p + 4 <= d.len() && d[p + 1] % 32 == 31 && p + 4 + d[p + 2] * 256 + d[p + 3] > d.len()
            ==> command(d, p) is None,
        p + 2 <= d.len() && d[p] < 160 && d[p + 1] % 32 != 31 && p + 2 + d[p + 1] % 32 <= d.len()
            ==> command(d, p) is Some,
{
    reveal(command);
    if p + 2 <= d.len() {
        let word = be16(d, p);
        assert(word % 32 == d[p + 1] % 32);
        assert(word / 4096 > 9 <==> d[p] >= 160);
    }
}

/// The position found is the first at which the bytes stand, and there is none where they stand
/// nowhere.
pub proof fn law_first_place_is_found(hay: Seq<u8>, needle: Seq<u8>, i: int)
    requires
        0 <= i,
    ensures
        i + needle.len() <= hay.len() && hay.subrange(i, i + needle.len()) == needle ==> (first_at(
            hay,
            needle,
            0,
        ) matches Some(r) && 0 <= r <= i && hay.subrange(r, r + needle.len()) == needle),
        first_at(hay, needle, 0) matches Some(r) ==> r + needle.len() <= hay.len() && hay.subrange(
            r,
            r + needle.len(),
        ) == needle && (i < r ==> hay.subrange(i, i + needle.len()) != needle),
{
    lemma_first_at(hay, needle, 0);
    assert(occurs(hay, needle, i) <==> i + needle.len() <= hay.len() && hay.subrange(
        i,
        i + needle.len(),
    ) == needle);
}

} // verus!
