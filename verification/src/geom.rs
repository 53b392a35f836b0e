//! Lines on the ground: stitching fragments together, and their binary form.
//!
//! A coordinate is kept as the bit pattern of its number. Beside it stands the node, the
//! position rounded to millimetres, by which two ends are told to meet.
use std::collections::VecDeque;
use vstd::multiset::Multiset;
use vstd::prelude::*;
use crate::bytes::{get_le, le, le_value, lemma_le_len, lemma_le_round, lemma_spans, put_le};

verus! {

/// A point of a line.
#[derive(Clone, Copy)]
pub struct Vertex {
    pub x: u64,
    pub y: u64,
    pub node: (i64, i64),
}

/// The geometry of a feature.
pub enum Geom {
    Line(Vec<Vertex>),
    Multi(Vec<Vec<Vertex>>),
    Poly(Vec<Vertex>),
}

/// The contents of a geometry.
pub enum GeomView {
    Line(Seq<Vertex>),
    Multi(Seq<Seq<Vertex>>),
    Poly(Seq<Vertex>),
}

/// The contents of a list of lines.
pub open spec fn contents(v: Seq<Vec<Vertex>>) -> Seq<Seq<Vertex>> {
    v.map_values(|l: Vec<Vertex>| l@)
}

impl DeepView for Geom {
    type V = GeomView;

    open spec fn deep_view(&self) -> GeomView {
        match self {
            Geom::Line(p) => GeomView::Line(p@),
            Geom::Multi(ps) => GeomView::Multi(contents(ps@)),
            Geom::Poly(p) => GeomView::Poly(p@),
        }
    }
}

/// The nodes of a line in order.
pub open spec fn path(f: Seq<Vertex>) -> Seq<(i64, i64)> {
    f.map_values(|v: Vertex| v.node)
}

/// Whether two lines run over the same nodes, in either direction.
pub open spec fn same_path(a: Seq<Vertex>, b: Seq<Vertex>) -> bool {
    path(a) == path(b) || path(a) == path(b).reverse()
}

/// Whether a line runs like one of those listed.
pub open spec fn listed(list: Seq<Seq<Vertex>>, f: Seq<Vertex>) -> bool {
    exists|i: int| 0 <= i < list.len() && same_path(#[trigger] list[i], f)
}

/// The fragments of two vertices or more, each path once: the first that runs over it.
pub open spec fn distinct(frags: Seq<Seq<Vertex>>) -> Seq<Seq<Vertex>>
    decreases frags.len(),
{
    if frags.len() == 0 {
        Seq::empty()
    } else {
        let d = distinct(frags.drop_last());
        let f = frags.last();
        if f.len() >= 2 && !listed(d, f) {
            d.push(f)
        } else {
            d
        }
    }
}

/// The ends of fragments at a node: the fragment's place, and whether it is its last end.
pub open spec fn ends_at(frags: Seq<Seq<Vertex>>, node: (i64, i64)) -> Seq<(int, bool)>
    decreases frags.len(),
{
    if frags.len() == 0 {
        Seq::empty()
    } else {
        let e = ends_at(frags.drop_last(), node);
        let f = frags.last();
        let n = frags.len() - 1;
        let e = if f[0].node == node {
            e.push((n, false))
        } else {
            e
        };
        if f.last().node == node {
            e.push((n, true))
        } else {
            e
        }
    }
}

/// Where a line that ends at a node goes on: exactly two ends meet there, and the fragment
/// of one of them is not yet in use.
pub open spec fn goes_on(frags: Seq<Seq<Vertex>>, used: Seq<bool>, node: (i64, i64)) -> Option<
    (int, bool),
> {
    let e = ends_at(frags, node);
    if e.len() != 2 {
        None
    } else if !used[e[0].0] {
        Some(e[0])
    } else if !used[e[1].0] {
        Some(e[1])
    } else {
        None
    }
}

/// How many fragments are not in use.
pub open spec fn unused(used: Seq<bool>) -> nat
    decreases used.len(),
{
    if used.len() == 0 {
        0
    } else {
        unused(used.drop_last()) + if used.last() {
            0nat
        } else {
            1nat
        }
    }
}

/// A fragment as it is met at one of its ends.
pub open spec fn met(f: Seq<Vertex>, at_last: bool) -> Seq<Vertex> {
    if at_last {
        f.reverse()
    } else {
        f
    }
}

/// A line grown at its end, or at its front, by fragment after fragment; and which
/// fragments are then in use.
pub open spec fn grown(
    frags: Seq<Seq<Vertex>>,
    used: Seq<bool>,
    line: Seq<Vertex>,
    front: bool,
) -> (Seq<Vertex>, Seq<bool>)
    decreases unused(used),
    when used.len() == frags.len()
    via grown_ends
{
    let node = if front {
        line[0].node
    } else {
        line.last().node
    };
    match goes_on(frags, used, node) {
        None => (line, used),
        Some((f, at_last)) => {
            let more = met(frags[f], at_last).skip(1);
            let line = if front {
                more.reverse() + line
            } else {
                line + more
            };
            grown(frags, used.update(f, true), line, front)
        },
    }
}

#[via_fn]
proof fn grown_ends(frags: Seq<Seq<Vertex>>, used: Seq<bool>, line: Seq<Vertex>, front: bool) {
    let node = if front {
        line[0].node
    } else {
        line.last().node
    };
    lemma_goes_on(frags, used, node);
    match goes_on(frags, used, node) {
        Some((f, at_last)) => {
            lemma_unused(used, f);
        },
        None => {},
    }
}

/// The lines that the fragments from `s` on grow into.
pub open spec fn stitched(frags: Seq<Seq<Vertex>>, used: Seq<bool>, s: int) -> Seq<Seq<Vertex>>
    decreases frags.len() - s,
{
    if s < 0 || s >= frags.len() {
        Seq::empty()
    } else if used[s] {
        stitched(frags, used, s + 1)
    } else {
        let (line, used) = grown(frags, used.update(s, true), frags[s], false);
        let (line, used) = grown(frags, used, line, true);
        seq![line] + stitched(frags, used, s + 1)
    }
}

/// The lines that fragments are stitched into.
pub open spec fn merged(frags: Seq<Seq<Vertex>>) -> Seq<Seq<Vertex>> {
    let d = distinct(frags);
    stitched(d, Seq::new(d.len(), |i: int| false), 0)
}

/// What `ends_at` lists are ends at the node.
pub proof fn lemma_ends_at(frags: Seq<Seq<Vertex>>, node: (i64, i64), k: int)
    requires
        0 <= k < ends_at(frags, node).len(),
    ensures
        ({
            let (f, at_last) = ends_at(frags, node)[k];
            &&& 0 <= f < frags.len()
            &&& met(frags[f], at_last)[0].node == node || frags[f].len() == 0
        }),
    decreases frags.len(),
{
    let n = frags.len() - 1;
    let e = ends_at(frags.drop_last(), node);
    if k < e.len() {
        lemma_ends_at(frags.drop_last(), node, k);
    }
}

proof fn lemma_goes_on(frags: Seq<Seq<Vertex>>, used: Seq<bool>, node: (i64, i64))
    ensures
        goes_on(frags, used, node) matches Some((f, at_last)) ==> {
            &&& 0 <= f < frags.len()
            &&& !used[f]
            &&& met(frags[f], at_last)[0].node == node || frags[f].len() == 0
        },
{
    let e = ends_at(frags, node);
    if e.len() == 2 {
        lemma_ends_at(frags, node, 0);
        lemma_ends_at(frags, node, 1);
    }
}

proof fn lemma_unused(used: Seq<bool>, f: int)
    requires
        0 <= f < used.len(),
        !used[f],
    ensures
        unused(used) == unused(used.update(f, true)) + 1,
    decreases used.len(),
{
    if f < used.len() - 1 {
        lemma_unused(used.drop_last(), f);
        assert(used.update(f, true).drop_last() =~= used.drop_last().update(f, true));
    } else {
        assert(used.update(f, true).drop_last() =~= used.drop_last());
    }
}

fn same_nodes(a: &Vertex, b: &Vertex) -> (r: bool)
    ensures
        r == (a.node == b.node),
{
    a.node.0 == b.node.0 && a.node.1 == b.node.1
}

fn runs_like(a: &Vec<Vertex>, b: &Vec<Vertex>) -> (r: bool)
    ensures
        r == same_path(a@, b@),
{
    let n = a.len();
    if n != b.len() {
        assert(path(a@).len() != path(b@).len());
        return false;
    }
    let mut ahead = true;
    let mut back = true;
    let mut i: usize = 0;
    while i < n
        invariant
            i <= n == a.len() == b.len(),
            ahead == forall|k: int| 0 <= k < i ==> path(a@)[k] == #[trigger] path(b@)[k],
            back == forall|k: int| 0 <= k < i ==> path(a@)[k] == #[trigger] path(b@).reverse()[k],
        decreases n - i,
    {
        assert(path(a@)[i as int] == a@[i as int].node);
        assert(path(b@)[i as int] == b@[i as int].node);
        assert(path(b@).reverse()[i as int] == b@[n - 1 - i].node);
        if !same_nodes(&a[i], &b[i]) {
            ahead = false;
        }
        if !same_nodes(&a[i], &b[n - 1 - i]) {
            back = false;
        }
        i += 1;
    }
    proof {
        if ahead {
            assert(path(a@) =~= path(b@));
        }
        if back {
            assert(path(a@) =~= path(b@).reverse());
        }
    }
    ahead || back
}

fn is_listed(list: &Vec<Vec<Vertex>>, f: &Vec<Vertex>) -> (r: bool)
    ensures
        r == listed(contents(list@), f@),
{
    let mut i: usize = 0;
    while i < list.len()
        invariant
            i <= list.len(),
            forall|k: int| 0 <= k < i ==> !same_path(#[trigger] contents(list@)[k], f@),
        decreases list.len() - i,
    {
        assert(contents(list@)[i as int] == list@[i as int]@);
        if runs_like(&list[i], f) {
            return true;
        }
        i += 1;
    }
    false
}

/// Copies the vertices of a line.
pub fn copy_line(f: &Vec<Vertex>) -> (r: Vec<Vertex>)
    ensures
        r@ == f@,
{
    let mut out: Vec<Vertex> = Vec::new();
    let mut i: usize = 0;
    while i < f.len()
        invariant
            i <= f.len(),
            out@ == f@.take(i as int),
        decreases f.len() - i,
    {
        out.push(f[i]);
        i += 1;
        assert(f@.take(i as int) =~= f@.take(i - 1).push(f@[i - 1]));
    }
    assert(f@.take(i as int) =~= f@);
    out
}

fn distinct_of(frags: &Vec<Vec<Vertex>>) -> (r: Vec<Vec<Vertex>>)
    ensures
        contents(r@) == distinct(contents(frags@)),
{
    let ghost c = contents(frags@);
    let mut out: Vec<Vec<Vertex>> = Vec::new();
    let mut i: usize = 0;
    assert(contents(out@) =~= distinct(c.take(0)));
    while i < frags.len()
        invariant
            i <= frags.len(),
            c == contents(frags@),
            contents(out@) == distinct(c.take(i as int)),
        decreases frags.len() - i,
    {
        assert(c.take(i + 1).drop_last() =~= c.take(i as int));
        assert(c.take(i + 1).last() == frags@[i as int]@);
        if frags[i].len() >= 2 && !is_listed(&out, &frags[i]) {
            let ghost before = contents(out@);
            let f = copy_line(&frags[i]);
            out.push(f);
            assert(contents(out@) =~= before.push(f@));
        }
        i += 1;
    }
    assert(c.take(i as int) =~= c);
    out
}

/// The ends of fragments, with the places in machine words.
pub open spec fn placed(e: Seq<(usize, bool)>) -> Seq<(int, bool)> {
    e.map_values(|x: (usize, bool)| (x.0 as int, x.1))
}

fn ends_of(frags: &Vec<Vec<Vertex>>, node: (i64, i64)) -> (r: Vec<(usize, bool)>)
    requires
        forall|i: int| 0 <= i < frags.len() ==> (#[trigger] frags@[i]).len() >= 2,
    ensures
        placed(r@) == ends_at(contents(frags@), node),
{
    let ghost c = contents(frags@);
    let mut out: Vec<(usize, bool)> = Vec::new();
    let mut i: usize = 0;
    assert(placed(out@) =~= ends_at(c.take(0), node));
    while i < frags.len()
        invariant
            i <= frags.len(),
            c == contents(frags@),
            forall|i: int| 0 <= i < frags.len() ==> (#[trigger] frags@[i]).len() >= 2,
            placed(out@) == ends_at(c.take(i as int), node),
        decreases frags.len() - i,
    {
        let f = &frags[i];
        assert(c.take(i + 1).drop_last() =~= c.take(i as int));
        assert(c.take(i + 1).last() == f@);
        let ghost before = placed(out@);
        if f[0].node.0 == node.0 && f[0].node.1 == node.1 {
            out.push((i, false));
            assert(placed(out@) =~= before.push((i as int, false)));
        }
        let ghost before = placed(out@);
        let n = f.len() - 1;
        if f[n].node.0 == node.0 && f[n].node.1 == node.1 {
            out.push((i, true));
            assert(placed(out@) =~= before.push((i as int, true)));
        }
        i += 1;
    }
    assert(c.take(i as int) =~= c);
    out
}

fn next_end(frags: &Vec<Vec<Vertex>>, used: &Vec<bool>, node: (i64, i64)) -> (r: Option<
    (usize, bool),
>)
    requires
        forall|i: int| 0 <= i < frags.len() ==> (#[trigger] frags@[i]).len() >= 2,
        used.len() == frags.len(),
    ensures
        goes_on(contents(frags@), used@, node) == (match r {
            Some(e) => Some((e.0 as int, e.1)),
            None => None,
        }),
        r matches Some(e) ==> e.0 < frags.len() && !used@[e.0 as int],
{
    let e = ends_of(frags, node);
    if e.len() != 2 {
        assert(placed(e@).len() == e.len());
        return None;
    }
    proof {
        lemma_goes_on(contents(frags@), used@, node);
        lemma_ends_at(contents(frags@), node, 0);
        lemma_ends_at(contents(frags@), node, 1);
        assert(placed(e@)[0] == (e@[0].0 as int, e@[0].1));
        assert(placed(e@)[1] == (e@[1].0 as int, e@[1].1));
    }
    if !used[e[0].0] {
        Some(e[0])
    } else if !used[e[1].0] {
        Some(e[1])
    } else {
        None
    }
}

/// Appends to a line, or puts before it, all but the first vertex of a fragment as it is met
/// at one of its ends.
fn join(line: &mut VecDeque<Vertex>, f: &Vec<Vertex>, at_last: bool, front: bool)
    requires
        f.len() >= 2,
    ensures
        final(line)@ == if front {
            met(f@, at_last).skip(1).reverse() + old(line)@
        } else {
            old(line)@ + met(f@, at_last).skip(1)
        },
{
    let ghost before = line@;
    let ghost more = met(f@, at_last).skip(1);
    let n = f.len();
    let mut i: usize = 1;
    assert(more.take(0).reverse() + before =~= before);
    assert(before + more.take(0) =~= before);
    while i < n
        invariant
            1 <= i <= n == f.len(),
            more == met(f@, at_last).skip(1),
            line@ == if front {
                more.take(i - 1).reverse() + before
            } else {
                before + more.take(i - 1)
            },
        decreases n - i,
    {
        let v = if at_last {
            f[n - 1 - i]
        } else {
            f[i]
        };
        assert(v == more[i - 1]);
        let ghost now = line@;
        if front {
            line.push_front(v);
            assert(line@ =~= seq![v] + now);
            assert(more.take(i as int).reverse() =~= seq![v] + more.take(i - 1).reverse());
            assert(line@ =~= more.take(i as int).reverse() + before);
        } else {
            line.push_back(v);
            assert(more.take(i as int) =~= more.take(i - 1).push(v));
            assert(line@ =~= before + more.take(i as int));
        }
        i += 1;
    }
    assert(more.take(n - 1) =~= more);
}

fn grow(frags: &Vec<Vec<Vertex>>, used: &mut Vec<bool>, line: &mut VecDeque<Vertex>, front: bool)
    requires
        forall|i: int| 0 <= i < frags.len() ==> (#[trigger] frags@[i]).len() >= 2,
        old(used).len() == frags.len(),
        old(line).len() >= 1,
    ensures
        (final(line)@, final(used)@) == grown(
            contents(frags@),
            old(used)@,
            old(line)@,
            front,
        ),
        final(used).len() == frags.len(),
        final(line).len() >= 1,
{
    let ghost c = contents(frags@);
    let ghost whole = grown(c, used@, line@, front);
    loop
        invariant
            c == contents(frags@),
            forall|i: int| 0 <= i < frags.len() ==> (#[trigger] frags@[i]).len() >= 2,
            used.len() == frags.len(),
            line.len() >= 1,
            grown(c, used@, line@, front) == whole,
        ensures
            used.len() == frags.len(),
            line.len() >= 1,
            (line@, used@) == whole,
        decreases unused(used@),
    {
        let node = if front {
            line[0].node
        } else {
            line[line.len() - 1].node
        };
        match next_end(frags, used, node) {
            None => {
                break;
            },
            Some((f, at_last)) => {
                proof {
                    lemma_unused(used@, f as int);
                    assert(c[f as int] == frags@[f as int]@);
                }
                used.set(f, true);
                join(line, &frags[f], at_last, front);
            },
        }
    }
}

fn deque_of(f: &Vec<Vertex>) -> (r: VecDeque<Vertex>)
    ensures
        r@ == f@,
{
    let mut out: VecDeque<Vertex> = VecDeque::new();
    let mut i: usize = 0;
    while i < f.len()
        invariant
            i <= f.len(),
            out@ == f@.take(i as int),
        decreases f.len() - i,
    {
        out.push_back(f[i]);
        i += 1;
        assert(f@.take(i as int) =~= f@.take(i - 1).push(f@[i - 1]));
    }
    assert(f@.take(i as int) =~= f@);
    out
}

fn line_of(d: &VecDeque<Vertex>) -> (r: Vec<Vertex>)
    ensures
        r@ == d@,
{
    let mut out: Vec<Vertex> = Vec::new();
    let mut i: usize = 0;
    while i < d.len()
        invariant
            i <= d.len(),
            out@ == d@.take(i as int),
        decreases d.len() - i,
    {
        out.push(d[i]);
        i += 1;
        assert(d@.take(i as int) =~= d@.take(i - 1).push(d@[i - 1]));
    }
    assert(d@.take(i as int) =~= d@);
    out
}

/// Stitches line fragments end to end where exactly two ends meet. Fragments of fewer than
/// two vertices, and those that run over the path of an earlier one, are left out.
pub fn linemerge(frags: &Vec<Vec<Vertex>>) -> (r: Vec<Vec<Vertex>>)
    ensures
        contents(r@) == merged(contents(frags@)),
{
    let d = distinct_of(frags);
    let ghost c = contents(d@);
    let ghost whole = merged(contents(frags@));
    let n = d.len();
    let mut used: Vec<bool> = Vec::new();
    let mut i: usize = 0;
    while i < n
        invariant
            i <= n,
            used@ =~= Seq::new(i as nat, |k: int| false),
        decreases n - i,
    {
        used.push(false);
        i += 1;
    }
    proof {
        assert forall|i: int| 0 <= i < d.len() implies (#[trigger] d@[i]).len() >= 2 by {
            lemma_distinct(contents(frags@), i);
            assert(c[i] == d@[i]@);
        }
    }
    let mut out: Vec<Vec<Vertex>> = Vec::new();
    let mut s: usize = 0;
    assert(contents(out@) + stitched(c, used@, 0) =~= whole);
    while s < n
        invariant
            s <= n == d.len() == used.len(),
            c == contents(d@),
            forall|i: int| 0 <= i < d.len() ==> (#[trigger] d@[i]).len() >= 2,
            contents(out@) + stitched(c, used@, s as int) == whole,
        decreases n - s,
    {
        if !used[s] {
            assert(c[s as int] == d@[s as int]@);
            used.set(s, true);
            let mut line = deque_of(&d[s]);
            grow(&d, &mut used, &mut line, false);
            grow(&d, &mut used, &mut line, true);
            let l = line_of(&line);
            let ghost before = contents(out@);
            out.push(l);
            assert(contents(out@) =~= before.push(l@));
            assert(contents(out@) + stitched(c, used@, s + 1) =~= before + (seq![l@] + stitched(
                c,
                used@,
                s + 1,
            )));
        }
        s += 1;
    }
    assert(contents(out@) =~= whole);
    out
}

/// The fragments that are kept have two vertices or more.
pub proof fn lemma_distinct(frags: Seq<Seq<Vertex>>, i: int)
    requires
        0 <= i < distinct(frags).len(),
    ensures
        distinct(frags)[i].len() >= 2,
    decreases frags.len(),
{
    if i < distinct(frags.drop_last()).len() {
        lemma_distinct(frags.drop_last(), i);
    }
}

/// The steps of a line from node to node, each in both directions.
pub open spec fn hops(f: Seq<Vertex>) -> Multiset<((i64, i64), (i64, i64))>
    decreases f.len(),
{
    if f.len() < 2 {
        Multiset::empty()
    } else {
        let a = f[f.len() - 2].node;
        let b = f[f.len() - 1].node;
        hops(f.drop_last()).insert((a, b)).insert((b, a))
    }
}

/// The steps of several lines together.
pub open spec fn all_hops(lines: Seq<Seq<Vertex>>) -> Multiset<((i64, i64), (i64, i64))>
    decreases lines.len(),
{
    if lines.len() == 0 {
        Multiset::empty()
    } else {
        hops(lines[0]).add(all_hops(lines.skip(1)))
    }
}

/// The steps of the fragments that are not in use.
pub open spec fn free_hops(frags: Seq<Seq<Vertex>>, used: Seq<bool>) -> Multiset<
    ((i64, i64), (i64, i64)),
>
    decreases frags.len(),
{
    if frags.len() == 0 {
        Multiset::empty()
    } else {
        let rest = free_hops(frags.drop_last(), used.drop_last());
        if used.last() {
            rest
        } else {
            rest.add(hops(frags.last()))
        }
    }
}

proof fn lemma_hops_joined(a: Seq<Vertex>, b: Seq<Vertex>)
    requires
        a.len() >= 1,
        b.len() >= 1,
        a.last().node == b[0].node,
    ensures
        hops(a + b.skip(1)) == hops(a).add(hops(b)),
    decreases b.len(),
{
    if b.len() == 1 {
        assert(a + b.skip(1) =~= a);
        assert(hops(a).add(hops(b)) =~= hops(a));
    } else {
        let c = b.drop_last();
        lemma_hops_joined(a, c);
        let whole = a + b.skip(1);
        assert(whole.drop_last() =~= a + c.skip(1));
        let n = whole.len();
        assert(whole[n - 1] == b.last());
        assert(whole[n - 2].node == b[b.len() - 2].node);
        assert(hops(whole) =~= hops(a).add(hops(b)));
    }
}

proof fn lemma_hops_reversed(f: Seq<Vertex>)
    ensures
        hops(f.reverse()) == hops(f),
    decreases f.len(),
{
    if f.len() >= 2 {
        let g = f.drop_last();
        lemma_hops_reversed(g);
        let a = seq![f.last(), g.last()];
        let r = g.reverse();
        lemma_hops_joined(a, r);
        assert(a + r.skip(1) =~= f.reverse());
        assert(a.drop_last() =~= seq![f.last()]);
        assert(hops(a.drop_last()) =~= Multiset::empty());
        assert(hops(f.reverse()) =~= hops(f));
    }
}

proof fn lemma_free_hops(frags: Seq<Seq<Vertex>>, used: Seq<bool>, f: int)
    requires
        used.len() == frags.len(),
        0 <= f < used.len(),
        !used[f],
    ensures
        free_hops(frags, used) == free_hops(frags, used.update(f, true)).add(hops(frags[f])),
    decreases frags.len(),
{
    let u = used.update(f, true);
    if f < used.len() - 1 {
        lemma_free_hops(frags.drop_last(), used.drop_last(), f);
        assert(u.drop_last() =~= used.drop_last().update(f, true));
        assert(free_hops(frags, used) =~= free_hops(frags, u).add(hops(frags[f])));
    } else {
        assert(u.drop_last() =~= used.drop_last());
    }
}

proof fn lemma_grown(frags: Seq<Seq<Vertex>>, used: Seq<bool>, line: Seq<Vertex>, front: bool)
    requires
        used.len() == frags.len(),
        line.len() >= 2,
        forall|i: int| 0 <= i < frags.len() ==> (#[trigger] frags[i]).len() >= 2,
    ensures
        ({
            let (l, u) = grown(frags, used, line, front);
            &&& u.len() == used.len()
            &&& l.len() >= 2
            &&& forall|i: int| 0 <= i < used.len() && used[i] ==> #[trigger] u[i]
            &&& hops(l).add(free_hops(frags, u)) == hops(line).add(free_hops(frags, used))
        }),
    decreases unused(used),
{
    let node = if front {
        line[0].node
    } else {
        line.last().node
    };
    lemma_goes_on(frags, used, node);
    match goes_on(frags, used, node) {
        Some((f, at_last)) => {
            lemma_unused(used, f);
            lemma_free_hops(frags, used, f);
            assert(frags[f].len() >= 2);
            let seg = met(frags[f], at_last);
            lemma_hops_reversed(frags[f]);
            let more = seg.skip(1);
            let next = if front {
                more.reverse() + line
            } else {
                line + more
            };
            if front {
                lemma_hops_joined(line.reverse(), seg);
                lemma_hops_reversed(line);
                lemma_hops_reversed(next);
                assert(next.reverse() =~= line.reverse() + more);
            } else {
                lemma_hops_joined(line, seg);
            }
            let u = used.update(f, true);
            assert(hops(next).add(free_hops(frags, u)) =~= hops(line).add(free_hops(frags, used)));
            lemma_grown(frags, u, next, front);
        },
        None => {},
    }
}

proof fn lemma_no_free_hops(frags: Seq<Seq<Vertex>>, used: Seq<bool>)
    requires
        used.len() == frags.len(),
        forall|i: int| 0 <= i < used.len() ==> used[i],
    ensures
        free_hops(frags, used) == Multiset::<((i64, i64), (i64, i64))>::empty(),
    decreases frags.len(),
{
    if frags.len() > 0 {
        lemma_no_free_hops(frags.drop_last(), used.drop_last());
    }
}

proof fn lemma_stitched(frags: Seq<Seq<Vertex>>, used: Seq<bool>, s: int)
    requires
        used.len() == frags.len(),
        0 <= s <= frags.len(),
        forall|i: int| 0 <= i < s ==> used[i],
        forall|i: int| 0 <= i < frags.len() ==> (#[trigger] frags[i]).len() >= 2,
    ensures
        all_hops(stitched(frags, used, s)) == free_hops(frags, used),
        forall|i: int|
            0 <= i < stitched(frags, used, s).len() ==> (#[trigger] stitched(
                frags,
                used,
                s,
            )[i]).len() >= 2,
    decreases frags.len() - s,
{
    if s == frags.len() {
        lemma_no_free_hops(frags, used);
    } else if used[s] {
        lemma_stitched(frags, used, s + 1);
    } else {
        let u0 = used.update(s, true);
        lemma_free_hops(frags, used, s);
        let (l1, u1) = grown(frags, u0, frags[s], false);
        assert(frags[s].len() >= 2);
        lemma_grown(frags, u0, frags[s], false);
        let (l2, u2) = grown(frags, u1, l1, true);
        lemma_grown(frags, u1, l1, true);
        assert forall|i: int| 0 <= i < s + 1 implies u2[i] by {
            assert(u0[i]);
            assert(u1[i]);
        }
        let rest = stitched(frags, u2, s + 1);
        lemma_stitched(frags, u2, s + 1);
        let whole = stitched(frags, used, s);
        assert(whole =~= seq![l2] + rest);
        assert(whole.skip(1) =~= rest);
        assert(all_hops(whole) =~= free_hops(frags, used));
        assert forall|i: int| 0 <= i < whole.len() implies (#[trigger] whole[i]).len() >= 2 by {
            if i > 0 {
                assert(whole[i] == rest[i - 1]);
            }
        }
    }
}

proof fn lemma_all_free(frags: Seq<Seq<Vertex>>, lines: Seq<Seq<Vertex>>)
    ensures
        all_hops(lines + frags) == all_hops(lines).add(all_hops(frags)),
    decreases lines.len(),
{
    if lines.len() == 0 {
        assert(lines + frags =~= frags);
        assert(all_hops(lines).add(all_hops(frags)) =~= all_hops(frags));
    } else {
        lemma_all_free(frags, lines.skip(1));
        assert((lines + frags).skip(1) =~= lines.skip(1) + frags);
        assert(all_hops(lines + frags) =~= all_hops(lines).add(all_hops(frags)));
    }
}

proof fn lemma_free_is_all(frags: Seq<Seq<Vertex>>)
    ensures
        free_hops(frags, Seq::new(frags.len(), |i: int| false)) == all_hops(frags),
    decreases frags.len(),
{
    if frags.len() > 0 {
        let d = frags.drop_last();
        lemma_free_is_all(d);
        assert(Seq::new(frags.len(), |i: int| false).drop_last() =~= Seq::new(
            d.len(),
            |i: int| false,
        ));
        lemma_all_free(seq![frags.last()], d);
        assert(d + seq![frags.last()] =~= frags);
        let l = seq![frags.last()];
        assert(l.skip(1) =~= Seq::empty());
        assert(all_hops(l.skip(1)) =~= Multiset::empty());
        assert(all_hops(l) =~= hops(frags.last()));
    }
}

/// Stitching neither loses nor adds linework: the steps of the stitched lines are those of
/// the distinct fragments, each as often. And every stitched line is a line.
pub proof fn law_merge_keeps_linework(frags: Seq<Seq<Vertex>>)
    ensures
        all_hops(merged(frags)) == all_hops(distinct(frags)),
        forall|i: int| 0 <= i < merged(frags).len() ==> (#[trigger] merged(frags)[i]).len() >= 2,
{
    let d = distinct(frags);
    assert forall|i: int| 0 <= i < d.len() implies (#[trigger] d[i]).len() >= 2 by {
        lemma_distinct(frags, i);
    }
    lemma_stitched(d, Seq::new(d.len(), |i: int| false), 0);
    lemma_free_is_all(d);
}

/// Of the fragments, exactly those paths that occur among the lines of two vertices or more
/// are kept, each once whichever way it was drawn.
pub proof fn law_distinct_paths(frags: Seq<Seq<Vertex>>)
    ensures
        forall|i: int|
            0 <= i < frags.len() && (#[trigger] frags[i]).len() >= 2 ==> listed(
                distinct(frags),
                frags[i],
            ),
        forall|i: int| 0 <= i < distinct(frags).len() ==> frags.contains(#[trigger] distinct(frags)[i]),
        forall|i: int, j: int|
            0 <= i < j < distinct(frags).len() ==> !same_path(
                #[trigger] distinct(frags)[i],
                #[trigger] distinct(frags)[j],
            ),
    decreases frags.len(),
{
    if frags.len() > 0 {
        let p = frags.drop_last();
        let f = frags.last();
        law_distinct_paths(p);
        let d = distinct(p);
        let e = distinct(frags);
        assert forall|i: int| 0 <= i < frags.len() && (#[trigger] frags[i]).len() >= 2 implies listed(
            e,
            frags[i],
        ) by {
            if i < p.len() {
                assert(p[i] == frags[i]);
                assert(listed(d, p[i]));
                let k = choose|k: int| 0 <= k < d.len() && same_path(#[trigger] d[k], p[i]);
                assert(e[k] == d[k]);
            } else if !listed(d, f) {
                assert(e[d.len() as int] == f);
                assert(same_path(e[d.len() as int], f));
            } else {
                assert(e == d);
            }
        }
        assert forall|i: int| 0 <= i < e.len() implies frags.contains(#[trigger] e[i]) by {
            if i < d.len() {
                assert(p.contains(d[i]));
                let k = choose|k: int| 0 <= k < p.len() && p[k] == d[i];
                assert(frags[k] == e[i]);
            } else {
                assert(frags[frags.len() - 1] == e[i]);
            }
        }
    }
}

/// The node of a fragment's end.
pub open spec fn end_node(frags: Seq<Seq<Vertex>>, e: (int, bool)) -> (i64, i64) {
    if e.1 {
        frags[e.0].last().node
    } else {
        frags[e.0][0].node
    }
}

/// The ends at the node of an end.
spec fn beside(frags: Seq<Seq<Vertex>>, e: (int, bool)) -> Seq<(int, bool)> {
    ends_at(frags, end_node(frags, e))
}

/// The other of two ends that meet.
spec fn other(frags: Seq<Seq<Vertex>>, e: (int, bool)) -> (int, bool) {
    let b = beside(frags, e);
    if b[0] == e {
        b[1]
    } else {
        b[0]
    }
}

proof fn lemma_ends_listed(frags: Seq<Seq<Vertex>>, node: (i64, i64))
    ensures
        ends_at(frags, node).no_duplicates(),
        forall|e: (int, bool)| #[trigger]
            ends_at(frags, node).contains(e) <==> 0 <= e.0 < frags.len() && end_node(frags, e)
                == node,
    decreases frags.len(),
{
    if frags.len() > 0 {
        let d = frags.drop_last();
        let n = frags.len() - 1;
        let f = frags.last();
        lemma_ends_listed(d, node);
        let before = ends_at(d, node);
        let first = if f[0].node == node {
            before.push((n, false))
        } else {
            before
        };
        let all = ends_at(frags, node);
        assert(!before.contains((n, false)) && !before.contains((n, true)));
        assert(first.no_duplicates());
        assert forall|e: (int, bool)| #[trigger] first.contains(e) <==> before.contains(e) || (e == (
            n,
            false,
        ) && f[0].node == node) by {
            lemma_pushed(before, (n, false), e);
        }
        assert(!first.contains((n, true)));
        assert forall|e: (int, bool)| #[trigger] all.contains(e) <==> 0 <= e.0 < frags.len()
            && end_node(frags, e) == node by {
            lemma_pushed(first, (n, true), e);
            assert(first.contains(e) <==> before.contains(e) || (e == (n, false) && f[0].node
                == node));
            if 0 <= e.0 < d.len() {
                assert(end_node(d, e) == end_node(frags, e));
            }
        }
    } else {
        assert forall|e: (int, bool)| !(#[trigger] ends_at(frags, node).contains(e)) by {}
    }
}

proof fn lemma_pushed(s: Seq<(int, bool)>, a: (int, bool), e: (int, bool))
    ensures
        s.push(a).contains(e) <==> s.contains(e) || e == a,
{
    let t = s.push(a);
    if s.contains(e) {
        let k = choose|k: int| 0 <= k < s.len() && s[k] == e;
        assert(t[k] == e);
    }
    if e == a {
        assert(t[s.len() as int] == e);
    }
    if t.contains(e) {
        let k = choose|k: int| 0 <= k < t.len() && t[k] == e;
        if k < s.len() {
            assert(s[k] == e);
        }
    }
}

/// Of two ends that meet, each is the other of the other.
proof fn lemma_other(frags: Seq<Seq<Vertex>>, e: (int, bool))
    requires
        0 <= e.0 < frags.len(),
        beside(frags, e).len() == 2,
    ensures
        ({
            let o = other(frags, e);
            &&& 0 <= o.0 < frags.len()
            &&& o != e
            &&& beside(frags, o) == beside(frags, e)
            &&& other(frags, o) == e
            &&& end_node(frags, o) == end_node(frags, e)
            &&& forall|x: (int, bool)| #[trigger] beside(frags, e).contains(x) ==> x == e || x == o
        }),
{
    let b = beside(frags, e);
    lemma_ends_listed(frags, end_node(frags, e));
    assert(b.contains(e));
    let k = choose|k: int| 0 <= k < b.len() && b[k] == e;
    assert(b.contains(b[0]) && b.contains(b[1]));
    assert(b[0] != b[1]);
}

/// Whether the ends that meet two by two are in use together.
spec fn paired_off(frags: Seq<Seq<Vertex>>, used: Seq<bool>) -> bool {
    forall|e: (int, bool)|
        0 <= e.0 < frags.len() && (#[trigger] beside(frags, e)).len() == 2 ==> used[e.0]
            == used[other(frags, e).0]
}

/// Whether an end belongs to a fragment that was taken into use between two states.
spec fn taken(was: Seq<bool>, used: Seq<bool>, e: (int, bool)) -> bool {
    0 <= e.0 < used.len() && used[e.0] && !was[e.0]
}

/// Whether a line has the ends `first` and `last`, and every other end of the fragments that
/// were taken into it meets exactly one that is neither.
spec fn runs_between(
    frags: Seq<Seq<Vertex>>,
    was: Seq<bool>,
    used: Seq<bool>,
    line: Seq<Vertex>,
    first: (int, bool),
    last: (int, bool),
) -> bool {
    &&& used.len() == frags.len()
    &&& was.len() == frags.len()
    &&& forall|i: int| 0 <= i < was.len() && was[i] ==> #[trigger] used[i]
    &&& line.len() >= 2
    &&& first != last
    &&& taken(was, used, first)
    &&& taken(was, used, last)
    &&& line[0].node == end_node(frags, first)
    &&& line.last().node == end_node(frags, last)
    &&& forall|e: (int, bool)| #[trigger]
        taken(was, used, e) && e != first && e != last ==> {
            let o = other(frags, e);
            &&& beside(frags, e).len() == 2
            &&& taken(was, used, o)
            &&& o != first
            &&& o != last
        }
}

/// Whether no line goes on from an end: not exactly two ends meet there, or both are in use.
spec fn at_rest(frags: Seq<Seq<Vertex>>, used: Seq<bool>, e: (int, bool)) -> bool {
    beside(frags, e).len() == 2 ==> used[other(frags, e).0]
}

proof fn lemma_step_between(
    frags: Seq<Seq<Vertex>>,
    was: Seq<bool>,
    used: Seq<bool>,
    line: Seq<Vertex>,
    first: (int, bool),
    last: (int, bool),
    front: bool,
)
    requires
        runs_between(frags, was, used, line, first, last),
        forall|i: int| 0 <= i < frags.len() ==> (#[trigger] frags[i]).len() >= 2,
    ensures
        ({
            let here = if front {
                first
            } else {
                last
            };
            match goes_on(frags, used, end_node(frags, here)) {
                None => at_rest(frags, used, here),
                Some((f, at_last)) => {
                    let more = met(frags[f], at_last).skip(1);
                    let next = if front {
                        more.reverse() + line
                    } else {
                        line + more
                    };
                    let end = (f, !at_last);
                    &&& 0 <= f < used.len()
                    &&& !used[f]
                    &&& other(frags, here) == (f, at_last)
                    &&& runs_between(
                        frags,
                        was,
                        used.update(f, true),
                        next,
                        if front {
                            end
                        } else {
                            first
                        },
                        if front {
                            last
                        } else {
                            end
                        },
                    )
                },
            }
        }),
{
    let here = if front {
        first
    } else {
        last
    };
    let node = end_node(frags, here);
    let b = beside(frags, here);
    lemma_ends_listed(frags, node);
    assert(b.contains(here));
    if b.len() == 2 {
        lemma_other(frags, here);
        assert(b.contains(b[0]) && b.contains(b[1]));
    }
    lemma_goes_on(frags, used, node);
    match goes_on(frags, used, node) {
        None => {},
        Some((f, at_last)) => {
            let joined = (f, at_last);
            let end = (f, !at_last);
            assert(b.contains(joined));
            assert(other(frags, here) == joined);
            let u = used.update(f, true);
            let more = met(frags[f], at_last).skip(1);
            let next = if front {
                more.reverse() + line
            } else {
                line + more
            };
            let (first2, last2) = if front {
                (end, last)
            } else {
                (first, end)
            };
            assert(frags[f].len() >= 2);
            assert(!was[f]) by {
                if was[f] {
                    assert(used[f]);
                }
            }
            if front {
                assert(next[0] == more[more.len() - 1]);
                assert(next.last() == line.last());
            } else {
                assert(next.last() == more[more.len() - 1]);
                assert(next[0] == line[0]);
            }
            assert(more[more.len() - 1].node == end_node(frags, end));
            assert forall|e: (int, bool)| #[trigger]
                taken(was, u, e) && e != first2 && e != last2 implies {
                let o = other(frags, e);
                &&& beside(frags, e).len() == 2
                &&& taken(was, u, o)
                &&& o != first2
                &&& o != last2
            } by {
                if e == here {
                    assert(taken(was, u, joined));
                } else if e == joined {
                    assert(other(frags, joined) == here);
                    assert(taken(was, u, here));
                } else {
                    if e.0 == f {
                        assert(e.1 == end.1);
                        assert(e == end);
                    }
                    assert(taken(was, used, e));
                    let o = other(frags, e);
                    assert(taken(was, used, o));
                    assert(taken(was, u, o));
                }
            }
            assert forall|i: int| 0 <= i < was.len() && was[i] implies #[trigger] u[i] by {
                assert(used[i]);
            }
            assert(taken(was, u, first2) && taken(was, u, last2));
        },
    }
}

/// A line that runs between two ends still does when it has grown, and then rests at the end
/// at which it grew.
proof fn lemma_grown_between(
    frags: Seq<Seq<Vertex>>,
    was: Seq<bool>,
    used: Seq<bool>,
    line: Seq<Vertex>,
    first: (int, bool),
    last: (int, bool),
    front: bool,
) -> (r: ((int, bool), (int, bool)))
    requires
        runs_between(frags, was, used, line, first, last),
        forall|i: int| 0 <= i < frags.len() ==> (#[trigger] frags[i]).len() >= 2,
    ensures
        ({
            let (l, u) = grown(frags, used, line, front);
            &&& runs_between(frags, was, u, l, r.0, r.1)
            &&& front ==> at_rest(frags, u, r.0) && r.1 == last
            &&& !front ==> at_rest(frags, u, r.1) && r.0 == first
            &&& forall|i: int| 0 <= i < used.len() && used[i] ==> #[trigger] u[i]
        }),
    decreases unused(used),
{
    let here = if front {
        first
    } else {
        last
    };
    lemma_step_between(frags, was, used, line, first, last, front);
    match goes_on(frags, used, end_node(frags, here)) {
        None => (first, last),
        Some((f, at_last)) => {
            lemma_unused(used, f);
            let more = met(frags[f], at_last).skip(1);
            let next = if front {
                more.reverse() + line
            } else {
                line + more
            };
            let end = (f, !at_last);
            let u = used.update(f, true);
            if front {
                lemma_grown_between(frags, was, u, next, end, last, front)
            } else {
                lemma_grown_between(frags, was, u, next, first, end, front)
            }
        },
    }
}

/// Whether a line ends where not exactly two ends meet, or is closed.
pub open spec fn ends_rightly(frags: Seq<Seq<Vertex>>, line: Seq<Vertex>) -> bool {
    ||| line[0].node == line.last().node
    ||| (ends_at(frags, line[0].node).len() != 2 && ends_at(frags, line.last().node).len() != 2)
}

/// What rests at both its ends ends rightly, and leaves the ends paired off.
proof fn lemma_at_rest(
    frags: Seq<Seq<Vertex>>,
    was: Seq<bool>,
    used: Seq<bool>,
    line: Seq<Vertex>,
    first: (int, bool),
    last: (int, bool),
)
    requires
        paired_off(frags, was),
        runs_between(frags, was, used, line, first, last),
        at_rest(frags, used, first),
        at_rest(frags, used, last),
    ensures
        paired_off(frags, used),
        ends_rightly(frags, line),
{
    assert forall|e: (int, bool)|
        0 <= e.0 < frags.len() && (#[trigger] beside(frags, e)).len() == 2 && used[e.0] implies used[other(
        frags,
        e,
    ).0] by {
        lemma_other(frags, e);
        if was[e.0] {
            assert(was[other(frags, e).0]);
        } else {
            assert(taken(was, used, e));
            if e != first && e != last {
                assert(taken(was, used, other(frags, e)));
            }
        }
    }
    assert forall|e: (int, bool)|
        0 <= e.0 < frags.len() && (#[trigger] beside(frags, e)).len() == 2 implies used[e.0]
        == used[other(frags, e).0] by {
        let o = other(frags, e);
        lemma_other(frags, e);
        assert(beside(frags, o).len() == 2);
    }
    if beside(frags, last).len() == 2 {
        lemma_meets_first(frags, was, used, line, first, last, last);
    }
    if beside(frags, first).len() == 2 {
        lemma_meets_first(frags, was, used, line, first, last, first);
    }
}

/// Where one end of a resting line meets exactly one other, that is its other end.
proof fn lemma_meets_first(
    frags: Seq<Seq<Vertex>>,
    was: Seq<bool>,
    used: Seq<bool>,
    line: Seq<Vertex>,
    first: (int, bool),
    last: (int, bool),
    e: (int, bool),
)
    requires
        paired_off(frags, was),
        runs_between(frags, was, used, line, first, last),
        e == first || e == last,
        at_rest(frags, used, e),
        beside(frags, e).len() == 2,
    ensures
        line[0].node == line.last().node,
{
    let o = other(frags, e);
    lemma_other(frags, e);
    assert(was[e.0] == was[o.0]);
    assert(taken(was, used, o));
    if o != first && o != last {
        assert(other(frags, o) == e);
    }
}

proof fn lemma_stitched_ends(frags: Seq<Seq<Vertex>>, used: Seq<bool>, s: int)
    requires
        used.len() == frags.len(),
        0 <= s <= frags.len(),
        paired_off(frags, used),
        forall|i: int| 0 <= i < frags.len() ==> (#[trigger] frags[i]).len() >= 2,
    ensures
        forall|i: int|
            0 <= i < stitched(frags, used, s).len() ==> ends_rightly(
                frags,
                #[trigger] stitched(frags, used, s)[i],
            ),
    decreases frags.len() - s,
{
    if s < frags.len() && used[s] {
        lemma_stitched_ends(frags, used, s + 1);
        assert(stitched(frags, used, s) == stitched(frags, used, s + 1));
    } else if s < frags.len() {
        let u0 = used.update(s, true);
        let (first, last) = ((s, false), (s, true));
        assert(frags[s].len() >= 2);
        assert(runs_between(frags, used, u0, frags[s], first, last));
        let (l1, u1) = grown(frags, u0, frags[s], false);
        let r1 = lemma_grown_between(frags, used, u0, frags[s], first, last, false);
        let (l2, u2) = grown(frags, u1, l1, true);
        let r2 = lemma_grown_between(frags, used, u1, l1, r1.0, r1.1, true);
        if beside(frags, r2.1).len() == 2 {
            lemma_other(frags, r2.1);
            assert(u2[other(frags, r2.1).0]);
        }
        lemma_at_rest(frags, used, u2, l2, r2.0, r2.1);
        lemma_stitched_ends(frags, u2, s + 1);
        let rest = stitched(frags, u2, s + 1);
        let whole = stitched(frags, used, s);
        assert(whole =~= seq![l2] + rest);
        assert forall|i: int| 0 <= i < whole.len() implies ends_rightly(
            frags,
            #[trigger] whole[i],
        ) by {
            if i > 0 {
                assert(whole[i] == rest[i - 1]);
            }
        }
    }
}

/// Stitching is complete: a stitched line ends only where not exactly two ends of fragments
/// meet, unless it is closed.
pub proof fn law_lines_end_where_no_two_meet(frags: Seq<Seq<Vertex>>)
    ensures
        forall|i: int|
            0 <= i < merged(frags).len() ==> ends_rightly(
                distinct(frags),
                #[trigger] merged(frags)[i],
            ),
{
    let d = distinct(frags);
    let none = Seq::new(d.len(), |i: int| false);
    assert forall|i: int| 0 <= i < d.len() implies (#[trigger] d[i]).len() >= 2 by {
        lemma_distinct(frags, i);
    }
    assert forall|e: (int, bool)|
        0 <= e.0 < d.len() && (#[trigger] beside(d, e)).len() == 2 implies none[e.0] == none[other(
        d,
        e,
    ).0] by {
        lemma_other(d, e);
    }
    lemma_stitched_ends(d, none, 0);
}

/// The nodes that fragments run over one after the other, each entered at its start or, where
/// marked, at its end. A fragment's first node is the last of the one before.
pub open spec fn course(frags: Seq<Seq<Vertex>>, steps: Seq<(int, bool)>) -> Seq<(i64, i64)>
    decreases steps.len(),
{
    if steps.len() == 0 {
        Seq::empty()
    } else {
        let last = path(met(frags[steps.last().0], steps.last().1));
        if steps.len() == 1 {
            last
        } else {
            course(frags, steps.drop_last()) + last.skip(1)
        }
    }
}

/// Whether the `k`th of these fragments meets the one before it at a node, and no other end
/// meets there.
pub open spec fn joins(frags: Seq<Seq<Vertex>>, steps: Seq<(int, bool)>, k: int) -> bool {
    let (a, b) = (steps[k - 1], steps[k]);
    let node = met(frags[b.0], b.1)[0].node;
    met(frags[a.0], a.1).last().node == node && ends_at(frags, node).len() == 2
}

/// Whether a line runs over these fragments, one after the other, and where two are joined
/// exactly their two ends meet.
pub open spec fn joined_of(
    frags: Seq<Seq<Vertex>>,
    line: Seq<Vertex>,
    steps: Seq<(int, bool)>,
) -> bool {
    &&& steps.len() > 0
    &&& forall|k: int| 0 <= k < steps.len() ==> 0 <= (#[trigger] steps[k]).0 < frags.len()
    &&& forall|k: int| 0 < k < steps.len() ==> #[trigger] joins(frags, steps, k)
    &&& path(line) == course(frags, steps)
}

proof fn lemma_course_front(frags: Seq<Seq<Vertex>>, e: (int, bool), steps: Seq<(int, bool)>)
    requires
        steps.len() > 0,
        forall|k: int|
            0 <= k < steps.len() ==> met(frags[(#[trigger] steps[k]).0], steps[k].1).len() >= 1,
    ensures
        course(frags, steps).len() >= 1,
        course(frags, steps)[0] == met(frags[steps[0].0], steps[0].1)[0].node,
        course(frags, seq![e] + steps) == path(met(frags[e.0], e.1)) + course(frags, steps).skip(1),
    decreases steps.len(),
{
    let all = seq![e] + steps;
    let last = path(met(frags[steps.last().0], steps.last().1));
    let first = path(met(frags[e.0], e.1));
    assert(steps[steps.len() - 1] == steps.last());
    assert(all.last() == steps.last());
    assert(all.drop_last() =~= seq![e] + steps.drop_last());
    if steps.len() == 1 {
        assert(all.drop_last() =~= seq![e]);
        assert(course(frags, seq![e]) == first);
        assert(steps[0] == steps.last());
    } else {
        let d = steps.drop_last();
        assert forall|k: int| 0 <= k < d.len() implies met(frags[(#[trigger] d[k]).0], d[k].1).len()
            >= 1 by {
            assert(d[k] == steps[k]);
        }
        lemma_course_front(frags, e, d);
        let c = course(frags, d);
        assert((first + c.skip(1)) + last.skip(1) =~= first + (c + last.skip(1)).skip(1));
    }
}

proof fn lemma_grown_joined(
    frags: Seq<Seq<Vertex>>,
    used: Seq<bool>,
    line: Seq<Vertex>,
    steps: Seq<(int, bool)>,
    front: bool,
) -> (r: Seq<(int, bool)>)
    requires
        used.len() == frags.len(),
        line.len() >= 2,
        joined_of(frags, line, steps),
        line[0].node == met(frags[steps[0].0], steps[0].1)[0].node,
        line.last().node == met(frags[steps.last().0], steps.last().1).last().node,
        forall|i: int| 0 <= i < frags.len() ==> (#[trigger] frags[i]).len() >= 2,
    ensures
        ({
            let (l, u) = grown(frags, used, line, front);
            &&& joined_of(frags, l, r)
            &&& l.len() >= 2
            &&& u.len() == frags.len()
            &&& l[0].node == met(frags[r[0].0], r[0].1)[0].node
            &&& l.last().node == met(frags[r.last().0], r.last().1).last().node
        }),
    decreases unused(used),
{
    let node = if front {
        line[0].node
    } else {
        line.last().node
    };
    lemma_goes_on(frags, used, node);
    match goes_on(frags, used, node) {
        None => steps,
        Some((f, at_last)) => {
            lemma_unused(used, f);
            let u = used.update(f, true);
            let way = met(frags[f], at_last);
            let more = way.skip(1);
            assert(frags[f].len() >= 2);
            if front {
                let e = (f, !at_last);
                let back = met(frags[f], !at_last);
                assert(back =~= way.reverse());
                let next = more.reverse() + line;
                let all = seq![e] + steps;
                assert forall|k: int| 0 <= k < steps.len() implies met(
                    frags[(#[trigger] steps[k]).0],
                    steps[k].1,
                ).len() >= 1 by {
                    assert(frags[steps[k].0].len() >= 2);
                }
                lemma_course_front(frags, e, steps);
                assert(path(line)[0] == line[0].node);
                assert(path(next) =~= path(back) + path(line).skip(1)) by {
                    assert(back.len() == more.len() + 1);
                    assert forall|k: int| 0 <= k < next.len() implies path(next)[k] == (path(back)
                        + path(line).skip(1))[k] by {
                        if k < more.len() {
                            assert(next[k] == more[more.len() - 1 - k]);
                            assert(back[k] == way[way.len() - 1 - k]);
                        } else if k == more.len() {
                            assert(next[k] == line[0]);
                            assert(back[k] == way[0]);
                        } else {
                            assert(next[k] == line[k - more.len()]);
                        }
                    }
                }
                assert forall|k: int| 0 <= k < all.len() implies 0 <= (#[trigger] all[k]).0
                    < frags.len() by {
                    if k > 0 {
                        assert(all[k] == steps[k - 1]);
                    }
                }
                assert forall|k: int| 0 < k < all.len() implies #[trigger] joins(
                    frags,
                    all,
                    k,
                ) by {
                    assert(all[k] == steps[k - 1]);
                    if k == 1 {
                        assert(all[0] == e);
                        assert(back.last() == way[0]);
                    } else {
                        assert(all[k - 1] == steps[k - 2]);
                        assert(joins(frags, steps, k - 1));
                    }
                }
                assert(all.last() == steps.last());
                assert(next[0] == back[0]);
                assert(next.last() == line.last());
                lemma_grown_joined(frags, u, next, all, front)
            } else {
                let e = (f, at_last);
                let next = line + more;
                let all = steps.push(e);
                assert(all.drop_last() =~= steps);
                assert(path(next) =~= path(line) + path(way).skip(1));
                assert forall|k: int| 0 <= k < all.len() implies 0 <= (#[trigger] all[k]).0
                    < frags.len() by {
                    if k < steps.len() {
                        assert(all[k] == steps[k]);
                    }
                }
                assert forall|k: int| 0 < k < all.len() implies #[trigger] joins(
                    frags,
                    all,
                    k,
                ) by {
                    assert(all[k - 1] == steps[k - 1]);
                    if k < steps.len() {
                        assert(all[k] == steps[k]);
                        assert(joins(frags, steps, k));
                    }
                }
                assert(all[0] == steps[0]);
                assert(next[0] == line[0]);
                assert(next.last() == way.last());
                lemma_grown_joined(frags, u, next, all, front)
            }
        },
    }
}

proof fn lemma_stitched_joined(frags: Seq<Seq<Vertex>>, used: Seq<bool>, s: int, i: int)
    requires
        used.len() == frags.len(),
        0 <= s <= frags.len(),
        0 <= i < stitched(frags, used, s).len(),
        forall|i: int| 0 <= i < frags.len() ==> (#[trigger] frags[i]).len() >= 2,
    ensures
        exists|steps: Seq<(int, bool)>| #[trigger]
            joined_of(frags, stitched(frags, used, s)[i], steps),
    decreases frags.len() - s,
{
    if used[s] {
        assert(stitched(frags, used, s) == stitched(frags, used, s + 1));
        lemma_stitched_joined(frags, used, s + 1, i);
    } else {
        let one = seq![(s, false)];
        assert(frags[s].len() >= 2);
        assert(course(frags, one) == path(frags[s]));
        assert(joined_of(frags, frags[s], one));
        let (l1, u1) = grown(frags, used.update(s, true), frags[s], false);
        let r1 = lemma_grown_joined(frags, used.update(s, true), frags[s], one, false);
        let (l2, u2) = grown(frags, u1, l1, true);
        let r2 = lemma_grown_joined(frags, u1, l1, r1, true);
        let whole = stitched(frags, used, s);
        let rest = stitched(frags, u2, s + 1);
        assert(whole =~= seq![l2] + rest);
        if i == 0 {
            assert(joined_of(frags, whole[0], r2));
        } else {
            lemma_stitched_joined(frags, u2, s + 1, i - 1);
            assert(whole[i] == rest[i - 1]);
        }
    }
}

/// Nothing is joined where other than two ends meet: a stitched line runs over fragments one
/// after the other, and at each node where one follows on another exactly two ends meet.
pub proof fn law_joined_only_where_two_meet(frags: Seq<Seq<Vertex>>, i: int)
    requires
        0 <= i < merged(frags).len(),
    ensures
        exists|steps: Seq<(int, bool)>| #[trigger]
            joined_of(distinct(frags), merged(frags)[i], steps),
{
    let d = distinct(frags);
    assert forall|i: int| 0 <= i < d.len() implies (#[trigger] d[i]).len() >= 2 by {
        lemma_distinct(frags, i);
    }
    lemma_stitched_joined(d, Seq::new(d.len(), |i: int| false), 0, i);
}

/// Two fragments that meet end to start, and nowhere else, become one line.
pub proof fn law_meeting_fragments_become_one(a: Seq<Vertex>, b: Seq<Vertex>)
    requires
        a.len() >= 2,
        b.len() >= 2,
        a.last().node == b[0].node,
        a[0].node != a.last().node,
        b.last().node != a.last().node,
        b.last().node != a[0].node,
    ensures
        merged(seq![a, b]) == seq![a + b.skip(1)],
{
    let frags = seq![a, b];
    reveal_with_fuel(distinct, 3);
    assert(frags.drop_last() =~= seq![a]);
    assert(seq![a].drop_last() =~= Seq::empty());
    let one = distinct(seq![a]);
    assert(one =~= seq![a]);
    assert(!same_path(a, b)) by {
        assert(path(a)[0] == a[0].node);
        assert(path(b)[0] == b[0].node);
        assert(path(b).reverse()[0] == path(b)[b.len() - 1]);
        assert(path(b)[b.len() - 1] == b.last().node);
    }
    assert(!listed(one, b)) by {
        if listed(one, b) {
            let k = choose|k: int| 0 <= k < one.len() && same_path(#[trigger] one[k], b);
            assert(one[k] == a);
        }
    }
    assert(distinct(frags) =~= frags);
    let none = Seq::new(2, |i: int| false);
    reveal_with_fuel(ends_at, 3);
    let used1 = none.update(0, true);
    let used2 = used1.update(1, true);
    assert(frags.drop_last().drop_last() =~= Seq::empty());
    assert(ends_at(frags, a.last().node) =~= seq![(0int, true), (1int, false)]);
    assert(ends_at(frags, b.last().node) =~= seq![(1int, true)]);
    assert(ends_at(frags, a[0].node) =~= seq![(0int, false)]);
    let line = a + b.skip(1);
    assert(line.last() == b.last());
    assert(line[0] == a[0]);
    reveal_with_fuel(grown, 2);
    assert(goes_on(frags, used1, a.last().node) == Some((1int, false)));
    assert(goes_on(frags, used2, b.last().node) is None);
    assert(grown(frags, used1, a, false) == (line, used2));
    assert(goes_on(frags, used2, a[0].node) is None);
    assert(grown(frags, used2, line, true) == (line, used2));
    reveal_with_fuel(stitched, 3);
    assert(used2[1]);
    assert(stitched(frags, used2, 1) =~= Seq::empty());
    assert(stitched(frags, none, 0) =~= seq![line]);
}

/// The bytes of the vertices of a line: each coordinate's bits, the lowest byte first.
pub open spec fn vertex_bytes(p: Seq<Vertex>) -> Seq<u8>
    decreases p.len(),
{
    if p.len() == 0 {
        Seq::empty()
    } else {
        vertex_bytes(p.drop_last()) + le(p.last().x as nat, 8) + le(p.last().y as nat, 8)
    }
}

/// A counted list of vertices.
pub open spec fn list_bytes(p: Seq<Vertex>) -> Seq<u8> {
    le(p.len(), 4) + vertex_bytes(p)
}

/// A line string: byte order, type, and its vertices.
pub open spec fn line_bytes(p: Seq<Vertex>) -> Seq<u8> {
    seq![1u8] + le(2, 4) + list_bytes(p)
}

/// Line strings one after the other.
pub open spec fn lines_bytes(ps: Seq<Seq<Vertex>>) -> Seq<u8>
    decreases ps.len(),
{
    if ps.len() == 0 {
        Seq::empty()
    } else {
        line_bytes(ps[0]) + lines_bytes(ps.skip(1))
    }
}

/// The well-known binary form of a geometry.
pub open spec fn wkb_bytes(g: GeomView) -> Seq<u8> {
    match g {
        GeomView::Line(p) => line_bytes(p),
        GeomView::Multi(ps) => seq![1u8] + le(5, 4) + le(ps.len(), 4) + lines_bytes(ps),
        GeomView::Poly(p) => seq![1u8] + le(3, 4) + le(1, 4) + list_bytes(p),
    }
}

fn put_list(b: &mut Vec<u8>, p: &Vec<Vertex>)
    ensures
        final(b)@ == old(b)@ + list_bytes(p@),
{
    let ghost before = b@;
    put_le(b, p.len() as u64, 4);
    let ghost head = b@;
    let mut i: usize = 0;
    assert(head + vertex_bytes(p@.take(0)) =~= head);
    while i < p.len()
        invariant
            i <= p.len(),
            b@ == head + vertex_bytes(p@.take(i as int)),
        decreases p.len() - i,
    {
        put_le(b, p[i].x, 8);
        put_le(b, p[i].y, 8);
        assert(p@.take(i + 1).drop_last() =~= p@.take(i as int));
        assert(b@ =~= head + vertex_bytes(p@.take(i + 1)));
        i += 1;
    }
    assert(p@.take(i as int) =~= p@);
    assert(b@ =~= before + list_bytes(p@));
}

fn put_ls(b: &mut Vec<u8>, p: &Vec<Vertex>)
    ensures
        final(b)@ == old(b)@ + line_bytes(p@),
{
    let ghost before = b@;
    b.push(1);
    put_le(b, 2, 4);
    put_list(b, p);
    assert(b@ =~= before + line_bytes(p@));
}

/// Writes a geometry in well-known binary form.
pub fn wkb(g: &Geom) -> (r: Vec<u8>)
    ensures
        r@ == wkb_bytes(g.deep_view()),
{
    let mut b: Vec<u8> = Vec::new();
    match g {
        Geom::Line(p) => {
            put_ls(&mut b, p);
            assert(b@ =~= line_bytes(p@));
        },
        Geom::Multi(ps) => {
            let ghost c = contents(ps@);
            b.push(1);
            put_le(&mut b, 5, 4);
            put_le(&mut b, ps.len() as u64, 4);
            let ghost head = b@;
            assert(head =~= seq![1u8] + le(5, 4) + le(c.len(), 4));
            let mut i: usize = 0;
            assert(c.skip(0) =~= c);
            while i < ps.len()
                invariant
                    i <= ps.len(),
                    c == contents(ps@),
                    b@ + lines_bytes(c.skip(i as int)) == head + lines_bytes(c),
                decreases ps.len() - i,
            {
                let ghost now = b@;
                assert(c.skip(i as int)[0] == ps@[i as int]@);
                assert(c.skip(i as int).skip(1) =~= c.skip(i + 1));
                put_ls(&mut b, &ps[i]);
                assert(b@ + lines_bytes(c.skip(i + 1)) =~= now + lines_bytes(c.skip(i as int)));
                i += 1;
            }
            assert(lines_bytes(c.skip(i as int)) =~= Seq::empty());
            assert(b@ =~= head + lines_bytes(c));
        },
        Geom::Poly(p) => {
            b.push(1);
            put_le(&mut b, 3, 4);
            put_le(&mut b, 1, 4);
            put_list(&mut b, p);
            assert(b@ =~= seq![1u8] + le(3, 4) + le(1, 4) + list_bytes(p@));
        },
    }
    b
}

/// The kind of a geometry.
pub open spec fn kind_of(g: GeomView) -> Seq<char> {
    match g {
        GeomView::Line(_) => "LineString"@,
        GeomView::Multi(_) => "MultiLineString"@,
        GeomView::Poly(_) => "Polygon"@,
    }
}

/// The kind of a geometry.
pub fn etype(g: &Geom) -> (r: &'static str)
    ensures
        r@ == kind_of(g.deep_view()),
{
    match g {
        Geom::Line(_) => "LineString",
        Geom::Multi(_) => "MultiLineString",
        Geom::Poly(_) => "Polygon",
    }
}

/// The number in the `k` bytes at `o`.
pub open spec fn number_at(w: Seq<u8>, o: int, k: int) -> nat {
    le_value(w.subrange(o, o + k))
}

/// The counted list of coordinate pairs at `o`, and where it ends. Nothing where the bytes
/// end too soon.
pub open spec fn pairs_at(w: Seq<u8>, o: int) -> Option<(Seq<(u64, u64)>, int)> {
    if o + 4 > w.len() {
        None
    } else {
        let n = number_at(w, o, 4);
        if o + 4 + 16 * n > w.len() {
            None
        } else {
            Some(
                (
                    Seq::new(
                        n,
                        |i: int|
                            (
                                number_at(w, o + 4 + 16 * i, 8) as u64,
                                number_at(w, o + 12 + 16 * i, 8) as u64,
                            ),
                    ),
                    o + 4 + 16 * n,
                ),
            )
        }
    }
}

/// The pairs of `k` line strings from `o` on.
pub open spec fn member_pairs(w: Seq<u8>, o: int, k: nat) -> Option<Seq<(u64, u64)>>
    decreases k,
{
    if k == 0 {
        Some(Seq::empty())
    } else {
        match pairs_at(w, o + 5) {
            None => None,
            Some((p, e)) => match member_pairs(w, e, (k - 1) as nat) {
                None => None,
                Some(rest) => Some(p + rest),
            },
        }
    }
}

/// The coordinate pairs of a line string or multi line string in well-known binary form; none
/// of another geometry. Nothing where the bytes end too soon.
pub open spec fn pairs_of(w: Seq<u8>) -> Option<Seq<(u64, u64)>> {
    if w.len() < 5 {
        None
    } else if w[0] == 1 && number_at(w, 1, 4) == 2 {
        match pairs_at(w, 5) {
            Some((p, e)) => Some(p),
            None => None,
        }
    } else if w[0] == 1 && number_at(w, 1, 4) == 5 {
        if w.len() < 9 {
            None
        } else {
            member_pairs(w, 9, number_at(w, 5, 4))
        }
    } else {
        Some(Seq::empty())
    }
}

fn read_pairs(w: &[u8], o: usize, out: &mut Vec<(u64, u64)>) -> (r: Option<usize>)
    requires
        o <= w.len(),
    ensures
        match pairs_at(w@, o as int) {
            Some((p, e)) => r == Some(e as usize) && e <= w.len() && final(out)@ == old(out)@ + p,
            None => r is None,
        },
{
    let ghost before = out@;
    if w.len() - o < 4 {
        return None;
    }
    let n = get_le(w, o, 4);
    let rest = (w.len() - o - 4) as u64;
    if rest / 16 < n {
        return None;
    }
    let n = n as usize;
    let ghost p = (pairs_at(w@, o as int)->0).0;
    let mut i: usize = 0;
    let mut at = o + 4;
    proof {
        lemma_spans();
        assert(before + p.take(0) =~= before);
    }
    while i < n
        invariant
            i <= n,
            at == o + 4 + 16 * i,
            o + 4 + 16 * n <= w.len(),
            p.len() == n,
            forall|i: int|
                0 <= i < n ==> #[trigger] p[i] == (
                    number_at(w@, o + 4 + 16 * i, 8) as u64,
                    number_at(w@, o + 12 + 16 * i, 8) as u64,
                ),
            out@ == before + p.take(i as int),
        decreases n - i,
    {
        let x = get_le(w, at, 8);
        let y = get_le(w, at + 8, 8);
        assert(p[i as int] == (x, y));
        out.push((x, y));
        assert(p.take(i + 1) =~= p.take(i as int).push((x, y)));
        assert(out@ =~= before + p.take(i + 1));
        at += 16;
        i += 1;
    }
    assert(p.take(n as int) =~= p);
    Some(at)
}

/// Reads the coordinate pairs of a line string or multi line string.
pub fn scan(w: &[u8]) -> (r: Option<Vec<(u64, u64)>>)
    ensures
        match r {
            Some(v) => pairs_of(w@) == Some(v@),
            None => pairs_of(w@) is None,
        },
{
    if w.len() < 5 {
        return None;
    }
    let t = get_le(w, 1, 4);
    let mut out: Vec<(u64, u64)> = Vec::new();
    if w[0] == 1 && t == 2 {
        return match read_pairs(w, 5, &mut out) {
            Some(_) => {
                assert(out@ =~= (pairs_at(w@, 5)->0).0);
                Some(out)
            },
            None => None,
        };
    }
    if w[0] == 1 && t == 5 {
        if w.len() < 9 {
            return None;
        }
        let n = get_le(w, 5, 4);
        let ghost all = member_pairs(w@, 9, n as nat);
        let mut o: usize = 9;
        let mut k = n;
        while k > 0
            invariant
                o <= w.len(),
                all == pairs_of(w@),
                all == (match member_pairs(w@, o as int, k as nat) {
                    Some(rest) => Some(out@ + rest),
                    None => None,
                }),
            decreases k,
        {
            if w.len() - o < 5 {
                return None;
            }
            let ghost before = out@;
            o = match read_pairs(w, o + 5, &mut out) {
                Some(e) => e,
                None => {
                    return None;
                },
            };
            proof {
                match member_pairs(w@, o as int, (k - 1) as nat) {
                    Some(rest) => {
                        let p = out@.skip(before.len() as int);
                        assert(out@ =~= before + p);
                        assert(out@ + rest =~= before + (p + rest));
                    },
                    None => {},
                }
            }
            k -= 1;
        }
        assert(out@ + Seq::<(u64, u64)>::empty() =~= out@);
        return Some(out);
    }
    assert(out@ =~= Seq::empty());
    Some(out)
}

/// The coordinate pairs of a line.
pub open spec fn pairs(p: Seq<Vertex>) -> Seq<(u64, u64)> {
    p.map_values(|v: Vertex| (v.x, v.y))
}

/// The coordinate pairs of several lines, one after the other.
pub open spec fn all_pairs(ps: Seq<Seq<Vertex>>) -> Seq<(u64, u64)>
    decreases ps.len(),
{
    if ps.len() == 0 {
        Seq::empty()
    } else {
        pairs(ps[0]) + all_pairs(ps.skip(1))
    }
}

proof fn lemma_vertex_bytes(p: Seq<Vertex>)
    ensures
        vertex_bytes(p).len() == 16 * p.len(),
        forall|i: int|
            0 <= i < p.len() ==> {
                &&& #[trigger] vertex_bytes(p).subrange(16 * i, 16 * i + 8) == le(p[i].x as nat, 8)
                &&& vertex_bytes(p).subrange(16 * i + 8, 16 * i + 16) == le(p[i].y as nat, 8)
            },
    decreases p.len(),
{
    if p.len() > 0 {
        let d = p.drop_last();
        lemma_vertex_bytes(d);
        lemma_le_len(p.last().x as nat, 8);
        lemma_le_len(p.last().y as nat, 8);
        let b = vertex_bytes(p);
        assert forall|i: int| 0 <= i < p.len() implies {
            &&& #[trigger] b.subrange(16 * i, 16 * i + 8) == le(p[i].x as nat, 8)
            &&& b.subrange(16 * i + 8, 16 * i + 16) == le(p[i].y as nat, 8)
        } by {
            if i < d.len() {
                assert(b.subrange(16 * i, 16 * i + 8) =~= vertex_bytes(d).subrange(
                    16 * i,
                    16 * i + 8,
                ));
                assert(b.subrange(16 * i + 8, 16 * i + 16) =~= vertex_bytes(d).subrange(
                    16 * i + 8,
                    16 * i + 16,
                ));
            } else {
                assert(b.subrange(16 * i, 16 * i + 8) =~= le(p[i].x as nat, 8));
                assert(b.subrange(16 * i + 8, 16 * i + 16) =~= le(p[i].y as nat, 8));
            }
        }
    }
}

proof fn lemma_pairs_read(w: Seq<u8>, o: int, p: Seq<Vertex>)
    requires
        p.len() < 0x1_0000_0000,
        0 <= o,
        o + 4 + 16 * p.len() <= w.len(),
        w.subrange(o, o + 4 + 16 * p.len()) == list_bytes(p),
    ensures
        pairs_at(w, o) == Some((pairs(p), (o + 4 + 16 * p.len()) as int)),
{
    let n = p.len();
    let s = list_bytes(p);
    let whole = w.subrange(o, o + 4 + 16 * n);
    lemma_spans();
    lemma_le_round(n, 4);
    lemma_vertex_bytes(p);
    assert(w.subrange(o, o + 4) =~= whole.subrange(0, 4));
    assert(s.subrange(0, 4) =~= le(n, 4));
    assert(s.skip(4) =~= vertex_bytes(p));
    let got = (pairs_at(w, o)->0).0;
    assert forall|i: int| 0 <= i < n implies got[i] == pairs(p)[i] by {
        lemma_le_round(p[i].x as nat, 8);
        lemma_le_round(p[i].y as nat, 8);
        let v = vertex_bytes(p);
        assert(v.subrange(16 * i, 16 * i + 8) == le(p[i].x as nat, 8));
        assert(w.subrange(o + 4 + 16 * i, o + 4 + 16 * i + 8) =~= whole.skip(4).subrange(
            16 * i,
            16 * i + 8,
        ));
        assert(w.subrange(o + 12 + 16 * i, o + 12 + 16 * i + 8) =~= whole.skip(4).subrange(
            16 * i + 8,
            16 * i + 16,
        ));
    }
    assert(got =~= pairs(p));
}

proof fn lemma_line_bytes_len(p: Seq<Vertex>)
    ensures
        line_bytes(p).len() == 9 + 16 * p.len(),
        list_bytes(p).len() == 4 + 16 * p.len(),
        line_bytes(p).skip(5) == list_bytes(p),
{
    lemma_le_len(2, 4);
    lemma_le_len(p.len(), 4);
    lemma_vertex_bytes(p);
    assert(line_bytes(p).skip(5) =~= list_bytes(p));
}

proof fn lemma_members_read(w: Seq<u8>, o: int, ps: Seq<Seq<Vertex>>)
    requires
        forall|i: int| 0 <= i < ps.len() ==> (#[trigger] ps[i]).len() < 0x1_0000_0000,
        0 <= o <= w.len(),
        w.skip(o) == lines_bytes(ps),
    ensures
        member_pairs(w, o, ps.len()) == Some(all_pairs(ps)),
    decreases ps.len(),
{
    if ps.len() > 0 {
        let p = ps[0];
        lemma_line_bytes_len(p);
        let all = lines_bytes(ps);
        let e = o + 9 + 16 * p.len();
        assert(all.len() == w.len() - o);
        assert(w.subrange(o + 5, e) =~= w.skip(o).subrange(5, (9 + 16 * p.len()) as int));
        assert(all.subrange(5, (9 + 16 * p.len()) as int) =~= line_bytes(p).skip(5));
        lemma_pairs_read(w, o + 5, p);
        assert(w.skip(e) =~= w.skip(o).skip((9 + 16 * p.len()) as int));
        assert(all.skip((9 + 16 * p.len()) as int) =~= lines_bytes(ps.skip(1)));
        assert forall|i: int| 0 <= i < ps.skip(1).len() implies (#[trigger] ps.skip(1)[i]).len()
            < 0x1_0000_0000 by {
            assert(ps.skip(1)[i] == ps[i + 1]);
        }
        lemma_members_read(w, e, ps.skip(1));
    }
}

/// The binary form of lines gives their coordinates back, bit for bit; that of a polygon
/// gives none.
pub proof fn law_scan_reads_wkb(g: GeomView)
    requires
        g matches GeomView::Line(p) ==> p.len() < 0x1_0000_0000,
        g matches GeomView::Multi(ps) ==> {
            &&& ps.len() < 0x1_0000_0000
            &&& forall|i: int| 0 <= i < ps.len() ==> (#[trigger] ps[i]).len() < 0x1_0000_0000
        },
    ensures
        pairs_of(wkb_bytes(g)) == Some(
            match g {
                GeomView::Line(p) => pairs(p),
                GeomView::Multi(ps) => all_pairs(ps),
                GeomView::Poly(_) => Seq::empty(),
            },
        ),
{
    let w = wkb_bytes(g);
    lemma_spans();
    lemma_le_round(2, 4);
    lemma_le_round(5, 4);
    lemma_le_round(3, 4);
    lemma_le_len(1, 4);
    match g {
        GeomView::Line(p) => {
            lemma_line_bytes_len(p);
            assert(w.subrange(1, 5) =~= le(2, 4));
            assert(w.subrange(5, (9 + 16 * p.len()) as int) =~= w.skip(5));
            lemma_pairs_read(w, 5, p);
        },
        GeomView::Multi(ps) => {
            lemma_le_round(ps.len(), 4);
            assert(w.subrange(1, 5) =~= le(5, 4));
            assert(w.subrange(5, 9) =~= le(ps.len(), 4));
            assert(w.skip(9) =~= lines_bytes(ps));
            lemma_members_read(w, 9, ps);
        },
        GeomView::Poly(p) => {
            assert(w.subrange(1, 5) =~= le(3, 4));
        },
    }
}

/// Lines run over the same path where they have the same nodes in the same or in the opposite
/// order, and only there.
pub proof fn law_same_path_either_way(a: Seq<Vertex>, b: Seq<Vertex>, i: int)
    requires
        a.len() == b.len(),
    ensures
        same_path(a, a),
        same_path(a, a.reverse()),
        (forall|k: int| 0 <= k < a.len() ==> (#[trigger] a[k]).node == b[k].node) ==> same_path(a, b),
        (forall|k: int| 0 <= k < a.len() ==> (#[trigger] a[k]).node == b[a.len() - 1 - k].node)
            ==> same_path(a, b),
        0 <= i < a.len() && a[i].node != b[i].node && a[i].node != b[a.len() - 1 - i].node
            ==> !same_path(a, b),
{
    assert(path(a.reverse()).reverse() =~= path(a));
    if forall|k: int| 0 <= k < a.len() ==> (#[trigger] a[k]).node == b[k].node {
        assert(path(a) =~= path(b));
    }
    if forall|k: int| 0 <= k < a.len() ==> (#[trigger] a[k]).node == b[a.len() - 1 - k].node {
        assert(path(a) =~= path(b).reverse());
    }
    if 0 <= i < a.len() {
        assert(path(a)[i] == a[i].node);
        assert(path(b)[i] == b[i].node);
        assert(path(b).reverse()[i] == b[a.len() - 1 - i].node);
    }
}

/// Of the fragments over one path the first stays as it is; one of fewer than two vertices never
/// does.
pub proof fn law_first_of_a_path_stays(frags: Seq<Seq<Vertex>>, f: Seq<Vertex>, k: int)
    ensures
        f.len() < 2 ==> distinct(frags.push(f)) == distinct(frags),
        0 <= k < distinct(frags).len() && (path(distinct(frags)[k]) == path(f) || path(
            distinct(frags)[k],
        ) == path(f).reverse()) ==> distinct(frags.push(f)) == distinct(frags),
        f.len() >= 2 && (forall|i: int|
            0 <= i < distinct(frags).len() ==> path(#[trigger] distinct(frags)[i]) != path(f) && path(
                distinct(frags)[i],
            ) != path(f).reverse()) ==> distinct(frags.push(f)) == distinct(frags).push(f),
{
    assert(frags.push(f).drop_last() =~= frags);
    let d = distinct(frags);
    if 0 <= k < d.len() && (path(d[k]) == path(f) || path(d[k]) == path(f).reverse()) {
        assert(same_path(d[k], f));
    }
}

/// The binary form of a line: little-endian byte order, the type of a line, the number of
/// vertices, and for each its easting and its northing.
pub proof fn law_layout_of_a_line(p: Seq<Vertex>, i: int)
    requires
        0 <= i < p.len() < 0x1_0000_0000,
    ensures
        ({
            let w = wkb_bytes(GeomView::Line(p));
            &&& w.len() == 9 + 16 * p.len()
            &&& w[0] == 1
            &&& w[1] == 2 && w[2] == 0 && w[3] == 0 && w[4] == 0
            &&& w[5] + 256 * w[6] + 65536 * w[7] + 16777216 * w[8] == p.len()
            &&& w.subrange(9 + 16 * i, 17 + 16 * i) == le(p[i].x as nat, 8)
            &&& w.subrange(17 + 16 * i, 25 + 16 * i) == le(p[i].y as nat, 8)
        }),
{
    let w = wkb_bytes(GeomView::Line(p));
    lemma_line_bytes_len(p);
    lemma_vertex_bytes(p);
    lemma_four(2);
    lemma_four(p.len());
    let v = vertex_bytes(p);
    assert(w.skip(9) =~= v);
    assert(w.subrange(9 + 16 * i, 17 + 16 * i) =~= v.subrange(16 * i, 16 * i + 8));
    assert(w.subrange(17 + 16 * i, 25 + 16 * i) =~= v.subrange(16 * i + 8, 16 * i + 16));
    assert(w.subrange(1, 5) =~= le(2, 4));
    assert(w.subrange(5, 9) =~= le(p.len(), 4));
    assert(w[1] == w.subrange(1, 5)[0] && w[2] == w.subrange(1, 5)[1]);
    assert(w[3] == w.subrange(1, 5)[2] && w[4] == w.subrange(1, 5)[3]);
    assert(w[5] == w.subrange(5, 9)[0] && w[6] == w.subrange(5, 9)[1]);
    assert(w[7] == w.subrange(5, 9)[2] && w[8] == w.subrange(5, 9)[3]);
}

proof fn lemma_four(v: nat)
    requires
        v < 0x1_0000_0000,
    ensures
        le(v, 4).len() == 4,
        le(v, 4)[0] == v % 256,
        le(v, 4)[1] == v / 256 % 256,
        le(v, 4)[2] == v / 65536 % 256,
        le(v, 4)[3] == v / 16777216,
        le(v, 4)[0] + 256 * le(v, 4)[1] + 65536 * le(v, 4)[2] + 16777216 * le(v, 4)[3] == v,
{
    reveal_with_fuel(le, 5);
    lemma_le_len(v, 4);
    let a = v / 256;
    let b = a / 256;
    let c = b / 256;
    assert(a == v / 256 && b == v / 65536 && c == v / 16777216);
    assert(c < 256);
    assert(le(v, 4) =~= seq![(v % 256) as u8, (a % 256) as u8, (b % 256) as u8, (c % 256) as u8]);
}

/// The binary form of a polygon: little-endian byte order, the type of a polygon, one ring, the
/// number of its vertices, and for each its easting and its northing.
pub proof fn law_layout_of_a_polygon(p: Seq<Vertex>, i: int)
    requires
        0 <= i < p.len() < 0x1_0000_0000,
    ensures
        ({
            let w = wkb_bytes(GeomView::Poly(p));
            &&& w.len() == 13 + 16 * p.len()
            &&& w[0] == 1
            &&& w[1] == 3 && w[2] == 0 && w[3] == 0 && w[4] == 0
            &&& w[5] == 1 && w[6] == 0 && w[7] == 0 && w[8] == 0
            &&& w[9] + 256 * w[10] + 65536 * w[11] + 16777216 * w[12] == p.len()
            &&& w.subrange(13 + 16 * i, 21 + 16 * i) == le(p[i].x as nat, 8)
            &&& w.subrange(21 + 16 * i, 29 + 16 * i) == le(p[i].y as nat, 8)
        }),
{
    let w = wkb_bytes(GeomView::Poly(p));
    lemma_line_bytes_len(p);
    lemma_vertex_bytes(p);
    lemma_four(3);
    lemma_four(1);
    lemma_four(p.len());
    let v = vertex_bytes(p);
    assert(w.skip(13) =~= v);
    assert(w.subrange(13 + 16 * i, 21 + 16 * i) =~= v.subrange(16 * i, 16 * i + 8));
    assert(w.subrange(21 + 16 * i, 29 + 16 * i) =~= v.subrange(16 * i + 8, 16 * i + 16));
    assert(w.subrange(1, 5) =~= le(3, 4));
    assert(w.subrange(5, 9) =~= le(1, 4));
    assert(w.subrange(9, 13) =~= le(p.len(), 4));
    assert(w[1] == w.subrange(1, 5)[0] && w[2] == w.subrange(1, 5)[1]);
    assert(w[3] == w.subrange(1, 5)[2] && w[4] == w.subrange(1, 5)[3]);
    assert(w[5] == w.subrange(5, 9)[0] && w[6] == w.subrange(5, 9)[1]);
    assert(w[7] == w.subrange(5, 9)[2] && w[8] == w.subrange(5, 9)[3]);
    assert(w[9] == w.subrange(9, 13)[0] && w[10] == w.subrange(9, 13)[1]);
    assert(w[11] == w.subrange(9, 13)[2] && w[12] == w.subrange(9, 13)[3]);
}

/// The binary form of several lines: little-endian byte order, the type of several lines, their
/// number, and then each in its own binary form, in order.
pub proof fn law_layout_of_lines(p: Seq<Vertex>, rest: Seq<Seq<Vertex>>)
    requires
        rest.len() + 1 < 0x1_0000_0000,
    ensures
        ({
            let ps = seq![p] + rest;
            let w = wkb_bytes(GeomView::Multi(ps));
            &&& w.len() >= 9
            &&& w[0] == 1
            &&& w[1] == 5 && w[2] == 0 && w[3] == 0 && w[4] == 0
            &&& w[5] + 256 * w[6] + 65536 * w[7] + 16777216 * w[8] == ps.len()
            &&& w.skip(9) == wkb_bytes(GeomView::Line(p)) + wkb_bytes(GeomView::Multi(rest)).skip(9)
        }),
        wkb_bytes(GeomView::Multi(Seq::empty())).len() == 9,
{
    let ps = seq![p] + rest;
    let w = wkb_bytes(GeomView::Multi(ps));
    lemma_four(5);
    lemma_four(ps.len());
    lemma_four(rest.len());
    lemma_four(0);
    assert(ps.skip(1) =~= rest);
    assert(w.skip(9) =~= lines_bytes(ps));
    assert(wkb_bytes(GeomView::Multi(rest)).skip(9) =~= lines_bytes(rest));
    assert(w.subrange(1, 5) =~= le(5, 4));
    assert(w.subrange(5, 9) =~= le(ps.len(), 4));
    assert(w[1] == w.subrange(1, 5)[0] && w[2] == w.subrange(1, 5)[1]);
    assert(w[3] == w.subrange(1, 5)[2] && w[4] == w.subrange(1, 5)[3]);
    assert(w[5] == w.subrange(5, 9)[0] && w[6] == w.subrange(5, 9)[1]);
    assert(w[7] == w.subrange(5, 9)[2] && w[8] == w.subrange(5, 9)[3]);
}

/// Each kind of geometry has its name.
pub proof fn law_names_of_kinds(p: Seq<Vertex>, ps: Seq<Seq<Vertex>>)
    ensures
        kind_of(GeomView::Line(p)) == "LineString"@,
        kind_of(GeomView::Multi(ps)) == "MultiLineString"@,
        kind_of(GeomView::Poly(p)) == "Polygon"@,
{
}

} // verus!
