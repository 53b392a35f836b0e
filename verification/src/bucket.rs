//! Gathering what the tiles draw, by feature and layer.
use vstd::prelude::*;
use crate::cgm::{DISJOINT, POLYGON};
use crate::geom::{contents, copy_line, linemerge, merged, Geom, GeomView, Vertex};
use crate::keyed::Keyed;
use crate::number::{eq, equal};
use crate::text::{lemma_text_total, lemma_text_transitive, precedes, text_lt};
use crate::tile::{Primitive, PrimitiveView, TileInfo, TileInfoView};

verus! {

/// What has been gathered of a feature on a layer.
pub struct Acc {
    pub frags: Vec<Vec<Vertex>>,
    pub tip: Option<String>,
    pub square: String,
    pub facet: String,
    pub src: Option<String>,
    pub date: Option<String>,
}

/// The contents of what has been gathered of a feature.
#[verifier::ext_equal]
pub struct AccView {
    pub frags: Seq<Seq<Vertex>>,
    pub tip: Option<Seq<char>>,
    pub square: Seq<char>,
    pub facet: Seq<char>,
    pub src: Option<Seq<char>>,
    pub date: Option<Seq<char>>,
}

impl DeepView for Acc {
    type V = AccView;

    open spec fn deep_view(&self) -> AccView {
        AccView {
            frags: contents(self.frags@),
            tip: self.tip.deep_view(),
            square: self.square@,
            facet: self.facet@,
            src: self.src.deep_view(),
            date: self.date.deep_view(),
        }
    }
}

/// A drawn shape that belongs to no named feature.
pub struct Unnamed {
    pub layer: String,
    pub tip: Option<String>,
    pub square: String,
    pub facet: String,
    pub src: Option<String>,
    pub date: Option<String>,
    pub geom: Geom,
}

/// The contents of an unnamed shape.
pub struct UnnamedView {
    pub layer: Seq<char>,
    pub tip: Option<Seq<char>>,
    pub square: Seq<char>,
    pub facet: Seq<char>,
    pub src: Option<Seq<char>>,
    pub date: Option<Seq<char>>,
    pub geom: GeomView,
}

impl DeepView for Unnamed {
    type V = UnnamedView;

    open spec fn deep_view(&self) -> UnnamedView {
        UnnamedView {
            layer: self.layer@,
            tip: self.tip.deep_view(),
            square: self.square@,
            facet: self.facet@,
            src: self.src.deep_view(),
            date: self.date.deep_view(),
            geom: self.geom.deep_view(),
        }
    }
}

/// A feature's identifier and its layer.
pub type Key = (Seq<char>, Seq<char>);

/// What has been gathered: the named features, each on each of its layers, and the unnamed
/// shapes in the order in which they were drawn.
#[verifier::ext_equal]
pub struct BucketView {
    pub named: Map<Key, AccView>,
    pub unnamed: Seq<UnnamedView>,
}

/// The first of two values that is there.
pub open spec fn first_of(a: Option<Seq<char>>, b: Option<Seq<char>>) -> Option<Seq<char>> {
    if a is Some {
        a
    } else {
        b
    }
}

/// The smaller of two texts.
pub open spec fn least(a: Seq<char>, b: Seq<char>) -> Seq<char> {
    if text_lt(b, a) {
        b
    } else {
        a
    }
}

/// The larger of two texts that may be missing.
pub open spec fn latest(a: Option<Seq<char>>, b: Option<Seq<char>>) -> Option<Seq<char>> {
    match (a, b) {
        (Some(x), Some(y)) => if text_lt(x, y) {
            b
        } else {
            a
        },
        (None, _) => b,
        (_, None) => a,
    }
}

/// What was gathered of a feature first and then.
pub open spec fn joined(a: AccView, b: AccView) -> AccView {
    AccView {
        frags: a.frags + b.frags,
        tip: first_of(a.tip, b.tip),
        square: least(a.square, b.square),
        facet: least(a.facet, b.facet),
        src: first_of(a.src, b.src),
        date: latest(a.date, b.date),
    }
}

/// The named features of two buckets together.
pub open spec fn joined_named(a: Map<Key, AccView>, b: Map<Key, AccView>) -> Map<Key, AccView> {
    Map::new(
        |k: Key| a.contains_key(k) || b.contains_key(k),
        |k: Key|
            if a.contains_key(k) && b.contains_key(k) {
                joined(a[k], b[k])
            } else if a.contains_key(k) {
                a[k]
            } else {
                b[k]
            },
    )
}

/// Two buckets together.
pub open spec fn together(a: BucketView, b: BucketView) -> BucketView {
    BucketView { named: joined_named(a.named, b.named), unnamed: a.unnamed + b.unnamed }
}

/// A bucket in which nothing has been gathered.
pub open spec fn nothing() -> BucketView {
    BucketView { named: Map::empty(), unnamed: Seq::empty() }
}

/// Whether two vertices lie at the same place.
pub open spec fn same_place(a: Vertex, b: Vertex) -> bool {
    equal(a.x, b.x) && equal(a.y, b.y)
}

/// Vertices without those that lie where the one before them does.
pub open spec fn deduped(p: Seq<Vertex>) -> Seq<Vertex>
    decreases p.len(),
{
    if p.len() == 0 {
        Seq::empty()
    } else {
        let d = deduped(p.drop_last());
        if d.len() > 0 && same_place(d.last(), p.last()) {
            d
        } else {
            d.push(p.last())
        }
    }
}

/// The vertices that a primitive of some shape is drawn with.
pub open spec fn outline(shape: u8, p: Seq<Vertex>) -> Seq<Vertex> {
    if shape == DISJOINT {
        p
    } else {
        deduped(p)
    }
}

/// Vertices two by two; a last one without a partner is left out.
pub open spec fn twos(p: Seq<Vertex>) -> Seq<Seq<Vertex>> {
    Seq::new((p.len() / 2) as nat, |i: int| seq![p[2 * i], p[2 * i + 1]])
}

/// The line fragments of a primitive.
pub open spec fn fragments(shape: u8, p: Seq<Vertex>) -> Seq<Seq<Vertex>> {
    if shape == DISJOINT {
        twos(p)
    } else {
        seq![p]
    }
}

/// The geometry of a primitive that belongs to no named feature.
pub open spec fn shape_of(shape: u8, p: Seq<Vertex>) -> Option<GeomView> {
    if shape == DISJOINT {
        Some(GeomView::Multi(twos(p)))
    } else if shape == POLYGON {
        if p.len() >= 3 {
            Some(GeomView::Poly(p))
        } else {
            None
        }
    } else {
        Some(GeomView::Line(p))
    }
}

/// What one primitive adds to its feature.
pub open spec fn single(info: TileInfoView, prim: PrimitiveView, p: Seq<Vertex>) -> AccView {
    AccView {
        frags: fragments(prim.shape, p),
        tip: prim.tip,
        square: info.square,
        facet: info.facet,
        src: info.src,
        date: info.date,
    }
}

/// What one primitive with the given vertices adds to a bucket.
pub open spec fn share(info: TileInfoView, prim: PrimitiveView, vertices: Seq<Vertex>) -> BucketView {
    let p = outline(prim.shape, vertices);
    if p.len() < 2 {
        nothing()
    } else {
        match prim.fid {
            Some(f) => BucketView {
                named: Map::empty().insert((f, prim.layer), single(info, prim, p)),
                unnamed: Seq::empty(),
            },
            None => BucketView {
                named: Map::empty(),
                unnamed: match shape_of(prim.shape, p) {
                    Some(g) => seq![
                        UnnamedView {
                            layer: prim.layer,
                            tip: prim.tip,
                            square: info.square,
                            facet: info.facet,
                            src: info.src,
                            date: info.date,
                            geom: g,
                        },
                    ],
                    None => Seq::empty(),
                },
            },
        }
    }
}

/// A feature's key as one text.
pub open spec fn flat(fid: Seq<char>, layer: Seq<char>) -> Seq<char> {
    Seq::new(fid.len(), |i: int| '\u{1}') + seq!['\0'] + fid + layer
}

proof fn lemma_flat(a: Key, b: Key)
    requires
        flat(a.0, a.1) == flat(b.0, b.1),
    ensures
        a == b,
{
    let (x, y) = (flat(a.0, a.1), flat(b.0, b.1));
    let (m, n) = (a.0.len() as int, b.0.len() as int);
    assert(x[m] == '\0' && y[n] == '\0');
    if m < n {
        assert(y[m] == '\u{1}');
    } else if n < m {
        assert(x[n] == '\u{1}');
    }
    assert(a.0 =~= x.subrange(m + 1, 2 * m + 1));
    assert(b.0 =~= y.subrange(m + 1, 2 * m + 1));
    assert(a.1 =~= x.skip(2 * m + 1));
    assert(b.1 =~= y.skip(2 * m + 1));
}

/// A named feature on one layer, and what has been gathered of it.
pub struct Entry {
    pub fid: String,
    pub layer: String,
    pub acc: Acc,
}

/// The features that have been gathered.
pub struct Bucket {
    table: Keyed<Entry>,
    unnamed: Vec<Unnamed>,
}

impl DeepView for Bucket {
    type V = BucketView;

    closed spec fn deep_view(&self) -> BucketView {
        BucketView {
            named: Map::new(
                |k: Key| self.table@.contains_key(flat(k.0, k.1)),
                |k: Key| self.table@[flat(k.0, k.1)].acc.deep_view(),
            ),
            unnamed: self.unnamed.deep_view(),
        }
    }
}

impl Bucket {
    /// Whether every feature stands under its own key.
    pub closed spec fn wf(&self) -> bool {
        &&& self.table.wf()
        &&& forall|t: Seq<char>| #[trigger]
            self.table@.contains_key(t) ==> flat(self.table@[t].fid@, self.table@[t].layer@) == t
    }

    /// The named features in the order in which they were first met.
    pub closed spec fn order(&self) -> Seq<Key> {
        self.table.order().map_values(
            |t: Seq<char>| (self.table@[t].fid@, self.table@[t].layer@),
        )
    }

    /// An empty bucket.
    pub fn new() -> (r: Bucket)
        ensures
            r.wf(),
            r.deep_view() == nothing(),
    {
        let r = Bucket { table: Keyed::new(), unnamed: Vec::new() };
        assert(r.deep_view() =~= nothing());
        r
    }
}

/// The features of a map that are listed.
pub open spec fn listed_part(m: Map<Key, AccView>, keys: Seq<Key>) -> Map<Key, AccView> {
    Map::new(|k: Key| keys.contains(k), |k: Key| m[k])
}

fn flat_text(fid: &str, layer: &str) -> (r: String)
    ensures
        r@ == flat(fid@, layer@),
{
    let mut s = String::new();
    for c in it: fid.chars()
        invariant
            it.seq() == fid@,
            s@ == Seq::new(it.index() as nat, |i: int| '\u{1}'),
    {
        s.push('\u{1}');
        assert(s@ =~= Seq::new((it.index() + 1) as nat, |i: int| '\u{1}'));
    }
    s.push('\0');
    s.append(fid);
    s.append(layer);
    assert(s@ =~= flat(fid@, layer@));
    s
}

fn absorb(a: &mut Acc, b: Acc)
    ensures
        final(a).deep_view() == joined(old(a).deep_view(), b.deep_view()),
{
    let ghost x = a.deep_view();
    let ghost y = b.deep_view();
    let Acc { mut frags, tip, square, facet, src, date } = b;
    let ghost f0 = a.frags@;
    let ghost f1 = frags@;
    a.frags.append(&mut frags);
    assert(contents(a.frags@) =~= contents(f0) + contents(f1));
    if a.tip.is_none() {
        a.tip = tip;
    }
    if precedes(square.as_str(), a.square.as_str()) {
        a.square = square;
    }
    if precedes(facet.as_str(), a.facet.as_str()) {
        a.facet = facet;
    }
    if a.src.is_none() {
        a.src = src;
    }
    let later = match (&a.date, &date) {
        (Some(d0), Some(d1)) => precedes(d0.as_str(), d1.as_str()),
        (None, _) => true,
        (Some(_), None) => false,
    };
    if later {
        a.date = date;
    }
    assert(a.deep_view() =~= joined(x, y));
}

fn dedup(p: &Vec<Vertex>) -> (r: Vec<Vertex>)
    ensures
        r@ == deduped(p@),
{
    let mut out: Vec<Vertex> = Vec::new();
    let mut i: usize = 0;
    while i < p.len()
        invariant
            i <= p.len(),
            out@ == deduped(p@.take(i as int)),
        decreases p.len() - i,
    {
        assert(p@.take(i + 1).drop_last() =~= p@.take(i as int));
        let v = p[i];
        let again = if out.len() > 0 {
            let w = out[out.len() - 1];
            eq(w.x, v.x) && eq(w.y, v.y)
        } else {
            false
        };
        if !again {
            out.push(v);
        }
        i += 1;
    }
    assert(p@.take(i as int) =~= p@);
    out
}

fn pair_up(p: &Vec<Vertex>) -> (r: Vec<Vec<Vertex>>)
    ensures
        contents(r@) == twos(p@),
        r.len() == p.len() / 2,
        forall|i: int| 0 <= i < r.len() ==> (#[trigger] r@[i])@ == seq![p@[2 * i], p@[2 * i + 1]],
{
    let mut out: Vec<Vec<Vertex>> = Vec::new();
    let n = p.len() / 2;
    let mut i: usize = 0;
    while i < n
        invariant
            i <= n == p.len() / 2,
            contents(out@) == twos(p@).take(i as int),
        decreases n - i,
    {
        let mut two: Vec<Vertex> = Vec::new();
        two.push(p[2 * i]);
        two.push(p[2 * i + 1]);
        assert(two@ =~= twos(p@)[i as int]);
        let ghost before = contents(out@);
        out.push(two);
        assert(contents(out@) =~= before.push(two@));
        i += 1;
        assert(twos(p@).take(i as int) =~= twos(p@).take(i - 1).push(twos(p@)[i - 1]));
    }
    assert(twos(p@).take(i as int) =~= twos(p@));
    assert(contents(out@).len() == out.len());
    assert forall|i: int| 0 <= i < out.len() implies (#[trigger] out@[i])@ == seq![
        p@[2 * i],
        p@[2 * i + 1],
    ] by {
        assert(contents(out@)[i] == twos(p@)[i]);
    }
    out
}

impl Bucket {
    /// Adds what has been gathered of a feature on a layer.
    fn put(&mut self, fid: String, layer: String, acc: Acc)
        requires
            old(self).wf(),
        ensures
            final(self).wf(),
            final(self).deep_view() == (BucketView {
                named: joined_named(
                    old(self).deep_view().named,
                    Map::empty().insert((fid@, layer@), acc.deep_view()),
                ),
                unnamed: old(self).deep_view().unnamed,
            }),
    {
        let ghost was = self.deep_view();
        let ghost one = Map::<Key, AccView>::empty().insert((fid@, layer@), acc.deep_view());
        let ghost key = (fid@, layer@);
        let ghost table = self.table@;
        let t = flat_text(fid.as_str(), layer.as_str());
        let ghost tk = t@;
        match self.table.find(t.as_str()) {
            Some(i) => {
                let e = self.table.value_mut(i);
                absorb(&mut e.acc, acc);
            },
            None => {
                self.table.push(t, Entry { fid, layer, acc });
            },
        }
        proof {
            assert forall|k: Key| #[trigger] flat(k.0, k.1) == tk implies k == key by {
                lemma_flat(k, key);
            }
            assert(self.deep_view().named =~= joined_named(was.named, one));
        }
    }

    /// Adds a primitive with the given vertices. Whether it counts: it has two vertices or
    /// more once those that repeat the one before are left out.
    pub fn add(&mut self, info: &TileInfo, prim: &Primitive, vertices: &Vec<Vertex>) -> (r: bool)
        requires
            old(self).wf(),
        ensures
            final(self).wf(),
            final(self).deep_view() == together(
                old(self).deep_view(),
                share(info.deep_view(), prim.deep_view(), vertices@),
            ),
            r == (outline(prim.shape, vertices@).len() >= 2),
    {
        let ghost was = self.deep_view();
        let ghost more = share(info.deep_view(), prim.deep_view(), vertices@);
        let p = if prim.shape == DISJOINT {
            copy_line(vertices)
        } else {
            dedup(vertices)
        };
        if p.len() < 2 {
            assert(together(was, more) =~= was);
            return false;
        }
        match &prim.fid {
            Some(f) => {
                let frags = if prim.shape == DISJOINT {
                    pair_up(&p)
                } else {
                    let mut one: Vec<Vec<Vertex>> = Vec::new();
                    let ghost q = p@;
                    one.push(p);
                    assert(contents(one@) =~= seq![q]);
                    one
                };
                let acc = Acc {
                    frags,
                    tip: prim.tip.clone(),
                    square: info.square.clone(),
                    facet: info.facet.clone(),
                    src: info.src.clone(),
                    date: info.date.clone(),
                };
                self.put(f.clone(), prim.layer.clone(), acc);
                assert(was.unnamed + more.unnamed =~= was.unnamed);
                assert(self.deep_view() =~= together(was, more));
            },
            None => {
                if prim.shape == POLYGON && p.len() < 3 {
                    assert(together(was, more) =~= was);
                    return true;
                }
                let geom = if prim.shape == DISJOINT {
                    Geom::Multi(pair_up(&p))
                } else if prim.shape == POLYGON {
                    Geom::Poly(p)
                } else {
                    Geom::Line(p)
                };
                let u = Unnamed {
                    layer: prim.layer.clone(),
                    tip: prim.tip.clone(),
                    square: info.square.clone(),
                    facet: info.facet.clone(),
                    src: info.src.clone(),
                    date: info.date.clone(),
                    geom,
                };
                let ghost v = u.deep_view();
                self.unnamed.push(u);
                assert(self.unnamed.deep_view() =~= was.unnamed.push(v));
                assert(was.unnamed.push(v) =~= was.unnamed + more.unnamed);
                assert(self.deep_view().named =~= joined_named(was.named, more.named));
            },
        }
        true
    }

    proof fn lemma_order(&self)
        requires
            self.wf(),
        ensures
            self.order().len() == self.table.order().len(),
            self.order().no_duplicates(),
            forall|i: int|
                0 <= i < self.order().len() ==> {
                    let t = #[trigger] self.table.order()[i];
                    &&& self.table@.contains_key(t)
                    &&& self.order()[i] == (self.table@[t].fid@, self.table@[t].layer@)
                    &&& flat(self.order()[i].0, self.order()[i].1) == t
                },
            forall|k: Key| #[trigger]
                self.deep_view().named.contains_key(k) <==> self.order().contains(k),
    {
        self.table.lemma_order();
        let o = self.order();
        let ts = self.table.order();
        assert forall|i: int| 0 <= i < o.len() implies {
            let t = #[trigger] ts[i];
            &&& self.table@.contains_key(t)
            &&& o[i] == (self.table@[t].fid@, self.table@[t].layer@)
            &&& flat(o[i].0, o[i].1) == t
        } by {
            assert(self.table@.contains_key(ts[i]));
        }
        assert forall|i: int, j: int| 0 <= i < o.len() && 0 <= j < o.len() && i != j implies o[i]
            != o[j] by {
            assert(ts[i] != ts[j]);
        }
        assert forall|k: Key| #[trigger] self.deep_view().named.contains_key(k) <==> o.contains(k) by {
            let t = flat(k.0, k.1);
            if self.table@.contains_key(t) {
                assert(ts.contains(t));
                let i = choose|i: int| 0 <= i < ts.len() && ts[i] == t;
                lemma_flat(k, o[i]);
                assert(o[i] == k);
            }
            if o.contains(k) {
                let i = choose|i: int| 0 <= i < o.len() && o[i] == k;
                assert(ts[i] == t);
            }
        }
    }

    /// Adds to this bucket what another has gathered later.
    pub fn merge(&mut self, b: Bucket)
        requires
            old(self).wf(),
            b.wf(),
        ensures
            final(self).wf(),
            final(self).deep_view() == together(old(self).deep_view(), b.deep_view()),
    {
        let ghost was = self.deep_view();
        let ghost other = b.deep_view();
        let ghost keys = b.order();
        proof {
            b.lemma_order();
        }
        let ghost ts = b.table.order();
        let ghost table = b.table@;
        let Bucket { table: more, mut unnamed } = b;
        let ghost tail = unnamed.deep_view();
        let entries = more.into_values();
        assert forall|i: int| 0 <= i < entries.len() implies {
            let e = #[trigger] entries@[i];
            &&& keys[i] == (e.fid@, e.layer@)
            &&& other.named[keys[i]] == e.acc.deep_view()
        } by {
            assert(entries@[i] == table[ts[i]]);
        }
        assert(self.deep_view().named =~= joined_named(
            was.named,
            listed_part(other.named, keys.take(0)),
        ));
        for e in it: entries.into_iter()
            invariant
                it.seq() == entries@,
                self.wf(),
                keys.len() == entries.len(),
                keys.no_duplicates(),
                forall|i: int|
                    0 <= i < entries.len() ==> {
                        let e = #[trigger] entries@[i];
                        &&& keys[i] == (e.fid@, e.layer@)
                        &&& other.named[keys[i]] == e.acc.deep_view()
                    },
                self.deep_view().unnamed == was.unnamed,
                self.deep_view().named == joined_named(
                    was.named,
                    listed_part(other.named, keys.take(it.index() as int)),
                ),
        {
            let ghost i = it.index() as int;
            assert(e == entries@[i]);
            let ghost k = keys[i];
            let ghost one = Map::<Key, AccView>::empty().insert(k, e.acc.deep_view());
            let ghost now = self.deep_view().named;
            self.put(e.fid, e.layer, e.acc);
            proof {
                lemma_one_more(was.named, other.named, keys, i);
            }
        }
        self.unnamed.append(&mut unnamed);
        proof {
            assert(keys.take(keys.len() as int) =~= keys);
            assert(self.unnamed.deep_view() =~= was.unnamed + tail);
            assert(listed_part(other.named, keys) =~= other.named);
            assert(self.deep_view().named =~= joined_named(was.named, other.named));
        }
    }
}

proof fn lemma_one_more(a: Map<Key, AccView>, b: Map<Key, AccView>, keys: Seq<Key>, i: int)
    requires
        0 <= i < keys.len(),
        keys.no_duplicates(),
    ensures
        joined_named(
            joined_named(a, listed_part(b, keys.take(i))),
            Map::<Key, AccView>::empty().insert(keys[i], b[keys[i]]),
        ) == joined_named(a, listed_part(b, keys.take(i + 1))),
{
    let (p, q) = (keys.take(i), keys.take(i + 1));
    assert forall|k: Key| #[trigger] q.contains(k) <==> p.contains(k) || k == keys[i] by {
        if q.contains(k) {
            let j = choose|j: int| 0 <= j < q.len() && q[j] == k;
            if j < i {
                assert(p[j] == k);
            }
        }
        if p.contains(k) {
            let j = choose|j: int| 0 <= j < p.len() && p[j] == k;
            assert(q[j] == k);
        }
        assert(q[i] == keys[i]);
    }
    assert(!p.contains(keys[i])) by {
        if p.contains(keys[i]) {
            let j = choose|j: int| 0 <= j < p.len() && p[j] == keys[i];
            assert(keys[j] == keys[i]);
        }
    }
    let one = Map::<Key, AccView>::empty().insert(keys[i], b[keys[i]]);
    assert(joined_named(joined_named(a, listed_part(b, p)), one) =~= joined_named(
        a,
        listed_part(b, q),
    ));
}

proof fn lemma_least(a: Seq<char>, b: Seq<char>, c: Seq<char>)
    ensures
        least(least(a, b), c) == least(a, least(b, c)),
{
    lemma_text_total(a, b);
    lemma_text_total(b, c);
    lemma_text_total(a, c);
    if text_lt(c, b) && text_lt(b, a) {
        lemma_text_transitive(c, b, a);
    }
    if text_lt(a, b) && text_lt(b, c) {
        lemma_text_transitive(a, b, c);
    }
}

proof fn lemma_latest(a: Option<Seq<char>>, b: Option<Seq<char>>, c: Option<Seq<char>>)
    ensures
        latest(latest(a, b), c) == latest(a, latest(b, c)),
{
    match (a, b, c) {
        (Some(x), Some(y), Some(z)) => {
            lemma_text_total(x, y);
            lemma_text_total(y, z);
            lemma_text_total(x, z);
            if text_lt(x, y) && text_lt(y, z) {
                lemma_text_transitive(x, y, z);
            }
            if text_lt(z, y) && text_lt(y, x) {
                lemma_text_transitive(z, y, x);
            }
        },
        _ => {},
    }
}

proof fn lemma_joined(a: AccView, b: AccView, c: AccView)
    ensures
        joined(joined(a, b), c) == joined(a, joined(b, c)),
{
    lemma_least(a.square, b.square, c.square);
    lemma_least(a.facet, b.facet, c.facet);
    lemma_latest(a.date, b.date, c.date);
    assert(joined(joined(a, b), c) =~= joined(a, joined(b, c)));
}

/// Buckets can be put together in any grouping.
pub proof fn law_together_associative(a: BucketView, b: BucketView, c: BucketView)
    ensures
        together(together(a, b), c) == together(a, together(b, c)),
{
    let (x, y) = (together(together(a, b), c), together(a, together(b, c)));
    assert forall|k: Key| #[trigger] x.named.contains_key(k) implies x.named[k] == y.named[k] by {
        if a.named.contains_key(k) && b.named.contains_key(k) && c.named.contains_key(k) {
            lemma_joined(a.named[k], b.named[k], c.named[k]);
        }
    }
    assert(x.named =~= y.named);
    assert(x =~= y);
}

/// An empty bucket adds nothing on either side.
pub proof fn law_together_identity(a: BucketView)
    ensures
        together(a, nothing()) == a,
        together(nothing(), a) == a,
{
    assert(together(a, nothing()) =~= a);
    assert(together(nothing(), a) =~= a);
}

/// What primitives, one after the other, gather.
pub open spec fn gathered(xs: Seq<(TileInfoView, PrimitiveView, Seq<Vertex>)>) -> BucketView
    decreases xs.len(),
{
    if xs.len() == 0 {
        nothing()
    } else {
        let x = xs.last();
        together(gathered(xs.drop_last()), share(x.0, x.1, x.2))
    }
}

/// However a run of primitives is cut in two, gathering the parts apart and putting the
/// buckets together gives what gathering the whole gives.
pub proof fn law_gathered_in_parts(
    xs: Seq<(TileInfoView, PrimitiveView, Seq<Vertex>)>,
    ys: Seq<(TileInfoView, PrimitiveView, Seq<Vertex>)>,
)
    ensures
        gathered(xs + ys) == together(gathered(xs), gathered(ys)),
    decreases ys.len(),
{
    if ys.len() == 0 {
        assert(xs + ys =~= xs);
        law_together_identity(gathered(xs));
    } else {
        law_gathered_in_parts(xs, ys.drop_last());
        assert((xs + ys).drop_last() =~= xs + ys.drop_last());
        let y = ys.last();
        law_together_associative(gathered(xs), gathered(ys.drop_last()), share(y.0, y.1, y.2));
    }
}

/// No vertex that is kept lies where the one before it does.
pub proof fn law_no_zero_steps(p: Seq<Vertex>, i: int)
    requires
        0 <= i,
        i + 1 < deduped(p).len(),
    ensures
        !(equal(deduped(p)[i].x, deduped(p)[i + 1].x) && equal(
            deduped(p)[i].y,
            deduped(p)[i + 1].y,
        )),
    decreases p.len(),
{
    let d = deduped(p.drop_last());
    if i + 1 < d.len() {
        law_no_zero_steps(p.drop_last(), i);
    }
}

/// A feature as it is written out: a dissolved named feature or an unnamed shape as it was
/// drawn. The year is that of its laying, 0 where it is known to be unknown.
pub struct Row {
    pub fid: Option<String>,
    pub layer: String,
    pub tip: Option<String>,
    pub square: String,
    pub facet: String,
    pub src: Option<String>,
    pub date: Option<String>,
    pub year: Option<i32>,
    pub geom: Geom,
}

/// The contents of a row.
pub struct RowView {
    pub fid: Option<Seq<char>>,
    pub layer: Seq<char>,
    pub tip: Option<Seq<char>>,
    pub square: Seq<char>,
    pub facet: Seq<char>,
    pub src: Option<Seq<char>>,
    pub date: Option<Seq<char>>,
    pub year: Option<i32>,
    pub geom: GeomView,
}

impl DeepView for Row {
    type V = RowView;

    open spec fn deep_view(&self) -> RowView {
        RowView {
            fid: self.fid.deep_view(),
            layer: self.layer@,
            tip: self.tip.deep_view(),
            square: self.square@,
            facet: self.facet@,
            src: self.src.deep_view(),
            date: self.date.deep_view(),
            year: self.year,
            geom: self.geom.deep_view(),
        }
    }
}

/// Several lines as one geometry, a single line as such. Nothing where there is none.
pub open spec fn lines_geom(l: Seq<Seq<Vertex>>) -> Option<GeomView> {
    if l.len() == 0 {
        None
    } else if l.len() == 1 {
        Some(GeomView::Line(l[0]))
    } else {
        Some(GeomView::Multi(l))
    }
}

/// The row of a named feature: its fragments stitched together.
pub open spec fn named_row(k: Key, a: AccView) -> Option<RowView> {
    match lines_geom(merged(a.frags)) {
        Some(geom) => Some(
            RowView {
                fid: Some(k.0),
                layer: k.1,
                tip: a.tip,
                square: a.square,
                facet: a.facet,
                src: a.src,
                date: a.date,
                year: None,
                geom,
            },
        ),
        None => None,
    }
}

/// The row of an unnamed shape.
pub open spec fn unnamed_row(u: UnnamedView) -> RowView {
    RowView {
        fid: None,
        layer: u.layer,
        tip: u.tip,
        square: u.square,
        facet: u.facet,
        src: u.src,
        date: u.date,
        year: None,
        geom: u.geom,
    }
}

/// The rows of the named features in some order.
pub open spec fn named_rows(named: Map<Key, AccView>, order: Seq<Key>) -> Seq<RowView>
    decreases order.len(),
{
    if order.len() == 0 {
        Seq::empty()
    } else {
        let rest = named_rows(named, order.drop_last());
        match named_row(order.last(), named[order.last()]) {
            Some(r) => rest.push(r),
            None => rest,
        }
    }
}

/// The rows of a bucket: the named features in some order, then the unnamed shapes.
pub open spec fn rows_of(b: BucketView, order: Seq<Key>) -> Seq<RowView> {
    named_rows(b.named, order) + b.unnamed.map_values(|u: UnnamedView| unnamed_row(u))
}

/// Makes one geometry of several lines.
pub fn geom_of(mut lines: Vec<Vec<Vertex>>) -> (r: Option<Geom>)
    ensures
        r.deep_view() == lines_geom(contents(lines@)),
{
    let ghost l = contents(lines@);
    if lines.len() == 0 {
        None
    } else if lines.len() == 1 {
        match lines.pop() {
            Some(p) => {
                assert(p@ == l[0]);
                Some(Geom::Line(p))
            },
            None => None,
        }
    } else {
        Some(Geom::Multi(lines))
    }
}

fn dissolve(e: Entry) -> (r: Option<Row>)
    ensures
        r.deep_view() == named_row((e.fid@, e.layer@), e.acc.deep_view()),
{
    let Entry { fid, layer, acc } = e;
    let lines = linemerge(&acc.frags);
    match geom_of(lines) {
        Some(geom) => Some(
            Row {
                fid: Some(fid),
                layer,
                tip: acc.tip,
                square: acc.square,
                facet: acc.facet,
                src: acc.src,
                date: acc.date,
                year: None,
                geom,
            },
        ),
        None => None,
    }
}

impl Bucket {
    /// How many named features and how many unnamed shapes there are.
    pub fn counts(&self) -> (r: (usize, usize))
        requires
            self.wf(),
        ensures
            r.0 == self.order().len(),
            r.1 == self.deep_view().unnamed.len(),
            self.order().no_duplicates(),
            forall|k: Key| #[trigger]
                self.deep_view().named.contains_key(k) <==> self.order().contains(k),
    {
        proof {
            self.lemma_order();
        }
        (self.table.len(), self.unnamed.len())
    }

    /// Dissolves the named features and lists all rows.
    pub fn rows(self) -> (r: Vec<Row>)
        requires
            self.wf(),
        ensures
            r.deep_view() == rows_of(self.deep_view(), self.order()),
            self.order().no_duplicates(),
            forall|k: Key| #[trigger]
                self.deep_view().named.contains_key(k) <==> self.order().contains(k),
    {
        let ghost v = self.deep_view();
        let ghost keys = self.order();
        let ghost ts = self.table.order();
        let ghost map = self.table@;
        proof {
            self.lemma_order();
        }
        let Bucket { table, unnamed } = self;
        let ghost us = unnamed.deep_view();
        let entries = table.into_values();
        assert forall|i: int| 0 <= i < entries.len() implies {
            let e = #[trigger] entries@[i];
            &&& keys[i] == (e.fid@, e.layer@)
            &&& v.named[keys[i]] == e.acc.deep_view()
        } by {
            assert(entries@[i] == map[ts[i]]);
        }
        let mut out: Vec<Row> = Vec::new();
        assert(out.deep_view() =~= named_rows(v.named, keys.take(0)));
        for e in it: entries.into_iter()
            invariant
                it.seq() == entries@,
                keys.len() == entries.len(),
                forall|i: int|
                    0 <= i < entries.len() ==> {
                        let e = #[trigger] entries@[i];
                        &&& keys[i] == (e.fid@, e.layer@)
                        &&& v.named[keys[i]] == e.acc.deep_view()
                    },
                out.deep_view() == named_rows(v.named, keys.take(it.index() as int)),
        {
            let ghost i = it.index() as int;
            assert(e == entries@[i]);
            assert(keys.take(i + 1).drop_last() =~= keys.take(i));
            let ghost before = out.deep_view();
            match dissolve(e) {
                Some(r) => {
                    let ghost w = r.deep_view();
                    out.push(r);
                    assert(out.deep_view() =~= before.push(w));
                },
                None => {},
            }
        }
        assert(keys.take(keys.len() as int) =~= keys);
        let ghost head = out.deep_view();
        let ghost all = us.map_values(|u: UnnamedView| unnamed_row(u));
        assert(head + all.take(0) =~= head);
        for u in it: unnamed.into_iter()
            invariant
                it.seq() == unnamed@,
                us == unnamed.deep_view(),
                all == us.map_values(|u: UnnamedView| unnamed_row(u)),
                out.deep_view() == head + all.take(it.index() as int),
        {
            let ghost i = it.index() as int;
            assert(us[i] == u.deep_view());
            let ghost before = out.deep_view();
            let Unnamed { layer, tip, square, facet, src, date, geom } = u;
            let r = Row { fid: None, layer, tip, square, facet, src, date, year: None, geom };
            let ghost w = r.deep_view();
            assert(w == all[i]);
            out.push(r);
            assert(out.deep_view() =~= before.push(w));
            assert(all.take(i + 1) =~= all.take(i).push(w));
            assert(out.deep_view() =~= head + all.take(i + 1));
        }
        assert(all.take(all.len() as int) =~= all);
        out
    }
}

/// Whether a row is that of a named feature on its layer.
pub open spec fn row_is(r: RowView, k: Key) -> bool {
    r.fid == Some(k.0) && r.layer == k.1
}

/// Whether a row is that of a feature that is listed.
pub open spec fn gathered_row(named: Map<Key, AccView>, order: Seq<Key>, r: RowView) -> bool {
    exists|k: Key| #[trigger] order.contains(k) && named_row(k, named[k]) == Some(r)
}

/// However the named features are ordered, a feature whose fragments leave any line has one
/// row, and every row of a named feature is that of a feature that was gathered.
pub proof fn law_one_row_each(named: Map<Key, AccView>, order: Seq<Key>)
    requires
        order.no_duplicates(),
    ensures
        forall|k: Key|
            order.contains(k) && named_row(k, named[k]) is Some ==> exists|i: int|
                0 <= i < named_rows(named, order).len() && #[trigger] row_is(
                    named_rows(named, order)[i],
                    k,
                ),
        forall|i: int|
            0 <= i < named_rows(named, order).len() ==> gathered_row(
                named,
                order,
                #[trigger] named_rows(named, order)[i],
            ),
        forall|i: int, j: int, k: Key|
            0 <= i < j < named_rows(named, order).len() ==> !(#[trigger] row_is(
                named_rows(named, order)[i],
                k,
            ) && #[trigger] row_is(named_rows(named, order)[j], k)),
    decreases order.len(),
{
    if order.len() > 0 {
        let p = order.drop_last();
        let z = order.last();
        law_one_row_each(named, p);
        let rs = named_rows(named, order);
        let qs = named_rows(named, p);
        assert(!p.contains(z)) by {
            if p.contains(z) {
                let j = choose|j: int| 0 <= j < p.len() && p[j] == z;
                assert(order[j] == order[order.len() - 1]);
            }
        }
        assert forall|k: Key| order.contains(k) && named_row(k, named[k]) is Some implies exists|
            i: int,
        |
            0 <= i < rs.len() && #[trigger] row_is(rs[i], k) by {
            if k == z {
                assert(row_is(rs[rs.len() - 1], k));
            } else {
                let j = choose|j: int| 0 <= j < order.len() && order[j] == k;
                assert(p[j] == k);
                assert(p.contains(k));
                let i = choose|i: int| 0 <= i < qs.len() && #[trigger] row_is(qs[i], k);
                assert(rs[i] == qs[i]);
                assert(row_is(rs[i], k));
            }
        }
        assert forall|i: int| 0 <= i < rs.len() implies gathered_row(
            named,
            order,
            #[trigger] rs[i],
        ) by {
            if i < qs.len() {
                assert(gathered_row(named, p, qs[i]));
                let k = choose|k: Key| #[trigger]
                    p.contains(k) && named_row(k, named[k]) == Some(qs[i]);
                let j = choose|j: int| 0 <= j < p.len() && p[j] == k;
                assert(order[j] == k);
                assert(order.contains(k));
            } else {
                assert(order[order.len() - 1] == z);
                assert(order.contains(z));
            }
        }
        assert forall|i: int, j: int, k: Key| 0 <= i < j < rs.len() implies !(#[trigger] row_is(
            rs[i],
            k,
        ) && #[trigger] row_is(rs[j], k)) by {
            assert(rs[i] == qs[i]);
            if j < qs.len() {
                assert(rs[j] == qs[j]);
                assert(!(row_is(qs[i], k) && row_is(qs[j], k)));
            } else if row_is(rs[i], k) && row_is(rs[j], k) {
                assert(gathered_row(named, p, qs[i]));
                let q = choose|q: Key| #[trigger]
                    p.contains(q) && named_row(q, named[q]) == Some(qs[i]);
                assert(q == k);
                assert(k == z);
            }
        }
    }
}

/// Whether these are the vertices that points are taken to by `project`.
pub open spec fn projected<F: Fn(i16, i16) -> Vertex>(
    project: F,
    points: Seq<(i16, i16)>,
    vs: Seq<Vertex>,
) -> bool {
    &&& vs.len() == points.len()
    &&& forall|k: int|
        0 <= k < vs.len() ==> call_ensures(project, (points[k].0, points[k].1), #[trigger] vs[k])
}

/// Whether these are the vertices of a tile's primitives.
pub open spec fn all_projected<F: Fn(i16, i16) -> Vertex>(
    project: F,
    prims: Seq<PrimitiveView>,
    vss: Seq<Seq<Vertex>>,
) -> bool {
    &&& vss.len() == prims.len()
    &&& forall|i: int|
        0 <= i < vss.len() ==> projected(project, prims[i].points, #[trigger] vss[i])
}

/// A tile's primitives with their vertices.
pub open spec fn tile_run(info: TileInfoView, prims: Seq<PrimitiveView>, vss: Seq<Seq<Vertex>>) -> Seq<
    (TileInfoView, PrimitiveView, Seq<Vertex>),
> {
    Seq::new(vss.len(), |i: int| (info, prims[i], vss[i]))
}

/// How many of the first primitives of a tile have two vertices or more.
pub open spec fn kept_of(prims: Seq<PrimitiveView>, vss: Seq<Seq<Vertex>>) -> nat
    decreases vss.len(),
{
    if vss.len() == 0 {
        0
    } else {
        let n = (vss.len() - 1) as nat;
        kept_of(prims, vss.drop_last()) + if outline(prims[n as int].shape, vss.last()).len() >= 2 {
            1nat
        } else {
            0nat
        }
    }
}

/// Whether a bucket has gathered a tile, and how many of its primitives count.
pub open spec fn tile_gathered<F: Fn(i16, i16) -> Vertex>(
    info: TileInfoView,
    prims: Seq<PrimitiveView>,
    project: F,
    was: BucketView,
    now: BucketView,
    kept: nat,
) -> bool {
    exists|vss: Seq<Seq<Vertex>>| #[trigger]
        all_projected(project, prims, vss) && now == together(
            was,
            gathered(tile_run(info, prims, vss)),
        ) && kept == kept_of(prims, vss)
}

fn project_all<F: Fn(i16, i16) -> Vertex>(points: &Vec<(i16, i16)>, project: &F) -> (r: Vec<Vertex>)
    requires
        forall|x: i16, y: i16| #[trigger] call_requires(*project, (x, y)),
    ensures
        projected(*project, points@, r@),
{
    let mut out: Vec<Vertex> = Vec::new();
    let mut i: usize = 0;
    while i < points.len()
        invariant
            i <= points.len(),
            forall|x: i16, y: i16| #[trigger] call_requires(*project, (x, y)),
            out.len() == i,
            forall|k: int|
                0 <= k < i ==> call_ensures(
                    *project,
                    (points@[k].0, points@[k].1),
                    #[trigger] out@[k],
                ),
        decreases points.len() - i,
    {
        let (x, y) = points[i];
        let v = (*project)(x, y);
        out.push(v);
        i += 1;
    }
    out
}

impl Bucket {
    /// Gathers the primitives of a tile, whose points `project` takes to the ground, and counts
    /// those that have two vertices or more.
    pub fn add_tile<F: Fn(i16, i16) -> Vertex>(
        &mut self,
        info: &TileInfo,
        prims: &Vec<Primitive>,
        project: F,
    ) -> (kept: usize)
        requires
            old(self).wf(),
            forall|x: i16, y: i16| #[trigger] call_requires(project, (x, y)),
        ensures
            final(self).wf(),
            tile_gathered(
                info.deep_view(),
                prims.deep_view(),
                project,
                old(self).deep_view(),
                final(self).deep_view(),
                kept as nat,
            ),
    {
        let ghost was = self.deep_view();
        let ghost iv = info.deep_view();
        let ghost pv = prims.deep_view();
        let ghost mut vss: Seq<Seq<Vertex>> = Seq::empty();
        let mut kept: usize = 0;
        let mut i: usize = 0;
        proof {
            law_together_identity(was);
            assert(tile_run(iv, pv, vss) =~= Seq::empty());
        }
        while i < prims.len()
            invariant
                i <= prims.len(),
                kept <= i,
                self.wf(),
                forall|x: i16, y: i16| #[trigger] call_requires(project, (x, y)),
                iv == info.deep_view(),
                pv == prims.deep_view(),
                vss.len() == i,
                forall|k: int|
                    0 <= k < vss.len() ==> projected(project, pv[k].points, #[trigger] vss[k]),
                self.deep_view() == together(was, gathered(tile_run(iv, pv, vss))),
                kept == kept_of(pv, vss),
            decreases prims.len() - i,
        {
            let p = &prims[i];
            assert(pv[i as int] == p.deep_view());
            let vs = project_all(&p.points, &project);
            let counts = self.add(info, p, &vs);
            proof {
                let before = vss;
                let run = tile_run(iv, pv, vss);
                vss = vss.push(vs@);
                assert(vss.drop_last() =~= before);
                let next = tile_run(iv, pv, vss);
                assert(next.drop_last() =~= run);
                assert(next.last() == (iv, pv[i as int], vs@));
                law_together_associative(was, gathered(run), share(iv, pv[i as int], vs@));
                assert forall|k: int| 0 <= k < vss.len() implies projected(
                    project,
                    pv[k].points,
                    #[trigger] vss[k],
                ) by {
                    if k < i {
                        assert(vss[k] == before[k]);
                    }
                }
            }
            if counts {
                kept += 1;
            }
            i += 1;
        }
        assert(all_projected(project, pv, vss));
        kept
    }
}

/// The vertices of fragments, one fragment after the other.
pub open spec fn strung(fs: Seq<Seq<Vertex>>) -> Seq<Vertex>
    decreases fs.len(),
{
    if fs.len() == 0 {
        Seq::empty()
    } else {
        strung(fs.drop_last()) + fs.last()
    }
}

proof fn lemma_twos_strung(p: Seq<Vertex>, n: int)
    requires
        0 <= n <= p.len() / 2,
    ensures
        strung(twos(p).take(n)) == p.take(2 * n),
    decreases n,
{
    let t = twos(p).take(n);
    if n > 0 {
        lemma_twos_strung(p, n - 1);
        assert(t.drop_last() =~= twos(p).take(n - 1));
        assert(p.take(2 * n) =~= p.take(2 * (n - 1)) + seq![p[2 * n - 2], p[2 * n - 1]]);
    } else {
        assert(p.take(0) =~= Seq::empty());
    }
}

/// No vertex is lost or repeated in the fragments of a primitive. A disjoint polyline gives
/// fragments of two vertices which, put one after the other, are its vertices in order, all but
/// a last one without a partner; any other primitive is one fragment.
pub proof fn law_fragments_are_the_vertices(shape: u8, p: Seq<Vertex>)
    ensures
        shape == 2 ==> strung(fragments(shape, p)) == p.take(p.len() - p.len() % 2),
        shape == 2 ==> forall|i: int|
            0 <= i < fragments(shape, p).len() ==> (#[trigger] fragments(shape, p)[i]).len() == 2,
        shape != 2 ==> fragments(shape, p).len() == 1 && strung(fragments(shape, p)) == p,
{
    let f = fragments(shape, p);
    if shape == 2 {
        let n = (p.len() / 2) as int;
        lemma_twos_strung(p, n);
        assert(twos(p).take(n) =~= twos(p));
        assert(2 * n == p.len() - p.len() % 2);
    } else {
        assert(f.drop_last() =~= Seq::empty());
        assert(strung(f.drop_last()) =~= Seq::empty());
        assert(strung(f) =~= p);
    }
}

/// The vertices of a geometry, line by line.
pub open spec fn geom_vertices(g: GeomView) -> Seq<Vertex> {
    match g {
        GeomView::Line(p) => p,
        GeomView::Multi(ps) => strung(ps),
        GeomView::Poly(p) => p,
    }
}

/// A shape that belongs to no feature is drawn with its own vertices: a disjoint polyline as
/// lines of two vertices each, a polygon of three vertices or more as such, a smaller one not at
/// all, and anything else as a line.
pub proof fn law_unnamed_shape_keeps_vertices(shape: u8, p: Seq<Vertex>)
    ensures
        shape_of(shape, p) is None <==> shape == 7 && p.len() < 3,
        shape_of(shape, p) matches Some(g) ==> {
            &&& geom_vertices(g) == if shape == 2 {
                p.take(p.len() - p.len() % 2)
            } else {
                p
            }
            &&& g is Multi <==> shape == 2
            &&& g is Poly <==> shape == 7
            &&& g matches GeomView::Multi(ls) ==> forall|i: int|
                0 <= i < ls.len() ==> (#[trigger] ls[i]).len() == 2
        },
{
    law_fragments_are_the_vertices(2, p);
}

/// Whether vertices are some of others, in their order: the `k`th is the one at the `k`th place.
pub open spec fn picked(p: Seq<Vertex>, at: Seq<int>, d: Seq<Vertex>) -> bool {
    &&& at.len() == d.len()
    &&& forall|k: int| 0 <= k < at.len() ==> 0 <= (#[trigger] at[k]) < p.len() && p[at[k]] == d[k]
    &&& forall|j: int, k: int| 0 <= j < k < at.len() ==> (#[trigger] at[j]) < (#[trigger] at[k])
}

/// Leaving out repeated vertices keeps the course of a line: what is left are vertices of the
/// line in their order, the first among them, and every vertex lies where one that is left does.
pub proof fn law_dedup_keeps_course(p: Seq<Vertex>)
    ensures
        exists|at: Seq<int>| picked(p, at, deduped(p)),
        p.len() > 0 ==> deduped(p).len() > 0 && deduped(p)[0] == p[0],
        forall|i: int|
            0 <= i < p.len() ==> exists|k: int|
                0 <= k < deduped(p).len() && (deduped(p)[k] == #[trigger] p[i] || (equal(
                    (#[trigger] deduped(p)[k]).x,
                    p[i].x,
                ) && equal(deduped(p)[k].y, p[i].y))),
    decreases p.len(),
{
    let d = deduped(p);
    if p.len() == 0 {
        assert(picked(p, Seq::empty(), d));
    } else {
        let q = p.drop_last();
        let e = deduped(q);
        law_dedup_keeps_course(q);
        let at = choose|at: Seq<int>| picked(q, at, e);
        if d == e {
            assert(picked(p, at, d));
        } else {
            let now = at.push(p.len() - 1);
            assert forall|k: int| 0 <= k < now.len() implies 0 <= (#[trigger] now[k]) < p.len()
                && p[now[k]] == d[k] by {
                if k < at.len() {
                    assert(now[k] == at[k]);
                }
            }
            assert forall|j: int, k: int| 0 <= j < k < now.len() implies (#[trigger] now[j]) < (
            #[trigger] now[k]) by {
                assert(now[j] == at[j]);
                if k < at.len() {
                    assert(now[k] == at[k]);
                }
            }
            assert(picked(p, now, d));
        }
        assert forall|i: int| 0 <= i < p.len() implies exists|k: int|
            0 <= k < d.len() && (d[k] == #[trigger] p[i] || (equal((#[trigger] d[k]).x, p[i].x)
                && equal(d[k].y, p[i].y))) by {
            if i < q.len() {
                assert(q[i] == p[i]);
                let k = choose|k: int|
                    0 <= k < e.len() && (e[k] == q[i] || (equal((#[trigger] e[k]).x, q[i].x) && equal(
                        e[k].y,
                        q[i].y,
                    )));
                assert(d[k] == e[k]);
            } else {
                assert(d[d.len() - 1] == d.last());
            }
        }
    }
}

/// What a feature is known by when it was gathered twice: the specification and the source of
/// the first that has one, the first of the two grid squares and facets, the latest date, and
/// all fragments.
pub proof fn law_joined_attributes(a: AccView, b: AccView)
    ensures
        ({
            let j = joined(a, b);
            &&& j.frags == a.frags + b.frags
            &&& a.tip is Some ==> j.tip == a.tip
            &&& a.tip is None ==> j.tip == b.tip
            &&& a.src is Some ==> j.src == a.src
            &&& a.src is None ==> j.src == b.src
            &&& j.square == a.square || j.square == b.square
            &&& !text_lt(a.square, j.square) && !text_lt(b.square, j.square)
            &&& j.facet == a.facet || j.facet == b.facet
            &&& !text_lt(a.facet, j.facet) && !text_lt(b.facet, j.facet)
            &&& j.date == a.date || j.date == b.date
            &&& a.date matches Some(x) ==> j.date matches Some(z) && !text_lt(z, x)
            &&& b.date matches Some(y) ==> j.date matches Some(z) && !text_lt(z, y)
        }),
{
    lemma_text_total(a.square, b.square);
    lemma_text_total(b.square, b.square);
    lemma_text_total(a.facet, b.facet);
    lemma_text_total(b.facet, b.facet);
    match (a.date, b.date) {
        (Some(x), Some(y)) => {
            lemma_text_total(x, y);
            lemma_text_total(y, y);
        },
        (Some(x), None) => {
            lemma_text_total(x, x);
        },
        (None, Some(y)) => {
            lemma_text_total(y, y);
        },
        (None, None) => {},
    }
}

/// A primitive of two vertices or more that belongs to a feature is gathered under its
/// identifier and layer alone, and the row of that feature carries what the primitive and its
/// tile say.
pub proof fn law_named_primitive_reaches_its_row(
    info: TileInfoView,
    prim: PrimitiveView,
    vertices: Seq<Vertex>,
    f: Seq<char>,
)
    requires
        prim.fid == Some(f),
        prim.shape == 2 ==> vertices.len() >= 2,
        prim.shape != 2 ==> deduped(vertices).len() >= 2,
    ensures
        ({
            let b = share(info, prim, vertices);
            let k = (f, prim.layer);
            &&& b.unnamed.len() == 0
            &&& forall|q: Key| #[trigger] b.named.contains_key(q) <==> q == k
            &&& strung(b.named[k].frags) == if prim.shape == 2 {
                vertices.take(vertices.len() - vertices.len() % 2)
            } else {
                deduped(vertices)
            }
            &&& named_row(k, b.named[k]) matches Some(r) ==> {
                &&& r.fid == prim.fid
                &&& r.layer == prim.layer
                &&& r.tip == prim.tip
                &&& r.square == info.square
                &&& r.facet == info.facet
                &&& r.src == info.src
                &&& r.date == info.date
                &&& r.year is None
            }
        }),
{
    law_fragments_are_the_vertices(prim.shape, outline(prim.shape, vertices));
}

/// A primitive that belongs to no feature is one row, which carries what the primitive and its
/// tile say; it is none where it has fewer than two vertices, or is a polygon of two.
pub proof fn law_unnamed_primitive_reaches_its_row(
    info: TileInfoView,
    prim: PrimitiveView,
    vertices: Seq<Vertex>,
)
    requires
        prim.fid is None,
    ensures
        ({
            let p = if prim.shape == 2 {
                vertices
            } else {
                deduped(vertices)
            };
            let rows = rows_of(share(info, prim, vertices), Seq::empty());
            &&& rows.len() == if p.len() < 2 || (prim.shape == 7 && p.len() < 3) {
                0int
            } else {
                1
            }
            &&& rows.len() == 1 ==> {
                let r = rows[0];
                &&& r.fid is None
                &&& r.layer == prim.layer
                &&& r.tip == prim.tip
                &&& r.square == info.square
                &&& r.facet == info.facet
                &&& r.src == info.src
                &&& r.date == info.date
                &&& r.year is None
                &&& geom_vertices(r.geom) == if prim.shape == 2 {
                    p.take(p.len() - p.len() % 2)
                } else {
                    p
                }
            }
        }),
{
    law_unnamed_shape_keeps_vertices(prim.shape, outline(prim.shape, vertices));
}

/// A primitive of fewer than two vertices adds nothing.
pub proof fn law_point_adds_nothing(
    b: BucketView,
    info: TileInfoView,
    prim: PrimitiveView,
    vertices: Seq<Vertex>,
)
    requires
        prim.shape == 2 ==> vertices.len() < 2,
        prim.shape != 2 ==> deduped(vertices).len() < 2,
    ensures
        together(b, share(info, prim, vertices)) == b,
{
    law_together_identity(b);
}

/// A feature that both buckets hold is joined, every other stays as it was, and the unnamed
/// shapes of the first come before those of the second.
pub proof fn law_together_keeps_all(a: BucketView, b: BucketView, k: Key)
    ensures
        ({
            let t = together(a, b);
            &&& t.named.contains_key(k) <==> a.named.contains_key(k) || b.named.contains_key(k)
            &&& a.named.contains_key(k) && b.named.contains_key(k) ==> t.named[k].frags
                == a.named[k].frags + b.named[k].frags
            &&& a.named.contains_key(k) && !b.named.contains_key(k) ==> t.named[k] == a.named[k]
            &&& !a.named.contains_key(k) && b.named.contains_key(k) ==> t.named[k] == b.named[k]
            &&& t.unnamed == a.unnamed + b.unnamed
        }),
{
}

/// The geometry of stitched lines is those lines: none, one, or several.
pub proof fn law_geometry_is_the_lines(l: Seq<Seq<Vertex>>)
    ensures
        match lines_geom(l) {
            None => l.len() == 0,
            Some(GeomView::Line(p)) => l == seq![p],
            Some(GeomView::Multi(ps)) => l.len() >= 2 && l == ps,
            Some(GeomView::Poly(_)) => false,
        },
{
    if l.len() == 1 {
        assert(l =~= seq![l[0]]);
    }
}

/// The rows of a bucket end with its unnamed shapes, in the order in which they were drawn.
pub proof fn law_unnamed_rows_come_last(b: BucketView, order: Seq<Key>, i: int)
    requires
        0 <= i < b.unnamed.len(),
    ensures
        ({
            let rows = rows_of(b, order);
            let r = rows[rows.len() - b.unnamed.len() + i];
            let u = b.unnamed[i];
            &&& rows.len() >= b.unnamed.len()
            &&& r.fid is None && r.year is None
            &&& r.layer == u.layer && r.tip == u.tip && r.square == u.square
            &&& r.facet == u.facet && r.src == u.src && r.date == u.date && r.geom == u.geom
        }),
{
}

/// As many primitives of a tile count as have two vertices or more.
pub proof fn law_kept_counts_the_drawn(prims: Seq<PrimitiveView>, vss: Seq<Seq<Vertex>>)
    requires
        prims.len() >= vss.len(),
    ensures
        kept_of(prims, vss) <= vss.len(),
        kept_of(prims, vss) == vss.len() <==> forall|i: int|
            0 <= i < vss.len() ==> (if prims[i].shape == 2 {
                #[trigger] vss[i]
            } else {
                deduped(vss[i])
            }).len() >= 2,
        kept_of(prims, vss) == 0 <==> forall|i: int|
            0 <= i < vss.len() ==> (if prims[i].shape == 2 {
                #[trigger] vss[i]
            } else {
                deduped(vss[i])
            }).len() < 2,
    decreases vss.len(),
{
    if vss.len() > 0 {
        let q = vss.drop_last();
        let n = vss.len() - 1;
        law_kept_counts_the_drawn(prims, q);
        assert(vss[n] == vss.last());
        assert forall|i: int| 0 <= i < n implies #[trigger] q[i] == vss[i] by {}
        let last = if prims[n].shape == 2 {
            vss[n]
        } else {
            deduped(vss[n])
        };
        if kept_of(prims, vss) == vss.len() {
            assert forall|i: int| 0 <= i < vss.len() implies (if prims[i].shape == 2 {
                #[trigger] vss[i]
            } else {
                deduped(vss[i])
            }).len() >= 2 by {
                if i < n {
                    assert(q[i] == vss[i]);
                }
            }
        }
        if kept_of(prims, vss) == 0 {
            assert forall|i: int| 0 <= i < vss.len() implies (if prims[i].shape == 2 {
                #[trigger] vss[i]
            } else {
                deduped(vss[i])
            }).len() < 2 by {
                if i < n {
                    assert(q[i] == vss[i]);
                }
            }
        }
    }
}

proof fn lemma_last_place(p: Seq<Vertex>)
    requires
        p.len() > 0,
    ensures
        ({
            let d = deduped(p);
            &&& d.len() > 0
            &&& d.last() == p.last() || (equal(d.last().x, p.last().x) && equal(d.last().y, p.last().y))
        }),
{
}

/// A vertex is left out where it lies at the place of the vertex before it, and nowhere else; a
/// line that comes back to a place later keeps both vertices.
pub proof fn law_only_repeats_are_left_out(p: Seq<Vertex>, v: Vertex)
    requires
        p.len() > 0,
    ensures
        equal(p.last().x, v.x) && equal(p.last().y, v.y) ==> deduped(p.push(v)) == deduped(p),
        !(equal(p.last().x, v.x) && equal(p.last().y, v.y)) ==> deduped(p.push(v)) == deduped(
            p,
        ).push(v),
        deduped(seq![v]) == seq![v],
{
    lemma_last_place(p);
    assert(p.push(v).drop_last() =~= p);
    assert(seq![v].drop_last() =~= Seq::empty());
    assert(deduped(Seq::empty()) =~= Seq::empty());
    assert(deduped(seq![v]) =~= seq![v]);
}

/// The row of a named feature draws the lines that its fragments are stitched into: one as a
/// line, several together, and a feature without any has no row.
pub proof fn law_named_row_draws_its_lines(k: Key, a: AccView)
    ensures
        ({
            let l = merged(a.frags);
            &&& l.len() == 0 <==> named_row(k, a) is None
            &&& l.len() == 1 ==> (named_row(k, a)->0).geom == GeomView::Line(l[0])
            &&& l.len() > 1 ==> (named_row(k, a)->0).geom == GeomView::Multi(l)
            &&& l.len() > 0 ==> (named_row(k, a)->0).fid == Some(k.0) && (named_row(k, a)->0).layer
                == k.1
        }),
{
}

/// The rows of the named features come in the order in which the features are listed.
pub proof fn law_named_rows_come_as_listed(named: Map<Key, AccView>, order: Seq<Key>, k: Key)
    ensures
        merged(named[k].frags).len() == 0 ==> named_rows(named, order.push(k)) == named_rows(
            named,
            order,
        ),
        merged(named[k].frags).len() > 0 ==> {
            let rows = named_rows(named, order.push(k));
            &&& rows.drop_last() == named_rows(named, order)
            &&& rows.len() == named_rows(named, order).len() + 1
            &&& rows.last().fid == Some(k.0)
            &&& rows.last().layer == k.1
            &&& rows.last().tip == named[k].tip
            &&& rows.last().square == named[k].square
            &&& rows.last().facet == named[k].facet
            &&& rows.last().src == named[k].src
            &&& rows.last().date == named[k].date
        },
{
    assert(order.push(k).drop_last() =~= order);
    if merged(named[k].frags).len() > 0 {
        assert(named_rows(named, order.push(k)).drop_last() =~= named_rows(named, order));
    }
}

/// A tile's vertices are where its points are taken to, point by point and primitive by
/// primitive.
pub proof fn law_vertices_are_the_projected_points<F: Fn(i16, i16) -> Vertex>(
    project: F,
    prims: Seq<PrimitiveView>,
    vss: Seq<Seq<Vertex>>,
    i: int,
    k: int,
)
    requires
        all_projected(project, prims, vss),
        0 <= i < prims.len(),
        0 <= k < prims[i].points.len(),
    ensures
        vss.len() == prims.len(),
        vss[i].len() == prims[i].points.len(),
        call_ensures(project, (prims[i].points[k].0, prims[i].points[k].1), vss[i][k]),
{
    assert(projected(project, prims[i].points, vss[i]));
}

/// A tile's primitives are gathered in order, each with its own vertices and what the tile says
/// of itself.
pub proof fn law_tile_is_gathered_in_order(
    info: TileInfoView,
    prims: Seq<PrimitiveView>,
    vss: Seq<Seq<Vertex>>,
    v: Seq<Vertex>,
)
    requires
        prims.len() > vss.len(),
    ensures
        ({
            let n = vss.len() as int;
            gathered(tile_run(info, prims, vss.push(v))) == together(
                gathered(tile_run(info, prims, vss)),
                share(info, prims[n], v),
            )
        }),
        kept_of(prims, vss.push(v)) == kept_of(prims, vss) + (if (if prims[vss.len() as int].shape == 2 {
            v
        } else {
            deduped(v)
        }).len() >= 2 {
            1nat
        } else {
            0nat
        }),
{
    let run = tile_run(info, prims, vss.push(v));
    assert(run.drop_last() =~= tile_run(info, prims, vss));
    assert(vss.push(v).drop_last() =~= vss);
}

/// Gathering a tile adds its primitives with the vertices that their points are taken to, keeps
/// every feature that was there, and leaves the unnamed shapes that were there first.
pub proof fn law_tile_adds_its_primitives<F: Fn(i16, i16) -> Vertex>(
    info: TileInfoView,
    prims: Seq<PrimitiveView>,
    project: F,
    was: BucketView,
    now: BucketView,
    kept: nat,
    k: Key,
)
    requires
        tile_gathered(info, prims, project, was, now, kept),
    ensures
        exists|vss: Seq<Seq<Vertex>>| #[trigger]
            all_projected(project, prims, vss) && kept == kept_of(prims, vss) && now == together(
                was,
                gathered(tile_run(info, prims, vss)),
            ),
        kept <= prims.len(),
        was.named.contains_key(k) ==> now.named.contains_key(k),
        now.unnamed.len() >= was.unnamed.len(),
        now.unnamed.take(was.unnamed.len() as int) == was.unnamed,
{
    let vss = choose|vss: Seq<Seq<Vertex>>| #[trigger]
        all_projected(project, prims, vss) && now == together(
            was,
            gathered(tile_run(info, prims, vss)),
        ) && kept == kept_of(prims, vss);
    law_kept_counts_the_drawn(prims, vss);
    assert(now.unnamed.take(was.unnamed.len() as int) =~= was.unnamed);
}

} // verus!
