//! One tile: its header, and the walk over its application structures.
use vstd::prelude::*;
use vstd::slice::*;
use vstd::string::*;
use vstd::utf8::*;
use crate::cgm::{be_i16, command, deob, draws, ends, extent, find, find_start, first_at, fits, keyword, keyword_of, latin, latin1, lemma_command, lemma_first_at, lemma_run_end, occurs, params, points, printable, pts, read_cmd, readable, run_end, runs, runs_from, slices, start, vdc_extent, Cmd, APS_BEGIN, APS_END, DISJOINT, END_META, END_PIC, POLYGON, POLYLINE};
use crate::config::{Aps, Keep};
use crate::number::{first_two_bytes, float_text, is_float, two_bytes};
use crate::pattern::{bytes_regex_captures_all, bytes_regex_compiles, BytesPattern};
use crate::text::{chars_of, contains, holds, law_first_piece, law_last_piece, pieces, same, split, stands_at, strip_end, strip_start, text_of, trim, trim_end, trim_start, trimmed, Class};
use crate::vocab::{lookup, Vocab};

verus! {

/// An open application structure: its type, the layer it belongs to, and the identifier
/// and specification that it was given.
pub struct Frame {
    pub kind: String,
    pub layer: Option<String>,
    pub name: Option<String>,
    pub tip: Option<String>,
}

/// The contents of a frame.
pub struct FrameView {
    pub kind: Seq<char>,
    pub layer: Option<Seq<char>>,
    pub name: Option<Seq<char>>,
    pub tip: Option<Seq<char>>,
}

impl DeepView for Frame {
    type V = FrameView;

    open spec fn deep_view(&self) -> FrameView {
        FrameView {
            kind: self.kind@,
            layer: self.layer.deep_view(),
            name: self.name.deep_view(),
            tip: self.tip.deep_view(),
        }
    }
}

/// A drawn primitive of a kept layer, in the tile's own coordinates.
pub struct Primitive {
    pub shape: u8,
    pub layer: String,
    pub fid: Option<String>,
    pub tip: Option<String>,
    pub points: Vec<(i16, i16)>,
}

/// The contents of a primitive.
pub struct PrimitiveView {
    pub shape: u8,
    pub layer: Seq<char>,
    pub fid: Option<Seq<char>>,
    pub tip: Option<Seq<char>>,
    pub points: Seq<(i16, i16)>,
}

impl DeepView for Primitive {
    type V = PrimitiveView;

    open spec fn deep_view(&self) -> PrimitiveView {
        PrimitiveView {
            shape: self.shape,
            layer: self.layer@,
            fid: self.fid.deep_view(),
            tip: self.tip.deep_view(),
            points: self.points@,
        }
    }
}

/// The frame that a begun structure opens.
pub open spec fn opened(par: Seq<u8>) -> FrameView {
    FrameView {
        kind: match keyword(par) {
            Some(t) => t,
            None => seq!['?'],
        },
        layer: None,
        name: None,
        tip: None,
    }
}

/// The name of an attribute: its first run, without marks and then white space around it.
pub open spec fn attribute_name(run: Seq<u8>) -> Seq<char> {
    trimmed(strip_end(latin(run), Class::Mark))
}

/// The value of an attribute: its second run.
pub open spec fn attribute_value(r: Seq<Seq<u8>>) -> Option<Seq<char>> {
    if r.len() > 1 {
        Some(latin(r[1]))
    } else {
        None
    }
}

/// A frame with the layer's name, if it is a layer frame.
pub open spec fn with_layer(f: FrameView, v: Option<Seq<char>>, a: Aps) -> FrameView {
    if f.kind == a.layer@ {
        FrameView { layer: v, ..f }
    } else {
        f
    }
}

/// The frames after an attribute: a layer's name goes to every open layer frame, an
/// identifier or specification to the innermost frame.
pub open spec fn attributed(stack: Seq<FrameView>, r: Seq<Seq<u8>>, a: Aps) -> Seq<FrameView> {
    if r.len() == 0 || stack.len() == 0 {
        stack
    } else {
        let k = attribute_name(r[0]);
        let v = attribute_value(r);
        let n = stack.len() - 1;
        if k == a.layer_attr@ {
            stack.map_values(|f: FrameView| with_layer(f, v, a))
        } else if k == a.id_attr@ {
            stack.update(n, FrameView { name: v, ..stack[n] })
        } else if k == a.spec_attr@ {
            stack.update(n, FrameView { tip: v, ..stack[n] })
        } else {
            stack
        }
    }
}

/// The layer in effect: that of the innermost frame that has one.
pub open spec fn layer_in_effect(stack: Seq<FrameView>) -> Option<Seq<char>>
    decreases stack.len(),
{
    if stack.len() == 0 {
        None
    } else if stack.last().layer is Some {
        stack.last().layer
    } else {
        layer_in_effect(stack.drop_last())
    }
}

/// The innermost feature frame.
pub open spec fn feature_frame(stack: Seq<FrameView>, a: Aps) -> Option<FrameView>
    decreases stack.len(),
{
    if stack.len() == 0 {
        None
    } else if stack.last().kind == a.feature@ {
        Some(stack.last())
    } else {
        feature_frame(stack.drop_last(), a)
    }
}

/// Whether a layer is kept.
pub open spec fn layer_kept(layer: Seq<char>, keep: Keep) -> bool {
    exists|i: int|
        0 <= i < keep.layer_contains@.len() && holds(layer, #[trigger] keep.layer_contains@[i]@)
}

/// The name of a layer as it is written out.
pub open spec fn clean_layer(layer: Seq<char>, a: Aps) -> Seq<char> {
    if a.strip_layer_prefix {
        strip_start(layer, Class::NotLetter)
    } else {
        layer
    }
}

/// Whether an identifier stands for none.
pub open spec fn no_id(name: Seq<char>, a: Aps) -> bool {
    name.len() == 0 || exists|i: int| 0 <= i < a.id_null@.len() && #[trigger] a.id_null@[i]@ == name
}

/// The identifier of the feature that is being drawn.
pub open spec fn feature_id(frame: Option<FrameView>, a: Aps) -> Option<Seq<char>> {
    match frame {
        Some(f) => match f.name {
            Some(n) => if no_id(n, a) {
                None
            } else {
                Some(n)
            },
            None => None,
        },
        None => None,
    }
}

/// The primitive that a drawing command yields, if its layer is kept.
pub open spec fn drawn(stack: Seq<FrameView>, c: Cmd, par: Seq<u8>, a: Aps, keep: Keep) -> Option<
    PrimitiveView,
> {
    match layer_in_effect(stack) {
        Some(l) => if draws(c) && layer_kept(l, keep) {
            let f = feature_frame(stack, a);
            Some(
                PrimitiveView {
                    shape: c.id,
                    layer: clean_layer(l, a),
                    fid: feature_id(f, a),
                    tip: match f {
                        Some(f) => f.tip,
                        None => None,
                    },
                    points: points(par),
                },
            )
        } else {
            None
        },
        None => None,
    }
}

/// What a command does: the frames that are open after it, and the primitive it draws.
/// Nothing where it ends the picture.
pub open spec fn step(stack: Seq<FrameView>, c: Cmd, par: Seq<u8>, a: Aps, keep: Keep) -> Option<
    (Seq<FrameView>, Option<PrimitiveView>),
> {
    if c.class == 0 && c.id == APS_BEGIN {
        Some((stack.push(opened(par)), None))
    } else if c.class == 0 && c.id == APS_END {
        Some(
            (
                if stack.len() > 0 {
                    stack.drop_last()
                } else {
                    stack
                },
                None,
            ),
        )
    } else if ends(c) {
        None
    } else if c.class == 9 && c.id == 1 {
        Some((attributed(stack, runs_from(par, 0), a), None))
    } else {
        Some((stack, drawn(stack, c, par, a, keep)))
    }
}

/// The primitives of the kept layers, in the order in which they are drawn.
pub open spec fn walked(d: Seq<u8>, p: int, stack: Seq<FrameView>, a: Aps, keep: Keep) -> Seq<
    PrimitiveView,
>
    decreases d.len() - p + 2,
    when fits(d)
    via walked_ends
{
    match command(d, p) {
        None => Seq::empty(),
        Some(c) => match step(stack, c, params(d, c), a, keep) {
            None => Seq::empty(),
            Some((next, prim)) => match prim {
                Some(x) => seq![x] + walked(d, c.next as int, next, a, keep),
                None => walked(d, c.next as int, next, a, keep),
            },
        },
    }
}

#[via_fn]
proof fn walked_ends(d: Seq<u8>, p: int, stack: Seq<FrameView>, a: Aps, keep: Keep) {
    lemma_command(d, p);
}

fn open_frame(par: &[u8]) -> (r: Frame)
    ensures
        r.deep_view() == opened(par@),
{
    let kind = match keyword_of(par) {
        Some(t) => t,
        None => {
            let mut q = String::new();
            q.push('?');
            assert(q@ =~= seq!['?']);
            q
        },
    };
    Frame { kind, layer: None, name: None, tip: None }
}

fn name_layers(stack: &mut Vec<Frame>, v: &Option<String>, a: &Aps)
    ensures
        final(stack).deep_view() == old(stack).deep_view().map_values(
            |f: FrameView| with_layer(f, v.deep_view(), *a),
        ),
{
    let ghost before = stack.deep_view();
    let ghost after = before.map_values(|f: FrameView| with_layer(f, v.deep_view(), *a));
    let mut i: usize = 0;
    while i < stack.len()
        invariant
            i <= stack.len() == before.len(),
            after == before.map_values(|f: FrameView| with_layer(f, v.deep_view(), *a)),
            forall|k: int|
                0 <= k < stack.len() ==> (#[trigger] stack@[k]).deep_view() == if k < i {
                    after[k]
                } else {
                    before[k]
                },
        decreases stack.len() - i,
    {
        if same(stack[i].kind.as_str(), a.layer.as_str()) {
            stack[i].layer = v.clone();
        }
        i += 1;
    }
    assert(stack.deep_view() =~= after);
}

fn set_attribute(stack: &mut Vec<Frame>, par: &[u8], a: &Aps)
    ensures
        final(stack).deep_view() == attributed(old(stack).deep_view(), runs_from(par@, 0), *a),
{
    let ghost before = stack.deep_view();
    let r = runs(par);
    if r.len() == 0 || stack.len() == 0 {
        return;
    }
    assert(slices(r@)[0] == r@[0]@);
    let k = latin1(r[0]);
    let k = trim_end(k.as_str(), Class::Mark);
    let k = trim(k.as_str());
    let v = if r.len() > 1 {
        assert(slices(r@)[1] == r@[1]@);
        Some(latin1(r[1]))
    } else {
        None
    };
    let n = stack.len() - 1;
    assert(before[n as int] == stack@[n as int].deep_view());
    if same(k.as_str(), a.layer_attr.as_str()) {
        name_layers(stack, &v, a);
    } else if same(k.as_str(), a.id_attr.as_str()) {
        let ghost val = v.deep_view();
        stack[n].name = v;
        assert(stack.deep_view() =~= before.update(
            n as int,
            FrameView { name: val, ..before[n as int] },
        ));
    } else if same(k.as_str(), a.spec_attr.as_str()) {
        let ghost val = v.deep_view();
        stack[n].tip = v;
        assert(stack.deep_view() =~= before.update(
            n as int,
            FrameView { tip: val, ..before[n as int] },
        ));
    }
}

fn effective_layer(stack: &Vec<Frame>) -> (r: Option<&String>)
    ensures
        layer_in_effect(stack.deep_view()) == (match r {
            Some(l) => Some(l@),
            None => None,
        }),
{
    let ghost s = stack.deep_view();
    let mut n = stack.len();
    assert(s.take(n as int) =~= s);
    while n > 0
        invariant
            n <= stack.len(),
            s == stack.deep_view(),
            layer_in_effect(s) == layer_in_effect(s.take(n as int)),
        decreases n,
    {
        assert(s.take(n as int).last() == stack@[n - 1].deep_view());
        assert(s.take(n as int).drop_last() =~= s.take(n - 1));
        match &stack[n - 1].layer {
            Some(l) => {
                return Some(l);
            },
            None => {},
        }
        n -= 1;
    }
    None
}

fn innermost_feature(stack: &Vec<Frame>, a: &Aps) -> (r: Option<usize>)
    ensures
        match r {
            Some(i) => i < stack.len() && feature_frame(stack.deep_view(), *a) == Some(
                stack@[i as int].deep_view(),
            ),
            None => feature_frame(stack.deep_view(), *a) is None,
        },
{
    let ghost s = stack.deep_view();
    let mut n = stack.len();
    assert(s.take(n as int) =~= s);
    while n > 0
        invariant
            n <= stack.len(),
            s == stack.deep_view(),
            feature_frame(s, *a) == feature_frame(s.take(n as int), *a),
        decreases n,
    {
        assert(s.take(n as int).last() == stack@[n - 1].deep_view());
        assert(s.take(n as int).drop_last() =~= s.take(n - 1));
        if same(stack[n - 1].kind.as_str(), a.feature.as_str()) {
            return Some(n - 1);
        }
        n -= 1;
    }
    None
}

/// Whether a layer is kept.
pub fn keeps_layer(layer: &str, keep: &Keep) -> (r: bool)
    ensures
        r == layer_kept(layer@, *keep),
{
    let mut i: usize = 0;
    while i < keep.layer_contains.len()
        invariant
            i <= keep.layer_contains.len(),
            forall|j: int| 0 <= j < i ==> !holds(layer@, #[trigger] keep.layer_contains@[j]@),
        decreases keep.layer_contains.len() - i,
    {
        if contains(layer, keep.layer_contains[i].as_str()) {
            return true;
        }
        i += 1;
    }
    false
}

fn is_no_id(name: &str, a: &Aps) -> (r: bool)
    ensures
        r == no_id(name@, *a),
{
    if name.is_empty() {
        return true;
    }
    let mut i: usize = 0;
    while i < a.id_null.len()
        invariant
            i <= a.id_null.len(),
            forall|j: int| 0 <= j < i ==> #[trigger] a.id_null@[j]@ != name@,
        decreases a.id_null.len() - i,
    {
        if same(a.id_null[i].as_str(), name) {
            return true;
        }
        i += 1;
    }
    false
}

fn draw(stack: &Vec<Frame>, c: &Cmd, par: &[u8], a: &Aps, keep: &Keep) -> (r: Option<Primitive>)
    ensures
        r.deep_view() == drawn(stack.deep_view(), *c, par@, *a, *keep),
{
    if !(c.class == 4 && (c.id == POLYLINE || c.id == DISJOINT || c.id == POLYGON)) {
        return None;
    }
    let l = match effective_layer(stack) {
        Some(l) => l,
        None => {
            return None;
        },
    };
    if !keeps_layer(l.as_str(), keep) {
        return None;
    }
    let layer = if a.strip_layer_prefix {
        trim_start(l.as_str(), Class::NotLetter)
    } else {
        l.clone()
    };
    let mut fid: Option<String> = None;
    let mut tip: Option<String> = None;
    match innermost_feature(stack, a) {
        Some(i) => {
            tip = stack[i].tip.clone();
            match &stack[i].name {
                Some(n) => {
                    if !is_no_id(n.as_str(), a) {
                        fid = Some(n.clone());
                    }
                },
                None => {},
            }
        },
        None => {},
    }
    Some(Primitive { shape: c.id, layer, fid, tip, points: pts(par) })
}

/// Walks the application structures from `start` on and collects what they draw on the
/// kept layers.
pub fn walk(d: &[u8], start: usize, a: &Aps, keep: &Keep) -> (r: Vec<Primitive>)
    requires
        fits(d@),
    ensures
        r.deep_view() == walked(d@, start as int, Seq::empty(), *a, *keep),
{
    let mut out: Vec<Primitive> = Vec::new();
    let mut stack: Vec<Frame> = Vec::new();
    let mut p = start;
    let ghost all = walked(d@, start as int, Seq::empty(), *a, *keep);
    assert(stack.deep_view() =~= Seq::empty());
    assert(out.deep_view() + all =~= all);
    loop
        invariant
            fits(d@),
            out.deep_view() + walked(d@, p as int, stack.deep_view(), *a, *keep) == all,
            all == walked(d@, start as int, Seq::empty(), *a, *keep),
        decreases d@.len() - p + 2,
    {
        proof {
            lemma_command(d@, p as int);
        }
        let ghost now = stack.deep_view();
        let c = match read_cmd(d, p) {
            Some(c) => c,
            None => {
                assert(out.deep_view() =~= all);
                return out;
            },
        };
        let par = slice_subrange(d, c.start, c.end);
        p = c.next;
        if c.class == 0 && c.id == APS_BEGIN {
            let f = open_frame(par);
            let ghost v = f.deep_view();
            stack.push(f);
            assert(stack.deep_view() =~= now.push(v));
        } else if c.class == 0 && c.id == APS_END {
            let _ = stack.pop();
            assert(stack.deep_view() =~= if now.len() > 0 {
                now.drop_last()
            } else {
                now
            });
        } else if c.class == 0 && (c.id == END_PIC || c.id == END_META) {
            assert(out.deep_view() =~= all);
            return out;
        } else if c.class == 9 && c.id == 1 {
            set_attribute(&mut stack, par, a);
        } else {
            match draw(&stack, &c, par, a, keep) {
                Some(x) => {
                    let ghost v = x.deep_view();
                    let ghost before = out.deep_view();
                    out.push(x);
                    assert(out.deep_view() =~= before.push(v));
                    let ghost rest = walked(d@, p as int, now, *a, *keep);
                    assert(out.deep_view() + rest =~= before + (seq![v] + rest));
                },
                None => {},
            }
        }
    }
}

/// Every primitive of a walk lies on a kept layer and is one of the three drawn shapes.
pub proof fn law_walk_keeps_only_kept(d: Seq<u8>, p: int, stack: Seq<FrameView>, a: Aps, keep: Keep, i: int)
    requires
        fits(d),
        0 <= i < walked(d, p, stack, a, keep).len(),
    ensures
        ({
            let x = walked(d, p, stack, a, keep)[i];
            &&& x.shape == POLYLINE || x.shape == DISJOINT || x.shape == POLYGON
            &&& exists|l: Seq<char>| #[trigger] layer_kept(l, keep) && x.layer == clean_layer(l, a)
            &&& x.fid matches Some(n) ==> !no_id(n, a)
        }),
    decreases d.len() - p + 2,
{
    lemma_command(d, p);
    let c = command(d, p)->0;
    let (next, prim) = step(stack, c, params(d, c), a, keep)->0;
    match prim {
        Some(x) => {
            if i > 0 {
                law_walk_keeps_only_kept(d, c.next as int, next, a, keep, i - 1);
            } else {
                assert(layer_kept(layer_in_effect(stack)->0, keep));
            }
        },
        None => {
            law_walk_keeps_only_kept(d, c.next as int, next, a, keep, i);
        },
    }
}

/// What a tile says of all it draws: its grid square, its facet, its source and its date.
pub struct TileInfo {
    pub square: String,
    pub facet: String,
    pub src: Option<String>,
    pub date: Option<String>,
}

/// The contents of a tile's information.
pub struct TileInfoView {
    pub square: Seq<char>,
    pub facet: Seq<char>,
    pub src: Option<Seq<char>>,
    pub date: Option<Seq<char>>,
}

impl DeepView for TileInfo {
    type V = TileInfoView;

    open spec fn deep_view(&self) -> TileInfoView {
        TileInfoView {
            square: self.square@,
            facet: self.facet@,
            src: self.src.deep_view(),
            date: self.date.deep_view(),
        }
    }
}

/// The texts of a tile's corners in the ground's coordinates; each is a number.
pub struct Bounds {
    pub xmin: String,
    pub ymin: String,
    pub xmax: String,
    pub ymax: String,
}

/// The texts of a tile's corners.
pub struct BoundsView {
    pub xmin: Seq<char>,
    pub ymin: Seq<char>,
    pub xmax: Seq<char>,
    pub ymax: Seq<char>,
}

impl DeepView for Bounds {
    type V = BoundsView;

    open spec fn deep_view(&self) -> BoundsView {
        BoundsView { xmin: self.xmin@, ymin: self.ymin@, xmax: self.xmax@, ymax: self.ymax@ }
    }
}

/// A tile that can be drawn: where it lies, the size of its coordinate space, what it says
/// of itself, and its primitives.
pub struct TileBody {
    pub bounds: Bounds,
    pub size: (i64, i64),
    pub info: TileInfo,
    pub prims: Vec<Primitive>,
}

/// What comes of reading a tile.
pub enum Parsed {
    /// No kept layer is named in it.
    Irrelevant,
    /// Its corners are missing or are no numbers.
    Unbounded,
    /// No picture body was found.
    Headless,
    /// The first two bytes of its facet end inside a character.
    SplitFacet,
    /// Its primitives.
    Tile(TileBody),
}

/// Whether the bytes of a text stand in the data. An empty text stands nowhere.
pub open spec fn names_bytes(d: Seq<u8>, t: Seq<char>) -> bool {
    t.len() > 0 && first_at(d, encode_utf8(t), 0) is Some
}

/// Whether a kept layer is named in a tile.
pub open spec fn relevant(d: Seq<u8>, keep: Keep) -> bool {
    exists|i: int|
        0 <= i < keep.layer_contains@.len() && names_bytes(d, #[trigger] keep.layer_contains@[i]@)
}

/// Whether a kept layer is named in a tile.
pub fn is_relevant(d: &[u8], keep: &Keep) -> (r: bool)
    ensures
        r == relevant(d@, *keep),
{
    let mut i: usize = 0;
    while i < keep.layer_contains.len()
        invariant
            i <= keep.layer_contains.len(),
            forall|j: int| 0 <= j < i ==> !names_bytes(d@, #[trigger] keep.layer_contains@[j]@),
        decreases keep.layer_contains.len() - i,
    {
        let t = keep.layer_contains[i].as_str();
        if !t.is_empty() {
            proof {
                lemma_encoded_not_empty(t@);
            }
            if find(d, t.as_bytes()).is_some() {
                return true;
            }
        }
        i += 1;
    }
    false
}

proof fn lemma_encoded_not_empty(t: Seq<char>)
    requires
        t.len() > 0,
    ensures
        encode_utf8(t).len() > 0,
{
    encode_utf8_decode_utf8(t);
    encode_utf8_decode_utf8(Seq::empty());
    if encode_utf8(t).len() == 0 {
        assert(encode_utf8(t) =~= encode_utf8(Seq::empty()));
    }
}

/// Whether a text is a stretch of printable bytes of the data.
spec fn spelled(d: Seq<u8>, t: Seq<char>) -> bool {
    exists|i: int, j: int| #[trigger] spells(d, i, j, t)
}

/// Whether the bytes from `i` to `j` of the data are printable and spell a text.
spec fn spells(d: Seq<u8>, i: int, j: int, t: Seq<char>) -> bool {
    &&& 0 <= i <= j <= d.len()
    &&& t == latin(d.subrange(i, j))
    &&& forall|k: int| i <= k < j ==> printable(#[trigger] d[k])
}

/// Where a run of printable bytes stands.
proof fn lemma_run_place(s: Seq<u8>, i: int, k: int) -> (r: (int, int))
    requires
        0 <= i,
        0 <= k < runs_from(s, i).len(),
    ensures
        0 <= r.0 <= r.1 <= s.len(),
        runs_from(s, i)[k] == s.subrange(r.0, r.1),
        forall|t: int| r.0 <= t < r.1 ==> printable(#[trigger] s[t]),
    decreases s.len() - i,
{
    if !printable(s[i]) {
        lemma_run_place(s, i + 1, k)
    } else {
        let j = run_end(s, i);
        lemma_run_end(s, i);
        lemma_run_end(s, i + 1);
        if j - i >= 2 {
            if k > 0 {
                lemma_run_place(s, j, k - 1)
            } else {
                (i, j)
            }
        } else {
            lemma_run_place(s, j, k)
        }
    }
}

/// A text within a spelled one stands in the data as its bytes.
proof fn lemma_spelled_bytes(d: Seq<u8>, t: Seq<char>, k: Seq<char>)
    requires
        spelled(d, t),
        holds(t, k),
        k.len() > 0,
    ensures
        names_bytes(d, k),
{
    let (i, j) = choose|i: int, j: int| #[trigger] spells(d, i, j, t);
    let p = choose|p: int| stands_at(t, k, p);
    let n = k.len() as int;
    assert forall|x: int| 0 <= x < n implies k[x] == d[i + p + x] as char && printable(d[i + p + x]) by {
        assert(k[x] == t[p + x]);
        assert(t[p + x] == d.subrange(i, j)[p + x] as char);
        assert(printable(d[i + p + x]));
    }
    let e = encode_utf8(k);
    assert(is_ascii_chars(k));
    is_ascii_chars_encode_utf8(k);
    assert(e =~= d.subrange(i + p, i + p + n)) by {
        assert forall|x: int| 0 <= x < n implies e[x] == d[i + p + x] by {
            assert(k[x] as u8 == e[x]);
        }
    }
    assert(occurs(d, e, i + p));
    lemma_first_at(d, e, 0);
}

proof fn lemma_nothing_drawn(d: Seq<u8>, p: int, stack: Seq<FrameView>, a: Aps, keep: Keep)
    requires
        fits(d),
        !relevant(d, keep),
        forall|i: int|
            0 <= i < keep.layer_contains@.len() ==> (#[trigger] keep.layer_contains@[i])@.len() > 0,
        forall|i: int|
            0 <= i < stack.len() ==> ((#[trigger] stack[i]).layer matches Some(l) ==> spelled(d, l)),
    ensures
        walked(d, p, stack, a, keep) == Seq::<PrimitiveView>::empty(),
    decreases d.len() - p + 2,
{
    lemma_command(d, p);
    match command(d, p) {
        None => {},
        Some(c) => {
            let par = params(d, c);
            match step(stack, c, par, a, keep) {
                None => {},
                Some((next, prim)) => {
                    let r = runs_from(par, 0);
                    assert forall|i: int| 0 <= i < next.len() implies ((#[trigger] next[i]).layer matches Some(
                        l,
                    ) ==> spelled(d, l)) by {
                        if r.len() > 1 {
                            let (x, y) = lemma_run_place(par, 0, 1);
                            let (u, v) = (c.start + x, c.start + y);
                            assert(r[1] =~= d.subrange(u, v));
                            assert forall|k: int| u <= k < v implies printable(#[trigger] d[k]) by {
                                assert(par[k - c.start] == d[k]);
                            }
                            assert(spells(d, u, v, latin(r[1])));
                        }
                        if i < stack.len() {
                            assert(stack[i].layer matches Some(l) ==> spelled(d, l));
                        }
                    }
                    lemma_in_effect(d, stack);
                    if prim is Some {
                        let l = layer_in_effect(stack)->0;
                        let i = choose|i: int|
                            0 <= i < keep.layer_contains@.len() && holds(
                                l,
                                #[trigger] keep.layer_contains@[i]@,
                            );
                        lemma_spelled_bytes(d, l, keep.layer_contains@[i]@);
                    }
                    lemma_nothing_drawn(d, c.next as int, next, a, keep);
                },
            }
        },
    }
}

proof fn lemma_in_effect(d: Seq<u8>, stack: Seq<FrameView>)
    requires
        forall|i: int|
            0 <= i < stack.len() ==> ((#[trigger] stack[i]).layer matches Some(l) ==> spelled(d, l)),
    ensures
        layer_in_effect(stack) matches Some(l) ==> spelled(d, l),
    decreases stack.len(),
{
    if stack.len() > 0 {
        assert(stack[stack.len() - 1] == stack.last());
        lemma_in_effect(d, stack.drop_last());
    }
}

/// Passing over a tile that names no kept layer loses nothing: wherever its body may start,
/// nothing of it would be kept. An empty text, which every layer contains, is no name.
pub proof fn law_irrelevant_draws_nothing(d: Seq<u8>, s: int, a: Aps, keep: Keep)
    requires
        fits(d),
        !relevant(d, keep),
        forall|i: int|
            0 <= i < keep.layer_contains@.len() ==> (#[trigger] keep.layer_contains@[i])@.len() > 0,
    ensures
        walked(d, s, Seq::empty(), a, keep) == Seq::<PrimitiveView>::empty(),
{
    lemma_nothing_drawn(d, s, Seq::empty(), a, keep);
}

/// The key and value of one match of the header expression: its first two groups.
pub open spec fn meta_entry(groups: Seq<Option<Seq<u8>>>) -> Option<(Seq<char>, Seq<char>)> {
    if groups.len() > 2 && groups[1] is Some && groups[2] is Some {
        Some((latin(groups[1]->0), latin(groups[2]->0)))
    } else {
        None
    }
}

/// The header's entries: of several with one key, the last.
pub open spec fn meta_table(found: Seq<Seq<Option<Seq<u8>>>>) -> Map<Seq<char>, Seq<char>>
    decreases found.len(),
{
    if found.len() == 0 {
        Map::empty()
    } else {
        let m = meta_table(found.drop_last());
        match meta_entry(found.last()) {
            Some((k, v)) => m.insert(k, v),
            None => m,
        }
    }
}

/// The expression of a header entry, `"key:value"`.
pub fn meta_pattern() -> (r: Option<BytesPattern>)
    ensures
        r is Some == bytes_regex_compiles("\"(\\w+):([^\"]*)\""@),
        r matches Some(p) ==> p@ == "\"(\\w+):([^\"]*)\""@,
{
    BytesPattern::new("\"(\\w+):([^\"]*)\"")
}

/// Enters the matches of the header expression into a table.
pub fn read_meta(found: &Vec<Vec<Option<Vec<u8>>>>) -> (r: Vocab)
    ensures
        r@ == meta_table(found.deep_view()),
{
    let ghost f = found.deep_view();
    let mut out = Vocab::new();
    let mut i: usize = 0;
    while i < found.len()
        invariant
            i <= found.len(),
            f == found.deep_view(),
            out@ == meta_table(f.take(i as int)),
        decreases found.len() - i,
    {
        assert(f.take(i + 1).drop_last() =~= f.take(i as int));
        assert(f.take(i + 1).last() == found@[i as int].deep_view());
        let g = &found[i];
        if g.len() > 2 {
            match (&g[1], &g[2]) {
                (Some(k), Some(v)) => {
                    assert(k.deep_view() =~= k@);
                    assert(v.deep_view() =~= v@);
                    out.insert(latin1(k.as_slice()), latin1(v.as_slice()));
                },
                _ => {},
            }
        }
        i += 1;
    }
    assert(f.take(i as int) =~= f);
    out
}

/// The text of a header entry that is a number.
pub open spec fn number_entry(m: Map<Seq<char>, Seq<char>>, k: Seq<char>) -> Option<Seq<char>> {
    match lookup(m, k) {
        Some(v) => if is_float(v) {
            Some(v)
        } else {
            None
        },
        None => None,
    }
}

/// The corners of a tile, if the header gives all four as numbers.
pub open spec fn corners(m: Map<Seq<char>, Seq<char>>) -> Option<BoundsView> {
    match (
        number_entry(m, "Xmin"@),
        number_entry(m, "Ymin"@),
        number_entry(m, "Xmax"@),
        number_entry(m, "Ymax"@),
    ) {
        (Some(xmin), Some(ymin), Some(xmax), Some(ymax)) => Some(
            BoundsView { xmin, ymin, xmax, ymax },
        ),
        _ => None,
    }
}

fn read_number(meta: &Vocab, k: &str) -> (r: Option<String>)
    ensures
        r.deep_view() == number_entry(meta@, k@),
{
    match meta.copied(k) {
        Some(v) => {
            if float_text(v.as_str()) {
                Some(v)
            } else {
                None
            }
        },
        None => None,
    }
}

/// Reads the corners of a tile from its header.
pub fn read_bounds(meta: &Vocab) -> (r: Option<Bounds>)
    ensures
        r.deep_view() == corners(meta@),
        r matches Some(b) ==> {
            &&& b.xmin@ == meta@["Xmin"@]
            &&& b.ymin@ == meta@["Ymin"@]
            &&& b.xmax@ == meta@["Xmax"@]
            &&& b.ymax@ == meta@["Ymax"@]
        },
{
    match (
        read_number(meta, "Xmin"),
        read_number(meta, "Ymin"),
        read_number(meta, "Xmax"),
        read_number(meta, "Ymax"),
    ) {
        (Some(xmin), Some(ymin), Some(xmax), Some(ymax)) => Some(
            Bounds { xmin, ymin, xmax, ymax },
        ),
        _ => None,
    }
}

/// The grid square of a tile: a part of its path or, where the path is too short, the first
/// two bytes of its facet. Nothing where those end inside a character.
pub open spec fn square_of(name: Seq<char>, index: int, facet: Seq<char>) -> Option<Seq<char>> {
    let parts = pieces(name, Class::Is('/'));
    match two_bytes(facet) {
        None => None,
        Some(t) => if 0 <= index < parts.len() {
            Some(parts[index])
        } else {
            Some(t)
        },
    }
}

/// Finds the grid square of a tile.
pub fn square(name: &str, index: usize, facet: &str) -> (r: Option<String>)
    ensures
        r.deep_view() == square_of(name@, index as int, facet@),
{
    match first_two_bytes(facet) {
        None => None,
        Some(t) => {
            let parts = split(name, Class::Is('/'));
            if index < parts.len() {
                assert(parts.deep_view()[index as int] == parts@[index as int]@);
                Some(parts[index].clone())
            } else {
                Some(t)
            }
        },
    }
}

/// The last of a path's parts that names something: neither nothing nor a dot.
pub open spec fn last_part(ps: Seq<Seq<char>>) -> Seq<char>
    decreases ps.len(),
{
    if ps.len() == 0 {
        Seq::empty()
    } else if ps.last().len() == 0 || ps.last() == "."@ {
        last_part(ps.drop_last())
    } else {
        ps.last()
    }
}

/// Where the last dot of a text stands; -1 where it has none.
pub open spec fn last_dot(s: Seq<char>) -> int
    decreases s.len(),
{
    if s.len() == 0 {
        -1
    } else if s.last() == '.' {
        s.len() - 1
    } else {
        last_dot(s.drop_last())
    }
}

/// The stem of a path: of the last part between slashes that names something, what stands
/// before its last dot. A dot that comes first ends no stem, and two dots name no file.
pub open spec fn stem_text(name: Seq<char>) -> Seq<char> {
    let file = last_part(pieces(name, Class::Is('/')));
    if file == ".."@ {
        Seq::empty()
    } else if last_dot(file) <= 0 {
        file
    } else {
        file.take(last_dot(file))
    }
}

fn stem_of_file(file: &str) -> (r: String)
    ensures
        r@ == if last_dot(file@) <= 0 {
            file@
        } else {
            file@.take(last_dot(file@))
        },
{
    let c = chars_of(file);
    let mut n = c.len();
    assert(c@.take(n as int) =~= c@);
    while n > 0 && c[n - 1] != '.'
        invariant
            n <= c.len(),
            c@ == file@,
            last_dot(file@) == last_dot(c@.take(n as int)),
        decreases n,
    {
        assert(c@.take(n as int).drop_last() =~= c@.take(n - 1));
        n -= 1;
    }
    if n > 1 {
        assert(c@.subrange(0, n - 1) =~= file@.take(n - 1));
        text_of(&c, 0, n - 1)
    } else {
        file.to_owned()
    }
}

/// The stem of a path.
pub fn stem_of(name: &str) -> (r: String)
    ensures
        r@ == stem_text(name@),
{
    let ps = split(name, Class::Is('/'));
    let ghost v = ps.deep_view();
    let mut n = ps.len();
    assert(v.take(n as int) =~= v);
    while n > 0 && (ps[n - 1].as_str().is_empty() || same(ps[n - 1].as_str(), "."))
        invariant
            n <= ps.len(),
            v == ps.deep_view(),
            last_part(v) == last_part(v.take(n as int)),
        decreases n,
    {
        assert(v.take(n as int).drop_last() =~= v.take(n - 1));
        assert(v.take(n as int).last() == ps@[n - 1]@);
        n -= 1;
    }
    proof {
        reveal_strlit("..");
    }
    if n == 0 {
        let none = String::new();
        assert(none@ =~= last_part(v));
        return none;
    }
    assert(v.take(n as int).last() == ps@[n - 1]@);
    if same(ps[n - 1].as_str(), "..") {
        let none = String::new();
        assert(none@ =~= Seq::empty());
        return none;
    }
    stem_of_file(ps[n - 1].as_str())
}

/// The facet of a tile: what its header says, or else the stem of its file's name.
pub open spec fn facet_of(m: Map<Seq<char>, Seq<char>>, stem: Seq<char>) -> Seq<char> {
    match lookup(m, "Facet"@) {
        Some(f) => f,
        None => stem,
    }
}

/// What a tile says of itself, given its header, its path and which part of the path is the
/// grid square.
pub open spec fn info_of(
    m: Map<Seq<char>, Seq<char>>,
    name: Seq<char>,
    index: int,
) -> Option<TileInfoView> {
    let facet = facet_of(m, stem_text(name));
    match square_of(name, index, facet) {
        Some(square) => Some(
            TileInfoView { square, facet, src: lookup(m, "Source"@), date: lookup(m, "Date"@) },
        ),
        None => None,
    }
}

/// Reads what a tile says of itself.
pub fn read_info(meta: &Vocab, name: &str, index: usize) -> (r: Option<TileInfo>)
    ensures
        r.deep_view() == info_of(meta@, name@, index as int),
{
    let facet = match meta.copied("Facet") {
        Some(f) => f,
        None => stem_of(name),
    };
    match square(name, index, facet.as_str()) {
        Some(sq) => Some(
            TileInfo { square: sq, facet, src: meta.copied("Source"), date: meta.copied("Date") },
        ),
        None => None,
    }
}

/// What comes of reading a tile with the given header entries whose body starts at `s`, if
/// anywhere.
pub open spec fn outcome_from(
    d: Seq<u8>,
    s: Option<int>,
    m: Map<Seq<char>, Seq<char>>,
    name: Seq<char>,
    index: int,
    a: Aps,
    keep: Keep,
    r: Parsed,
) -> bool {
    match r {
        Parsed::Irrelevant => false,
        Parsed::Unbounded => corners(m) is None,
        Parsed::Headless => corners(m) is Some && s is None,
        Parsed::SplitFacet => {
            &&& corners(m) is Some
            &&& s is Some
            &&& info_of(m, name, index) is None
        },
        Parsed::Tile(t) => {
            &&& corners(m) == Some(t.bounds.deep_view())
            &&& (t.size.0 as int, t.size.1 as int) == extent(readable(d), 0)
            &&& t.size.0 > 0 && t.size.1 > 0
            &&& info_of(m, name, index) == Some(t.info.deep_view())
            &&& s matches Some(s) && t.prims.deep_view() == walked(d, s, Seq::empty(), a, keep)
        },
    }
}

/// What comes of reading a tile with the given header entries.
pub open spec fn outcome(
    d: Seq<u8>,
    m: Map<Seq<char>, Seq<char>>,
    name: Seq<char>,
    index: int,
    a: Aps,
    keep: Keep,
    r: Parsed,
) -> bool {
    if relevant(d, keep) {
        outcome_from(d, start(d, readable(d), a), m, name, index, a, keep, r)
    } else {
        r is Irrelevant
    }
}

/// Reads the header and the body of a tile whose body starts at `s`, if anywhere.
pub fn parse_from(
    d: &[u8],
    db: &Vec<u8>,
    s: Option<usize>,
    meta: &Vocab,
    name: &str,
    index: usize,
    a: &Aps,
    keep: &Keep,
) -> (r: Parsed)
    requires
        fits(d@),
        db@ == readable(d@),
    ensures
        outcome_from(
            d@,
            match s {
                Some(s) => Some(s as int),
                None => None,
            },
            meta@,
            name@,
            index as int,
            *a,
            *keep,
            r,
        ),
{
    let bounds = match read_bounds(meta) {
        Some(b) => b,
        None => {
            return Parsed::Unbounded;
        },
    };
    let size = vdc_extent(db.as_slice());
    let s = match s {
        Some(s) => s,
        None => {
            return Parsed::Headless;
        },
    };
    let info = match read_info(meta, name, index) {
        Some(i) => i,
        None => {
            return Parsed::SplitFacet;
        },
    };
    let prims = walk(d, s, a, keep);
    Parsed::Tile(TileBody { bounds, size, info, prims })
}

/// Reads a tile whose header entries are known.
pub fn parse_with(
    d: &[u8],
    db: &Vec<u8>,
    meta: &Vocab,
    name: &str,
    index: usize,
    a: &Aps,
    keep: &Keep,
) -> (r: Parsed)
    requires
        fits(d@),
        db@ == readable(d@),
    ensures
        outcome(d@, meta@, name@, index as int, *a, *keep, r),
{
    if !is_relevant(d, keep) {
        return Parsed::Irrelevant;
    }
    let s = find_start(d, db.as_slice(), a);
    parse_from(d, db, s, meta, name, index, a, keep)
}

/// Reads a tile: its header by the expression `entry`, and then its body.
pub fn parse_tile(
    d: &[u8],
    entry: &BytesPattern,
    name: &str,
    index: usize,
    a: &Aps,
    keep: &Keep,
) -> (r: Parsed)
    requires
        fits(d@),
    ensures
        outcome(
            d@,
            meta_table(bytes_regex_captures_all(entry@, readable(d@))),
            name@,
            index as int,
            *a,
            *keep,
            r,
        ),
{
    if !is_relevant(d, keep) {
        return Parsed::Irrelevant;
    }
    let db = deob(d);
    let meta = read_meta(&entry.captures_all(db.as_slice()));
    parse_with(d, &db, &meta, name, index, a, keep)
}

/// Each side of a tile's bounds is the text of the header entry of that name, and a tile has
/// bounds exactly where the header gives a number under all four names.
pub proof fn law_bounds_are_the_header_entries(m: Map<Seq<char>, Seq<char>>)
    ensures
        corners(m) matches Some(b) ==> {
            &&& b.xmin == m["Xmin"@]
            &&& b.ymin == m["Ymin"@]
            &&& b.xmax == m["Xmax"@]
            &&& b.ymax == m["Ymax"@]
        },
        corners(m) is Some <==> {
            &&& m.contains_key("Xmin"@) && is_float(m["Xmin"@])
            &&& m.contains_key("Ymin"@) && is_float(m["Ymin"@])
            &&& m.contains_key("Xmax"@) && is_float(m["Xmax"@])
            &&& m.contains_key("Ymax"@) && is_float(m["Ymax"@])
        },
{
}

/// Changing one entry of the header changes that side of the bounds alone.
pub proof fn law_bounds_follow_their_entry(m: Map<Seq<char>, Seq<char>>, v: Seq<char>)
    requires
        corners(m) is Some,
        is_float(v),
    ensures
        corners(m.insert("Xmin"@, v)) == Some(BoundsView { xmin: v, ..corners(m)->0 }),
        corners(m.insert("Ymin"@, v)) == Some(BoundsView { ymin: v, ..corners(m)->0 }),
        corners(m.insert("Xmax"@, v)) == Some(BoundsView { xmax: v, ..corners(m)->0 }),
        corners(m.insert("Ymax"@, v)) == Some(BoundsView { ymax: v, ..corners(m)->0 }),
{
    lemma_side_names();
}

proof fn lemma_side_names()
    ensures
        "Xmin"@ != "Ymin"@,
        "Xmin"@ != "Xmax"@,
        "Xmin"@ != "Ymax"@,
        "Ymin"@ != "Xmax"@,
        "Ymin"@ != "Ymax"@,
        "Xmax"@ != "Ymax"@,
{
    reveal_strlit("Xmin");
    reveal_strlit("Ymin");
    reveal_strlit("Xmax");
    reveal_strlit("Ymax");
    assert("Xmin"@[0] == 'X' && "Ymin"@[0] == 'Y' && "Xmax"@[0] == 'X' && "Ymax"@[0] == 'Y');
    assert("Xmin"@[2] == 'i' && "Ymin"@[2] == 'i' && "Xmax"@[2] == 'a' && "Ymax"@[2] == 'a');
}

/// Whether the `i`th match of the header expression is an entry of this key and value.
pub open spec fn entry_at(
    found: Seq<Seq<Option<Seq<u8>>>>,
    i: int,
    k: Seq<char>,
    v: Seq<char>,
) -> bool {
    &&& 0 <= i < found.len()
    &&& found[i].len() > 2
    &&& found[i][1] matches Some(a) && latin(a) == k
    &&& found[i][2] matches Some(b) && latin(b) == v
}

/// A header's table holds what its matches say: under a key stands the value of the last match
/// that has it, and a key that no match has is not there.
pub proof fn law_last_header_entry_counts(found: Seq<Seq<Option<Seq<u8>>>>, k: Seq<char>)
    ensures
        meta_table(found).contains_key(k) <==> exists|i: int, v: Seq<char>| entry_at(found, i, k, v),
        meta_table(found).contains_key(k) ==> exists|i: int| #[trigger]
            entry_at(found, i, k, meta_table(found)[k]) && forall|j: int, v: Seq<char>|
                i < j ==> !(#[trigger] entry_at(found, j, k, v)),
    decreases found.len(),
{
    if found.len() > 0 {
        let d = found.drop_last();
        let n = found.len() - 1;
        law_last_header_entry_counts(d, k);
        assert(found[n] == found.last());
        assert forall|i: int, v: Seq<char>| i < n implies #[trigger] entry_at(found, i, k, v)
            == entry_at(d, i, k, v) by {
            if 0 <= i {
                assert(found[i] == d[i]);
            }
        }
        let now = meta_table(found);
        if now.contains_key(k) {
            if exists|v: Seq<char>| entry_at(found, n, k, v) {
                let v = choose|v: Seq<char>| entry_at(found, n, k, v);
                assert(now[k] == v);
                assert(entry_at(found, n, k, now[k]));
            } else {
                assert(meta_table(d).contains_key(k) && meta_table(d)[k] == now[k]) by {
                    match meta_entry(found.last()) {
                        Some((a, b)) => {
                            if a == k {
                                assert(entry_at(found, n, k, b));
                            }
                        },
                        None => {},
                    }
                }
                let i = choose|i: int| #[trigger]
                    entry_at(d, i, k, now[k]) && forall|j: int, v: Seq<char>|
                        i < j ==> !(#[trigger] entry_at(d, j, k, v));
                assert(entry_at(found, i, k, now[k]));
                assert forall|j: int, v: Seq<char>| i < j implies !(#[trigger] entry_at(
                    found,
                    j,
                    k,
                    v,
                )) by {
                    if j < n {
                        assert(!entry_at(d, j, k, v));
                    }
                }
            }
        }
        if exists|i: int, v: Seq<char>| entry_at(found, i, k, v) {
            let (i, v) = choose|i: int, v: Seq<char>| entry_at(found, i, k, v);
            if i < n {
                assert(entry_at(d, i, k, v));
            }
        }
    }
}

/// What a tile says of itself is what its header says under `Facet`, `Source` and `Date`; the
/// grid square is the part of its path at the given place.
pub proof fn law_tile_info_is_the_header(
    m: Map<Seq<char>, Seq<char>>,
    name: Seq<char>,
    index: int,
    t: TileInfoView,
)
    requires
        info_of(m, name, index) == Some(t),
    ensures
        m.contains_key("Facet"@) ==> t.facet == m["Facet"@],
        !m.contains_key("Facet"@) ==> t.facet == stem_text(name),
        m.contains_key("Source"@) ==> t.src == Some(m["Source"@]),
        !m.contains_key("Source"@) ==> t.src is None,
        m.contains_key("Date"@) ==> t.date == Some(m["Date"@]),
        !m.contains_key("Date"@) ==> t.date is None,
        0 <= index < pieces(name, Class::Is('/')).len() ==> t.square == pieces(
            name,
            Class::Is('/'),
        )[index],
        index >= pieces(name, Class::Is('/')).len() ==> Some(t.square) == two_bytes(t.facet),
{
}

/// The layer in effect is that of a frame above which no frame has one.
pub proof fn law_innermost_layer_counts(stack: Seq<FrameView>)
    ensures
        match layer_in_effect(stack) {
            Some(l) => exists|i: int|
                0 <= i < stack.len() && (#[trigger] stack[i]).layer == Some(l) && forall|j: int|
                    i < j < stack.len() ==> (#[trigger] stack[j]).layer is None,
            None => forall|j: int| 0 <= j < stack.len() ==> (#[trigger] stack[j]).layer is None,
        },
    decreases stack.len(),
{
    if stack.len() > 0 {
        let n = stack.len() - 1;
        let d = stack.drop_last();
        assert(stack[n] == stack.last());
        if stack.last().layer is None {
            law_innermost_layer_counts(d);
            match layer_in_effect(stack) {
                Some(l) => {
                    let i = choose|i: int|
                        0 <= i < d.len() && (#[trigger] d[i]).layer == Some(l) && forall|j: int|
                            i < j < d.len() ==> (#[trigger] d[j]).layer is None;
                    assert(stack[i] == d[i]);
                    assert forall|j: int| i < j < stack.len() implies (#[trigger] stack[j]).layer is None by {
                        if j < n {
                            assert(d[j] == stack[j]);
                        }
                    }
                },
                None => {
                    assert forall|j: int| 0 <= j < stack.len() implies (#[trigger] stack[j]).layer is None by {
                        if j < n {
                            assert(d[j] == stack[j]);
                        }
                    }
                },
            }
        }
    }
}

/// The feature that is being drawn is the innermost frame of that kind.
pub proof fn law_innermost_feature_counts(stack: Seq<FrameView>, a: Aps)
    ensures
        match feature_frame(stack, a) {
            Some(f) => exists|i: int|
                0 <= i < stack.len() && (#[trigger] stack[i]) == f && f.kind == a.feature@
                    && forall|j: int|
                    i < j < stack.len() ==> (#[trigger] stack[j]).kind != a.feature@,
            None => forall|j: int| 0 <= j < stack.len() ==> (#[trigger] stack[j]).kind != a.feature@,
        },
    decreases stack.len(),
{
    if stack.len() > 0 {
        let n = stack.len() - 1;
        let d = stack.drop_last();
        assert(stack[n] == stack.last());
        if stack.last().kind != a.feature@ {
            law_innermost_feature_counts(d, a);
            match feature_frame(stack, a) {
                Some(f) => {
                    let i = choose|i: int|
                        0 <= i < d.len() && (#[trigger] d[i]) == f && f.kind == a.feature@
                            && forall|j: int|
                            i < j < d.len() ==> (#[trigger] d[j]).kind != a.feature@;
                    assert(stack[i] == d[i]);
                    assert forall|j: int| i < j < stack.len() implies (#[trigger] stack[j]).kind
                        != a.feature@ by {
                        if j < n {
                            assert(d[j] == stack[j]);
                        }
                    }
                },
                None => {
                    assert forall|j: int| 0 <= j < stack.len() implies (#[trigger] stack[j]).kind
                        != a.feature@ by {
                        if j < n {
                            assert(d[j] == stack[j]);
                        }
                    }
                },
            }
        }
    }
}

/// A command draws on the innermost layer, for the innermost feature: where the `i`th frame
/// gives the layer and the `k`th is the feature, what is drawn carries that layer, and that
/// feature's identifier and specification.
pub proof fn law_drawn_for_layer_and_feature(
    stack: Seq<FrameView>,
    c: Cmd,
    par: Seq<u8>,
    a: Aps,
    keep: Keep,
    i: int,
    k: int,
)
    requires
        0 <= i < stack.len(),
        stack[i].layer is Some,
        forall|j: int| i < j < stack.len() ==> (#[trigger] stack[j]).layer is None,
        0 <= k < stack.len(),
        stack[k].kind == a.feature@,
        forall|j: int| k < j < stack.len() ==> (#[trigger] stack[j]).kind != a.feature@,
        c.class == 4 && (c.id == 1 || c.id == 2 || c.id == 7),
        exists|n: int|
            0 <= n < keep.layer_contains@.len() && holds(
                stack[i].layer->0,
                #[trigger] keep.layer_contains@[n]@,
            ),
    ensures
        drawn(stack, c, par, a, keep) matches Some(p) && {
            &&& p.shape == c.id
            &&& a.strip_layer_prefix ==> p.layer == strip_start(stack[i].layer->0, Class::NotLetter)
            &&& !a.strip_layer_prefix ==> Some(p.layer) == stack[i].layer
            &&& p.tip == stack[k].tip
            &&& p.fid == stack[k].name || p.fid is None
            &&& p.fid is Some <==> (stack[k].name matches Some(n) && n.len() > 0 && forall|j: int|
                0 <= j < a.id_null@.len() ==> #[trigger] a.id_null@[j]@ != n)
            &&& p.points.len() == par.len() / 4
        },
{
    law_innermost_layer_counts(stack);
    law_innermost_feature_counts(stack, a);
    let l = layer_in_effect(stack);
    if l is None {
        assert(stack[i].layer is None);
    }
    let x = choose|x: int|
        0 <= x < stack.len() && (#[trigger] stack[x]).layer == l && forall|j: int|
            x < j < stack.len() ==> (#[trigger] stack[j]).layer is None;
    assert(x == i);
    let f = feature_frame(stack, a);
    if f is None {
        assert(stack[k].kind != a.feature@);
    }
    let y = choose|y: int|
        0 <= y < stack.len() && (#[trigger] stack[y]) == f->0 && (f->0).kind == a.feature@
            && forall|j: int| y < j < stack.len() ==> (#[trigger] stack[j]).kind != a.feature@;
    assert(y == k);
}

/// Nothing is drawn by other commands, outside a layer, or on a layer that is not kept.
pub proof fn law_nothing_else_is_drawn(
    stack: Seq<FrameView>,
    c: Cmd,
    par: Seq<u8>,
    a: Aps,
    keep: Keep,
)
    ensures
        drawn(stack, c, par, a, keep) is Some ==> {
            &&& c.class == 4 && (c.id == 1 || c.id == 2 || c.id == 7)
            &&& exists|i: int| 0 <= i < stack.len() && (#[trigger] stack[i]).layer is Some
            &&& exists|n: int|
                0 <= n < keep.layer_contains@.len() && holds(
                    layer_in_effect(stack)->0,
                    #[trigger] keep.layer_contains@[n]@,
                )
        },
{
    law_innermost_layer_counts(stack);
}

/// Structures nest: one that is begun and ended leaves the open frames as they were, and one
/// that is begun is the innermost, with the type that it names and nothing else.
pub proof fn law_structures_nest(
    stack: Seq<FrameView>,
    b: Cmd,
    e: Cmd,
    par: Seq<u8>,
    end: Seq<u8>,
    a: Aps,
    keep: Keep,
)
    requires
        b.class == 0 && b.id == 21,
        e.class == 0 && e.id == 23,
    ensures
        step(stack, b, par, a, keep) matches Some((open, prim)) && {
            &&& prim is None
            &&& open.len() == stack.len() + 1
            &&& open.take(stack.len() as int) == stack
            &&& open.last().layer is None && open.last().name is None && open.last().tip is None
            &&& runs_from(par, 0).len() > 1 ==> open.last().kind == latin(runs_from(par, 0)[1])
            &&& step(open, e, end, a, keep) == Some((stack, None::<PrimitiveView>))
        },
{
    let open = stack.push(opened(par));
    assert(open.take(stack.len() as int) =~= stack);
    assert(open.drop_last() =~= stack);
}

/// The end of a picture or of the metafile ends the walk, and only that does.
pub proof fn law_walk_ends_with_the_picture(
    stack: Seq<FrameView>,
    c: Cmd,
    par: Seq<u8>,
    a: Aps,
    keep: Keep,
)
    ensures
        step(stack, c, par, a, keep) is None <==> c.class == 0 && (c.id == 2 || c.id == 5),
{
}

/// An attribute sets what its name says and nothing else: a layer's name in every open layer
/// frame, an identifier or a specification in the innermost frame.
pub proof fn law_attribute_sets_its_field(
    stack: Seq<FrameView>,
    r: Seq<Seq<u8>>,
    a: Aps,
    i: int,
)
    requires
        r.len() > 1,
        0 <= i < stack.len(),
        a.layer_attr@ != a.id_attr@,
        a.layer_attr@ != a.spec_attr@,
        a.id_attr@ != a.spec_attr@,
    ensures
        ({
            let key = trimmed(strip_end(latin(r[0]), Class::Mark));
            let val = Some(latin(r[1]));
            let was = stack[i];
            let now = attributed(stack, r, a)[i];
            let inner = i == stack.len() - 1;
            &&& attributed(stack, r, a).len() == stack.len()
            &&& now.kind == was.kind
            &&& now.layer == if key == a.layer_attr@ && was.kind == a.layer@ {
                val
            } else {
                was.layer
            }
            &&& now.name == if key == a.id_attr@ && inner {
                val
            } else {
                was.name
            }
            &&& now.tip == if key == a.spec_attr@ && inner {
                val
            } else {
                was.tip
            }
        }),
{
}

/// Outside features what is drawn has neither identifier nor specification.
pub proof fn law_drawn_outside_features(
    stack: Seq<FrameView>,
    c: Cmd,
    par: Seq<u8>,
    a: Aps,
    keep: Keep,
)
    requires
        forall|j: int| 0 <= j < stack.len() ==> (#[trigger] stack[j]).kind != a.feature@,
    ensures
        drawn(stack, c, par, a, keep) matches Some(p) ==> p.fid is None && p.tip is None,
{
    law_innermost_feature_counts(stack, a);
}

/// What is drawn has the points of the command, in order: four bytes for each, two for either
/// coordinate.
pub proof fn law_drawn_has_the_points_of_its_command(
    stack: Seq<FrameView>,
    c: Cmd,
    par: Seq<u8>,
    a: Aps,
    keep: Keep,
    k: int,
)
    requires
        drawn(stack, c, par, a, keep) is Some,
        0 <= k < par.len() / 4,
    ensures
        ({
            let p = (drawn(stack, c, par, a, keep)->0).points;
            &&& p.len() == par.len() / 4
            &&& p[k] == points(par)[k]
            &&& p[k].0 == be_i16(par, 4 * k)
            &&& p[k].1 == be_i16(par, 4 * k + 2)
        }),
{
}

/// An attribute's command sets attributes and draws nothing; any other command but those that
/// begin or end something leaves the open frames as they are.
pub proof fn law_commands_do_one_thing(
    stack: Seq<FrameView>,
    c: Cmd,
    par: Seq<u8>,
    a: Aps,
    keep: Keep,
)
    ensures
        c.class == 9 && c.id == 1 ==> step(stack, c, par, a, keep) == Some(
            (attributed(stack, runs_from(par, 0), a), None::<PrimitiveView>),
        ),
        c.class == 4 ==> step(stack, c, par, a, keep) == Some(
            (stack, drawn(stack, c, par, a, keep)),
        ),
        c.class != 0 && c.class != 4 && !(c.class == 9 && c.id == 1) ==> step(
            stack,
            c,
            par,
            a,
            keep,
        ) == Some((stack, None::<PrimitiveView>)),
        c.class == 0 && c.id == 23 && stack.len() == 0 ==> step(stack, c, par, a, keep) == Some(
            (stack, None::<PrimitiveView>),
        ),
        c.class == 0 && c.id != 21 && c.id != 23 && c.id != 2 && c.id != 5 ==> step(
            stack,
            c,
            par,
            a,
            keep,
        ) == Some((stack, None::<PrimitiveView>)),
{
}

/// An attribute without a value takes away what its name says, and one without a name changes
/// nothing; neither does any attribute outside all structures.
pub proof fn law_attributes_without_a_value(stack: Seq<FrameView>, r: Seq<Seq<u8>>, a: Aps)
    ensures
        r.len() == 0 ==> attributed(stack, r, a) == stack,
        stack.len() == 0 ==> attributed(stack, r, a) == stack,
        r.len() == 1 && stack.len() > 0 && a.layer_attr@ != a.id_attr@ && trimmed(
            strip_end(latin(r[0]), Class::Mark),
        ) == a.id_attr@ ==> attributed(stack, r, a).last().name is None && attributed(
            stack,
            r,
            a,
        ).drop_last() == stack.drop_last(),
{
    if r.len() == 1 && stack.len() > 0 && a.layer_attr@ != a.id_attr@ && trimmed(
        strip_end(latin(r[0]), Class::Mark),
    ) == a.id_attr@ {
        assert(attributed(stack, r, a).drop_last() =~= stack.drop_last());
    }
}

/// What a command draws comes before all that is drawn behind it, and what a command leaves open
/// is open for those behind it.
pub proof fn law_drawn_in_order(d: Seq<u8>, p: int, stack: Seq<FrameView>, a: Aps, keep: Keep, c: Cmd)
    requires
        fits(d),
        command(d, p) == Some(c),
        step(stack, c, params(d, c), a, keep) is Some,
    ensures
        ({
            let (next, prim) = step(stack, c, params(d, c), a, keep)->0;
            let rest = walked(d, c.next as int, next, a, keep);
            &&& prim is None ==> walked(d, p, stack, a, keep) == rest
            &&& (prim matches Some(x) ==> walked(d, p, stack, a, keep).len() == rest.len() + 1
                && walked(d, p, stack, a, keep)[0] == x && walked(d, p, stack, a, keep).skip(1)
                == rest)
        }),
{
    let (next, prim) = step(stack, c, params(d, c), a, keep)->0;
    let rest = walked(d, c.next as int, next, a, keep);
    if prim is Some {
        assert(walked(d, p, stack, a, keep) =~= seq![prim->0] + rest);
        assert((seq![prim->0] + rest).skip(1) =~= rest);
    }
}

/// The stem of a path is its last part up to the last dot.
pub proof fn law_stem_of_a_path(dir: Seq<char>, base: Seq<char>, ext: Seq<char>)
    requires
        base.len() > 0,
        forall|i: int| 0 <= i < base.len() ==> #[trigger] base[i] != '/',
        base[0] != '.',
        forall|i: int| 0 <= i < ext.len() ==> #[trigger] ext[i] != '/' && ext[i] != '.',
    ensures
        stem_text(dir + seq!['/'] + (base + seq!['.'] + ext)) == base,
        stem_text(base + seq!['.'] + ext) == base,
{
    let file = base + seq!['.'] + ext;
    let name = dir + seq!['/'] + file;
    assert forall|i: int| 0 <= i < file.len() implies #[trigger] file[i] != '/' by {
        if i < base.len() {
            assert(file[i] == base[i]);
        } else if i > base.len() {
            assert(file[i] == ext[i - base.len() - 1]);
        }
    }
    law_last_piece(dir, '/', file);
    law_first_piece(file, '/', Seq::empty());
    lemma_last_dot(base, ext);
    reveal_strlit(".");
    reveal_strlit("..");
    assert(file[0] == base[0]);
    assert("."@[0] == '.' && ".."@[0] == '.');
    let ps = pieces(dir, Class::Is('/')).push(file);
    assert(ps.last() == file);
    assert(seq![file].last() == file);
    assert(file.take(base.len() as int) =~= base);
}

proof fn lemma_last_dot(base: Seq<char>, ext: Seq<char>)
    requires
        forall|i: int| 0 <= i < ext.len() ==> #[trigger] ext[i] != '.',
    ensures
        last_dot(base + seq!['.'] + ext) == base.len(),
    decreases ext.len(),
{
    let s = base + seq!['.'] + ext;
    if ext.len() == 0 {
        assert(s.last() == '.');
    } else {
        let d = ext.drop_last();
        assert forall|i: int| 0 <= i < d.len() implies #[trigger] d[i] != '.' by {
            assert(d[i] == ext[i]);
        }
        lemma_last_dot(base, d);
        assert(s.drop_last() =~= base + seq!['.'] + d);
        assert(s.last() == ext[ext.len() - 1]);
    }
}

/// A path's part without a dot is its own stem, and parts that name nothing are passed over.
pub proof fn law_stem_without_a_dot(dir: Seq<char>, base: Seq<char>)
    requires
        base.len() > 0,
        forall|i: int| 0 <= i < base.len() ==> #[trigger] base[i] != '/' && base[i] != '.',
    ensures
        stem_text(dir + seq!['/'] + base) == base,
        stem_text(dir + seq!['/'] + base + seq!['/']) == base,
{
    law_last_piece(dir, '/', base);
    let none = Seq::<char>::empty();
    law_last_piece(dir + seq!['/'] + base, '/', none);
    assert(dir + seq!['/'] + base + seq!['/'] + none =~= dir + seq!['/'] + base + seq!['/']);
    reveal_strlit(".");
    reveal_strlit("..");
    assert(base[0] != '.');
    assert("."@[0] == '.' && ".."@[0] == '.');
    lemma_no_dot(base);
    let p = pieces(dir, Class::Is('/')).push(base);
    assert(p.push(none).drop_last() =~= p);
    assert(last_part(p) == base);
    assert(last_part(p.push(none)) == last_part(p));
}

proof fn lemma_no_dot(s: Seq<char>)
    requires
        forall|i: int| 0 <= i < s.len() ==> #[trigger] s[i] != '.',
    ensures
        last_dot(s) == -1,
    decreases s.len(),
{
    if s.len() > 0 {
        let d = s.drop_last();
        assert forall|i: int| 0 <= i < d.len() implies #[trigger] d[i] != '.' by {
            assert(d[i] == s[i]);
        }
        assert(s[s.len() - 1] != '.');
        lemma_no_dot(d);
    }
}

/// A tile is relevant where the bytes of a kept text stand somewhere in it, and only there.
pub proof fn law_relevant_where_a_layer_is_named(d: Seq<u8>, keep: Keep, i: int, at: int)
    ensures
        0 <= i < keep.layer_contains@.len() && keep.layer_contains@[i]@.len() > 0 && 0 <= at && at
            + encode_utf8(keep.layer_contains@[i]@).len() <= d.len() && d.subrange(
            at,
            at + encode_utf8(keep.layer_contains@[i]@).len(),
        ) == encode_utf8(keep.layer_contains@[i]@) ==> relevant(d, keep),
        relevant(d, keep) ==> exists|n: int, k: int|
            #![trigger keep.layer_contains@[n], d[k]]
            0 <= n < keep.layer_contains@.len() && keep.layer_contains@[n]@.len() > 0 && 0 <= k
                && k + encode_utf8(keep.layer_contains@[n]@).len() <= d.len() && d.subrange(
                k,
                k + encode_utf8(keep.layer_contains@[n]@).len(),
            ) == encode_utf8(keep.layer_contains@[n]@),
{
    if 0 <= i < keep.layer_contains@.len() {
        lemma_first_at(d, encode_utf8(keep.layer_contains@[i]@), 0);
        if keep.layer_contains@[i]@.len() > 0 && occurs(d, encode_utf8(keep.layer_contains@[i]@), at) {
            assert(names_bytes(d, keep.layer_contains@[i]@));
        }
    }
    if relevant(d, keep) {
        let n = choose|n: int|
            0 <= n < keep.layer_contains@.len() && names_bytes(d, #[trigger] keep.layer_contains@[n]@);
        lemma_first_at(d, encode_utf8(keep.layer_contains@[n]@), 0);
        let k = first_at(d, encode_utf8(keep.layer_contains@[n]@), 0)->0;
        assert(occurs(d, encode_utf8(keep.layer_contains@[n]@), k));
        let b = d[k];
        assert(0 <= n < keep.layer_contains@.len() && 0 <= k);
    }
}

/// A tile that is read has the bounds and the texts of its header, the extent of its body and
/// what is drawn from its start on.
pub proof fn law_tile_has_its_parts(
    d: Seq<u8>,
    m: Map<Seq<char>, Seq<char>>,
    name: Seq<char>,
    index: int,
    a: Aps,
    keep: Keep,
    t: TileBody,
)
    requires
        outcome(d, m, name, index, a, keep, Parsed::Tile(t)),
    ensures
        relevant(d, keep),
        t.bounds.deep_view().xmin == m["Xmin"@],
        t.bounds.deep_view().ymin == m["Ymin"@],
        t.bounds.deep_view().xmax == m["Xmax"@],
        t.bounds.deep_view().ymax == m["Ymax"@],
        (t.size.0 as int, t.size.1 as int) == extent(readable(d), 0),
        m.contains_key("Facet"@) ==> t.info.deep_view().facet == m["Facet"@],
        start(d, readable(d), a) matches Some(s) && t.prims.deep_view() == walked(
            d,
            s,
            Seq::empty(),
            a,
            keep,
        ),
{
}

/// A tile without all four bounds is unbounded, and one that is not relevant is passed over
/// whatever else holds of it.
pub proof fn law_refused_tiles(
    d: Seq<u8>,
    m: Map<Seq<char>, Seq<char>>,
    name: Seq<char>,
    index: int,
    a: Aps,
    keep: Keep,
    r: Parsed,
)
    requires
        outcome(d, m, name, index, a, keep, r),
    ensures
        !relevant(d, keep) <==> r is Irrelevant,
        relevant(d, keep) && (!m.contains_key("Xmin"@) || !m.contains_key("Ymin"@)
            || !m.contains_key("Xmax"@) || !m.contains_key("Ymax"@)) ==> r is Unbounded,
        r is Unbounded ==> corners(m) is None,
        r is Headless ==> start(d, readable(d), a) is None,
        r is Tile ==> start(d, readable(d), a) is Some,
{
}

} // verus!
