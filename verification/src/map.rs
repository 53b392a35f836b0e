//! The cell-binned map layers.
use vstd::prelude::*;
use vstd::string::*;
use crate::bucket::{Row, RowView};
use crate::config::Tier;
use crate::geom::{contents, Geom, GeomView, Vertex};
use crate::label::{code_of, found_in, parse_tip, tier, tip_of};
use crate::number::{decimal_text, digits_of};
use crate::pattern::Pattern;
use crate::text::{borrowed, is_text, same, text_opt};
use crate::vocab::Vocab;
use crate::years::{stamped, Years};

verus! {

/// The materials of live mains, worst first. A segment's tone is the place of its material.
pub open spec fn materials() -> Seq<Seq<char>> {
    seq![
        "cast iron"@,
        "spun iron"@,
        "asbestos cement"@,
        "lead"@,
        "ductile iron"@,
        "steel"@,
        "pvc"@,
        "polyethylene"@,
    ]
}

/// The place of a text in a list, or the list's length.
pub open spec fn place(list: Seq<Seq<char>>, t: Seq<char>, i: int) -> int
    decreases list.len() - i,
{
    if i < 0 || i >= list.len() {
        list.len() as int
    } else if list[i] == t {
        i
    } else {
        place(list, t, i + 1)
    }
}

/// The tone of a material; 8 stands for an unknown one.
pub open spec fn tone_of(m: Option<Seq<char>>) -> int {
    match m {
        Some(m) => place(materials(), m, 0),
        None => 8,
    }
}

/// The tone of a material.
#[verifier::loop_isolation(false)]
pub fn tone(m: Option<&str>) -> (r: u8)
    ensures
        r == tone_of(match m {
            Some(m) => Some(m@),
            None => None,
        }),
        r <= 8,
{
    let names: [&str; 8] = [
        "cast iron",
        "spun iron",
        "asbestos cement",
        "lead",
        "ductile iron",
        "steel",
        "pvc",
        "polyethylene",
    ];
    match m {
        None => 8,
        Some(m) => {
            let mut i: usize = 0;
            while i < 8
                invariant
                    i <= 8,
                    forall|k: int| 0 <= k < 8 ==> (#[trigger] names@[k])@ == materials()[k],
                    place(materials(), m@, 0) == place(materials(), m@, i as int),
                decreases 8 - i,
            {
                if same(names[i], m) {
                    return i as u8;
                }
                i += 1;
            }
            8
        },
    }
}

/// The layer of the transmission network, which is drawn in a tone of its own at any time.
pub open spec fn transmission(layer: Seq<char>) -> bool {
    layer == "NTS"@
}

/// How a feature is drawn: its tone, the tone with the mark of live medium-pressure ductile
/// iron, and its year byte where that does not come from the table of years.
#[derive(Clone, Copy, PartialEq, Eq, Structural, Debug)]
pub struct Style {
    pub tone: u8,
    pub mark: u8,
    pub year: Option<u8>,
}

/// How a feature is drawn, given its layer, its material and the code of its tier.
pub open spec fn style_of(
    layer: Seq<char>,
    mat: Option<Seq<char>>,
    code: Option<Seq<char>>,
) -> Style {
    if transmission(layer) {
        Style { tone: 9, mark: 9, year: Some(0) }
    } else {
        let t = tone_of(mat);
        Style {
            tone: t as u8,
            mark: if mat == Some("ductile iron"@) && code == Some("mp"@) {
                (t + 128) as u8
            } else {
                t as u8
            },
            year: None,
        }
    }
}

/// Finds how a feature is drawn.
pub fn style(layer: &str, mat: Option<&str>, code: Option<&str>) -> (r: Style)
    ensures
        r == style_of(layer@, text_opt(mat), text_opt(code)),
{
    if same(layer, "NTS") {
        return Style { tone: 9, mark: 9, year: Some(0) };
    }
    let t = tone(mat);
    let live = is_text(mat, "ductile iron") && is_text(code, "mp");
    Style {
        tone: t,
        mark: if live {
            t + 128
        } else {
            t
        },
        year: None,
    }
}

/// By what features are drawn: the tiers, the expression that reads their specifications, and
/// the names of the materials.
pub struct Look {
    pub tiers: Option<Tier>,
    pub re: Option<Pattern>,
    pub mats: Vocab,
}

impl Look {
    /// The material of a feature.
    pub open spec fn material(&self, r: RowView) -> Option<Seq<char>> {
        match self.re {
            Some(p) => tip_of(found_in(r.tip, p@), self.mats@).mat,
            None => None,
        }
    }

    /// The code of a feature's tier.
    pub open spec fn code(&self, r: RowView) -> Option<Seq<char>> {
        match self.tiers {
            Some(t) => code_of(t.map@, r.layer),
            None => None,
        }
    }

    /// How a feature is drawn.
    pub open spec fn style_of_row(&self, r: RowView) -> Style {
        style_of(r.layer, self.material(r), self.code(r))
    }

    /// Finds how a feature is drawn.
    pub fn style_row(&self, r: &Row) -> (s: Style)
        ensures
            s == self.style_of_row(r.deep_view()),
    {
        let mat = match &self.re {
            Some(p) => parse_tip(borrowed(&r.tip), p, &self.mats).mat,
            None => None,
        };
        let code = match &self.tiers {
            Some(t) => match tier(t, r.layer.as_str()) {
                Some(x) => Some(x.code.as_str()),
                None => None,
            },
            None => None,
        };
        style(r.layer.as_str(), borrowed(&mat), code)
    }
}

/// The mark tells the tone and the live medium-pressure ductile iron apart: its high bit is
/// set for that alone, and what remains is the tone.
pub proof fn law_mark_keeps_tone(
    layer: Seq<char>,
    mat: Option<Seq<char>>,
    code: Option<Seq<char>>,
)
    ensures
        ({
            let s = style_of(layer, mat, code);
            &&& s.tone <= 9
            &&& s.mark % 128 == s.tone
            &&& s.mark >= 128 <==> !transmission(layer) && mat == Some("ductile iron"@) && code
                == Some("mp"@)
        }),
{
    match mat {
        Some(m) => {
            lemma_place(materials(), m, 0);
        },
        None => {},
    }
}

proof fn lemma_place(list: Seq<Seq<char>>, t: Seq<char>, i: int)
    requires
        0 <= i <= list.len(),
    ensures
        i <= place(list, t, i) <= list.len(),
    decreases list.len() - i,
{
    if i < list.len() {
        lemma_place(list, t, i + 1);
    }
}

/// The year byte of a segment: that of its style, or what is known of its tone at its middle.
pub open spec fn year_of_segment(s: Style, years: Map<u32, u8>, x: int, y: int) -> u8 {
    match s.year {
        Some(b) => b,
        None => stamped(years, x, y, s.tone),
    }
}

/// Finds the year byte of a segment.
pub fn segment_year(s: &Style, years: &Years, x: i64, y: i64) -> (r: u8)
    ensures
        r == year_of_segment(*s, years@, x as int, y as int),
{
    match s.year {
        Some(b) => b,
        None => years.stamp(x, y, s.tone),
    }
}

/// The lines of a geometry that are drawn: all but polygons and lines of one vertex.
pub open spec fn drawn_lines(g: GeomView) -> Seq<Seq<Vertex>> {
    match g {
        GeomView::Line(p) => long_lines(seq![p]),
        GeomView::Multi(ps) => long_lines(ps),
        GeomView::Poly(_) => Seq::empty(),
    }
}

/// The lines of two vertices or more.
pub open spec fn long_lines(ps: Seq<Seq<Vertex>>) -> Seq<Seq<Vertex>>
    decreases ps.len(),
{
    if ps.len() == 0 {
        Seq::empty()
    } else {
        let d = long_lines(ps.drop_last());
        if ps.last().len() >= 2 {
            d.push(ps.last())
        } else {
            d
        }
    }
}

/// The contents of a list of borrowed lines.
pub open spec fn borrowed_lines(v: Seq<&Vec<Vertex>>) -> Seq<Seq<Vertex>> {
    v.map_values(|l: &Vec<Vertex>| l@)
}

/// Lists the lines of a geometry that are drawn.
pub fn lines_to_draw(g: &Geom) -> (r: Vec<&Vec<Vertex>>)
    ensures
        borrowed_lines(r@) == drawn_lines(g.deep_view()),
{
    let mut out: Vec<&Vec<Vertex>> = Vec::new();
    assert(borrowed_lines(out@) =~= Seq::empty());
    match g {
        Geom::Line(p) => {
            reveal_with_fuel(long_lines, 2);
            assert(seq![p@].drop_last() =~= Seq::empty());
            if p.len() >= 2 {
                out.push(p);
                assert(borrowed_lines(out@) =~= seq![p@]);
                assert(drawn_lines(g.deep_view()) =~= seq![p@]);
            }
        },
        Geom::Multi(ps) => {
            let ghost c = contents(ps@);
            let mut i: usize = 0;
            while i < ps.len()
                invariant
                    i <= ps.len(),
                    c == contents(ps@),
                    borrowed_lines(out@) == long_lines(c.take(i as int)),
                decreases ps.len() - i,
            {
                assert(c.take(i + 1).drop_last() =~= c.take(i as int));
                assert(c.take(i + 1).last() == ps@[i as int]@);
                if ps[i].len() >= 2 {
                    let ghost before = borrowed_lines(out@);
                    out.push(&ps[i]);
                    assert(borrowed_lines(out@) =~= before.push(ps@[i as int]@));
                }
                i += 1;
            }
            assert(c.take(i as int) =~= c);
        },
        Geom::Poly(_) => {},
    }
    out
}

/// The range of the year bytes that were seen.
#[derive(Clone, Copy, PartialEq, Eq, Structural, Debug)]
pub struct YearSpan {
    pub lo: u8,
    pub hi: u8,
}

/// A range with one more year byte; an unknown year leaves it as it is.
pub open spec fn widened(s: YearSpan, y: u8) -> YearSpan {
    if y == 0 {
        s
    } else {
        YearSpan {
            lo: if y < s.lo {
                y
            } else {
                s.lo
            },
            hi: if y > s.hi {
                y
            } else {
                s.hi
            },
        }
    }
}

/// The range of year bytes.
pub open spec fn span_of(ys: Seq<u8>) -> YearSpan
    decreases ys.len(),
{
    if ys.len() == 0 {
        YearSpan { lo: 255, hi: 0 }
    } else {
        widened(span_of(ys.drop_last()), ys.last())
    }
}

/// The range as it is written out; where no year is known, one that suits the network's age.
pub open spec fn settled(s: YearSpan) -> YearSpan {
    if s.hi < s.lo {
        YearSpan { lo: 2, hi: 178 }
    } else {
        s
    }
}

impl YearSpan {
    /// The range of no years.
    pub fn new() -> (r: YearSpan)
        ensures
            r == span_of(Seq::empty()),
    {
        YearSpan { lo: 255, hi: 0 }
    }

    /// Takes one more year byte in.
    pub fn see(&mut self, y: u8)
        ensures
            *final(self) == widened(*old(self), y),
    {
        if y > 0 {
            if y < self.lo {
                self.lo = y;
            }
            if y > self.hi {
                self.hi = y;
            }
        }
    }

    /// The range as it is written out.
    pub fn settle(&self) -> (r: YearSpan)
        ensures
            r == settled(*self),
    {
        if self.hi < self.lo {
            YearSpan { lo: 2, hi: 178 }
        } else {
            *self
        }
    }
}

/// The range that is written out is never inverted and holds every known year.
pub proof fn law_span_holds_years(ys: Seq<u8>)
    ensures
        settled(span_of(ys)).lo <= settled(span_of(ys)).hi,
        forall|i: int|
            0 <= i < ys.len() && #[trigger] ys[i] != 0 ==> settled(span_of(ys)).lo <= ys[i]
                <= settled(span_of(ys)).hi,
{
    lemma_span(ys);
}

proof fn lemma_span(ys: Seq<u8>)
    ensures
        forall|i: int|
            0 <= i < ys.len() && #[trigger] ys[i] != 0 ==> span_of(ys).lo <= ys[i]
                <= span_of(ys).hi,
    decreases ys.len(),
{
    if ys.len() > 0 {
        let d = ys.drop_last();
        lemma_span(d);
        assert forall|i: int| 0 <= i < ys.len() && #[trigger] ys[i] != 0 implies span_of(ys).lo
            <= ys[i] <= span_of(ys).hi by {
            if i < d.len() {
                assert(d[i] == ys[i]);
            }
        }
    }
}

/// The texts of the numbers that the map's description holds.
pub struct MapTexts {
    pub minx: String,
    pub miny: String,
    pub cell: String,
    pub cx: String,
    pub cy: String,
    pub s: String,
    pub detail_scale: String,
    pub bldg_scale: String,
    pub smin: String,
    pub smax: String,
    pub step: String,
}

/// The description of the map, given the texts of its numbers, its grid, its years, and the
/// posts of its relief.
pub open spec fn map_text(
    t: MapTexts,
    ncols: nat,
    nrows: nat,
    span: YearSpan,
    t0: (nat, nat),
    p: nat,
) -> Seq<char> {
    "{\"minx\":"@ + t.minx@ + ",\"miny\":"@ + t.miny@ + ",\"cell\":"@ + t.cell@ + ",\"ncols\":"@
        + digits_of(ncols) + ",\"nrows\":"@ + digits_of(nrows) + ",\"view\":{\"cx\":"@ + t.cx@
        + ",\"cy\":"@ + t.cy@ + ",\"s\":"@ + t.s@ + "},\"detail_scale\":"@ + t.detail_scale@
        + ",\"bldg_scale\":"@ + t.bldg_scale@ + ",\"smin\":"@ + t.smin@ + ",\"smax\":"@ + t.smax@
        + ",\"yr0\":"@ + digits_of(1848) + ",\"yr\":["@ + digits_of((1848 + span.lo) as nat) + ","@
        + digits_of((1848 + span.hi) as nat) + "],\"t0\":{\"nx\":"@ + digits_of(t0.0) + ",\"ny\":"@
        + digits_of(t0.1) + ",\"step\":"@ + t.step@ + "},\"t1\":{\"p\":"@ + digits_of(p) + "}}"@
}

/// Writes the description of the map.
pub fn map_json(
    t: &MapTexts,
    ncols: usize,
    nrows: usize,
    span: &YearSpan,
    t0: (usize, usize),
    p: usize,
) -> (r: String)
    ensures
        r@ == map_text(
            *t,
            ncols as nat,
            nrows as nat,
            *span,
            (t0.0 as nat, t0.1 as nat),
            p as nat,
        ),
{
    let mut s = String::new();
    s.append("{\"minx\":");
    s.append(t.minx.as_str());
    s.append(",\"miny\":");
    s.append(t.miny.as_str());
    s.append(",\"cell\":");
    s.append(t.cell.as_str());
    s.append(",\"ncols\":");
    s.append(decimal_text(ncols as u64).as_str());
    s.append(",\"nrows\":");
    s.append(decimal_text(nrows as u64).as_str());
    s.append(",\"view\":{\"cx\":");
    s.append(t.cx.as_str());
    s.append(",\"cy\":");
    s.append(t.cy.as_str());
    s.append(",\"s\":");
    s.append(t.s.as_str());
    s.append("},\"detail_scale\":");
    s.append(t.detail_scale.as_str());
    s.append(",\"bldg_scale\":");
    s.append(t.bldg_scale.as_str());
    s.append(",\"smin\":");
    s.append(t.smin.as_str());
    s.append(",\"smax\":");
    s.append(t.smax.as_str());
    s.append(",\"yr0\":");
    s.append(decimal_text(1848).as_str());
    s.append(",\"yr\":[");
    s.append(decimal_text(1848 + span.lo as u64).as_str());
    s.append(",");
    s.append(decimal_text(1848 + span.hi as u64).as_str());
    s.append("],\"t0\":{\"nx\":");
    s.append(decimal_text(t0.0 as u64).as_str());
    s.append(",\"ny\":");
    s.append(decimal_text(t0.1 as u64).as_str());
    s.append(",\"step\":");
    s.append(t.step.as_str());
    s.append("},\"t1\":{\"p\":");
    s.append(decimal_text(p as u64).as_str());
    s.append("}}");
    s
}

/// The materials have their tones in the order of risk, and any other text, or none, the ninth.
pub proof fn law_tones_of_materials(m: Seq<char>)
    ensures
        m == "cast iron"@ ==> tone_of(Some(m)) == 0,
        m == "spun iron"@ ==> tone_of(Some(m)) == 1,
        m == "asbestos cement"@ ==> tone_of(Some(m)) == 2,
        m == "lead"@ ==> tone_of(Some(m)) == 3,
        m == "ductile iron"@ ==> tone_of(Some(m)) == 4,
        m == "steel"@ ==> tone_of(Some(m)) == 5,
        m == "pvc"@ ==> tone_of(Some(m)) == 6,
        m == "polyethylene"@ ==> tone_of(Some(m)) == 7,
        m != "cast iron"@ && m != "spun iron"@ && m != "asbestos cement"@ && m != "lead"@ && m
            != "ductile iron"@ && m != "steel"@ && m != "pvc"@ && m != "polyethylene"@ ==> tone_of(
            Some(m),
        ) == 8,
        tone_of(None) == 8,
{
    reveal_with_fuel(place, 10);
    lemma_material_names();
}

proof fn lemma_material_names()
    ensures
        materials().no_duplicates(),
        materials().len() == 8,
{
    reveal_strlit("cast iron");
    reveal_strlit("spun iron");
    reveal_strlit("asbestos cement");
    reveal_strlit("lead");
    reveal_strlit("ductile iron");
    reveal_strlit("steel");
    reveal_strlit("pvc");
    reveal_strlit("polyethylene");
    let m = materials();
    assert(m[0].len() == 9 && m[1].len() == 9 && m[2].len() == 15 && m[3].len() == 4 && m[4].len()
        == 12 && m[5].len() == 5 && m[6].len() == 3 && m[7].len() == 12);
    assert(m[0][0] == 'c' && m[1][0] == 's' && m[4][0] == 'd' && m[7][0] == 'p');
}

/// The transmission network is drawn in tone 9, unmarked and at any time. Everything else has the
/// tone of its material and the year of the table, and is marked exactly where it is
/// medium-pressure ductile iron.
pub proof fn law_style_of_layers(
    layer: Seq<char>,
    mat: Option<Seq<char>>,
    code: Option<Seq<char>>,
)
    ensures
        ({
            let s = style_of(layer, mat, code);
            &&& layer == "NTS"@ ==> s.tone == 9 && s.mark == 9 && s.year == Some(0u8)
            &&& layer != "NTS"@ ==> {
                &&& s.tone == tone_of(mat)
                &&& s.year is None
                &&& mat == Some("ductile iron"@) && code == Some("mp"@) ==> s.mark == s.tone + 128
                &&& !(mat == Some("ductile iron"@) && code == Some("mp"@)) ==> s.mark == s.tone
            }
        }),
{
    match mat {
        Some(m) => {
            lemma_place(materials(), m, 0);
        },
        None => {},
    }
}

/// Of a geometry all lines of two vertices or more are drawn, in order, and of a polygon nothing.
pub proof fn law_lines_of_two_are_drawn(ls: Seq<Seq<Vertex>>, l: Seq<Vertex>)
    ensures
        drawn_lines(GeomView::Poly(l)).len() == 0,
        l.len() >= 2 ==> drawn_lines(GeomView::Line(l)) == seq![l],
        l.len() < 2 ==> drawn_lines(GeomView::Line(l)).len() == 0,
        drawn_lines(GeomView::Multi(Seq::empty())).len() == 0,
        l.len() >= 2 ==> drawn_lines(GeomView::Multi(ls.push(l))) == drawn_lines(
            GeomView::Multi(ls),
        ).push(l),
        l.len() < 2 ==> drawn_lines(GeomView::Multi(ls.push(l))) == drawn_lines(
            GeomView::Multi(ls),
        ),
{
    reveal_with_fuel(long_lines, 2);
    assert(ls.push(l).drop_last() =~= ls);
    assert(seq![l].drop_last() =~= Seq::empty());
    if l.len() >= 2 {
        assert(drawn_lines(GeomView::Line(l)) =~= seq![l]);
    }
}

/// The ends of the range of years are years that occur, where any is known, and else stand for
/// 1850 and 2026.
pub proof fn law_span_is_attained(ys: Seq<u8>)
    ensures
        ({
            let s = settled(span_of(ys));
            let known = exists|i: int| 0 <= i < ys.len() && #[trigger] ys[i] != 0;
            &&& known ==> ys.contains(s.lo) && ys.contains(s.hi) && s.lo != 0
            &&& !known ==> s.lo + 1848 == 1850 && s.hi + 1848 == 2026
        }),
{
    lemma_span(ys);
    lemma_span_attained(ys);
}

proof fn lemma_span_attained(ys: Seq<u8>)
    ensures
        ({
            let s = span_of(ys);
            let known = exists|i: int| 0 <= i < ys.len() && #[trigger] ys[i] != 0;
            &&& known ==> ys.contains(s.lo) && ys.contains(s.hi) && s.lo != 0
            &&& !known ==> s.lo == 255 && s.hi == 0
        }),
    decreases ys.len(),
{
    if ys.len() > 0 {
        let d = ys.drop_last();
        let n = ys.len() - 1;
        lemma_span_attained(d);
        assert(ys[n] == ys.last());
        assert forall|x: u8| #[trigger] d.contains(x) implies ys.contains(x) by {
            let i = choose|i: int| 0 <= i < d.len() && d[i] == x;
            assert(ys[i] == x);
        }
        assert(ys.contains(ys.last()));
        if exists|i: int| 0 <= i < ys.len() && #[trigger] ys[i] != 0 {
            let i = choose|i: int| 0 <= i < ys.len() && #[trigger] ys[i] != 0;
            if i < n {
                assert(d[i] == ys[i]);
            }
        }
        if exists|i: int| 0 <= i < d.len() && #[trigger] d[i] != 0 {
            let i = choose|i: int| 0 <= i < d.len() && #[trigger] d[i] != 0;
            assert(ys[i] == d[i]);
        }
        if ys.last() == 255 && !(exists|i: int| 0 <= i < d.len() && #[trigger] d[i] != 0) {
            assert(span_of(ys).lo == 255);
        }
    }
}

/// Whether a text stands somewhere in the description of the map.
pub open spec fn says(text: Seq<char>, part: Seq<char>) -> bool {
    exists|before: Seq<char>, behind: Seq<char>| text == #[trigger] (
        (before + part) + behind)
}

proof fn lemma_prefix(text: Seq<char>, p: Seq<char>, c: Seq<char>)
    requires
        (p + c).len() <= text.len(),
        p + c == text.take((p + c).len() as int),
    ensures
        p.len() <= text.len(),
        p == text.take(p.len() as int),
{
    assert forall|i: int| 0 <= i < p.len() implies p[i] == text[i] by {
        assert((p + c)[i] == p[i]);
    }
    assert(p =~= text.take(p.len() as int));
}

proof fn lemma_says(text: Seq<char>, p: Seq<char>, a: Seq<char>, b: Seq<char>)
    requires
        ((p + a) + b).len() <= text.len(),
        (p + a) + b == text.take(((p + a) + b).len() as int),
    ensures
        says(text, a + b),
{
    let n = ((p + a) + b).len() as int;
    let rest = text.skip(n);
    assert((p + a) + b =~= p + (a + b));
    assert(text =~= text.take(n) + rest);
    assert(text == (p + (a + b)) + rest);
}

/// The description of the map gives every number under its own name.
pub proof fn law_map_description_names_its_numbers(
    t: MapTexts,
    ncols: nat,
    nrows: nat,
    span: YearSpan,
    t0: (nat, nat),
    p: nat,
)
    ensures
        ({
            let text = map_text(t, ncols, nrows, span, t0, p);
            &&& says(text, "{\"minx\":"@ + t.minx@)
            &&& says(text, ",\"miny\":"@ + t.miny@)
            &&& says(text, ",\"cell\":"@ + t.cell@)
            &&& says(text, ",\"ncols\":"@ + digits_of(ncols))
            &&& says(text, ",\"nrows\":"@ + digits_of(nrows))
            &&& says(text, ",\"view\":{\"cx\":"@ + t.cx@)
            &&& says(text, ",\"cy\":"@ + t.cy@)
            &&& says(text, ",\"s\":"@ + t.s@)
            &&& says(text, "},\"detail_scale\":"@ + t.detail_scale@)
            &&& says(text, ",\"bldg_scale\":"@ + t.bldg_scale@)
            &&& says(text, ",\"smin\":"@ + t.smin@)
            &&& says(text, ",\"smax\":"@ + t.smax@)
            &&& says(text, ",\"yr0\":"@ + digits_of(1848))
            &&& says(text, ",\"yr\":["@ + digits_of((1848 + span.lo) as nat))
            &&& says(text, ","@ + digits_of((1848 + span.hi) as nat))
            &&& says(text, "],\"t0\":{\"nx\":"@ + digits_of(t0.0))
            &&& says(text, ",\"ny\":"@ + digits_of(t0.1))
            &&& says(text, ",\"step\":"@ + t.step@)
            &&& says(text, "},\"t1\":{\"p\":"@ + digits_of(p))
        }),
{
    let e = Seq::<char>::empty();
    let text = map_text(t, ncols, nrows, span, t0, p);
    let k1 = "{\"minx\":"@;
    let q1 = k1 + t.minx@;
    let k2 = q1 + ",\"miny\":"@;
    let q2 = k2 + t.miny@;
    let k3 = q2 + ",\"cell\":"@;
    let q3 = k3 + t.cell@;
    let k4 = q3 + ",\"ncols\":"@;
    let q4 = k4 + digits_of(ncols);
    let k5 = q4 + ",\"nrows\":"@;
    let q5 = k5 + digits_of(nrows);
    let k6 = q5 + ",\"view\":{\"cx\":"@;
    let q6 = k6 + t.cx@;
    let k7 = q6 + ",\"cy\":"@;
    let q7 = k7 + t.cy@;
    let k8 = q7 + ",\"s\":"@;
    let q8 = k8 + t.s@;
    let k9 = q8 + "},\"detail_scale\":"@;
    let q9 = k9 + t.detail_scale@;
    let k10 = q9 + ",\"bldg_scale\":"@;
    let q10 = k10 + t.bldg_scale@;
    let k11 = q10 + ",\"smin\":"@;
    let q11 = k11 + t.smin@;
    let k12 = q11 + ",\"smax\":"@;
    let q12 = k12 + t.smax@;
    let k13 = q12 + ",\"yr0\":"@;
    let q13 = k13 + digits_of(1848);
    let k14 = q13 + ",\"yr\":["@;
    let q14 = k14 + digits_of((1848 + span.lo) as nat);
    let k15 = q14 + ","@;
    let q15 = k15 + digits_of((1848 + span.hi) as nat);
    let k16 = q15 + "],\"t0\":{\"nx\":"@;
    let q16 = k16 + digits_of(t0.0);
    let k17 = q16 + ",\"ny\":"@;
    let q17 = k17 + digits_of(t0.1);
    let k18 = q17 + ",\"step\":"@;
    let q18 = k18 + t.step@;
    let k19 = q18 + "},\"t1\":{\"p\":"@;
    let q19 = k19 + digits_of(p);
    assert(text == q19 + "}}"@);
    assert(text.take(text.len() as int) =~= text);
    lemma_prefix(text, q19, "}}"@);
    lemma_prefix(text, k19, digits_of(p));
    lemma_prefix(text, q18, "},\"t1\":{\"p\":"@);
    lemma_prefix(text, k18, t.step@);
    lemma_prefix(text, q17, ",\"step\":"@);
    lemma_prefix(text, k17, digits_of(t0.1));
    lemma_prefix(text, q16, ",\"ny\":"@);
    lemma_prefix(text, k16, digits_of(t0.0));
    lemma_prefix(text, q15, "],\"t0\":{\"nx\":"@);
    lemma_prefix(text, k15, digits_of((1848 + span.hi) as nat));
    lemma_prefix(text, q14, ","@);
    lemma_prefix(text, k14, digits_of((1848 + span.lo) as nat));
    lemma_prefix(text, q13, ",\"yr\":["@);
    lemma_prefix(text, k13, digits_of(1848));
    lemma_prefix(text, q12, ",\"yr0\":"@);
    lemma_prefix(text, k12, t.smax@);
    lemma_prefix(text, q11, ",\"smax\":"@);
    lemma_prefix(text, k11, t.smin@);
    lemma_prefix(text, q10, ",\"smin\":"@);
    lemma_prefix(text, k10, t.bldg_scale@);
    lemma_prefix(text, q9, ",\"bldg_scale\":"@);
    lemma_prefix(text, k9, t.detail_scale@);
    lemma_prefix(text, q8, "},\"detail_scale\":"@);
    lemma_prefix(text, k8, t.s@);
    lemma_prefix(text, q7, ",\"s\":"@);
    lemma_prefix(text, k7, t.cy@);
    lemma_prefix(text, q6, ",\"cy\":"@);
    lemma_prefix(text, k6, t.cx@);
    lemma_prefix(text, q5, ",\"view\":{\"cx\":"@);
    lemma_prefix(text, k5, digits_of(nrows));
    lemma_prefix(text, q4, ",\"nrows\":"@);
    lemma_prefix(text, k4, digits_of(ncols));
    lemma_prefix(text, q3, ",\"ncols\":"@);
    lemma_prefix(text, k3, t.cell@);
    lemma_prefix(text, q2, ",\"cell\":"@);
    lemma_prefix(text, k2, t.miny@);
    lemma_prefix(text, q1, ",\"miny\":"@);
    lemma_prefix(text, k1, t.minx@);
    assert(e + "{\"minx\":"@ =~= k1);
    lemma_says(text, e, "{\"minx\":"@, t.minx@);
    lemma_says(text, q1, ",\"miny\":"@, t.miny@);
    lemma_says(text, q2, ",\"cell\":"@, t.cell@);
    lemma_says(text, q3, ",\"ncols\":"@, digits_of(ncols));
    lemma_says(text, q4, ",\"nrows\":"@, digits_of(nrows));
    lemma_says(text, q5, ",\"view\":{\"cx\":"@, t.cx@);
    lemma_says(text, q6, ",\"cy\":"@, t.cy@);
    lemma_says(text, q7, ",\"s\":"@, t.s@);
    lemma_says(text, q8, "},\"detail_scale\":"@, t.detail_scale@);
    lemma_says(text, q9, ",\"bldg_scale\":"@, t.bldg_scale@);
    lemma_says(text, q10, ",\"smin\":"@, t.smin@);
    lemma_says(text, q11, ",\"smax\":"@, t.smax@);
    lemma_says(text, q12, ",\"yr0\":"@, digits_of(1848));
    lemma_says(text, q13, ",\"yr\":["@, digits_of((1848 + span.lo) as nat));
    lemma_says(text, q14, ","@, digits_of((1848 + span.hi) as nat));
    lemma_says(text, q15, "],\"t0\":{\"nx\":"@, digits_of(t0.0));
    lemma_says(text, q16, ",\"ny\":"@, digits_of(t0.1));
    lemma_says(text, q17, ",\"step\":"@, t.step@);
    lemma_says(text, q18, "},\"t1\":{\"p\":"@, digits_of(p));
}

/// A feature is drawn by its own layer, the material that its screen tip gives and the code of
/// its layer's tier; without an expression it has no material, and without tiers no code.
pub proof fn law_style_is_the_features_own(look: Look, r: RowView)
    requires
        r.layer != "NTS"@,
    ensures
        look.re is None ==> look.style_of_row(r).tone == 8 && look.style_of_row(r).mark == 8,
        look.tiers is None ==> look.style_of_row(r).mark == look.style_of_row(r).tone,
        (look.re matches Some(p) ==> look.style_of_row(r).tone == tone_of(
            tip_of(found_in(r.tip, p@), look.mats@).mat,
        )),
        look.re is Some && look.tiers is Some && tip_of(
            found_in(r.tip, (look.re->0)@),
            look.mats@,
        ).mat == Some("ductile iron"@) && code_of((look.tiers->0).map@, r.layer) == Some("mp"@)
            ==> look.style_of_row(r).mark == look.style_of_row(r).tone + 128,
{
    law_style_of_layers(r.layer, look.material(r), look.code(r));
}

} // verus!
