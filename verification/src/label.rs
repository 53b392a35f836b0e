//! Labels: what a feature's texts say of its size, material, tier and area.
use vstd::prelude::*;
use vstd::string::*;
use vstd::utf8::*;
use crate::bucket::{Row, RowView};
use crate::cgm::{latin, latin1};
use crate::config::{Tier, TierRow};
use crate::geom::{etype, kind_of, wkb, wkb_bytes};
use crate::number::{eq, equal, float_text, is_float, less, lt};
use crate::pattern::{bytes_regex_captures, bytes_regex_compiles, regex_captures, BytesPattern, Pattern};
use crate::text::{borrowed, chars_of, ends_in, ends_with, is_text, lines, lines_of, lowercased, pieces, same, split, text_opt, Class};
use crate::vocab::{lookup, Vocab};

verus! {

/// The bits of the number 100.
pub const HUNDRED: u64 = 0x4059_0000_0000_0000;

/// The unit that a diameter was given in.
#[derive(Clone, Copy, PartialEq, Eq, Structural, Debug)]
pub enum Scale {
    Inches,
    Millimetres,
}

/// Whether a number is no smaller than another.
pub open spec fn at_least(a: u64, b: u64) -> bool {
    less(b, a) || equal(a, b)
}

/// The unit of a diameter: as it is written, and without one or with another millimetres,
/// provided that the number is no smaller than 100. Nothing where the unit stays open.
pub open spec fn scale_of(v: u64, unit: Option<Seq<char>>, inch: Seq<char>) -> Option<Scale> {
    if unit == Some(inch) {
        Some(Scale::Inches)
    } else if unit == Some("MM"@) {
        Some(Scale::Millimetres)
    } else if at_least(v, HUNDRED) {
        Some(Scale::Millimetres)
    } else {
        None
    }
}

/// Finds the unit of a diameter, given the mark that stands for inches.
pub fn scale(v: u64, unit: Option<&str>, inch: &str) -> (r: Option<Scale>)
    ensures
        r == scale_of(v, text_opt(unit), inch@),
{
    if is_text(unit, inch) {
        Some(Scale::Inches)
    } else if is_text(unit, "MM") {
        Some(Scale::Millimetres)
    } else if lt(HUNDRED, v) || eq(v, HUNDRED) {
        Some(Scale::Millimetres)
    } else {
        None
    }
}

/// Finds the unit of a diameter in a specification, where a quotation mark stands for inches.
pub fn dia_mm(v: u64, unit: Option<&str>) -> (r: Option<Scale>)
    ensures
        r == scale_of(v, text_opt(unit), "\""@),
{
    scale(v, unit, "\"")
}

/// A diameter as it is written: a number, and a unit if there is one.
pub struct Size {
    pub text: String,
    pub unit: Option<String>,
}

/// The contents of a written diameter.
pub struct SizeView {
    pub text: Seq<char>,
    pub unit: Option<Seq<char>>,
}

impl DeepView for Size {
    type V = SizeView;

    open spec fn deep_view(&self) -> SizeView {
        SizeView { text: self.text@, unit: self.unit.deep_view() }
    }
}

/// What a specification says: diameter and material of the main and of the one around it.
pub struct Tip {
    pub dia: Option<Size>,
    pub mat: Option<String>,
    pub host_dia: Option<Size>,
    pub host_mat: Option<String>,
}

/// The contents of a specification.
pub struct TipView {
    pub dia: Option<SizeView>,
    pub mat: Option<Seq<char>>,
    pub host_dia: Option<SizeView>,
    pub host_mat: Option<Seq<char>>,
}

impl DeepView for Tip {
    type V = TipView;

    open spec fn deep_view(&self) -> TipView {
        TipView {
            dia: self.dia.deep_view(),
            mat: self.mat.deep_view(),
            host_dia: self.host_dia.deep_view(),
            host_mat: self.host_mat.deep_view(),
        }
    }
}

/// A group of a match, if the expression has it and it took part.
pub open spec fn group(g: Seq<Option<Seq<char>>>, i: int) -> Option<Seq<char>> {
    if 0 <= i < g.len() {
        g[i]
    } else {
        None
    }
}

/// The diameter in two groups: a number and a unit.
pub open spec fn size_of(d: Option<Seq<char>>, unit: Option<Seq<char>>) -> Option<SizeView> {
    match d {
        Some(text) => if is_float(text) {
            Some(SizeView { text, unit })
        } else {
            None
        },
        None => None,
    }
}

/// The material that a code stands for.
pub open spec fn material_of(code: Option<Seq<char>>, mats: Map<Seq<char>, Seq<char>>) -> Option<
    Seq<char>,
> {
    match code {
        Some(c) => lookup(mats, c),
        None => None,
    }
}

/// What the groups of a match say; nothing where there is no match.
pub open spec fn tip_of(
    found: Option<Seq<Option<Seq<char>>>>,
    mats: Map<Seq<char>, Seq<char>>,
) -> TipView {
    match found {
        Some(g) => TipView {
            dia: size_of(group(g, 1), group(g, 2)),
            mat: material_of(group(g, 3), mats),
            host_dia: size_of(group(g, 4), group(g, 5)),
            host_mat: material_of(group(g, 6), mats),
        },
        None => TipView { dia: None, mat: None, host_dia: None, host_mat: None },
    }
}

fn group_of(g: &Vec<Option<String>>, i: usize) -> (r: Option<String>)
    ensures
        r.deep_view() == group(g.deep_view(), i as int),
{
    if i < g.len() {
        assert(g.deep_view()[i as int] == g@[i as int].deep_view());
        g[i].clone()
    } else {
        None
    }
}

fn read_size(d: Option<String>, unit: Option<String>) -> (r: Option<Size>)
    ensures
        r.deep_view() == size_of(d.deep_view(), unit.deep_view()),
{
    match d {
        Some(text) => {
            if float_text(text.as_str()) {
                Some(Size { text, unit })
            } else {
                None
            }
        },
        None => None,
    }
}

fn read_material(code: Option<String>, mats: &Vocab) -> (r: Option<String>)
    ensures
        r.deep_view() == material_of(code.deep_view(), mats@),
{
    match code {
        Some(c) => mats.copied(c.as_str()),
        None => None,
    }
}

/// Reads a specification from the groups of a match.
pub fn read_tip(found: &Option<Vec<Option<String>>>, mats: &Vocab) -> (r: Tip)
    ensures
        r.deep_view() == tip_of(found.deep_view(), mats@),
{
    match found {
        Some(g) => Tip {
            dia: read_size(group_of(g, 1), group_of(g, 2)),
            mat: read_material(group_of(g, 3), mats),
            host_dia: read_size(group_of(g, 4), group_of(g, 5)),
            host_mat: read_material(group_of(g, 6), mats),
        },
        None => Tip { dia: None, mat: None, host_dia: None, host_mat: None },
    }
}

/// What an expression finds in an optional text.
pub open spec fn found_in(t: Option<Seq<char>>, re: Seq<char>) -> Option<Seq<Option<Seq<char>>>> {
    match t {
        Some(t) => regex_captures(re, t),
        None => None,
    }
}

/// Reads a specification.
pub fn parse_tip(t: Option<&str>, re: &Pattern, mats: &Vocab) -> (r: Tip)
    ensures
        r.deep_view() == tip_of(found_in(text_opt(t), re@), mats@),
{
    let found = match t {
        Some(t) => re.captures(t),
        None => None,
    };
    read_tip(&found, mats)
}

/// The grid tile of a facet: its first three characters and its fifth; a shorter facet
/// itself.
pub open spec fn tenk_of(facet: Seq<char>) -> Seq<char> {
    if facet.len() >= 5 {
        seq![facet[0], facet[1], facet[2], facet[4]]
    } else {
        facet
    }
}

/// The grid tile of a facet.
pub fn tenk(facet: &str) -> (r: String)
    ensures
        r@ == tenk_of(facet@),
{
    let c = chars_of(facet);
    if c.len() >= 5 {
        let mut s = String::new();
        s.push(c[0]);
        s.push(c[1]);
        s.push(c[2]);
        s.push(c[4]);
        assert(s@ =~= tenk_of(facet@));
        s
    } else {
        facet.to_owned()
    }
}

/// The groups of a match over bytes.
pub type Groups = Seq<Option<Seq<u8>>>;

/// The text of the first group of a match; empty where it did not take part.
pub open spec fn first_group(g: Groups) -> Seq<char> {
    if g.len() > 1 && g[1] is Some {
        latin(g[1]->0)
    } else {
        Seq::empty()
    }
}

/// The section in effect and the table of tiles after a line, given what the section and the
/// tile expression found in it. Below the line of the section to skip, none is in effect.
pub open spec fn area_step(
    state: (Option<Seq<char>>, Map<Seq<char>, Seq<char>>),
    section: Option<Groups>,
    tile: Option<Groups>,
    skip: Option<Seq<char>>,
) -> (Option<Seq<char>>, Map<Seq<char>, Seq<char>>) {
    match (section, tile, state.0) {
        (Some(h), _, _) => if skip == Some(first_group(h)) {
            (None, state.1)
        } else {
            (Some(first_group(h)), state.1)
        },
        (None, Some(t), Some(area)) => (state.0, state.1.insert(first_group(t), area)),
        _ => state,
    }
}

/// The section in effect and the table of tiles after lines of which this was found.
pub open spec fn area_table(
    found: Seq<(Option<Groups>, Option<Groups>)>,
    skip: Option<Seq<char>>,
) -> (Option<Seq<char>>, Map<Seq<char>, Seq<char>>)
    decreases found.len(),
{
    if found.len() == 0 {
        (None, Map::empty())
    } else {
        area_step(
            area_table(found.drop_last(), skip),
            found.last().0,
            found.last().1,
            skip,
        )
    }
}

/// What the section and the tile expression find in each line of a text.
pub open spec fn area_lines(text: Seq<char>, section: Seq<char>, tile: Seq<char>) -> Seq<
    (Option<Groups>, Option<Groups>),
> {
    lines(text).map_values(
        |l: Seq<char>|
            (
                bytes_regex_captures(section, encode_utf8(l)),
                bytes_regex_captures(tile, encode_utf8(l)),
            ),
    )
}

/// The expression of a section's line, `[name]`.
pub fn section_pattern() -> (r: Option<BytesPattern>)
    ensures
        r is Some == bytes_regex_compiles("^\\[(\\w+)\\]"@),
        r matches Some(p) ==> p@ == "^\\[(\\w+)\\]"@,
{
    BytesPattern::new("^\\[(\\w+)\\]")
}

/// The expression of a tile's line, `Tile1=name`.
pub fn tile_pattern() -> (r: Option<BytesPattern>)
    ensures
        r is Some == bytes_regex_compiles("^Tile\\d+=(\\w+)"@),
        r matches Some(p) ==> p@ == "^Tile\\d+=(\\w+)"@,
{
    BytesPattern::new("^Tile\\d+=(\\w+)")
}

fn group_text(g: &Vec<Option<Vec<u8>>>) -> (r: String)
    ensures
        r@ == first_group(g.deep_view()),
{
    if g.len() > 1 {
        assert(g.deep_view()[1] == g@[1].deep_view());
        match &g[1] {
            Some(b) => {
                assert(b.deep_view() =~= b@);
                latin1(b.as_slice())
            },
            None => String::new(),
        }
    } else {
        String::new()
    }
}

/// Enters tiles by their areas, given what was found in each line.
pub fn read_areas(
    found: &Vec<(Option<Vec<Option<Vec<u8>>>>, Option<Vec<Option<Vec<u8>>>>)>,
    skip: Option<&str>,
) -> (r: Vocab)
    ensures
        r@ == area_table(found.deep_view(), text_opt(skip)).1,
{
    let ghost f = found.deep_view();
    let mut out = Vocab::new();
    let mut cur: Option<String> = None;
    let mut i: usize = 0;
    while i < found.len()
        invariant
            i <= found.len(),
            f == found.deep_view(),
            (cur.deep_view(), out@) == area_table(f.take(i as int), text_opt(skip)),
        decreases found.len() - i,
    {
        assert(f.take(i + 1).drop_last() =~= f.take(i as int));
        assert(f.take(i + 1).last() == found@[i as int].deep_view());
        match (&found[i].0, &found[i].1) {
            (Some(h), _) => {
                let name = group_text(h);
                cur = if is_text(skip, name.as_str()) {
                    None
                } else {
                    Some(name)
                };
            },
            (None, Some(t)) => {
                match &cur {
                    Some(area) => {
                        out.insert(group_text(t), area.clone());
                    },
                    None => {},
                }
            },
            (None, None) => {},
        }
        i += 1;
    }
    assert(f.take(i as int) =~= f);
    out
}

/// Reads which area each grid tile belongs to: a section's name is an area, and the lines
/// below it list its tiles. The section to skip is no area, and its tiles belong to none.
pub fn areas(text: &str, section: &BytesPattern, tile: &BytesPattern, skip: Option<&str>) -> (r:
    Vocab)
    ensures
        r@ == area_table(area_lines(text@, section@, tile@), text_opt(skip)).1,
{
    let ls = lines_of(text);
    let ghost want = area_lines(text@, section@, tile@);
    let mut found: Vec<(Option<Vec<Option<Vec<u8>>>>, Option<Vec<Option<Vec<u8>>>>)> = Vec::new();
    let mut i: usize = 0;
    assert(found.deep_view() =~= want.take(0));
    while i < ls.len()
        invariant
            i <= ls.len(),
            ls.deep_view() == lines(text@),
            want == area_lines(text@, section@, tile@),
            found.deep_view() == want.take(i as int),
        decreases ls.len() - i,
    {
        assert(ls.deep_view()[i as int] == ls@[i as int]@);
        let b = ls[i].as_str().as_bytes();
        let pair = (section.captures(b), tile.captures(b));
        assert(pair.deep_view() == want[i as int]);
        let ghost before = found.deep_view();
        found.push(pair);
        assert(found.deep_view() =~= before.push(want[i as int]));
        i += 1;
        assert(want.take(i as int) =~= want.take(i - 1).push(want[i - 1]));
    }
    assert(want.take(i as int) =~= want);
    read_areas(&found, skip)
}

/// The name in the last section line, if there is one.
pub open spec fn last_section(found: Seq<(Option<Groups>, Option<Groups>)>) -> Option<Seq<char>>
    decreases found.len(),
{
    if found.len() == 0 {
        None
    } else {
        match found.last().0 {
            Some(h) => Some(first_group(h)),
            None => last_section(found.drop_last()),
        }
    }
}

/// Whether the `i`th line lists a tile, and the section that it stands in is this area.
pub open spec fn lists(
    found: Seq<(Option<Groups>, Option<Groups>)>,
    i: int,
    tile: Seq<char>,
    area: Seq<char>,
) -> bool {
    &&& 0 <= i < found.len()
    &&& found[i].0 is None
    &&& found[i].1 matches Some(t) && first_group(t) == tile
    &&& last_section(found.take(i)) == Some(area)
}

/// Whether the `i`th line lists a tile in a section that is not skipped, and no later line does.
pub open spec fn lists_last(
    found: Seq<(Option<Groups>, Option<Groups>)>,
    skip: Option<Seq<char>>,
    i: int,
    tile: Seq<char>,
    area: Seq<char>,
) -> bool {
    &&& lists(found, i, tile, area)
    &&& skip != Some(area)
    &&& forall|j: int, b: Seq<char>| i < j && #[trigger] lists(found, j, tile, b) ==> skip == Some(b)
}

proof fn lemma_lists_before(
    found: Seq<(Option<Groups>, Option<Groups>)>,
    i: int,
    tile: Seq<char>,
    area: Seq<char>,
)
    requires
        i < found.len() - 1,
    ensures
        lists(found, i, tile, area) == lists(found.drop_last(), i, tile, area),
{
    if 0 <= i {
        assert(found.drop_last().take(i) =~= found.take(i));
    }
}

/// A tile belongs to the area in whose section it is listed, and to no other: it has an entry
/// exactly where some section that is not skipped lists it, and the entry is the section of the
/// last line that does.
pub proof fn law_tiles_belong_to_their_section(
    found: Seq<(Option<Groups>, Option<Groups>)>,
    skip: Option<Seq<char>>,
    tile: Seq<char>,
)
    ensures
        area_table(found, skip).0 == (if last_section(found) == skip {
            None
        } else {
            last_section(found)
        }),
        area_table(found, skip).1.contains_key(tile) ==> exists|i: int| #[trigger]
            lists_last(found, skip, i, tile, area_table(found, skip).1[tile]),
        forall|i: int, area: Seq<char>| #[trigger]
            lists(found, i, tile, area) && skip != Some(area) ==> area_table(
                found,
                skip,
            ).1.contains_key(tile),
    decreases found.len(),
{
    if found.len() > 0 {
        let n = found.len() - 1;
        let before = found.drop_last();
        law_tiles_belong_to_their_section(before, skip, tile);
        assert(found.take(n) =~= before);
        let was = area_table(before, skip);
        let now = area_table(found, skip);
        assert forall|i: int, area: Seq<char>| #[trigger]
            lists(found, i, tile, area) && skip != Some(area) implies now.1.contains_key(tile) by {
            if i < n {
                lemma_lists_before(found, i, tile, area);
                assert(lists(before, i, tile, area));
            }
        }
        if now.1.contains_key(tile) {
            let area = now.1[tile];
            if exists|b: Seq<char>| #[trigger] lists(found, n, tile, b) && skip != Some(b) {
                let b = choose|b: Seq<char>| #[trigger]
                    lists(found, n, tile, b) && skip != Some(b);
                assert(area == b);
                assert(lists_last(found, skip, n, tile, area));
            } else {
                assert(was.1.contains_key(tile) && was.1[tile] == area) by {
                    if now.1 != was.1 {
                        let t = first_group(found.last().1->0);
                        if t == tile {
                            assert(lists(found, n, tile, was.0->0));
                        }
                    }
                }
                let i = choose|i: int| #[trigger] lists_last(before, skip, i, tile, area);
                lemma_lists_before(found, i, tile, area);
                assert forall|j: int, b: Seq<char>|
                    i < j && #[trigger] lists(found, j, tile, b) implies skip == Some(b) by {
                    if j < n {
                        lemma_lists_before(found, j, tile, b);
                        assert(lists(before, j, tile, b));
                    }
                }
                assert(lists_last(found, skip, i, tile, area));
            }
        }
    }
}

/// The tier of a layer: the last that is listed for it.
pub open spec fn tier_of(map: Seq<TierRow>, layer: Seq<char>) -> Option<TierRow>
    decreases map.len(),
{
    if map.len() == 0 {
        None
    } else if map.last().m@ == layer {
        Some(map.last())
    } else {
        tier_of(map.drop_last(), layer)
    }
}

/// Finds the tier of a layer.
pub fn tier<'a>(t: &'a Tier, layer: &str) -> (r: Option<&'a TierRow>)
    ensures
        tier_of(t.map@, layer@) == (match r {
            Some(x) => Some(*x),
            None => None,
        }),
{
    let mut n = t.map.len();
    assert(t.map@.take(n as int) =~= t.map@);
    while n > 0
        invariant
            n <= t.map.len(),
            tier_of(t.map@, layer@) == tier_of(t.map@.take(n as int), layer@),
        decreases n,
    {
        assert(t.map@.take(n as int).drop_last() =~= t.map@.take(n - 1));
        if same(t.map[n - 1].m.as_str(), layer) {
            return Some(&t.map[n - 1]);
        }
        n -= 1;
    }
    None
}

/// The code of a layer's tier, if it has one.
pub open spec fn code_of(map: Seq<TierRow>, layer: Seq<char>) -> Option<Seq<char>> {
    match tier_of(map, layer) {
        Some(t) => Some(t.code@),
        None => None,
    }
}

/// The label of a layer's tier; the layer's name in lower case where it has none.
pub open spec fn label_of(map: Seq<TierRow>, layer: Seq<char>) -> Seq<char> {
    match tier_of(map, layer) {
        Some(t) => t.label@,
        None => lowercased(layer),
    }
}

/// The texts of a feature's row in the table of features. The tier and the area are there
/// only where they are configured.
pub struct Cells {
    pub feature_id: Option<String>,
    pub tier: Option<(Option<String>, String)>,
    pub spec: Option<Tip>,
    pub screentip: Option<String>,
    pub area: Option<Option<String>>,
    pub square: String,
    pub tenk: String,
    pub source: Option<String>,
    pub survey_date: Option<String>,
    pub etype: String,
    pub geometry: Vec<u8>,
}

/// The contents of a feature's row.
pub struct CellsView {
    pub feature_id: Option<Seq<char>>,
    pub tier: Option<(Option<Seq<char>>, Seq<char>)>,
    pub spec: Option<TipView>,
    pub screentip: Option<Seq<char>>,
    pub area: Option<Option<Seq<char>>>,
    pub square: Seq<char>,
    pub tenk: Seq<char>,
    pub source: Option<Seq<char>>,
    pub survey_date: Option<Seq<char>>,
    pub etype: Seq<char>,
    pub geometry: Seq<u8>,
}

impl DeepView for Cells {
    type V = CellsView;

    open spec fn deep_view(&self) -> CellsView {
        CellsView {
            feature_id: self.feature_id.deep_view(),
            tier: self.tier.deep_view(),
            spec: self.spec.deep_view(),
            screentip: self.screentip.deep_view(),
            area: self.area.deep_view(),
            square: self.square@,
            tenk: self.tenk@,
            source: self.source.deep_view(),
            survey_date: self.survey_date.deep_view(),
            etype: self.etype@,
            geometry: self.geometry@,
        }
    }
}

/// The row of a feature, given the tiers, the specification that was read from its text, and
/// the table of areas.
pub open spec fn cells_of(
    r: RowView,
    tiers: Option<Seq<TierRow>>,
    spec_read: Option<TipView>,
    areas: Option<Map<Seq<char>, Seq<char>>>,
) -> CellsView {
    CellsView {
        feature_id: r.fid,
        tier: match tiers {
            Some(m) => Some((code_of(m, r.layer), label_of(m, r.layer))),
            None => None,
        },
        spec: spec_read,
        screentip: r.tip,
        area: match areas {
            Some(m) => Some(lookup(m, tenk_of(r.facet))),
            None => None,
        },
        square: r.square,
        tenk: tenk_of(r.facet),
        source: r.src,
        survey_date: r.date,
        etype: kind_of(r.geom),
        geometry: wkb_bytes(r.geom),
    }
}

/// Fills the row of a feature whose specification has been read.
pub fn fill(r: &Row, tiers: Option<&Tier>, spec_read: Option<Tip>, areas: Option<&Vocab>) -> (c: Cells)
    ensures
        c.deep_view() == cells_of(
            r.deep_view(),
            match tiers {
                Some(t) => Some(t.map@),
                None => None,
            },
            spec_read.deep_view(),
            match areas {
                Some(a) => Some(a@),
                None => None,
            },
        ),
{
    let t = tenk(r.facet.as_str());
    let tier_cell = match tiers {
        Some(m) => match tier(m, r.layer.as_str()) {
            Some(x) => Some((Some(x.code.clone()), x.label.clone())),
            None => Some((None, r.layer.as_str().to_lowercase())),
        },
        None => None,
    };
    let area = match areas {
        Some(a) => Some(a.copied(t.as_str())),
        None => None,
    };
    Cells {
        feature_id: r.fid.clone(),
        tier: tier_cell,
        spec: spec_read,
        screentip: r.tip.clone(),
        area,
        square: r.square.clone(),
        tenk: t,
        source: r.src.clone(),
        survey_date: r.date.clone(),
        etype: etype(&r.geom).to_owned(),
        geometry: wkb(&r.geom),
    }
}

/// Fills the row of a feature, reading its specification by an expression.
pub fn cells(
    r: &Row,
    tiers: Option<&Tier>,
    re: Option<&Pattern>,
    mats: &Vocab,
    areas: Option<&Vocab>,
) -> (c: Cells)
    ensures
        c.deep_view() == cells_of(
            r.deep_view(),
            match tiers {
                Some(t) => Some(t.map@),
                None => None,
            },
            match re {
                Some(p) => Some(tip_of(found_in(r.deep_view().tip, p@), mats@)),
                None => None,
            },
            match areas {
                Some(a) => Some(a@),
                None => None,
            },
        ),
{
    let spec_read = match re {
        Some(p) => Some(parse_tip(borrowed(&r.tip), p, mats)),
        None => None,
    };
    fill(r, tiers, spec_read, areas)
}

/// Whether a main lies in an older one: the specification gives the older one's material or,
/// with the number `v`, its diameter.
pub open spec fn inserted_of(t: TipView, v: u64) -> bool {
    t.host_mat is Some || (t.host_dia matches Some(s) && scale_of(v, s.unit, "\""@) is Some)
}

/// Whether a main lies in an older one. `v` is the number that the text of the older one's
/// diameter stands for.
pub fn inserted(t: &Tip, v: u64) -> (r: bool)
    ensures
        r == inserted_of(t.deep_view(), v),
{
    if t.host_mat.is_some() {
        return true;
    }
    match &t.host_dia {
        Some(s) => dia_mm(v, borrowed(&s.unit)).is_some(),
        None => false,
    }
}

/// The description of the geometry column, given the kinds of geometry, the reference system
/// and the corners of the extent as texts.
pub open spec fn geo_text(
    types: Seq<char>,
    crs: Seq<char>,
    minx: Seq<char>,
    miny: Seq<char>,
    maxx: Seq<char>,
    maxy: Seq<char>,
) -> Seq<char> {
    "{\"version\":\"1.1.0\",\"primary_column\":\"geometry\",\"columns\":{\"geometry\":{\"encoding\":\"WKB\",\"geometry_types\":["@
        + types + "],\"crs\":"@ + crs + ",\"bbox\":["@ + minx + ","@ + miny + ","@ + maxx + ","@
        + maxy + "]}}}"@
}

/// Writes the description of the geometry column.
pub fn geo_meta(types: &str, crs: &str, minx: &str, miny: &str, maxx: &str, maxy: &str) -> (r:
    String)
    ensures
        r@ == geo_text(types@, crs@, minx@, miny@, maxx@, maxy@),
{
    let mut s = String::new();
    s.append(
        "{\"version\":\"1.1.0\",\"primary_column\":\"geometry\",\"columns\":{\"geometry\":{\"encoding\":\"WKB\",\"geometry_types\":[",
    );
    s.append(types);
    s.append("],\"crs\":");
    s.append(crs);
    s.append(",\"bbox\":[");
    s.append(minx);
    s.append(",");
    s.append(miny);
    s.append(",");
    s.append(maxx);
    s.append(",");
    s.append(maxy);
    s.append("]}}}");
    assert(s@ =~= geo_text(types@, crs@, minx@, miny@, maxx@, maxy@));
    s
}

/// Whether an entry of the archive is a tile, and lies in the wanted grid square if one is
/// wanted.
pub open spec fn wanted(name: Seq<char>, square: Option<Seq<char>>, index: int) -> bool {
    let parts = pieces(name, Class::Is('/'));
    &&& ends_in(lowercased(name), ".mvf"@)
    &&& square matches Some(s) ==> 0 <= index < parts.len() && parts[index] == s
}

/// The places of the tiles among an archive's entries.
pub open spec fn wanted_places(
    names: Seq<Seq<char>>,
    square: Option<Seq<char>>,
    index: int,
) -> Seq<int>
    decreases names.len(),
{
    if names.len() == 0 {
        Seq::empty()
    } else {
        let p = wanted_places(names.drop_last(), square, index);
        if wanted(names.last(), square, index) {
            p.push(names.len() - 1)
        } else {
            p
        }
    }
}

/// Places as machine words.
pub open spec fn places(v: Seq<usize>) -> Seq<int> {
    v.map_values(|i: usize| i as int)
}

fn is_wanted(name: &str, square: Option<&str>, index: usize) -> (r: bool)
    ensures
        r == wanted(name@, text_opt(square), index as int),
{
    if !ends_with(name.to_lowercase().as_str(), ".mvf") {
        return false;
    }
    match square {
        Some(s) => {
            let parts = split(name, Class::Is('/'));
            if index < parts.len() {
                assert(parts.deep_view()[index as int] == parts@[index as int]@);
                same(parts[index].as_str(), s)
            } else {
                false
            }
        },
        None => true,
    }
}

/// Lists the places of the tiles among an archive's entries: all of them or, where a limit is
/// set, the first so many.
pub fn tile_entries(names: &Vec<String>, square: Option<&str>, index: usize, limit: usize) -> (r:
    Vec<usize>)
    ensures
        ({
            let all = wanted_places(names.deep_view(), text_opt(square), index as int);
            places(r@) == if 0 < limit < all.len() {
                all.take(limit as int)
            } else {
                all
            }
        }),
{
    let ghost ns = names.deep_view();
    let ghost all = wanted_places(ns, text_opt(square), index as int);
    let mut out: Vec<usize> = Vec::new();
    let mut i: usize = 0;
    assert(places(out@) =~= Seq::empty());
    while i < names.len()
        invariant
            i <= names.len(),
            ns == names.deep_view(),
            places(out@) == wanted_places(ns.take(i as int), text_opt(square), index as int),
        decreases names.len() - i,
    {
        assert(ns.take(i + 1).drop_last() =~= ns.take(i as int));
        assert(ns.take(i + 1).last() == names@[i as int]@);
        if is_wanted(names[i].as_str(), square, index) {
            let ghost before = places(out@);
            out.push(i);
            assert(places(out@) =~= before.push(i as int));
        }
        i += 1;
    }
    assert(ns.take(i as int) =~= ns);
    assert(places(out@).len() == out.len());
    if limit > 0 && limit < out.len() {
        out.truncate(limit);
        assert(places(out@) =~= all.take(limit as int));
    }
    out
}

/// Under which name a layer is counted in the summary: its tier's code.
pub open spec fn tally_of(map: Seq<TierRow>, layer: Seq<char>) -> Seq<char> {
    match code_of(map, layer) {
        Some(c) => c,
        None => "other"@,
    }
}

/// Under which name a layer is counted in the summary.
pub fn tally(t: &Tier, layer: &str) -> (r: String)
    ensures
        r@ == tally_of(t.map@, layer@),
{
    match tier(t, layer) {
        Some(x) => x.code.clone(),
        None => "other".to_owned(),
    }
}

/// A quotation mark stands for inches and `MM` for millimetres; any other number is one of
/// millimetres where it is no smaller than 100, and has no known unit where it is smaller.
pub proof fn law_units_of_diameters(v: u64, unit: Option<Seq<char>>)
    requires
        v <= 0x7ff0_0000_0000_0000,
        unit != Some("\""@),
        unit != Some("MM"@),
    ensures
        scale_of(v, Some("\""@), "\""@) == Some(Scale::Inches),
        scale_of(v, Some("MM"@), "\""@) == Some(Scale::Millimetres),
        v >= 0x4059_0000_0000_0000 ==> scale_of(v, unit, "\""@) == Some(Scale::Millimetres),
        v < 0x4059_0000_0000_0000 ==> scale_of(v, unit, "\""@) is None,
        forall|n: u64|
            0x7ff0_0000_0000_0000 < n < 0x8000_0000_0000_0000 ==> (#[trigger] scale_of(
                n,
                unit,
                "\""@,
            )) is None,
{
    reveal_strlit("\"");
    reveal_strlit("MM");
    assert("\""@.len() != "MM"@.len());
}

/// The groups of a specification are, from the second on, the diameter, its unit and the material
/// of the main, then those of the main around it. A diameter that is no number says nothing, and
/// neither does a code that the table of materials lacks.
pub proof fn law_groups_of_specifications(
    g: Seq<Option<Seq<char>>>,
    mats: Map<Seq<char>, Seq<char>>,
)
    requires
        g.len() >= 7,
    ensures
        ({
            let t = tip_of(Some(g), mats);
            &&& (t.dia matches Some(s) ==> g[1] == Some(s.text) && g[2] == s.unit)
            &&& t.dia is Some <==> g[1] is Some && is_float(g[1]->0)
            &&& t.mat is Some <==> g[3] is Some && mats.contains_key(g[3]->0)
            &&& (t.mat matches Some(m) ==> m == mats[g[3]->0])
            &&& (t.host_dia matches Some(s) ==> g[4] == Some(s.text) && g[5] == s.unit)
            &&& t.host_dia is Some <==> g[4] is Some && is_float(g[4]->0)
            &&& t.host_mat is Some <==> g[6] is Some && mats.contains_key(g[6]->0)
            &&& (t.host_mat matches Some(m) ==> m == mats[g[6]->0])
        }),
        ({
            let t = tip_of(None, mats);
            t.dia is None && t.mat is None && t.host_dia is None && t.host_mat is None
        }),
{
}

/// A main lies in an older one where a material of that is known, or a diameter with a unit, and
/// nowhere else.
pub proof fn law_inserted_mains_have_a_host(t: TipView, v: u64)
    ensures
        t.host_mat is Some ==> inserted_of(t, v),
        t.host_mat is None && t.host_dia is None ==> !inserted_of(t, v),
        t.host_mat is None && t.host_dia is Some && (t.host_dia->0).unit == Some("MM"@)
            ==> inserted_of(t, v),
        t.host_mat is None && t.host_dia is Some && (t.host_dia->0).unit == Some("\""@)
            ==> inserted_of(t, v),
        t.host_mat is None && t.host_dia is Some && (t.host_dia->0).unit is None && v
            < 0x4059_0000_0000_0000 ==> !inserted_of(t, v),
        t.host_mat is None && t.host_dia is Some && (t.host_dia->0).unit is None
            && 0x4059_0000_0000_0000 <= v <= 0x7ff0_0000_0000_0000 ==> inserted_of(t, v),
{
}

/// The grid tile of a facet is the facet without its fourth character and without all behind its
/// fifth; a facet of fewer than five characters is its own.
pub proof fn law_grid_tile_of_a_facet(facet: Seq<char>, i: int)
    ensures
        facet.len() < 5 ==> tenk_of(facet) == facet,
        facet.len() >= 5 ==> tenk_of(facet).len() == 4,
        facet.len() >= 5 && 0 <= i < 3 ==> tenk_of(facet)[i] == facet[i],
        facet.len() >= 5 ==> tenk_of(facet)[3] == facet[4],
{
}

/// A layer's tier is the last one listed with its name; a layer that is not listed has no code,
/// its own name in lower case as its label, and is counted among the others.
pub proof fn law_last_listed_tier_counts(map: Seq<TierRow>, layer: Seq<char>, i: int)
    requires
        0 <= i < map.len(),
        map[i].m@ == layer,
        forall|j: int| i < j < map.len() ==> (#[trigger] map[j]).m@ != layer,
    ensures
        code_of(map, layer) == Some(map[i].code@),
        label_of(map, layer) == map[i].label@,
        tally_of(map, layer) == map[i].code@,
    decreases map.len(),
{
    if i < map.len() - 1 {
        assert(map[map.len() - 1].m@ != layer);
        let d = map.drop_last();
        assert forall|j: int| i < j < d.len() implies (#[trigger] d[j]).m@ != layer by {
            assert(d[j] == map[j]);
        }
        law_last_listed_tier_counts(d, layer, i);
    }
}

/// A layer that is not listed has no code, its own name in lower case as its label, and is
/// counted among the others.
pub proof fn law_layers_without_a_tier(map: Seq<TierRow>, layer: Seq<char>)
    requires
        forall|j: int| 0 <= j < map.len() ==> (#[trigger] map[j]).m@ != layer,
    ensures
        code_of(map, layer) is None,
        label_of(map, layer) == lowercased(layer),
        tally_of(map, layer) == "other"@,
    decreases map.len(),
{
    if map.len() > 0 {
        assert(map[map.len() - 1].m@ != layer);
        let d = map.drop_last();
        assert forall|j: int| 0 <= j < d.len() implies (#[trigger] d[j]).m@ != layer by {
            assert(d[j] == map[j]);
        }
        law_layers_without_a_tier(d, layer);
    }
}

/// A feature's row has the values of the feature: its identifier, screen tip, square, source and
/// date as they are, the area of its grid tile, and the kind and the bytes of its geometry.
pub proof fn law_row_has_the_values_of_its_feature(
    r: RowView,
    tiers: Option<Seq<TierRow>>,
    spec_read: Option<TipView>,
    areas: Option<Map<Seq<char>, Seq<char>>>,
)
    ensures
        ({
            let c = cells_of(r, tiers, spec_read, areas);
            &&& c.feature_id == r.fid
            &&& c.screentip == r.tip
            &&& c.square == r.square
            &&& c.source == r.src
            &&& c.survey_date == r.date
            &&& c.spec == spec_read
            &&& r.facet.len() < 5 ==> c.tenk == r.facet
            &&& r.facet.len() >= 5 ==> c.tenk == r.facet.subrange(0, 3).push(r.facet[4])
            &&& c.etype == kind_of(r.geom)
            &&& c.geometry == wkb_bytes(r.geom)
            &&& tiers is None ==> c.tier is None
            &&& (tiers matches Some(m) ==> c.tier == Some((code_of(m, r.layer), label_of(m, r.layer))))
            &&& areas is None ==> c.area is None
            &&& (areas matches Some(m) ==> c.area is Some && (c.area->0 is Some <==> m.contains_key(
                c.tenk,
            )))
            &&& (areas matches Some(m) ==> m.contains_key(c.tenk) ==> c.area->0 == Some(m[c.tenk]))
        }),
{
    if r.facet.len() >= 5 {
        assert(tenk_of(r.facet) =~= r.facet.subrange(0, 3).push(r.facet[4]));
    }
}

/// An entry of the archive is a tile where its name ends like one in lower case; where a square
/// is wanted, the part of the name at the square's place must be it as well.
pub proof fn law_wanted_entries(name: Seq<char>, s: Seq<char>, index: int)
    ensures
        wanted(name, None, index) <==> lowercased(name).len() >= 4 && lowercased(name).skip(
            lowercased(name).len() - 4,
        ) == ".mvf"@,
        wanted(name, Some(s), index) ==> wanted(name, None, index),
        wanted(name, None, index) && 0 <= index < pieces(name, Class::Is('/')).len() ==> (wanted(
            name,
            Some(s),
            index,
        ) <==> pieces(name, Class::Is('/'))[index] == s),
        index < 0 || index >= pieces(name, Class::Is('/')).len() ==> !wanted(name, Some(s), index),
{
    reveal_strlit(".mvf");
    let l = lowercased(name);
    if l.len() >= 4 {
        assert(l.skip(l.len() - 4) =~= l.subrange(l.len() - 4, l.len() as int));
    }
}

/// The places listed are those of the wanted entries, all of them and in ascending order.
pub proof fn law_all_wanted_entries_are_listed(
    names: Seq<Seq<char>>,
    square: Option<Seq<char>>,
    index: int,
    i: int,
)
    requires
        0 <= i < names.len(),
    ensures
        ({
            let p = wanted_places(names, square, index);
            &&& p.contains(i) <==> wanted(names[i], square, index)
            &&& forall|a: int, b: int| 0 <= a < b < p.len() ==> #[trigger] p[a] < #[trigger] p[b]
            &&& forall|a: int| 0 <= a < p.len() ==> 0 <= #[trigger] p[a] < names.len()
        }),
    decreases names.len(),
{
    let d = names.drop_last();
    let q = wanted_places(d, square, index);
    let p = wanted_places(names, square, index);
    if d.len() > 0 {
        law_all_wanted_entries_are_listed(d, square, index, if i < d.len() {
            i
        } else {
            0
        });
    }
    if i < d.len() {
        if q.contains(i) {
            let a = choose|a: int| 0 <= a < q.len() && q[a] == i;
            assert(p[a] == i);
        }
        if p.contains(i) {
            let a = choose|a: int| 0 <= a < p.len() && p[a] == i;
            assert(q[a] == i);
        }
    } else {
        if wanted(names.last(), square, index) {
            assert(p[p.len() - 1] == i);
        } else if p.contains(i) {
            let a = choose|a: int| 0 <= a < p.len() && p[a] == i;
            assert(q[a] < d.len());
        }
    }
}

/// Whether a text stands at a place in another.
pub open spec fn at(text: Seq<char>, i: int, part: Seq<char>) -> bool {
    0 <= i <= i + part.len() <= text.len() && text.subrange(i, i + part.len()) == part
}

/// The description of the geometry column lists the kinds of geometry, then the reference system,
/// then the extent: its western, southern, eastern and northern side in this order.
pub proof fn law_geometry_description(
    types: Seq<char>,
    crs: Seq<char>,
    minx: Seq<char>,
    miny: Seq<char>,
    maxx: Seq<char>,
    maxy: Seq<char>,
)
    ensures
        exists|i: int| #[trigger]
            at(
                geo_text(types, crs, minx, miny, maxx, maxy),
                i,
                "\"geometry\":{\"encoding\":\"WKB\",\"geometry_types\":["@ + types + "],\"crs\":"@ + crs + ",\"bbox\":["@ + minx + ","@
                    + miny + ","@ + maxx + ","@ + maxy + "]"@,
            ),
{
    reveal_strlit(
        "{\"version\":\"1.1.0\",\"primary_column\":\"geometry\",\"columns\":{\"geometry\":{\"encoding\":\"WKB\",\"geometry_types\":[",
    );
    reveal_strlit("\"geometry\":{\"encoding\":\"WKB\",\"geometry_types\":[");
    reveal_strlit("]}}}");
    reveal_strlit("]");
    let head = "{\"version\":\"1.1.0\",\"primary_column\":\"geometry\",\"columns\":{\"geometry\":{\"encoding\":\"WKB\",\"geometry_types\":["@;
    let tail = "]}}}"@;
    let k = "\"geometry\":{\"encoding\":\"WKB\",\"geometry_types\":["@;
    let close = "]"@;
    let n = head.len() - k.len();
    assert(head.skip(n) =~= k);
    assert(tail.take(1) =~= close);
    lemma_geometry_description(head, n, types, crs, minx, miny, maxx, maxy, tail);
    assert(at(
        geo_text(types, crs, minx, miny, maxx, maxy),
        n,
        k + types + "],\"crs\":"@ + crs + ",\"bbox\":["@ + minx + ","@ + miny + ","@ + maxx + ","@
            + maxy + close,
    ));
}

proof fn lemma_geometry_description(
    head: Seq<char>,
    n: int,
    types: Seq<char>,
    crs: Seq<char>,
    minx: Seq<char>,
    miny: Seq<char>,
    maxx: Seq<char>,
    maxy: Seq<char>,
    tail: Seq<char>,
)
    requires
        0 <= n <= head.len(),
        tail.len() >= 1,
    ensures
        at(
            head + types + "],\"crs\":"@ + crs + ",\"bbox\":["@ + minx + ","@ + miny + ","@ + maxx
                + ","@ + maxy + tail,
            n,
            head.skip(n) + types + "],\"crs\":"@ + crs + ",\"bbox\":["@ + minx + ","@ + miny + ","@
                + maxx + ","@ + maxy + tail.take(1),
        ),
{
    let a = "],\"crs\":"@;
    let b = ",\"bbox\":["@;
    let c = ","@;
    lemma_shift(head, n, types);
    let h0 = head + types;
    lemma_shift(h0, n, a);
    let h1 = h0 + a;
    lemma_shift(h1, n, crs);
    let h2 = h1 + crs;
    lemma_shift(h2, n, b);
    let h3 = h2 + b;
    lemma_shift(h3, n, minx);
    let h4 = h3 + minx;
    lemma_shift(h4, n, c);
    let h5 = h4 + c;
    lemma_shift(h5, n, miny);
    let h6 = h5 + miny;
    lemma_shift(h6, n, c);
    let h7 = h6 + c;
    lemma_shift(h7, n, maxx);
    let h8 = h7 + maxx;
    lemma_shift(h8, n, c);
    let h9 = h8 + c;
    lemma_shift(h9, n, maxy);
    let h = h9 + maxy;
    let m = h.len() as int;
    assert((h + tail).subrange(n, m + 1) =~= h.skip(n) + tail.take(1));
}

proof fn lemma_shift(h: Seq<char>, n: int, t: Seq<char>)
    requires
        0 <= n <= h.len(),
    ensures
        (h + t).skip(n) == h.skip(n) + t,
{
    assert((h + t).skip(n) =~= h.skip(n) + t);
}

/// A section's line ends the section before it, and a section that is skipped is none; a tile's
/// line enters the tile under the section in effect, and enters nothing where there is none.
pub proof fn law_lines_of_the_areas(
    found: Seq<(Option<Groups>, Option<Groups>)>,
    skip: Option<Seq<char>>,
    h: Groups,
    t: Groups,
    name: Seq<u8>,
    any: Option<Groups>,
)
    requires
        h.len() > 1,
        h[1] == Some(name),
        t.len() > 1,
        t[1] == Some(name),
    ensures
        ({
            let was = area_table(found, skip);
            let below = area_table(found.push((Some(h), any)), skip);
            let listed = area_table(found.push((None, Some(t))), skip);
            &&& below.1 == was.1
            &&& skip == Some(latin(name)) ==> below.0 is None
            &&& skip != Some(latin(name)) ==> below.0 == Some(latin(name))
            &&& listed.0 == was.0
            &&& was.0 is None ==> listed.1 == was.1
            &&& (was.0 matches Some(area) ==> listed.1 == was.1.insert(latin(name), area))
            &&& area_table(found.push((None, None)), skip) == was
        }),
{
    assert(found.push((Some(h), any)).drop_last() =~= found);
    assert(found.push((None, Some(t))).drop_last() =~= found);
    assert(found.push((None, None)).drop_last() =~= found);
}

/// Each line of the file of areas is searched for a section and for a tile, in order.
pub proof fn law_each_line_is_searched(text: Seq<char>, section: Seq<char>, tile: Seq<char>, i: int)
    requires
        0 <= i < lines(text).len(),
    ensures
        area_lines(text, section, tile).len() == lines(text).len(),
        area_lines(text, section, tile)[i].0 == bytes_regex_captures(
            section,
            encode_utf8(lines(text)[i]),
        ),
        area_lines(text, section, tile)[i].1 == bytes_regex_captures(
            tile,
            encode_utf8(lines(text)[i]),
        ),
{
}

} // verus!
