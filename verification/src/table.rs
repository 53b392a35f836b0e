//! The tables that are written: which column holds what.
use vstd::prelude::*;
use vstd::string::*;
use crate::config::{Area, Tier};
use crate::label::{inserted, inserted_of, Cells, CellsView};
use crate::pipes::{Asset, AssetView};

verus! {

/// The values of a column, one for each row: texts, the bit patterns of numbers, yes or no, or
/// bytes. A column may also be taken over from the table that is read, by its name there.
pub enum Column {
    Texts(Vec<Option<String>>),
    Numbers(Vec<Option<u64>>),
    Flags(Vec<Option<bool>>),
    Blobs(Vec<Vec<u8>>),
    Taken(String),
}

/// The contents of a column.
pub enum ColumnView {
    Texts(Seq<Option<Seq<char>>>),
    Numbers(Seq<Option<u64>>),
    Flags(Seq<Option<bool>>),
    Blobs(Seq<Seq<u8>>),
    Taken(Seq<char>),
}

impl DeepView for Column {
    type V = ColumnView;

    open spec fn deep_view(&self) -> ColumnView {
        match self {
            Column::Texts(v) => ColumnView::Texts(v.deep_view()),
            Column::Numbers(v) => ColumnView::Numbers(v@),
            Column::Flags(v) => ColumnView::Flags(v@),
            Column::Blobs(v) => ColumnView::Blobs(v@.map_values(|b: Vec<u8>| b@)),
            Column::Taken(n) => ColumnView::Taken(n@),
        }
    }
}

/// A feature's row with the bit patterns of what is measured: both diameters in millimetres, the
/// number that the text of the older main's diameter stands for, and the length in metres.
pub struct Feature {
    pub cells: Cells,
    pub dia: Option<u64>,
    pub host_dia: Option<u64>,
    pub host: u64,
    pub length: u64,
}

/// The contents of a feature's row.
pub struct FeatureView {
    pub cells: CellsView,
    pub dia: Option<u64>,
    pub host_dia: Option<u64>,
    pub host: u64,
    pub length: u64,
}

impl DeepView for Feature {
    type V = FeatureView;

    open spec fn deep_view(&self) -> FeatureView {
        FeatureView {
            cells: self.cells.deep_view(),
            dia: self.dia,
            host_dia: self.host_dia,
            host: self.host,
            length: self.length,
        }
    }
}

/// A text of a feature.
#[derive(Clone, Copy)]
pub enum Text {
    FeatureId,
    TierCode,
    TierLabel,
    Material,
    HostMaterial,
    ScreenTip,
    Area,
    Square,
    TenK,
    Source,
    SurveyDate,
    Kind,
}

impl FeatureView {
    /// The text of a feature, if it has it.
    pub open spec fn text(&self, f: Text) -> Option<Seq<char>> {
        let c = self.cells;
        match f {
            Text::FeatureId => c.feature_id,
            Text::TierCode => match c.tier {
                Some((code, _)) => code,
                None => None,
            },
            Text::TierLabel => match c.tier {
                Some((_, label)) => Some(label),
                None => None,
            },
            Text::Material => match c.spec {
                Some(t) => t.mat,
                None => None,
            },
            Text::HostMaterial => match c.spec {
                Some(t) => t.host_mat,
                None => None,
            },
            Text::ScreenTip => c.screentip,
            Text::Area => match c.area {
                Some(a) => a,
                None => None,
            },
            Text::Square => Some(c.square),
            Text::TenK => Some(c.tenk),
            Text::Source => c.source,
            Text::SurveyDate => c.survey_date,
            Text::Kind => Some(c.etype),
        }
    }

    /// Whether a feature lies in an older main, if its specification was read.
    pub open spec fn inserted(&self) -> Option<bool> {
        match self.cells.spec {
            Some(t) => Some(inserted_of(t, self.host)),
            None => None,
        }
    }
}

/// The column of a text of features.
pub open spec fn texts_of(rs: Seq<FeatureView>, f: Text) -> ColumnView {
    ColumnView::Texts(rs.map_values(|r: FeatureView| r.text(f)))
}

/// The table of features: the name of each column, and what it holds. Those of the tiers, the
/// specification and the area are there only where these are configured.
pub open spec fn feature_table_of(
    tier: Option<(Seq<char>, Seq<char>)>,
    spec_read: bool,
    area: Option<Seq<char>>,
    rs: Seq<FeatureView>,
) -> Seq<(Seq<char>, ColumnView)> {
    seq![("feature_id"@, texts_of(rs, Text::FeatureId))] + (match tier {
        Some((code, label)) => seq![
            (code, texts_of(rs, Text::TierCode)),
            (label, texts_of(rs, Text::TierLabel)),
        ],
        None => Seq::empty(),
    }) + (if spec_read {
        seq![
            ("diameter_mm"@, ColumnView::Numbers(rs.map_values(|r: FeatureView| r.dia))),
            ("material"@, texts_of(rs, Text::Material)),
            ("host_diameter_mm"@, ColumnView::Numbers(rs.map_values(|r: FeatureView| r.host_dia))),
            ("host_material"@, texts_of(rs, Text::HostMaterial)),
            ("inserted"@, ColumnView::Flags(rs.map_values(|r: FeatureView| r.inserted()))),
        ]
    } else {
        Seq::empty()
    }) + seq![("screentip"@, texts_of(rs, Text::ScreenTip))] + (match area {
        Some(c) => seq![(c, texts_of(rs, Text::Area))],
        None => Seq::empty(),
    }) + seq![
        ("square"@, texts_of(rs, Text::Square)),
        ("tenk"@, texts_of(rs, Text::TenK)),
        ("length_m"@, ColumnView::Numbers(rs.map_values(|r: FeatureView| Some(r.length)))),
        ("source"@, texts_of(rs, Text::Source)),
        ("survey_date"@, texts_of(rs, Text::SurveyDate)),
        ("etype"@, texts_of(rs, Text::Kind)),
        ("geometry"@, ColumnView::Blobs(rs.map_values(|r: FeatureView| r.cells.geometry))),
    ]
}

fn text_of_feature(r: &Feature, f: Text) -> (t: Option<String>)
    ensures
        t.deep_view() == r.deep_view().text(f),
{
    let c = &r.cells;
    match f {
        Text::FeatureId => c.feature_id.clone(),
        Text::TierCode => match &c.tier {
            Some((code, _)) => code.clone(),
            None => None,
        },
        Text::TierLabel => match &c.tier {
            Some((_, label)) => Some(label.clone()),
            None => None,
        },
        Text::Material => match &c.spec {
            Some(t) => t.mat.clone(),
            None => None,
        },
        Text::HostMaterial => match &c.spec {
            Some(t) => t.host_mat.clone(),
            None => None,
        },
        Text::ScreenTip => c.screentip.clone(),
        Text::Area => match &c.area {
            Some(a) => a.clone(),
            None => None,
        },
        Text::Square => Some(c.square.clone()),
        Text::TenK => Some(c.tenk.clone()),
        Text::Source => c.source.clone(),
        Text::SurveyDate => c.survey_date.clone(),
        Text::Kind => Some(c.etype.clone()),
    }
}

fn texts(rs: &Vec<Feature>, f: Text) -> (c: Column)
    ensures
        c.deep_view() == texts_of(rs.deep_view(), f),
{
    let ghost v = rs.deep_view();
    let ghost want = v.map_values(|r: FeatureView| r.text(f));
    let mut out: Vec<Option<String>> = Vec::new();
    let mut i: usize = 0;
    assert(out.deep_view() =~= want.take(0));
    while i < rs.len()
        invariant
            i <= rs.len(),
            v == rs.deep_view(),
            want == v.map_values(|r: FeatureView| r.text(f)),
            out.deep_view() == want.take(i as int),
        decreases rs.len() - i,
    {
        assert(v[i as int] == rs@[i as int].deep_view());
        let ghost before = out.deep_view();
        let t = text_of_feature(&rs[i], f);
        let ghost tv = t.deep_view();
        out.push(t);
        i += 1;
        assert(out.deep_view() =~= before.push(tv));
        assert(want.take(i as int) =~= want.take(i - 1).push(want[i - 1]));
    }
    assert(want.take(i as int) =~= want);
    Column::Texts(out)
}

/// The numbers of features: their diameters, those of the mains around them, and their lengths.
fn numbers(rs: &Vec<Feature>) -> (r: (Vec<Option<u64>>, Vec<Option<u64>>, Vec<Option<u64>>))
    ensures
        r.0@ == rs.deep_view().map_values(|r: FeatureView| r.dia),
        r.1@ == rs.deep_view().map_values(|r: FeatureView| r.host_dia),
        r.2@ == rs.deep_view().map_values(|r: FeatureView| Some(r.length)),
{
    let mut dia: Vec<Option<u64>> = Vec::new();
    let mut host: Vec<Option<u64>> = Vec::new();
    let mut length: Vec<Option<u64>> = Vec::new();
    let mut i: usize = 0;
    while i < rs.len()
        invariant
            i <= rs.len(),
            dia.len() == i,
            host.len() == i,
            length.len() == i,
            forall|k: int| 0 <= k < i ==> #[trigger] dia@[k] == rs@[k].dia,
            forall|k: int| 0 <= k < i ==> #[trigger] host@[k] == rs@[k].host_dia,
            forall|k: int| 0 <= k < i ==> #[trigger] length@[k] == Some(rs@[k].length),
        decreases rs.len() - i,
    {
        dia.push(rs[i].dia);
        host.push(rs[i].host_dia);
        length.push(Some(rs[i].length));
        i += 1;
    }
    assert(dia@ =~= rs.deep_view().map_values(|r: FeatureView| r.dia));
    assert(host@ =~= rs.deep_view().map_values(|r: FeatureView| r.host_dia));
    assert(length@ =~= rs.deep_view().map_values(|r: FeatureView| Some(r.length)));
    (dia, host, length)
}

fn flags(rs: &Vec<Feature>) -> (r: Vec<Option<bool>>)
    ensures
        r@ == rs.deep_view().map_values(|r: FeatureView| r.inserted()),
{
    let mut out: Vec<Option<bool>> = Vec::new();
    let mut i: usize = 0;
    while i < rs.len()
        invariant
            i <= rs.len(),
            out.len() == i,
            forall|k: int| 0 <= k < i ==> #[trigger] out@[k] == rs@[k].deep_view().inserted(),
        decreases rs.len() - i,
    {
        let f = match &rs[i].cells.spec {
            Some(t) => Some(inserted(t, rs[i].host)),
            None => None,
        };
        out.push(f);
        i += 1;
    }
    assert(out@ =~= rs.deep_view().map_values(|r: FeatureView| r.inserted()));
    out
}

fn geometries(rs: &Vec<Feature>) -> (c: Column)
    ensures
        c.deep_view() == ColumnView::Blobs(
            rs.deep_view().map_values(|r: FeatureView| r.cells.geometry),
        ),
{
    let mut out: Vec<Vec<u8>> = Vec::new();
    let mut i: usize = 0;
    while i < rs.len()
        invariant
            i <= rs.len(),
            out.len() == i,
            forall|k: int| 0 <= k < i ==> (#[trigger] out@[k])@ == rs@[k].cells.geometry@,
        decreases rs.len() - i,
    {
        let b = rs[i].cells.geometry.clone();
        assert(b@ =~= rs@[i as int].cells.geometry@);
        out.push(b);
        i += 1;
    }
    assert(out@.map_values(|b: Vec<u8>| b@) =~= rs.deep_view().map_values(
        |r: FeatureView| r.cells.geometry,
    ));
    Column::Blobs(out)
}

fn put(t: &mut Vec<(String, Column)>, name: &str, c: Column)
    ensures
        final(t).deep_view() == old(t).deep_view().push((name@, c.deep_view())),
{
    let ghost before = t.deep_view();
    let ghost cv = c.deep_view();
    t.push((name.to_owned(), c));
    assert(t.deep_view() =~= before.push((name@, cv)));
}

/// Makes the table of features.
pub fn feature_table(
    tier: Option<&Tier>,
    spec_read: bool,
    area: Option<&Area>,
    rs: &Vec<Feature>,
) -> (t: Vec<(String, Column)>)
    ensures
        t.deep_view() == feature_table_of(
            match tier {
                Some(t) => Some((t.code_column@, t.label_column@)),
                None => None,
            },
            spec_read,
            match area {
                Some(a) => Some(a.column@),
                None => None,
            },
            rs.deep_view(),
        ),
{
    let mut t: Vec<(String, Column)> = Vec::new();
    assert(t.deep_view() =~= Seq::empty());
    let (dia, host, length) = numbers(rs);
    put(&mut t, "feature_id", texts(rs, Text::FeatureId));
    match tier {
        Some(x) => {
            put(&mut t, x.code_column.as_str(), texts(rs, Text::TierCode));
            put(&mut t, x.label_column.as_str(), texts(rs, Text::TierLabel));
        },
        None => {},
    }
    if spec_read {
        put(&mut t, "diameter_mm", Column::Numbers(dia));
        put(&mut t, "material", texts(rs, Text::Material));
        put(&mut t, "host_diameter_mm", Column::Numbers(host));
        put(&mut t, "host_material", texts(rs, Text::HostMaterial));
        put(&mut t, "inserted", Column::Flags(flags(rs)));
    }
    put(&mut t, "screentip", texts(rs, Text::ScreenTip));
    match area {
        Some(a) => {
            put(&mut t, a.column.as_str(), texts(rs, Text::Area));
        },
        None => {},
    }
    put(&mut t, "square", texts(rs, Text::Square));
    put(&mut t, "tenk", texts(rs, Text::TenK));
    put(&mut t, "length_m", Column::Numbers(length));
    put(&mut t, "source", texts(rs, Text::Source));
    put(&mut t, "survey_date", texts(rs, Text::SurveyDate));
    put(&mut t, "etype", texts(rs, Text::Kind));
    put(&mut t, "geometry", geometries(rs));
    assert(t.deep_view() =~= feature_table_of(
        match tier {
            Some(t) => Some((t.code_column@, t.label_column@)),
            None => None,
        },
        spec_read,
        match area {
            Some(a) => Some(a.column@),
            None => None,
        },
        rs.deep_view(),
    ));
    t
}

/// An asset's labels with the bit patterns of both its diameters in millimetres.
pub struct AssetRow {
    pub asset: Asset,
    pub dia: Option<u64>,
    pub host_dia: Option<u64>,
}

/// The contents of an asset's row.
pub struct AssetRowView {
    pub asset: AssetView,
    pub dia: Option<u64>,
    pub host_dia: Option<u64>,
}

impl DeepView for AssetRow {
    type V = AssetRowView;

    open spec fn deep_view(&self) -> AssetRowView {
        AssetRowView { asset: self.asset.deep_view(), dia: self.dia, host_dia: self.host_dia }
    }
}

/// A text of an asset.
#[derive(Clone, Copy)]
pub enum AssetText {
    PressureCode,
    Pressure,
    Material,
    HostMaterial,
}

impl AssetRowView {
    /// The text of an asset, if it has it.
    pub open spec fn text(&self, f: AssetText) -> Option<Seq<char>> {
        match f {
            AssetText::PressureCode => Some(self.asset.pressure_code),
            AssetText::Pressure => Some(self.asset.pressure),
            AssetText::Material => self.asset.material,
            AssetText::HostMaterial => self.asset.host_material,
        }
    }
}

/// The column of a text of assets.
pub open spec fn asset_texts_of(rs: Seq<AssetRowView>, f: AssetText) -> ColumnView {
    ColumnView::Texts(rs.map_values(|r: AssetRowView| r.text(f)))
}

/// The table of assets: the name of each column, and what it holds. What is not labelled anew is
/// taken over from the release.
pub open spec fn asset_table_of(rs: Seq<AssetRowView>) -> Seq<(Seq<char>, ColumnView)> {
    seq![
        ("asset_id"@, ColumnView::Taken("asset_id"@)),
        ("type"@, ColumnView::Taken("type"@)),
        ("pressure_code"@, asset_texts_of(rs, AssetText::PressureCode)),
        ("pressure"@, asset_texts_of(rs, AssetText::Pressure)),
        ("diameter_mm"@, ColumnView::Numbers(rs.map_values(|r: AssetRowView| r.dia))),
        ("material"@, asset_texts_of(rs, AssetText::Material)),
        ("host_diameter_mm"@, ColumnView::Numbers(rs.map_values(|r: AssetRowView| r.host_dia))),
        ("host_material"@, asset_texts_of(rs, AssetText::HostMaterial)),
        ("inserted"@, ColumnView::Flags(rs.map_values(|r: AssetRowView| Some(r.asset.inserted)))),
        (
            "above_ground"@,
            ColumnView::Flags(rs.map_values(|r: AssetRowView| Some(r.asset.above_ground))),
        ),
        ("depth"@, ColumnView::Taken("depth"@)),
        ("inst_date"@, ColumnView::Taken("inst_date"@)),
        ("geometry"@, ColumnView::Taken("geo_shape"@)),
    ]
}

fn text_of_asset(r: &AssetRow, f: AssetText) -> (t: Option<String>)
    ensures
        t.deep_view() == r.deep_view().text(f),
{
    match f {
        AssetText::PressureCode => Some(r.asset.pressure_code.clone()),
        AssetText::Pressure => Some(r.asset.pressure.clone()),
        AssetText::Material => r.asset.material.clone(),
        AssetText::HostMaterial => r.asset.host_material.clone(),
    }
}

fn asset_texts(rs: &Vec<AssetRow>, f: AssetText) -> (c: Column)
    ensures
        c.deep_view() == asset_texts_of(rs.deep_view(), f),
{
    let ghost v = rs.deep_view();
    let ghost want = v.map_values(|r: AssetRowView| r.text(f));
    let mut out: Vec<Option<String>> = Vec::new();
    let mut i: usize = 0;
    assert(out.deep_view() =~= want.take(0));
    while i < rs.len()
        invariant
            i <= rs.len(),
            v == rs.deep_view(),
            want == v.map_values(|r: AssetRowView| r.text(f)),
            out.deep_view() == want.take(i as int),
        decreases rs.len() - i,
    {
        assert(v[i as int] == rs@[i as int].deep_view());
        let ghost before = out.deep_view();
        let t = text_of_asset(&rs[i], f);
        let ghost tv = t.deep_view();
        out.push(t);
        i += 1;
        assert(out.deep_view() =~= before.push(tv));
        assert(want.take(i as int) =~= want.take(i - 1).push(want[i - 1]));
    }
    assert(want.take(i as int) =~= want);
    Column::Texts(out)
}

/// The columns of assets that are no texts: the diameters, those of the mains around them,
/// whether they lie in one, and whether they lie above ground.
fn asset_values(rs: &Vec<AssetRow>) -> (r: (
    Vec<Option<u64>>,
    Vec<Option<u64>>,
    Vec<Option<bool>>,
    Vec<Option<bool>>,
))
    ensures
        r.0@ == rs.deep_view().map_values(|r: AssetRowView| r.dia),
        r.1@ == rs.deep_view().map_values(|r: AssetRowView| r.host_dia),
        r.2@ == rs.deep_view().map_values(|r: AssetRowView| Some(r.asset.inserted)),
        r.3@ == rs.deep_view().map_values(|r: AssetRowView| Some(r.asset.above_ground)),
{
    let mut dia: Vec<Option<u64>> = Vec::new();
    let mut host: Vec<Option<u64>> = Vec::new();
    let mut ins: Vec<Option<bool>> = Vec::new();
    let mut above: Vec<Option<bool>> = Vec::new();
    let mut i: usize = 0;
    while i < rs.len()
        invariant
            i <= rs.len(),
            dia.len() == i,
            host.len() == i,
            ins.len() == i,
            above.len() == i,
            forall|k: int| 0 <= k < i ==> #[trigger] dia@[k] == rs@[k].dia,
            forall|k: int| 0 <= k < i ==> #[trigger] host@[k] == rs@[k].host_dia,
            forall|k: int| 0 <= k < i ==> #[trigger] ins@[k] == Some(rs@[k].asset.inserted),
            forall|k: int| 0 <= k < i ==> #[trigger] above@[k] == Some(rs@[k].asset.above_ground),
        decreases rs.len() - i,
    {
        dia.push(rs[i].dia);
        host.push(rs[i].host_dia);
        ins.push(Some(rs[i].asset.inserted));
        above.push(Some(rs[i].asset.above_ground));
        i += 1;
    }
    assert(dia@ =~= rs.deep_view().map_values(|r: AssetRowView| r.dia));
    assert(host@ =~= rs.deep_view().map_values(|r: AssetRowView| r.host_dia));
    assert(ins@ =~= rs.deep_view().map_values(|r: AssetRowView| Some(r.asset.inserted)));
    assert(above@ =~= rs.deep_view().map_values(|r: AssetRowView| Some(r.asset.above_ground)));
    (dia, host, ins, above)
}

/// Makes the table of assets.
pub fn asset_table(rs: &Vec<AssetRow>) -> (t: Vec<(String, Column)>)
    ensures
        t.deep_view() == asset_table_of(rs.deep_view()),
{
    let mut t: Vec<(String, Column)> = Vec::new();
    assert(t.deep_view() =~= Seq::empty());
    let (dia, host, ins, above) = asset_values(rs);
    put(&mut t, "asset_id", Column::Taken("asset_id".to_owned()));
    put(&mut t, "type", Column::Taken("type".to_owned()));
    put(&mut t, "pressure_code", asset_texts(rs, AssetText::PressureCode));
    put(&mut t, "pressure", asset_texts(rs, AssetText::Pressure));
    put(&mut t, "diameter_mm", Column::Numbers(dia));
    put(&mut t, "material", asset_texts(rs, AssetText::Material));
    put(&mut t, "host_diameter_mm", Column::Numbers(host));
    put(&mut t, "host_material", asset_texts(rs, AssetText::HostMaterial));
    put(&mut t, "inserted", Column::Flags(ins));
    put(&mut t, "above_ground", Column::Flags(above));
    put(&mut t, "depth", Column::Taken("depth".to_owned()));
    put(&mut t, "inst_date", Column::Taken("inst_date".to_owned()));
    put(&mut t, "geometry", Column::Taken("geo_shape".to_owned()));
    assert(t.deep_view() =~= asset_table_of(rs.deep_view()));
    t
}

/// Whether a column holds a text of each feature.
pub open spec fn has_texts(
    c: ColumnView,
    rs: Seq<FeatureView>,
    f: spec_fn(FeatureView) -> Option<Seq<char>>,
) -> bool {
    c matches ColumnView::Texts(v) && v.len() == rs.len() && forall|k: int|
        0 <= k < rs.len() ==> #[trigger] v[k] == f(rs[k])
}

/// Whether a column holds a number of each feature.
pub open spec fn has_numbers(
    c: ColumnView,
    rs: Seq<FeatureView>,
    f: spec_fn(FeatureView) -> Option<u64>,
) -> bool {
    c matches ColumnView::Numbers(v) && v.len() == rs.len() && forall|k: int|
        0 <= k < rs.len() ==> #[trigger] v[k] == f(rs[k])
}

/// The table of features begins with their identifiers, and ends with the square, the grid tile,
/// the length, the source, the date of the survey, the kind and the geometry of each feature in
/// this order, each column under its own name and with the features' values in their order.
pub proof fn law_feature_columns_hold_their_values(
    tier: Option<(Seq<char>, Seq<char>)>,
    spec_read: bool,
    area: Option<Seq<char>>,
    rs: Seq<FeatureView>,
)
    ensures
        ({
            let t = feature_table_of(tier, spec_read, area, rs);
            let n = t.len() as int;
            &&& n == 9 + (if tier is Some {
                2int
            } else {
                0
            }) + (if spec_read {
                5int
            } else {
                0
            }) + (if area is Some {
                1int
            } else {
                0
            })
            &&& t[0].0 == "feature_id"@
            &&& has_texts(t[0].1, rs, |r: FeatureView| r.cells.feature_id)
            &&& t[n - 7].0 == "square"@
            &&& has_texts(t[n - 7].1, rs, |r: FeatureView| Some(r.cells.square))
            &&& t[n - 6].0 == "tenk"@
            &&& has_texts(t[n - 6].1, rs, |r: FeatureView| Some(r.cells.tenk))
            &&& t[n - 5].0 == "length_m"@
            &&& has_numbers(t[n - 5].1, rs, |r: FeatureView| Some(r.length))
            &&& t[n - 4].0 == "source"@
            &&& has_texts(t[n - 4].1, rs, |r: FeatureView| r.cells.source)
            &&& t[n - 3].0 == "survey_date"@
            &&& has_texts(t[n - 3].1, rs, |r: FeatureView| r.cells.survey_date)
            &&& t[n - 2].0 == "etype"@
            &&& has_texts(t[n - 2].1, rs, |r: FeatureView| Some(r.cells.etype))
            &&& t[n - 1].0 == "geometry"@
            &&& t[n - 1].1 matches ColumnView::Blobs(v) && v.len() == rs.len() && forall|k: int|
                0 <= k < rs.len() ==> #[trigger] v[k] == rs[k].cells.geometry
        }),
{
}

/// The codes and labels of the tiers follow the identifiers where tiers are configured, under
/// the names that these give; then come, where specifications are read, the diameter and the
/// material of each feature and of the main around it and whether there is one; then the screen
/// tips; then the areas where they are configured.
pub proof fn law_configured_columns_hold_their_values(
    tier: Option<(Seq<char>, Seq<char>)>,
    spec_read: bool,
    area: Option<Seq<char>>,
    rs: Seq<FeatureView>,
)
    requires
        tier is Some ==> forall|k: int| 0 <= k < rs.len() ==> (#[trigger] rs[k]).cells.tier is Some,
        spec_read ==> forall|k: int| 0 <= k < rs.len() ==> (#[trigger] rs[k]).cells.spec is Some,
        area is Some ==> forall|k: int| 0 <= k < rs.len() ==> (#[trigger] rs[k]).cells.area is Some,
    ensures
        ({
            let t = feature_table_of(tier, spec_read, area, rs);
            let a = if tier is Some {
                3int
            } else {
                1
            };
            let b = if spec_read {
                a + 5
            } else {
                a
            };
            &&& tier matches Some((code, label)) ==> {
                &&& t[1].0 == code
                &&& has_texts(t[1].1, rs, |r: FeatureView| (r.cells.tier->0).0)
                &&& t[2].0 == label
                &&& has_texts(t[2].1, rs, |r: FeatureView| Some((r.cells.tier->0).1))
            }
            &&& spec_read ==> {
                &&& t[a].0 == "diameter_mm"@
                &&& has_numbers(t[a].1, rs, |r: FeatureView| r.dia)
                &&& t[a + 1].0 == "material"@
                &&& has_texts(t[a + 1].1, rs, |r: FeatureView| (r.cells.spec->0).mat)
                &&& t[a + 2].0 == "host_diameter_mm"@
                &&& has_numbers(t[a + 2].1, rs, |r: FeatureView| r.host_dia)
                &&& t[a + 3].0 == "host_material"@
                &&& has_texts(t[a + 3].1, rs, |r: FeatureView| (r.cells.spec->0).host_mat)
                &&& t[a + 4].0 == "inserted"@
                &&& t[a + 4].1 matches ColumnView::Flags(v) && v.len() == rs.len() && forall|k: int|
                    0 <= k < rs.len() ==> (#[trigger] v[k]) is Some && ((
                    rs[k].cells.spec->0).host_mat is Some ==> v[k] == Some(true)) && ((
                    rs[k].cells.spec->0).host_mat is None && (
                    rs[k].cells.spec->0).host_dia is None ==> v[k] == Some(false))
            }
            &&& t[b].0 == "screentip"@
            &&& has_texts(t[b].1, rs, |r: FeatureView| r.cells.screentip)
            &&& area matches Some(c) ==> {
                &&& t[b + 1].0 == c
                &&& has_texts(t[b + 1].1, rs, |r: FeatureView| r.cells.area->0)
            }
        }),
{
}

/// The table of assets has these columns in this order; what is labelled anew has the values of
/// the assets in their order, and the rest is taken over from the release, its shape as the
/// geometry.
pub proof fn law_asset_columns_hold_their_values(rs: Seq<AssetRowView>, k: int)
    requires
        0 <= k < rs.len(),
    ensures
        ({
            let t = asset_table_of(rs);
            &&& t.len() == 13
            &&& t[0] == ("asset_id"@, ColumnView::Taken("asset_id"@))
            &&& t[1] == ("type"@, ColumnView::Taken("type"@))
            &&& t[2].0 == "pressure_code"@
            &&& t[2].1 matches ColumnView::Texts(v) && v.len() == rs.len() && v[k] == Some(
                rs[k].asset.pressure_code,
            )
            &&& t[3].0 == "pressure"@
            &&& t[3].1 matches ColumnView::Texts(v) && v.len() == rs.len() && v[k] == Some(
                rs[k].asset.pressure,
            )
            &&& t[4].0 == "diameter_mm"@
            &&& t[4].1 matches ColumnView::Numbers(v) && v.len() == rs.len() && v[k] == rs[k].dia
            &&& t[5].0 == "material"@
            &&& t[5].1 matches ColumnView::Texts(v) && v.len() == rs.len() && v[k]
                == rs[k].asset.material
            &&& t[6].0 == "host_diameter_mm"@
            &&& t[6].1 matches ColumnView::Numbers(v) && v.len() == rs.len() && v[k]
                == rs[k].host_dia
            &&& t[7].0 == "host_material"@
            &&& t[7].1 matches ColumnView::Texts(v) && v.len() == rs.len() && v[k]
                == rs[k].asset.host_material
            &&& t[8].0 == "inserted"@
            &&& t[8].1 matches ColumnView::Flags(v) && v.len() == rs.len() && v[k] == Some(
                rs[k].asset.inserted,
            )
            &&& t[9].0 == "above_ground"@
            &&& t[9].1 matches ColumnView::Flags(v) && v.len() == rs.len() && v[k] == Some(
                rs[k].asset.above_ground,
            )
            &&& t[10] == ("depth"@, ColumnView::Taken("depth"@))
            &&& t[11] == ("inst_date"@, ColumnView::Taken("inst_date"@))
            &&& t[12] == ("geometry"@, ColumnView::Taken("geo_shape"@))
        }),
{
}

} // verus!
