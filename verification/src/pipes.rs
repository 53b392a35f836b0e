//! The open asset release: its labels.
use vstd::prelude::*;
use vstd::string::*;
use crate::label::{scale, scale_of, Scale};
use crate::text::{is_text, lowercased, same, text_opt};
use crate::vocab::{lookup, Vocab};

verus! {

/// Where the asset release is read from and where it is written to.
pub struct PipesCfg {
    pub file: String,
    pub out: String,
}

/// Where the asset release is written to by default.
pub fn d_out() -> (r: String)
    ensures
        r@ == "dist/pipes.parquet"@,
{
    "dist/pipes.parquet".to_owned()
}

/// The unit of a diameter that may be missing, where `I` stands for inches.
pub open spec fn mm_of(v: Option<u64>, unit: Option<Seq<char>>) -> Option<Scale> {
    match v {
        Some(v) => scale_of(v, unit, "I"@),
        None => None,
    }
}

/// Finds the unit of a diameter that may be missing.
pub fn mm(v: Option<u64>, unit: Option<&str>) -> (r: Option<Scale>)
    ensures
        r == mm_of(v, text_opt(unit)),
{
    match v {
        Some(v) => scale(v, unit, "I"),
        None => None,
    }
}

/// The label of a pressure code; another code is its own label.
pub open spec fn pressure_label_of(code: Seq<char>) -> Seq<char> {
    if code == "lp"@ {
        "low pressure"@
    } else if code == "mp"@ {
        "medium pressure"@
    } else {
        code
    }
}

/// The label of a pressure code.
pub fn pressure_label(code: &str) -> (r: String)
    ensures
        r@ == pressure_label_of(code@),
{
    if same(code, "lp") {
        "low pressure".to_owned()
    } else if same(code, "mp") {
        "medium pressure".to_owned()
    } else {
        code.to_owned()
    }
}

/// The label of a material code, in lower case where the table has none.
pub open spec fn material_label(code: Option<Seq<char>>, mats: Map<Seq<char>, Seq<char>>) -> Option<
    Seq<char>,
> {
    match code {
        Some(c) => match lookup(mats, c) {
            Some(m) => Some(m),
            None => Some(lowercased(c)),
        },
        None => None,
    }
}

fn read_material(code: Option<&str>, mats: &Vocab) -> (r: Option<String>)
    ensures
        r.deep_view() == material_label(text_opt(code), mats@),
{
    match code {
        Some(c) => match mats.copied(c) {
            Some(m) => Some(m),
            None => Some(c.to_lowercase()),
        },
        None => None,
    }
}

/// The labels of an asset.
pub struct Asset {
    pub pressure_code: String,
    pub pressure: String,
    pub material: Option<String>,
    pub host_material: Option<String>,
    pub inserted: bool,
    pub above_ground: bool,
}

/// The contents of an asset's labels.
pub struct AssetView {
    pub pressure_code: Seq<char>,
    pub pressure: Seq<char>,
    pub material: Option<Seq<char>>,
    pub host_material: Option<Seq<char>>,
    pub inserted: bool,
    pub above_ground: bool,
}

impl DeepView for Asset {
    type V = AssetView;

    open spec fn deep_view(&self) -> AssetView {
        AssetView {
            pressure_code: self.pressure_code@,
            pressure: self.pressure@,
            material: self.material.deep_view(),
            host_material: self.host_material.deep_view(),
            inserted: self.inserted,
            above_ground: self.above_ground,
        }
    }
}

/// The labels of an asset with the given pressure code, material code, material code of the
/// main around it, and mark of lying above ground. It lies in an older main where that has a
/// material.
pub open spec fn asset_of(
    code: Seq<char>,
    material: Option<Seq<char>>,
    carrier: Option<Seq<char>>,
    above: Option<Seq<char>>,
    mats: Map<Seq<char>, Seq<char>>,
) -> AssetView {
    AssetView {
        pressure_code: code,
        pressure: pressure_label_of(code),
        material: material_label(material, mats),
        host_material: material_label(carrier, mats),
        inserted: carrier is Some,
        above_ground: above == Some("True"@),
    }
}

/// Labels an asset whose pressure code is in lower case.
pub fn label_asset(
    code: String,
    material: Option<&str>,
    carrier: Option<&str>,
    above: Option<&str>,
    mats: &Vocab,
) -> (r: Asset)
    ensures
        r.deep_view() == asset_of(
            code@,
            text_opt(material),
            text_opt(carrier),
            text_opt(above),
            mats@,
        ),
{
    let pressure = pressure_label(code.as_str());
    Asset {
        pressure_code: code,
        pressure,
        material: read_material(material, mats),
        host_material: read_material(carrier, mats),
        inserted: carrier.is_some(),
        above_ground: is_text(above, "True"),
    }
}

/// A pressure that may be missing, in lower case; empty where it is.
pub open spec fn pressure_code_of(p: Option<Seq<char>>) -> Seq<char> {
    lowercased(
        match p {
            Some(p) => p,
            None => Seq::empty(),
        },
    )
}

/// Labels an asset.
pub fn asset(
    pressure: Option<&str>,
    material: Option<&str>,
    carrier: Option<&str>,
    above: Option<&str>,
    mats: &Vocab,
) -> (r: Asset)
    ensures
        r.deep_view() == asset_of(
            pressure_code_of(text_opt(pressure)),
            text_opt(material),
            text_opt(carrier),
            text_opt(above),
            mats@,
        ),
{
    let code = match pressure {
        Some(p) => p.to_lowercase(),
        None => {
            let none = String::new();
            assert(none@ =~= Seq::empty());
            none.as_str().to_lowercase()
        },
    };
    label_asset(code, material, carrier, above, mats)
}

/// The mark `I` stands for inches and `MM` for millimetres; any other number is one of
/// millimetres where it is no smaller than 100, and has no known unit where it is smaller. What
/// is not given has none.
pub proof fn law_units_of_assets(v: u64)
    requires
        v <= 0x7ff0_0000_0000_0000,
    ensures
        mm_of(Some(v), Some("I"@)) == Some(Scale::Inches),
        mm_of(Some(v), Some("MM"@)) == Some(Scale::Millimetres),
        v >= 0x4059_0000_0000_0000 ==> mm_of(Some(v), None) == Some(Scale::Millimetres),
        v < 0x4059_0000_0000_0000 ==> mm_of(Some(v), None) is None,
        forall|unit: Option<Seq<char>>| mm_of(None, unit) is None,
{
    reveal_strlit("I");
    reveal_strlit("MM");
    assert("I"@.len() != "MM"@.len());
}

/// A material is labelled as the table says and else by its code in lower case, that of the main
/// around an asset like its own; an asset lies in another where that has a material, and above
/// ground where it says so.
pub proof fn law_labels_of_assets(
    code: Seq<char>,
    m: Seq<char>,
    h: Seq<char>,
    above: Option<Seq<char>>,
    mats: Map<Seq<char>, Seq<char>>,
)
    ensures
        ({
            let a = asset_of(code, Some(m), Some(h), above, mats);
            &&& a.pressure_code == code
            &&& mats.contains_key(m) ==> a.material == Some(mats[m])
            &&& !mats.contains_key(m) ==> a.material == Some(lowercased(m))
            &&& mats.contains_key(h) ==> a.host_material == Some(mats[h])
            &&& !mats.contains_key(h) ==> a.host_material == Some(lowercased(h))
            &&& a.inserted
            &&& a.above_ground <==> above == Some("True"@)
        }),
        asset_of(code, None, None, above, mats).material is None,
        asset_of(code, Some(m), None, above, mats).host_material is None,
        !asset_of(code, Some(m), None, above, mats).inserted,
{
}

/// The two codes of pressures have labels, and any other code is its own.
pub proof fn law_labels_of_pressures(
    code: Seq<char>,
    material: Option<Seq<char>>,
    carrier: Option<Seq<char>>,
    above: Option<Seq<char>>,
    mats: Map<Seq<char>, Seq<char>>,
)
    ensures
        asset_of("lp"@, material, carrier, above, mats).pressure == "low pressure"@,
        asset_of("mp"@, material, carrier, above, mats).pressure == "medium pressure"@,
        code != "lp"@ && code != "mp"@ ==> asset_of(code, material, carrier, above, mats).pressure
            == code,
        pressure_code_of(Some(code)) == lowercased(code),
        pressure_code_of(None) == lowercased(Seq::empty()),
{
    reveal_strlit("lp");
    reveal_strlit("mp");
    assert("lp"@[0] != "mp"@[0]);
}

} // verus!
