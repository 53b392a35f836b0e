//! The vocabulary of the one distribution that needs no configuration.
use vstd::prelude::*;
use vstd::string::*;
use crate::cgm::{deob, find_dense_start, first_dense, fits, readable, search_from, search_to};
use crate::config::{Aps, Area, Keep, Tier, TierRow};
use crate::ext::layer_of;
use crate::label::{code_of, label_of, tier_of};
use crate::pattern::{bytes_regex_captures_all, regex_compiles, BytesPattern, Pattern};
use crate::pipes::pressure_label_of;
use crate::number::two_bytes;
use crate::text::{lowercased, pieces, same, Class};
use crate::vocab::{lookup, Vocab};
use crate::tile::{meta_table, outcome_from, parse_from, read_meta, square_of, Parsed};

verus! {

/// Which part of a tile's path is its grid square.
pub const SQUARE_INDEX: usize = 3;

/// The texts of a list of one.
pub open spec fn only(v: Seq<String>, t: Seq<char>) -> bool {
    v.len() == 1 && v[0]@ == t
}

/// The vocabulary of the application structures.
pub fn aps() -> (r: Aps)
    ensures
        r.layer@ == "layer"@,
        r.feature@ == "grobject"@,
        r.layer_attr@ == "LayerName"@,
        r.id_attr@ == "Name"@,
        r.spec_attr@ == "ScreenTip"@,
        only(r.id_null@, "UNKNOWN"@),
        r.strip_layer_prefix,
{
    let mut id_null: Vec<String> = Vec::new();
    id_null.push("UNKNOWN".to_owned());
    Aps {
        layer: "layer".to_owned(),
        feature: "grobject".to_owned(),
        layer_attr: "LayerName".to_owned(),
        id_attr: "Name".to_owned(),
        spec_attr: "ScreenTip".to_owned(),
        id_null,
        strip_layer_prefix: true,
    }
}

/// The layers that are kept.
pub fn keep() -> (r: Keep)
    ensures
        only(r.layer_contains@, "Mains & Plant"@),
{
    let mut layer_contains: Vec<String> = Vec::new();
    layer_contains.push("Mains & Plant".to_owned());
    Keep { layer_contains }
}

/// The pressure tier of a layer: its code, if it is a known one, and its label.
pub open spec fn pressure_of(layer: Seq<char>) -> (Option<Seq<char>>, Seq<char>) {
    if layer == "Low Pressure Mains & Plant"@ {
        (Some("lp"@), "low pressure"@)
    } else if layer == "Medium Pressure Mains & Plant"@ {
        (Some("mp"@), "medium pressure"@)
    } else if layer == "Intermediate Pressure Mains & Plant"@ {
        (Some("ip"@), "intermediate pressure"@)
    } else if layer == "Local High Pressure Mains & Plant"@ {
        (Some("lhp"@), "local high pressure"@)
    } else if layer == "National High Pressure Mains & Plant"@ {
        (Some("nhp"@), "national high pressure"@)
    } else {
        (None, lowercased(layer))
    }
}

/// The pressure tier of a layer.
pub fn pressure(layer: &str) -> (r: (Option<String>, String))
    ensures
        r.deep_view() == pressure_of(layer@),
{
    if same(layer, "Low Pressure Mains & Plant") {
        (Some("lp".to_owned()), "low pressure".to_owned())
    } else if same(layer, "Medium Pressure Mains & Plant") {
        (Some("mp".to_owned()), "medium pressure".to_owned())
    } else if same(layer, "Intermediate Pressure Mains & Plant") {
        (Some("ip".to_owned()), "intermediate pressure".to_owned())
    } else if same(layer, "Local High Pressure Mains & Plant") {
        (Some("lhp".to_owned()), "local high pressure".to_owned())
    } else if same(layer, "National High Pressure Mains & Plant") {
        (Some("nhp".to_owned()), "national high pressure".to_owned())
    } else {
        (None, layer.to_lowercase())
    }
}

/// The material that a code stands for.
pub open spec fn material_named(code: Seq<char>) -> Option<Seq<char>> {
    if code == "PE"@ {
        Some("polyethylene"@)
    } else if code == "CI"@ {
        Some("cast iron"@)
    } else if code == "SI"@ {
        Some("spun iron"@)
    } else if code == "DI"@ {
        Some("ductile iron"@)
    } else if code == "ST"@ {
        Some("steel"@)
    } else if code == "PV"@ {
        Some("pvc"@)
    } else if code == "AS"@ {
        Some("asbestos cement"@)
    } else if code == "LE"@ {
        Some("lead"@)
    } else if code == "UN"@ {
        Some("unknown"@)
    } else if code == "NA"@ {
        Some("not available"@)
    } else {
        None
    }
}

/// The material that a code stands for.
pub fn material(code: &str) -> (r: Option<&'static str>)
    ensures
        material_named(code@) == (match r {
            Some(m) => Some(m@),
            None => None,
        }),
{
    if same(code, "PE") {
        Some("polyethylene")
    } else if same(code, "CI") {
        Some("cast iron")
    } else if same(code, "SI") {
        Some("spun iron")
    } else if same(code, "DI") {
        Some("ductile iron")
    } else if same(code, "ST") {
        Some("steel")
    } else if same(code, "PV") {
        Some("pvc")
    } else if same(code, "AS") {
        Some("asbestos cement")
    } else if same(code, "LE") {
        Some("lead")
    } else if same(code, "UN") {
        Some("unknown")
    } else if same(code, "NA") {
        Some("not available")
    } else {
        None
    }
}

/// The tiers by their layers, which give every layer its pressure.
pub fn tier() -> (r: Tier)
    ensures
        r.code_column@ == "pressure_code"@,
        r.label_column@ == "pressure"@,
        forall|layer: Seq<char>|
            #![trigger code_of(r.map@, layer)]
            #![trigger label_of(r.map@, layer)]
            (code_of(r.map@, layer), label_of(r.map@, layer)) == pressure_of(layer),
{
    let mut map: Vec<TierRow> = Vec::new();
    map.push(row("Low Pressure Mains & Plant", "lp", "low pressure"));
    map.push(row("Medium Pressure Mains & Plant", "mp", "medium pressure"));
    map.push(row("Intermediate Pressure Mains & Plant", "ip", "intermediate pressure"));
    map.push(row("Local High Pressure Mains & Plant", "lhp", "local high pressure"));
    map.push(row("National High Pressure Mains & Plant", "nhp", "national high pressure"));
    proof {
        reveal_strlit("Low Pressure Mains & Plant");
        assert("Low Pressure Mains & Plant"@.len() == 26);
        reveal_strlit("Medium Pressure Mains & Plant");
        assert("Medium Pressure Mains & Plant"@.len() == 29);
        reveal_strlit("Intermediate Pressure Mains & Plant");
        assert("Intermediate Pressure Mains & Plant"@.len() == 35);
        reveal_strlit("Local High Pressure Mains & Plant");
        assert("Local High Pressure Mains & Plant"@.len() == 33);
        reveal_strlit("National High Pressure Mains & Plant");
        assert("National High Pressure Mains & Plant"@.len() == 36);
        let m = map@;
        let (m4, m3, m2, m1) = (m.take(4), m.take(3), m.take(2), m.take(1));
        assert(m.drop_last() =~= m4 && m4.drop_last() =~= m3 && m3.drop_last() =~= m2);
        assert(m2.drop_last() =~= m1 && m1.drop_last() =~= Seq::empty());
        assert forall|layer: Seq<char>|
            #![trigger code_of(m, layer)]
            #![trigger label_of(m, layer)]
            (code_of(m, layer), label_of(m, layer)) == pressure_of(layer) by {
            assert(tier_of(m1.drop_last(), layer) is None);
            assert(tier_of(m1, layer) == if m[0].m@ == layer {
                Some(m[0])
            } else {
                None
            });
            assert(tier_of(m2, layer) == if m[1].m@ == layer {
                Some(m[1])
            } else {
                tier_of(m1, layer)
            });
            assert(tier_of(m3, layer) == if m[2].m@ == layer {
                Some(m[2])
            } else {
                tier_of(m2, layer)
            });
            assert(tier_of(m4, layer) == if m[3].m@ == layer {
                Some(m[3])
            } else {
                tier_of(m3, layer)
            });
        }
    }
    Tier { code_column: "pressure_code".to_owned(), label_column: "pressure".to_owned(), map }
}

fn row(m: &str, code: &str, label: &str) -> (r: TierRow)
    ensures
        r.m@ == m@,
        r.code@ == code@,
        r.label@ == label@,
{
    TierRow { m: m.to_owned(), code: code.to_owned(), label: label.to_owned() }
}

/// The materials by their codes.
pub fn materials() -> (r: Vocab)
    ensures
        forall|code: Seq<char>| #[trigger] lookup(r@, code) == material_named(code),
{
    let mut v = Vocab::new();
    v.insert("PE".to_owned(), "polyethylene".to_owned());
    v.insert("CI".to_owned(), "cast iron".to_owned());
    v.insert("SI".to_owned(), "spun iron".to_owned());
    v.insert("DI".to_owned(), "ductile iron".to_owned());
    v.insert("ST".to_owned(), "steel".to_owned());
    v.insert("PV".to_owned(), "pvc".to_owned());
    v.insert("AS".to_owned(), "asbestos cement".to_owned());
    v.insert("LE".to_owned(), "lead".to_owned());
    v.insert("UN".to_owned(), "unknown".to_owned());
    v.insert("NA".to_owned(), "not available".to_owned());
    proof {
        reveal_strlit("PE");
        assert("PE"@[0] == 'P' && "PE"@[1] == 'E');
        reveal_strlit("CI");
        assert("CI"@[0] == 'C' && "CI"@[1] == 'I');
        reveal_strlit("SI");
        assert("SI"@[0] == 'S' && "SI"@[1] == 'I');
        reveal_strlit("DI");
        assert("DI"@[0] == 'D' && "DI"@[1] == 'I');
        reveal_strlit("ST");
        assert("ST"@[0] == 'S' && "ST"@[1] == 'T');
        reveal_strlit("PV");
        assert("PV"@[0] == 'P' && "PV"@[1] == 'V');
        reveal_strlit("AS");
        assert("AS"@[0] == 'A' && "AS"@[1] == 'S');
        reveal_strlit("LE");
        assert("LE"@[0] == 'L' && "LE"@[1] == 'E');
        reveal_strlit("UN");
        assert("UN"@[0] == 'U' && "UN"@[1] == 'N');
        reveal_strlit("NA");
        assert("NA"@[0] == 'N' && "NA"@[1] == 'A');
        assert forall|code: Seq<char>| #[trigger] lookup(v@, code) == material_named(code) by {}
    }
    v
}

/// The expression of a specification: a diameter, its unit and a material, and in brackets
/// those of the main around it.
pub fn tip_pattern() -> (r: Option<Pattern>)
    ensures
        r is Some == regex_compiles(
            "^(?P<d>\\d+(?:\\.\\d+)?)\\s*(?P<u>MM|\")?\\s*(?P<m>[A-Z]{2})?(?:\\s*\\(IN\\s*(?P<hd>\\d+(?:\\.\\d+)?)\\s*(?P<hu>MM|\")?\\s*(?P<hm>[A-Z]{2})?\\s*\\))?\\s*$"@,
        ),
        r matches Some(p) ==> p@
            == "^(?P<d>\\d+(?:\\.\\d+)?)\\s*(?P<u>MM|\")?\\s*(?P<m>[A-Z]{2})?(?:\\s*\\(IN\\s*(?P<hd>\\d+(?:\\.\\d+)?)\\s*(?P<hu>MM|\")?\\s*(?P<hm>[A-Z]{2})?\\s*\\))?\\s*$"@,
{
    Pattern::new(
        "^(?P<d>\\d+(?:\\.\\d+)?)\\s*(?P<u>MM|\")?\\s*(?P<m>[A-Z]{2})?(?:\\s*\\(IN\\s*(?P<hd>\\d+(?:\\.\\d+)?)\\s*(?P<hu>MM|\")?\\s*(?P<hm>[A-Z]{2})?\\s*\\))?\\s*$",
    )
}

/// Where the areas are listed, in which column they go, and the section that is none.
pub fn area() -> (r: Area)
    ensures
        r.file@ == "meta/NG.ADF"@,
        r.column@ == "network_area"@,
        r.skip_section.deep_view() == Some("Areas"@),
{
    Area {
        file: "meta/NG.ADF".to_owned(),
        column: "network_area".to_owned(),
        skip_section: Some("Areas".to_owned()),
    }
}

/// Reads a tile whose body starts where the geometry first gets dense, whichever layers it
/// names.
pub fn parse_tile(
    d: &[u8],
    entry: &BytesPattern,
    name: &str,
    a: &Aps,
    keep: &Keep,
) -> (r: Parsed)
    requires
        fits(d@),
    ensures
        ({
            let db = readable(d@);
            let lo = search_from(db);
            outcome_from(
                d@,
                first_dense(d@, lo, search_to(d@, lo)),
                meta_table(bytes_regex_captures_all(entry@, db)),
                name@,
                SQUARE_INDEX as int,
                *a,
                *keep,
                r,
            )
        }),
{
    let db = deob(d);
    let meta = read_meta(&entry.captures_all(db.as_slice()));
    let s = find_dense_start(d, db.as_slice());
    parse_from(d, &db, s, &meta, name, SQUARE_INDEX, a, keep)
}

/// The layer that a pressure's code stands for elsewhere has that code in lower case as its own,
/// and the label that the code has among the assets.
pub proof fn law_pressures_agree()
    ensures
        pressure_of(layer_of("LP"@)) == (Some("lp"@), pressure_label_of("lp"@)),
        pressure_of(layer_of("MP"@)) == (Some("mp"@), pressure_label_of("mp"@)),
        pressure_of(layer_of("IP"@)) == (Some("ip"@), "intermediate pressure"@),
        pressure_of(layer_of("LHP"@)) == (Some("lhp"@), "local high pressure"@),
        pressure_of("National High Pressure Mains & Plant"@) == (
            Some("nhp"@),
            "national high pressure"@,
        ),
{
    reveal_strlit("LP");
    reveal_strlit("MP");
    reveal_strlit("IP");
    reveal_strlit("HP");
    reveal_strlit("LHP");
    reveal_strlit("lp");
    reveal_strlit("mp");
    assert("LP"@[0] == 'L' && "MP"@[0] == 'M' && "IP"@[0] == 'I' && "HP"@[0] == 'H');
    assert("LHP"@.len() == 3 && "lp"@[0] == 'l' && "mp"@[0] == 'm');
    reveal_strlit("Low Pressure Mains & Plant");
    assert("Low Pressure Mains & Plant"@.len() == 26);
    reveal_strlit("Medium Pressure Mains & Plant");
    assert("Medium Pressure Mains & Plant"@.len() == 29);
    reveal_strlit("Intermediate Pressure Mains & Plant");
    assert("Intermediate Pressure Mains & Plant"@.len() == 35);
    reveal_strlit("Local High Pressure Mains & Plant");
    assert("Local High Pressure Mains & Plant"@.len() == 33);
    reveal_strlit("National High Pressure Mains & Plant");
    assert("National High Pressure Mains & Plant"@.len() == 36);
}

/// A layer that is none of the five has no code, and its own name in lower case as its label.
pub proof fn law_other_layers_have_no_pressure(layer: Seq<char>)
    requires
        layer != "Low Pressure Mains & Plant"@,
        layer != "Medium Pressure Mains & Plant"@,
        layer != "Intermediate Pressure Mains & Plant"@,
        layer != "Local High Pressure Mains & Plant"@,
        layer != "National High Pressure Mains & Plant"@,
    ensures
        pressure_of(layer) == (None::<Seq<char>>, lowercased(layer)),
{
}

/// Ten codes of materials have names, no two the same one, and no other code has any.
pub proof fn law_names_of_materials(code: Seq<char>)
    ensures
        material_named("PE"@) == Some("polyethylene"@),
        material_named("CI"@) == Some("cast iron"@),
        material_named("SI"@) == Some("spun iron"@),
        material_named("DI"@) == Some("ductile iron"@),
        material_named("ST"@) == Some("steel"@),
        material_named("PV"@) == Some("pvc"@),
        material_named("AS"@) == Some("asbestos cement"@),
        material_named("LE"@) == Some("lead"@),
        material_named("UN"@) == Some("unknown"@),
        material_named("NA"@) == Some("not available"@),
        material_named(code) is Some ==> code.len() == 2,
{
    reveal_strlit("PE");
    assert("PE"@[0] == 'P' && "PE"@[1] == 'E');
    reveal_strlit("CI");
    assert("CI"@[0] == 'C' && "CI"@[1] == 'I');
    reveal_strlit("SI");
    assert("SI"@[0] == 'S' && "SI"@[1] == 'I');
    reveal_strlit("DI");
    assert("DI"@[0] == 'D' && "DI"@[1] == 'I');
    reveal_strlit("ST");
    assert("ST"@[0] == 'S' && "ST"@[1] == 'T');
    reveal_strlit("PV");
    assert("PV"@[0] == 'P' && "PV"@[1] == 'V');
    reveal_strlit("AS");
    assert("AS"@[0] == 'A' && "AS"@[1] == 'S');
    reveal_strlit("LE");
    assert("LE"@[0] == 'L' && "LE"@[1] == 'E');
    reveal_strlit("UN");
    assert("UN"@[0] == 'U' && "UN"@[1] == 'N');
    reveal_strlit("NA");
    assert("NA"@[0] == 'N' && "NA"@[1] == 'A');
}

/// The grid square of a tile is the fourth part of its path, where the path has as many.
pub proof fn law_square_is_the_fourth_part(name: Seq<char>, facet: Seq<char>)
    requires
        pieces(name, Class::Is('/')).len() >= 4,
        two_bytes(facet) is Some,
    ensures
        square_of(name, SQUARE_INDEX as int, facet) == Some(pieces(name, Class::Is('/'))[3]),
{
}

} // verus!
