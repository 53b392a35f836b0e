use gdn_gis::bucket::Row;
use gdn_gis::builtin;
use gdn_gis::config::{Area, Tier, TierRow};
use gdn_gis::geom::Geom;
use gdn_gis::label::{areas, cells, dia_mm, geo_meta, inserted, parse_tip, read_areas, read_tip, section_pattern, tally, tenk, tier, tile_entries, tile_pattern, Scale};
use gdn_gis::pattern::{BytesPattern, Pattern};
use gdn_gis::pipes;
use gdn_gis::table::{asset_table, feature_table, AssetRow, Column, Feature};
use gdn_gis::vocab::Vocab;

const TIP: &str = r#"^(\d+(?:\.\d+)?)\s*(MM|")?\s*([A-Z]{2})?(?:\s*\(IN\s*(\d+(?:\.\d+)?)\s*(MM|")?\s*([A-Z]{2})?\s*\))?\s*$"#;

fn mats() -> Vocab {
    let mut m = Vocab::new();
    m.insert("PE".to_string(), "polyethylene".to_string());
    m.insert("CI".to_string(), "cast iron".to_string());
    m
}

fn tiers() -> Tier {
    let row = |m: &str, code: &str, label: &str| TierRow { m: m.to_string(), code: code.to_string(), label: label.to_string() };
    Tier {
        code_column: "pressure_code".to_string(),
        label_column: "pressure".to_string(),
        map: vec![row("Low", "xx", "first"), row("Mid", "mp", "medium"), row("Low", "lp", "low")],
    }
}

fn row(layer: &str, tip: Option<&str>, facet: &str) -> Row {
    Row {
        fid: Some("f".to_string()),
        layer: layer.to_string(),
        tip: tip.map(str::to_string),
        square: "SK".to_string(),
        facet: facet.to_string(),
        src: None,
        date: Some("2020".to_string()),
        year: None,
        geom: Geom::Line(vec![]),
    }
}

#[test]
fn diameters_have_a_unit() {
    assert_eq!(dia_mm(4.0f64.to_bits(), Some("\"")), Some(Scale::Inches));
    assert_eq!(dia_mm(4.0f64.to_bits(), Some("MM")), Some(Scale::Millimetres));
    assert_eq!(dia_mm(100.0f64.to_bits(), None), Some(Scale::Millimetres));
    assert_eq!(dia_mm(99.9f64.to_bits(), None), None);
    assert_eq!(dia_mm(180.0f64.to_bits(), Some("CM")), Some(Scale::Millimetres));
    assert_eq!(dia_mm(f64::NAN.to_bits(), None), None);
}

#[test]
fn specification_is_read() {
    let re = Pattern::new(TIP).unwrap();
    let t = parse_tip(Some("180MM PE (IN 8\" CI)"), &re, &mats());
    assert_eq!(t.dia.as_ref().unwrap().text, "180");
    assert_eq!(t.dia.as_ref().unwrap().unit, Some("MM".to_string()));
    assert_eq!(t.mat, Some("polyethylene".to_string()));
    assert_eq!(t.host_dia.as_ref().unwrap().text, "8");
    assert_eq!(t.host_mat, Some("cast iron".to_string()));
    assert!(inserted(&t, 8.0f64.to_bits()));
    let t = parse_tip(Some("180MM ZZ"), &re, &mats());
    assert_eq!(t.mat, None);
    assert!(t.host_dia.is_none());
    assert!(!inserted(&t, 0));
    let t = parse_tip(Some("what"), &re, &mats());
    assert!(t.dia.is_none() && t.mat.is_none());
    assert!(parse_tip(None, &re, &mats()).dia.is_none());
}

#[test]
fn specification_from_groups() {
    let some = |t: &str| Some(t.to_string());
    let g = Some(vec![some("x"), some("12"), None, some("CI"), some("no number")]);
    let t = read_tip(&g, &mats());
    assert_eq!(t.dia.as_ref().unwrap().text, "12");
    assert_eq!(t.mat, Some("cast iron".to_string()));
    assert!(t.host_dia.is_none() && t.host_mat.is_none());
    let g = Some(vec![some("x"), some("12"), None, None, some("6"), None, None]);
    let t = read_tip(&g, &mats());
    assert!(!inserted(&t, 6.0f64.to_bits()));
    assert!(inserted(&t, 600.0f64.to_bits()));
}

#[test]
fn patterns_that_do_not_compile() {
    assert!(Pattern::new("(").is_none());
    assert!(BytesPattern::new("(").is_none());
}

#[test]
fn pattern_matches() {
    let p = Pattern::new("(?i)^cadent").unwrap();
    assert!(p.is_match("CADENT GAS"));
    assert!(!p.is_match("Other"));
}

#[test]
fn grid_tile_of_facet() {
    assert_eq!(tenk("SK1234"), "SK13");
    assert_eq!(tenk("SK12"), "SK12");
    assert_eq!(tenk("\u{e9}bcde"), "\u{e9}bce");
}

#[test]
fn areas_list_their_tiles() {
    let text = "[Areas]\nTile1=XX00\n[North]\nTile1=SK12\nTile22=SK13\nother\n[East]\r\nTile1=TL01\nTile2=SK12\n";
    let s = section_pattern().unwrap();
    let t = tile_pattern().unwrap();
    let a = areas(text, &s, &t, Some("Areas"));
    assert_eq!(a.copied("SK13"), Some("North".to_string()));
    assert_eq!(a.copied("SK12"), Some("East".to_string()));
    assert_eq!(a.copied("TL01"), Some("East".to_string()));
    assert_eq!(a.copied("XX00"), None);
    let a = areas(text, &s, &t, None);
    assert_eq!(a.copied("XX00"), Some("Areas".to_string()));
}

#[test]
fn areas_from_matches() {
    let g = |t: &str| Some(vec![None, Some(t.as_bytes().to_vec())]);
    let found = vec![(None, g("A1")), (g("North"), g("A2")), (g("Skip"), None), (None, g("A3")), (None, None)];
    let a = read_areas(&found, Some("Skip"));
    assert_eq!(a.copied("A1"), None);
    assert_eq!(a.copied("A2"), None);
    assert_eq!(a.copied("A3"), None);
}

#[test]
fn skipped_section_keeps_its_tiles() {
    let s = section_pattern().unwrap();
    let t = tile_pattern().unwrap();
    let text = "[East]\nTile1=TM14\n[Areas]\nTile1=SE33\nTile2=TM14\n[North]\nTile1=SE44\n";
    let a = areas(text, &s, &t, Some("Areas"));
    assert_eq!(a.copied("TM14"), Some("East".to_string()));
    assert_eq!(a.copied("SE33"), None);
    assert_eq!(a.copied("SE44"), Some("North".to_string()));
    let a = areas(text, &s, &t, None);
    assert_eq!(a.copied("SE33"), Some("Areas".to_string()));
    assert_eq!(a.copied("TM14"), Some("Areas".to_string()));
}

#[test]
fn cells_of_a_row() {
    let re = Pattern::new(TIP).unwrap();
    let mut ar = Vocab::new();
    ar.insert("SK13".to_string(), "North".to_string());
    let t = tiers();
    let c = cells(&row("Low", Some("63MM PE"), "SK1234"), Some(&t), Some(&re), &mats(), Some(&ar));
    assert_eq!(c.tier, Some((Some("lp".to_string()), "low".to_string())));
    assert_eq!(c.tenk, "SK13");
    assert_eq!(c.area, Some(Some("North".to_string())));
    assert_eq!(c.spec.unwrap().mat, Some("polyethylene".to_string()));
    assert_eq!(c.etype, "LineString");
    assert_eq!(c.geometry.len(), 9);
    let c = cells(&row("OTHER Layer", None, "SK"), Some(&t), None, &mats(), None);
    assert_eq!(c.tier, Some((None, "other layer".to_string())));
    assert!(c.spec.is_none() && c.area.is_none());
    assert_eq!(tally(&t, "Mid"), "mp");
    assert_eq!(tally(&t, "none"), "other");
}

fn names(t: &[(String, Column)]) -> Vec<&str> {
    t.iter().map(|c| c.0.as_str()).collect()
}

fn column<'a>(t: &'a [(String, Column)], name: &str) -> &'a Column {
    &t.iter().find(|c| c.0 == name).unwrap().1
}

fn texts(t: &[(String, Column)], name: &str) -> Vec<Option<String>> {
    match column(t, name) {
        Column::Texts(v) => v.clone(),
        _ => panic!("{name} is no column of texts"),
    }
}

fn numbers(t: &[(String, Column)], name: &str) -> Vec<Option<f64>> {
    match column(t, name) {
        Column::Numbers(v) => v.iter().map(|b| b.map(f64::from_bits)).collect(),
        _ => panic!("{name} is no column of numbers"),
    }
}

fn flags(t: &[(String, Column)], name: &str) -> Vec<Option<bool>> {
    match column(t, name) {
        Column::Flags(v) => v.clone(),
        _ => panic!("{name} is no column of flags"),
    }
}

#[test]
fn columns_depend_on_configuration() {
    let t = tiers();
    let area = Area { file: String::new(), column: "network_area".to_string(), skip_section: None };
    let re = Pattern::new(TIP).unwrap();
    let mut ar = Vocab::new();
    ar.insert("SK13".to_string(), "North".to_string());
    let feature = |layer: &str, tip: &str, host: f64| Feature {
        cells: cells(&row(layer, Some(tip), "SK1234"), Some(&t), Some(&re), &mats(), Some(&ar)),
        dia: Some(63.0f64.to_bits()),
        host_dia: if host > 0.0 { Some(host.to_bits()) } else { None },
        host: host.to_bits(),
        length: 12.5f64.to_bits(),
    };
    let rs = vec![feature("Low", "63MM PE (IN 4\" CI)", 4.0), feature("Odd", "63MM PE", 0.0)];
    let all = feature_table(Some(&t), true, Some(&area), &rs);
    assert_eq!(
        names(&all),
        vec![
            "feature_id", "pressure_code", "pressure", "diameter_mm", "material", "host_diameter_mm", "host_material",
            "inserted", "screentip", "network_area", "square", "tenk", "length_m", "source", "survey_date", "etype",
            "geometry"
        ]
    );
    let s = |t: &str| Some(t.to_string());
    assert_eq!(texts(&all, "feature_id"), vec![s("f"), s("f")]);
    assert_eq!(texts(&all, "pressure_code"), vec![s("lp"), None]);
    assert_eq!(texts(&all, "pressure"), vec![s("low"), s("odd")]);
    assert_eq!(numbers(&all, "diameter_mm"), vec![Some(63.0), Some(63.0)]);
    assert_eq!(texts(&all, "material"), vec![s("polyethylene"), s("polyethylene")]);
    assert_eq!(numbers(&all, "host_diameter_mm"), vec![Some(4.0), None]);
    assert_eq!(texts(&all, "host_material"), vec![s("cast iron"), None]);
    assert_eq!(flags(&all, "inserted"), vec![Some(true), Some(false)]);
    assert_eq!(texts(&all, "screentip"), vec![s("63MM PE (IN 4\" CI)"), s("63MM PE")]);
    assert_eq!(texts(&all, "network_area"), vec![s("North"), s("North")]);
    assert_eq!(texts(&all, "square"), vec![s("SK"), s("SK")]);
    assert_eq!(texts(&all, "tenk"), vec![s("SK13"), s("SK13")]);
    assert_eq!(numbers(&all, "length_m"), vec![Some(12.5), Some(12.5)]);
    assert_eq!(texts(&all, "source"), vec![None, None]);
    assert_eq!(texts(&all, "survey_date"), vec![s("2020"), s("2020")]);
    assert_eq!(texts(&all, "etype"), vec![s(rs[0].cells.etype.as_str()), s(rs[1].cells.etype.as_str())]);
    match column(&all, "geometry") {
        Column::Blobs(v) => assert_eq!(v, &vec![rs[0].cells.geometry.clone(), rs[1].cells.geometry.clone()]),
        _ => panic!("no bytes"),
    }
    assert_eq!(
        names(&feature_table(None, false, None, &rs)),
        vec!["feature_id", "screentip", "square", "tenk", "length_m", "source", "survey_date", "etype", "geometry"]
    );
}

#[test]
fn asset_columns_hold_their_values() {
    let rs = vec![
        AssetRow {
            asset: pipes::asset(Some("LP"), Some("PE"), Some("CI"), Some("False"), &mats()),
            dia: Some(63.0f64.to_bits()),
            host_dia: Some(101.6f64.to_bits()),
        },
        AssetRow { asset: pipes::asset(Some("MP"), None, None, Some("True"), &mats()), dia: None, host_dia: None },
    ];
    let t = asset_table(&rs);
    assert_eq!(
        names(&t),
        vec![
            "asset_id", "type", "pressure_code", "pressure", "diameter_mm", "material", "host_diameter_mm",
            "host_material", "inserted", "above_ground", "depth", "inst_date", "geometry"
        ]
    );
    let s = |t: &str| Some(t.to_string());
    assert_eq!(texts(&t, "pressure_code"), vec![s("lp"), s("mp")]);
    assert_eq!(texts(&t, "pressure"), vec![s("low pressure"), s("medium pressure")]);
    assert_eq!(numbers(&t, "diameter_mm"), vec![Some(63.0), None]);
    assert_eq!(texts(&t, "material"), vec![s("polyethylene"), None]);
    assert_eq!(numbers(&t, "host_diameter_mm"), vec![Some(101.6), None]);
    assert_eq!(texts(&t, "host_material"), vec![s("cast iron"), None]);
    assert_eq!(flags(&t, "inserted"), vec![Some(true), Some(false)]);
    assert_eq!(flags(&t, "above_ground"), vec![Some(false), Some(true)]);
    for (name, from) in [("asset_id", "asset_id"), ("type", "type"), ("depth", "depth"), ("inst_date", "inst_date"), ("geometry", "geo_shape")] {
        assert!(matches!(column(&t, name), Column::Taken(n) if n == from));
    }
}

#[test]
fn geometry_description() {
    assert_eq!(
        geo_meta("\"LineString\"", "null", "1", "2.5", "3", "4"),
        r#"{"version":"1.1.0","primary_column":"geometry","columns":{"geometry":{"encoding":"WKB","geometry_types":["LineString"],"crs":null,"bbox":[1,2.5,3,4]}}}"#
    );
}

#[test]
fn entries_of_the_archive() {
    let names: Vec<String> = ["a/SK/x.mvf", "a/SK/readme.txt", "a/TQ/Y.MVF", "b.mvf"].iter().map(|s| s.to_string()).collect();
    assert_eq!(tile_entries(&names, None, 1, 0), vec![0, 2, 3]);
    assert_eq!(tile_entries(&names, Some("TQ"), 1, 0), vec![2]);
    assert_eq!(tile_entries(&names, None, 1, 2), vec![0, 2]);
    assert_eq!(tile_entries(&names, None, 1, 9), vec![0, 2, 3]);
}

#[test]
fn assets_are_labelled() {
    let a = pipes::asset(Some("LP"), Some("PE"), Some("XX"), Some("True"), &mats());
    assert_eq!((a.pressure_code.as_str(), a.pressure.as_str()), ("lp", "low pressure"));
    assert_eq!(a.material, Some("polyethylene".to_string()));
    assert_eq!(a.host_material, Some("xx".to_string()));
    assert!(a.inserted && a.above_ground);
    let a = pipes::asset(None, None, None, Some("False"), &mats());
    assert_eq!((a.pressure_code.as_str(), a.pressure.as_str()), ("", ""));
    assert!(!a.inserted && !a.above_ground);
    let a = pipes::asset(Some("IP"), None, None, None, &mats());
    assert_eq!(a.pressure, "ip");
    let a = pipes::label_asset("mp".to_string(), None, None, None, &mats());
    assert_eq!(a.pressure, "medium pressure");
}

#[test]
fn asset_diameters() {
    assert_eq!(pipes::mm(Some(4.0f64.to_bits()), Some("I")), Some(Scale::Inches));
    assert_eq!(pipes::mm(Some(4.0f64.to_bits()), Some("\"")), None);
    assert_eq!(pipes::mm(Some(120.0f64.to_bits()), Some("UN")), Some(Scale::Millimetres));
    assert_eq!(pipes::mm(None, Some("MM")), None);
    assert_eq!(pipes::d_out(), "dist/pipes.parquet");
}

#[test]
fn builtin_labels() {
    use_tier(&builtin::tier());
    let m = builtin::materials();
    for c in ["PE", "CI", "SI", "DI", "ST", "PV", "AS", "LE", "UN", "NA", "XX", ""] {
        assert_eq!(m.get(c).map(|s| s.as_str()), builtin::material(c));
    }
    let re = builtin::tip_pattern().unwrap();
    let t = parse_tip(Some("63MM PE (IN 4\" CI)"), &re, &m);
    assert_eq!(t.dia.unwrap().text, "63");
    assert_eq!(t.mat.as_deref(), Some("polyethylene"));
    assert_eq!(t.host_dia.unwrap().unit.as_deref(), Some("\""));
    assert_eq!(t.host_mat.as_deref(), Some("cast iron"));
    assert_eq!(builtin::area().skip_section.as_deref(), Some("Areas"));
}

fn use_tier(t: &Tier) {
    for l in ["Low Pressure Mains & Plant", "National High Pressure Mains & Plant", "Other Layer"] {
        let (code, label) = builtin::pressure(l);
        match tier(t, l) {
            Some(x) => assert_eq!((Some(x.code.clone()), x.label.clone()), (code, label)),
            None => assert_eq!((None, l.to_lowercase()), (code, label)),
        }
    }
}
