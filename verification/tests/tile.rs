use gdn_gis::builtin;
use gdn_gis::cgm::deob;
use gdn_gis::tile::{meta_pattern, parse_tile, parse_with, read_bounds, read_info, read_meta, square, stem_of, walk, Parsed};
use gdn_gis::vocab::Vocab;

fn cmd(class: u16, id: u16, par: &[u8]) -> Vec<u8> {
    let mut b = Vec::new();
    if par.len() < 31 {
        b.extend_from_slice(&(class << 12 | id << 5 | par.len() as u16).to_be_bytes());
    } else {
        b.extend_from_slice(&(class << 12 | id << 5 | 31).to_be_bytes());
        b.extend_from_slice(&(par.len() as u16).to_be_bytes());
    }
    b.extend_from_slice(par);
    if par.len() % 2 == 1 {
        b.push(0);
    }
    b
}

fn two(a: &str, b: &str) -> Vec<u8> {
    let mut par = vec![1u8];
    par.extend_from_slice(a.as_bytes());
    par.push(2);
    par.extend_from_slice(b.as_bytes());
    par
}

fn coords(ps: &[(i16, i16)]) -> Vec<u8> {
    let mut b = Vec::new();
    for p in ps {
        b.extend_from_slice(&p.0.to_be_bytes());
        b.extend_from_slice(&p.1.to_be_bytes());
    }
    b
}

fn body() -> Vec<u8> {
    let mut b = Vec::new();
    b.extend(cmd(0, 21, &two("l1", "layer")));
    b.extend(cmd(9, 1, &two("LayerName", "12 Low Pressure Mains & Plant")));
    b.extend(cmd(0, 21, &two("f1", "grobject")));
    b.extend(cmd(9, 1, &two("Name\"", "osgb77")));
    b.extend(cmd(9, 1, &two("ScreenTip", "180MM PE")));
    let ps: Vec<(i16, i16)> = (0..12).map(|i| (i * 100, i * 50)).collect();
    b.extend(cmd(4, 1, &coords(&ps)));
    b.extend(cmd(0, 23, &[]));
    b.extend(cmd(0, 21, &two("f2", "grobject")));
    b.extend(cmd(9, 1, &two("Name", "UNKNOWN")));
    b.extend(cmd(4, 7, &coords(&ps)));
    b.extend(cmd(0, 23, &[]));
    b.extend(cmd(0, 23, &[]));
    b.extend(cmd(4, 1, &coords(&ps)));
    b.extend(cmd(0, 5, &[]));
    b.extend(cmd(4, 1, &coords(&ps)));
    b
}

fn tile(header: &str) -> Vec<u8> {
    let mut h = header.as_bytes().to_vec();
    while h.len() % 2 != 0 || h.len() < 90 {
        h.push(b'.');
    }
    h.extend_from_slice(&[0xff, 0xff]);
    let mut d = deob(&h);
    let at = header.find("Ymax").unwrap_or(0) + 12;
    if (d.len() - at) % 2 != 0 {
        d.push(0xa0);
    }
    d.extend(body());
    d
}

const HEADER: &str = "\"Xmin:1000.5\"\"Ymin:2000\"\"Xmax:1500\"\"Ymax:2500\"\"Facet:SK1234\"\"Date:2020-01-02\"\"Date:2021-03-04\"";

#[test]
fn whole_tile_is_read() {
    let d = tile(HEADER);
    let entry = meta_pattern().unwrap();
    match parse_tile(&d, &entry, "a/b/c/SK/x.mvf", 3, &builtin::aps(), &builtin::keep()) {
        Parsed::Tile(t) => {
            assert_eq!(t.bounds.xmin, "1000.5");
            assert_eq!(t.bounds.ymax, "2500");
            assert_eq!(t.size, (16000, 16000));
            assert_eq!(t.info.square, "SK");
            assert_eq!(t.info.facet, "SK1234");
            assert_eq!(t.info.src, None);
            assert_eq!(t.info.date, Some("2021-03-04".to_string()));
            assert_eq!(t.prims.len(), 2);
            assert_eq!(t.prims[0].shape, 1);
            assert_eq!(t.prims[0].layer, "Low Pressure Mains & Plant");
            assert_eq!(t.prims[0].fid, Some("osgb77".to_string()));
            assert_eq!(t.prims[0].tip, Some("180MM PE".to_string()));
            assert_eq!(t.prims[0].points[1], (100, 50));
            assert_eq!(t.prims[0].points.len(), 12);
            assert_eq!(t.prims[1].shape, 7);
            assert_eq!(t.prims[1].fid, None);
            assert_eq!(t.prims[1].tip, None);
        }
        _ => panic!("not a tile"),
    }
}

#[test]
fn tile_without_kept_layer_is_irrelevant() {
    let entry = meta_pattern().unwrap();
    let d = deob(HEADER.as_bytes());
    assert!(matches!(
        parse_tile(&d, &entry, "x", 3, &builtin::aps(), &builtin::keep()),
        Parsed::Irrelevant
    ));
}

#[test]
fn irrelevant_tile_draws_nothing() {
    let entry = meta_pattern().unwrap();
    let ps: Vec<(i16, i16)> = (0..12).map(|i| (i * 100, i * 50)).collect();
    let mut b = Vec::new();
    b.extend(cmd(0, 21, &two("l1", "layer")));
    b.extend(cmd(9, 1, &two("LayerName", "12 Buildings")));
    b.extend(cmd(4, 1, &coords(&ps)));
    b.extend(cmd(0, 23, &[]));
    for s in 0..b.len() {
        assert!(walk(&b, s, &builtin::aps(), &builtin::keep()).is_empty());
    }
    let mut d = deob(HEADER.as_bytes());
    d.extend_from_slice(&b);
    assert!(matches!(
        parse_tile(&d, &entry, "x", 3, &builtin::aps(), &builtin::keep()),
        Parsed::Irrelevant
    ));
}

#[test]
fn tile_without_numbers_is_unbounded() {
    let entry = meta_pattern().unwrap();
    let d = tile("\"Xmin:west\"\"Ymin:2000\"\"Xmax:1500\"\"Ymax:2500\"");
    assert!(matches!(
        parse_tile(&d, &entry, "x", 3, &builtin::aps(), &builtin::keep()),
        Parsed::Unbounded
    ));
}

#[test]
fn tile_without_body_is_headless() {
    let entry = meta_pattern().unwrap();
    let mut d = deob(HEADER.as_bytes());
    d.extend_from_slice(b"Mains & Plant");
    assert!(matches!(
        parse_tile(&d, &entry, "x", 3, &builtin::aps(), &builtin::keep()),
        Parsed::Headless
    ));
}

#[test]
fn tile_with_split_facet() {
    let d = tile(HEADER);
    let db = deob(&d);
    let mut meta = Vocab::new();
    for (k, v) in [("Xmin", "1"), ("Ymin", "2"), ("Xmax", "3"), ("Ymax", "4"), ("Facet", "a\u{e9}")] {
        meta.insert(k.to_string(), v.to_string());
    }
    assert!(matches!(
        parse_with(&d, &db, &meta, "x", 3, &builtin::aps(), &builtin::keep()),
        Parsed::SplitFacet
    ));
}

#[test]
fn header_entries_and_bounds() {
    let some = |t: &str| Some(t.as_bytes().to_vec());
    let found = vec![
        vec![some("\"Xmin:1\""), some("Xmin"), some("1")],
        vec![some("\"Ymin:2\""), some("Ymin"), some("2")],
        vec![some("\"Xmax:3\""), some("Xmax"), some("3")],
        vec![some("\"Ymax:x\""), some("Ymax"), some("x")],
    ];
    let meta = read_meta(&found);
    assert_eq!(meta.copied("Xmax"), Some("3".to_string()));
    assert!(read_bounds(&meta).is_none());
    let mut meta = meta;
    meta.insert("Ymax".to_string(), "4e0".to_string());
    assert_eq!(read_bounds(&meta).unwrap().ymax, "4e0");
    let info = read_info(&meta, "p/stem.mvf", 7).unwrap();
    assert_eq!((info.facet.as_str(), info.square.as_str()), ("stem", "st"));
}

#[test]
fn square_from_path_or_facet() {
    assert_eq!(square("a/b/SK/t.mvf", 2, "TQ12"), Some("SK".to_string()));
    assert_eq!(square("a/b", 2, "TQ12"), Some("TQ".to_string()));
    assert_eq!(square("a/b/SK", 2, "T\u{e9}"), None);
}

#[test]
fn walk_stops_at_end_of_picture() {
    let d = body();
    let prims = walk(&d, 0, &builtin::aps(), &builtin::keep());
    assert_eq!(prims.len(), 2);
}

#[test]
fn builtin_tile_needs_dense_geometry() {
    let entry = meta_pattern().unwrap();
    let d = tile(HEADER);
    assert!(matches!(
        builtin::parse_tile(&d, &entry, "a/b/c/SK/x.mvf", &builtin::aps(), &builtin::keep()),
        Parsed::Headless
    ));
}

#[test]
fn builtin_vocabulary() {
    assert_eq!(
        builtin::pressure("Local High Pressure Mains & Plant"),
        (Some("lhp".to_string()), "local high pressure".to_string())
    );
    assert_eq!(builtin::pressure("Some Layer"), (None, "some layer".to_string()));
    assert_eq!(builtin::material("AS"), Some("asbestos cement"));
    assert_eq!(builtin::material("XX"), None);
}

#[test]
fn stems_of_paths() {
    for name in [
        "a/b/SK1234.mvf", "SK12.tar.gz", "plain", ".hidden", "..x", "a/.b.c", "a/b/", "a//b.c//", "a/.", "a/b.c/./.",
        ".", "./", "..", "a/..", "/", "", "a.", "a/b.", "d.d/e", "\u{e9}/\u{e9}.\u{e9}", "./x.y", "...", "a/....",
    ] {
        let want = std::path::Path::new(name).file_stem().and_then(|s| s.to_str()).unwrap_or("");
        assert_eq!(stem_of(name), want, "{name}");
    }
    assert_eq!(stem_of("a/b/SK1234.mvf"), "SK1234");
}
