use gdn_gis::bucket::{geom_of, Bucket};
use gdn_gis::extent::{Extent, LARGEST, SMALLEST};
use gdn_gis::geom::{etype, linemerge, scan, wkb, Geom, Vertex};
use gdn_gis::tile::{Primitive, TileInfo};

fn v(x: i64, y: i64) -> Vertex {
    Vertex { x: (x as f64).to_bits(), y: (y as f64).to_bits(), node: (x * 1000, y * 1000) }
}

fn line(ps: &[(i64, i64)]) -> Vec<Vertex> {
    ps.iter().map(|p| v(p.0, p.1)).collect()
}

fn path(l: &[Vertex]) -> Vec<(i64, i64)> {
    l.iter().map(|p| (p.node.0 / 1000, p.node.1 / 1000)).collect()
}

#[test]
fn meeting_fragments_become_one() {
    let r = linemerge(&vec![line(&[(0, 0), (1, 0)]), line(&[(1, 0), (2, 0), (3, 0)])]);
    assert_eq!(r.len(), 1);
    assert_eq!(path(&r[0]), vec![(0, 0), (1, 0), (2, 0), (3, 0)]);
}

#[test]
fn fragments_join_at_either_end() {
    let r = linemerge(&vec![line(&[(1, 0), (2, 0)]), line(&[(1, 0), (0, 0)]), line(&[(3, 0), (2, 0)])]);
    assert_eq!(r.len(), 1);
    assert_eq!(path(&r[0]), vec![(0, 0), (1, 0), (2, 0), (3, 0)]);
}

#[test]
fn junction_of_three_is_not_crossed() {
    let r = linemerge(&vec![line(&[(0, 0), (1, 0)]), line(&[(1, 0), (2, 0)]), line(&[(1, 0), (1, 1)])]);
    assert_eq!(r.len(), 3);
}

#[test]
fn duplicates_and_points_are_dropped() {
    let r = linemerge(&vec![
        line(&[(0, 0), (1, 0)]),
        line(&[(1, 0), (0, 0)]),
        line(&[(5, 5)]),
        line(&[(0, 0), (1, 0)]),
    ]);
    assert_eq!(r.len(), 1);
    assert_eq!(path(&r[0]), vec![(0, 0), (1, 0)]);
    assert!(linemerge(&vec![]).is_empty());
}

#[test]
fn ring_closes() {
    let r = linemerge(&vec![line(&[(0, 0), (1, 0), (1, 1)]), line(&[(1, 1), (0, 1), (0, 0)])]);
    assert_eq!(r.len(), 1);
    assert_eq!(path(&r[0]), vec![(0, 0), (1, 0), (1, 1), (0, 1), (0, 0)]);
}

#[test]
fn linework_is_kept() {
    let frags = vec![
        line(&[(0, 0), (1, 0), (2, 0)]),
        line(&[(2, 0), (3, 0)]),
        line(&[(3, 0), (3, 1)]),
        line(&[(3, 0), (4, 0)]),
    ];
    let before: usize = frags.iter().map(|f| f.len() - 1).sum();
    let r = linemerge(&frags);
    let after: usize = r.iter().map(|f| f.len() - 1).sum();
    assert_eq!(before, after);
    assert_eq!(r.len(), 3);
}

#[test]
fn wkb_of_line() {
    let b = wkb(&Geom::Line(line(&[(1, 2), (3, 4)])));
    let mut want = vec![1u8, 2, 0, 0, 0, 2, 0, 0, 0];
    for x in [1.0f64, 2.0, 3.0, 4.0] {
        want.extend_from_slice(&x.to_le_bytes());
    }
    assert_eq!(b, want);
}

#[test]
fn wkb_of_multi_and_polygon() {
    let m = wkb(&Geom::Multi(vec![line(&[(1, 2), (3, 4)]), line(&[(5, 6), (7, 8)])]));
    assert_eq!(&m[..9], &[1u8, 5, 0, 0, 0, 2, 0, 0, 0]);
    assert_eq!(&m[9..18], &[1u8, 2, 0, 0, 0, 2, 0, 0, 0]);
    assert_eq!(m.len(), 9 + 2 * 41);
    let p = wkb(&Geom::Poly(line(&[(0, 0), (1, 0), (0, 1)])));
    assert_eq!(&p[..13], &[1u8, 3, 0, 0, 0, 1, 0, 0, 0, 3, 0, 0, 0]);
}

#[test]
fn scan_reads_wkb() {
    let l = line(&[(1, 2), (3, 4)]);
    let pairs: Vec<(u64, u64)> = l.iter().map(|p| (p.x, p.y)).collect();
    assert_eq!(scan(&wkb(&Geom::Line(line(&[(1, 2), (3, 4)])))), Some(pairs.clone()));
    let twice = [pairs.clone(), pairs].concat();
    assert_eq!(scan(&wkb(&Geom::Multi(vec![line(&[(1, 2), (3, 4)]), line(&[(1, 2), (3, 4)])]))), Some(twice));
    assert_eq!(scan(&wkb(&Geom::Poly(line(&[(0, 0), (1, 0), (0, 1)])))), Some(vec![]));
}

#[test]
fn scan_of_truncated_bytes() {
    let b = wkb(&Geom::Line(line(&[(1, 2), (3, 4)])));
    assert_eq!(scan(&b[..b.len() - 1]), None);
    assert_eq!(scan(&b[..4]), None);
    assert_eq!(scan(&[0, 2, 0, 0, 0]), Some(vec![]));
    assert_eq!(scan(&[1, 5, 0, 0, 0, 1, 0, 0]), None);
}

#[test]
fn kinds_of_geometry() {
    assert_eq!(etype(&Geom::Line(vec![])), "LineString");
    assert_eq!(etype(&Geom::Multi(vec![])), "MultiLineString");
    assert_eq!(etype(&Geom::Poly(vec![])), "Polygon");
    assert!(geom_of(vec![]).is_none());
    assert!(matches!(geom_of(vec![line(&[(0, 0), (1, 1)])]), Some(Geom::Line(_))));
    assert!(matches!(geom_of(vec![vec![], vec![]]), Some(Geom::Multi(_))));
}

fn info(square: &str, date: Option<&str>) -> TileInfo {
    TileInfo {
        square: square.to_string(),
        facet: format!("{square}1234"),
        src: Some("survey".to_string()),
        date: date.map(str::to_string),
    }
}

fn prim(shape: u8, fid: Option<&str>, tip: Option<&str>) -> Primitive {
    Primitive {
        shape,
        layer: "Low".to_string(),
        fid: fid.map(str::to_string),
        tip: tip.map(str::to_string),
        points: vec![],
    }
}

#[test]
fn fragments_of_one_feature_are_dissolved() {
    let mut a = Bucket::new();
    assert!(a.add(&info("SK", Some("2020")), &prim(1, Some("f"), None), &line(&[(0, 0), (1, 0)])));
    let mut b = Bucket::new();
    assert!(b.add(&info("SJ", Some("2021")), &prim(1, Some("f"), Some("tip")), &line(&[(1, 0), (2, 0)])));
    a.merge(b);
    assert_eq!(a.counts(), (1, 0));
    let rows = a.rows();
    assert_eq!(rows.len(), 1);
    assert_eq!(rows[0].fid, Some("f".to_string()));
    assert_eq!(rows[0].square, "SJ");
    assert_eq!(rows[0].facet, "SJ1234");
    assert_eq!(rows[0].tip, Some("tip".to_string()));
    assert_eq!(rows[0].date, Some("2021".to_string()));
    assert_eq!(rows[0].year, None);
    match &rows[0].geom {
        Geom::Line(p) => assert_eq!(path(p), vec![(0, 0), (1, 0), (2, 0)]),
        _ => panic!("not one line"),
    }
}

#[test]
fn parts_gather_like_the_whole() {
    let run: Vec<(TileInfo, Primitive, Vec<Vertex>)> = vec![
        (info("SK", None), prim(1, Some("a"), None), line(&[(0, 0), (1, 0)])),
        (info("SJ", Some("1")), prim(2, Some("a"), Some("t")), line(&[(1, 0), (2, 0), (5, 5), (6, 6), (7, 7)])),
        (info("SH", Some("0")), prim(1, None, None), line(&[(3, 0), (3, 0), (4, 0)])),
        (info("SG", None), prim(1, Some("b"), None), line(&[(0, 0), (1, 0)])),
    ];
    let mut whole = Bucket::new();
    for (i, p, vs) in &run {
        whole.add(i, p, vs);
    }
    let want = whole.rows();
    for cut in 0..=run.len() {
        let (mut x, mut y) = (Bucket::new(), Bucket::new());
        for (k, (i, p, vs)) in run.iter().enumerate() {
            if k < cut {
                x.add(i, p, vs);
            } else {
                y.add(i, p, vs);
            }
        }
        x.merge(y);
        let got = x.rows();
        assert_eq!(got.len(), want.len());
        for w in &want {
            assert!(got.iter().any(|g| g.fid == w.fid
                && g.square == w.square
                && g.tip == w.tip
                && g.date == w.date
                && wkb(&g.geom) == wkb(&w.geom)));
        }
    }
}

#[test]
fn equal_keys_on_two_layers_stay_apart() {
    let mut b = Bucket::new();
    let mut p = prim(1, Some("ab"), None);
    b.add(&info("SK", None), &p, &line(&[(0, 0), (1, 0)]));
    p.fid = Some("a".to_string());
    p.layer = "bLow".to_string();
    b.add(&info("SK", None), &p, &line(&[(0, 0), (1, 0)]));
    assert_eq!(b.counts(), (2, 0));
}

#[test]
fn unnamed_shapes_stay_as_drawn() {
    let mut b = Bucket::new();
    assert!(b.add(&info("SK", None), &prim(7, None, None), &line(&[(0, 0), (1, 0), (0, 1)])));
    assert!(b.add(&info("SK", None), &prim(7, None, None), &line(&[(0, 0), (1, 0)])));
    assert!(b.add(&info("SK", None), &prim(2, None, None), &line(&[(0, 0), (1, 0), (9, 9)])));
    assert!(!b.add(&info("SK", None), &prim(1, None, None), &line(&[(0, 0), (0, 0)])));
    assert!(b.add(&info("SK", None), &prim(2, None, None), &line(&[(0, 0), (0, 0)])));
    assert_eq!(b.counts(), (0, 3));
    let rows = b.rows();
    assert!(matches!(rows[0].geom, Geom::Poly(_)));
    match &rows[1].geom {
        Geom::Multi(ps) => assert_eq!(ps.len(), 1),
        _ => panic!("not pairs"),
    }
}

#[test]
fn repeated_vertices_are_dropped_by_value() {
    let mut b = Bucket::new();
    let mut zero = v(0, 0);
    zero.x = (-0.0f64).to_bits();
    assert!(b.add(&info("SK", None), &prim(1, None, None), &vec![v(0, 0), zero, v(1, 0)]));
    let rows = b.rows();
    match &rows[0].geom {
        Geom::Line(p) => assert_eq!(p.len(), 2),
        _ => panic!("not a line"),
    }
}

#[test]
fn tile_is_gathered_through_projection() {
    let mut b = Bucket::new();
    let mut p = prim(1, Some("f"), None);
    p.points = vec![(1, 2), (3, 4)];
    let mut q = prim(1, Some("g"), None);
    q.points = vec![(1, 2), (1, 2)];
    let kept = b.add_tile(&info("SK", None), &vec![p, q], |x, y| v(x as i64 * 10, y as i64 * 10));
    assert_eq!(kept, 1);
    let rows = b.rows();
    match &rows[0].geom {
        Geom::Line(l) => assert_eq!(path(l), vec![(10, 20), (30, 40)]),
        _ => panic!("not a line"),
    }
}

#[test]
fn lines_end_only_where_no_two_meet() {
    let frags = vec![
        line(&[(0, 0), (1, 0)]), line(&[(2, 0), (1, 0)]), line(&[(2, 0), (3, 0)]), line(&[(2, 0), (2, 5)]),
        line(&[(9, 9), (9, 8), (8, 8)]), line(&[(9, 9), (8, 8)]), line(&[(3, 0), (4, 4), (5, 5)]),
    ];
    let ends = |n: (i64, i64)| {
        frags.iter().map(|f| (f[0].node == n) as usize + (f[f.len() - 1].node == n) as usize).sum::<usize>()
    };
    let out = linemerge(&frags);
    assert_eq!(out.len(), 4);
    for l in &out {
        let (a, b) = (l[0].node, l[l.len() - 1].node);
        assert!(a == b || (ends(a) != 2 && ends(b) != 2));
    }
}

#[test]
fn extent_is_attained() {
    let side = |e: &Extent| [e.lo.0, e.lo.1, e.hi.0, e.hi.1].map(f64::from_bits);
    let mut e = Extent::new();
    assert_eq!((e.lo, e.hi), ((LARGEST, LARGEST), (SMALLEST, SMALLEST)));
    assert_eq!(side(&e), [f64::MAX, f64::MAX, f64::MIN, f64::MIN]);
    e.see_geom(&Geom::Line(line(&[(3, -4), (1, 2)])));
    assert_eq!(side(&e), [1.0, -4.0, 3.0, 2.0]);
    e.see_geom(&Geom::Multi(vec![line(&[(2, 9)]), line(&[]), line(&[(-5, 0)])]));
    assert_eq!(side(&e), [-5.0, -4.0, 3.0, 9.0]);
    e.see_geom(&Geom::Poly(line(&[(0, -7)])));
    e.see((f64::NAN.to_bits(), 10.0f64.to_bits()));
    assert_eq!(side(&e), [-5.0, -7.0, 3.0, 10.0]);
    let mut whole = Extent::new();
    let ps = [(3.0f64, -4.0f64), (1.0, 2.0), (2.0, 9.0), (-5.0, 0.0), (0.0, -7.0), (f64::NAN, 10.0)];
    whole.see_all(&ps.iter().map(|p| (p.0.to_bits(), p.1.to_bits())).collect());
    assert_eq!(side(&whole), side(&e));
    whole.see((f64::INFINITY.to_bits(), 0));
    assert_eq!(side(&whole)[2], f64::INFINITY);
}
