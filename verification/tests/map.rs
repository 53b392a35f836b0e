use gdn_gis::geom::{Geom, Vertex};
use gdn_gis::bucket::Row;
use gdn_gis::grid::{cuts, d_base, d_blen, d_detail, Grid, Knife, MapCfg, Point};
use gdn_gis::map::{lines_to_draw, map_json, style, tone, Look, MapTexts, Style, YearSpan};
use gdn_gis::paint::{Painter, Pen};
use gdn_gis::pattern::Pattern;
use gdn_gis::records::{write_base, write_layer, write_records, Rec};
use gdn_gis::simplify::simplify;
use gdn_gis::vocab::Vocab;
use gdn_gis::years::Years;

fn rec(cell: u32, x: u16) -> Rec {
    Rec { cell, q: [x, 1, 2, 3], b0: 7, b1: 9 }
}

fn grid(nc: usize, nr: usize) -> Grid {
    Grid { minx: 0, miny: 0, cell: 2.0f64.to_bits(), nc, nr }
}

#[test]
fn tones_follow_risk() {
    assert_eq!(tone(Some("cast iron")), 0);
    assert_eq!(tone(Some("polyethylene")), 7);
    assert_eq!(tone(Some("wood")), 8);
    assert_eq!(tone(None), 8);
}

#[test]
fn styles_mark_live_ductile_iron() {
    assert_eq!(style("Mid", Some("ductile iron"), Some("mp")), Style { tone: 4, mark: 132, year: None });
    assert_eq!(style("Mid", Some("ductile iron"), Some("lp")), Style { tone: 4, mark: 4, year: None });
    assert_eq!(style("NTS", Some("ductile iron"), Some("mp")), Style { tone: 9, mark: 9, year: Some(0) });
    assert_eq!(style("Low", None, None), Style { tone: 8, mark: 8, year: None });
}

#[test]
fn records_are_twelve_bytes() {
    let b = write_records(&vec![Rec { cell: 0x0102, q: [1, 256, 65535, 0], b0: 0x84, b1: 33 }]);
    assert_eq!(b, vec![1, 0, 0, 1, 255, 255, 0, 0, 2, 1, 0x84, 33]);
}

#[test]
fn layer_is_sorted_and_indexed() {
    let mut recs = vec![rec(3, 0), rec(1, 1), rec(3, 2), rec(0, 3), rec(1, 4)];
    let l = write_layer(&mut recs, 5);
    let cells: Vec<u32> = recs.iter().map(|r| r.cell).collect();
    assert_eq!(cells, vec![0, 1, 1, 3, 3]);
    let counts: Vec<u32> = l.idx.chunks(4).map(|c| u32::from_le_bytes([c[0], c[1], c[2], c[3]])).collect();
    assert_eq!(counts, vec![1, 2, 0, 2, 0]);
    let mut at = 0usize;
    for (c, n) in counts.iter().enumerate() {
        for r in l.bin[12 * at..12 * (at + *n as usize)].chunks(12) {
            assert_eq!(u16::from_le_bytes([r[8], r[9]]) as usize, c);
        }
        at += *n as usize;
    }
    assert_eq!(at * 12, l.bin.len());
    let mut xs: Vec<u16> = recs.iter().map(|r| r.q[0]).collect();
    xs.sort();
    assert_eq!(xs, vec![0, 1, 2, 3, 4]);
}

#[test]
fn base_is_sorted() {
    let mut recs = vec![rec(3, 0), rec(1, 1)];
    let b = write_base(&mut recs);
    assert_eq!((b[8], b[20]), (1, 3));
}

fn bits(v: &[f64]) -> Vec<u64> {
    v.iter().map(|x| x.to_bits()).collect()
}

#[test]
fn cuts_are_ordered_between_ends() {
    assert_eq!(cuts(&bits(&[0.5, 0.25, 1.0, 0.0, -1.0, 2.0, f64::NAN])), bits(&[0.0, 0.25, 0.5, 1.0]));
    assert_eq!(cuts(&vec![]), bits(&[0.0, 1.0]));
    assert_eq!(cuts(&bits(&[0.5, 0.5])), bits(&[0.0, 0.5, 0.5, 1.0]));
}

#[test]
fn cells_are_clamped() {
    let g = grid(180, 360);
    assert_eq!(g.cell(0, 0), 0);
    assert_eq!(g.cell(5, 2), 365);
    assert_eq!(g.cell(-3, 400), 180 * 359);
    assert_eq!(g.cell(i64::MAX, i64::MIN), 179);
}

fn map_cfg() -> MapCfg {
    MapCfg {
        dir: "dist".to_string(),
        cell_km: 2.0f64.to_bits(),
        origin: (80.0f64.to_bits(), 0),
        ncols: 4,
        nrows: 3,
        view: (0, 0, 0),
        simplify_detail_m: d_detail(),
        simplify_base_m: d_base(),
        base_min_len_m: d_blen(),
    }
}

#[test]
fn grid_from_configuration() {
    let g = Grid::new(&map_cfg());
    assert_eq!((f64::from_bits(g.minx), g.nc, g.nr), (80.0, 4, 3));
    assert_eq!(f64::from_bits(d_detail()), 0.5);
    assert_eq!(f64::from_bits(d_base()), 45.0);
    assert_eq!(f64::from_bits(d_blen()), 110.0);
}

fn pt(x: f64, y: f64) -> Point {
    (x.to_bits(), y.to_bits())
}

#[test]
fn clip_emits_pieces_with_extent() {
    let g = grid(4, 3);
    let mut out = vec![rec(0, 9)];
    let (a, b) = (pt(1.0, 2.0), pt(3.0, 4.0));
    let knife = Knife {
        cross: |p: Point, q: Point| {
            assert_eq!((p, q), (a, b));
            bits(&[0.5, 0.75])
        },
        place: |_: Point, _: Point, s: u64, _: u64| {
            if f64::from_bits(s) == 0.5 { None } else { Some((if f64::from_bits(s) == 0.0 { 1 } else { 99 }, 2)) }
        },
        quant: |_: Point, _: Point, s: u64, _: u64, c: u32, r: u32| {
            if f64::from_bits(s) == 0.0 { [1, 2, 3, c as u16] } else { [5, r as u16, 5, 7] }
        },
    };
    g.clip(a, b, &knife, 11, 22, &mut out);
    assert_eq!(out.len(), 3);
    assert_eq!((out[0].cell, out[1].cell, out[2].cell), (0, 9, 11));
    assert_eq!(out[1].q, [1, 2, 3, 1]);
    assert_eq!(out[2].q, [5, 2, 5, 7]);
    assert_eq!((out[2].b0, out[2].b1), (11, 22));
    let n = out.len();
    let still = Knife {
        cross: |_: Point, _: Point| vec![],
        place: |_: Point, _: Point, _: u64, _: u64| Some((0, 0)),
        quant: |_: Point, _: Point, _: u64, _: u64, _: u32, _: u32| [4, 4, 4, 4],
    };
    g.clip(a, b, &still, 0, 0, &mut out);
    assert_eq!(out.len(), n);
}

#[test]
fn line_is_clipped_segment_by_segment() {
    let g = grid(4, 3);
    let knife = Knife {
        cross: |_: Point, _: Point| vec![],
        place: |a: Point, _: Point, _: u64, _: u64| Some((f64::from_bits(a.0) as i64, 0)),
        quant: |a: Point, b: Point, _: u64, _: u64, _: u32, _: u32| [f64::from_bits(a.0) as u16, 0, f64::from_bits(b.0) as u16, 0],
    };
    let mut out = Vec::new();
    g.clip_line(&vec![pt(0.0, 0.0), pt(1.0, 0.0), pt(3.0, 0.0)], &knife, 1, 2, &mut out);
    let found: Vec<(u32, u16, u16)> = out.iter().map(|r| (r.cell, r.q[0], r.q[2])).collect();
    assert_eq!(found, vec![(0, 0, 1), (1, 1, 3)]);
    g.clip_line(&vec![pt(0.0, 0.0)], &knife, 1, 2, &mut out);
    g.clip_line(&vec![], &knife, 1, 2, &mut out);
    assert_eq!(out.len(), 2);
}

fn line(ys: &[f64]) -> Vec<Point> {
    ys.iter().enumerate().map(|(i, y)| pt(i as f64, *y)).collect()
}

fn perp(p: Point, a: Point, b: Point) -> u64 {
    let f = |v: Point| (f64::from_bits(v.0), f64::from_bits(v.1));
    let (p, a, b) = (f(p), f(a), f(b));
    let t = (p.0 - a.0) / (b.0 - a.0);
    (p.1 - (a.1 + t * (b.1 - a.1))).abs().to_bits()
}

#[test]
fn simplify_keeps_the_bends() {
    let ys = line(&[0.0, 2.51, 5.0, 2.49, 0.0]);
    assert_eq!(simplify(&ys, 0.5f64.to_bits(), &perp), vec![0, 2, 4]);
    let bent = line(&[0.0, 0.01, 5.0, 2.0, 0.0]);
    assert_eq!(simplify(&bent, 0.1f64.to_bits(), &perp), vec![0, 1, 2, 3, 4]);
    assert_eq!(simplify(&ys, 100.0f64.to_bits(), &perp), vec![0, 4]);
    assert_eq!(simplify(&ys, 0, &perp), vec![0, 1, 2, 3, 4]);
    assert_eq!(simplify(&line(&[0.0, 9.0]), 1.0f64.to_bits(), &perp), vec![0, 1]);
    assert_eq!(simplify(&vec![], 1.0f64.to_bits(), &perp), Vec::<usize>::new());
}

#[test]
fn simplify_stays_within_tolerance() {
    let ys: Vec<f64> = (0..60).map(|i| ((i * i * 7) % 23) as f64).collect();
    let ps = line(&ys);
    let tol = 6.0f64;
    let kept = simplify(&ps, tol.to_bits(), &perp);
    assert_eq!((kept[0], kept[kept.len() - 1]), (0, 59));
    for w in kept.windows(2) {
        for i in w[0] + 1..w[1] {
            assert!(f64::from_bits(perp(ps[i], ps[w[0]], ps[w[1]])) <= tol);
        }
    }
}

#[test]
fn years_are_stamped() {
    let y = Years::load("5\tCI\t1900\n5\t*\t1950\n7\tXX\t1900\nbad\tCI\t1900\n8\tCI\n3605\tPE\t1700\n9\tPE\t2500");
    assert_eq!(y.stamp(5, 0, 0), 52);
    assert_eq!(y.stamp(5, 0, 1), 102);
    assert_eq!(y.stamp(5, 1, 7), 1);
    assert_eq!(y.stamp(7, 0, 0), 52);
    assert_eq!(y.stamp(8, 0, 7), 255);
    assert_eq!(y.stamp(100, 100, 0), 0);
    assert_eq!(y.stamp(-1, 0, 0), 0);
    assert_eq!(y.stamp(i64::MAX, i64::MIN, 0), 0);
    assert_eq!(y.stamp(5, 0, 200), 102);
    assert_eq!(Years::load("").stamp(0, 0, 0), 0);
}

#[test]
fn year_of_the_nearest_ring_wins() {
    let y = Years::load("2\tCI\t1910\n3601\tCI\t1920");
    assert_eq!(y.stamp(0, 0, 0), 72);
    assert_eq!(y.stamp(2, 0, 0), 62);
}

#[test]
fn span_of_years() {
    let mut s = YearSpan::new();
    assert_eq!(s.settle(), YearSpan { lo: 2, hi: 178 });
    s.see(0);
    assert_eq!(s.settle(), YearSpan { lo: 2, hi: 178 });
    s.see(90);
    s.see(40);
    s.see(120);
    assert_eq!(s.settle(), YearSpan { lo: 40, hi: 120 });
}

fn v() -> Vertex {
    Vertex { x: 0, y: 0, node: (0, 0) }
}

#[test]
fn only_lines_are_drawn() {
    assert_eq!(lines_to_draw(&Geom::Line(vec![v(), v()])).len(), 1);
    assert_eq!(lines_to_draw(&Geom::Line(vec![v()])).len(), 0);
    assert_eq!(lines_to_draw(&Geom::Multi(vec![vec![v()], vec![v(), v(), v()], vec![v(), v()]])).len(), 2);
    assert_eq!(lines_to_draw(&Geom::Poly(vec![v(), v(), v()])).len(), 0);
}

#[test]
fn map_description() {
    let s = |t: &str| t.to_string();
    let t = MapTexts {
        minx: s("80"), miny: s("0"), cell: s("2"), cx: s("1"), cy: s("2"), s: s("0.01"),
        detail_scale: s("0.083"), bldg_scale: s("0.5"), smin: s("0.001"), smax: s("80"), step: s("0.2"),
    };
    assert_eq!(
        map_json(&t, 180, 360, &YearSpan { lo: 2, hi: 178 }, (1801, 3601), 251),
        "{\"minx\":80,\"miny\":0,\"cell\":2,\"ncols\":180,\"nrows\":360,\"view\":{\"cx\":1,\"cy\":2,\"s\":0.01},\
         \"detail_scale\":0.083,\"bldg_scale\":0.5,\"smin\":0.001,\"smax\":80,\"yr0\":1848,\"yr\":[1850,2026],\
         \"t0\":{\"nx\":1801,\"ny\":3601,\"step\":0.2},\"t1\":{\"p\":251}}"
    );
}

fn row(layer: &str, tip: &str, year: Option<i32>, geom: Geom) -> Row {
    Row {
        fid: None,
        layer: layer.to_string(),
        tip: Some(tip.to_string()),
        square: String::new(),
        facet: String::new(),
        src: None,
        date: None,
        year,
        geom,
    }
}

fn vertices(xs: &[f64]) -> Vec<Vertex> {
    xs.iter().map(|x| Vertex { x: x.to_bits(), y: 0, node: (0, 0) }).collect()
}

#[test]
fn painter_fills_both_layers() {
    let g = grid(4, 3);
    let years = Years::load("5\tCI\t1900");
    let mut mats = Vocab::new();
    mats.insert("CI".to_string(), "cast iron".to_string());
    let look = Look { tiers: None, re: Pattern::new("^(\\d+) *(MM)? *([A-Z]{2})$"), mats };
    let pen = Pen {
        perp,
        spot: |a: Point, _: Point| if a.0 == 0 { (5, 0) } else { (900, 900) },
        length: |ps: &Vec<Point>| (f64::from_bits(ps[ps.len() - 1].0) - f64::from_bits(ps[0].0)).to_bits(),
        knife: Knife {
            cross: |_: Point, _: Point| vec![],
            place: |a: Point, _: Point, _: u64, _: u64| Some((f64::from_bits(a.0) as i64 / 100, 2)),
            quant: |_: Point, _: Point, _: u64, _: u64, _: u32, _: u32| [0, 0, 1, 1],
        },
    };
    let rows = vec![
        row("Low", "90 MM CI", None, Geom::Line(vertices(&[0.0, 100.0, 200.0]))),
        row("Low", "90 MM CI", Some(1987), Geom::Multi(vec![vertices(&[100.0, 200.0]), vertices(&[7.0])])),
        row("NTS", "x", Some(1970), Geom::Line(vertices(&[300.0, 310.0]))),
        row("Low", "90 MM CI", None, Geom::Poly(vertices(&[0.0, 1.0, 2.0]))),
    ];
    let m = map_cfg();
    let mut p = Painter::new();
    p.rows(&g, &rows, &look, &years, &m, &pen);
    let drawn: Vec<(u32, u8, u8)> = p.detail.iter().map(|r| (r.cell, r.b0, r.b1)).collect();
    // the middle vertex of the first line stands on its course and is left out
    assert_eq!(drawn, vec![(8, 0, 52), (9, 0, 0), (11, 9, 0)]);
    let coarse: Vec<(u32, u8, u8)> = p.base.iter().map(|r| (r.cell, r.b0, r.b1)).collect();
    assert_eq!(coarse, vec![(8, 0, 52)]);
    let f = p.finish(&g);
    assert_eq!(f.layer.bin.len(), 36);
    assert_eq!((f.layer.bin[8], f.layer.bin[20], f.layer.bin[32]), (8, 9, 11));
    assert_eq!((f.layer.bin[10], f.layer.bin[11]), (0, 52));
    assert_eq!(f.layer.idx.len(), 48);
    assert_eq!(f.base.len(), 12);
    assert_eq!((f.base[8], f.base[11]), (8, 52));
    assert_eq!(f.span, YearSpan { lo: 52, hi: 52 });
}

#[test]
fn grid_without_cells_gives_empty_files() {
    let g = grid(0, 3);
    let look = Look { tiers: None, re: None, mats: Vocab::new() };
    let pen = Pen {
        perp,
        spot: |_: Point, _: Point| (0, 0),
        length: |_: &Vec<Point>| 0,
        knife: Knife {
            cross: |_: Point, _: Point| vec![],
            place: |_: Point, _: Point, _: u64, _: u64| None,
            quant: |_: Point, _: Point, _: u64, _: u64, _: u32, _: u32| [0; 4],
        },
    };
    let mut p = Painter::new();
    p.rows(&g, &vec![], &look, &Years::load(""), &map_cfg(), &pen);
    let f = p.finish(&g);
    assert!(f.layer.bin.is_empty() && f.layer.idx.is_empty() && f.base.is_empty());
}
