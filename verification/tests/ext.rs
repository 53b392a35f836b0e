use gdn_gis::ext::{centreline, open_ring, pipe_line, pipe_row, rings, rows, site, site_marker, site_order, sites, Pair};
use gdn_gis::geom::{Geom, Vertex};

#[test]
fn rings_of_shapes() {
    let r = rings("MULTIPOLYGON (((1 2, 3.5 -4 9, x 5, 6 7),(8 9)),((1e2 2,\n3 4)))");
    assert_eq!(r.len(), 2);
    assert_eq!(
        r[0],
        vec![
            ("1".to_string(), "2".to_string()),
            ("3.5".to_string(), "-4".to_string()),
            ("6".to_string(), "7".to_string())
        ]
    );
    assert_eq!(r[1][0], ("1e2".to_string(), "2".to_string()));
    assert!(rings("").is_empty());
    assert!(rings("POINT (1 2)").is_empty());
}

#[test]
fn closed_rings_are_opened() {
    let b = |x: f64, y: f64| (x.to_bits(), y.to_bits());
    assert_eq!(open_ring(vec![b(0.0, 0.0), b(1.0, 0.0), b(-0.0, 0.0)]).len(), 2);
    assert_eq!(open_ring(vec![b(0.0, 0.0), b(1.0, 0.0)]).len(), 2);
    assert_eq!(open_ring(vec![b(0.0, 0.0)]).len(), 1);
}

fn dist(a: (f64, f64), b: (f64, f64)) -> f64 {
    (a.0 - b.0).hypot(a.1 - b.1)
}

fn axis(rs: &[Vec<(f64, f64)>]) -> Vec<Vec<Pair>> {
    let arcs: Vec<Vec<f64>> = rs
        .iter()
        .map(|r| {
            let mut s = 0.0;
            (0..r.len())
                .map(|i| {
                    let a = s;
                    s += dist(r[i], r[(i + 1) % r.len()]);
                    a
                })
                .collect()
        })
        .collect();
    let perim: Vec<f64> =
        rs.iter().zip(&arcs).map(|(r, a)| a[a.len() - 1] + dist(r[r.len() - 1], r[0])).collect();
    let mid = |p: Pair| {
        let (a, b) = (rs[p.0][p.1], rs[p.2][p.3]);
        ((a.0 + b.0) / 2.0, (a.1 + b.1) / 2.0)
    };
    let lens: Vec<usize> = rs.iter().map(|r| r.len()).collect();
    centreline(
        &lens,
        |ri, i, qi, j| dist(rs[ri][i], rs[qi][j]).to_bits(),
        |q, a, b| {
            let g = (arcs[q][a] - arcs[q][b]).abs();
            g.min(perim[q] - g).to_bits()
        },
        |p, q| dist(mid(p), mid(q)).to_bits(),
    )
}

#[test]
fn corridor_collapses_to_its_axis() {
    let mut ring: Vec<(f64, f64)> = (0..12).map(|i| (i as f64 * 40.0, 12.0)).collect();
    ring.extend((0..12).rev().map(|i| (i as f64 * 40.0, -12.0)));
    let lines = axis(&[ring]);
    assert_eq!(lines.len(), 1);
    assert_eq!(lines[0].len(), 12);
    for (i, p) in lines[0].iter().enumerate() {
        assert_eq!((p.0, p.1, p.2), (0, i, 0));
        assert!(p.1 < p.3);
        if i >= 3 && i <= 8 {
            assert_eq!(p.1 + p.3, 23);
        }
    }
    assert_eq!(lines[0][0], (0, 0, 0, 21));
}

#[test]
fn axis_breaks_at_leaps() {
    let mut ring: Vec<(f64, f64)> = vec![(0.0, 12.0), (100.0, 12.0), (900.0, 12.0), (1000.0, 12.0)];
    ring.extend(vec![(1000.0, -12.0), (900.0, -12.0), (100.0, -12.0), (0.0, -12.0)]);
    assert_eq!(axis(&[ring]), vec![vec![(0, 0, 0, 1), (0, 1, 0, 6)]]);
    assert!(axis(&[vec![(0.0, 0.0), (1.0, 0.0)]]).is_empty());
}

#[test]
fn pipe_lines_are_read() {
    let l = pipe_line("LINESTRING (1 2, 3 4)\tMP\tPE\t1987-05-01");
    assert_eq!(l.layer, "Medium Pressure Mains & Plant");
    assert_eq!(l.tip, Some("0MM PE".to_string()));
    assert_eq!(l.year, 1987);
    assert!(!l.corridor);
    assert_eq!(l.rings.len(), 1);
    let l = pipe_line("POLYGON ((1 2, 3 4))\tNTS");
    assert!(l.corridor);
    assert_eq!((l.layer.as_str(), l.tip.is_none(), l.year), ("NTS", true, 0));
    assert_eq!(pipe_line("x\tLHP").layer, "Local High Pressure Mains & Plant");
    assert_eq!(pipe_line("x\tHP").layer, "Local High Pressure Mains & Plant");
    assert_eq!(pipe_line("x\tLP\t\tabcd").year, 0);
    assert_eq!(pipe_line("x\tIP\t\t19").year, 0);
}

#[test]
fn pipe_rows_hold_lines() {
    let v = Vertex { x: 0, y: 0, node: (0, 0) };
    assert!(pipe_row(pipe_line("x\tLP"), vec![]).is_none());
    let r = pipe_row(pipe_line("x\tLP\tPE\t1990"), vec![vec![v, v]]).unwrap();
    assert!(matches!(r.geom, Geom::Line(_)));
    assert_eq!((r.year, r.fid.is_none(), r.square.as_str()), (Some(1990), true, ""));
    let r = pipe_row(pipe_line("x\tLP"), vec![vec![v, v], vec![v, v]]).unwrap();
    assert!(matches!(r.geom, Geom::Multi(_)));
}

#[test]
fn corridors_are_drawn_by_their_axis() {
    let at = |x: u64| Vertex { x, y: 0, node: (0, 0) };
    let axis = |rs: &Vec<Vec<(String, String)>>| if rs.len() > 1 { vec![vec![at(1), at(2)]] } else { vec![] };
    let course = |rs: &Vec<Vec<(String, String)>>| rs.iter().map(|r| r.iter().map(|_| at(9)).collect()).collect();
    let text = "LINESTRING (1 2, 3 4, 5 6)\tLP\tPE\t1990-01-02\n\
        POLYGON ((1 2, 3 4), (5 6, 7 8))\tNTS\r\n\
        POLYGON ((1 2, 3 4))\tNTS\n\
        nothing\tMP\n\
        MULTILINESTRING ((1 2, 3 4), (5 6, 7 8))\tMP\tXX";
    let rs = rows(text, &axis, &course);
    let shown: Vec<(&str, Option<i32>, bool)> =
        rs.iter().map(|r| (r.layer.as_str(), r.year, matches!(r.geom, Geom::Line(_)))).collect();
    assert_eq!(
        shown,
        vec![
            ("Low Pressure Mains & Plant", Some(1990), true),
            ("NTS", Some(0), true),
            ("Medium Pressure Mains & Plant", Some(0), false),
        ]
    );
    match &rs[1].geom {
        Geom::Line(l) => assert_eq!(l.iter().map(|v| v.x).collect::<Vec<u64>>(), vec![1, 2]),
        _ => unreachable!(),
    }
    match &rs[0].geom {
        Geom::Line(l) => assert_eq!(l.len(), 3),
        _ => unreachable!(),
    }
    assert!(rows("", &axis, &course).is_empty());
}

#[test]
fn sites_are_labelled() {
    let s = site("POLYGON ((0 0, 1 1, 2 2))\tAGI \tBlanchland_4219").unwrap();
    assert_eq!(s.label, "Blanchland\tabove-ground installation");
    assert_eq!(s.ring.len(), 3);
    assert_eq!(site("POLYGON ((0 0, 1 1))\tCOMP\tSt_Fergus").unwrap().label, "St Fergus\tcompressor station");
    assert_eq!(site("POLYGON ((0 0, 1 1))\tTCSITE\t").unwrap().label, "\tterminal");
    assert_eq!(site("POLYGON ((0 0, 1 1))\tOTHER").unwrap().label, "\tOTHER");
    assert!(site("nothing\tAGI\tx").is_none());
    assert_eq!(sites("POLYGON ((0 0, 1 1))\tA\nnone\nPOLYGON ((0 0, 1 1))\tB").len(), 2);
}

#[test]
fn sites_run_south_to_north() {
    let ys: Vec<u64> = [3.0f64, -1.0, 3.0, f64::NAN, -0.0, 0.0].iter().map(|y| y.to_bits()).collect();
    let labels: Vec<String> = ["b", "z", "a", "n", "y", "x"].iter().map(|s| s.to_string()).collect();
    assert_eq!(site_order(&ys, &labels), vec![1, 4, 5, 2, 0, 3]);
    let same = vec![0u64; 3];
    let labels = vec!["q".to_string(); 3];
    assert_eq!(site_order(&same, &labels), vec![0, 1, 2]);
}

#[test]
fn sites_are_marked() {
    let want: Vec<u8> = [451.25f32, 330.5, 0.0, 2.0].iter().flat_map(|v| v.to_le_bytes()).collect();
    assert_eq!(site_marker(451.25f32.to_bits(), 330.5f32.to_bits()), want);
}
