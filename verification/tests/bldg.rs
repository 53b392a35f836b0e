use gdn_gis::bldg::{find_id, footprint, hand_down, height_texts, heights, is_building, name_row, node_ids, num, reaches, sidecar, tag, way, Inherited, Middle, Relations, Walls, Way};
use gdn_gis::grid::{Grid, Knife, Point};

fn tags(ts: &[(&str, &str)]) -> Vec<(String, String)> {
    ts.iter().map(|t| (t.0.to_string(), t.1.to_string())).collect()
}

#[test]
fn first_tag_counts() {
    let t = tags(&[("a", "1"), ("building", "yes"), ("a", "2")]);
    assert_eq!(tag(&t, "a"), Some("1".to_string()));
    assert_eq!(tag(&t, "b"), None);
    assert!(is_building(&t));
    assert!(!is_building(&tags(&[("name", "x")])));
}

#[test]
fn numbers_in_tags() {
    let n = |t: &str| num(&Some(t.to_string()));
    assert_eq!(n("12.5 m"), Some("12.5".to_string()));
    assert_eq!(n("ca. 3"), None);
    assert_eq!(n("about 3 m"), Some("3".to_string()));
    assert_eq!(n("none"), None);
    assert_eq!(n("1-2"), None);
    assert_eq!(num(&None), None);
    let h = height_texts(&tags(&[("height", "9 m"), ("building:levels", "3;4"), ("min_height", "-1")]));
    assert_eq!(h.height, Some("9".to_string()));
    assert_eq!(h.levels, Some("3".to_string()));
    assert_eq!(h.min_height, Some("-1".to_string()));
}

fn reference(h: Option<f64>, l: Option<f64>, m: Option<f64>) -> (u8, u8) {
    let h = h.or(l).filter(|&h| h > 0.0).unwrap_or(8.0);
    let mh = m.unwrap_or(0.0).max(0.0);
    ((h.max(2.0) * 2.0).min(255.0) as u8, (mh * 2.0).min(255.0) as u8)
}

#[test]
fn heights_in_half_metres() {
    let vs = [
        0.0, -0.0, 0.2, 0.49999, 0.5, 0.75, 1.0, 1.5, 1.99, 2.0, 2.49, 2.5, 3.0, 7.9, 8.0, 12.34, 31.9, 63.75, 64.0,
        100.2, 127.4, 127.5, 127.9, 128.0, 500.0, -5.0, 1e300, 1e-310, f64::INFINITY, f64::NEG_INFINITY,
    ];
    for a in vs {
        assert_eq!(heights(Some(a.to_bits()), Some(9.0f64.to_bits()), Some(a.to_bits())), reference(Some(a), Some(9.0), Some(a)));
        assert_eq!(heights(None, Some(a.to_bits()), None), reference(None, Some(a), None));
    }
    assert_eq!(heights(None, None, None), (16, 0));
}

#[test]
fn ways_inherit_from_relations() {
    let i = |h: u8, name: Option<&str>| Inherited { h, mh: 1, name: name.map(str::to_string) };
    let r = Relations::new(vec![(7, i(10, Some("first"))), (8, i(20, None)), (7, i(30, Some("last")))]);
    assert_eq!(r.get(7).unwrap().h, 30);
    assert!(r.get(9).is_none());
    let w = way(None, None, r.get(7)).unwrap();
    assert_eq!((w.h, w.mh, w.name), (30, 1, Some("last".to_string())));
    let w = way(Some((5, 0)), None, r.get(7)).unwrap();
    assert_eq!((w.h, w.mh, w.name), (5, 0, Some("last".to_string())));
    let w = way(Some((5, 0)), Some("own".to_string()), r.get(7)).unwrap();
    assert_eq!(w.name, Some("own".to_string()));
    let w = way(None, None, r.get(8)).unwrap();
    assert_eq!((w.h, w.name), (20, None));
    assert!(way(None, Some("own".to_string()), None).is_none());
}

#[test]
fn node_ids_are_sorted_once() {
    let ids = node_ids(&vec![vec![5, 3, 5], vec![], vec![-1, 3, 9]]);
    assert_eq!(ids, vec![-1, 3, 5, 9]);
    for (i, id) in ids.iter().enumerate() {
        assert_eq!(find_id(&ids, *id), Some(i));
    }
    assert_eq!(find_id(&ids, 4), None);
    assert_eq!(find_id(&ids, 100), None);
    assert_eq!(find_id(&vec![], 0), None);
}

#[test]
fn names_are_cleaned() {
    assert_eq!(name_row("1.000", "2.500", " Old\tTown\r\nHall "), "1.000\t2.500\tOld Town  Hall\n");
}

#[test]
fn sidecar_offsets_delimit_cells() {
    let cells = vec![2i64, 0, 2, 0];
    let texts: Vec<String> = ["bb\n", "c\u{e9}\n", "aaa\n", "a\n"].iter().map(|s| s.to_string()).collect();
    let s = sidecar(&cells, &texts, 4).unwrap();
    assert_eq!(String::from_utf8(s.tsv.clone()).unwrap(), "a\nc\u{e9}\naaa\nbb\n");
    assert_eq!(s.offsets, vec![0, 6, 6, 13, 13]);
    for c in 0..4usize {
        let part = &s.tsv[s.offsets[c] as usize..s.offsets[c + 1] as usize];
        let n: usize = (0..4).filter(|&i| cells[i] == c as i64).map(|i| texts[i].len()).sum();
        assert_eq!(part.len(), n);
    }
    let s = sidecar(&vec![], &vec![], 2).unwrap();
    assert_eq!(s.offsets, vec![0, 0, 0]);
}

#[test]
fn relations_hand_down_to_ways() {
    let es = hand_down(&tags(&[("building", "yes"), ("name", "Hall")]), 9, 2, &vec![4, 5]);
    let got: Vec<(i64, u8, u8, Option<&str>)> = es.iter().map(|e| (e.0, e.1.h, e.1.mh, e.1.name.as_deref())).collect();
    assert_eq!(got, vec![(4, 9, 2, Some("Hall")), (5, 9, 2, Some("Hall"))]);
    assert!(hand_down(&tags(&[("name", "Hall")]), 9, 2, &vec![4, 5]).is_empty());
}

fn pt(x: f64, y: f64) -> Point {
    (x.to_bits(), y.to_bits())
}

#[test]
fn footprints_take_known_nodes() {
    let ids = vec![3, 5, 8];
    let places = vec![Some(pt(1.0, 1.0)), None, Some(pt(2.0, 2.0))];
    assert_eq!(footprint(&ids, &places, &vec![8, 5, 4, 3, 8]), vec![pt(2.0, 2.0), pt(1.0, 1.0), pt(2.0, 2.0)]);
}

#[test]
fn footprints_reach_the_map() {
    let (lo, hi) = (pt(0.0, 0.0), pt(4.0, 4.0));
    assert!(reaches(&vec![pt(-1.0, 1.0), pt(0.0, 0.0)], lo, hi));
    assert!(!reaches(&vec![pt(4.0, 1.0), pt(1.0, 4.0)], lo, hi));
    assert!(!reaches(&vec![pt(1.0, 1.0)], lo, hi));
    assert!(!reaches(&vec![pt(1.0, f64::NAN), pt(f64::NAN, 1.0)], lo, hi));
}

#[test]
fn walls_are_drawn_and_named() {
    let g = Grid { minx: 0, miny: 0, cell: 2.0f64.to_bits(), nc: 2, nr: 2 };
    let (lo, hi) = (pt(0.0, 0.0), pt(4.0, 4.0));
    let knife = Knife {
        cross: |_: Point, _: Point| vec![],
        place: |_: Point, _: Point, _: u64, _: u64| Some((1, 1)),
        quant: |_: Point, _: Point, _: u64, _: u64, _: u32, _: u32| [0, 0, 1, 1],
    };
    let middle = |_: &Vec<Point>| Middle { x: "1.000".to_string(), y: "2.000".to_string(), col: 0, row: 5 };
    let mut w = Walls::new();
    let named = Way { h: 7, mh: 1, name: Some("Hall".to_string()) };
    let plain = Way { h: 8, mh: 0, name: None };
    let ps = vec![pt(1.0, 1.0), pt(2.0, 1.0), pt(2.0, 2.0)];
    w.draw(&g, &named, &ps, lo, hi, &knife, &middle);
    w.draw(&g, &plain, &ps, lo, hi, &knife, &middle);
    w.draw(&g, &named, &vec![pt(9.0, 9.0), pt(8.0, 8.0)], lo, hi, &knife, &middle);
    let drawn: Vec<(u32, u8, u8)> = w.recs.iter().map(|r| (r.cell, r.b0, r.b1)).collect();
    assert_eq!(drawn, vec![(3, 7, 1), (3, 7, 1), (3, 8, 0), (3, 8, 0)]);
    assert_eq!((w.cells.clone(), w.texts.clone()), (vec![2], vec!["1.000\t2.000\tHall\n".to_string()]));
    let mut all = Walls::new();
    all.merge(w);
    assert_eq!((all.recs.len(), all.cells.len(), all.texts.len()), (4, 1, 1));
}
