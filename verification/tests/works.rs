use gdn_gis::pattern::Pattern;
use gdn_gis::works::{admits, admits_with, centroid, d_cat, day, dig, dig_marker, dig_order, is_archive, tsv_line, Ev, Latest};

fn ev(permit: Option<&str>, time: Option<&str>, status: &str) -> Ev {
    let s = |t: &str| Some(t.to_string());
    Ev {
        permit_reference_number: permit.map(str::to_string),
        promoter_organisation: s("CADENT GAS"),
        works_location_coordinates: s("POLYGON((100 200,300 400))"),
        street_name: s(" High\tStreet\n"),
        town: None,
        highway_authority: s("Council"),
        work_category: s("Immediate - urgent"),
        work_category_ref: s("immediate_urgent"),
        work_status: s(status),
        proposed_start_date: s("2024-03-01T00:00"),
        proposed_end_date: s("2024-03-05"),
        actual_start_date_time: None,
        actual_end_date_time: s("2024"),
        event_time: time.map(str::to_string),
    }
}

#[test]
fn days_of_dates() {
    assert_eq!(day("1970-01-01"), 0);
    assert_eq!(day("1970-01-02T09:00"), 1);
    assert_eq!(day("1969-12-31"), -1);
    assert_eq!(day("2000-02-29"), 11016);
    assert_eq!(day("2000-03-01"), 11017);
    assert_eq!(day("2024-12-31") + 1, day("2025-01-01"));
    assert_eq!(day("1900-02-28") + 1, day("1900-03-01"));
    assert_eq!(day(""), day("0000-00-00"));
    assert_eq!(day("-001-01-01"), -719893);
}

#[test]
fn centroid_collects_pairs() {
    let p = centroid("POLYGON((1 2,3 4,-5.5 6))").unwrap();
    assert_eq!(p.xs, vec!["1", "3", "-5.5"]);
    assert_eq!(p.ys, vec!["2", "4", "6"]);
    assert_eq!(p.n, 3);
    let p = centroid("1 2 3").unwrap();
    assert_eq!((p.xs.len(), p.ys.len(), p.n), (2, 1, 1));
    assert!(centroid("7").is_none());
    assert!(centroid("- . --").is_none());
}

#[test]
fn events_are_admitted() {
    let p = Pattern::new("(?i)cadent").unwrap();
    assert!(admits(&ev(Some("p"), None, "s"), "immediate", &p));
    assert!(!admits(&ev(Some("p"), None, "s"), "major", &p));
    assert!(!admits(&ev(None, None, "s"), "immediate", &p));
    let q = Pattern::new("thames").unwrap();
    assert!(!admits(&ev(Some("p"), None, "s"), "immediate", &q));
    assert!(!admits_with(&ev(Some("p"), None, "s"), "immediate", false));
    assert!(admits_with(&ev(Some("p"), None, "s"), "", true));
    assert_eq!(d_cat(), "immediate");
    assert!(is_archive("2024_01.ndjson.gz") && !is_archive("2024_01.json"));
}

#[test]
fn latest_event_of_a_permit_stays() {
    let mut l = Latest::new();
    l.add(ev(Some("p"), Some("2024-01-02"), "second"));
    l.add(ev(Some("p"), Some("2024-01-01"), "first"));
    l.add(ev(Some("p"), None, "none"));
    l.add(ev(None, Some("2025"), "no permit"));
    l.add(ev(Some("q"), None, "other"));
    let ds = l.digs();
    assert_eq!(ds.len(), 2);
    assert_eq!(ds[0].fields[2], "second");
    assert_eq!(ds[1].fields[2], "other");
}

#[test]
fn events_in_parts_like_the_whole() {
    let run = [("p", Some("1"), "a"), ("q", None, "b"), ("p", Some("2"), "c"), ("q", Some("0"), "d"), ("p", Some("2"), "e")];
    for cut in 0..=run.len() {
        let (mut x, mut y) = (Latest::new(), Latest::new());
        for (i, (k, t, s)) in run.iter().enumerate() {
            let e = ev(Some(k), *t, s);
            if i < cut {
                x.add(e)
            } else {
                y.add(e)
            }
        }
        x.merge(y);
        let mut got: Vec<(String, String)> =
            x.digs().iter().map(|d| (d.fields[0].clone(), d.fields[2].clone())).collect();
        got.sort();
        assert_eq!(got, vec![("p".to_string(), "c".to_string()), ("q".to_string(), "d".to_string())]);
    }
}

#[test]
fn digs_have_clean_fields() {
    let d = dig(&ev(Some("p"), None, "done")).unwrap();
    assert_eq!(d.fields, vec!["p", "Immediate - urgent", "done", "High Street", "", "Council", "2024-03-01", ""]);
    assert_eq!(d.day, day("2024-03-01"));
    assert!(!d.emergency);
    assert_eq!(tsv_line(&d.fields), "p\tImmediate - urgent\tdone\tHigh Street\t\tCouncil\t2024-03-01\t");
    let mut e = ev(Some("p"), None, "done");
    e.work_category_ref = Some("immediate_emergency".to_string());
    e.actual_start_date_time = Some("2024-02-28 10:00".to_string());
    let d = dig(&e).unwrap();
    assert!(d.emergency);
    assert_eq!(d.day, day("2024-02-28"));
    e.works_location_coordinates = None;
    assert!(dig(&e).is_none());
    assert_eq!(tsv_line(&vec![]), "");
}

#[test]
fn digs_are_ordered_by_day_and_permit() {
    let mut ds = Vec::new();
    for (p, start) in [("b", "2024-01-02"), ("z", "2024-01-01"), ("a", "2024-01-02")] {
        let mut e = ev(Some(p), None, "s");
        e.actual_start_date_time = Some(start.to_string());
        ds.push(dig(&e).unwrap());
    }
    assert_eq!(dig_order(&ds), vec![1, 2, 0]);
}

#[test]
fn packed_events_are_taken_in() {
    let text = "p1 2024-02\nnot an event\np1 2024-01\np2 2024-01\n";
    let mut e = flate2::write::GzEncoder::new(Vec::new(), flate2::Compression::default());
    std::io::Write::write_all(&mut e, text.as_bytes()).unwrap();
    let file = e.finish().unwrap();
    let parse = |l: &str| {
        let mut f = l.split(' ');
        let (p, t) = (f.next()?, f.next()?);
        if p.starts_with('p') { Some(ev(Some(p), Some(t), l)) } else { None }
    };
    let cadent = Pattern::new("CADENT").unwrap();
    let mut l = Latest::new();
    l.read(&file, "immediate", &cadent, &parse);
    let digs = l.digs();
    assert_eq!(digs.len(), 2);
    assert_eq!(digs[0].fields[2], "p1 2024-02");
    assert_eq!(digs[1].fields[2], "p2 2024-01");
    let mut none = Latest::new();
    none.add_lines(&vec!["p1 2024-02".to_string()], "major", &cadent, &parse);
    assert!(none.digs().is_empty());
}

#[test]
fn digs_are_marked() {
    let bytes = |vs: [f32; 4]| vs.iter().flat_map(|v| v.to_le_bytes()).collect::<Vec<u8>>();
    let mut d = dig(&ev(Some("p"), None, "s")).unwrap();
    let b = |v: f32| v.to_bits();
    d.emergency = false;
    assert_eq!(dig_marker(&d, b(1.5), b(-2.0), b(19000.0)), bytes([1.5, -2.0, 19000.0, 0.0]));
    d.emergency = true;
    assert_eq!(dig_marker(&d, b(1.5), b(-2.0), b(19000.0)), bytes([1.5, -2.0, 19000.0, 1.0]));
}
