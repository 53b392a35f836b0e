use std::io::BufRead;

use gdn_gis::archive::{find_grid, packed_grid, packed_lines, read_texts, split_lines, Packed};
use gdn_gis::terrain::{detail, fill, is_detailed, is_elevation, mark, new_bits, read_asc, t0_dims, Asc, Master, Patch, CELL_BYTES, MISSING, P};
use std::io::Write;

#[test]
fn coarse_posts() {
    assert_eq!(t0_dims(10, 180, 360), (1801, 3601));
    assert_eq!(CELL_BYTES, P * P * 2);
}

#[test]
fn elevation_grid_is_read() {
    match read_asc("NCOLS 2\nnrows 1\nxllcorner 400000\n1.5 x 2 -3") {
        Asc::Grid(h, v) => {
            assert_eq!(h.copied("ncols"), Some("2".to_string()));
            assert_eq!(h.copied("xllcorner"), Some("400000".to_string()));
            assert_eq!(v, vec!["1.5", "2", "-3"]);
        }
        _ => panic!("no grid"),
    }
    assert!(matches!(read_asc("ncols 2"), Asc::Empty));
    assert!(matches!(read_asc(""), Asc::Empty));
    assert!(matches!(read_asc("ncols"), Asc::Broken));
    assert!(matches!(read_asc("ncols two 3"), Asc::Broken));
}

#[test]
fn elevations_that_occur() {
    let e = |v: f64| is_elevation(v.to_bits());
    assert!(e(-99.9) && e(0.0) && e(2999.9));
    assert!(!e(-100.0) && !e(3000.0) && !e(f64::NAN) && !e(-9999.0));
}

#[test]
fn patches_write_the_last_value() {
    let mut m = Master::new(3, 2);
    assert_eq!(m.g, vec![1000; 6]);
    m.patch(&Patch {
        rows: vec![Some(1), None, Some(0), Some(1)],
        cols: vec![Some(2), None, Some(2)],
        vals: vec![Some(1), Some(2), Some(3), Some(4), Some(5), Some(6), None, Some(8), Some(9), Some(10), None, None],
    });
    assert_eq!(m.g, vec![1000, 1000, 9, 1000, 1000, 10]);
}

#[test]
fn posts_are_never_missing() {
    let mut m = Master::new(2, 2);
    let vals = vec![Some(MISSING - 1), None, Some(31000), Some(0)];
    m.patch(&Patch { rows: vec![Some(0), Some(1)], cols: vec![Some(0), Some(1)], vals });
    assert_eq!(m.g, vec![0xfffe, 1000, 31000, 0]);
    assert!(m.g.iter().all(|v| *v < MISSING));
    let (sw, se, nw, ne) = m.corners(0, 0);
    assert!(sw < MISSING && se < MISSING && nw < MISSING && ne < MISSING);
}

#[test]
fn posts_beyond_the_edge_repeat() {
    let mut m = Master::new(2, 2);
    m.g = vec![1, 2, 3, 4];
    assert_eq!(m.corners(0, 0), (1, 2, 3, 4));
    assert_eq!(m.corners(1, 1), (4, 4, 4, 4));
    assert_eq!(m.nearest(9, 0), 2);
    assert_eq!(m.tier0(2, 1), vec![1, 0, 2, 0]);
}

#[test]
fn holes_are_filled() {
    let mut raw = vec![0u8; CELL_BYTES];
    raw[0] = 0xff;
    raw[1] = 0xff;
    raw[4] = 0xff;
    raw[CELL_BYTES - 2] = 0xff;
    raw[CELL_BYTES - 1] = 0xff;
    assert!(is_detailed(&raw));
    let n = fill(&mut raw, |k| 0x0102 + k as u16);
    assert_eq!(n, 2);
    assert_eq!((raw[0], raw[1], raw[4], raw[5]), (2, 1, 0xff, 0));
    let v = 0x0102 + (P * P - 1) as u16;
    assert_eq!(&raw[CELL_BYTES - 2..], &v.to_le_bytes());
    assert!(!is_detailed(&vec![]));
}

#[test]
fn detail_is_taken_in() {
    let mut bits = new_bits(16);
    let mut raw = vec![0u8; CELL_BYTES];
    raw[2] = 0xff;
    raw[3] = 0xff;
    assert_eq!(detail(&mut bits, 9, &mut raw, |k| 700 + k as u16), Some(1));
    assert_eq!(bits, vec![0, 2]);
    assert_eq!(&raw[2..4], &701u16.to_le_bytes());
    let mut none = vec![0xff, 0xff];
    assert_eq!(detail(&mut bits, 3, &mut none, |_| 0), None);
    assert_eq!((bits, none), (vec![0, 2], vec![0xff, 0xff]));
}

#[test]
fn bitmap_ranks_find_cells() {
    let mut bits = new_bits(20);
    assert_eq!(bits, vec![0, 0, 0]);
    let cells = [0usize, 3, 8, 19];
    for c in cells {
        mark(&mut bits, c);
    }
    assert_eq!(bits, vec![0b1001, 0b1, 0b1000]);
    mark(&mut bits, 3);
    assert_eq!(bits[0], 0b1001);
    let set = |c: usize| bits[c / 8] >> (c % 8) & 1 == 1;
    for (rank, c) in cells.iter().enumerate() {
        assert_eq!((0..*c).filter(|&d| set(d)).count(), rank);
    }
    assert_eq!(new_bits(16).len(), 2);
}

fn gzip(b: &[u8]) -> Vec<u8> {
    let mut e = flate2::write::GzEncoder::new(Vec::new(), flate2::Compression::default());
    e.write_all(b).unwrap();
    e.finish().unwrap()
}

#[test]
fn lines_before_a_fault_come_through() {
    let mut n: u64 = 1;
    let mut text = Vec::new();
    for i in 0..4000 {
        n = n.wrapping_mul(6364136223846793005).wrapping_add(1442695040888963407);
        text.extend_from_slice(format!("{i} {n:x}\n").as_bytes());
    }
    let file = gzip(&text);
    let mut kept = 0;
    for k in 1..40 {
        let mut bad = file.clone();
        let at = k * bad.len() / 40;
        for b in &mut bad[at..at + 8] {
            *b = 0xff;
        }
        let want: Vec<String> = std::io::BufReader::new(flate2::read::MultiGzDecoder::new(&bad[..]))
            .lines()
            .map_while(Result::ok)
            .collect();
        assert_eq!(packed_lines(&bad), want);
        let cut = &file[..at];
        let want: Vec<String> = std::io::BufReader::new(flate2::read::MultiGzDecoder::new(cut))
            .lines()
            .map_while(Result::ok)
            .collect();
        assert_eq!(packed_lines(cut), want);
        kept += want.len();
    }
    assert!(kept > 0);
}

#[test]
fn packed_lines_are_unpacked() {
    let mut file = gzip(b"{\"a\":1}\r\n{\"b\":2}\n");
    file.extend(gzip("l\u{e9}st".as_bytes()));
    assert_eq!(packed_lines(&file), vec!["{\"a\":1}", "{\"b\":2}", "l\u{e9}st"]);
    assert!(packed_lines(b"no gzip").is_empty());
    let cut = &file[..file.len() - 6];
    assert_eq!(packed_lines(cut), vec!["{\"a\":1}", "{\"b\":2}"]);
    assert_eq!(packed_lines(&gzip(b"one\n\xff\xfe\nthree\n")), vec!["one"]);
}

#[test]
fn lines_of_bytes() {
    assert_eq!(split_lines(b"a\r\n\nb\r", true), vec![b"a".to_vec(), b"".to_vec(), b"b\r".to_vec()]);
    assert!(split_lines(b"", true).is_empty());
    assert_eq!(split_lines(b"\r\n", true), vec![b"".to_vec()]);
    assert_eq!(split_lines(b"a\nb", false), vec![b"a".to_vec()]);
    assert_eq!(read_texts(vec![b"x".to_vec(), vec![0x80], b"y".to_vec()]), vec!["x"]);
}

fn zipped(entries: &[(&str, &[u8])]) -> Vec<u8> {
    let mut w = zip::ZipWriter::new(std::io::Cursor::new(Vec::new()));
    for (name, bytes) in entries {
        let o: zip::write::SimpleFileOptions =
            zip::write::SimpleFileOptions::default().compression_method(zip::CompressionMethod::Stored);
        w.start_file(*name, o).unwrap();
        w.write_all(bytes).unwrap();
    }
    w.finish().unwrap().into_inner()
}

#[test]
fn grids_are_found_in_archives() {
    let z = zipped(&[("a.txt", b"no"), ("b.asc", b"ncols 1 5"), ("c.asc", b"late")]);
    match packed_grid(&z) {
        Packed::Grid(t) => assert_eq!(t, "ncols 1 5"),
        _ => panic!("no grid"),
    }
    assert!(matches!(packed_grid(&zipped(&[("a.txt", b"no")])), Packed::NoGrid));
    assert!(matches!(packed_grid(b"junk"), Packed::NoArchive));
    assert!(matches!(packed_grid(&zipped(&[("b.asc", b"\xff\xff")])), Packed::Unreadable));
    let names = vec![None, Some("x.ASC".to_string()), Some("y.asc".to_string())];
    assert_eq!(find_grid(&names), Some(2));
    assert_eq!(find_grid(&vec![]), None);
}
