use gdn_gis::builtin;
use gdn_gis::cgm::{aligned, body_score, deob, find, find_dense_start, find_start, keyword_of, latin1, pts, read_cmd, read_i16, runs, vdc_extent};

fn cmd(class: u16, id: u16, par: &[u8]) -> Vec<u8> {
    let mut b = Vec::new();
    if par.len() < 31 {
        b.extend_from_slice(&(class << 12 | id << 5 | par.len() as u16).to_be_bytes());
    } else {
        b.extend_from_slice(&(class << 12 | id << 5 | 31).to_be_bytes());
        b.extend_from_slice(&(par.len() as u16).to_be_bytes());
    }
    b.extend_from_slice(par);
    if par.len() % 2 == 1 {
        b.push(0);
    }
    b
}

fn coords(ps: &[(i16, i16)]) -> Vec<u8> {
    let mut b = Vec::new();
    for p in ps {
        b.extend_from_slice(&p.0.to_be_bytes());
        b.extend_from_slice(&p.1.to_be_bytes());
    }
    b
}

fn frame(id: &str, kind: &str) -> Vec<u8> {
    let mut par = vec![id.len() as u8];
    par.extend_from_slice(id.as_bytes());
    par.push(kind.len() as u8);
    par.extend_from_slice(kind.as_bytes());
    cmd(0, 21, &par)
}

#[test]
fn deob_twice_is_identity() {
    let d = vec![1u8, 2, 3, 250, 7];
    let x = deob(&d);
    assert_eq!(x, vec![253u8, 254, 5, 252, 248]);
    assert_eq!(deob(&x), d);
    assert_eq!(deob(&[]), Vec::<u8>::new());
}

#[test]
fn find_gives_first_place() {
    assert_eq!(find(b"abcabc", b"bc"), Some(1));
    assert_eq!(find(b"abcabc", b"cb"), None);
    assert_eq!(find(b"ab", b"abc"), None);
    assert_eq!(find(b"abc", b"abc"), Some(0));
}

#[test]
fn read_cmd_short_and_long() {
    let d = cmd(4, 1, &[9; 6]);
    let c = read_cmd(&d, 0).unwrap();
    assert_eq!((c.class, c.id, c.start, c.end, c.next), (4, 1, 2, 8, 8));
    let d = cmd(9, 1, &[7; 33]);
    let c = read_cmd(&d, 0).unwrap();
    assert_eq!((c.class, c.id, c.start, c.end, c.next), (9, 1, 4, 37, 38));
}

#[test]
fn read_cmd_rejects() {
    assert!(read_cmd(&[0x40], 0).is_none());
    assert!(read_cmd(&[0xa0, 0x00], 0).is_none());
    assert!(read_cmd(&[0x40, 0x24, 0, 0], 0).is_none());
    assert!(read_cmd(&[0x40, 0x3f], 0).is_none());
    assert!(read_cmd(&[0x40, 0x3f, 0x80, 0x00], 0).is_none());
    assert!(read_cmd(&[0x40, 0x20], 5).is_none());
}

#[test]
fn extent_from_header() {
    let mut d = cmd(1, 1, b"xx");
    d.extend(cmd(2, 6, &coords(&[(0, 100), (800, -500)])));
    assert_eq!(vdc_extent(&d), (800, 600));
    let flat = cmd(2, 6, &coords(&[(5, 5), (5, 9)]));
    assert_eq!(vdc_extent(&flat), (16000, 4));
    let mut late = cmd(0, 4, &[]);
    late.extend(cmd(2, 6, &coords(&[(0, 0), (8, 8)])));
    assert_eq!(vdc_extent(&late), (16000, 16000));
    assert_eq!(vdc_extent(&[]), (16000, 16000));
}

#[test]
fn points_are_pairs() {
    assert_eq!(pts(&coords(&[(1, -2), (300, 4)])), vec![(1, -2), (300, 4)]);
    assert_eq!(pts(&[0, 1, 0, 2, 0, 3]), vec![(1, 2)]);
    assert_eq!(read_i16(&[0xff, 0xfe], 0), -2);
}

#[test]
fn runs_are_printable() {
    let r = runs(b"\x05layer\x01a\x02id7");
    assert_eq!(r, vec![&b"layer"[..], &b"id7"[..]]);
    assert!(runs(b"a\x00b").is_empty());
    assert_eq!(latin1(&[0x41, 0xe9]), "A\u{e9}");
}

#[test]
fn keyword_is_second_run() {
    assert_eq!(keyword_of(b"\x03id1\x05layer"), Some("layer".to_string()));
    assert_eq!(keyword_of(b"\x03id1"), None);
}

#[test]
fn score_counts_points() {
    let mut d = cmd(4, 1, &coords(&[(0, 0), (19000, -3000), (19001, 0)]));
    d.extend(cmd(5, 2, &[1, 2]));
    d.extend(cmd(4, 7, &coords(&[(1, 1)])));
    let s = body_score(&d, 0, 64);
    assert_eq!((s.prims, s.points, s.good), (2, 4, 3));
    let s = body_score(&d, 0, 1);
    assert_eq!((s.prims, s.points, s.good), (1, 3, 2));
    let mut desynced = cmd(7, 1, &[0; 9000]);
    desynced.extend(&d);
    let s = body_score(&desynced, 0, 64);
    assert_eq!((s.prims, s.points, s.good), (0, 0, 0));
}

#[test]
fn score_grows_with_the_commands() {
    let mut d = cmd(4, 1, &coords(&[(0, 0), (19000, -3000), (19001, 0)]));
    d.extend(cmd(5, 2, &[1, 2]));
    d.extend(cmd(4, 7, &coords(&[(1, 1)])));
    for s in 0..=d.len() {
        let mut was = (0, 0, 0);
        for n in [0, 1, 2, 3, 64, u32::MAX] {
            let t = body_score(&d, s, n);
            assert!(t.prims <= n && t.good <= t.points && 4 * t.points as usize <= d.len() - s);
            assert!(was.0 <= t.prims && was.1 <= t.points && was.2 <= t.good);
            was = (t.prims, t.points, t.good);
        }
    }
    let s = body_score(&d, 0, u32::MAX);
    assert_eq!((s.prims, s.points, s.good), (2, 4, 3));
    let s = body_score(&d, 0, 0);
    assert_eq!((s.prims, s.points, s.good), (0, 0, 0));
}

#[test]
fn alignment_needs_frame_keyword() {
    let a = builtin::aps();
    let mut good = cmd(4, 1, &coords(&[(0, 0), (1, 1)]));
    good.extend(frame("x1", "grobject"));
    assert!(aligned(&good, 0, &a));
    let mut other = cmd(4, 1, &coords(&[(0, 0), (1, 1)]));
    other.extend(frame("x1", "picture"));
    assert!(!aligned(&other, 0, &a));
    let mut ended = cmd(0, 5, &[]);
    ended.extend(frame("x1", "layer"));
    assert!(!aligned(&ended, 0, &a));
    let mut desynced = cmd(7, 1, &[0; 9000]);
    desynced.extend(frame("x1", "layer"));
    assert!(!aligned(&desynced, 0, &a));
}

fn body(points: usize) -> Vec<u8> {
    let mut b = Vec::new();
    let ps: Vec<(i16, i16)> = (0..points).map(|i| (i as i16 * 10, 100)).collect();
    b.extend(cmd(4, 1, &coords(&ps)));
    b.extend(cmd(4, 1, &coords(&ps)));
    b.extend(frame("x1", "layer"));
    b
}

#[test]
fn start_after_header() {
    let a = builtin::aps();
    let header = deob(b"\"Ymax:10\"........\xff\xff\xff\xff");
    assert_eq!(header.len(), 21);
    let mut d = deob(b"\"Ymax:10\"........\xff\xff\xff\xff\xff");
    let at = d.len();
    assert_eq!(at, 22);
    d.push(0xa0);
    let at = at + 1;
    d.extend(body(30));
    let db = deob(&d);
    assert_eq!(find(&db, b"Ymax"), Some(1));
    assert_eq!(find_start(&d, &db, &a), Some(at));
}

#[test]
fn sparse_start_is_second_choice() {
    let a = builtin::aps();
    let mut d = vec![0xa0u8; 380];
    d.extend(body(2));
    let db = deob(&d);
    assert_eq!(find_start(&d, &db, &a), Some(380));
    assert_eq!(find_dense_start(&d, &db), None);
    let mut none = vec![0xa0u8; 380];
    none.extend(cmd(4, 1, &coords(&[(0, 0), (1, 1)])));
    let dn = deob(&none);
    assert_eq!(find_start(&none, &dn, &a), None);
}

#[test]
fn dense_start_needs_many_commands() {
    let mut d = vec![0xa0u8; 380];
    for _ in 0..25 {
        d.extend(cmd(4, 1, &coords(&[(0, 0), (1, 1)])));
    }
    let db = deob(&d);
    assert_eq!(find_dense_start(&d, &db), Some(380));
}
