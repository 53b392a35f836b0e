use gdn_gis::text::{contains, ends_with, lines_of, precedes, replace, same, split, starts_with, tokens_of, trim, trim_end, trim_start, Class};

#[test]
fn split_like_std() {
    for t in ["", "a", "a/b", "/a//b/", "//"] {
        let want: Vec<String> = t.split('/').map(str::to_string).collect();
        assert_eq!(split(t, Class::Is('/')), want);
    }
    let t = "x 12.5 -3,4";
    let want: Vec<String> =
        t.split(|c: char| !(c.is_ascii_digit() || c == '.' || c == '-')).map(str::to_string).collect();
    assert_eq!(split(t, Class::NotNumeric), want);
}

#[test]
fn tokens_like_std() {
    let t = "  ncols 200\r\n\tnrows\x0c200 ";
    let want: Vec<String> = t.split_ascii_whitespace().map(str::to_string).collect();
    assert_eq!(tokens_of(t, Class::AsciiSpace), want);
}

#[test]
fn lines_like_std() {
    for t in ["", "a", "a\n", "a\r\nb", "a\rb\n\n", "x\r", "\r\n", "a\n\r"] {
        let want: Vec<String> = t.lines().map(str::to_string).collect();
        assert_eq!(lines_of(t), want, "{t:?}");
    }
}

#[test]
fn trims_like_std() {
    assert_eq!(trim("\u{a0} a b\t\u{2003}"), "a b");
    assert_eq!(trim_end("Name\"&)(", Class::Mark), "Name");
    assert_eq!(trim_start("12-Low 3", Class::NotLetter), "Low 3");
    assert_eq!(trim_end("Site 4219", Class::Digit), "Site ");
    assert_eq!(replace("a\tb\nc", Class::TabOrNewline, ' '), "a b c");
    assert_eq!(replace("a\rb", Class::Control, ' '), "a b");
}

#[test]
fn text_order_is_byte_order() {
    let ts = ["", "A", "AB", "B", "\u{e9}", "\u{1F600}", "z", "\u{fffd}"];
    for a in ts {
        for b in ts {
            assert_eq!(precedes(a, b), a < b);
            assert_eq!(same(a, b), a == b);
        }
    }
}

#[test]
fn searching_text() {
    assert!(contains("Low Pressure Mains & Plant", "Mains & Plant"));
    assert!(contains("abc", ""));
    assert!(!contains("ab", "abc"));
    assert!(starts_with("immediate_emergency", "immediate"));
    assert!(!starts_with("imm", "immediate"));
    assert!(ends_with("x.ndjson.gz", ".gz"));
    assert!(!ends_with("gz", ".gz"));
}
