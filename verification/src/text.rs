//! Plain text handling over sequences of characters.
use vstd::prelude::*;
use vstd::string::*;
use vstd::utf8::*;

verus! {

/// `String::push` appends one character at the end of the string.
pub assume_specification[ String::push ](s: &mut String, ch: char)
    ensures
        final(s)@ == old(s)@.push(ch),
;

/// A class of characters, to split at or to strip.
#[derive(Clone, Copy)]
pub enum Class {
    /// One given character.
    Is(char),
    /// Space, tab, line feed, form feed or carriage return.
    AsciiSpace,
    /// Anything that cannot stand in a plain decimal number.
    NotNumeric,
    /// What the Unicode property `White_Space` holds of.
    White,
    /// A quote, an ampersand or a round bracket.
    Mark,
    /// An ASCII digit.
    Digit,
    /// Anything but an ASCII letter.
    NotLetter,
    /// A tab or a line feed.
    TabOrNewline,
    /// A tab, a line feed or a carriage return.
    Control,
}

pub open spec fn ascii_digit(c: char) -> bool {
    '0' <= c <= '9'
}

pub open spec fn ascii_letter(c: char) -> bool {
    'a' <= c <= 'z' || 'A' <= c <= 'Z'
}

pub open spec fn ascii_space(c: char) -> bool {
    c == ' ' || c == '\t' || c == '\n' || c == '\u{c}' || c == '\r'
}

/// The characters of the Unicode property `White_Space`.
pub open spec fn white(c: char) -> bool {
    ||| '\u{9}' <= c <= '\u{d}'
    ||| c == ' '
    ||| c == '\u{85}'
    ||| c == '\u{a0}'
    ||| c == '\u{1680}'
    ||| '\u{2000}' <= c <= '\u{200a}'
    ||| c == '\u{2028}'
    ||| c == '\u{2029}'
    ||| c == '\u{202f}'
    ||| c == '\u{205f}'
    ||| c == '\u{3000}'
}

impl Class {
    pub open spec fn covers(self, c: char) -> bool {
        match self {
            Class::Is(x) => c == x,
            Class::AsciiSpace => ascii_space(c),
            Class::NotNumeric => !(ascii_digit(c) || c == '.' || c == '-'),
            Class::White => white(c),
            Class::Mark => c == '"' || c == '&' || c == ')' || c == '(',
            Class::Digit => ascii_digit(c),
            Class::NotLetter => !ascii_letter(c),
            Class::TabOrNewline => c == '\t' || c == '\n',
            Class::Control => c == '\t' || c == '\n' || c == '\r',
        }
    }

    /// Whether the class holds a character.
    pub fn has(self, c: char) -> (r: bool)
        ensures
            r == self.covers(c),
    {
        match self {
            Class::Is(x) => c == x,
            Class::AsciiSpace => c == ' ' || c == '\t' || c == '\n' || c == '\u{c}' || c == '\r',
            Class::NotNumeric => !(('0' <= c && c <= '9') || c == '.' || c == '-'),
            Class::White => {
                ('\u{9}' <= c && c <= '\u{d}') || c == ' ' || c == '\u{85}' || c == '\u{a0}' || c
                    == '\u{1680}' || ('\u{2000}' <= c && c <= '\u{200a}') || c == '\u{2028}' || c
                    == '\u{2029}' || c == '\u{202f}' || c == '\u{205f}' || c == '\u{3000}'
            },
            Class::Mark => c == '"' || c == '&' || c == ')' || c == '(',
            Class::Digit => '0' <= c && c <= '9',
            Class::NotLetter => !(('a' <= c && c <= 'z') || ('A' <= c && c <= 'Z')),
            Class::TabOrNewline => c == '\t' || c == '\n',
            Class::Control => c == '\t' || c == '\n' || c == '\r',
        }
    }
}

/// The pieces of `s` between separators: one more than there are separators in it.
pub open spec fn pieces(s: Seq<char>, sep: Class) -> Seq<Seq<char>>
    decreases s.len(),
{
    if s.len() == 0 {
        seq![Seq::empty()]
    } else {
        let p = pieces(s.drop_last(), sep);
        if sep.covers(s.last()) {
            p.push(Seq::empty())
        } else {
            p.drop_last().push(p.last().push(s.last()))
        }
    }
}

/// Splits a text at every separator.
pub fn split(s: &str, sep: Class) -> (r: Vec<String>)
    ensures
        r.deep_view() == pieces(s@, sep),
{
    let mut out: Vec<String> = Vec::new();
    let mut cur = String::new();
    for c in it: s.chars()
        invariant
            it.seq() == s@,
            out.deep_view().push(cur@) == pieces(s@.take(it.index()), sep),
    {
        let ghost i = it.index();
        assert(s@.take(i + 1).drop_last() == s@.take(i));
        assert(s@.take(i + 1).last() == c);
        if sep.has(c) {
            let ghost before = out.deep_view();
            let ghost piece = cur@;
            out.push(cur);
            assert(out.deep_view() == before.push(piece));
            cur = String::new();
        } else {
            cur.push(c);
            assert(out.deep_view().push(cur@).drop_last() == out.deep_view());
        }
    }
    assert(s@.take(s@.len() as int) == s@);
    let ghost before = out.deep_view();
    let ghost piece = cur@;
    out.push(cur);
    assert(out.deep_view() == before.push(piece));
    out
}

/// The characters of a text.
pub fn chars_of(s: &str) -> (r: Vec<char>)
    ensures
        r@ == s@,
{
    let mut out: Vec<char> = Vec::new();
    for c in it: s.chars()
        invariant
            it.seq() == s@,
            out@ == s@.take(it.index()),
    {
        out.push(c);
        assert(s@.take(it.index() + 1) == s@.take(it.index()).push(c));
    }
    assert(s@.take(s@.len() as int) == s@);
    out
}

/// The text made of the characters from `i` up to `j`.
pub fn text_of(c: &Vec<char>, i: usize, j: usize) -> (r: String)
    requires
        i <= j <= c.len(),
    ensures
        r@ == c@.subrange(i as int, j as int),
{
    let mut out = String::new();
    let mut k = i;
    while k < j
        invariant
            i <= k <= j <= c.len(),
            out@ == c@.subrange(i as int, k as int),
        decreases j - k,
    {
        out.push(c[k]);
        assert(c@.subrange(i as int, k + 1) == c@.subrange(i as int, k as int).push(c[k as int]));
        k += 1;
    }
    out
}

/// Two texts are the same when their UTF-8 bytes are.
pub fn same(a: &str, b: &str) -> (r: bool)
    ensures
        r == (a@ == b@),
{
    proof {
        encode_utf8_decode_utf8(a@);
        encode_utf8_decode_utf8(b@);
    }
    let x = a.as_bytes();
    let y = b.as_bytes();
    if x.len() != y.len() {
        return false;
    }
    let mut i: usize = 0;
    while i < x.len()
        invariant
            i <= x.len() == y.len(),
            x@ == a.spec_bytes(),
            y@ == b.spec_bytes(),
            x@.take(i as int) == y@.take(i as int),
        decreases x.len() - i,
    {
        if x[i] != y[i] {
            return false;
        }
        assert(x@.take(i + 1) == x@.take(i as int).push(x[i as int]));
        assert(y@.take(i + 1) == y@.take(i as int).push(y[i as int]));
        i += 1;
    }
    assert(x@.take(i as int) == x@);
    assert(y@.take(i as int) == y@);
    true
}

/// Where two byte strings first differ: the length of their common prefix.
pub open spec fn common(a: Seq<u8>, b: Seq<u8>) -> int
    decreases a.len(),
{
    if a.len() == 0 || b.len() == 0 || a[0] != b[0] {
        0
    } else {
        1 + common(a.skip(1), b.skip(1))
    }
}

/// The lexicographic order of byte strings.
pub open spec fn bytes_lt(a: Seq<u8>, b: Seq<u8>) -> bool {
    let i = common(a, b);
    i < b.len() && (i == a.len() || a[i] < b[i])
}

/// The order of texts: that of their UTF-8 bytes.
pub open spec fn text_lt(a: Seq<char>, b: Seq<char>) -> bool {
    bytes_lt(encode_utf8(a), encode_utf8(b))
}

/// The common prefix is one, and is followed by a difference or an end.
pub proof fn lemma_common(a: Seq<u8>, b: Seq<u8>)
    ensures
        0 <= common(a, b) <= a.len(),
        common(a, b) <= b.len(),
        a.take(common(a, b)) == b.take(common(a, b)),
        common(a, b) < a.len() && common(a, b) < b.len() ==> a[common(a, b)] != b[common(a, b)],
    decreases a.len(),
{
    if a.len() == 0 || b.len() == 0 || a[0] != b[0] {
        assert(a.take(0) == b.take(0));
    } else {
        let n = common(a.skip(1), b.skip(1));
        lemma_common(a.skip(1), b.skip(1));
        assert forall|k: int| 0 <= k < n + 1 implies a[k] == b[k] by {
            if k > 0 {
                assert(a.skip(1).take(n)[k - 1] == b.skip(1).take(n)[k - 1]);
            }
        }
        assert(a.take(n + 1) == b.take(n + 1));
    }
}

/// A common prefix that ends in a difference or an end is the longest one.
pub proof fn lemma_common_is(a: Seq<u8>, b: Seq<u8>, n: int)
    requires
        0 <= n <= a.len(),
        n <= b.len(),
        a.take(n) == b.take(n),
        n < a.len() && n < b.len() ==> a[n] != b[n],
    ensures
        common(a, b) == n,
{
    lemma_common(a, b);
    let m = common(a, b);
    if m < n {
        assert(a.take(n)[m] == a[m] && b.take(n)[m] == b[m]);
    } else if n < m {
        assert(a.take(m)[n] == a[n] && b.take(m)[n] == b[n]);
    }
}

/// Exactly one of two texts comes first, unless they are the same.
pub proof fn lemma_text_total(a: Seq<char>, b: Seq<char>)
    ensures
        !text_lt(a, a),
        !(text_lt(a, b) && text_lt(b, a)),
        text_lt(a, b) || text_lt(b, a) || a == b,
{
    let (x, y) = (encode_utf8(a), encode_utf8(b));
    encode_utf8_decode_utf8(a);
    encode_utf8_decode_utf8(b);
    lemma_common_is(x, x, x.len() as int);
    lemma_common(x, y);
    lemma_common_is(y, x, common(x, y));
    if common(x, y) == x.len() && common(x, y) == y.len() {
        assert(x == x.take(common(x, y)));
        assert(y == y.take(common(x, y)));
    }
}

/// The order of texts is transitive.
pub proof fn lemma_text_transitive(a: Seq<char>, b: Seq<char>, c: Seq<char>)
    requires
        text_lt(a, b),
        text_lt(b, c),
    ensures
        text_lt(a, c),
{
    let (x, y, z) = (encode_utf8(a), encode_utf8(b), encode_utf8(c));
    lemma_common(x, y);
    lemma_common(y, z);
    let (m, n) = (common(x, y), common(y, z));
    let k = if m <= n { m } else { n };
    assert forall|i: int| 0 <= i < k implies x[i] == z[i] by {
        assert(x.take(m)[i] == y.take(m)[i]);
        assert(y.take(n)[i] == z.take(n)[i]);
    }
    assert(x.take(k) == z.take(k));
    if m < n {
        assert(y.take(n)[m] == z.take(n)[m]);
    } else if n < m {
        assert(x.take(m)[n] == y.take(m)[n]);
    }
    lemma_common_is(x, z, k);
}

/// Whether one text comes before another.
pub fn precedes(a: &str, b: &str) -> (r: bool)
    ensures
        r == text_lt(a@, b@),
{
    bytes_precede(a.as_bytes(), b.as_bytes())
}

/// Whether one byte string comes before another.
pub fn bytes_precede(x: &[u8], y: &[u8]) -> (r: bool)
    ensures
        r == bytes_lt(x@, y@),
{
    let mut i: usize = 0;
    while i < x.len() && i < y.len() && x[i] == y[i]
        invariant
            i <= x.len(),
            i <= y.len(),
            x@.take(i as int) == y@.take(i as int),
        decreases x.len() - i,
    {
        assert(x@.take(i + 1) == x@.take(i as int).push(x[i as int]));
        assert(y@.take(i + 1) == y@.take(i as int).push(y[i as int]));
        i += 1;
    }
    proof {
        lemma_common_is(x@, y@, i as int);
    }
    i < y.len() && (i == x.len() || x[i] < y[i])
}

/// The pieces that are not empty.
pub open spec fn tokens(s: Seq<char>, sep: Class) -> Seq<Seq<char>> {
    pieces(s, sep).filter(|p: Seq<char>| p.len() > 0)
}

/// Splits a text at every separator and drops the empty pieces.
pub fn tokens_of(s: &str, sep: Class) -> (r: Vec<String>)
    ensures
        r.deep_view() == tokens(s@, sep),
{
    let parts = split(s, sep);
    let ghost p = pieces(s@, sep);
    let ghost f = |x: Seq<char>| x.len() > 0;
    let mut out: Vec<String> = Vec::new();
    let mut i: usize = 0;
    assert(p.take(0).filter(f) =~= Seq::empty()) by {
        reveal(Seq::filter);
    }
    while i < parts.len()
        invariant
            i <= parts.len(),
            parts.deep_view() == p,
            f == (|x: Seq<char>| x.len() > 0),
            out.deep_view() == p.take(i as int).filter(f),
        decreases parts.len() - i,
    {
        assert(p[i as int] == parts[i as int]@);
        proof {
            lemma_filter_take(p, f, i as int);
        }
        if !parts[i].as_str().is_empty() {
            let ghost before = out.deep_view();
            let t = parts[i].clone();
            out.push(t);
            assert(out.deep_view() =~= before.push(p[i as int]));
        }
        i += 1;
    }
    assert(p.take(i as int) == p);
    out
}

/// What a filter keeps of one element more.
pub proof fn lemma_filter_take<A>(s: Seq<A>, f: spec_fn(A) -> bool, i: int)
    requires
        0 <= i < s.len(),
    ensures
        s.take(i + 1).filter(f) == if f(s[i]) {
            s.take(i).filter(f).push(s[i])
        } else {
            s.take(i).filter(f)
        },
{
    reveal(Seq::filter);
    assert(s.take(i + 1).drop_last() =~= s.take(i));
    assert(s.take(i + 1).last() == s[i]);
}

/// A line without the carriage return at its end.
pub open spec fn without_cr(s: Seq<char>) -> Seq<char> {
    if s.len() > 0 && s.last() == '\r' {
        s.drop_last()
    } else {
        s
    }
}

/// The lines of a text. A line ends in a line feed, before which a carriage return may
/// stand; what follows the last line feed is a line too, unless it is empty.
pub open spec fn lines(s: Seq<char>) -> Seq<Seq<char>> {
    let p = pieces(s, Class::Is('\n'));
    let ended = p.drop_last().map_values(|x: Seq<char>| without_cr(x));
    if p.last().len() == 0 {
        ended
    } else {
        ended.push(p.last())
    }
}

/// There is at least one piece.
pub proof fn lemma_pieces(s: Seq<char>, sep: Class)
    ensures
        pieces(s, sep).len() > 0,
{
}

/// Splits a text into lines.
pub fn lines_of(s: &str) -> (r: Vec<String>)
    ensures
        r.deep_view() == lines(s@),
{
    let parts = split(s, Class::Is('\n'));
    let ghost p = pieces(s@, Class::Is('\n'));
    let ghost ended = p.drop_last().map_values(|x: Seq<char>| without_cr(x));
    proof {
        lemma_pieces(s@, Class::Is('\n'));
    }
    assert(p.len() == parts.len());
    let n = parts.len() - 1;
    let mut out: Vec<String> = Vec::new();
    let mut i: usize = 0;
    while i < n
        invariant
            n == parts.len() - 1,
            i <= n,
            parts.deep_view() == p,
            ended == p.drop_last().map_values(|x: Seq<char>| without_cr(x)),
            out.deep_view() == ended.take(i as int),
        decreases n - i,
    {
        assert(p[i as int] == parts[i as int]@);
        let c = chars_of(parts[i].as_str());
        let m = c.len();
        let line = if m > 0 && c[m - 1] == '\r' {
            text_of(&c, 0, m - 1)
        } else {
            text_of(&c, 0, m)
        };
        assert(line@ =~= without_cr(p[i as int]));
        let ghost before = out.deep_view();
        out.push(line);
        i += 1;
        assert(out.deep_view() =~= before.push(line@));
        assert(ended.take(i as int) =~= ended.take(i - 1).push(ended[i - 1]));
    }
    assert(ended.take(n as int) =~= ended);
    assert(p.last() == parts[n as int]@);
    if !parts[n].as_str().is_empty() {
        let ghost before = out.deep_view();
        let t = parts[n].clone();
        out.push(t);
        assert(out.deep_view() =~= before.push(p.last()));
    }
    out
}

/// A text without the characters of a class at its end.
pub open spec fn strip_end(s: Seq<char>, k: Class) -> Seq<char>
    decreases s.len(),
{
    if s.len() > 0 && k.covers(s.last()) {
        strip_end(s.drop_last(), k)
    } else {
        s
    }
}

/// A text without the characters of a class at its start.
pub open spec fn strip_start(s: Seq<char>, k: Class) -> Seq<char>
    decreases s.len(),
{
    if s.len() > 0 && k.covers(s[0]) {
        strip_start(s.skip(1), k)
    } else {
        s
    }
}

/// A text without white space at its ends.
pub open spec fn trimmed(s: Seq<char>) -> Seq<char> {
    strip_end(strip_start(s, Class::White), Class::White)
}

/// Strips the characters of a class from the end.
pub fn trim_end(s: &str, k: Class) -> (r: String)
    ensures
        r@ == strip_end(s@, k),
{
    let c = chars_of(s);
    let mut n = c.len();
    assert(c@.take(n as int) == c@);
    while n > 0 && k.has(c[n - 1])
        invariant
            n <= c.len(),
            c@ == s@,
            strip_end(s@, k) == strip_end(c@.take(n as int), k),
        decreases n,
    {
        assert(c@.take(n as int).drop_last() =~= c@.take(n - 1));
        n -= 1;
    }
    assert(c@.subrange(0, n as int) =~= c@.take(n as int));
    text_of(&c, 0, n)
}

/// Strips the characters of a class from the start.
pub fn trim_start(s: &str, k: Class) -> (r: String)
    ensures
        r@ == strip_start(s@, k),
{
    let c = chars_of(s);
    let mut n: usize = 0;
    assert(c@.skip(0) == c@);
    while n < c.len() && k.has(c[n])
        invariant
            n <= c.len(),
            c@ == s@,
            strip_start(s@, k) == strip_start(c@.skip(n as int), k),
        decreases c.len() - n,
    {
        assert(c@.skip(n as int).skip(1) =~= c@.skip(n + 1));
        n += 1;
    }
    assert(c@.subrange(n as int, c.len() as int) =~= c@.skip(n as int));
    text_of(&c, n, c.len())
}

/// Strips white space from both ends.
pub fn trim(s: &str) -> (r: String)
    ensures
        r@ == trimmed(s@),
{
    let t = trim_start(s, Class::White);
    trim_end(t.as_str(), Class::White)
}

/// A text with a given character in place of each of a class.
pub open spec fn replaced(s: Seq<char>, k: Class, by: char) -> Seq<char> {
    s.map_values(
        |c: char|
            if k.covers(c) {
                by
            } else {
                c
            },
    )
}

/// Puts a character in the place of each of a class.
pub fn replace(s: &str, k: Class, by: char) -> (r: String)
    ensures
        r@ == replaced(s@, k, by),
{
    let mut out = String::new();
    for c in it: s.chars()
        invariant
            it.seq() == s@,
            out@ == replaced(s@.take(it.index()), k, by),
    {
        if k.has(c) {
            out.push(by);
        } else {
            out.push(c);
        }
        assert(replaced(s@.take(it.index() + 1), k, by) =~= out@);
    }
    assert(s@.take(s@.len() as int) == s@);
    out
}

/// Whether one text stands in another at position `i`.
pub open spec fn stands_at(s: Seq<char>, sub: Seq<char>, i: int) -> bool {
    0 <= i && i + sub.len() <= s.len() && s.subrange(i, i + sub.len()) == sub
}

/// Whether one text stands somewhere in another.
pub open spec fn holds(s: Seq<char>, sub: Seq<char>) -> bool {
    exists|i: int| stands_at(s, sub, i)
}

fn at(s: &Vec<char>, sub: &Vec<char>, i: usize) -> (r: bool)
    requires
        i + sub.len() <= s.len(),
    ensures
        r == stands_at(s@, sub@, i as int),
{
    let mut k: usize = 0;
    while k < sub.len()
        invariant
            i + sub.len() <= s.len(),
            k <= sub.len(),
            forall|t: int| 0 <= t < k ==> s@[i + t] == sub@[t],
        decreases sub.len() - k,
    {
        if s[i + k] != sub[k] {
            assert(s@.subrange(i as int, i + sub.len())[k as int] != sub@[k as int]);
            return false;
        }
        k += 1;
    }
    assert(s@.subrange(i as int, i + sub.len()) =~= sub@);
    true
}

/// Whether one text stands somewhere in another.
pub fn contains(s: &str, sub: &str) -> (r: bool)
    ensures
        r == holds(s@, sub@),
{
    let a = chars_of(s);
    let b = chars_of(sub);
    if b.len() > a.len() {
        return false;
    }
    let last = a.len() - b.len();
    let mut i: usize = 0;
    while i <= last
        invariant
            a@ == s@,
            b@ == sub@,
            last == a.len() - b.len(),
            i <= last + 1,
            forall|j: int| 0 <= j < i ==> !stands_at(s@, sub@, j),
        decreases last + 1 - i,
    {
        if at(&a, &b, i) {
            return true;
        }
        if i == last {
            return false;
        }
        i += 1;
    }
    false
}

/// Whether one text starts with another.
pub fn starts_with(s: &str, sub: &str) -> (r: bool)
    ensures
        r == stands_at(s@, sub@, 0),
{
    let a = chars_of(s);
    let b = chars_of(sub);
    b.len() <= a.len() && at(&a, &b, 0)
}

/// Whether one text ends in another.
pub open spec fn ends_in(s: Seq<char>, sub: Seq<char>) -> bool {
    stands_at(s, sub, s.len() - sub.len())
}

/// Whether one text ends in another.
pub fn ends_with(s: &str, sub: &str) -> (r: bool)
    ensures
        r == ends_in(s@, sub@),
{
    let a = chars_of(s);
    let b = chars_of(sub);
    b.len() <= a.len() && at(&a, &b, a.len() - b.len())
}

/// What `str::to_lowercase` returns.
pub uninterp spec fn lowercased(s: Seq<char>) -> Seq<char>;

/// `str::to_lowercase`: the lower case of a text by the rules of Unicode. What those give is
/// named, not described.
pub assume_specification[ str::to_lowercase ](s: &str) -> (r: String)
    ensures
        r@ == lowercased(s@),
;

/// The text of an optional text.
pub open spec fn text_opt(s: Option<&str>) -> Option<Seq<char>> {
    match s {
        Some(t) => Some(t@),
        None => None,
    }
}

/// Whether an optional text is there and is the given one.
pub fn is_text(s: Option<&str>, t: &str) -> (r: bool)
    ensures
        r == (text_opt(s) == Some(t@)),
{
    match s {
        Some(s) => same(s, t),
        None => false,
    }
}

/// Borrows an optional text.
pub fn borrowed(s: &Option<String>) -> (r: Option<&str>)
    ensures
        text_opt(r) == s.deep_view(),
{
    match s {
        Some(t) => Some(t.as_str()),
        None => None,
    }
}

/// Pieces with a character between each two.
pub open spec fn rejoined(ps: Seq<Seq<char>>, c: char) -> Seq<char>
    decreases ps.len(),
{
    if ps.len() == 0 {
        Seq::empty()
    } else if ps.len() == 1 {
        ps[0]
    } else {
        rejoined(ps.drop_last(), c) + seq![c] + ps.last()
    }
}

/// The pieces between a character, put together with that character, are the text again.
pub proof fn law_pieces_rejoin(s: Seq<char>, c: char)
    ensures
        rejoined(pieces(s, Class::Is(c)), c) == s,
    decreases s.len(),
{
    let ps = pieces(s, Class::Is(c));
    if s.len() > 0 {
        let d = s.drop_last();
        let q = pieces(d, Class::Is(c));
        law_pieces_rejoin(d, c);
        assert(s =~= d.push(s.last()));
        if s.last() == c {
            assert(ps.drop_last() =~= q);
            assert(rejoined(ps, c) =~= s);
        } else {
            assert(ps.drop_last() =~= q.drop_last());
            if q.len() == 1 {
                assert(rejoined(ps, c) =~= s);
            } else {
                assert(rejoined(q, c) == rejoined(q.drop_last(), c) + seq![c] + q.last());
                assert(rejoined(ps, c) =~= s);
            }
        }
    }
}

/// No piece holds a separator, and there is one piece more than there are separators.
pub proof fn law_pieces_hold_no_separator(s: Seq<char>, sep: Class)
    ensures
        forall|i: int, j: int|
            0 <= i < pieces(s, sep).len() && 0 <= j < pieces(s, sep)[i].len() ==> !sep.covers(
                #[trigger] pieces(s, sep)[i][j],
            ),
        pieces(s, sep).len() == 1 + s.filter(|c: char| sep.covers(c)).len(),
    decreases s.len(),
{
    let ps = pieces(s, sep);
    reveal(Seq::filter);
    if s.len() > 0 {
        let d = s.drop_last();
        let q = pieces(d, sep);
        law_pieces_hold_no_separator(d, sep);
        assert forall|i: int, j: int| 0 <= i < ps.len() && 0 <= j < ps[i].len() implies !sep.covers(
            #[trigger] ps[i][j],
        ) by {
            if i < q.len() - 1 || (sep.covers(s.last()) && i < q.len()) {
                assert(ps[i] == q[i]);
                assert(!sep.covers(q[i][j]));
            } else if !sep.covers(s.last()) {
                if j < q.last().len() {
                    assert(ps[i][j] == q[q.len() - 1][j]);
                    assert(!sep.covers(q[q.len() - 1][j]));
                }
            }
        }
    }
}

/// What each class of characters holds.
pub proof fn law_classes(c: char)
    ensures
        Class::AsciiSpace.covers(c) <==> c == ' ' || c == '\t' || c == '\n' || c == '\r' || c as u32
            == 12,
        Class::NotNumeric.covers(c) <==> !('0' <= c <= '9') && c != '.' && c != '-',
        Class::Digit.covers(c) <==> '0' <= c <= '9',
        Class::NotLetter.covers(c) <==> !('a' <= c <= 'z') && !('A' <= c <= 'Z'),
        Class::Mark.covers(c) <==> c == '"' || c == '&' || c == '(' || c == ')',
        Class::TabOrNewline.covers(c) <==> c == '\t' || c == '\n',
        Class::Control.covers(c) <==> c == '\t' || c == '\n' || c == '\r',
        (c as u32) < 0x80 ==> (Class::White.covers(c) <==> c == ' ' || 9 <= c as u32 <= 13),
        forall|x: char| Class::Is(x).covers(c) <==> c == x,
{
}

/// What is left at the end of a text after stripping holds no more to strip there, and what was
/// stripped was all of the class.
pub proof fn law_strip_end(s: Seq<char>, k: Class)
    ensures
        ({
            let r = strip_end(s, k);
            &&& r.len() <= s.len()
            &&& r == s.take(r.len() as int)
            &&& r.len() > 0 ==> !k.covers(r.last())
            &&& forall|i: int| r.len() <= i < s.len() ==> k.covers(#[trigger] s[i])
        }),
    decreases s.len(),
{
    if s.len() > 0 && k.covers(s.last()) {
        let d = s.drop_last();
        law_strip_end(d, k);
        let r = strip_end(s, k);
        assert(r =~= s.take(r.len() as int));
        assert forall|i: int| r.len() <= i < s.len() implies k.covers(#[trigger] s[i]) by {
            if i < d.len() {
                assert(d[i] == s[i]);
            }
        }
    } else {
        assert(s.take(s.len() as int) =~= s);
    }
}

/// What is left at the start of a text after stripping holds no more to strip there, and what
/// was stripped was all of the class.
pub proof fn law_strip_start(s: Seq<char>, k: Class)
    ensures
        ({
            let r = strip_start(s, k);
            let n = s.len() - r.len();
            &&& r.len() <= s.len()
            &&& r == s.skip(n)
            &&& r.len() > 0 ==> !k.covers(r[0])
            &&& forall|i: int| 0 <= i < n ==> k.covers(#[trigger] s[i])
        }),
    decreases s.len(),
{
    if s.len() > 0 && k.covers(s[0]) {
        let d = s.skip(1);
        law_strip_start(d, k);
        let r = strip_start(s, k);
        let n = s.len() - r.len();
        assert(r =~= s.skip(n));
        assert forall|i: int| 0 <= i < n implies k.covers(#[trigger] s[i]) by {
            if i > 0 {
                assert(d[i - 1] == s[i]);
            }
        }
    } else {
        assert(s.skip(0) =~= s);
    }
}

/// Whether a text has no white space around it.
pub open spec fn is_trimmed(s: Seq<char>) -> bool {
    s.len() > 0 ==> !white(s[0]) && !white(s.last())
}

/// Trimming leaves a part of the text without white space around it, and all of a text that has
/// none.
pub proof fn law_trimmed(s: Seq<char>)
    ensures
        is_trimmed(trimmed(s)),
        is_trimmed(s) ==> trimmed(s) == s,
        exists|i: int, j: int|
            0 <= i <= j <= s.len() && trimmed(s) == #[trigger] s.subrange(i, j) && (forall|k: int|
                0 <= k < i || j <= k < s.len() ==> white(#[trigger] s[k])),
{
    let a = strip_start(s, Class::White);
    let b = strip_end(a, Class::White);
    law_strip_start(s, Class::White);
    law_strip_end(a, Class::White);
    let i = s.len() - a.len();
    let j = i + b.len();
    assert(b =~= s.subrange(i, j));
    if b.len() > 0 {
        assert(b[0] == a[0]);
    }
    assert forall|k: int| 0 <= k < i || j <= k < s.len() implies white(#[trigger] s[k]) by {
        if j <= k {
            assert(a[k - i] == s[k]);
            assert(Class::White.covers(a[k - i]));
        } else {
            assert(Class::White.covers(s[k]));
        }
    }
    if is_trimmed(s) {
        if s.len() > 0 {
            if i > 0 {
                assert(white(s[0]));
            }
            if j < s.len() {
                assert(white(s[s.len() - 1]));
            }
            assert(b =~= s);
        }
    }
}

/// Each character of the class gives way to the other one, and all else stays.
pub proof fn law_replaced(s: Seq<char>, k: Class, by: char, i: int)
    requires
        0 <= i < s.len(),
    ensures
        replaced(s, k, by).len() == s.len(),
        k.covers(s[i]) ==> replaced(s, k, by)[i] == by,
        !k.covers(s[i]) ==> replaced(s, k, by)[i] == s[i],
{
}

/// A line ends at a line feed; a carriage return before it belongs to the end, and what follows
/// the last line feed is a line where it is not empty.
pub proof fn law_lines_end_at_line_feeds(s: Seq<char>, t: Seq<char>)
    requires
        forall|i: int| 0 <= i < t.len() ==> #[trigger] t[i] != '\n',
        s.len() == 0 || s.last() == '\n',
    ensures
        lines(Seq::empty()).len() == 0,
        t.len() > 0 ==> lines(s + t) == lines(s).push(t),
        lines(s + t + seq!['\n']) == lines(s).push(
            if t.len() > 0 && t.last() == '\r' {
                t.drop_last()
            } else {
                t
            },
        ),
{
    let sep = Class::Is('\n');
    lemma_last_piece(s, t);
    let p = pieces(s, sep);
    let q = pieces(s + t, sep);
    let f = |x: Seq<char>| without_cr(x);
    if s.len() > 0 {
        assert(s =~= s.drop_last().push('\n'));
    }
    assert(p.last().len() == 0);
    assert(q.drop_last() =~= p.drop_last());
    assert(q.last() == t);
    let u = s + t + seq!['\n'];
    assert(u.drop_last() =~= s + t);
    assert(pieces(u, sep) == q.push(Seq::empty()));
    assert(pieces(u, sep).drop_last() =~= q);
    assert(q.map_values(f) =~= q.drop_last().map_values(f).push(f(q.last())));
    assert(lines(u) =~= lines(s).push(without_cr(t)));
}

proof fn lemma_last_piece(s: Seq<char>, t: Seq<char>)
    requires
        forall|i: int| 0 <= i < t.len() ==> #[trigger] t[i] != '\n',
        s.len() == 0 || s.last() == '\n',
    ensures
        ({
            let p = pieces(s, Class::Is('\n'));
            let q = pieces(s + t, Class::Is('\n'));
            &&& q.len() == p.len()
            &&& q.drop_last() == p.drop_last()
            &&& q.last() == t
            &&& p.last().len() == 0
        }),
    decreases t.len(),
{
    let sep = Class::Is('\n');
    if t.len() == 0 {
        assert(s + t =~= s);
        assert(pieces(s, sep).last() =~= t);
    } else {
        let d = t.drop_last();
        assert forall|i: int| 0 <= i < d.len() implies #[trigger] d[i] != '\n' by {
            assert(d[i] == t[i]);
        }
        lemma_last_piece(s, d);
        assert((s + t).drop_last() =~= s + d);
        assert((s + t).last() == t.last());
        assert(t[t.len() - 1] != '\n');
        assert(d.push(t.last()) =~= t);
        let q = pieces(s + t, sep);
        assert(q.drop_last() =~= pieces(s + d, sep).drop_last());
    }
}

/// A text precedes another where it is the shorter of two that agree, or where its byte is the
/// smaller at the first difference.
pub proof fn law_order_is_lexicographic(a: Seq<u8>, b: Seq<u8>, n: int)
    requires
        0 <= n <= a.len(),
        n <= b.len(),
        a.take(n) == b.take(n),
        n < a.len() && n < b.len() ==> a[n] != b[n],
    ensures
        bytes_lt(a, b) <==> (n == a.len() && n < b.len()) || (n < a.len() && n < b.len() && a[n] < b[n]),
{
    lemma_common_is(a, b, n);
}

/// What stands before the first separator is the first piece.
pub proof fn law_first_piece(a: Seq<char>, c: char, rest: Seq<char>)
    requires
        forall|i: int| 0 <= i < a.len() ==> #[trigger] a[i] != c,
    ensures
        pieces(a, Class::Is(c)) == seq![a],
        pieces(a + seq![c] + rest, Class::Is(c)).len() >= 2,
        pieces(a + seq![c] + rest, Class::Is(c))[0] == a,
    decreases rest.len(),
{
    let sep = Class::Is(c);
    lemma_whole_piece(a, c);
    let s = a + seq![c] + rest;
    if rest.len() == 0 {
        assert(s.drop_last() =~= a);
        assert(s.last() == c);
    } else {
        law_first_piece(a, c, rest.drop_last());
        assert(s.drop_last() =~= a + seq![c] + rest.drop_last());
    }
}

proof fn lemma_whole_piece(a: Seq<char>, c: char)
    requires
        forall|i: int| 0 <= i < a.len() ==> #[trigger] a[i] != c,
    ensures
        pieces(a, Class::Is(c)) == seq![a],
    decreases a.len(),
{
    if a.len() == 0 {
        assert(a =~= Seq::empty());
        assert(pieces(a, Class::Is(c)) =~= seq![a]);
    } else {
        let d = a.drop_last();
        assert forall|i: int| 0 <= i < d.len() implies #[trigger] d[i] != c by {
            assert(d[i] == a[i]);
        }
        lemma_whole_piece(d, c);
        assert(a[a.len() - 1] != c);
        assert(d.push(a.last()) =~= a);
        assert(pieces(a, Class::Is(c)) =~= seq![a]);
    }
}

/// What follows the last character that is not of a class is stripped from the end.
pub proof fn law_strips_all_behind(s: Seq<char>, t: Seq<char>, k: Class)
    requires
        s.len() > 0 ==> !k.covers(s.last()),
        forall|i: int| 0 <= i < t.len() ==> k.covers(#[trigger] t[i]),
    ensures
        strip_end(s + t, k) == s,
    decreases t.len(),
{
    if t.len() == 0 {
        assert(s + t =~= s);
    } else {
        let d = t.drop_last();
        assert forall|i: int| 0 <= i < d.len() implies k.covers(#[trigger] d[i]) by {
            assert(d[i] == t[i]);
        }
        law_strips_all_behind(s, d, k);
        assert((s + t).drop_last() =~= s + d);
        assert((s + t).last() == t[t.len() - 1]);
    }
}

/// The words of a text are its pieces that are not empty, in their order.
pub proof fn law_words_are_the_pieces(s: Seq<char>, sep: Class, i: int)
    requires
        0 <= i < tokens(s, sep).len(),
    ensures
        tokens(s, sep)[i].len() > 0,
        pieces(s, sep).contains(tokens(s, sep)[i]),
        tokens(s, sep).len() <= pieces(s, sep).len(),
        forall|j: int|
            0 <= j < pieces(s, sep).len() && pieces(s, sep)[j].len() > 0 ==> tokens(
                s,
                sep,
            ).contains(#[trigger] pieces(s, sep)[j]),
{
    let f = |p: Seq<char>| p.len() > 0;
    let ps = pieces(s, sep);
    ps.lemma_filter_pred(f, i);
    ps.lemma_filter_contains_rev(f, tokens(s, sep)[i]);
    ps.lemma_filter_len(f);
    assert forall|j: int| 0 <= j < ps.len() && ps[j].len() > 0 implies tokens(s, sep).contains(
        #[trigger] ps[j],
    ) by {
        ps.lemma_filter_contains(f, j);
    }
}

/// What stands behind the last separator is the last piece.
pub proof fn law_last_piece(s: Seq<char>, c: char, t: Seq<char>)
    requires
        forall|i: int| 0 <= i < t.len() ==> #[trigger] t[i] != c,
    ensures
        pieces(s + seq![c] + t, Class::Is(c)) == pieces(s, Class::Is(c)).push(t),
    decreases t.len(),
{
    let sep = Class::Is(c);
    let u = s + seq![c] + t;
    if t.len() == 0 {
        assert(u.drop_last() =~= s);
        assert(u.last() == c);
        assert(t =~= Seq::empty());
        assert(pieces(u, sep) =~= pieces(s, sep).push(t));
    } else {
        let d = t.drop_last();
        assert forall|i: int| 0 <= i < d.len() implies #[trigger] d[i] != c by {
            assert(d[i] == t[i]);
        }
        law_last_piece(s, c, d);
        assert(u.drop_last() =~= s + seq![c] + d);
        assert(u.last() == t[t.len() - 1]);
        assert(d.push(t.last()) =~= t);
        assert(pieces(u, sep) =~= pieces(s, sep).push(t));
    }
}

/// A text holds another where it stands somewhere in it, starts with it where it stands first,
/// and ends in it where it stands last.
pub proof fn law_texts_in_texts(a: Seq<char>, t: Seq<char>, b: Seq<char>)
    ensures
        holds(a + t + b, t),
        stands_at(t + b, t, 0),
        ends_in(a + t, t),
        holds(a, t) ==> exists|i: int| 0 <= i <= a.len() - t.len() && #[trigger] a.subrange(
            i,
            i + t.len(),
        ) == t,
        ends_in(a, t) ==> a.len() >= t.len() && a.skip(a.len() - t.len()) == t,
        stands_at(a, t, 0) ==> a.len() >= t.len() && a.take(t.len() as int) == t,
{
    let n = a.len() as int;
    assert((a + t + b).subrange(n, n + t.len()) =~= t);
    assert(stands_at(a + t + b, t, n));
    assert((t + b).subrange(0, t.len() as int) =~= t);
    assert((a + t).subrange(n, n + t.len()) =~= t);
    if holds(a, t) {
        let i = choose|i: int| stands_at(a, t, i);
        assert(a.subrange(i, i + t.len()) == t);
    }
    if ends_in(a, t) {
        assert(a.skip(a.len() - t.len()) =~= a.subrange(a.len() - t.len(), a.len() as int));
    }
    if stands_at(a, t, 0) {
        assert(a.take(t.len() as int) =~= a.subrange(0, t.len() as int));
    }
}

} // verus!
