//! Numbers: their decimal texts, and the order of binary floating-point numbers.
//!
//! Measured values pass through the library as texts or as bit patterns of the IEEE 754
//! format of 64 bits. It decides which texts are numbers and how two numbers compare; it
//! computes with integers only.
use vstd::prelude::*;
use crate::text::{ascii_digit, chars_of};

verus! {

/// The value of a run of digits.
pub open spec fn digits_value(s: Seq<char>) -> nat
    decreases s.len(),
{
    if s.len() == 0 {
        0
    } else {
        10 * digits_value(s.drop_last()) + (s.last() as nat - '0' as nat) as nat
    }
}

pub open spec fn all_digits(s: Seq<char>) -> bool {
    forall|i: int| 0 <= i < s.len() ==> ascii_digit(#[trigger] s[i])
}

/// The number that a text of decimal digits stands for. A plus sign may come first, and a
/// minus sign where the type is signed.
pub open spec fn integer(s: Seq<char>, signed: bool) -> Option<int> {
    let minus = signed && s.len() > 0 && s[0] == '-';
    let sign = minus || (s.len() > 0 && s[0] == '+');
    let t = if sign {
        s.skip(1)
    } else {
        s
    };
    if t.len() == 0 || !all_digits(t) {
        None
    } else if minus {
        Some(-(digits_value(t) as int))
    } else {
        Some(digits_value(t) as int)
    }
}

/// The number of a text, if it lies between the bounds.
pub open spec fn integer_within(s: Seq<char>, signed: bool, lo: int, hi: int) -> Option<int> {
    match integer(s, signed) {
        Some(v) => if lo <= v <= hi {
            Some(v)
        } else {
            None
        },
        None => None,
    }
}

/// Reads the number of a text, if it lies between the bounds.
pub fn parse_integer(s: &str, signed: bool, lo: i64, hi: i64) -> (r: Option<i64>)
    requires
        -1_000_000_000_000_000_000 <= lo,
        hi <= 1_000_000_000_000_000_000,
    ensures
        integer_within(s@, signed, lo as int, hi as int) == (match r {
            Some(v) => Some(v as int),
            None => None,
        }),
{
    let c = chars_of(s);
    let minus = signed && c.len() > 0 && c[0] == '-';
    let sign = minus || (c.len() > 0 && c[0] == '+');
    let from: usize = if sign {
        1
    } else {
        0
    };
    let ghost t = if sign {
        s@.skip(1)
    } else {
        s@
    };
    if c.len() == from {
        return None;
    }
    let mut value: i64 = 0;
    let mut over = false;
    let mut i = from;
    while i < c.len()
        invariant
            c@ == s@,
            from <= i <= c.len(),
            from == (if sign {
                1int
            } else {
                0
            }),
            t == c@.skip(from as int),
            all_digits(t.take(i - from)),
            over ==> digits_value(t.take(i - from)) > 1_000_000_000_000_000_000,
            !over ==> value == digits_value(t.take(i - from)),
            0 <= value <= 1_000_000_000_000_000_000,
            minus == (signed && s@.len() > 0 && s@[0] == '-'),
            sign == (minus || (s@.len() > 0 && s@[0] == '+')),
        decreases c.len() - i,
    {
        let x = c[i];
        assert(t[i - from] == x);
        if !('0' <= x && x <= '9') {
            return None;
        }
        assert(t.take(i + 1 - from).drop_last() =~= t.take(i - from));
        assert(t.take(i + 1 - from).last() == x);
        assert(all_digits(t.take(i + 1 - from))) by {
            assert forall|k: int| 0 <= k < i + 1 - from implies ascii_digit(
                #[trigger] t.take(i + 1 - from)[k],
            ) by {
                if k < i - from {
                    assert(t.take(i - from)[k] == t[k]);
                }
            }
        }
        if !over {
            let d = (x as u32 - '0' as u32) as i64;
            if value > 100_000_000_000_000_000 {
                over = true;
            } else {
                let next = value * 10 + d;
                if next > 1_000_000_000_000_000_000 {
                    over = true;
                } else {
                    value = next;
                }
            }
        }
        i += 1;
    }
    assert(t.take(i - from) =~= t);
    if over {
        return None;
    }
    let v = if minus {
        -value
    } else {
        value
    };
    if lo <= v && v <= hi {
        Some(v)
    } else {
        None
    }
}

/// Where the digits that start at `i` end.
pub open spec fn digits_end(s: Seq<char>, i: int) -> int
    decreases s.len() - i,
{
    if 0 <= i < s.len() && ascii_digit(s[i]) {
        digits_end(s, i + 1)
    } else {
        i
    }
}

pub open spec fn signed_at(s: Seq<char>, i: int) -> bool {
    0 <= i < s.len() && (s[i] == '+' || s[i] == '-')
}

/// Whether what stands from `i` on is nothing, or an exponent.
pub open spec fn exponent_at(s: Seq<char>, i: int) -> bool {
    i == s.len() || {
        let j = if signed_at(s, i + 1) {
            i + 2
        } else {
            i + 1
        };
        (s[i] == 'e' || s[i] == 'E') && j < s.len() && digits_end(s, j) == s.len()
    }
}

/// Whether `s` from `i` on is a decimal number: digits with a point before, among or after
/// them or without one, and then perhaps an exponent.
pub open spec fn decimal_at(s: Seq<char>, i: int) -> bool {
    let a = digits_end(s, i);
    let dot = a < s.len() && s[a] == '.';
    let b = if dot {
        digits_end(s, a + 1)
    } else {
        a
    };
    (a > i || (dot && b > a + 1)) && exponent_at(s, b)
}

pub open spec fn lower(c: char) -> char {
    if 'A' <= c <= 'Z' {
        (c as u32 + 32) as char
    } else {
        c
    }
}

/// Whether `s` from `i` on is the given word, in letters of either case.
pub open spec fn word_at(s: Seq<char>, i: int, w: Seq<char>) -> bool {
    s.len() - i == w.len() && forall|k: int|
        0 <= k < w.len() ==> lower(s[i + k]) == #[trigger] w[k]
}

/// Whether a text is a floating-point number: a sign, if any, and a decimal number,
/// `inf`, `infinity` or `nan`.
pub open spec fn is_float(s: Seq<char>) -> bool {
    let i: int = if signed_at(s, 0) {
        1
    } else {
        0
    };
    ||| decimal_at(s, i)
    ||| word_at(s, i, seq!['i', 'n', 'f'])
    ||| word_at(s, i, seq!['i', 'n', 'f', 'i', 'n', 'i', 't', 'y'])
    ||| word_at(s, i, seq!['n', 'a', 'n'])
}

fn skip_digits(c: &Vec<char>, i: usize) -> (r: usize)
    requires
        i <= c.len(),
    ensures
        r == digits_end(c@, i as int),
        i <= r <= c.len(),
{
    let mut j = i;
    while j < c.len() && '0' <= c[j] && c[j] <= '9'
        invariant
            i <= j <= c.len(),
            digits_end(c@, i as int) == digits_end(c@, j as int),
        decreases c.len() - j,
    {
        j += 1;
    }
    j
}

fn decimal(c: &Vec<char>, i: usize) -> (r: bool)
    requires
        i <= c.len(),
    ensures
        r == decimal_at(c@, i as int),
{
    let n = c.len();
    let a = skip_digits(c, i);
    let dot = a < n && c[a] == '.';
    let b = if dot {
        skip_digits(c, a + 1)
    } else {
        a
    };
    if !(a > i || (dot && b > a + 1)) {
        return false;
    }
    if b == n {
        return true;
    }
    if c[b] != 'e' && c[b] != 'E' {
        return false;
    }
    let j: usize = if b + 1 < n && (c[b + 1] == '+' || c[b + 1] == '-') {
        b + 2
    } else {
        b + 1
    };
    j < n && skip_digits(c, j) == n
}

fn lower_of(c: char) -> (r: char)
    ensures
        r == lower(c),
{
    if 'A' <= c && c <= 'Z' {
        let u = (c as u32 + 32) as u8;
        u as char
    } else {
        c
    }
}

fn word(c: &Vec<char>, i: usize, w: &[char]) -> (r: bool)
    requires
        i <= c.len(),
    ensures
        r == word_at(c@, i as int, w@),
{
    if c.len() - i != w.len() {
        return false;
    }
    let mut k: usize = 0;
    while k < w.len()
        invariant
            i <= c.len(),
            c.len() - i == w.len(),
            k <= w.len(),
            forall|t: int| 0 <= t < k ==> lower(c@[i + t]) == #[trigger] w@[t],
        decreases w.len() - k,
    {
        if lower_of(c[i + k]) != w[k] {
            return false;
        }
        k += 1;
    }
    true
}

/// Whether a text is a floating-point number.
pub fn float_text(s: &str) -> (r: bool)
    ensures
        r == is_float(s@),
{
    let c = chars_of(s);
    let i: usize = if c.len() > 0 && (c[0] == '+' || c[0] == '-') {
        1
    } else {
        0
    };
    let inf: [char; 3] = ['i', 'n', 'f'];
    let infinity: [char; 8] = ['i', 'n', 'f', 'i', 'n', 'i', 't', 'y'];
    let nan: [char; 3] = ['n', 'a', 'n'];
    assert(inf@ =~= seq!['i', 'n', 'f']);
    assert(infinity@ =~= seq!['i', 'n', 'f', 'i', 'n', 'i', 't', 'y']);
    assert(nan@ =~= seq!['n', 'a', 'n']);
    decimal(&c, i) || word(&c, i, inf.as_slice()) || word(&c, i, infinity.as_slice()) || word(
        &c,
        i,
        nan.as_slice(),
    )
}

/// The size of a bit pattern without its sign.
pub open spec fn magnitude(b: u64) -> int {
    b as int % 0x8000_0000_0000_0000
}

pub open spec fn negative(b: u64) -> bool {
    b >= 0x8000_0000_0000_0000
}

/// Whether a bit pattern is that of no number.
pub open spec fn is_nan(b: u64) -> bool {
    magnitude(b) > 0x7ff0_0000_0000_0000
}

/// An integer by which bit patterns of numbers are ordered as the numbers are; both zeros
/// have the same.
pub open spec fn rank(b: u64) -> int {
    if negative(b) {
        -magnitude(b)
    } else {
        magnitude(b)
    }
}

/// The order of numbers; nothing comes before or after what is no number.
pub open spec fn less(a: u64, b: u64) -> bool {
    !is_nan(a) && !is_nan(b) && rank(a) < rank(b)
}

/// The equality of numbers; nothing equals what is no number.
pub open spec fn equal(a: u64, b: u64) -> bool {
    !is_nan(a) && !is_nan(b) && rank(a) == rank(b)
}

/// An integer by which all bit patterns are ordered: the negative ones first, from the
/// largest magnitude down, then the others, from the smallest up.
pub open spec fn total_rank(b: u64) -> int {
    if negative(b) {
        -1 - magnitude(b)
    } else {
        magnitude(b)
    }
}

fn rank_of(b: u64) -> (r: i64)
    ensures
        r == rank(b),
{
    if b >= 0x8000_0000_0000_0000 {
        -((b - 0x8000_0000_0000_0000) as i64)
    } else {
        b as i64
    }
}

fn nan(b: u64) -> (r: bool)
    ensures
        r == is_nan(b),
{
    b % 0x8000_0000_0000_0000 > 0x7ff0_0000_0000_0000
}

/// Whether the number `a` is less than the number `b`.
pub fn lt(a: u64, b: u64) -> (r: bool)
    ensures
        r == less(a, b),
{
    !nan(a) && !nan(b) && rank_of(a) < rank_of(b)
}

/// Whether two bit patterns are those of equal numbers.
pub fn eq(a: u64, b: u64) -> (r: bool)
    ensures
        r == equal(a, b),
{
    !nan(a) && !nan(b) && rank_of(a) == rank_of(b)
}

/// The integer by which a bit pattern is ordered among all.
pub fn total_rank_of(b: u64) -> (r: i64)
    ensures
        r == total_rank(b),
{
    if b >= 0x8000_0000_0000_0000 {
        -1 - (b - 0x8000_0000_0000_0000) as i64
    } else {
        b as i64
    }
}

/// How many bytes a character takes in UTF-8.
pub open spec fn width(c: char) -> nat {
    if (c as u32) < 0x80 {
        1
    } else if (c as u32) < 0x800 {
        2
    } else if (c as u32) < 0x1_0000 {
        3
    } else {
        4
    }
}

/// How many bytes a text takes in UTF-8.
pub open spec fn byte_len(s: Seq<char>) -> nat
    decreases s.len(),
{
    if s.len() == 0 {
        0
    } else {
        byte_len(s.drop_last()) + width(s.last())
    }
}

/// The first `n` bytes of a text, if it has as many and they end at a character's end.
pub open spec fn byte_prefix(s: Seq<char>, n: nat) -> Option<Seq<char>> {
    if exists|k: int| cut(s, n, k) {
        Some(s.take(choose|k: int| cut(s, n, k)))
    } else {
        None
    }
}

/// Whether the first `k` characters take `n` bytes.
pub open spec fn cut(s: Seq<char>, n: nat, k: int) -> bool {
    0 <= k <= s.len() && byte_len(s.take(k)) == n
}

proof fn lemma_byte_len_grows(s: Seq<char>, i: int, j: int)
    requires
        0 <= i < j <= s.len(),
    ensures
        byte_len(s.take(i)) < byte_len(s.take(j)),
    decreases j - i,
{
    assert(s.take(j).drop_last() =~= s.take(j - 1));
    if i < j - 1 {
        lemma_byte_len_grows(s, i, j - 1);
    }
}

/// The bytes of a text end at one place only.
pub proof fn lemma_cut_unique(s: Seq<char>, n: nat, i: int, j: int)
    requires
        cut(s, n, i),
        cut(s, n, j),
    ensures
        i == j,
{
    if i < j {
        lemma_byte_len_grows(s, i, j);
    } else if j < i {
        lemma_byte_len_grows(s, j, i);
    }
}

fn width_of(c: char) -> (r: usize)
    ensures
        r == width(c),
{
    let u = c as u32;
    if u < 0x80 {
        1
    } else if u < 0x800 {
        2
    } else if u < 0x1_0000 {
        3
    } else {
        4
    }
}

/// How many characters the first `n` bytes hold, if they end at a character's end.
fn cut_at(c: &Vec<char>, n: usize) -> (r: Option<usize>)
    ensures
        match r {
            Some(k) => cut(c@, n as nat, k as int),
            None => forall|k: int| !cut(c@, n as nat, k),
        },
{
    let mut k: usize = 0;
    let mut len: usize = 0;
    assert(c@.take(0) =~= Seq::empty());
    while len < n && k < c.len()
        invariant
            k <= c.len(),
            len <= n,
            len == byte_len(c@.take(k as int)),
        decreases c.len() - k,
    {
        assert(c@.take(k + 1).drop_last() =~= c@.take(k as int));
        let w = width_of(c[k]);
        if w > n - len {
            assert forall|j: int| !cut(c@, n as nat, j) by {
                if cut(c@, n as nat, j) {
                    if j <= k {
                        if j < k {
                            lemma_byte_len_grows(c@, j, k as int);
                        }
                    } else if j > k + 1 {
                        lemma_byte_len_grows(c@, k + 1, j);
                    }
                }
            }
            return None;
        }
        len += w;
        k += 1;
    }
    if len == n {
        Some(k)
    } else {
        assert forall|j: int| !cut(c@, n as nat, j) by {
            if cut(c@, n as nat, j) && j < k {
                lemma_byte_len_grows(c@, j, k as int);
            }
        }
        None
    }
}

/// Takes the first `n` bytes of a text.
pub fn first_bytes(s: &str, n: usize) -> (r: Option<String>)
    ensures
        r.deep_view() == byte_prefix(s@, n as nat),
{
    let c = chars_of(s);
    match cut_at(&c, n) {
        Some(k) => {
            proof {
                let j = choose|j: int| cut(s@, n as nat, j);
                lemma_cut_unique(s@, n as nat, k as int, j);
            }
            assert(s@.subrange(0, k as int) =~= s@.take(k as int));
            Some(crate::text::text_of(&c, 0, k))
        },
        None => None,
    }
}

/// The first two bytes of a text, or all of it where it has fewer, if they end at a
/// character's end.
pub open spec fn two_bytes(s: Seq<char>) -> Option<Seq<char>> {
    if byte_len(s) < 2 {
        Some(s)
    } else {
        byte_prefix(s, 2)
    }
}

/// Takes the first two bytes of a text.
pub fn first_two_bytes(s: &str) -> (r: Option<String>)
    ensures
        r.deep_view() == two_bytes(s@),
{
    let c = chars_of(s);
    proof {
        reveal_with_fuel(byte_len, 3);
        if s@.len() >= 2 {
            lemma_byte_len_grows(s@, 0, 1);
            lemma_byte_len_grows(s@, 1, s@.len() as int);
            assert(s@.take(s@.len() as int) =~= s@);
        }
    }
    if c.len() == 0 || (c.len() == 1 && width_of(c[0]) == 1) {
        Some(s.to_owned())
    } else {
        first_bytes(s, 2)
    }
}

/// The bytes of a text from the `i`-th up to the `j`-th, if both are where characters end.
pub open spec fn byte_range(s: Seq<char>, i: nat, j: nat) -> Option<Seq<char>> {
    match (byte_prefix(s, i), byte_prefix(s, j)) {
        (Some(a), Some(b)) => if i <= j {
            Some(b.skip(a.len() as int))
        } else {
            None
        },
        _ => None,
    }
}

/// Takes the bytes of a text from the `i`-th up to the `j`-th.
pub fn bytes_between(s: &str, i: usize, j: usize) -> (r: Option<String>)
    ensures
        r.deep_view() == byte_range(s@, i as nat, j as nat),
{
    let c = chars_of(s);
    match (cut_at(&c, i), cut_at(&c, j)) {
        (Some(a), Some(b)) => {
            if i > j {
                return None;
            }
            proof {
                let x = choose|x: int| cut(s@, i as nat, x);
                lemma_cut_unique(s@, i as nat, a as int, x);
                let y = choose|y: int| cut(s@, j as nat, y);
                lemma_cut_unique(s@, j as nat, b as int, y);
                if b < a {
                    lemma_byte_len_grows(s@, b as int, a as int);
                }
            }
            assert(s@.subrange(a as int, b as int) =~= s@.take(b as int).skip(a as int));
            Some(crate::text::text_of(&c, a, b))
        },
        _ => None,
    }
}

/// The digits of a number.
pub open spec fn digits_of(n: nat) -> Seq<char>
    decreases n,
{
    if n < 10 {
        seq![digit(n)]
    } else {
        digits_of(n / 10).push(digit(n % 10))
    }
}

/// The character of a digit.
pub open spec fn digit(d: nat) -> char {
    ('0' as nat + d) as char
}

/// Writes a number in digits.
pub fn decimal_text(n: u64) -> (r: String)
    ensures
        r@ == digits_of(n as nat),
    decreases n,
{
    let mut s = if n < 10 {
        String::new()
    } else {
        decimal_text(n / 10)
    };
    let d = (n % 10) as u8;
    let c = match d {
        0 => '0',
        1 => '1',
        2 => '2',
        3 => '3',
        4 => '4',
        5 => '5',
        6 => '6',
        7 => '7',
        8 => '8',
        _ => '9',
    };
    assert(c == digit((n % 10) as nat));
    s.push(c);
    assert(s@ =~= digits_of(n as nat));
    s
}

/// The digits of a number are read as that number.
pub proof fn law_decimal_reads_back(n: nat)
    ensures
        all_digits(digits_of(n)),
        digits_of(n).len() > 0,
        digits_value(digits_of(n)) == n,
    decreases n,
{
    let d = digits_of(n);
    if n < 10 {
        assert(d.drop_last() =~= Seq::empty());
        assert(digits_value(d.drop_last()) == 0);
    } else {
        law_decimal_reads_back(n / 10);
        assert(d.drop_last() =~= digits_of(n / 10));
    }
}

/// The first bytes of a text in ASCII are its first characters.
pub proof fn law_ascii_prefix(s: Seq<char>, n: nat)
    requires
        forall|i: int| 0 <= i < s.len() ==> (#[trigger] s[i] as u32) < 0x80,
    ensures
        byte_len(s) == s.len(),
        n <= s.len() ==> byte_prefix(s, n) == Some(s.take(n as int)),
        n > s.len() ==> byte_prefix(s, n) is None,
{
    lemma_ascii_len(s);
    assert forall|k: int| 0 <= k <= s.len() implies byte_len(#[trigger] s.take(k)) == k by {
        lemma_ascii_len(s.take(k));
    }
    if n <= s.len() {
        assert(cut(s, n, n as int));
        let k = choose|k: int| cut(s, n, k);
        lemma_cut_unique(s, n, k, n as int);
    } else {
        assert forall|k: int| !cut(s, n, k) by {
            if 0 <= k <= s.len() {
                assert(byte_len(s.take(k)) == k);
            }
        }
    }
}

proof fn lemma_ascii_len(s: Seq<char>)
    requires
        forall|i: int| 0 <= i < s.len() ==> (#[trigger] s[i] as u32) < 0x80,
    ensures
        byte_len(s) == s.len(),
    decreases s.len(),
{
    if s.len() > 0 {
        assert((s[s.len() - 1] as u32) < 0x80);
        assert forall|i: int| 0 <= i < s.len() - 1 implies (#[trigger] s.drop_last()[i] as u32) < 0x80 by {
            assert(s.drop_last()[i] == s[i]);
        }
        lemma_ascii_len(s.drop_last());
    }
}

/// The bytes of a text in ASCII between two places are its characters between them.
pub proof fn law_ascii_range(s: Seq<char>, i: nat, j: nat)
    requires
        forall|k: int| 0 <= k < s.len() ==> (#[trigger] s[k] as u32) < 0x80,
    ensures
        i <= j <= s.len() ==> byte_range(s, i, j) == Some(s.subrange(i as int, j as int)),
        i > j || j > s.len() ==> byte_range(s, i, j) is None,
{
    law_ascii_prefix(s, i);
    law_ascii_prefix(s, j);
    if i <= j <= s.len() {
        assert(s.take(j as int).skip(i as int) =~= s.subrange(i as int, j as int));
    }
}

/// One digit more makes a number ten times as large and adds the digit; a minus sign turns it
/// round, and a plus sign does nothing.
pub proof fn law_digits_make_numbers(s: Seq<char>, c: char)
    requires
        all_digits(s),
        s.len() > 0,
        '0' <= c <= '9',
    ensures
        integer(s, false) == integer(s, true),
        integer(s, true) is Some,
        integer(s.push(c), true) == Some(10 * (integer(s, true)->0) + (c as int - '0' as int)),
        integer(seq!['-'] + s, true) == Some(-(integer(s, true)->0)),
        integer(seq!['+'] + s, true) == integer(s, true),
        integer(seq!['+'] + s, false) == integer(s, false),
        integer(seq!['-'] + s, false) is None,
{
    let t = s.push(c);
    assert(ascii_digit(s[0]));
    assert(t.drop_last() =~= s);
    assert forall|i: int| 0 <= i < t.len() implies ascii_digit(#[trigger] t[i]) by {
        if i < s.len() {
            assert(t[i] == s[i]);
        }
    }
    assert((seq!['-'] + s).skip(1) =~= s);
    assert((seq!['+'] + s).skip(1) =~= s);
    assert((seq!['-'] + s)[0] == '-');
    assert(t[0] == s[0]);
}

/// A text with anything but digits behind a sign is no whole number, nor is an empty one.
pub proof fn law_other_texts_are_no_numbers(s: Seq<char>, signed: bool, i: int)
    requires
        s.len() == 0 || (0 < i < s.len() && !('0' <= s[i] <= '9')),
    ensures
        integer(s, signed) is None,
{
    if s.len() > 0 {
        if s[0] == '+' || (signed && s[0] == '-') {
            assert(s.skip(1)[i - 1] == s[i]);
            assert(!ascii_digit(s.skip(1)[i - 1]));
        } else {
            assert(!ascii_digit(s[i]));
        }
    }
}

/// The numbers of bit patterns are ordered as they should: the patterns of numbers that are not
/// negative as they come, those of negative ones the other way round and before them, both
/// zeros alike, and what is no number not at all.
pub proof fn law_order_of_bit_patterns(a: u64, b: u64)
    requires
        a <= 0x7ff0_0000_0000_0000,
        b <= 0x7ff0_0000_0000_0000,
    ensures
        less(a, b) <==> a < b,
        equal(a, b) <==> a == b,
        less((a + 0x8000_0000_0000_0000) as u64, (b + 0x8000_0000_0000_0000) as u64) <==> b < a,
        less((a + 0x8000_0000_0000_0000) as u64, b) <==> a > 0 || b > 0,
        !less(a, (b + 0x8000_0000_0000_0000) as u64),
        equal((a + 0x8000_0000_0000_0000) as u64, b) <==> a == 0 && b == 0,
        forall|n: u64|
            0x7ff0_0000_0000_0000 < n < 0x8000_0000_0000_0000 || n > 0xfff0_0000_0000_0000 ==> !less(
                a,
                n,
            ) && !less(n, a) && !#[trigger] equal(a, n),
{
}

proof fn lemma_digits_end_is(s: Seq<char>, i: int, e: int)
    requires
        0 <= i <= e <= s.len(),
        forall|k: int| i <= k < e ==> ascii_digit(#[trigger] s[k]),
        e < s.len() ==> !ascii_digit(s[e]),
    ensures
        digits_end(s, i) == e,
    decreases e - i,
{
    if i < e {
        assert(ascii_digit(s[i]));
        lemma_digits_end_is(s, i + 1, e);
    }
}

/// Digits are a number, and so are digits with a sign before them or with a point and more
/// digits behind them.
pub proof fn law_digits_are_floats(s: Seq<char>, t: Seq<char>)
    requires
        all_digits(s),
        all_digits(t),
        s.len() > 0,
    ensures
        is_float(s),
        is_float(seq!['-'] + s),
        is_float(s + seq!['.'] + t),
{
    assert(ascii_digit(s[0]));
    lemma_digits_end_is(s, 0, s.len() as int);
    assert(decimal_at(s, 0));
    let m = seq!['-'] + s;
    assert forall|k: int| 1 <= k < m.len() implies ascii_digit(#[trigger] m[k]) by {
        assert(m[k] == s[k - 1]);
    }
    lemma_digits_end_is(m, 1, m.len() as int);
    assert(signed_at(m, 0));
    assert(decimal_at(m, 1));
    let p = s + seq!['.'] + t;
    let n = s.len() as int;
    assert forall|k: int| 0 <= k < n implies ascii_digit(#[trigger] p[k]) by {
        assert(p[k] == s[k]);
    }
    assert(p[n] == '.');
    lemma_digits_end_is(p, 0, n);
    assert forall|k: int| n + 1 <= k < p.len() implies ascii_digit(#[trigger] p[k]) by {
        assert(p[k] == t[k - n - 1]);
    }
    lemma_digits_end_is(p, n + 1, p.len() as int);
    assert(p[0] == s[0]);
    assert(decimal_at(p, 0));
}

proof fn lemma_digits_end_digits(s: Seq<char>, i: int)
    requires
        0 <= i <= s.len(),
    ensures
        i <= digits_end(s, i) <= s.len(),
        forall|k: int| i <= k < digits_end(s, i) ==> ascii_digit(#[trigger] s[k]),
    decreases s.len() - i,
{
    if i < s.len() && ascii_digit(s[i]) {
        lemma_digits_end_digits(s, i + 1);
    }
}

/// In a number without letters a minus sign can only come first, there is one point at most, and
/// there is a digit.
pub proof fn law_shape_of_plain_numbers(s: Seq<char>, i: int, j: int)
    requires
        is_float(s),
        forall|k: int|
            0 <= k < s.len() ==> '0' <= #[trigger] s[k] <= '9' || s[k] == '.' || s[k] == '-',
    ensures
        s.len() > 0,
        0 < i < s.len() ==> s[i] != '-',
        0 <= i < j < s.len() ==> s[i] != '.' || s[j] != '.',
        exists|k: int| 0 <= k < s.len() && '0' <= #[trigger] s[k] <= '9',
{
    let o: int = if signed_at(s, 0) {
        1
    } else {
        0
    };
    assert forall|w: Seq<char>| w.len() > 0 && 'a' <= #[trigger] w[0] <= 'z' implies !word_at(
        s,
        o,
        w,
    ) by {
        if s.len() - o == w.len() {
            assert('0' <= s[o + 0] <= '9' || s[o + 0] == '.' || s[o + 0] == '-');
            assert(lower(s[o + 0]) != w[0]);
        }
    }
    let (w1, w2, w3) = (
        seq!['i', 'n', 'f'],
        seq!['i', 'n', 'f', 'i', 'n', 'i', 't', 'y'],
        seq!['n', 'a', 'n'],
    );
    assert('a' <= w1[0] <= 'z' && 'a' <= w2[0] <= 'z' && 'a' <= w3[0] <= 'z');
    assert(decimal_at(s, o));
    if s.len() < o {
        assert(false);
    }
    lemma_digits_end_digits(s, o);
    let a = digits_end(s, o);
    if a < s.len() && s[a] == '.' {
        lemma_digits_end_digits(s, a + 1);
        let b = digits_end(s, a + 1);
        if b < s.len() {
            assert('0' <= s[b] <= '9' || s[b] == '.' || s[b] == '-');
        }
        assert(b == s.len());
        if a > o {
            assert('0' <= s[o] <= '9');
        } else {
            assert('0' <= s[a + 1] <= '9');
        }
    } else {
        if a < s.len() {
            assert('0' <= s[a] <= '9' || s[a] == '.' || s[a] == '-');
        }
        assert(a == s.len());
        assert('0' <= s[o] <= '9');
    }
}

/// Digits behind a point are a number, and so are digits with an exponent; an empty text, a sign
/// and a point alone are none.
pub proof fn law_other_forms_of_numbers(s: Seq<char>, t: Seq<char>)
    requires
        all_digits(s),
        all_digits(t),
        s.len() > 0,
        t.len() > 0,
    ensures
        is_float(seq!['.'] + t),
        is_float(s + seq!['e'] + t),
        is_float(s + seq!['E', '-'] + t),
        !is_float(Seq::empty()),
        !is_float(seq!['-']),
        !is_float(seq!['.']),
{
    let p = seq!['.'] + t;
    assert forall|k: int| 1 <= k < p.len() implies ascii_digit(#[trigger] p[k]) by {
        assert(p[k] == t[k - 1]);
    }
    assert(p[0] == '.');
    lemma_digits_end_is(p, 1, p.len() as int);
    assert(digits_end(p, 0) == 0);
    assert(decimal_at(p, 0));
    assert(ascii_digit(s[0]));
    let n = s.len() as int;
    let e = s + seq!['e'] + t;
    assert forall|k: int| 0 <= k < n implies ascii_digit(#[trigger] e[k]) by {
        assert(e[k] == s[k]);
    }
    assert forall|k: int| n + 1 <= k < e.len() implies ascii_digit(#[trigger] e[k]) by {
        assert(e[k] == t[k - n - 1]);
    }
    assert(e[n] == 'e' && e[0] == s[0]);
    lemma_digits_end_is(e, 0, n);
    lemma_digits_end_is(e, n + 1, e.len() as int);
    assert(ascii_digit(e[n + 1]));
    assert(decimal_at(e, 0));
    let m = s + seq!['E', '-'] + t;
    assert forall|k: int| 0 <= k < n implies ascii_digit(#[trigger] m[k]) by {
        assert(m[k] == s[k]);
    }
    assert forall|k: int| n + 2 <= k < m.len() implies ascii_digit(#[trigger] m[k]) by {
        assert(m[k] == t[k - n - 2]);
    }
    assert(m[n] == 'E' && m[n + 1] == '-' && m[0] == s[0]);
    lemma_digits_end_is(m, 0, n);
    lemma_digits_end_is(m, n + 2, m.len() as int);
    assert(decimal_at(m, 0));
    let minus = seq!['-'];
    assert(digits_end(minus, 1) == 1);
    let point = seq!['.'];
    assert(digits_end(point, 0) == 0);
    assert(digits_end(point, 1) == 1);
    let none = Seq::<char>::empty();
    assert(digits_end(none, 0) == 0);
    assert(!decimal_at(none, 0));
    assert(!decimal_at(minus, 1));
    assert(!decimal_at(point, 0));
}

/// A number counts where it lies between the bounds, both of them among it.
pub proof fn law_numbers_within_bounds(s: Seq<char>, signed: bool, lo: int, hi: int, v: int)
    requires
        integer(s, signed) == Some(v),
    ensures
        lo <= v <= hi ==> integer_within(s, signed, lo, hi) == Some(v),
        v < lo || v > hi ==> integer_within(s, signed, lo, hi) is None,
{
}

/// The first two bytes of a text in ASCII are its first two characters, or all of a shorter one.
pub proof fn law_two_ascii_bytes(s: Seq<char>)
    requires
        forall|i: int| 0 <= i < s.len() ==> (#[trigger] s[i] as u32) < 0x80,
    ensures
        s.len() >= 2 ==> two_bytes(s) == Some(s.take(2)),
        s.len() < 2 ==> two_bytes(s) == Some(s),
{
    law_ascii_prefix(s, 2);
}

/// The bytes of a character are one up to 127, two up to 2047, three up to 65535 and four beyond.
pub proof fn law_width_of_characters(s: Seq<char>, c: char)
    ensures
        (c as u32) < 0x80 ==> byte_len(s.push(c)) == byte_len(s) + 1,
        0x80 <= (c as u32) < 0x800 ==> byte_len(s.push(c)) == byte_len(s) + 2,
        0x800 <= (c as u32) < 0x1_0000 ==> byte_len(s.push(c)) == byte_len(s) + 3,
        (c as u32) >= 0x1_0000 ==> byte_len(s.push(c)) == byte_len(s) + 4,
{
    assert(s.push(c).drop_last() =~= s);
}

/// The words for what is infinite and for what is no number are numbers too, in letters of either
/// case and with a sign or without.
pub proof fn law_words_that_are_numbers(s: Seq<char>)
    requires
        s.len() == 3,
        ((s[0] == 'i' || s[0] == 'I') && (s[1] == 'n' || s[1] == 'N') && (s[2] == 'f' || s[2] == 'F'))
            || ((s[0] == 'n' || s[0] == 'N') && (s[1] == 'a' || s[1] == 'A') && (s[2] == 'n' || s[2]
            == 'N')),
    ensures
        is_float(s),
        is_float(seq!['-'] + s),
        is_float(seq!['+'] + s),
{
    let w = if s[0] == 'i' || s[0] == 'I' {
        seq!['i', 'n', 'f']
    } else {
        seq!['n', 'a', 'n']
    };
    assert forall|k: int| 0 <= k < w.len() implies lower(s[0 + k]) == #[trigger] w[k] by {
        assert(k == 0 || k == 1 || k == 2);
    }
    assert(word_at(s, 0, w));
    let m = seq!['-'] + s;
    assert forall|k: int| 0 <= k < w.len() implies lower(m[1 + k]) == #[trigger] w[k] by {
        assert(m[1 + k] == s[k]);
        assert(k == 0 || k == 1 || k == 2);
    }
    assert(word_at(m, 1, w));
    let p = seq!['+'] + s;
    assert forall|k: int| 0 <= k < w.len() implies lower(p[1 + k]) == #[trigger] w[k] by {
        assert(p[1 + k] == s[k]);
        assert(k == 0 || k == 1 || k == 2);
    }
    assert(word_at(p, 1, w));
}

/// A text of letters alone that is a number begins like one of those words and is as long.
pub proof fn law_other_words_are_no_numbers(s: Seq<char>)
    requires
        is_float(s),
        forall|k: int| 0 <= k < s.len() ==> 'a' <= #[trigger] s[k] <= 'z' || 'A' <= s[k] <= 'Z',
    ensures
        s.len() == 3 || s.len() == 8,
        s[0] == 'i' || s[0] == 'I' || s[0] == 'n' || s[0] == 'N',
        s.len() == 8 ==> s[0] == 'i' || s[0] == 'I',
{
    if s.len() > 0 {
        assert('a' <= s[0] <= 'z' || 'A' <= s[0] <= 'Z');
    }
    assert(digits_end(s, 0) == 0);
    assert(!decimal_at(s, 0));
    let (w1, w2, w3) = (
        seq!['i', 'n', 'f'],
        seq!['i', 'n', 'f', 'i', 'n', 'i', 't', 'y'],
        seq!['n', 'a', 'n'],
    );
    assert(word_at(s, 0, w1) || word_at(s, 0, w2) || word_at(s, 0, w3));
    assert(w1[0] == 'i' && w2[0] == 'i' && w3[0] == 'n');
    if word_at(s, 0, w1) {
        assert(lower(s[0]) == w1[0]);
    } else if word_at(s, 0, w2) {
        assert(lower(s[0]) == w2[0]);
    } else {
        assert(lower(s[0]) == w3[0]);
    }
}

} // verus!
