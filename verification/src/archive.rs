//! Packed files: gzip streams of lines, and archives with a grid of elevations.
use vstd::prelude::*;
use vstd::string::*;
use vstd::utf8::*;
use crate::text::{ends_in, ends_with};

verus! {

/// What `flate2::read::MultiGzDecoder` yields of the bytes of a file up to its end; nothing
/// where it meets an error before.
pub uninterp spec fn gunzipped(bytes: Seq<u8>) -> Option<Seq<u8>>;

/// Reads `flate2::read::MultiGzDecoder` through a `std::io::BufReader` to its end or its first
/// error, and says whether it was the end. What it yields up to the end is named, not described.
/// Nothing is said of what it yields before an error: how much of that comes through depends on
/// the size of the pieces that it is asked for, here those of the buffer.
#[verifier::external_body]
fn gunzip(bytes: &[u8]) -> (r: (Vec<u8>, bool))
    ensures
        r.1 == (gunzipped(bytes@) is Some),
        gunzipped(bytes@) matches Some(b) ==> r.0@ == b,
{
    let mut out = Vec::new();
    let mut gz = std::io::BufReader::new(flate2::read::MultiGzDecoder::new(bytes));
    let end = std::io::copy(&mut gz, &mut out);
    (out, end.is_ok())
}

/// `String::from_utf8`: the text whose encoding the bytes are, if they are one.
#[verifier::external_body]
fn from_utf8(bytes: Vec<u8>) -> (r: Option<String>)
    ensures
        r is Some == valid_utf8(bytes@),
        r matches Some(s) ==> s@ == decode_utf8(bytes@),
{
    String::from_utf8(bytes).ok()
}

/// The pieces of bytes between line feeds.
pub open spec fn fed(b: Seq<u8>) -> Seq<Seq<u8>>
    decreases b.len(),
{
    if b.len() == 0 {
        seq![Seq::empty()]
    } else {
        let p = fed(b.drop_last());
        if b.last() == 0x0a {
            p.push(Seq::empty())
        } else {
            p.drop_last().push(p.last().push(b.last()))
        }
    }
}

/// A line without a carriage return at its end.
pub open spec fn without_return(l: Seq<u8>) -> Seq<u8> {
    if l.len() > 0 && l.last() == 0x0d {
        l.drop_last()
    } else {
        l
    }
}

/// What stands before each line feed, without a carriage return.
pub open spec fn ended_lines(b: Seq<u8>) -> Seq<Seq<u8>> {
    fed(b).drop_last().map_values(|l: Seq<u8>| without_return(l))
}

/// The lines of bytes: what stands before each line feed, without a carriage return, and where
/// the bytes are whole what stands behind the last, if anything.
pub open spec fn byte_lines(b: Seq<u8>, whole: bool) -> Seq<Seq<u8>> {
    let last = fed(b).last();
    if whole && last.len() > 0 {
        ended_lines(b).push(last)
    } else {
        ended_lines(b)
    }
}

/// The texts of lines up to the first that is none.
pub open spec fn texts_until_broken(ls: Seq<Seq<u8>>) -> Seq<Seq<char>>
    decreases ls.len(),
{
    if ls.len() == 0 || !valid_utf8(ls[0]) {
        Seq::empty()
    } else {
        seq![decode_utf8(ls[0])] + texts_until_broken(ls.skip(1))
    }
}

/// The contents of byte strings.
pub open spec fn byte_strings(v: Seq<Vec<u8>>) -> Seq<Seq<u8>> {
    v.map_values(|l: Vec<u8>| l@)
}

fn copy_bytes(b: &[u8], i: usize, j: usize) -> (r: Vec<u8>)
    requires
        i <= j <= b.len(),
    ensures
        r@ == b@.subrange(i as int, j as int),
{
    let mut out: Vec<u8> = Vec::new();
    let mut k = i;
    while k < j
        invariant
            i <= k <= j <= b.len(),
            out@ == b@.subrange(i as int, k as int),
        decreases j - k,
    {
        out.push(b[k]);
        k += 1;
        assert(b@.subrange(i as int, k as int) =~= b@.subrange(i as int, k - 1).push(b@[k - 1]));
    }
    out
}

/// Splits bytes into lines; where they are not whole, a line without an end is left out.
pub fn split_lines(b: &[u8], whole: bool) -> (r: Vec<Vec<u8>>)
    ensures
        byte_strings(r@) == byte_lines(b@, whole),
{
    let mut out: Vec<Vec<u8>> = Vec::new();
    let mut start: usize = 0;
    let mut i: usize = 0;
    assert(b@.take(0) =~= Seq::empty());
    assert(byte_strings(out@) =~= fed(b@.take(0)).drop_last().map_values(
        |l: Seq<u8>| without_return(l),
    ));
    assert(b@.subrange(0, 0) =~= Seq::empty());
    while i < b.len()
        invariant
            start <= i <= b.len(),
            fed(b@.take(i as int)).len() >= 1,
            fed(b@.take(i as int)).last() == b@.subrange(start as int, i as int),
            byte_strings(out@) == fed(b@.take(i as int)).drop_last().map_values(
                |l: Seq<u8>| without_return(l),
            ),
        decreases b.len() - i,
    {
        let ghost p = fed(b@.take(i as int));
        let ghost q = fed(b@.take(i + 1));
        assert(b@.take(i + 1).drop_last() =~= b@.take(i as int));
        assert(b@.take(i + 1).last() == b@[i as int]);
        if b[i] == 0x0a {
            let end = if i > start && b[i - 1] == 0x0d {
                i - 1
            } else {
                i
            };
            let ghost before = byte_strings(out@);
            let l = copy_bytes(b, start, end);
            proof {
                let whole = b@.subrange(start as int, i as int);
                assert(l@ =~= without_return(whole));
            }
            out.push(l);
            assert(byte_strings(out@) =~= before.push(l@));
            assert(q.drop_last() =~= p);
            assert(p =~= p.drop_last().push(p.last()));
            assert(q.drop_last().map_values(|l: Seq<u8>| without_return(l)) =~= before.push(l@));
            start = i + 1;
            assert(b@.subrange(start as int, i + 1) =~= Seq::empty());
        } else {
            assert(q.drop_last() =~= p.drop_last());
            assert(b@.subrange(start as int, i + 1) =~= b@.subrange(start as int, i as int).push(
                b@[i as int],
            ));
        }
        i += 1;
    }
    assert(b@.take(i as int) =~= b@);
    if whole && start < b.len() {
        let ghost before = byte_strings(out@);
        let l = copy_bytes(b, start, b.len());
        out.push(l);
        assert(byte_strings(out@) =~= before.push(l@));
    }
    out
}

/// Reads lines as texts up to the first that is none.
pub fn read_texts(ls: Vec<Vec<u8>>) -> (r: Vec<String>)
    ensures
        r.deep_view() == texts_until_broken(byte_strings(ls@)),
{
    let ghost all = byte_strings(ls@);
    let mut out: Vec<String> = Vec::new();
    let mut broken = false;
    assert(all.skip(0) =~= all);
    assert(out.deep_view() + texts_until_broken(all) =~= texts_until_broken(all));
    for l in it: ls.into_iter()
        invariant
            it.seq() == ls@,
            all == byte_strings(ls@),
            broken ==> out.deep_view() == texts_until_broken(all),
            !broken ==> out.deep_view() + texts_until_broken(all.skip(it.index() as int))
                == texts_until_broken(all),
    {
        let ghost i = it.index() as int;
        assert(all.skip(i)[0] == l@);
        assert(all.skip(i).skip(1) =~= all.skip(i + 1));
        if !broken {
            let ghost before = out.deep_view();
            match from_utf8(l) {
                Some(s) => {
                    let ghost v = s@;
                    out.push(s);
                    assert(out.deep_view() =~= before.push(v));
                    assert(out.deep_view() + texts_until_broken(all.skip(i + 1)) =~= before + (
                    seq![v] + texts_until_broken(all.skip(i + 1))));
                },
                None => {
                    broken = true;
                    assert(out.deep_view() =~= texts_until_broken(all));
                },
            }
        }
    }
    if !broken {
        assert(texts_until_broken(all.skip(all.len() as int)) =~= Seq::empty());
        assert(out.deep_view() =~= texts_until_broken(all));
    }
    out
}

/// Whether these are the lines of a packed file as texts, up to the first that is none; of a
/// file with a fault, ended lines before it.
pub open spec fn lines_in(bytes: Seq<u8>, ls: Seq<Seq<char>>) -> bool {
    match gunzipped(bytes) {
        Some(b) => ls == texts_until_broken(byte_lines(b, true)),
        None => exists|b: Seq<u8>| ls == texts_until_broken(#[trigger] byte_lines(b, false)),
    }
}

/// Unpacks a file and reads its lines, up to the first that is no text.
pub fn packed_lines(bytes: &[u8]) -> (r: Vec<String>)
    ensures
        lines_in(bytes@, r.deep_view()),
{
    let (b, whole) = gunzip(bytes);
    read_texts(split_lines(b.as_slice(), whole))
}

/// The names of the entries of an archive, as `zip::ZipArchive` lists them: nothing where the
/// bytes are no archive, and for an entry none where its name cannot be read.
pub uninterp spec fn zip_names(bytes: Seq<u8>) -> Option<Seq<Option<Seq<char>>>>;

/// The text of an entry of an archive, as `zip::ZipArchive::by_index` and reading it to its
/// end give it: nothing where the entry is not there or is no text.
pub uninterp spec fn zip_text(bytes: Seq<u8>, i: nat) -> Option<Seq<char>>;

/// Opens an archive by `zip::ZipArchive::new` and asks it by `name_for_index` for the name of
/// each entry. What it answers is named, not described.
#[verifier::external_body]
fn entry_names(bytes: &[u8]) -> (r: Option<Vec<Option<String>>>)
    ensures
        r.deep_view() == zip_names(bytes@),
{
    let arch = zip::ZipArchive::new(std::io::Cursor::new(bytes)).ok()?;
    let name = |i| Some(arch.name_for_index(i)?.ok()?.into_owned());
    Some((0..arch.len()).map(name).collect())
}

/// Opens an archive by `zip::ZipArchive::new`, finds an entry by `by_index` and reads it as a
/// text. What it holds is named, not described.
#[verifier::external_body]
fn entry_text(bytes: &[u8], i: usize) -> (r: Option<String>)
    ensures
        r.deep_view() == zip_text(bytes@, i as nat),
{
    let mut arch = zip::ZipArchive::new(std::io::Cursor::new(bytes)).ok()?;
    let mut text = String::new();
    std::io::Read::read_to_string(&mut arch.by_index(i).ok()?, &mut text).ok()?;
    Some(text)
}

/// Whether a name is that of a grid of elevations.
pub open spec fn is_grid_name(n: Option<Seq<char>>) -> bool {
    n matches Some(n) && ends_in(n, ".asc"@)
}

/// The first entry from the `i`th on that is a grid of elevations.
pub open spec fn grid_entry(names: Seq<Option<Seq<char>>>, i: int) -> Option<int>
    decreases names.len() - i,
{
    if i < 0 || i >= names.len() {
        None
    } else if is_grid_name(names[i]) {
        Some(i)
    } else {
        grid_entry(names, i + 1)
    }
}

/// Finds the first entry that is a grid of elevations.
pub fn find_grid(names: &Vec<Option<String>>) -> (r: Option<usize>)
    ensures
        grid_entry(names.deep_view(), 0) == (match r {
            Some(i) => Some(i as int),
            None => None,
        }),
{
    let ghost v = names.deep_view();
    let mut i: usize = 0;
    while i < names.len()
        invariant
            i <= names.len(),
            v == names.deep_view(),
            grid_entry(v, 0) == grid_entry(v, i as int),
        decreases names.len() - i,
    {
        assert(v[i as int] == names@[i as int].deep_view());
        match &names[i] {
            Some(n) => {
                if ends_with(n.as_str(), ".asc") {
                    return Some(i);
                }
            },
            None => {},
        }
        i += 1;
    }
    None
}

/// What comes of looking for a grid of elevations in an archive.
pub enum Packed {
    /// The bytes are no archive.
    NoArchive,
    /// No entry is a grid.
    NoGrid,
    /// The grid cannot be read.
    Unreadable,
    /// The grid.
    Grid(String),
}

/// What comes of looking for a grid of elevations in an archive.
pub open spec fn packed_of(bytes: Seq<u8>, r: Packed) -> bool {
    match zip_names(bytes) {
        None => r is NoArchive,
        Some(names) => match grid_entry(names, 0) {
            None => r is NoGrid,
            Some(i) => match zip_text(bytes, i as nat) {
                None => r is Unreadable,
                Some(t) => r matches Packed::Grid(s) && s@ == t,
            },
        },
    }
}

/// Reads the grid of elevations in an archive.
pub fn packed_grid(bytes: &[u8]) -> (r: Packed)
    ensures
        packed_of(bytes@, r),
{
    match entry_names(bytes) {
        None => Packed::NoArchive,
        Some(names) => match find_grid(&names) {
            None => Packed::NoGrid,
            Some(i) => match entry_text(bytes, i) {
                None => Packed::Unreadable,
                Some(t) => Packed::Grid(t),
            },
        },
    }
}

/// The lines of whole bytes end at line feeds, a carriage return before one belonging to the
/// end; what follows the last line feed is a line where it is not empty, and is left out where
/// the bytes are not whole.
pub proof fn law_byte_lines_end_at_line_feeds(b: Seq<u8>, t: Seq<u8>, whole: bool)
    requires
        forall|i: int| 0 <= i < t.len() ==> #[trigger] t[i] != 0x0a,
        b.len() == 0 || b.last() == 0x0a,
    ensures
        byte_lines(Seq::empty(), whole).len() == 0,
        t.len() > 0 ==> byte_lines(b + t, true) == byte_lines(b, true).push(t),
        byte_lines(b + t, false) == byte_lines(b, false),
        byte_lines(b + t + seq![0x0au8], whole) == byte_lines(b, whole).push(
            if t.len() > 0 && t.last() == 0x0d {
                t.drop_last()
            } else {
                t
            },
        ),
{
    lemma_last_fed(b, t);
    let p = fed(b);
    let q = fed(b + t);
    let f = |l: Seq<u8>| without_return(l);
    assert(q.drop_last() =~= p.drop_last());
    let u = b + t + seq![0x0au8];
    assert(u.drop_last() =~= b + t);
    assert(fed(u) == q.push(Seq::empty()));
    assert(fed(u).drop_last() =~= q);
    assert(q.map_values(f) =~= q.drop_last().map_values(f).push(f(q.last())));
    assert(byte_lines(u, whole) =~= byte_lines(b, whole).push(without_return(t)));
}

proof fn lemma_last_fed(b: Seq<u8>, t: Seq<u8>)
    requires
        forall|i: int| 0 <= i < t.len() ==> #[trigger] t[i] != 0x0a,
        b.len() == 0 || b.last() == 0x0a,
    ensures
        fed(b + t).len() == fed(b).len(),
        fed(b + t).len() > 0,
        fed(b + t).drop_last() == fed(b).drop_last(),
        fed(b + t).last() == t,
        fed(b).last().len() == 0,
    decreases t.len(),
{
    if t.len() == 0 {
        assert(b + t =~= b);
        assert(fed(b).last() =~= t);
    } else {
        let d = t.drop_last();
        assert forall|i: int| 0 <= i < d.len() implies #[trigger] d[i] != 0x0a by {
            assert(d[i] == t[i]);
        }
        lemma_last_fed(b, d);
        assert((b + t).drop_last() =~= b + d);
        assert((b + t).last() == t.last());
        assert(t[t.len() - 1] != 0x0a);
        assert(d.push(t.last()) =~= t);
        assert(fed(b + t).drop_last() =~= fed(b + d).drop_last());
    }
}

/// Lines are read as texts in order up to the first that is no text, and nothing behind it is.
pub proof fn law_reading_stops_at_the_first_broken_line(ls: Seq<Seq<u8>>, l: Seq<u8>, more: Seq<Seq<u8>>)
    ensures
        valid_utf8(l) ==> texts_until_broken(seq![l] + more) == seq![decode_utf8(l)]
            + texts_until_broken(more),
        !valid_utf8(l) ==> texts_until_broken(seq![l] + more).len() == 0,
        (forall|i: int| 0 <= i < ls.len() ==> valid_utf8(#[trigger] ls[i])) && !valid_utf8(l)
            ==> texts_until_broken(ls + seq![l] + more) == texts_until_broken(ls),
    decreases ls.len(),
{
    assert((seq![l] + more).skip(1) =~= more);
    assert((seq![l] + more)[0] == l);
    if (forall|i: int| 0 <= i < ls.len() ==> valid_utf8(#[trigger] ls[i])) && !valid_utf8(l) {
        let s = ls + seq![l] + more;
        if ls.len() == 0 {
            assert(s =~= seq![l] + more);
            assert(texts_until_broken(s) =~= texts_until_broken(ls));
        } else {
            let d = ls.skip(1);
            assert(valid_utf8(ls[0]));
            assert forall|i: int| 0 <= i < d.len() implies valid_utf8(#[trigger] d[i]) by {
                assert(d[i] == ls[i + 1]);
            }
            law_reading_stops_at_the_first_broken_line(d, l, more);
            assert(s.skip(1) =~= d + seq![l] + more);
            assert(s[0] == ls[0]);
        }
    }
}

/// The lines of a packed file that unpacks are those of all its bytes.
pub proof fn law_packed_lines_are_those_of_the_bytes(bytes: Seq<u8>, b: Seq<u8>, ls: Seq<Seq<char>>)
    requires
        gunzipped(bytes) == Some(b),
        lines_in(bytes, ls),
    ensures
        ls == texts_until_broken(byte_lines(b, true)),
{
}

/// The grid of an archive is the text of the first entry whose name ends like one, and there is
/// none where no name does.
pub proof fn law_first_grid_is_read(bytes: Seq<u8>, names: Seq<Option<Seq<char>>>, i: int, r: Packed)
    requires
        zip_names(bytes) == Some(names),
        packed_of(bytes, r),
        0 <= i <= names.len(),
        forall|j: int|
            0 <= j < i ==> !(#[trigger] names[j] is Some && (names[j]->0).len() >= 4 && (
            names[j]->0).skip((names[j]->0).len() - 4) == ".asc"@),
    ensures
        i == names.len() ==> r is NoGrid,
        i < names.len() && names[i] is Some && (names[i]->0).len() >= 4 && (names[i]->0).skip(
            (names[i]->0).len() - 4,
        ) == ".asc"@ ==> match zip_text(bytes, i as nat) {
            Some(t) => r is Grid && (r->Grid_0)@ == t,
            None => r is Unreadable,
        },
{
    reveal_strlit(".asc");
    assert forall|j: int| 0 <= j < names.len() implies is_grid_name(#[trigger] names[j]) == (
    names[j] is Some && (names[j]->0).len() >= 4 && (names[j]->0).skip((names[j]->0).len() - 4)
        == ".asc"@) by {
        if names[j] is Some && (names[j]->0).len() >= 4 {
            let n = names[j]->0;
            assert(n.skip(n.len() - 4) =~= n.subrange(n.len() - 4, n.len() as int));
        }
    }
    lemma_grid_entry(names, 0, i);
}

proof fn lemma_grid_entry(names: Seq<Option<Seq<char>>>, k: int, i: int)
    requires
        0 <= k <= i <= names.len(),
        forall|j: int| k <= j < i ==> !is_grid_name(#[trigger] names[j]),
    ensures
        i == names.len() ==> grid_entry(names, k) is None,
        i < names.len() && is_grid_name(names[i]) ==> grid_entry(names, k) == Some(i),
    decreases i - k,
{
    if k < i {
        assert(!is_grid_name(names[k]));
        lemma_grid_entry(names, k + 1, i);
    }
}

/// Bytes that are no archive give no grid.
pub proof fn law_other_bytes_are_no_archive(bytes: Seq<u8>, r: Packed)
    requires
        zip_names(bytes) is None,
        packed_of(bytes, r),
    ensures
        r is NoArchive,
{
}

/// The lines of a packed file with a fault are lines that end before it: a line without an end
/// is not among them.
pub proof fn law_packed_lines_before_a_fault(bytes: Seq<u8>, ls: Seq<Seq<char>>)
    requires
        gunzipped(bytes) is None,
        lines_in(bytes, ls),
    ensures
        exists|b: Seq<u8>| ls == texts_until_broken(#[trigger] byte_lines(b, false)),
{
}

} // verus!
