//! When mains were laid: the median year by place and material.
use std::collections::HashMap;
use vstd::prelude::*;
use vstd::string::*;
use crate::number::{integer_within, parse_integer};
use crate::text::{lines, lines_of, pieces, same, split, Class};

verus! {

broadcast use vstd::std_specs::hash::group_hash_axioms;

/// The year that year bytes count from; the byte 0 stands for an unknown year.
pub const YR0: i32 = 1848;

/// How many places lie side by side in a row.
pub const N: i64 = 3600;

/// The number that stands for any material.
pub const ANY: u8 = 15;

/// The codes of the materials, in the order of their tones.
pub open spec fn codes() -> Seq<Seq<char>> {
    seq!["CI"@, "SI"@, "AS"@, "LE"@, "DI"@, "ST"@, "PV"@, "PE"@]
}

/// The number of a material's code.
pub open spec fn code_number(t: Seq<char>) -> Option<int> {
    if t == "*"@ {
        Some(15)
    } else if codes().contains(t) {
        Some(codes().index_of(t))
    } else {
        None
    }
}

/// A year as a byte: counted from 1848, and between 1 and 255.
pub open spec fn year_byte(y: int) -> int {
    if y - 1848 < 1 {
        1
    } else if y - 1848 > 255 {
        255
    } else {
        y - 1848
    }
}

/// A difference of years in the range of the machine's integers, around which it wraps.
pub open spec fn wrapped(y: int) -> int {
    if y < -0x8000_0000 + 1848 {
        y + 0x1_0000_0000
    } else {
        y
    }
}

/// Under which number a place and a material are entered.
pub open spec fn slot(place: int, material: int) -> u32 {
    ((place * 16 + material) % 0x1_0000_0000) as u32
}

/// What a line says: a place, a material and a year, between tabs. A line that does not is
/// passed over.
pub open spec fn year_entry(line: Seq<char>) -> Option<(u32, u8)> {
    let f = pieces(line, Class::Is('\t'));
    if f.len() < 3 {
        None
    } else {
        match (
            integer_within(f[0], false, 0, 0xffff_ffff),
            code_number(f[1]),
            integer_within(f[2], true, -0x8000_0000, 0x7fff_ffff),
        ) {
            (Some(c), Some(m), Some(y)) => Some((slot(c, m), year_byte(wrapped(y)) as u8)),
            _ => None,
        }
    }
}

/// The entries of lines: of several for one place and material, the last.
pub open spec fn year_table(ls: Seq<Seq<char>>) -> Map<u32, u8>
    decreases ls.len(),
{
    if ls.len() == 0 {
        Map::empty()
    } else {
        let m = year_table(ls.drop_last());
        match year_entry(ls.last()) {
            Some((k, v)) => m.insert(k, v),
            None => m,
        }
    }
}

/// The places to look at around one, the nearest rings first: how far east and north.
pub open spec fn around() -> Seq<(int, int)> {
    seq![
        (0, 0),
        (-1, -1),
        (0, -1),
        (1, -1),
        (-1, 0),
        (1, 0),
        (-1, 1),
        (0, 1),
        (1, 1),
        (-2, -2),
        (-1, -2),
        (0, -2),
        (1, -2),
        (2, -2),
        (-2, -1),
        (2, -1),
        (-2, 0),
        (2, 0),
        (-2, 1),
        (2, 1),
        (-2, 2),
        (-1, 2),
        (0, 2),
        (1, 2),
        (2, 2),
    ]
}

/// The year of a material at a place, if the place lies on the grid and has one.
pub open spec fn year_at(m: Map<u32, u8>, x: int, y: int, material: int) -> Option<u8> {
    let k = slot(x + 3600 * y, material);
    if 0 <= x < 3600 && 0 <= y < 3600 && m.contains_key(k) {
        Some(m[k])
    } else {
        None
    }
}

/// The first year of a material around a place, from the `i`th place to look at on.
pub open spec fn first_year(m: Map<u32, u8>, x: int, y: int, material: int, i: int) -> Option<u8>
    decreases around().len() - i,
{
    if i < 0 || i >= around().len() {
        None
    } else {
        let (dx, dy) = around()[i];
        match year_at(m, x + dx, y + dy, material) {
            Some(v) => Some(v),
            None => first_year(m, x, y, material, i + 1),
        }
    }
}

/// The year byte of a tone at a place: that of its material around the place or else that of
/// any material; 0 where there is none.
pub open spec fn stamped(m: Map<u32, u8>, x: int, y: int, tone: u8) -> u8 {
    let own = if tone <= 15 {
        first_year(m, x, y, tone as int, 0)
    } else {
        None
    };
    match own {
        Some(v) => v,
        None => match first_year(m, x, y, 15, 0) {
            Some(v) => v,
            None => 0,
        },
    }
}

/// The years by place and material.
pub struct Years {
    map: HashMap<u32, u8>,
}

impl View for Years {
    type V = Map<u32, u8>;

    closed spec fn view(&self) -> Map<u32, u8> {
        self.map@
    }
}

#[verifier::loop_isolation(false)]
fn find_code(t: &str) -> (r: Option<u8>)
    ensures
        code_number(t@) == (match r {
            Some(m) => Some(m as int),
            None => None,
        }),
        r matches Some(m) ==> m <= 15,
{
    if same(t, "*") {
        return Some(ANY);
    }
    let names: [&str; 8] = ["CI", "SI", "AS", "LE", "DI", "ST", "PV", "PE"];
    proof {
        lemma_codes_differ();
    }
    let mut i: usize = 0;
    while i < 8
        invariant
            i <= 8,
            forall|k: int| 0 <= k < 8 ==> (#[trigger] names@[k])@ == codes()[k],
            forall|k: int| 0 <= k < i ==> #[trigger] codes()[k] != t@,
        decreases 8 - i,
    {
        if same(names[i], t) {
            assert(codes()[i as int] == t@);
            assert(codes().contains(t@));
            return Some(i as u8);
        }
        assert(codes()[i as int] != t@);
        i += 1;
    }
    assert(!codes().contains(t@));
    None
}

proof fn lemma_codes_differ()
    ensures
        codes().no_duplicates(),
{
    reveal_strlit("CI");
    reveal_strlit("SI");
    reveal_strlit("AS");
    reveal_strlit("LE");
    reveal_strlit("DI");
    reveal_strlit("ST");
    reveal_strlit("PV");
    reveal_strlit("PE");
    let c = codes();
    assert forall|i: int, j: int| 0 <= i < c.len() && 0 <= j < c.len() && i != j implies c[i]
        != c[j] by {
        assert(c[i].len() == 2 && c[j].len() == 2);
        assert((c[i][0], c[i][1]) != (c[j][0], c[j][1]));
    }
}

fn read_entry(line: &str) -> (r: Option<(u32, u8)>)
    ensures
        r == year_entry(line@),
{
    let f = split(line, Class::Is('\t'));
    if f.len() < 3 {
        return None;
    }
    let ghost p = f.deep_view();
    assert(p[0] == f@[0]@ && p[1] == f@[1]@ && p[2] == f@[2]@);
    let c = match parse_integer(f[0].as_str(), false, 0, 0xffff_ffff) {
        Some(c) => c,
        None => {
            return None;
        },
    };
    let y = match parse_integer(f[2].as_str(), true, -0x8000_0000, 0x7fff_ffff) {
        Some(y) => y,
        None => {
            return None;
        },
    };
    let m = match find_code(f[1].as_str()) {
        Some(m) => m,
        None => {
            return None;
        },
    };
    let d: i64 = if y < -0x8000_0000 + 1848 {
        y + 0x1_0000_0000
    } else {
        y
    };
    let b: u8 = if d - 1848 < 1 {
        1
    } else if d - 1848 > 255 {
        255
    } else {
        (d - 1848) as u8
    };
    let k = ((c as u64 * 16 + m as u64) % 0x1_0000_0000) as u32;
    Some((k, b))
}

impl Years {
    /// Reads the years from a text.
    pub fn load(text: &str) -> (r: Years)
        ensures
            r@ == year_table(lines(text@)),
    {
        let ls = lines_of(text);
        let ghost all = lines(text@);
        let mut map: HashMap<u32, u8> = HashMap::new();
        let mut i: usize = 0;
        assert(map@ =~= Map::<u32, u8>::empty());
        while i < ls.len()
            invariant
                i <= ls.len(),
                ls.deep_view() == all,
                map@ == year_table(all.take(i as int)),
            decreases ls.len() - i,
        {
            assert(all.take(i + 1).drop_last() =~= all.take(i as int));
            assert(all.take(i + 1).last() == ls@[i as int]@);
            match read_entry(ls[i].as_str()) {
                Some((k, v)) => {
                    map.insert(k, v);
                },
                None => {},
            }
            i += 1;
        }
        assert(all.take(i as int) =~= all);
        Years { map }
    }

    fn look(&self, x: i64, y: i64, material: u8) -> (r: Option<u8>)
        requires
            material <= 15,
        ensures
            r == first_year(self@, x as int, y as int, material as int, 0),
    {
        if x < -2 || y < -2 || x > N + 2 || y > N + 2 {
            proof {
                lemma_far(self@, x as int, y as int, material as int, 0);
            }
            return None;
        }
        let offsets: [(i64, i64); 25] = [
            (0, 0),
            (-1, -1),
            (0, -1),
            (1, -1),
            (-1, 0),
            (1, 0),
            (-1, 1),
            (0, 1),
            (1, 1),
            (-2, -2),
            (-1, -2),
            (0, -2),
            (1, -2),
            (2, -2),
            (-2, -1),
            (2, -1),
            (-2, 0),
            (2, 0),
            (-2, 1),
            (2, 1),
            (-2, 2),
            (-1, 2),
            (0, 2),
            (1, 2),
            (2, 2),
        ];
        assert forall|k: int| 0 <= k < 25 implies {
            let o = #[trigger] offsets@[k];
            &&& (o.0 as int, o.1 as int) == around()[k]
            &&& -2 <= o.0 <= 2
            &&& -2 <= o.1 <= 2
        } by {}
        let mut i: usize = 0;
        while i < 25
            invariant
                i <= 25,
                material <= 15,
                -2 <= x <= N + 2,
                -2 <= y <= N + 2,
                forall|k: int|
                    0 <= k < 25 ==> {
                        let o = #[trigger] offsets@[k];
                        &&& (o.0 as int, o.1 as int) == around()[k]
                        &&& -2 <= o.0 <= 2
                        &&& -2 <= o.1 <= 2
                    },
                first_year(self@, x as int, y as int, material as int, 0) == first_year(
                    self@,
                    x as int,
                    y as int,
                    material as int,
                    i as int,
                ),
            decreases 25 - i,
        {
            let (dx, dy) = offsets[i];
            let (nx, ny) = (x + dx, y + dy);
            if 0 <= nx && nx < N && 0 <= ny && ny < N {
                let k = ((nx as u64 + 3600 * ny as u64) * 16 + material as u64) as u32;
                assert(k == slot(nx + 3600 * ny, material as int));
                match self.map.get(&k) {
                    Some(v) => {
                        return Some(*v);
                    },
                    None => {},
                }
            }
            i += 1;
        }
        None
    }

    /// The year byte of a tone at a place: that of its material there or up to two places
    /// away, or else that of any material; 0 where there is none.
    pub fn stamp(&self, x: i64, y: i64, tone: u8) -> (r: u8)
        ensures
            r == stamped(self@, x as int, y as int, tone),
    {
        if tone <= 15 {
            match self.look(x, y, tone) {
                Some(v) => {
                    return v;
                },
                None => {},
            }
        }
        match self.look(x, y, ANY) {
            Some(v) => v,
            None => 0,
        }
    }
}

proof fn lemma_far(m: Map<u32, u8>, x: int, y: int, material: int, i: int)
    requires
        x < -2 || y < -2 || x > 3602 || y > 3602,
        0 <= i,
    ensures
        first_year(m, x, y, material, i) is None,
    decreases around().len() - i,
{
    if i < around().len() {
        assert(-2 <= around()[i].0 <= 2 && -2 <= around()[i].1 <= 2);
        lemma_far(m, x, y, material, i + 1);
    }
}

proof fn lemma_years_known(ls: Seq<Seq<char>>, k: u32)
    requires
        year_table(ls).contains_key(k),
    ensures
        year_table(ls)[k] >= 1,
    decreases ls.len(),
{
    if ls.len() > 0 {
        let d = ls.drop_last();
        match year_entry(ls.last()) {
            Some((j, v)) => {
                if j != k {
                    lemma_years_known(d, k);
                }
            },
            None => {
                lemma_years_known(d, k);
            },
        }
    }
}

proof fn lemma_first_year(ls: Seq<Seq<char>>, x: int, y: int, material: int, i: int)
    requires
        0 <= i,
    ensures
        first_year(year_table(ls), x, y, material, i) matches Some(v) ==> v >= 1,
    decreases around().len() - i,
{
    if i < around().len() {
        let (dx, dy) = around()[i];
        let k = slot(x + dx + 3600 * (y + dy), material);
        if year_table(ls).contains_key(k) {
            lemma_years_known(ls, k);
        }
        lemma_first_year(ls, x, y, material, i + 1);
    }
}

/// A year that was read is never taken for an unknown one: the year byte is 0 exactly where
/// neither the material nor any other has a year around the place.
pub proof fn law_stamp_zero_is_unknown(ls: Seq<Seq<char>>, x: int, y: int, tone: u8)
    ensures
        stamped(year_table(ls), x, y, tone) == 0 <==> {
            &&& tone <= 15 ==> first_year(year_table(ls), x, y, tone as int, 0) is None
            &&& first_year(year_table(ls), x, y, 15, 0) is None
        },
{
    lemma_first_year(ls, x, y, tone as int, 0);
    lemma_first_year(ls, x, y, 15, 0);
}

/// The year of the material at the place itself comes before all others.
pub proof fn law_stamp_prefers_own_place(m: Map<u32, u8>, x: int, y: int, tone: u8)
    requires
        tone <= 15,
        year_at(m, x, y, tone as int) is Some,
    ensures
        Some(stamped(m, x, y, tone)) == year_at(m, x, y, tone as int),
{
    assert(around()[0] == (0int, 0int));
}

/// How far a place to look at lies from the one in the middle.
pub open spec fn ring_of(o: (int, int)) -> int {
    let x = if o.0 < 0 {
        -o.0
    } else {
        o.0
    };
    let y = if o.1 < 0 {
        -o.1
    } else {
        o.1
    };
    if x < y {
        y
    } else {
        x
    }
}

/// The places up to two away are looked at, nearer rings first, and on one ring from south to
/// north and from west to east.
pub proof fn law_nearer_rings_come_first(i: int, j: int)
    requires
        0 <= i < j < around().len(),
    ensures
        around().len() == 25,
        ring_of(around()[j]) <= 2,
        ring_of(around()[i]) <= ring_of(around()[j]),
        ring_of(around()[i]) == ring_of(around()[j]) ==> around()[i].1 < around()[j].1 || (
        around()[i].1 == around()[j].1 && around()[i].0 < around()[j].0),
{
    let a = around();
    assert(a[0] == (0int, 0int));
    assert forall|k: int| 1 <= k < 9 implies ring_of(#[trigger] a[k]) == 1 by {}
    assert forall|k: int| 9 <= k < 25 implies ring_of(#[trigger] a[k]) == 2 by {}
}

/// A year is found where it was entered: a line with the number of a place, a material's code and
/// a year gives that place, counted in rows of 3600, that year for that material.
pub proof fn law_year_found_where_entered(line: Seq<char>, c: int, y: int, code: Seq<char>)
    requires
        pieces(line, Class::Is('\t')).len() >= 3,
        integer_within(pieces(line, Class::Is('\t'))[0], false, 0, 0xffff_ffff) == Some(c),
        pieces(line, Class::Is('\t'))[1] == code,
        integer_within(pieces(line, Class::Is('\t'))[2], true, -0x8000_0000, 0x7fff_ffff) == Some(y),
        0 <= c < 3600 * 3600,
        1800 <= y <= 3000,
        code_number(code) is Some,
    ensures
        year_entry(line) matches Some((k, b)) && {
            &&& 1849 <= y <= 2103 ==> b == y - 1848
            &&& y < 1849 ==> b == 1
            &&& y > 2103 ==> b == 255
            &&& forall|m: Map<u32, u8>|
                #[trigger] year_at(m.insert(k, b), c % 3600, c / 3600, code_number(code)->0) == Some(b)
        },
{
    let m = code_number(code)->0;
    if codes().contains(code) {
        let i = choose|i: int| 0 <= i < codes().len() && codes()[i] == code;
    }
    assert(c % 3600 + 3600 * (c / 3600) == c);
}

/// The numbers of the materials' codes.
pub proof fn law_numbers_of_codes(t: Seq<char>)
    ensures
        t == "*"@ ==> code_number(t) == Some(15int),
        t == "CI"@ ==> code_number(t) == Some(0int),
        t == "SI"@ ==> code_number(t) == Some(1int),
        t == "AS"@ ==> code_number(t) == Some(2int),
        t == "LE"@ ==> code_number(t) == Some(3int),
        t == "DI"@ ==> code_number(t) == Some(4int),
        t == "ST"@ ==> code_number(t) == Some(5int),
        t == "PV"@ ==> code_number(t) == Some(6int),
        t == "PE"@ ==> code_number(t) == Some(7int),
        code_number(t) is Some ==> t == "*"@ || t == "CI"@ || t == "SI"@ || t == "AS"@ || t == "LE"@
            || t == "DI"@ || t == "ST"@ || t == "PV"@ || t == "PE"@,
{
    lemma_codes_differ();
    reveal_strlit("*");
    reveal_strlit("CI");
    reveal_strlit("SI");
    reveal_strlit("AS");
    reveal_strlit("LE");
    reveal_strlit("DI");
    reveal_strlit("ST");
    reveal_strlit("PV");
    reveal_strlit("PE");
    let c = codes();
    assert(c[0] == "CI"@ && c[1] == "SI"@ && c[2] == "AS"@ && c[3] == "LE"@);
    assert(c[4] == "DI"@ && c[5] == "ST"@ && c[6] == "PV"@ && c[7] == "PE"@);
    assert forall|i: int| 0 <= i < 8 && t == #[trigger] c[i] implies code_number(t) == Some(i) by {
        assert(c.contains(t));
        assert(c[i].len() == 2);
        let j = c.index_of(t);
        assert(c[j] == t);
    }
}

/// No two materials at places of the grid share an entry.
pub proof fn law_entries_do_not_meet(p: int, m: int, q: int, n: int)
    requires
        0 <= p < 3600 * 3600,
        0 <= q < 3600 * 3600,
        0 <= m <= 15,
        0 <= n <= 15,
        slot(p, m) == slot(q, n),
    ensures
        p == q,
        m == n,
{
}

/// Where no place up to two away has a year for the tone, the year is that of any material there,
/// and unknown where there is none; where one has, the year is that of the first looked at.
pub proof fn law_stamp_is_first_found(m: Map<u32, u8>, x: int, y: int, tone: u8, i: int)
    requires
        tone <= 15,
        0 <= i < around().len(),
        year_at(m, x + around()[i].0, y + around()[i].1, tone as int) is Some,
        forall|j: int|
            0 <= j < i ==> year_at(
                m,
                x + (#[trigger] around()[j]).0,
                y + around()[j].1,
                tone as int,
            ) is None,
    ensures
        Some(stamped(m, x, y, tone)) == year_at(
            m,
            x + around()[i].0,
            y + around()[i].1,
            tone as int,
        ),
{
    lemma_first_found(m, x, y, tone as int, 0, i);
}

proof fn lemma_first_found(m: Map<u32, u8>, x: int, y: int, material: int, k: int, i: int)
    requires
        0 <= k <= i < around().len(),
        year_at(m, x + around()[i].0, y + around()[i].1, material) is Some,
        forall|j: int|
            k <= j < i ==> year_at(
                m,
                x + (#[trigger] around()[j]).0,
                y + around()[j].1,
                material,
            ) is None,
    ensures
        first_year(m, x, y, material, k) == year_at(
            m,
            x + around()[i].0,
            y + around()[i].1,
            material,
        ),
    decreases i - k,
{
    if k < i {
        assert(year_at(m, x + around()[k].0, y + around()[k].1, material) is None);
        lemma_first_found(m, x, y, material, k + 1, i);
    }
}

/// A tone without a year of its own up to two places away, or beyond the codes, has that of any
/// material.
pub proof fn law_stamp_falls_back_to_any(m: Map<u32, u8>, x: int, y: int, tone: u8)
    requires
        tone > 15 || forall|j: int|
            0 <= j < around().len() ==> year_at(
                m,
                x + (#[trigger] around()[j]).0,
                y + around()[j].1,
                tone as int,
            ) is None,
    ensures
        stamped(m, x, y, tone) == stamped(m, x, y, 15),
{
    if tone <= 15 {
        lemma_none_found(m, x, y, tone as int, 0);
    }
}

proof fn lemma_none_found(m: Map<u32, u8>, x: int, y: int, material: int, k: int)
    requires
        0 <= k,
        forall|j: int|
            0 <= j < around().len() ==> year_at(
                m,
                x + (#[trigger] around()[j]).0,
                y + around()[j].1,
                material,
            ) is None,
    ensures
        first_year(m, x, y, material, k) is None,
    decreases around().len() - k,
{
    if k < around().len() {
        assert(year_at(m, x + around()[k].0, y + around()[k].1, material) is None);
        lemma_none_found(m, x, y, material, k + 1);
    }
}

/// A year before 1849 counts as the first that can be told, one behind 2103 as the last, and the
/// difference to 1848 is taken as the machine takes it: where it lies below its range it comes
/// out above.
pub proof fn law_years_beyond_the_range(line: Seq<char>, c: int, code: Seq<char>, y: int)
    requires
        pieces(line, Class::Is('\t')).len() >= 3,
        integer_within(pieces(line, Class::Is('\t'))[0], false, 0, 0xffff_ffff) == Some(c),
        pieces(line, Class::Is('\t'))[1] == code,
        code_number(code) is Some,
        integer_within(pieces(line, Class::Is('\t'))[2], true, -0x8000_0000, 0x7fff_ffff) == Some(y),
    ensures
        year_entry(line) matches Some((k, b)) && {
            &&& y - 1848 < -0x8000_0000 ==> b == 255
            &&& -0x8000_0000 <= y - 1848 < 1 ==> b == 1
            &&& 1 <= y - 1848 <= 255 ==> b == y - 1848
            &&& y - 1848 > 255 ==> b == 255
        },
{
}

/// Of several entries for one place and material the last counts, and a line that is no entry
/// changes nothing.
pub proof fn law_last_entry_counts(ls: Seq<Seq<char>>, l: Seq<char>)
    ensures
        year_entry(l) is None ==> year_table(ls.push(l)) == year_table(ls),
        (year_entry(l) matches Some((k, b)) ==> year_table(ls.push(l)) == year_table(ls).insert(k, b)),
        year_table(Seq::empty()).dom() == Set::<u32>::empty(),
{
    assert(ls.push(l).drop_last() =~= ls);
    assert(year_table(Seq::empty()).dom() =~= Set::<u32>::empty());
}

/// A line of fewer than three fields, or one whose place, code or year is none, is no entry.
pub proof fn law_lines_that_are_no_entries(line: Seq<char>)
    requires
        ({
            let f = pieces(line, Class::Is('\t'));
            f.len() < 3 || integer_within(f[0], false, 0, 0xffff_ffff) is None || code_number(f[1]) is None
                || integer_within(f[2], true, -0x8000_0000, 0x7fff_ffff) is None
        }),
    ensures
        year_entry(line) is None,
{
}

/// A place and a material are entered under sixteen times the place and the material, in the
/// range of the machine's words, around which it wraps: places that are a sixteenth of that range
/// apart share an entry.
pub proof fn law_entries_wrap_around(place: int, material: int)
    requires
        0 <= place,
        0 <= material <= 15,
    ensures
        16 * place + material < 0x1_0000_0000 ==> slot(place, material) == 16 * place + material,
        slot(place + 0x1000_0000, material) == slot(place, material),
{
    assert((place + 0x1000_0000) * 16 + material == place * 16 + material + 0x1_0000_0000);
}

} // verus!
