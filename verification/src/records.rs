//! Records of twelve bytes, binned by cell.
use vstd::prelude::*;
use crate::bytes::{law_low_byte_first, le, le_value, lemma_le_len, lemma_le_round, lemma_spans, put_le};
use crate::order::{by_cell, par_sort_by_cell, sort_by_cell};

verus! {

/// A segment within a cell: the ends in the cell's own coordinates, and two more bytes.
#[derive(Clone, Copy)]
pub struct Rec {
    pub cell: u32,
    pub q: [u16; 4],
    pub b0: u8,
    pub b1: u8,
}

/// The bytes of a record: its four coordinates, its cell, and the two bytes.
pub open spec fn record_bytes(r: Rec) -> Seq<u8> {
    le(r.q@[0] as nat, 2) + le(r.q@[1] as nat, 2) + le(r.q@[2] as nat, 2) + le(r.q@[3] as nat, 2)
        + le(r.cell as nat, 2) + seq![r.b0, r.b1]
}

/// The bytes of records, one after the other.
pub open spec fn records_bytes(s: Seq<Rec>) -> Seq<u8>
    decreases s.len(),
{
    if s.len() == 0 {
        Seq::empty()
    } else {
        records_bytes(s.drop_last()) + record_bytes(s.last())
    }
}

/// Writes records, one after the other.
pub fn write_records(recs: &Vec<Rec>) -> (b: Vec<u8>)
    ensures
        b@ == records_bytes(recs@),
{
    let mut b: Vec<u8> = Vec::new();
    let mut i: usize = 0;
    while i < recs.len()
        invariant
            i <= recs.len(),
            b@ == records_bytes(recs@.take(i as int)),
        decreases recs.len() - i,
    {
        let ghost before = b@;
        let r = recs[i];
        put_le(&mut b, r.q[0] as u64, 2);
        put_le(&mut b, r.q[1] as u64, 2);
        put_le(&mut b, r.q[2] as u64, 2);
        put_le(&mut b, r.q[3] as u64, 2);
        put_le(&mut b, r.cell as u64, 2);
        b.push(r.b0);
        b.push(r.b1);
        assert(recs@.take(i + 1).drop_last() =~= recs@.take(i as int));
        assert(b@ =~= before + record_bytes(r));
        i += 1;
    }
    assert(recs@.take(i as int) =~= recs@);
    b
}

/// Whether twelve bytes hold a record.
pub open spec fn reads_as(s: Seq<u8>, r: Rec) -> bool {
    &&& s.len() == 12
    &&& forall|k: int|
        0 <= k < 4 ==> le_value(#[trigger] s.subrange(2 * k, 2 * k + 2)) == r.q@[k]
    &&& le_value(s.subrange(8, 10)) == r.cell
    &&& s[10] == r.b0
    &&& s[11] == r.b1
}

/// How many records lie in a cell.
pub open spec fn count_in(s: Seq<Rec>, c: int) -> nat
    decreases s.len(),
{
    if s.len() == 0 {
        0
    } else {
        count_in(s.drop_last(), c) + if s.last().cell == c {
            1nat
        } else {
            0nat
        }
    }
}

/// How many records each of the first `n` cells holds.
pub open spec fn counts_of(s: Seq<Rec>, n: nat) -> Seq<u32> {
    Seq::new(n, |c: int| count_in(s, c) as u32)
}

/// The bytes of an index: each number in four bytes.
pub open spec fn idx_bytes(s: Seq<u32>) -> Seq<u8>
    decreases s.len(),
{
    if s.len() == 0 {
        Seq::empty()
    } else {
        idx_bytes(s.drop_last()) + le(s.last() as nat, 4)
    }
}

/// The sum of the first `c` numbers of an index.
pub open spec fn prefix(s: Seq<u32>, c: int) -> nat
    decreases c,
{
    if c <= 0 {
        0
    } else {
        prefix(s, c - 1) + s[c - 1] as nat
    }
}

/// Writes an index.
pub fn write_idx(counts: &Vec<u32>) -> (b: Vec<u8>)
    ensures
        b@ == idx_bytes(counts@),
{
    let mut b: Vec<u8> = Vec::new();
    let mut i: usize = 0;
    while i < counts.len()
        invariant
            i <= counts.len(),
            b@ == idx_bytes(counts@.take(i as int)),
        decreases counts.len() - i,
    {
        put_le(&mut b, counts[i] as u64, 4);
        assert(counts@.take(i + 1).drop_last() =~= counts@.take(i as int));
        i += 1;
    }
    assert(counts@.take(i as int) =~= counts@);
    b
}

proof fn lemma_count_bound(s: Seq<Rec>, c: int)
    ensures
        count_in(s, c) <= s.len(),
    decreases s.len(),
{
    if s.len() > 0 {
        lemma_count_bound(s.drop_last(), c);
    }
}

fn count_cells(recs: &Vec<Rec>, ncell: usize) -> (r: Vec<u32>)
    requires
        recs.len() <= u32::MAX,
        forall|i: int| 0 <= i < recs.len() ==> (#[trigger] recs@[i]).cell < ncell,
    ensures
        r@ == counts_of(recs@, ncell as nat),
{
    let mut counts: Vec<u32> = Vec::new();
    let mut k: usize = 0;
    while k < ncell
        invariant
            k <= ncell,
            counts.len() == k,
            forall|c: int| 0 <= c < k ==> counts@[c] == 0,
        decreases ncell - k,
    {
        counts.push(0);
        k += 1;
    }
    let mut i: usize = 0;
    while i < recs.len()
        invariant
            i <= recs.len() <= u32::MAX,
            counts.len() == ncell,
            forall|i: int| 0 <= i < recs.len() ==> (#[trigger] recs@[i]).cell < ncell,
            forall|c: int|
                0 <= c < ncell ==> #[trigger] counts@[c] == count_in(recs@.take(i as int), c),
        decreases recs.len() - i,
    {
        let c = recs[i].cell as usize;
        proof {
            lemma_count_bound(recs@.take(i as int), c as int);
            assert(recs@.take(i + 1).drop_last() =~= recs@.take(i as int));
        }
        let n = counts[c];
        counts.set(c, n + 1);
        i += 1;
    }
    assert(recs@.take(i as int) =~= recs@);
    assert(counts@ =~= counts_of(recs@, ncell as nat));
    counts
}

/// A layer as it is written out: its records in the order of their cells, and how many each
/// cell holds.
pub struct Layer {
    pub bin: Vec<u8>,
    pub idx: Vec<u8>,
}

proof fn lemma_cells_kept(a: Seq<Rec>, b: Seq<Rec>, n: int)
    requires
        a.to_multiset() == b.to_multiset(),
        forall|i: int| 0 <= i < a.len() ==> (#[trigger] a[i]).cell < n,
    ensures
        a.len() == b.len(),
        forall|i: int| 0 <= i < b.len() ==> (#[trigger] b[i]).cell < n,
{
    a.to_multiset_ensures();
    b.to_multiset_ensures();
    assert forall|i: int| 0 <= i < b.len() implies (#[trigger] b[i]).cell < n by {
        assert(b.contains(b[i]));
        assert(b.to_multiset().count(b[i]) > 0);
        assert(a.contains(b[i]));
    }
}

/// The bytes of a marker: where it stands, its day and its flag, each a number of four bytes
/// given by its bit pattern.
pub open spec fn marker_bytes(x: u32, y: u32, day: u32, flag: u32) -> Seq<u8> {
    le(x as nat, 4) + le(y as nat, 4) + le(day as nat, 4) + le(flag as nat, 4)
}

/// Writes a marker.
pub fn marker(x: u32, y: u32, day: u32, flag: u32) -> (b: Vec<u8>)
    ensures
        b@ == marker_bytes(x, y, day, flag),
{
    let mut b: Vec<u8> = Vec::new();
    put_le(&mut b, x as u64, 4);
    put_le(&mut b, y as u64, 4);
    put_le(&mut b, day as u64, 4);
    put_le(&mut b, flag as u64, 4);
    assert(b@ =~= marker_bytes(x, y, day, flag));
    b
}

/// A marker takes sixteen bytes, and its four numbers stand in them one after the other, the
/// day at the ninth byte.
pub proof fn law_marker_reads_back(x: u32, y: u32, day: u32, flag: u32)
    ensures
        ({
            let b = marker_bytes(x, y, day, flag);
            &&& b.len() == 16
            &&& le_value(b.subrange(0, 4)) == x
            &&& le_value(b.subrange(4, 8)) == y
            &&& le_value(b.subrange(8, 12)) == day
            &&& le_value(b.subrange(12, 16)) == flag
        }),
{
    lemma_spans();
    let b = marker_bytes(x, y, day, flag);
    lemma_le_len(x as nat, 4);
    lemma_le_len(y as nat, 4);
    lemma_le_len(day as nat, 4);
    lemma_le_len(flag as nat, 4);
    lemma_le_round(x as nat, 4);
    lemma_le_round(y as nat, 4);
    lemma_le_round(day as nat, 4);
    lemma_le_round(flag as nat, 4);
    assert(b.subrange(0, 4) =~= le(x as nat, 4));
    assert(b.subrange(4, 8) =~= le(y as nat, 4));
    assert(b.subrange(8, 12) =~= le(day as nat, 4));
    assert(b.subrange(12, 16) =~= le(flag as nat, 4));
}

/// Sorts records by cell and writes them and their index.
pub fn write_layer(recs: &mut Vec<Rec>, ncell: usize) -> (r: Layer)
    requires
        old(recs).len() <= u32::MAX,
        forall|i: int| 0 <= i < old(recs).len() ==> (#[trigger] old(recs)@[i]).cell < ncell,
    ensures
        by_cell(final(recs)@),
        final(recs)@.to_multiset() == old(recs)@.to_multiset(),
        r.bin@ == records_bytes(final(recs)@),
        r.idx@ == idx_bytes(counts_of(final(recs)@, ncell as nat)),
{
    let ghost before = recs@;
    par_sort_by_cell(recs);
    proof {
        lemma_cells_kept(before, recs@, ncell as int);
    }
    let counts = count_cells(recs, ncell);
    Layer { bin: write_records(recs), idx: write_idx(&counts) }
}

/// Sorts records by cell and writes them.
pub fn write_base(recs: &mut Vec<Rec>) -> (r: Vec<u8>)
    ensures
        by_cell(final(recs)@),
        final(recs)@.to_multiset() == old(recs)@.to_multiset(),
        r@ == records_bytes(final(recs)@),
{
    sort_by_cell(recs);
    write_records(recs)
}

proof fn lemma_record_reads(r: Rec)
    requires
        r.cell < 0x1_0000,
    ensures
        reads_as(record_bytes(r), r),
{
    lemma_spans();
    let s = record_bytes(r);
    lemma_le_round(r.q@[0] as nat, 2);
    lemma_le_round(r.q@[1] as nat, 2);
    lemma_le_round(r.q@[2] as nat, 2);
    lemma_le_round(r.q@[3] as nat, 2);
    lemma_le_round(r.cell as nat, 2);
    assert(s.subrange(0, 2) =~= le(r.q@[0] as nat, 2));
    assert(s.subrange(2, 4) =~= le(r.q@[1] as nat, 2));
    assert(s.subrange(4, 6) =~= le(r.q@[2] as nat, 2));
    assert(s.subrange(6, 8) =~= le(r.q@[3] as nat, 2));
    assert(s.subrange(8, 10) =~= le(r.cell as nat, 2));
    assert forall|k: int| 0 <= k < 4 implies le_value(#[trigger] s.subrange(2 * k, 2 * k + 2))
        == r.q@[k] by {
        if k == 0 {
        } else if k == 1 {
        } else if k == 2 {
        } else {
            assert(k == 3);
        }
    }
}

proof fn lemma_records_len(s: Seq<Rec>)
    ensures
        records_bytes(s).len() == 12 * s.len(),
    decreases s.len(),
{
    if s.len() > 0 {
        let r = s.last();
        lemma_records_len(s.drop_last());
        lemma_le_len(r.q@[0] as nat, 2);
        lemma_le_len(r.q@[1] as nat, 2);
        lemma_le_len(r.q@[2] as nat, 2);
        lemma_le_len(r.q@[3] as nat, 2);
        lemma_le_len(r.cell as nat, 2);
    }
}

/// Twelve bytes from twelve times a record's place on hold that record.
pub proof fn law_records_read_back(s: Seq<Rec>, i: int)
    requires
        0 <= i < s.len(),
        s[i].cell < 0x1_0000,
    ensures
        records_bytes(s).len() == 12 * s.len(),
        reads_as(records_bytes(s).subrange(12 * i, 12 * i + 12), s[i]),
    decreases s.len(),
{
    let d = s.drop_last();
    lemma_records_len(s);
    lemma_records_len(d);
    if i < d.len() {
        law_records_read_back(d, i);
        assert(records_bytes(s).subrange(12 * i, 12 * i + 12) =~= records_bytes(d).subrange(
            12 * i,
            12 * i + 12,
        ));
    } else {
        lemma_record_reads(s[i]);
        assert(records_bytes(s).subrange(12 * i, 12 * i + 12) =~= record_bytes(s[i]));
    }
}

/// How many records lie in a cell before the given one.
pub open spec fn count_before(s: Seq<Rec>, c: int) -> nat
    decreases s.len(),
{
    if s.len() == 0 {
        0
    } else {
        count_before(s.drop_last(), c) + if s.last().cell < c {
            1nat
        } else {
            0nat
        }
    }
}

proof fn lemma_count_before(s: Seq<Rec>, c: int)
    ensures
        count_before(s, c + 1) == count_before(s, c) + count_in(s, c),
        count_before(s, c) <= s.len(),
    decreases s.len(),
{
    if s.len() > 0 {
        lemma_count_before(s.drop_last(), c);
    }
}

proof fn lemma_before_zero(s: Seq<Rec>)
    ensures
        count_before(s, 0) == 0,
    decreases s.len(),
{
    if s.len() > 0 {
        lemma_before_zero(s.drop_last());
    }
}

proof fn lemma_prefix(s: Seq<Rec>, n: nat, c: int)
    requires
        s.len() <= u32::MAX,
        0 <= c <= n,
    ensures
        prefix(counts_of(s, n), c) == count_before(s, c),
    decreases c,
{
    if c == 0 {
        lemma_before_zero(s);
    } else {
        lemma_prefix(s, n, c - 1);
        lemma_count_before(s, c - 1);
        lemma_count_bound(s, c - 1);
    }
}

proof fn lemma_place(s: Seq<Rec>, c: int, i: int)
    requires
        by_cell(s),
        0 <= i < s.len(),
    ensures
        s[i].cell < c <==> i < count_before(s, c),
    decreases s.len(),
{
    let d = s.drop_last();
    lemma_count_before(d, c);
    if i < d.len() {
        assert(by_cell(d)) by {
            assert forall|i: int, j: int| 0 <= i < j < d.len() implies (#[trigger] d[i]).cell <= (
            #[trigger] d[j]).cell by {
                assert(s[i].cell <= s[j].cell);
            }
        }
        lemma_place(d, c, i);
        assert(d[i] == s[i]);
        assert(s[i].cell <= s[s.len() - 1].cell);
        if s.last().cell < c {
            lemma_all_before(d, c);
        }
    } else {
        if s.last().cell < c {
            assert forall|k: int| 0 <= k < d.len() implies (#[trigger] d[k]).cell < c by {
                assert(s[k].cell <= s[s.len() - 1].cell);
            }
            lemma_all_before(d, c);
        }
    }
}

proof fn lemma_all_before(s: Seq<Rec>, c: int)
    requires
        forall|k: int| 0 <= k < s.len() ==> (#[trigger] s[k]).cell < c,
    ensures
        count_before(s, c) == s.len(),
    decreases s.len(),
{
    if s.len() > 0 {
        lemma_all_before(s.drop_last(), c);
        assert(s[s.len() - 1].cell < c);
    }
}

/// The sums of an index find every cell: the records of a cell are exactly those from the
/// sum over the cells before it, as many as the index says.
pub proof fn law_index_finds_cell(s: Seq<Rec>, n: nat, c: int, i: int)
    requires
        by_cell(s),
        s.len() <= u32::MAX,
        0 <= c < n,
        0 <= i < s.len(),
    ensures
        s[i].cell == c <==> prefix(counts_of(s, n), c) <= i < prefix(counts_of(s, n), c + 1),
        prefix(counts_of(s, n), c + 1) == prefix(counts_of(s, n), c) + counts_of(s, n)[c],
        prefix(counts_of(s, n), c + 1) <= s.len(),
{
    lemma_prefix(s, n, c);
    lemma_prefix(s, n, c + 1);
    lemma_place(s, c, i);
    lemma_place(s, c + 1, i);
    lemma_count_before(s, c + 1);
}

proof fn lemma_idx_len(s: Seq<u32>)
    ensures
        idx_bytes(s).len() == 4 * s.len(),
    decreases s.len(),
{
    if s.len() > 0 {
        lemma_idx_len(s.drop_last());
        lemma_le_len(s.last() as nat, 4);
    }
}

/// Four bytes from four times a cell's number on hold what the index says of it.
pub proof fn law_index_reads_back(s: Seq<u32>, c: int)
    requires
        0 <= c < s.len(),
    ensures
        idx_bytes(s).len() == 4 * s.len(),
        le_value(idx_bytes(s).subrange(4 * c, 4 * c + 4)) == s[c],
    decreases s.len(),
{
    let d = s.drop_last();
    lemma_idx_len(s);
    lemma_idx_len(d);
    if c < d.len() {
        law_index_reads_back(d, c);
        assert(idx_bytes(s).subrange(4 * c, 4 * c + 4) =~= idx_bytes(d).subrange(4 * c, 4 * c + 4));
    } else {
        lemma_spans();
        lemma_le_round(s[c] as nat, 4);
        assert(idx_bytes(s).subrange(4 * c, 4 * c + 4) =~= le(s[c] as nat, 4));
    }
}

proof fn lemma_records_split(s: Seq<Rec>, a: int, b: int)
    requires
        0 <= a <= b <= s.len(),
    ensures
        records_bytes(s.take(b)) == records_bytes(s.take(a)) + records_bytes(s.subrange(a, b)),
    decreases b - a,
{
    if a == b {
        assert(s.subrange(a, b) =~= Seq::empty());
        assert(records_bytes(s.take(b)) =~= records_bytes(s.take(a)) + records_bytes(
            s.subrange(a, b),
        ));
    } else {
        lemma_records_split(s, a, b - 1);
        assert(s.take(b).drop_last() =~= s.take(b - 1));
        assert(s.subrange(a, b).drop_last() =~= s.subrange(a, b - 1));
        assert(records_bytes(s.take(b)) =~= records_bytes(s.take(a)) + records_bytes(
            s.subrange(a, b),
        ));
    }
}

/// A cell is one run of bytes: from twelve times the sum of the index over the cells before it
/// to twelve times the sum over the next stand the records of that cell and no others.
pub proof fn law_cell_is_one_range(s: Seq<Rec>, n: nat, c: int)
    requires
        by_cell(s),
        s.len() <= u32::MAX,
        0 <= c < n,
    ensures
        ({
            let (a, b) = (prefix(counts_of(s, n), c) as int, prefix(counts_of(s, n), c + 1) as int);
            &&& 0 <= a <= b <= s.len()
            &&& records_bytes(s).len() == 12 * s.len()
            &&& records_bytes(s).subrange(12 * a, 12 * b) == records_bytes(s.subrange(a, b))
            &&& forall|i: int| 0 <= i < s.len() ==> (a <= i < b <==> (#[trigger] s[i]).cell == c)
        }),
{
    let (a, b) = (prefix(counts_of(s, n), c) as int, prefix(counts_of(s, n), c + 1) as int);
    lemma_prefix(s, n, c);
    lemma_prefix(s, n, c + 1);
    lemma_count_before(s, c);
    lemma_count_before(s, c + 1);
    assert forall|i: int| 0 <= i < s.len() implies (a <= i < b <==> (#[trigger] s[i]).cell == c) by {
        law_index_finds_cell(s, n, c, i);
    }
    lemma_records_split(s, a, b);
    lemma_records_split(s, b, s.len() as int);
    assert(s.take(s.len() as int) =~= s);
    lemma_records_len(s);
    lemma_records_len(s.take(a));
    lemma_records_len(s.take(b));
    lemma_records_len(s.subrange(a, b));
    assert(records_bytes(s).subrange(12 * a, 12 * b) =~= records_bytes(s.subrange(a, b)));
}

/// The byte at each place of a record: the four coordinates and the cell take two bytes each,
/// the lower one first, and the two bytes come last.
pub proof fn law_record_layout(s: Seq<Rec>, i: int)
    requires
        0 <= i < s.len(),
    ensures
        ({
            let b = records_bytes(s).subrange(12 * i, 12 * i + 12);
            let r = s[i];
            &&& records_bytes(s).len() == 12 * s.len()
            &&& b[0] == r.q@[0] % 256 && b[1] == r.q@[0] / 256
            &&& b[2] == r.q@[1] % 256 && b[3] == r.q@[1] / 256
            &&& b[4] == r.q@[2] % 256 && b[5] == r.q@[2] / 256
            &&& b[6] == r.q@[3] % 256 && b[7] == r.q@[3] / 256
            &&& b[8] == r.cell % 256 && b[9] == (r.cell / 256) % 256
            &&& b[10] == r.b0
            &&& b[11] == r.b1
        }),
    decreases s.len(),
{
    let d = s.drop_last();
    lemma_records_len(s);
    lemma_records_len(d);
    if i < d.len() {
        law_record_layout(d, i);
        assert(records_bytes(s).subrange(12 * i, 12 * i + 12) =~= records_bytes(d).subrange(
            12 * i,
            12 * i + 12,
        ));
    } else {
        let r = s[i];
        lemma_two_bytes(r.q@[0] as nat);
        lemma_two_bytes(r.q@[1] as nat);
        lemma_two_bytes(r.q@[2] as nat);
        lemma_two_bytes(r.q@[3] as nat);
        lemma_two_bytes(r.cell as nat);
        assert(records_bytes(s).subrange(12 * i, 12 * i + 12) =~= record_bytes(r));
    }
}

proof fn lemma_two_bytes(v: nat)
    ensures
        le(v, 2).len() == 2,
        le(v, 2)[0] == v % 256,
        le(v, 2)[1] == (v / 256) % 256,
{
    law_low_byte_first(v, 2);
    law_low_byte_first(v / 256, 1);
    assert(le(v, 2)[1] == le(v, 2).skip(1)[0]);
}

proof fn lemma_four_bytes(v: nat)
    ensures
        le(v, 4).len() == 4,
        le(v, 4)[0] == v % 256,
        le(v, 4)[1] == (v / 256) % 256,
        le(v, 4)[2] == (v / 65536) % 256,
        le(v, 4)[3] == (v / 16777216) % 256,
{
    law_low_byte_first(v, 4);
    law_low_byte_first(v / 256, 3);
    law_low_byte_first(v / 65536, 2);
    law_low_byte_first(v / 16777216, 1);
    assert((v / 256) / 256 == v / 65536);
    assert((v / 65536) / 256 == v / 16777216);
    let a = le(v, 4).skip(1);
    let b = a.skip(1);
    let c = b.skip(1);
    assert(le(v, 4)[1] == a[0]);
    assert(le(v, 4)[2] == a[1] && a[1] == b[0]);
    assert(le(v, 4)[3] == a[2] && a[2] == b[1] && b[1] == c[0]);
}

/// The byte at each place of a marker: four numbers of four bytes, the lowest one first, in the
/// order of easting, northing, day and flag.
pub proof fn law_marker_layout(x: u32, y: u32, day: u32, flag: u32)
    ensures
        ({
            let b = marker_bytes(x, y, day, flag);
            &&& b.len() == 16
            &&& b[0] == x % 256 && b[1] == (x / 256) % 256 && b[2] == (x / 65536) % 256 && b[3] == x
                / 16777216
            &&& b[4] == y % 256 && b[5] == (y / 256) % 256 && b[6] == (y / 65536) % 256 && b[7] == y
                / 16777216
            &&& b[8] == day % 256 && b[9] == (day / 256) % 256 && b[10] == (day / 65536) % 256
                && b[11] == day / 16777216
            &&& b[12] == flag % 256 && b[13] == (flag / 256) % 256 && b[14] == (flag / 65536) % 256
                && b[15] == flag / 16777216
        }),
{
    lemma_four_bytes(x as nat);
    lemma_four_bytes(y as nat);
    lemma_four_bytes(day as nat);
    lemma_four_bytes(flag as nat);
}

/// The count of each cell stands in four bytes of the index, the lowest one first, and is the
/// number of records in that cell.
pub proof fn law_index_layout(s: Seq<u32>, c: int)
    requires
        0 <= c < s.len(),
    ensures
        ({
            let b = idx_bytes(s);
            &&& b.len() == 4 * s.len()
            &&& b[4 * c] == s[c] % 256
            &&& b[4 * c + 1] == (s[c] / 256) % 256
            &&& b[4 * c + 2] == (s[c] / 65536) % 256
            &&& b[4 * c + 3] == s[c] / 16777216
        }),
    decreases s.len(),
{
    let d = s.drop_last();
    lemma_idx_len(s);
    lemma_idx_len(d);
    if c < d.len() {
        law_index_layout(d, c);
        assert(d[c] == s[c]);
    } else {
        lemma_four_bytes(s[c] as nat);
    }
}

/// A record more in a cell makes its count one larger, and no other.
pub proof fn law_counts_follow_records(s: Seq<Rec>, r: Rec, c: int)
    ensures
        count_in(Seq::empty(), c) == 0,
        count_in(s.push(r), c) == count_in(s, c) + if r.cell == c {
            1int
        } else {
            0
        },
{
    assert(s.push(r).drop_last() =~= s);
}

} // verus!
