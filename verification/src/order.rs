//! Sorting.
use rayon::slice::ParallelSliceMut;
use vstd::prelude::*;
use vstd::utf8::*;
use crate::records::Rec;
use crate::text::bytes_lt;

verus! {

/// Whether records stand in the order of their cells.
pub open spec fn by_cell(s: Seq<Rec>) -> bool {
    forall|i: int, j: int| 0 <= i < j < s.len() ==> (#[trigger] s[i]).cell <= (#[trigger] s[j]).cell
}

/// Whether numbers stand in ascending order.
pub open spec fn ascending(s: Seq<i64>) -> bool {
    forall|i: int, j: int| 0 <= i < j < s.len() ==> #[trigger] s[i] <= #[trigger] s[j]
}

/// What an item is sorted by: a number, then bytes, then its place.
pub type Rank = (i64, Seq<u8>, usize);

/// The order of ranks: by the number, among equal ones by the bytes, and among equal ones of
/// those by the place.
pub open spec fn rank_lt(a: Rank, b: Rank) -> bool {
    a.0 < b.0 || (a.0 == b.0 && (bytes_lt(a.1, b.1) || (a.1 == b.1 && a.2 < b.2)))
}

/// Whether ranks stand in ascending order.
pub open spec fn by_rank(s: Seq<Rank>) -> bool {
    forall|i: int, j: int| 0 <= i < j < s.len() ==> !rank_lt(#[trigger] s[j], #[trigger] s[i])
}

/// The ranks of a list.
pub open spec fn ranks(v: Seq<(i64, Vec<u8>, usize)>) -> Seq<Rank> {
    v.map_values(|x: (i64, Vec<u8>, usize)| (x.0, x.1@, x.2))
}

/// `rayon::slice::ParallelSliceMut::par_sort_unstable_by_key` with the cell as the key: the
/// same records, in the order of their cells. Records of one cell may come in any order.
#[verifier::external_body]
pub(crate) fn par_sort_by_cell(v: &mut Vec<Rec>)
    ensures
        by_cell(final(v)@),
        final(v)@.to_multiset() == old(v)@.to_multiset(),
{
    v.par_sort_unstable_by_key(|e| e.cell);
}

/// `slice::sort_unstable_by_key` with the cell as the key: the same records, in the order of
/// their cells. Records of one cell may come in any order.
#[verifier::external_body]
pub(crate) fn sort_by_cell(v: &mut Vec<Rec>)
    ensures
        by_cell(final(v)@),
        final(v)@.to_multiset() == old(v)@.to_multiset(),
{
    v.sort_unstable_by_key(|e| e.cell);
}

/// `rayon::slice::ParallelSliceMut::par_sort_unstable`: the same numbers in ascending order.
#[verifier::external_body]
pub(crate) fn par_sort_numbers(v: &mut Vec<i64>)
    ensures
        ascending(final(v)@),
        final(v)@.to_multiset() == old(v)@.to_multiset(),
{
    v.par_sort_unstable();
}

/// `slice::sort_unstable` on triples of a number, bytes and a place: the same triples in
/// ascending order, tuples and byte strings being ordered lexicographically.
#[verifier::external_body]
pub(crate) fn sort_ranks(v: &mut Vec<(i64, Vec<u8>, usize)>)
    ensures
        by_rank(ranks(final(v)@)),
        ranks(final(v)@).to_multiset() == ranks(old(v)@).to_multiset(),
{
    v.sort_unstable();
}

/// What the item at a place is sorted by: its number, then its text, then its place.
pub open spec fn rank_at(ns: Seq<i64>, ts: Seq<Seq<char>>, p: int) -> Rank {
    (ns[p], encode_utf8(ts[p]), p as usize)
}

/// Whether `r` lists every place once, in the order of the items' numbers, among equal ones
/// of their texts, and among equal ones of those as they come.
pub open spec fn is_order(ns: Seq<i64>, ts: Seq<Seq<char>>, r: Seq<usize>) -> bool {
    &&& r.len() == ns.len()
    &&& r.no_duplicates()
    &&& forall|k: int| 0 <= k < r.len() ==> (#[trigger] r[k]) < ns.len()
    &&& forall|i: int, j: int|
        0 <= i < j < r.len() ==> !rank_lt(
            rank_at(ns, ts, (#[trigger] r[j]) as int),
            rank_at(ns, ts, (#[trigger] r[i]) as int),
        )
}

fn bytes_of(t: &str) -> (r: Vec<u8>)
    ensures
        r@ == encode_utf8(t@),
{
    let b = t.as_bytes();
    let mut out: Vec<u8> = Vec::new();
    let mut i: usize = 0;
    while i < b.len()
        invariant
            i <= b.len(),
            out@ == b@.take(i as int),
        decreases b.len() - i,
    {
        out.push(b[i]);
        i += 1;
        assert(b@.take(i as int) =~= b@.take(i - 1).push(b@[i - 1]));
    }
    assert(b@.take(i as int) =~= b@);
    out
}

/// Orders items by their numbers and, where those are equal, by their texts.
pub fn order_of(ns: &Vec<i64>, ts: &Vec<String>) -> (r: Vec<usize>)
    requires
        ns.len() == ts.len(),
    ensures
        is_order(ns@, ts.deep_view(), r@),
{
    let n = ns.len();
    let ghost tv = ts.deep_view();
    let mut v: Vec<(i64, Vec<u8>, usize)> = Vec::new();
    let mut i: usize = 0;
    while i < n
        invariant
            i <= n == ns.len() == ts.len(),
            tv == ts.deep_view(),
            ranks(v@) == Seq::new(i as nat, |p: int| rank_at(ns@, tv, p)),
        decreases n - i,
    {
        let ghost before = ranks(v@);
        assert(tv[i as int] == ts@[i as int]@);
        v.push((ns[i], bytes_of(ts[i].as_str()), i));
        assert(ranks(v@) =~= before.push(rank_at(ns@, tv, i as int)));
        i += 1;
        assert(ranks(v@) =~= Seq::new(i as nat, |p: int| rank_at(ns@, tv, p)));
    }
    let ghost first = ranks(v@);
    sort_ranks(&mut v);
    let ghost last = ranks(v@);
    let mut r: Vec<usize> = Vec::new();
    let mut k: usize = 0;
    while k < v.len()
        invariant
            k <= v.len(),
            r.len() == k,
            forall|j: int| 0 <= j < k ==> #[trigger] r@[j] == v@[j].2,
        decreases v.len() - k,
    {
        r.push(v[k].2);
        k += 1;
    }
    proof {
        assert(first.no_duplicates());
        first.lemma_multiset_has_no_duplicates();
        last.lemma_multiset_has_no_duplicates_conv();
        first.to_multiset_ensures();
        last.to_multiset_ensures();
        assert(last.len() == v.len() && first.len() == n && last.len() == first.len());
        assert forall|j: int| 0 <= j < r.len() implies #[trigger] r@[j] < n && last[j] == rank_at(
            ns@,
            tv,
            r@[j] as int,
        ) by {
            assert(last.contains(last[j]));
            assert(last.to_multiset().count(last[j]) > 0);
            assert(first.contains(last[j]));
            let p = choose|p: int| 0 <= p < first.len() && first[p] == last[j];
            assert(r@[j] == last[j].2);
        }
        assert forall|i: int, j: int| 0 <= i < r.len() && 0 <= j < r.len() && i != j implies r@[i]
            != r@[j] by {
            assert(last[i] != last[j]);
        }
        assert forall|i: int, j: int| 0 <= i < j < r.len() implies !rank_lt(
            rank_at(ns@, tv, (#[trigger] r@[j]) as int),
            rank_at(ns@, tv, (#[trigger] r@[i]) as int),
        ) by {
            assert(!rank_lt(last[j], last[i]));
        }
    }
    r
}

/// An order lists all places, the smaller numbers first, among equal ones the texts that come
/// first by their bytes, and equal ones of those as they came.
pub proof fn law_order_puts_smaller_first(
    ns: Seq<i64>,
    ts: Seq<Seq<char>>,
    r: Seq<usize>,
    i: int,
    j: int,
)
    requires
        is_order(ns, ts, r),
        0 <= i < j < r.len(),
    ensures
        r.len() == ns.len(),
        r[i] != r[j],
        ns[r[i] as int] <= ns[r[j] as int],
        ns[r[i] as int] == ns[r[j] as int] ==> !bytes_lt(
            encode_utf8(ts[r[j] as int]),
            encode_utf8(ts[r[i] as int]),
        ),
        ns[r[i] as int] == ns[r[j] as int] && ts[r[i] as int] == ts[r[j] as int] ==> r[i] < r[j],
{
    assert(!rank_lt(rank_at(ns, ts, r[j] as int), rank_at(ns, ts, r[i] as int)));
}

} // verus!
