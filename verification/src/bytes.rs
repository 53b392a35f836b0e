//! Little-endian numbers in byte strings.
use vstd::prelude::*;

verus! {

/// The `k` low bytes of a number, the lowest first.
pub open spec fn le(v: nat, k: nat) -> Seq<u8>
    decreases k,
{
    if k == 0 {
        Seq::empty()
    } else {
        seq![(v % 256) as u8] + le(v / 256, (k - 1) as nat)
    }
}

/// The number whose bytes these are, the lowest first.
pub open spec fn le_value(s: Seq<u8>) -> nat
    decreases s.len(),
{
    if s.len() == 0 {
        0
    } else {
        s[0] as nat + 256 * le_value(s.skip(1))
    }
}

/// The number of values that `k` bytes can take.
pub open spec fn span(k: nat) -> nat
    decreases k,
{
    if k == 0 {
        1
    } else {
        256 * span((k - 1) as nat)
    }
}

pub proof fn lemma_le_len(v: nat, k: nat)
    ensures
        le(v, k).len() == k,
    decreases k,
{
    if k > 0 {
        lemma_le_len(v / 256, (k - 1) as nat);
    }
}

/// A number that fits is read back from its bytes.
pub proof fn lemma_le_round(v: nat, k: nat)
    requires
        v < span(k),
    ensures
        le_value(le(v, k)) == v,
        le(v, k).len() == k,
    decreases k,
{
    if k > 0 {
        lemma_le_round(v / 256, (k - 1) as nat);
        assert(le(v, k).skip(1) =~= le(v / 256, (k - 1) as nat));
    }
}

pub proof fn lemma_spans()
    ensures
        span(1) == 0x100,
        span(2) == 0x1_0000,
        span(4) == 0x1_0000_0000,
        span(8) == 0x1_0000_0000_0000_0000,
{
    reveal_with_fuel(span, 9);
}

/// Appends the `k` low bytes of a number.
pub fn put_le(b: &mut Vec<u8>, v: u64, k: usize)
    ensures
        final(b)@ == old(b)@ + le(v as nat, k as nat),
{
    let ghost before = b@;
    let mut rest = v;
    let mut i: usize = 0;
    assert(b@ + le(v as nat, k as nat) =~= before + le(v as nat, k as nat));
    while i < k
        invariant
            i <= k,
            b@ + le(rest as nat, (k - i) as nat) == before + le(v as nat, k as nat),
        decreases k - i,
    {
        let ghost now = b@;
        b.push((rest % 256) as u8);
        assert(b@ + le((rest / 256) as nat, (k - i - 1) as nat) =~= now + le(
            rest as nat,
            (k - i) as nat,
        ));
        rest = rest / 256;
        i += 1;
    }
    assert(b@ + le(rest as nat, 0) =~= b@);
}

/// Reads the number in the `k` bytes at `o`.
pub fn get_le(b: &[u8], o: usize, k: usize) -> (r: u64)
    requires
        k <= 8,
        o + k <= b.len(),
    ensures
        r == le_value(b@.subrange(o as int, o + k)),
        r < span(k as nat),
{
    let ghost s = b@.subrange(o as int, o + k);
    let mut v: u64 = 0;
    let mut i = k;
    assert(s.skip(k as int) =~= Seq::empty());
    while i > 0
        invariant
            i <= k <= 8,
            o + k <= b.len(),
            s == b@.subrange(o as int, o + k),
            v == le_value(s.skip(i as int)),
            v < span((k - i) as nat),
        decreases i,
    {
        i -= 1;
        proof {
            assert(s.skip(i as int).skip(1) =~= s.skip(i + 1));
            assert(s.skip(i as int)[0] == b@[o + i]);
            lemma_span_bound((k - i - 1) as nat);
        }
        v = b[o + i] as u64 + 256 * v;
    }
    assert(s.skip(0) =~= s);
    v
}

proof fn lemma_span_bound(k: nat)
    requires
        k < 8,
    ensures
        span(k) <= 0x100_0000_0000_0000,
{
    reveal_with_fuel(span, 9);
}

/// Numbers are written with their lowest byte first.
pub proof fn law_low_byte_first(v: nat, k: nat)
    requires
        k > 0,
    ensures
        le(v, k).len() == k,
        le(v, k)[0] == v % 256,
        le(v, k).skip(1) == le(v / 256, (k - 1) as nat),
{
    lemma_le_len(v, k);
    assert(le(v, k).skip(1) =~= le(v / 256, (k - 1) as nat));
}

} // verus!
