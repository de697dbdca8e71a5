//! Numbers as byte strings, in network order and in little-endian order.
use vstd::prelude::*;

verus! {

/// `v` on `k` bytes, most significant byte first.
pub open spec fn be(v: nat, k: nat) -> Seq<u8>
    decreases k,
{
    if k == 0 {
        Seq::empty()
    } else {
        be(v / 256, (k - 1) as nat).push((v % 256) as u8)
    }
}

/// The number that `s` writes, most significant byte first.
pub open spec fn be_value(s: Seq<u8>) -> nat
    decreases s.len(),
{
    if s.len() == 0 {
        0
    } else {
        be_value(s.drop_last()) * 256 + s.last() as nat
    }
}

/// `v` on `k` bytes, least significant byte first.
pub open spec fn le(v: nat, k: nat) -> Seq<u8>
    decreases k,
{
    if k == 0 {
        Seq::empty()
    } else {
        seq![(v % 256) as u8] + le(v / 256, (k - 1) as nat)
    }
}

/// The number that `s` writes, least significant byte first.
pub open spec fn le_value(s: Seq<u8>) -> nat
    decreases s.len(),
{
    if s.len() == 0 {
        0
    } else {
        s[0] as nat + 256 * le_value(s.skip(1))
    }
}

/// The numbers that `k` bytes can hold are those below this one.
pub open spec fn capacity(k: nat) -> nat
    decreases k,
{
    if k == 0 {
        1
    } else {
        256 * capacity((k - 1) as nat)
    }
}

/// Reading `k` bytes in network order gives back the number written on them.
pub proof fn lemma_be(v: nat, k: nat)
    ensures
        be(v, k).len() == k,
        v < capacity(k) ==> be_value(be(v, k)) == v,
    decreases k,
{
    if k > 0 {
        lemma_be(v / 256, (k - 1) as nat);
        assert(be(v, k).drop_last() =~= be(v / 256, (k - 1) as nat));
    }
}

/// Reading `k` little-endian bytes gives back the number written on them.
pub proof fn lemma_le(v: nat, k: nat)
    ensures
        le(v, k).len() == k,
        v < capacity(k) ==> le_value(le(v, k)) == v,
    decreases k,
{
    if k > 0 {
        lemma_le(v / 256, (k - 1) as nat);
        assert(le(v, k).skip(1) =~= le(v / 256, (k - 1) as nat));
    }
}

/// What a byte string writes fits its length.
pub proof fn lemma_value_bound(s: Seq<u8>)
    ensures
        be_value(s) < capacity(s.len()),
    decreases s.len(),
{
    if s.len() > 0 {
        lemma_value_bound(s.drop_last());
    }
}

/// What a little-endian byte string writes fits its length.
pub proof fn lemma_le_value_bound(s: Seq<u8>)
    ensures
        le_value(s) < capacity(s.len()),
    decreases s.len(),
{
    if s.len() > 0 {
        lemma_le_value_bound(s.skip(1));
    }
}

/// The capacities of the machine integers.
pub proof fn lemma_capacities()
    ensures
        capacity(1) == 0x100,
        capacity(2) == 0x1_0000,
        capacity(4) == 0x1_0000_0000,
        capacity(8) == 0x1_0000_0000_0000_0000,
        capacity(16) == 0x1_0000_0000_0000_0000_0000_0000_0000_0000,
{
    reveal_with_fuel(capacity, 17);
}

/// Capacity grows with the number of bytes.
pub proof fn lemma_capacity_monotone(j: nat, k: nat)
    requires
        j <= k,
    ensures
        capacity(j) <= capacity(k),
    decreases k,
{
    if j < k {
        lemma_capacity_monotone(j, (k - 1) as nat);
    }
}

/// Appends `v` on `k` bytes, most significant byte first.
pub fn push_be(out: &mut Vec<u8>, v: u128, k: usize)
    ensures
        final(out)@ == old(out)@ + be(v as nat, k as nat),
    decreases k,
{
    if k > 0 {
        push_be(out, v / 256, k - 1);
        out.push((v % 256) as u8);
    }
    assert(out@ =~= old(out)@ + be(v as nat, k as nat));
}

/// Appends `v` on `k` bytes, least significant byte first.
pub fn push_le(out: &mut Vec<u8>, v: u128, k: usize)
    ensures
        final(out)@ == old(out)@ + le(v as nat, k as nat),
    decreases k,
{
    if k > 0 {
        let ghost before = out@;
        out.push((v % 256) as u8);
        push_le(out, v / 256, k - 1);
        assert(out@ =~= before + (seq![(v % 256) as u8] + le((v / 256) as nat, (k - 1) as nat)));
    } else {
        assert(out@ =~= old(out)@ + le(v as nat, k as nat));
    }
}

/// Reads the `k` bytes of `s` from `at` on, most significant byte first.
pub fn read_be(s: &[u8], at: usize, k: usize) -> (r: u64)
    requires
        k <= 8,
        at + k <= s@.len(),
    ensures
        r == be_value(s@.subrange(at as int, at + k)),
{
    let mut v: u64 = 0;
    for i in 0..k
        invariant
            k <= 8,
            at + k <= s.len(),
            v == be_value(s@.subrange(at as int, at + i)),
    {
        proof {
            let t = s@.subrange(at as int, at + i);
            let u = s@.subrange(at as int, at + i + 1);
            assert(u.drop_last() =~= t);
            lemma_value_bound(u);
            lemma_capacity_monotone(u.len(), 8);
            lemma_capacities();
        }
        v = v * 256 + s[at + i] as u64;
    }
    v
}

/// Reads the `k` bytes of `s` from `at` on, least significant byte first.
pub fn read_le(s: &[u8], at: usize, k: usize) -> (r: u64)
    requires
        k <= 8,
        at + k <= s@.len(),
    ensures
        r == le_value(s@.subrange(at as int, at + k)),
{
    let mut v: u64 = 0;
    let mut i: usize = k;
    while i > 0
        invariant
            k <= 8,
            i <= k,
            at + k <= s.len(),
            v == le_value(s@.subrange(at + i, at + k)),
        decreases i,
    {
        i -= 1;
        proof {
            let t = s@.subrange(at + i + 1, at + k);
            let u = s@.subrange(at + i, at + k);
            assert(u.skip(1) =~= t);
            lemma_le_value_bound(u);
            lemma_capacity_monotone(u.len(), 8);
            lemma_capacities();
        }
        v = v * 256 + s[at + i] as u64;
    }
    v
}

/// Appends the bytes of `more`.
pub fn push_all(out: &mut Vec<u8>, more: &[u8])
    ensures
        final(out)@ == old(out)@ + more@,
{
    let ghost before = out@;
    for i in 0..more.len()
        invariant
            out@ == before + more@.take(i as int),
    {
        out.push(more[i]);
        assert(out@ =~= before + more@.take(i + 1));
    }
    assert(more@.take(more@.len() as int) =~= more@);
}

/// A byte string is what its number is written as on as many bytes.
pub proof fn lemma_be_unique(s: Seq<u8>)
    ensures
        be(be_value(s), s.len()) == s,
    decreases s.len(),
{
    if s.len() > 0 {
        lemma_be_unique(s.drop_last());
        let v = be_value(s.drop_last());
        assert((v * 256 + s.last() as nat) / 256 == v);
        assert(be(be_value(s), s.len()) =~= s);
    } else {
        assert(be(be_value(s), s.len()) =~= s);
    }
}

/// The value of a byte string in network order goes by places: a byte in front of `k` others
/// counts 256 to the power of `k` times.
pub proof fn law_first_byte_counts_most(b: u8, s: Seq<u8>)
    ensures
        be_value(seq![b] + s) == b * vstd::arithmetic::power::pow(256, s.len()) + be_value(s),
    decreases s.len(),
{
    vstd::arithmetic::power::lemma_pow0(256);
    let t = seq![b] + s;
    if s.len() == 0 {
        assert(t.drop_last() =~= Seq::empty());
        reveal_with_fuel(be_value, 2);
    } else {
        law_first_byte_counts_most(b, s.drop_last());
        assert(t.drop_last() =~= seq![b] + s.drop_last());
        reveal(vstd::arithmetic::power::pow);
        let p = vstd::arithmetic::power::pow(256, (s.len() - 1) as nat);
        assert((b * p) * 256 == b * (256 * p)) by (nonlinear_arith);
    }
}

/// Little-endian order is network order backwards.
pub proof fn law_little_endian_is_backwards(s: Seq<u8>)
    ensures
        le_value(s) == be_value(s.reverse()),
    decreases s.len(),
{
    if s.len() > 0 {
        law_little_endian_is_backwards(s.skip(1));
        assert(s.reverse().drop_last() =~= s.skip(1).reverse());
        assert(s.reverse().last() == s[0]);
    }
}

/// Writing in either order gives the same bytes, forwards and backwards.
pub proof fn law_both_orders_write_the_same_bytes(v: nat, k: nat)
    ensures
        le(v, k) == be(v, k).reverse(),
    decreases k,
{
    if k > 0 {
        law_both_orders_write_the_same_bytes(v / 256, (k - 1) as nat);
        lemma_be(v, k);
        lemma_be(v / 256, (k - 1) as nat);
        lemma_le(v, k);
    }
    assert(le(v, k) =~= be(v, k).reverse());
}

} // verus!
