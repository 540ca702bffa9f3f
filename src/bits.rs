use vstd::prelude::*;

verus! {

/// Whether bit `i` of `x` is set.
pub open spec fn has_bit(x: u64, i: nat) -> bool {
    i < 64 && (x >> (i as u64)) & 1u64 == 1u64
}

/// The positions of the set bits of `x`.
pub open spec fn bits_of(x: u64) -> Set<nat> {
    Set::new(|i: nat| has_bit(x, i))
}

/// The positions of the set bits of `x` below `k`.
pub open spec fn bits_below(x: u64, k: nat) -> Set<nat> {
    Set::new(|i: nat| i < k && has_bit(x, i))
}

/// The positions below `n`.
pub open spec fn below(n: nat) -> Set<nat> {
    Set::new(|i: nat| i < n)
}

pub proof fn lemma_and(x: u64, y: u64)
    ensures
        bits_of(x & y) == bits_of(x).intersect(bits_of(y)),
{
    assert forall|i: nat| #[trigger]
        bits_of(x & y).contains(i) == bits_of(x).intersect(bits_of(y)).contains(i) by {
        if i < 64 {
            let s = i as u64;
            assert(((x & y) >> s) & 1 == 1 <==> ((x >> s) & 1 == 1 && (y >> s) & 1 == 1))
                by (bit_vector);
        }
    }
    assert(bits_of(x & y) =~= bits_of(x).intersect(bits_of(y)));
}

pub proof fn lemma_or(x: u64, y: u64)
    ensures
        bits_of(x | y) == bits_of(x).union(bits_of(y)),
{
    assert forall|i: nat| #[trigger]
        bits_of(x | y).contains(i) == bits_of(x).union(bits_of(y)).contains(i) by {
        if i < 64 {
            let s = i as u64;
            assert(((x | y) >> s) & 1 == 1 <==> ((x >> s) & 1 == 1 || (y >> s) & 1 == 1))
                by (bit_vector);
        }
    }
    assert(bits_of(x | y) =~= bits_of(x).union(bits_of(y)));
}

pub proof fn lemma_and_not(x: u64, y: u64)
    ensures
        bits_of(x & !y) == bits_of(x).difference(bits_of(y)),
{
    assert forall|i: nat| #[trigger]
        bits_of(x & !y).contains(i) == bits_of(x).difference(bits_of(y)).contains(i) by {
        if i < 64 {
            let s = i as u64;
            assert(((x & !y) >> s) & 1 == 1 <==> ((x >> s) & 1 == 1 && !((y >> s) & 1 == 1)))
                by (bit_vector);
        }
    }
    assert(bits_of(x & !y) =~= bits_of(x).difference(bits_of(y)));
}

pub proof fn lemma_xor(x: u64, y: u64)
    ensures
        bits_of(x ^ y) == bits_of(x).difference(bits_of(y)).union(
            bits_of(y).difference(bits_of(x)),
        ),
{
    assert forall|i: nat| #[trigger]
        bits_of(x ^ y).contains(i) == bits_of(x).difference(bits_of(y)).union(
            bits_of(y).difference(bits_of(x)),
        ).contains(i) by {
        if i < 64 {
            let s = i as u64;
            assert(((x ^ y) >> s) & 1 == 1 <==> ((x >> s) & 1 == 1) != ((y >> s) & 1 == 1))
                by (bit_vector);
        }
    }
    assert(bits_of(x ^ y) =~= bits_of(x).difference(bits_of(y)).union(
        bits_of(y).difference(bits_of(x)),
    ));
}

pub proof fn lemma_single(n: u64)
    requires
        n < 64,
    ensures
        bits_of(1u64 << n) == set![n as nat],
{
    assert forall|i: nat| #[trigger] bits_of(1u64 << n).contains(i) == set![n as nat].contains(i) by {
        if i < 64 {
            let s = i as u64;
            assert(n < 64 ==> (((1u64 << n) >> s) & 1 == 1 <==> s == n)) by (bit_vector);
        }
    }
    assert(bits_of(1u64 << n) =~= set![n as nat]);
}

pub proof fn lemma_low_mask(n: u64)
    requires
        n < 64,
    ensures
        bits_of(((1u64 << n) - 1) as u64) == below(n as nat),
{
    assert forall|i: nat| #[trigger]
        bits_of(((1u64 << n) - 1) as u64).contains(i) == below(n as nat).contains(i) by {
        if i < 64 {
            let s = i as u64;
            assert(n < 64 && s < 64 ==> (((((1u64 << n) - 1) as u64) >> s) & 1 == 1 <==> s < n))
                by (bit_vector);
        }
    }
    assert(bits_of(((1u64 << n) - 1) as u64) =~= below(n as nat));
}

pub proof fn lemma_full()
    ensures
        bits_of(0xFFFF_FFFF_FFFF_FFFFu64) == below(64),
{
    assert forall|i: nat| #[trigger] bits_of(0xFFFF_FFFF_FFFF_FFFFu64).contains(i) == below(
        64,
    ).contains(i) by {
        if i < 64 {
            let s = i as u64;
            assert(s < 64 ==> (0xFFFF_FFFF_FFFF_FFFFu64 >> s) & 1 == 1) by (bit_vector);
        }
    }
    assert(bits_of(0xFFFF_FFFF_FFFF_FFFFu64) =~= below(64));
}

pub proof fn lemma_zero()
    ensures
        bits_of(0) == Set::<nat>::empty(),
{
    assert forall|i: nat| !#[trigger] bits_of(0).contains(i) by {
        let s = i as u64;
        assert((0u64 >> s) & 1 == 0) by (bit_vector);
    }
    assert(bits_of(0) =~= Set::<nat>::empty());
}

proof fn lemma_nonzero_from(x: u64, k: u64)
    requires
        k < 64,
        x >> k != 0,
    ensures
        exists|i: nat| k <= i && #[trigger] has_bit(x, i),
    decreases 64 - k,
{
    if (x >> k) & 1 == 1 {
        assert(has_bit(x, k as nat));
    } else if k == 63 {
        assert(x >> 63u64 != 0 ==> (x >> 63u64) & 1 == 1) by (bit_vector);
    } else {
        assert(k < 63 && x >> k != 0 && (x >> k) & 1 != 1 ==> x >> ((k + 1) as u64) != 0)
            by (bit_vector);
        lemma_nonzero_from(x, (k + 1) as u64);
    }
}

/// `x` is zero exactly when it has no set bit.
pub proof fn lemma_zero_iff_empty(x: u64)
    ensures
        (x == 0) == (bits_of(x) == Set::<nat>::empty()),
{
    lemma_zero();
    if x != 0 {
        assert(x >> 0u64 == x) by (bit_vector);
        lemma_nonzero_from(x, 0);
        let i = choose|i: nat| 0 <= i && #[trigger] has_bit(x, i);
        assert(bits_of(x).contains(i));
    }
}

pub proof fn lemma_bits_below_step(x: u64, k: nat)
    requires
        k < 64,
    ensures
        has_bit(x, k) ==> bits_below(x, k + 1) == bits_below(x, k).insert(k),
        !has_bit(x, k) ==> bits_below(x, k + 1) == bits_below(x, k),
        !bits_below(x, k).contains(k),
{
    if has_bit(x, k) {
        assert(bits_below(x, k + 1) =~= bits_below(x, k).insert(k));
    } else {
        assert(bits_below(x, k + 1) =~= bits_below(x, k));
    }
}

pub proof fn lemma_bits_below_finite(x: u64, k: nat)
    requires
        k <= 64,
    ensures
        bits_below(x, k).finite(),
        bits_below(x, k).len() <= k,
    decreases k,
{
    if k == 0 {
        assert(bits_below(x, 0) =~= Set::<nat>::empty());
    } else {
        lemma_bits_below_finite(x, (k - 1) as nat);
        lemma_bits_below_step(x, (k - 1) as nat);
    }
}

pub proof fn lemma_bits_finite(x: u64)
    ensures
        bits_of(x).finite(),
        bits_of(x).len() <= 64,
        bits_of(x) == bits_below(x, 64),
{
    lemma_bits_below_finite(x, 64);
    assert(bits_of(x) =~= bits_below(x, 64));
}

/// The number of set bits of `x`.
pub fn count_bits(x: u64) -> (r: u32)
    ensures
        bits_of(x).finite(),
        r == bits_of(x).len(),
        r <= 64,
{
    let mut count: u32 = 0;
    let mut i: u64 = 0;
    proof {
        assert(bits_below(x, 0) =~= Set::<nat>::empty());
    }
    while i < 64
        invariant
            i <= 64,
            bits_below(x, i as nat).finite(),
            count == bits_below(x, i as nat).len(),
            count <= i,
        decreases 64 - i,
    {
        proof {
            lemma_bits_below_step(x, i as nat);
        }
        if (x >> i) & 1 == 1 {
            count = count + 1;
        }
        i = i + 1;
    }
    proof {
        lemma_bits_finite(x);
    }
    count
}

} // verus!
