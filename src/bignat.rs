//! Non-negative integers held as big-endian byte sequences.
use vstd::prelude::*;

verus! {

/// The number that a big-endian byte sequence denotes.
pub open spec fn be_nat(s: Seq<u8>) -> nat
    decreases s.len(),
{
    if s.len() == 0 {
        0
    } else {
        be_nat(s.drop_last()) * 256 + s.last() as nat
    }
}

/// The shortest big-endian byte sequence of `n`: empty for zero, and
/// otherwise without a leading zero byte.
pub open spec fn nat_to_be(n: nat) -> Seq<u8>
    decreases n,
{
    if n == 0 {
        Seq::empty()
    } else {
        nat_to_be(n / 256).push((n % 256) as u8)
    }
}

/// No leading zero byte.
pub open spec fn is_minimal(s: Seq<u8>) -> bool {
    s.len() == 0 || s[0] != 0
}

pub proof fn lemma_be_nat_of_nat_to_be(n: nat)
    ensures
        be_nat(nat_to_be(n)) == n,
        is_minimal(nat_to_be(n)),
    decreases n,
{
    if n != 0 {
        lemma_be_nat_of_nat_to_be(n / 256);
        let p = nat_to_be(n / 256);
        assert(p.push((n % 256) as u8).drop_last() == p);
    }
}

proof fn lemma_be_nat_positive(s: Seq<u8>)
    requires
        s.len() > 0,
        s[0] != 0,
    ensures
        be_nat(s) > 0,
    decreases s.len(),
{
    if s.len() > 1 {
        lemma_be_nat_positive(s.drop_last());
    }
}

/// A minimal sequence is the canonical encoding of the number it denotes.
pub proof fn lemma_minimal_is_canonical(s: Seq<u8>)
    requires
        is_minimal(s),
    ensures
        s == nat_to_be(be_nat(s)),
    decreases s.len(),
{
    if s.len() > 0 {
        let p = s.drop_last();
        lemma_be_nat_positive(s);
        lemma_minimal_is_canonical(p);
        let n = be_nat(s);
        assert(n / 256 == be_nat(p));
        assert(n % 256 == s.last() as nat);
        assert(s == p.push(s.last()));
    }
}

/// Leading zero bytes do not change the number.
proof fn lemma_leading_zeros(s: Seq<u8>, k: int)
    requires
        0 <= k <= s.len(),
        forall|j: int| 0 <= j < k ==> s[j] == 0,
    ensures
        be_nat(s) == be_nat(s.subrange(k, s.len() as int)),
    decreases s.len(),
{
    if s.len() == k {
        if k > 0 {
            lemma_leading_zeros(s.drop_last(), k - 1);
            assert(s.drop_last().subrange(k - 1, k - 1) =~= Seq::<u8>::empty());
        }
        assert(s.subrange(k, s.len() as int) =~= Seq::<u8>::empty());
    } else {
        lemma_leading_zeros(s.drop_last(), k);
        assert(s.subrange(k, s.len() as int).drop_last() =~= s.drop_last().subrange(
            k,
            s.len() - 1,
        ));
    }
}

/// Extending a prefix by one byte.
pub proof fn lemma_be_nat_prefix(s: Seq<u8>, i: int)
    requires
        0 <= i < s.len(),
    ensures
        be_nat(s.subrange(0, i + 1)) == be_nat(s.subrange(0, i)) * 256 + s[i] as nat,
{
    assert(s.subrange(0, i + 1).drop_last() =~= s.subrange(0, i));
}

/// A number is at least as large as the number of any prefix of its bytes.
pub proof fn lemma_be_nat_prefix_le(s: Seq<u8>, i: int)
    requires
        0 <= i <= s.len(),
    ensures
        be_nat(s.subrange(0, i)) <= be_nat(s),
    decreases s.len() - i,
{
    if i < s.len() {
        lemma_be_nat_prefix(s, i);
        lemma_be_nat_prefix_le(s, i + 1);
    } else {
        assert(s.subrange(0, i) =~= s);
    }
}

/// The canonical encoding of the number that `s` denotes: `s` without its
/// leading zero bytes.
pub fn trim_leading_zeros(s: &[u8]) -> (r: Vec<u8>)
    ensures
        r@ == nat_to_be(be_nat(s@)),
{
    let mut k: usize = 0;
    while k < s.len() && s[k] == 0
        invariant
            k <= s@.len(),
            forall|j: int| 0 <= j < k ==> s@[j] == 0,
        decreases s@.len() - k,
    {
        k = k + 1;
    }
    let mut r: Vec<u8> = Vec::new();
    let mut i: usize = k;
    while i < s.len()
        invariant
            k <= i <= s@.len(),
            r@ == s@.subrange(k as int, i as int),
        decreases s@.len() - i,
    {
        r.push(s[i]);
        i = i + 1;
        assert(r@ =~= s@.subrange(k as int, i as int));
    }
    proof {
        assert(r@ =~= s@.subrange(k as int, s@.len() as int));
        lemma_leading_zeros(s@, k as int);
        lemma_minimal_is_canonical(r@);
    }
    r
}

} // verus!
