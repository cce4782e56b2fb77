//! Little-endian byte strings as numbers: the spec-level value of a byte
//! sequence, powers of 256, and the lemmas the 256-bit target arithmetic
//! rests on.

use vstd::prelude::*;
use vstd::arithmetic::div_mod::{
    lemma_fundamental_div_mod, lemma_fundamental_div_mod_converse, lemma_multiply_divide_lt,
};

verus! {

/// The number that a little-endian byte sequence denotes:
/// byte 0 is least significant.
pub open spec fn le_val(s: Seq<u8>) -> nat
    decreases s.len(),
{
    if s.len() == 0 {
        0
    } else {
        (s[0] + 256 * le_val(s.skip(1))) as nat
    }
}

/// 256 raised to the power `n`.
pub open spec fn pow256(n: nat) -> nat
    decreases n,
{
    if n == 0 {
        1
    } else {
        256 * pow256((n - 1) as nat)
    }
}

pub proof fn lemma_pow256_pos(n: nat)
    ensures
        pow256(n) >= 1,
    decreases n,
{
    if n > 0 {
        lemma_pow256_pos((n - 1) as nat);
    }
}

pub proof fn lemma_pow256_mono(a: nat, b: nat)
    requires
        a <= b,
    ensures
        pow256(a) <= pow256(b),
    decreases b,
{
    if a < b {
        lemma_pow256_mono(a, (b - 1) as nat);
        lemma_pow256_pos((b - 1) as nat);
    }
}

/// A sequence of `n` bytes denotes a number below `256^n`.
pub proof fn lemma_le_val_bound(s: Seq<u8>)
    ensures
        le_val(s) < pow256(s.len()),
    decreases s.len(),
{
    if s.len() > 0 {
        lemma_le_val_bound(s.skip(1));
    }
}

/// An all-zero sequence denotes zero.
pub proof fn lemma_le_val_zero(s: Seq<u8>)
    requires
        forall|i: int| 0 <= i < s.len() ==> s[i] == 0,
    ensures
        le_val(s) == 0,
    decreases s.len(),
{
    if s.len() > 0 {
        assert(forall|i: int| 0 <= i < s.skip(1).len() ==> s.skip(1)[i] == 0);
        lemma_le_val_zero(s.skip(1));
    }
}

/// Splitting a sequence at position `i` splits its value:
/// low part plus `256^i` times the high part.
pub proof fn lemma_le_val_split(s: Seq<u8>, i: int)
    requires
        0 <= i <= s.len(),
    ensures
        le_val(s) == le_val(s.take(i)) + pow256(i as nat) * le_val(s.skip(i)),
    decreases i,
{
    if i == 0 {
        assert(s.take(0) =~= Seq::<u8>::empty());
        assert(s.skip(0) =~= s);
        assert(le_val(Seq::<u8>::empty()) == 0);
        assert(pow256(0) == 1);
        assert(le_val(s) == 0 + 1 * le_val(s));
    } else {
        lemma_le_val_split(s.skip(1), i - 1);
        assert(s.skip(1).take(i - 1) =~= s.take(i).skip(1));
        assert(s.skip(1).skip(i - 1) =~= s.skip(i));
        let a = le_val(s.take(i).skip(1));
        let p = pow256((i - 1) as nat);
        let b = le_val(s.skip(i));
        assert(le_val(s.skip(1)) == a + p * b);
        assert(s.take(i)[0] == s[0]);
        assert(s.take(i).len() == i);
        assert(le_val(s.take(i)) == s.take(i)[0] + 256 * le_val(s.take(i).skip(1)));
        assert(le_val(s.take(i)) == s[0] + 256 * a);
        assert(pow256(i as nat) == 256 * pow256((i - 1) as nat));
        assert(s.len() > 0);
        assert(le_val(s) == s[0] + 256 * le_val(s.skip(1)));
        assert(256 * (a + p * b) == 256 * a + (256 * p) * b) by (nonlinear_arith);
        assert(le_val(s) == (s[0] + 256 * a) + (256 * p) * b);
    }
}

/// Extending a prefix by one byte adds that byte at weight `256^i`.
pub proof fn lemma_le_val_snoc(s: Seq<u8>, i: int)
    requires
        0 <= i < s.len(),
    ensures
        le_val(s.take(i + 1)) == le_val(s.take(i)) + pow256(i as nat) * (s[i] as nat),
{
    lemma_le_val_split(s.take(i + 1), i);
    assert(s.take(i + 1).take(i) =~= s.take(i));
    let single = seq![s[i]];
    assert(s.take(i + 1).skip(i) =~= single);
    assert(single.len() == 1);
    assert(single[0] == s[i]);
    assert(single.skip(1) =~= Seq::<u8>::empty());
    assert(le_val(Seq::<u8>::empty()) == 0);
    assert(le_val(single) == single[0] + 256 * le_val(single.skip(1)));
    assert(le_val(single) == s[i] as nat);
}

/// Peeling one byte off a suffix.
pub proof fn lemma_le_val_cons_at(s: Seq<u8>, j: int)
    requires
        0 <= j < s.len(),
    ensures
        le_val(s.skip(j)) == s[j] + 256 * le_val(s.skip(j + 1)),
{
    assert(s.skip(j)[0] == s[j]);
    assert(s.skip(j).skip(1) =~= s.skip(j + 1));
}

/// Two sequences of equal length denoting the same number are equal.
pub proof fn lemma_le_val_inj(s: Seq<u8>, t: Seq<u8>)
    requires
        s.len() == t.len(),
        le_val(s) == le_val(t),
    ensures
        s =~= t,
    decreases s.len(),
{
    if s.len() > 0 {
        let rs = le_val(s.skip(1));
        let rt = le_val(t.skip(1));
        lemma_fundamental_div_mod_converse(le_val(s) as int, 256, rs as int, s[0] as int);
        lemma_fundamental_div_mod_converse(le_val(t) as int, 256, rt as int, t[0] as int);
        lemma_le_val_inj(s.skip(1), t.skip(1));
        assert forall|i: int| 0 <= i < s.len() implies s[i] == t[i] by {
            if i > 0 {
                assert(s.skip(1)[i - 1] == s[i]);
                assert(t.skip(1)[i - 1] == t[i]);
            }
        }
    }
}

/// If two equal-length sequences agree above position `i` and differ there,
/// the one with the smaller byte at `i` denotes the smaller number.
pub proof fn lemma_le_val_lt_at(s: Seq<u8>, t: Seq<u8>, i: int)
    requires
        s.len() == t.len(),
        0 <= i < s.len(),
        s[i] < t[i],
        forall|j: int| i < j < s.len() ==> s[j] == t[j],
    ensures
        le_val(s) < le_val(t),
{
    lemma_le_val_split(s, i);
    lemma_le_val_split(t, i);
    lemma_le_val_cons_at(s, i);
    lemma_le_val_cons_at(t, i);
    assert(s.skip(i + 1) =~= t.skip(i + 1));
    lemma_le_val_bound(s.take(i));
    lemma_le_val_bound(t.take(i));
    assert(s.take(i).len() == i && t.take(i).len() == i);
    let p = pow256(i as nat);
    let hs = le_val(s.skip(i));
    let ht = le_val(t.skip(i));
    assert(hs + 1 <= ht);
    assert(p * hs + p <= p * ht) by (nonlinear_arith)
        requires hs + 1 <= ht, p >= 0,
    ;
    lemma_pow256_pos(i as nat);
}

/// The little-endian encoding of `n` in `len` bytes.
pub open spec fn nat_to_le(n: nat, len: nat) -> Seq<u8>
    decreases len,
{
    if len == 0 {
        Seq::empty()
    } else {
        seq![(n % 256) as u8] + nat_to_le(n / 256, (len - 1) as nat)
    }
}

pub proof fn lemma_nat_to_le_val(n: nat, len: nat)
    requires
        n < pow256(len),
    ensures
        nat_to_le(n, len).len() == len,
        le_val(nat_to_le(n, len)) == n,
    decreases len,
{
    if len > 0 {
        lemma_multiply_divide_lt(n as int, 256, pow256((len - 1) as nat) as int);
        lemma_nat_to_le_val(n / 256, (len - 1) as nat);
        let s = nat_to_le(n, len);
        assert(s[0] == (n % 256) as u8);
        assert(s.skip(1) =~= nat_to_le(n / 256, (len - 1) as nat));
        lemma_fundamental_div_mod(n as int, 256);
    }
}

/// Every byte sequence is the encoding of its own value.
pub proof fn lemma_le_val_to_le(s: Seq<u8>)
    ensures
        nat_to_le(le_val(s), s.len()) =~= s,
{
    lemma_le_val_bound(s);
    lemma_nat_to_le_val(le_val(s), s.len());
    lemma_le_val_inj(s, nat_to_le(le_val(s), s.len()));
}

/// Byte-wise equality of two byte vectors.
pub fn bytes_eq(a: &Vec<u8>, b: &Vec<u8>) -> (r: bool)
    ensures
        r == (a@ == b@),
{
    if a.len() != b.len() {
        assert(a@ != b@);
        return false;
    }
    let n = a.len();
    let mut i: usize = 0;
    while i < n
        invariant
            n == a.len() == b.len(),
            0 <= i <= n,
            forall|j: int| 0 <= j < i ==> a@[j] == b@[j],
        decreases n - i,
    {
        if a[i] != b[i] {
            return false;
        }
        i += 1;
    }
    proof {
        assert(a@ =~= b@);
    }
    true
}

/// An explicit element-wise copy of a byte vector.
pub fn clone_bytes(v: &Vec<u8>) -> (r: Vec<u8>)
    ensures
        r@ == v@,
{
    let mut out: Vec<u8> = Vec::new();
    let n = v.len();
    let mut i: usize = 0;
    while i < n
        invariant
            n == v.len(),
            0 <= i <= n,
            out@ =~= v@.take(i as int),
        decreases n - i,
    {
        out.push(v[i]);
        i += 1;
    }
    proof {
        assert(out@ =~= v@);
    }
    out
}

} // verus!
