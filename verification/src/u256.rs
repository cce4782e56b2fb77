//! A 256-bit unsigned integer held as 32 little-endian bytes, with exactly
//! the arithmetic the difficulty rules need: comparison, bit subsumption,
//! multiplication and division by small numbers, and byte shifts.

use vstd::prelude::*;
use vstd::arithmetic::div_mod::{
    lemma_fundamental_div_mod, lemma_fundamental_div_mod_converse, lemma_multiply_divide_le,
    lemma_multiply_divide_lt,
};
use crate::bytes::{
    bytes_eq, clone_bytes, le_val, lemma_le_val_bound, lemma_le_val_cons_at, lemma_le_val_inj,
    lemma_le_val_lt_at, lemma_le_val_snoc, lemma_le_val_split, lemma_le_val_zero,
    lemma_pow256_mono, lemma_pow256_pos, pow256,
};

verus! {

/// Every bit of `s` is also set in `t` (byte-wise), so that `s & t == s`.
pub open spec fn subsumed_by(s: Seq<u8>, t: Seq<u8>) -> bool {
    &&& s.len() == t.len()
    &&& forall|i: int| 0 <= i < s.len() ==> ((s[i] & t[i]) == s[i])
}

pub struct U256 {
    bytes: Vec<u8>,
}

impl View for U256 {
    type V = Seq<u8>;

    closed spec fn view(&self) -> Seq<u8> {
        self.bytes@
    }
}

impl U256 {
    pub open spec fn wf(&self) -> bool {
        self@.len() == 32
    }

    /// The number this value denotes.
    pub open spec fn val(&self) -> nat {
        le_val(self@)
    }

    pub fn zero() -> (r: U256)
        ensures
            r.wf(),
            r.val() == 0,
    {
        let b = zero32();
        proof {
            lemma_le_val_zero(b@);
        }
        U256 { bytes: b }
    }

    pub fn from_le_bytes(b: &Vec<u8>) -> (r: U256)
        requires
            b@.len() == 32,
        ensures
            r.wf(),
            r@ == b@,
    {
        U256 { bytes: clone_bytes(b) }
    }

    pub fn to_le_bytes(&self) -> (r: Vec<u8>)
        ensures
            r@ == self@,
    {
        clone_bytes(&self.bytes)
    }

    pub fn clone_u256(&self) -> (r: U256)
        ensures
            r@ == self@,
    {
        U256 { bytes: clone_bytes(&self.bytes) }
    }

    /// Numeric equality; on well-formed values it coincides with byte equality.
    pub fn eq_val(&self, other: &U256) -> (r: bool)
        requires
            self.wf(),
            other.wf(),
        ensures
            r == (self.val() == other.val()),
    {
        let r = bytes_eq(&self.bytes, &other.bytes);
        proof {
            if self.val() == other.val() {
                lemma_le_val_inj(self@, other@);
                assert(self@ == other@);
            }
        }
        r
    }

    /// Numeric comparison: `self <= other`.
    pub fn le(&self, other: &U256) -> (r: bool)
        requires
            self.wf(),
            other.wf(),
        ensures
            r == (self.val() <= other.val()),
    {
        let mut i: usize = 32;
        while i > 0
            invariant
                self.wf(),
                other.wf(),
                0 <= i <= 32,
                forall|j: int| i <= j < 32 ==> self@[j] == other@[j],
            decreases i,
        {
            i = i - 1;
            let a = self.bytes[i];
            let b = other.bytes[i];
            if a < b {
                proof {
                    lemma_le_val_lt_at(self@, other@, i as int);
                }
                return true;
            }
            if a > b {
                proof {
                    lemma_le_val_lt_at(other@, self@, i as int);
                }
                return false;
            }
            i = i;
        }
        proof {
            assert(self@ =~= other@);
        }
        true
    }

    /// Whether every bit set in `self` is also set in `other`,
    /// i.e. `self & other == self`.
    pub fn and_subsumes(&self, other: &U256) -> (r: bool)
        requires
            self.wf(),
            other.wf(),
        ensures
            r == subsumed_by(self@, other@),
    {
        let mut i: usize = 0;
        while i < 32
            invariant
                self.wf(),
                other.wf(),
                0 <= i <= 32,
                forall|j: int| 0 <= j < i ==> ((self@[j] & other@[j]) == self@[j]),
            decreases 32 - i,
        {
            let a = self.bytes[i];
            let b = other.bytes[i];
            if (a & b) != a {
                return false;
            }
            i += 1;
        }
        true
    }

    /// Quotient by 65536 (a right shift of two bytes).
    pub fn div65536(&self) -> (r: U256)
        requires
            self.wf(),
        ensures
            r.wf(),
            r.val() == self.val() / 65536,
    {
        let mut out: Vec<u8> = Vec::new();
        let mut i: usize = 2;
        while i < 32
            invariant
                self.wf(),
                2 <= i <= 32,
                out@ =~= self@.subrange(2, i as int),
            decreases 32 - i,
        {
            out.push(self.bytes[i]);
            i += 1;
        }
        out.push(0);
        out.push(0);
        proof {
            assert(out@.take(30) =~= self@.skip(2));
            assert(forall|j: int| 30 <= j < 32 ==> out@[j] == 0);
            assert(forall|j: int| 0 <= j < out@.skip(30).len() ==> out@.skip(30)[j] == 0);
            lemma_le_val_zero(out@.skip(30));
            lemma_le_val_split(out@, 30);
            lemma_le_val_split(self@, 2);
            lemma_le_val_bound(self@.take(2));
            assert(pow256(1) == 256 * pow256(0) && pow256(0) == 1);
            assert(pow256(2) == 256 * pow256(1));
            let hi = le_val(self@.skip(2));
            let lo = le_val(self@.take(2));
            assert(le_val(self@) as int == (hi as int) * 65536 + (lo as int)) by (nonlinear_arith)
                requires
                    le_val(self@) == lo + pow256(2) * hi,
                    pow256(2) == 65536,
            ;
            lemma_fundamental_div_mod_converse(le_val(self@) as int, 65536, hi as int, lo as int);
            assert(le_val(out@) == le_val(out@.take(30)) + pow256(30) * 0);
        }
        U256 { bytes: out }
    }

    /// Checked multiplication by a number below 2^32.
    pub fn checked_mul_u64(&self, m: u64) -> (r: Option<U256>)
        requires
            self.wf(),
            m <= 0xFFFF_FFFF,
        ensures
            match r {
                Some(v) => v.wf() && v.val() == self.val() * m,
                None => self.val() * m >= pow256(32),
            },
    {
        let mut out: Vec<u8> = Vec::new();
        let mut carry: u64 = 0;
        let mut i: usize = 0;
        proof {
            assert(out@ =~= Seq::<u8>::empty());
            assert(self@.take(0) =~= Seq::<u8>::empty());
            assert(le_val(Seq::<u8>::empty()) == 0);
            assert(pow256(0) == 1);
            assert(le_val(Seq::<u8>::empty()) * m == 0) by (nonlinear_arith);
        }
        while i < 32
            invariant
                self.wf(),
                0 <= i <= 32,
                out@.len() == i as int,
                carry <= m,
                m <= 0xFFFF_FFFF,
                le_val(out@) + pow256(i as nat) * (carry as nat) == le_val(self@.take(i as int)) * m,
            decreases 32 - i,
        {
            let b64: u64 = self.bytes[i] as u64;
            proof {
                assert((b64 as int) * (m as int) + (carry as int) <= 0xFF_FFFF_FF00
                    ) by (nonlinear_arith)
                    requires
                        b64 <= 255,
                        m <= 0xFFFF_FFFF,
                        carry <= m,
                ;
            }
            let acc: u64 = b64 * m + carry;
            let digit: u8 = (acc % 256) as u8;
            let carry2: u64 = acc / 256;
            proof {
                assert(acc <= 256 * (m as int)) by (nonlinear_arith)
                    requires
                        acc == b64 * m + carry,
                        b64 <= 255,
                        carry <= m,
                        0 <= m,
                ;
                lemma_multiply_divide_le(acc as int, 256, m as int);
                lemma_le_val_snoc(self@, i as int);
                let newseq = out@.push(digit);
                assert(newseq.take(i as int) =~= out@);
                assert(newseq.take(i as int + 1) =~= newseq);
                lemma_le_val_snoc(newseq, i as int);
                lemma_fundamental_div_mod(acc as int, 256);
                let p = pow256(i as nat);
                let lv = le_val(out@);
                let lt = le_val(self@.take(i as int));
                let bi = self@[i as int] as nat;
                assert(pow256((i + 1) as nat) == 256 * p);
                assert(le_val(newseq) + pow256((i + 1) as nat) * (carry2 as nat) == le_val(
                    self@.take(i as int + 1),
                ) * m) by (nonlinear_arith)
                    requires
                        le_val(newseq) == lv + p * (digit as nat),
                        acc == 256 * carry2 + digit,
                        lv + p * (carry as nat) == lt * m,
                        acc == bi * m + carry,
                        pow256((i + 1) as nat) == 256 * p,
                        le_val(self@.take(i as int + 1)) == lt + p * bi,
                        bi == b64,
                ;
            }
            out.push(digit);
            carry = carry2;
            i += 1;
        }
        proof {
            assert(self@.take(32) =~= self@);
        }
        if carry == 0 {
            Some(U256 { bytes: out })
        } else {
            proof {
                lemma_pow256_pos(32);
                let p = pow256(32);
                assert(p * (carry as nat) >= p) by (nonlinear_arith)
                    requires
                        carry >= 1,
                        p >= 1,
                ;
            }
            None
        }
    }

    /// Quotient by a nonzero number below 2^32.
    pub fn div_u64(&self, d: u64) -> (r: U256)
        requires
            self.wf(),
            0 < d,
            d <= 0xFFFF_FFFF,
        ensures
            r.wf(),
            r.val() == self.val() / (d as nat),
    {
        let mut out = zero32();
        let mut rem: u64 = 0;
        let mut j: usize = 32;
        proof {
            assert(self@.skip(32) =~= Seq::<u8>::empty());
            assert(out@.skip(32) =~= Seq::<u8>::empty());
            assert(le_val(Seq::<u8>::empty()) == 0);
            assert((d as nat) * le_val(Seq::<u8>::empty()) == 0) by (nonlinear_arith);
        }
        while j > 0
            invariant
                self.wf(),
                0 <= j <= 32,
                out@.len() == 32,
                rem < d,
                0 < d,
                d <= 0xFFFF_FFFF,
                le_val(self@.skip(j as int)) == (d as nat) * le_val(out@.skip(j as int)) + rem,
            decreases j,
        {
            j = j - 1;
            let cur: u64 = rem * 256 + self.bytes[j] as u64;
            let qj: u64 = cur / d;
            let rem2: u64 = cur % d;
            proof {
                assert(cur < 256 * (d as int));
                lemma_multiply_divide_lt(cur as int, d as int, 256);
                assert(qj < 256);
            }
            let ghost out_old = out@;
            let ghost rem_old = rem;
            out.set(j, qj as u8);
            proof {
                lemma_le_val_cons_at(self@, j as int);
                lemma_le_val_cons_at(out@, j as int);
                assert(out@.skip(j as int + 1) =~= out_old.skip(j as int + 1));
                assert(out@[j as int] == qj as u8);
                lemma_fundamental_div_mod(cur as int, d as int);
                let qd = le_val(out_old.skip(j as int + 1));
                let bj = self@[j as int] as nat;
                assert(le_val(self@.skip(j as int)) == (d as nat) * le_val(out@.skip(j as int))
                    + rem2) by (nonlinear_arith)
                    requires
                        le_val(self@.skip(j as int)) == bj + 256 * le_val(self@.skip(j as int + 1)),
                        le_val(self@.skip(j as int + 1)) == (d as nat) * qd + rem_old,
                        cur == 256 * rem_old + bj,
                        cur == (d as int) * (qj as int) + rem2,
                        le_val(out@.skip(j as int)) == (qj as u8) as nat + 256 * qd,
                        qj < 256,
                ;
            }
            rem = rem2;
        }
        proof {
            assert(self@.skip(0) =~= self@);
            assert(out@.skip(0) =~= out@);
            assert(le_val(self@) as int == (le_val(out@) as int) * (d as int) + (rem as int))
                by (nonlinear_arith)
                requires
                    le_val(self@) == (d as nat) * le_val(out@) + rem,
            ;
            lemma_fundamental_div_mod_converse(
                le_val(self@) as int,
                d as int,
                le_val(out@) as int,
                rem as int,
            );
        }
        U256 { bytes: out }
    }

    /// Checked multiplication by 65536 (a left shift of two bytes).
    pub fn checked_mul65536(&self) -> (r: Option<U256>)
        requires
            self.wf(),
        ensures
            match r {
                Some(v) => v.wf() && v.val() == self.val() * 65536,
                None => self.val() * 65536 >= pow256(32),
            },
    {
        if self.bytes[30] != 0 || self.bytes[31] != 0 {
            proof {
                lemma_le_val_split(self@, 30);
                lemma_le_val_cons_at(self@, 30);
                lemma_le_val_cons_at(self@, 31);
                assert(self@.skip(32) =~= Seq::<u8>::empty());
                assert(le_val(self@.skip(30)) >= 1);
                let p = pow256(30);
                let h = le_val(self@.skip(30));
                assert(p * h >= p) by (nonlinear_arith)
                    requires
                        h >= 1,
                        p >= 0,
                ;
                assert(self.val() >= pow256(30));
                assert(pow256(32) == 256 * pow256(31) && pow256(31) == 256 * pow256(30));
                assert(pow256(32) == 65536 * pow256(30));
            }
            None
        } else {
            let mut out: Vec<u8> = Vec::new();
            out.push(0);
            out.push(0);
            let mut i: usize = 0;
            while i < 30
                invariant
                    self.wf(),
                    0 <= i <= 30,
                    out@.len() == i + 2,
                    out@[0] == 0 && out@[1] == 0,
                    out@.skip(2) =~= self@.take(i as int),
                decreases 30 - i,
            {
                out.push(self.bytes[i]);
                proof {
                    assert(out@.skip(2) =~= self@.take(i as int + 1));
                }
                i += 1;
            }
            proof {
                lemma_le_val_split(out@, 2);
                assert(out@.take(2) =~= seq![0u8, 0u8]);
                assert(forall|j: int| 0 <= j < 2 ==> out@.take(2)[j] == 0);
                lemma_le_val_zero(out@.take(2));
                assert(pow256(1) == 256 * pow256(0) && pow256(0) == 1);
                assert(pow256(2) == 256 * pow256(1));
                lemma_le_val_split(self@, 30);
                assert(forall|j: int|
                    0 <= j < self@.skip(30).len() ==> self@.skip(30)[j] == 0);
                lemma_le_val_zero(self@.skip(30));
                assert(out@.skip(2) =~= self@.take(30));
                assert(le_val(out@) == 65536 * le_val(self@.take(30)));
                assert(self.val() == le_val(self@.take(30)) + pow256(30) * 0);
            }
            Some(U256 { bytes: out })
        }
    }
}

/// A fresh vector of 32 zero bytes.
fn zero32() -> (r: Vec<u8>)
    ensures
        r@.len() == 32,
        forall|j: int| 0 <= j < 32 ==> r@[j] == 0,
{
    let mut b: Vec<u8> = Vec::new();
    let mut i: usize = 0;
    while i < 32
        invariant
            0 <= i <= 32,
            b@.len() == i as int,
            forall|j: int| 0 <= j < i ==> b@[j] == 0,
        decreases 32 - i,
    {
        b.push(0);
        i += 1;
    }
    b
}

/// The 3-byte mantissa of a compact difficulty-bits field
/// (little-endian within the field).
pub open spec fn compact_mantissa(bits: u32) -> nat {
    (bits & 0xFFFFFF) as nat
}

/// The byte shift a compact field's exponent calls for; exponents of three
/// or less degenerate to no shift rather than underflowing.
pub open spec fn compact_shift(bits: u32) -> nat {
    if (bits >> 24) <= 3 {
        0
    } else {
        ((bits >> 24) - 3) as nat
    }
}

/// The target a compact difficulty-bits field encodes:
/// `mantissa * 256^shift`, saturating to zero when that would not fit
/// in 256 bits.
pub open spec fn target_val_of_bits(bits: u32) -> nat {
    if compact_mantissa(bits) * pow256(compact_shift(bits)) < pow256(32) {
        compact_mantissa(bits) * pow256(compact_shift(bits))
    } else {
        0
    }
}

/// The value of a 32-byte sequence that is zero outside the three
/// positions `k`, `k+1`, `k+2`.
proof fn lemma_le_val_window(s: Seq<u8>, k: int)
    requires
        s.len() == 32,
        0 <= k <= 29,
        forall|j: int| 0 <= j < s.len() && !(k <= j < k + 3) ==> s[j] == 0,
    ensures
        le_val(s) == pow256(k as nat) * ((s[k] + 256 * s[k + 1] + 65536 * s[k + 2]) as nat),
{
    lemma_le_val_split(s, k);
    assert(forall|j: int| 0 <= j < s.take(k).len() ==> s.take(k)[j] == 0);
    lemma_le_val_zero(s.take(k));
    lemma_le_val_cons_at(s, k);
    lemma_le_val_cons_at(s, k + 1);
    lemma_le_val_cons_at(s, k + 2);
    assert(forall|j: int| 0 <= j < s.skip(k + 3).len() ==> #[trigger] s.skip(k + 3)[j] == 0);
    lemma_le_val_zero(s.skip(k + 3));
    assert(le_val(s.skip(k)) == s[k] + 256 * (s[k + 1] + 256 * (s[k + 2] + 256 * 0)));
}

/// Decode a compact difficulty-bits field into its target.
pub fn compact_to_target(bits: u32) -> (r: U256)
    ensures
        r.wf(),
        r.val() == target_val_of_bits(bits),
{
    proof {
        assert((bits & 0xFFFFFF) == (bits & 0xFF) + 0x100 * ((bits >> 8) & 0xFF) + 0x10000 * ((
        bits >> 16) & 0xFF)) by (bit_vector);
        assert((bits & 0xFF) < 0x100 && ((bits >> 8) & 0xFF) < 0x100 && ((bits >> 16) & 0xFF)
            < 0x100) by (bit_vector);
        assert((bits & 0xFFFFFF) < 0x1000000) by (bit_vector);
        assert((bits >> 24) < 0x100) by (bit_vector);
    }
    let e: u32 = bits >> 24;
    let m0: u8 = (bits & 0xFF) as u8;
    let m1: u8 = ((bits >> 8) & 0xFF) as u8;
    let m2: u8 = ((bits >> 16) & 0xFF) as u8;
    let k: u32 = if e <= 3 { 0 } else { e - 3 };
    proof {
        assert(k as nat == compact_shift(bits));
    }
    let ghost m = compact_mantissa(bits);
    let mut out = zero32();
    if k <= 29 {
        let ku = k as usize;
        out.set(ku, m0);
        out.set(ku + 1, m1);
        out.set(ku + 2, m2);
        proof {
            lemma_le_val_window(out@, k as int);
            assert(m == (out@[k as int] + 256 * out@[k as int + 1] + 65536 * out@[k as int
                + 2]) as nat);
            assert(pow256(0) == 1 && pow256(1) == 256 * pow256(0) && pow256(2) == 256 * pow256(1)
                && pow256(3) == 256 * pow256(2));
            lemma_pow256_mono(k as nat, 29);
            lemma_pow256_pos(29);
            let p = pow256(k as nat);
            let p29 = pow256(29);
            assert(pow256(32) == 256 * pow256(31) && pow256(31) == 256 * pow256(30) && pow256(30)
                == 256 * p29);
            assert(m * p < pow256(32)) by (nonlinear_arith)
                requires
                    m < 0x1000000,
                    0 <= p <= p29,
                    0 < p29,
                    pow256(32) == 0x1000000 * p29,
            ;
            assert(le_val(out@) == p * m);
            assert(le_val(out@) == m * p) by (nonlinear_arith)
                requires
                    le_val(out@) == p * m,
            ;
        }
        U256 { bytes: out }
    } else if k == 30 && m2 == 0 {
        out.set(30, m0);
        out.set(31, m1);
        proof {
            lemma_le_val_window(out@, 29);
            let p29 = pow256(29);
            assert(le_val(out@) == p29 * ((256 * m0 + 65536 * m1) as nat));
            assert(pow256(30) == 256 * p29);
            assert(m == m0 + 256 * m1);
            assert(p29 * ((256 * m0 + 65536 * m1) as nat) == (256 * p29) * ((m0 + 256
                * m1) as nat)) by (nonlinear_arith);
            assert(le_val(out@) == pow256(30) * m);
            assert(pow256(32) == 65536 * pow256(30)) by {
                assert(pow256(32) == 256 * pow256(31) && pow256(31) == 256 * pow256(30));
            }
            lemma_pow256_pos(30);
            assert(m < 0x10000);
            assert(m * pow256(30) < pow256(32)) by (nonlinear_arith)
                requires
                    m < 0x10000,
                    pow256(30) >= 1,
                    pow256(32) == 0x10000 * pow256(30),
            ;
            assert(le_val(out@) == m * pow256(30)) by (nonlinear_arith)
                requires
                    le_val(out@) == pow256(30) * m,
            ;
        }
        U256 { bytes: out }
    } else if k == 31 && m2 == 0 && m1 == 0 {
        out.set(31, m0);
        proof {
            lemma_le_val_window(out@, 29);
            let p29 = pow256(29);
            assert(le_val(out@) == p29 * ((65536 * m0) as nat));
            assert(pow256(31) == 256 * pow256(30) && pow256(30) == 256 * p29);
            assert(m == m0 as nat);
            assert(p29 * ((65536 * m0) as nat) == (65536 * p29) * (m0 as nat))
                by (nonlinear_arith);
            assert(le_val(out@) == pow256(31) * m);
            assert(pow256(32) == 256 * pow256(31));
            lemma_pow256_pos(31);
            assert(m < 0x100);
            assert(m * pow256(31) < pow256(32)) by (nonlinear_arith)
                requires
                    m < 0x100,
                    pow256(31) >= 1,
                    pow256(32) == 0x100 * pow256(31),
            ;
            assert(le_val(out@) == m * pow256(31)) by (nonlinear_arith)
                requires
                    le_val(out@) == pow256(31) * m,
            ;
        }
        U256 { bytes: out }
    } else {
        // The mantissa cannot be placed: the encoded target overflows 256
        // bits (or is zero anyway), so it saturates to zero.
        proof {
            lemma_le_val_zero(out@);
            let p = pow256(k as nat);
            lemma_pow256_pos(k as nat);
            if k == 30 {
                assert(m2 != 0);
                assert(m >= 0x10000 * m2);
                assert(pow256(32) == 65536 * pow256(30)) by {
                    assert(pow256(32) == 256 * pow256(31) && pow256(31) == 256 * pow256(30));
                }
                assert(m * p >= pow256(32)) by (nonlinear_arith)
                    requires
                        m >= 0x10000,
                        p == pow256(30),
                        pow256(32) == 0x10000 * pow256(30),
                        p >= 1,
                ;
            } else if k == 31 {
                assert(m2 != 0 || m1 != 0);
                assert(m >= 0x100);
                assert(pow256(32) == 256 * pow256(31));
                assert(m * p >= pow256(32)) by (nonlinear_arith)
                    requires
                        m >= 0x100,
                        p == pow256(31),
                        pow256(32) == 0x100 * pow256(31),
                        p >= 1,
                ;
            } else {
                assert(k >= 32);
                lemma_pow256_mono(32, k as nat);
                if m == 0 {
                    assert(m * p == 0) by (nonlinear_arith)
                        requires
                            m == 0,
                    ;
                } else {
                    assert(m * p >= pow256(32)) by (nonlinear_arith)
                        requires
                            m >= 1,
                            p >= pow256(32),
                    ;
                }
            }
        }
        U256 { bytes: out }
    }
}

} // verus!
