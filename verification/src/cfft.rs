//! Complex FFT context: size validation and the bit-reversal machinery.
//!
//! The context owns the bit-reversal table, fully determined by the size and
//! proved equal to the classical bit-reversed ordering. The permutation it
//! drives is verified for buffers of any element type; the staged butterfly
//! arithmetic that follows it is floating-point work done by the caller.

use crate::Error;
use vstd::arithmetic::div_mod::{
    lemma_div_denominator, lemma_fundamental_div_mod, lemma_fundamental_div_mod_converse,
};
use vstd::arithmetic::power2::{
    lemma2_to64, lemma_pow2_pos, lemma_pow2_strictly_increases, lemma_pow2_unfold, pow2,
};
use vstd::prelude::*;

verus! {

pub const CFFT_MIN_SIZE: usize = 4;

pub const CFFT_MAX_SIZE: usize = 65536;

/// The sizes the complex engine accepts: powers of two from 4 to 65536.
pub open spec fn is_valid_size(n: nat) -> bool {
    exists|e: nat| 2 <= e <= 16 && n == #[trigger] pow2(e)
}

/// Base-two logarithm, rounded down.
pub open spec fn log2(n: nat) -> nat
    decreases n,
{
    if n <= 1 {
        0
    } else {
        (1 + log2(n / 2)) as nat
    }
}

/// The value of `k` with its low `bits` bits written in the opposite order.
pub open spec fn rev_bits(k: nat, bits: nat) -> nat
    decreases bits,
{
    if bits == 0 {
        0
    } else {
        (k % 2) * pow2((bits - 1) as nat) + rev_bits(k / 2, (bits - 1) as nat)
    }
}

/// One increment of a counter that carries from the top bit downward: the
/// running-counter update of the classical bit-reversal generation.
pub open spec fn carry_down(j: nat, m: nat) -> nat
    decreases m,
{
    if m >= 2 && j > m {
        carry_down((j - m) as nat, m / 2)
    } else {
        j + m
    }
}

/// The bit-reversal table of a context of the given size: entry `k` holds the
/// buffer offset pair `k` must be swapped with, or 0 where no swap is due.
pub open spec fn bit_rev_table(size: nat) -> Seq<usize> {
    Seq::new(
        size,
        |k: int|
            {
                let r = rev_bits(k as nat, log2(size));
                if r > k {
                    (2 * r) as usize
                } else {
                    0usize
                }
            },
    )
}

/// An interleaved complex buffer after the bit-reversal permutation: pair `p`
/// holds what pair `rev_bits(p)` held before.
pub open spec fn bit_rev_perm<T>(s: Seq<T>, size: nat) -> Seq<T> {
    Seq::new(s.len(), |i: int| s[2 * (rev_bits((i / 2) as nat, log2(size)) as int) + i % 2])
}

pub proof fn lemma_log2_pow2(e: nat)
    ensures
        log2(pow2(e)) == e,
    decreases e,
{
    if e == 0 {
        lemma2_to64();
    } else {
        lemma_pow2_unfold(e);
        lemma_pow2_pos((e - 1) as nat);
        lemma_log2_pow2((e - 1) as nat);
        assert(pow2(e) / 2 == pow2((e - 1) as nat));
    }
}

pub proof fn lemma_valid_size_bounds(n: nat)
    requires
        is_valid_size(n),
    ensures
        4 <= n <= 65536,
        n == pow2(log2(n)),
        2 <= log2(n) <= 16,
{
    let e = choose|e: nat| 2 <= e <= 16 && n == #[trigger] pow2(e);
    lemma2_to64();
    if e > 2 {
        lemma_pow2_strictly_increases(2, e);
    }
    if e < 16 {
        lemma_pow2_strictly_increases(e, 16);
    }
    lemma_log2_pow2(e);
}

pub proof fn lemma_rev_zero(bits: nat)
    ensures
        rev_bits(0, bits) == 0,
    decreases bits,
{
    if bits > 0 {
        lemma_rev_zero((bits - 1) as nat);
        lemma_rev_unfold(0, bits);
    } else {
        assert(rev_bits(0, 0) == 0);
    }
}

/// One unfolding of `rev_bits`, with the low bit of `k` resolved.
proof fn lemma_rev_unfold(k: nat, bits: nat)
    requires
        1 <= bits,
    ensures
        rev_bits(k, bits) == (k % 2) * pow2((bits - 1) as nat) + rev_bits(k / 2, (bits - 1) as nat),
        k % 2 == 0 ==> rev_bits(k, bits) == rev_bits(k / 2, (bits - 1) as nat),
        k % 2 == 1 ==> rev_bits(k, bits) == pow2((bits - 1) as nat) + rev_bits(
            k / 2,
            (bits - 1) as nat,
        ),
{
    assert(rev_bits(k, bits) == (k % 2) * pow2((bits - 1) as nat) + rev_bits(
        k / 2,
        (bits - 1) as nat,
    ));
    if k % 2 == 0 {
        assert((k % 2) * pow2((bits - 1) as nat) == 0) by (nonlinear_arith)
            requires
                k % 2 == 0,
        ;
    } else {
        assert((k % 2) * pow2((bits - 1) as nat) == pow2((bits - 1) as nat)) by (nonlinear_arith)
            requires
                k % 2 == 1,
        ;
    }
}

pub proof fn lemma_rev_bound(k: nat, bits: nat)
    ensures
        rev_bits(k, bits) < pow2(bits),
    decreases bits,
{
    if bits == 0 {
        lemma2_to64();
    } else {
        let b1 = (bits - 1) as nat;
        lemma_rev_bound(k / 2, b1);
        lemma_pow2_unfold(bits);
        lemma_rev_unfold(k, bits);
    }
}

/// Splitting an even quantity plus a remainder under division by two.
pub(crate) proof fn lemma_div2_split(m: int, s: int)
    requires
        m >= 0,
        s >= 0,
    ensures
        (2 * m + s) / 2 == m + s / 2,
        (2 * m + s) % 2 == s % 2,
{
    lemma_fundamental_div_mod(s, 2);
    lemma_fundamental_div_mod_converse(2 * m + s, 2, m + s / 2, s % 2);
}

/// The low bit and the remaining bits of a reversed value, in terms of the
/// top bit and the remaining bits of the original.
proof fn lemma_rev_decompose(k: nat, bits: nat)
    requires
        1 <= bits,
        k < pow2(bits),
    ensures
        rev_bits(k, bits) % 2 == k / pow2((bits - 1) as nat),
        rev_bits(k, bits) / 2 == rev_bits(k % pow2((bits - 1) as nat), (bits - 1) as nat),
    decreases bits,
{
    let b1 = (bits - 1) as nat;
    let p1 = pow2(b1);
    let r = rev_bits(k / 2, b1);
    lemma_rev_bound(k / 2, b1);
    lemma_pow2_pos(b1);
    if bits == 1 {
        lemma2_to64();
        assert(p1 == 1);
        lemma_rev_unfold(k, bits);
        lemma_rev_zero(0);
        assert(k < 2);
        assert(k % 1 == 0 && k / 1 == k) by {
            lemma_fundamental_div_mod_converse(k as int, 1, k as int, 0);
        }
    } else {
        let b2 = (b1 - 1) as nat;
        let p2 = pow2(b2);
        lemma_pow2_unfold(b1);
        lemma_pow2_unfold(bits);
        lemma_pow2_pos(b2);
        assert(p1 == 2 * p2);
        assert(k / 2 < p1) by {
            lemma_fundamental_div_mod(k as int, 2);
        }
        lemma_rev_decompose(k / 2, b1);
        lemma_rev_unfold(k, bits);
        // Goal (a): rev % 2 == k / p1.
        assert(rev_bits(k, bits) % 2 == r % 2) by {
            if k % 2 != 0 {
                lemma_div2_split(p2 as int, r as int);
            }
        }
        assert((k as int / 2) / (p2 as int) == k as int / (2 * p2 as int)) by {
            lemma_div_denominator(k as int, 2, p2 as int);
        }
        assert(rev_bits(k, bits) % 2 == k / p1);
        // Goal (b): rev / 2 == rev_bits(k % p1, b1).
        assert(rev_bits(k, bits) / 2 == (k % 2) * p2 + rev_bits((k / 2) % p2, b2)) by {
            if k % 2 == 0 {
                assert((k % 2) * p2 == 0) by (nonlinear_arith)
                    requires
                        k % 2 == 0,
                ;
            } else {
                assert(rev_bits(k, bits) == 2 * p2 + r);
                assert((k % 2) * p2 == p2) by (nonlinear_arith)
                    requires
                        k % 2 == 1,
                ;
                lemma_div2_split(p2 as int, r as int);
            }
        }
        let s = k % p1;
        assert(k == p1 * (k / p1) + s) by {
            lemma_fundamental_div_mod(k as int, p1 as int);
        }
        assert(s < p1) by {
            vstd::arithmetic::div_mod::lemma_mod_division_less_than_divisor(k as int, p1 as int);
        }
        assert(s % 2 == k % 2 && s / 2 == k / 2 - (k / p1) * p2) by {
            assert(k == 2 * ((k / p1) * p2) + s);
            lemma_div2_split((k as int / p1 as int) * p2 as int, s as int);
        }
        assert((k / 2) % p2 == s / 2) by {
            assert(k / p1 < 2) by {
                vstd::arithmetic::div_mod::lemma_multiply_divide_lt(k as int, p1 as int, 2);
            }
            assert(k / 2 == (k / p1) * p2 + s / 2);
            assert(s / 2 < p2) by {
                lemma_fundamental_div_mod(s as int, 2);
            }
            lemma_fundamental_div_mod_converse(
                k as int / 2,
                p2 as int,
                k as int / p1 as int,
                s as int / 2,
            );
        }
        lemma_rev_unfold(s, b1);
        assert(rev_bits(s, b1) == (s % 2) * p2 + rev_bits(s / 2, b2));
        assert((s % 2) * p2 == (k % 2) * p2);
    }
}

pub proof fn lemma_rev_involutive(k: nat, bits: nat)
    requires
        k < pow2(bits),
    ensures
        rev_bits(rev_bits(k, bits), bits) == k,
    decreases bits,
{
    if bits == 0 {
        lemma2_to64();
    } else {
        let b1 = (bits - 1) as nat;
        let p1 = pow2(b1);
        let r = rev_bits(k, bits);
        lemma_pow2_pos(b1);
        lemma_rev_decompose(k, bits);
        assert(k % p1 < p1) by {
            vstd::arithmetic::div_mod::lemma_mod_division_less_than_divisor(k as int, p1 as int);
        }
        lemma_rev_involutive(k % p1, b1);
        lemma_rev_unfold(r, bits);
        assert(rev_bits(r, bits) == (r % 2) * p1 + rev_bits(r / 2, b1));
        assert((r % 2) * p1 == (k / p1) * p1);
        assert(rev_bits(r, bits) == (k / p1) * p1 + k % p1);
        assert(k == p1 * (k / p1) + k % p1) by {
            lemma_fundamental_div_mod(k as int, p1 as int);
        }
    }
}

/// The carrying counter update takes the reversal of `k` to the reversal of
/// `k + 1`: one step of the incremental table generation.
pub proof fn lemma_carry_rev_succ(k: nat, bits: nat)
    requires
        1 <= bits,
        k + 1 < pow2(bits),
    ensures
        carry_down(2 * rev_bits(k, bits) + 1, pow2(bits)) == 2 * rev_bits(k + 1, bits) + 1,
    decreases bits,
{
    let b1 = (bits - 1) as nat;
    let p1 = pow2(b1);
    let p = pow2(bits);
    lemma_pow2_unfold(bits);
    lemma_pow2_pos(b1);
    let r2 = rev_bits(k / 2, b1);
    lemma_rev_bound(k / 2, b1);
    lemma_rev_unfold(k, bits);
    lemma_rev_unfold(k + 1, bits);
    if k % 2 == 0 {
        assert(rev_bits(k, bits) == r2);
        let j = 2 * r2 + 1;
        assert(j < p);
        assert(carry_down(j, p) == j + p);
        assert((k + 1) % 2 == 1 && (k + 1) / 2 == k / 2) by {
            lemma_fundamental_div_mod(k as int, 2);
            lemma_fundamental_div_mod_converse(k as int + 1, 2, k as int / 2, 1);
        }
        assert(rev_bits(k + 1, bits) == p1 + r2);
    } else {
        assert(k == 2 * (k / 2) + 1) by {
            lemma_fundamental_div_mod(k as int, 2);
        }
        assert(bits >= 2) by {
            if bits == 1 {
                lemma2_to64();
            }
        }
        assert(rev_bits(k, bits) == p1 + r2);
        let j = 2 * (p1 + r2) + 1;
        assert(j > p && p >= 2);
        assert(carry_down(j, p) == carry_down((j - p) as nat, p / 2));
        assert(p / 2 == p1) by {
            lemma_div2_split(p1 as int, 0);
        }
        assert(j - p == 2 * r2 + 1);
        assert((k + 1) % 2 == 0 && (k + 1) / 2 == k / 2 + 1) by {
            lemma_fundamental_div_mod_converse(k as int + 1, 2, k as int / 2 + 1, 0);
        }
        assert(k / 2 + 1 < p1);
        lemma_carry_rev_succ(k / 2, b1);
        assert(rev_bits(k + 1, bits) == rev_bits(k / 2 + 1, b1));
    }
}

/// Validates a complex-transform size: a power of two in
/// `[CFFT_MIN_SIZE, CFFT_MAX_SIZE]`.
pub fn validate_size(size: usize) -> (r: bool)
    ensures
        r == is_valid_size(size as nat),
{
    let mut i: usize = CFFT_MIN_SIZE;
    let ghost mut e: nat = 2;
    proof {
        lemma2_to64();
    }
    while i <= CFFT_MAX_SIZE
        invariant
            i == pow2(e),
            2 <= e,
            4 <= i <= 2 * 65536,
            forall|e2: nat| 2 <= e2 < e ==> #[trigger] pow2(e2) != size as nat,
        decreases 2 * 65536 - i,
    {
        if i == size {
            proof {
                lemma2_to64();
                if e > 16 {
                    lemma_pow2_strictly_increases(16, e);
                }
                assert(2 <= e <= 16 && size as nat == pow2(e));
            }
            return true;
        }
        i = i * 2;
        proof {
            lemma_pow2_unfold(e + 1);
            e = e + 1;
        }
    }
    proof {
        lemma2_to64();
        assert forall|e2: nat| 2 <= e2 <= 16 implies #[trigger] pow2(e2) != size as nat by {
            if e2 >= e {
                if e2 > e {
                    lemma_pow2_strictly_increases(e, e2);
                }
                if e2 < 16 {
                    lemma_pow2_strictly_increases(e2, 16);
                }
                assert(false);
            }
        }
    }
    false
}

/// The bit-reversal permutation undoes itself: applying it twice to a buffer
/// of matching length restores the buffer exactly, because the underlying
/// index map is an involution.
pub proof fn lemma_bit_rev_perm_involutive<T>(s: Seq<T>, size: nat)
    requires
        is_valid_size(size),
        s.len() == 2 * size,
    ensures
        bit_rev_perm(bit_rev_perm(s, size), size) == s,
{
    let l = log2(size);
    lemma_valid_size_bounds(size);
    let b = bit_rev_perm(s, size);
    assert forall|i: int| 0 <= i < s.len() implies bit_rev_perm(b, size)[i] == s[i] by {
        let p = i / 2;
        lemma_fundamental_div_mod(i, 2);
        lemma_rev_bound(p as nat, l);
        lemma_rev_involutive(p as nat, l);
        let q = rev_bits(p as nat, l) as int;
        let j = 2 * q + i % 2;
        lemma_div2_split(q, i % 2);
        assert(bit_rev_perm(b, size)[i] == b[j]);
        assert(b[j] == s[2 * (rev_bits((j / 2) as nat, l) as int) + j % 2]);
    }
    assert(bit_rev_perm(bit_rev_perm(s, size), size) =~= s);
}

/// The state of pair `p` while the permutation has processed the pairs below
/// `k`: already exchanged where its swap partner has been reached, untouched
/// otherwise.
spec fn perm_pair_ok<T>(cur: Seq<T>, orig: Seq<T>, l: nat, k: int, p: int) -> bool {
    let rp = rev_bits(p as nat, l) as int;
    if rp != p && (p < k || rp < k) {
        cur[2 * p] == orig[2 * rp] && cur[2 * p + 1] == orig[2 * rp + 1]
    } else {
        cur[2 * p] == orig[2 * p] && cur[2 * p + 1] == orig[2 * p + 1]
    }
}

/// Builds the bit-reversal table by the classical incremental generation: a
/// running counter `j` is advanced by carrying from the top bit downward,
/// which walks the pair positions in bit-reversed order without manipulating
/// the bits of the index itself.
fn gen_bit_rev_tbl(size: usize) -> (r: Vec<usize>)
    requires
        is_valid_size(size as nat),
    ensures
        r@ == bit_rev_table(size as nat),
{
    let ghost l = log2(size as nat);
    proof {
        lemma_valid_size_bounds(size as nat);
        lemma_rev_zero(l);
    }
    let mut tbl: Vec<usize> = Vec::new();
    let mut i: usize = 1;
    let mut j: usize = 1;
    let mut k: usize = 0;
    while k < size
        invariant
            size as nat == pow2(l),
            l == log2(size as nat),
            2 <= l <= 16,
            4 <= size <= 65536,
            k <= size,
            i == 2 * k + 1,
            tbl@.len() == k,
            forall|t: int| 0 <= t < k ==> tbl@[t] == bit_rev_table(size as nat)[t],
            k < size ==> j == 2 * rev_bits(k as nat, l) + 1,
            1 <= j <= 2 * size,
        decreases size - k,
    {
        proof {
            lemma_rev_bound(k as nat, l);
        }
        if j > i {
            tbl.push(j - 1);
        } else {
            tbl.push(0);
        }
        proof {
            assert(tbl@[k as int] == bit_rev_table(size as nat)[k as int]);
        }
        let ghost j0 = j as nat;
        let mut m: usize = size;
        while m >= 2 && j > m
            invariant
                1 <= m <= size,
                1 <= j <= 2 * size - 1,
                size <= 65536,
                carry_down(j as nat, m as nat) == carry_down(j0, size as nat),
            decreases m,
        {
            j = j - m;
            m = m / 2;
        }
        j = j + m;
        proof {
            assert(j == carry_down(j0, size as nat));
            if k + 1 < size {
                lemma_carry_rev_succ(k as nat, l);
            }
        }
        i = i + 2;
        k = k + 1;
    }
    proof {
        assert(tbl@ =~= bit_rev_table(size as nat));
    }
    tbl
}

/// A complex FFT context: the transform size and the bit-reversal table
/// derived from it, immutable once built.
pub struct Ctx {
    size: usize,
    bit_rev_tbl: Vec<usize>,
}

impl Ctx {
    pub closed spec fn spec_size(&self) -> nat {
        self.size as nat
    }

    pub closed spec fn tbl(&self) -> Seq<usize> {
        self.bit_rev_tbl@
    }

    /// A well-formed context: a valid size, and exactly the bit-reversal
    /// table of that size.
    pub open spec fn wf(&self) -> bool {
        &&& is_valid_size(self.spec_size())
        &&& self.tbl() == bit_rev_table(self.spec_size())
    }

    /// Builds a context for the given size, or reports `InvalidSize` exactly
    /// when the size is not a power of two in `[CFFT_MIN_SIZE, CFFT_MAX_SIZE]`.
    pub fn new(size: usize) -> (r: Result<Ctx, Error>)
        ensures
            r is Ok <==> is_valid_size(size as nat),
            r matches Ok(ctx) ==> ctx.wf() && ctx.spec_size() == size as nat,
            r matches Err(e) ==> e == Error::InvalidSize,
    {
        if !validate_size(size) {
            return Err(Error::InvalidSize);
        }
        let bit_rev_tbl = gen_bit_rev_tbl(size);
        Ok(Ctx { size, bit_rev_tbl })
    }

    pub fn size(&self) -> (r: usize)
        ensures
            r as nat == self.spec_size(),
    {
        self.size
    }

    /// Applies the bit-reversal permutation in place to an interleaved
    /// complex buffer of matching length: afterwards pair `p` holds what pair
    /// `rev_bits(p)` held before. This is the opening step of the transform;
    /// the staged butterflies that follow operate on the reordered buffer.
    pub fn permute<T: Copy>(&self, x: &mut Vec<T>)
        requires
            self.wf(),
            old(x)@.len() == 2 * self.spec_size(),
        ensures
            final(x)@ == bit_rev_perm(old(x)@, self.spec_size()),
    {
        let ghost orig = x@;
        let ghost sz = self.spec_size();
        let ghost l = log2(sz);
        proof {
            lemma_valid_size_bounds(sz);
        }
        let n = self.size * 2;
        let mut i: usize = 0;
        while i < n
            invariant
                self.wf(),
                sz == self.spec_size(),
                l == log2(sz),
                sz == pow2(l),
                4 <= sz <= 65536,
                x@.len() == orig.len(),
                orig.len() == 2 * sz,
                n == 2 * sz,
                i % 2 == 0,
                i <= n,
                forall|p: int| 0 <= p < sz ==> #[trigger] perm_pair_ok(x@, orig, l, i as int / 2, p),
            decreases n - i,
        {
            let ghost k = (i / 2) as int;
            let ghost rk = rev_bits(k as nat, l) as int;
            proof {
                lemma_rev_bound(k as nat, l);
                lemma_rev_involutive(k as nat, l);
            }
            let bri = self.bit_rev_tbl[i / 2];
            let ghost old_x = x@;
            if bri != 0 {
                proof {
                    assert(bri == 2 * rk && rk > k);
                }
                let xt = x[bri];
                x[bri] = x[i];
                x[i] = xt;
                let xt = x[bri + 1];
                x[bri + 1] = x[i + 1];
                x[i + 1] = xt;
                proof {
                    assert forall|p: int| 0 <= p < sz implies #[trigger] perm_pair_ok(
                        x@,
                        orig,
                        l,
                        k + 1,
                        p,
                    ) by {
                        lemma_rev_involutive(p as nat, l);
                        lemma_rev_bound(p as nat, l);
                        assert(perm_pair_ok(old_x, orig, l, k, p));
                        assert(perm_pair_ok(old_x, orig, l, k, k));
                        assert(perm_pair_ok(old_x, orig, l, k, rk));
                    }
                }
            } else {
                proof {
                    assert(rk <= k);
                    assert forall|p: int| 0 <= p < sz implies #[trigger] perm_pair_ok(
                        x@,
                        orig,
                        l,
                        k + 1,
                        p,
                    ) by {
                        lemma_rev_involutive(p as nat, l);
                        lemma_rev_bound(p as nat, l);
                        assert(perm_pair_ok(x@, orig, l, k, p));
                    }
                }
            }
            i = i + 2;
        }
        proof {
            assert(i as int / 2 == sz as int) by {
                lemma_div2_split(sz as int, 0);
            }
            assert forall|idx: int| 0 <= idx < orig.len() implies x@[idx] == bit_rev_perm(
                orig,
                sz,
            )[idx] by {
                let p = idx / 2;
                lemma_fundamental_div_mod(idx, 2);
                lemma_rev_bound(p as nat, l);
                assert(perm_pair_ok(x@, orig, l, sz as int, p));
            }
            assert(x@ =~= bit_rev_perm(orig, sz));
        }
    }

    /// The buffer offset pair `k` is swapped with during the permutation,
    /// 0 meaning that no swap is due at `k`.
    pub fn bit_rev_at(&self, k: usize) -> (r: usize)
        requires
            self.wf(),
            k < self.spec_size(),
        ensures
            r == bit_rev_table(self.spec_size())[k as int],
    {
        self.bit_rev_tbl[k]
    }
}

} // verus!
