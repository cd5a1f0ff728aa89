//! Real FFT context: the packed-spectrum layout and its exact rearrangements.
//!
//! A real signal of length N is transformed through an internal complex
//! context of size N/2; the spectrum is stored packed into N values, with the
//! purely real DC and Nyquist bins sharing the first complex slot. Packing
//! and unpacking are pure rearrangements of stored values, so they are
//! verified here bit for bit, over the `u64` patterns of the samples; the
//! mirrored imaginary parts are negated by flipping the IEEE-754 sign bit,
//! which is exactly the negation of the stored double-width value.

use crate::cfft;
use crate::cfft::{is_valid_size, lemma_div2_split};
use crate::Error;
use vstd::prelude::*;

verus! {

/// Sign bit of a stored IEEE-754 double-width sample.
pub const SIGN_MASK: u64 = 0x8000_0000_0000_0000;

/// The sizes the real engine accepts: twice a valid complex size.
pub open spec fn is_valid_rfft_size(n: nat) -> bool {
    n % 2 == 0 && is_valid_size(n / 2)
}

/// The stored pattern of the negated sample.
pub open spec fn flip_sign(b: u64) -> u64 {
    b ^ SIGN_MASK
}

/// The full Hermitian-symmetric interleaved spectrum (length `2·N`) expanded
/// from a packed spectrum (length `N`): the packed bins in place with the
/// DC imaginary slot cleared, the Nyquist value moved to bin `N/2`, and the
/// upper bins mirrored from the lower ones with conjugated imaginary parts.
pub open spec fn unpack_spec(s: Seq<u64>) -> Seq<u64> {
    let n = s.len() as int;
    Seq::new(
        (2 * n) as nat,
        |i: int|
            {
                if i == 1 {
                    0u64
                } else if i < n {
                    s[i]
                } else if i == n {
                    s[1]
                } else if i == n + 1 {
                    0u64
                } else {
                    let k = n - i / 2;
                    if i % 2 == 0 {
                        s[2 * k]
                    } else {
                        flip_sign(s[2 * k + 1])
                    }
                }
            },
    )
}

/// The packed spectrum (length `N`) collapsed from a full interleaved
/// spectrum (length `2·N`): the leading `N` values, with the Nyquist real
/// part returned to the imaginary slot of the DC bin.
pub open spec fn pack_spec(s: Seq<u64>) -> Seq<u64> {
    let n = (s.len() / 2) as int;
    Seq::new(
        n as nat,
        |i: int|
            if i == 1 {
                s[n]
            } else {
                s[i]
            },
    )
}

/// Packing is the exact inverse of unpacking: both are pure rearrangements
/// with no arithmetic, so any packed spectrum survives the round trip bit
/// for bit.
pub proof fn lemma_pack_unpack_inverse(s: Seq<u64>)
    ensures
        pack_spec(unpack_spec(s)) == s,
{
    let n = s.len() as int;
    assert(unpack_spec(s).len() == 2 * n);
    assert((2 * n) / 2 == n) by {
        lemma_div2_split(n, 0);
    }
    assert(pack_spec(unpack_spec(s)) =~= s);
}

/// The expanded spectrum is Hermitian-symmetric: the DC and Nyquist
/// imaginary slots are zero, and each upper bin holds the mirror of the
/// corresponding lower bin with its imaginary part conjugated.
pub proof fn lemma_unpack_hermitian(s: Seq<u64>)
    requires
        s.len() % 2 == 0,
        2 <= s.len(),
    ensures
        unpack_spec(s)[1] == 0,
        unpack_spec(s)[s.len() as int + 1] == 0,
        forall|t: int|
            s.len() + 2 <= t < 2 * s.len() ==> #[trigger] unpack_spec(s)[t] == (if t % 2 == 0 {
                unpack_spec(s)[2 * (s.len() - t / 2)]
            } else {
                flip_sign(unpack_spec(s)[2 * (s.len() - t / 2) + 1])
            }),
{
    let n = s.len() as int;
    let u = unpack_spec(s);
    vstd::arithmetic::div_mod::lemma_fundamental_div_mod(n, 2);
    assert forall|t: int| n + 2 <= t < 2 * n implies #[trigger] u[t] == (if t % 2 == 0 {
        u[2 * (n - t / 2)]
    } else {
        flip_sign(u[2 * (n - t / 2) + 1])
    }) by {
        vstd::arithmetic::div_mod::lemma_fundamental_div_mod(t, 2);
        let k = n - t / 2;
        assert(1 <= k && 2 * k + 1 < n);
        assert(u[2 * k] == s[2 * k] && u[2 * k + 1] == s[2 * k + 1]);
    }
}

/// A real FFT context: the transform size and the internal complex context
/// of half that size, immutable once built.
pub struct Ctx {
    cfft_ctx: cfft::Ctx,
    size: usize,
}

impl Ctx {
    pub closed spec fn spec_size(&self) -> nat {
        self.size as nat
    }

    pub closed spec fn inner(&self) -> cfft::Ctx {
        self.cfft_ctx
    }

    /// A well-formed context: a valid size, and a well-formed complex
    /// context of exactly half that size.
    pub open spec fn wf(&self) -> bool {
        &&& is_valid_rfft_size(self.spec_size())
        &&& self.inner().wf()
        &&& self.inner().spec_size() == self.spec_size() / 2
    }

    /// Builds a context for the given size, or reports `InvalidSize` exactly
    /// when half the size is not a valid complex-transform size.
    pub fn new(size: usize) -> (r: Result<Ctx, Error>)
        ensures
            r is Ok <==> is_valid_rfft_size(size as nat),
            r matches Ok(ctx) ==> ctx.wf() && ctx.spec_size() == size as nat,
            r matches Err(e) ==> e == Error::InvalidSize,
    {
        if size % 2 != 0 {
            return Err(Error::InvalidSize);
        }
        let cfft_ctx = match cfft::Ctx::new(size / 2) {
            Ok(c) => c,
            Err(e) => {
                return Err(e);
            },
        };
        Ok(Ctx { cfft_ctx, size })
    }

    pub fn size(&self) -> (r: usize)
        ensures
            r as nat == self.spec_size(),
    {
        self.size
    }

    /// The internal half-size complex context that the transform core runs
    /// through.
    pub fn cfft_ctx(&self) -> (r: &cfft::Ctx)
        ensures
            *r == self.inner(),
    {
        &self.cfft_ctx
    }

    /// Expands the packed spectrum `x` into the full Hermitian-symmetric
    /// interleaved spectrum `y`, over stored bit patterns.
    pub fn unpack(&self, y: &mut Vec<u64>, x: &Vec<u64>)
        requires
            self.wf(),
            x@.len() == self.spec_size(),
            old(y)@.len() == 2 * self.spec_size(),
        ensures
            final(y)@ == unpack_spec(x@),
    {
        let n = self.size;
        proof {
            cfft::lemma_valid_size_bounds(self.spec_size() / 2);
            vstd::arithmetic::div_mod::lemma_fundamental_div_mod(n as int, 2);
        }
        let mut i: usize = 0;
        while i < n
            invariant
                n == x@.len(),
                y@.len() == 2 * n,
                i <= n,
                forall|t: int| 0 <= t < i ==> y@[t] == x@[t],
            decreases n - i,
        {
            y[i] = x[i];
            i = i + 1;
        }
        let nyq = y[1];
        y[n] = nyq;
        y[n + 1] = 0;
        y[1] = 0;
        let mut i: usize = 1;
        while i < n / 2
            invariant
                n == x@.len(),
                n % 2 == 0,
                8 <= n <= 131072,
                y@.len() == 2 * n,
                1 <= i <= n / 2,
                y@[0] == x@[0],
                y@[1] == 0,
                forall|t: int| 2 <= t < n ==> y@[t] == x@[t],
                y@[n as int] == x@[1],
                y@[n as int + 1] == 0,
                forall|t: int|
                    n + 2 <= t < 2 * n && t / 2 > n - i ==> y@[t] == (if t % 2 == 0 {
                        x@[2 * (n - t / 2)]
                    } else {
                        flip_sign(x@[2 * (n - t / 2) + 1])
                    }),
            decreases n / 2 - i,
        {
            let j = n - i;
            y[2 * j] = x[2 * i];
            y[2 * j + 1] = x[2 * i + 1] ^ SIGN_MASK;
            proof {
                lemma_div2_split(j as int, 0);
                lemma_div2_split(j as int, 1);
            }
            i = i + 1;
        }
        proof {
            assert forall|t: int| 0 <= t < 2 * n implies y@[t] == unpack_spec(x@)[t] by {
                vstd::arithmetic::div_mod::lemma_fundamental_div_mod(t, 2);
                if t >= n + 2 {
                    assert(t / 2 > n - n / 2) by {
                        lemma_div2_split(n as int / 2, 0);
                    }
                }
            }
            assert(y@ =~= unpack_spec(x@));
        }
    }

    /// Collapses the full interleaved spectrum `x` back into the packed
    /// layout `y`.
    pub fn pack(&self, y: &mut Vec<u64>, x: &Vec<u64>)
        requires
            self.wf(),
            x@.len() == 2 * self.spec_size(),
            old(y)@.len() == self.spec_size(),
        ensures
            final(y)@ == pack_spec(x@),
    {
        let n = self.size;
        proof {
            cfft::lemma_valid_size_bounds(self.spec_size() / 2);
            vstd::arithmetic::div_mod::lemma_fundamental_div_mod(n as int, 2);
        }
        let mut i: usize = 0;
        while i < n
            invariant
                2 * n == x@.len(),
                y@.len() == n,
                i <= n,
                forall|t: int| 0 <= t < i ==> y@[t] == x@[t],
            decreases n - i,
        {
            y[i] = x[i];
            i = i + 1;
        }
        y[1] = x[n];
        proof {
            assert((2 * n as int) / 2 == n as int) by {
                lemma_div2_split(n as int, 0);
            }
            assert(y@ =~= pack_spec(x@));
        }
    }
}

} // verus!
