//! Skill ratings and the order in which they rank.
//!
//! A rating is a pair of IEEE-754 binary64 numbers, the estimate `mu` and the
//! uncertainty `sigma`. The engine never does arithmetic on them: it stores
//! them, hands them to the rating model and orders players by `mu`. So a
//! rating is kept as the two 64-bit patterns of its numbers, and the order is
//! computed on the patterns.
//!
//! The `sigma` of a rating is at least zero. The default rating is such a
//! rating, and the leaderboard holds only such ratings as long as the rating
//! model returns only such.

use vstd::prelude::*;

verus! {

/// The bit of a binary64 pattern that holds the sign.
pub const SIGN_BIT: u64 = 0x8000_0000_0000_0000;

/// Pattern of the number 1500, the estimate given to a player never seen before.
pub const DEFAULT_MU: u64 = 0x4097_7000_0000_0000;

/// Pattern of the number 500, a third of the default estimate: the uncertainty
/// given to a player never seen before.
pub const DEFAULT_SIGMA: u64 = 0x407F_4000_0000_0000;

/// A belief about a player's skill, as the binary64 patterns of its mean and
/// of its standard deviation.
#[derive(Clone, Copy, Debug, PartialEq, Eq, Structural, Hash)]
pub struct Rating {
    pub mu: u64,
    pub sigma: u64,
}

/// The rating of a player never seen before.
pub open spec fn default_rating_spec() -> Rating {
    Rating { mu: DEFAULT_MU, sigma: DEFAULT_SIGMA }
}

/// The place of a binary64 pattern in the total order of IEEE-754: patterns
/// with the sign bit set come first, the larger magnitude lower; then the
/// patterns without it, the larger magnitude higher.
pub open spec fn rank_key(bits: u64) -> u64 {
    if bits & SIGN_BIT != 0 {
        !bits
    } else {
        bits | SIGN_BIT
    }
}

impl Rating {
    /// The rating with the patterns `mu` and `sigma`.
    pub fn new(mu: u64, sigma: u64) -> (r: Rating)
        ensures
            r.mu == mu,
            r.sigma == sigma,
    {
        Rating { mu, sigma }
    }

    /// The key by which this rating ranks: a larger key is a larger `mu`.
    pub open spec fn key(self) -> u64 {
        rank_key(self.mu)
    }

    /// Whether `sigma` is at least zero: its key is at least the key of the
    /// pattern of zero, which is to say that its sign bit is clear.
    pub open spec fn sigma_is_nonnegative(self) -> bool {
        rank_key(self.sigma) >= rank_key(0)
    }

    /// Whether `sigma` is at least zero.
    pub fn has_nonnegative_sigma(&self) -> (b: bool)
        ensures
            b == self.sigma_is_nonnegative(),
    {
        proof {
            lemma_nonnegative_is_sign_clear(self.sigma);
        }
        self.sigma & SIGN_BIT == 0
    }

    /// The key by which this rating ranks.
    pub fn rank_key(&self) -> (k: u64)
        ensures
            k == self.key(),
    {
        if self.mu & SIGN_BIT != 0 {
            !self.mu
        } else {
            self.mu | SIGN_BIT
        }
    }
}

/// The rating of a player never seen before: `mu` 1500, `sigma` 500.
pub fn default_rating() -> (r: Rating)
    ensures
        r == default_rating_spec(),
{
    Rating { mu: DEFAULT_MU, sigma: DEFAULT_SIGMA }
}

/// The patterns whose key is at least the key of zero are those with the
/// sign bit clear.
pub proof fn lemma_nonnegative_is_sign_clear(bits: u64)
    ensures
        rank_key(bits) >= rank_key(0) <==> bits & SIGN_BIT == 0,
{
    let k = rank_key(bits);
    let zero = rank_key(0);
    assert(zero == 0x8000_0000_0000_0000) by (bit_vector)
        requires
            zero == if 0u64 & 0x8000_0000_0000_0000 != 0 {
                !0u64
            } else {
                0u64 | 0x8000_0000_0000_0000
            },
    ;
    assert(k >= 0x8000_0000_0000_0000 <==> bits & 0x8000_0000_0000_0000 == 0) by (bit_vector)
        requires
            k == if bits & 0x8000_0000_0000_0000 != 0 {
                !bits
            } else {
                bits | 0x8000_0000_0000_0000
            },
    ;
}

/// The default rating has a `sigma` that is at least zero.
pub proof fn lemma_default_sigma_is_nonnegative()
    ensures
        default_rating_spec().sigma_is_nonnegative(),
{
    lemma_nonnegative_is_sign_clear(DEFAULT_SIGMA);
    assert(0x407F_4000_0000_0000u64 & 0x8000_0000_0000_0000 == 0) by (bit_vector);
}

/// The key tells the patterns apart and orders them as sign and magnitude
/// do: two patterns with one key are one pattern; a pattern with the sign bit
/// ranks below every pattern without it; of two without it the larger
/// pattern ranks higher, of two with it the smaller.
pub proof fn lemma_rank_key_orders(a: u64, b: u64)
    ensures
        rank_key(a) == rank_key(b) <==> a == b,
        a & SIGN_BIT == 0 && b & SIGN_BIT == 0 ==> (rank_key(a) < rank_key(b) <==> a < b),
        a & SIGN_BIT != 0 && b & SIGN_BIT != 0 ==> (rank_key(a) < rank_key(b) <==> a > b),
        a & SIGN_BIT != 0 && b & SIGN_BIT == 0 ==> rank_key(a) < rank_key(b),
{
    let ka = rank_key(a);
    let kb = rank_key(b);
    assert(ka == kb ==> a == b) by (bit_vector)
        requires
            ka == if a & 0x8000_0000_0000_0000 != 0 {
                !a
            } else {
                a | 0x8000_0000_0000_0000
            },
            kb == if b & 0x8000_0000_0000_0000 != 0 {
                !b
            } else {
                b | 0x8000_0000_0000_0000
            },
    ;
    assert(a & 0x8000_0000_0000_0000 == 0 && b & 0x8000_0000_0000_0000 == 0 ==> (ka < kb <==> a
        < b)) by (bit_vector)
        requires
            ka == if a & 0x8000_0000_0000_0000 != 0 {
                !a
            } else {
                a | 0x8000_0000_0000_0000
            },
            kb == if b & 0x8000_0000_0000_0000 != 0 {
                !b
            } else {
                b | 0x8000_0000_0000_0000
            },
    ;
    assert(a & 0x8000_0000_0000_0000 != 0 && b & 0x8000_0000_0000_0000 != 0 ==> (ka < kb <==> a
        > b)) by (bit_vector)
        requires
            ka == if a & 0x8000_0000_0000_0000 != 0 {
                !a
            } else {
                a | 0x8000_0000_0000_0000
            },
            kb == if b & 0x8000_0000_0000_0000 != 0 {
                !b
            } else {
                b | 0x8000_0000_0000_0000
            },
    ;
    assert(a & 0x8000_0000_0000_0000 != 0 && b & 0x8000_0000_0000_0000 == 0 ==> ka < kb)
        by (bit_vector)
        requires
            ka == if a & 0x8000_0000_0000_0000 != 0 {
                !a
            } else {
                a | 0x8000_0000_0000_0000
            },
            kb == if b & 0x8000_0000_0000_0000 != 0 {
                !b
            } else {
                b | 0x8000_0000_0000_0000
            },
    ;
}

} // verus!
