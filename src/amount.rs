use vstd::prelude::*;
use vstd::arithmetic::power2::{pow2, lemma_pow2_adds, lemma2_to64};
use casper_types::{U256, U512};

verus! {

/// Value of little-endian 64-bit words.
pub open spec fn words_value(w: Seq<u64>) -> nat
    decreases w.len(),
{
    if w.len() == 0 {
        0
    } else {
        w[0] as nat + pow2(64) * words_value(w.drop_first())
    }
}

/// The largest value an [`Amount`] holds: 2^512 - 1.
pub open spec fn amount_max() -> int {
    pow2(512) - 1
}

proof fn lemma_words_bound(w: Seq<u64>)
    ensures
        words_value(w) < pow2((64 * w.len()) as nat),
    decreases w.len(),
{
    lemma2_to64();
    if w.len() > 0 {
        let r = w.drop_first();
        lemma_words_bound(r);
        let k = (64 * r.len()) as nat;
        lemma_pow2_adds(64, k);
        assert(64 + k == 64 * w.len());
        let p = pow2(64) as int;
        let q = pow2(k) as int;
        let x = w[0] as int;
        let y = words_value(r) as int;
        assert(x < p) by {
            vstd::arithmetic::power2::lemma2_to64_rest();
        }
        assert(x + p * y < p * q) by (nonlinear_arith)
            requires
                x < p,
                0 <= y < q,
                0 <= x,
        ;
    }
}

/// Words are worth zero exactly when each of them is zero.
proof fn lemma_zero_words(w: Seq<u64>)
    ensures
        (words_value(w) == 0) == (forall|i: int| 0 <= i < w.len() ==> w[i] == 0),
    decreases w.len(),
{
    if w.len() > 0 {
        let r = w.drop_first();
        lemma_zero_words(r);
        lemma2_to64();
        let p = pow2(64) as int;
        let y = words_value(r) as int;
        assert(p * y >= 0 && (p * y == 0) == (y == 0)) by (nonlinear_arith)
            requires
                p > 0,
                y >= 0,
        ;
        if words_value(w) == 0 {
            assert forall|i: int| 0 <= i < w.len() implies w[i] == 0 by {
                if i > 0 {
                    assert(w[i] == r[i - 1]);
                }
            }
        }
        if forall|i: int| 0 <= i < w.len() ==> w[i] == 0 {
            assert forall|i: int| 0 <= i < r.len() implies r[i] == 0 by {
                assert(r[i] == w[i + 1]);
            }
            assert(w[0] == 0);
        }
    }
}

/// Whether `a` is zero.
pub(crate) fn u512_is_zero(a: &Amount) -> (r: bool)
    ensures
        r == (a.value() == 0),
{
    proof {
        broadcast use vstd::array::group_array_axioms;
        lemma_zero_words(a.words@);
    }
    let mut i: usize = 0;
    while i < 8
        invariant
            i <= 8,
            a.words@.len() == 8,
            forall|j: int| 0 <= j < i ==> a.words@[j] == 0,
        decreases 8 - i,
    {
        if a.words[i] != 0 {
            proof {
                broadcast use vstd::array::group_array_axioms;
                assert(a.words@[i as int] != 0);
                lemma_zero_words(a.words@);
            }
            return false;
        }
        i = i + 1;
    }
    true
}

/// An amount of value: an unsigned 512-bit integer, as eight little-endian words.
#[derive(Clone, Copy, Debug, PartialEq, Eq)]
pub struct Amount {
    pub words: [u64; 8],
}

/// A price: an unsigned 256-bit integer, as four little-endian words.
#[derive(Clone, Copy, Debug, PartialEq, Eq)]
pub struct Price {
    pub words: [u64; 4],
}

impl Amount {
    pub open spec fn value(self) -> nat {
        words_value(self.words@)
    }

    /// Every amount is at most 2^512 - 1.
    pub proof fn lemma_bounded(self)
        ensures
            self.value() <= amount_max(),
    {
        broadcast use vstd::array::array_len_matches_n;
        assert(self.words@.len() == 8);
        lemma_words_bound(self.words@);
    }

    /// Zero.
    pub fn zero() -> (r: Amount)
        ensures
            r.value() == 0,
    {
        let r = Amount { words: [0u64; 8] };
        proof {
            lemma_zero_words(r.words@);
        }
        r
    }

    /// The amount `v`.
    pub fn from_u128(v: u128) -> (r: Amount)
        ensures
            r.value() == v,
    {
        u512_from_u128(v)
    }
}

impl Price {
    pub open spec fn value(self) -> nat {
        words_value(self.words@)
    }

    /// Zero.
    pub fn zero() -> (r: Price)
        ensures
            r.value() == 0,
    {
        let r = Price { words: [0u64; 4] };
        proof {
            lemma_zero_words(r.words@);
        }
        r
    }

    /// The price `v`.
    pub fn from_u128(v: u128) -> (r: Price)
        ensures
            r.value() == v,
    {
        u256_from_u128(v)
    }
}

/// Relies on From<u128> for casper_types::U512: the low two words hold `v`.
#[verifier::external_body]
fn u512_from_u128(v: u128) -> (r: Amount)
    ensures
        r.value() == v,
{
    Amount { words: U512::from(v).0 }
}

/// Relies on casper_types::U512::checked_add: the sum, `None` on overflow.
#[verifier::external_body]
pub(crate) fn u512_checked_add(a: Amount, b: Amount) -> (r: Option<Amount>)
    ensures
        match r {
            Some(s) => s.value() == a.value() + b.value(),
            None => a.value() + b.value() > amount_max(),
        },
{
    U512(a.words).checked_add(U512(b.words)).map(|s| Amount { words: s.0 })
}

/// Relies on casper_types::U512::checked_mul: the product, `None` on overflow.
#[verifier::external_body]
pub(crate) fn u512_checked_mul(a: Amount, b: Amount) -> (r: Option<Amount>)
    ensures
        match r {
            Some(p) => p.value() == a.value() * b.value(),
            None => a.value() * b.value() > amount_max(),
        },
{
    U512(a.words).checked_mul(U512(b.words)).map(|p| Amount { words: p.0 })
}

/// Relies on casper_types::U512::checked_div: the quotient rounded down, `None`
/// for a zero divisor.
#[verifier::external_body]
pub(crate) fn u512_checked_div(a: Amount, b: Amount) -> (r: Option<Amount>)
    ensures
        match r {
            Some(q) => b.value() != 0 && q.value() == a.value() / b.value(),
            None => b.value() == 0,
        },
{
    U512(a.words).checked_div(U512(b.words)).map(|q| Amount { words: q.0 })
}

/// Relies on From<u128> for casper_types::U256: the low two words hold `v`.
#[verifier::external_body]
fn u256_from_u128(v: u128) -> (r: Price)
    ensures
        r.value() == v,
{
    Price { words: U256::from(v).0 }
}

} // verus!
