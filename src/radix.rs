//! Positional notation in a radix that is a power of two: the arithmetic
//! behind the base-32 payload and the big-endian byte layout.

use vstd::arithmetic::div_mod::*;
use vstd::arithmetic::mul::*;
use vstd::arithmetic::power2::*;
use vstd::prelude::*;

verus! {

/// The weight of the digit that has `k` digits of `w` bits after it.
pub open spec fn place(w: nat, k: int) -> int {
    pow2((w * k) as nat) as int
}

/// The number that the digits `ds` denote, most significant first, each digit
/// standing for `w` bits.
pub open spec fn radix_value(ds: Seq<int>, w: nat) -> int
    decreases ds.len(),
{
    if ds.len() == 0 {
        0
    } else {
        radix_value(ds.drop_last(), w) * pow2(w) + ds.last()
    }
}

/// Digit `i` of the `n` digits of `v`, most significant first.
pub open spec fn radix_digit(v: int, w: nat, n: int, i: int) -> int {
    (v / place(w, n - 1 - i)) % (pow2(w) as int)
}

/// The `n` digits of `v`, most significant first.
pub open spec fn radix_digits(v: int, w: nat, n: nat) -> Seq<int> {
    Seq::new(n, |i: int| radix_digit(v, w, n as int, i))
}

/// Every digit lies in `0 .. 2^w`.
pub open spec fn digits_in_range(ds: Seq<int>, w: nat) -> bool {
    forall|i: int| 0 <= i < ds.len() ==> 0 <= #[trigger] ds[i] < pow2(w)
}

proof fn lemma_place_step(w: nat, k: int)
    requires
        k >= 0,
    ensures
        place(w, k + 1) == place(w, k) * pow2(w),
        place(w, k) > 0,
        place(w, 0) == 1,
        pow2(w) > 0,
{
    assert((w * (k + 1)) as nat == (w * k) as nat + w) by (nonlinear_arith)
        requires
            k >= 0,
    ;
    lemma_pow2_adds((w * k) as nat, w);
    lemma_pow2_pos((w * k) as nat);
    lemma_pow2_pos(w);
    lemma_pow2_pos(0);
    assert(pow2(0) == 1) by {
        lemma2_to64();
    }
    assert((w * 0) as nat == 0nat);
}

/// A number made of `n` digits is below `2^(w n)`.
pub proof fn lemma_radix_value_bound(ds: Seq<int>, w: nat)
    requires
        digits_in_range(ds, w),
    ensures
        0 <= radix_value(ds, w) < place(w, ds.len() as int),
    decreases ds.len(),
{
    lemma_place_step(w, 0);
    if ds.len() > 0 {
        let n = ds.len() as int;
        let front = ds.drop_last();
        assert(digits_in_range(front, w)) by {
            assert forall|i: int| 0 <= i < front.len() implies 0 <= #[trigger] front[i] < pow2(w) by {
                assert(front[i] == ds[i]);
            }
        }
        lemma_radix_value_bound(front, w);
        lemma_place_step(w, n - 1);
        let v = radix_value(front, w);
        let b = pow2(w) as int;
        let p = place(w, n - 1);
        assert(0 <= ds.last() < b) by {
            assert(ds.last() == ds[n - 1]);
        }
        assert(0 <= v * b + ds.last() < p * b) by (nonlinear_arith)
            requires
                0 <= v < p,
                0 <= ds.last() < b,
        ;
    }
}

/// The first `k` of the `n` digits of `v` denote `v` without its last `n - k`
/// digits, reduced to `k` digits.
proof fn lemma_digits_prefix_value(v: int, w: nat, n: nat, k: int)
    requires
        0 <= v,
        0 <= k <= n,
    ensures
        radix_value(radix_digits(v, w, n).take(k), w) == (v / place(w, n - k)) % place(w, k),
    decreases k,
{
    let ds = radix_digits(v, w, n);
    lemma_place_step(w, 0);
    if k == 0 {
        assert(ds.take(0).len() == 0);
    } else {
        lemma_digits_prefix_value(v, w, n, k - 1);
        assert(ds.take(k).drop_last() =~= ds.take(k - 1));
        assert(ds.take(k).last() == ds[k - 1]);
        let b = pow2(w) as int;
        let p = place(w, n - k);
        lemma_place_step(w, n - k);
        lemma_place_step(w, k - 1);
        let x = v / p;
        // v / (p * b) == x / b
        lemma_div_denominator(v, p, b);
        // x % (b * place(k - 1)) == b * ((x / b) % place(k - 1)) + x % b
        lemma_mod_breakdown(x, b, place(w, k - 1));
        lemma_mul_is_commutative(b, place(w, k - 1));
        lemma_mul_is_commutative(p, b);
        lemma_mul_is_commutative(b, (x / b) % place(w, k - 1));
    }
}

/// The `n` digits of a number below `2^(w n)` denote that number.
pub proof fn lemma_value_of_digits(v: int, w: nat, n: nat)
    requires
        0 <= v < place(w, n as int),
    ensures
        radix_value(radix_digits(v, w, n), w) == v,
        digits_in_range(radix_digits(v, w, n), w),
{
    lemma_digits_prefix_value(v, w, n, n as int);
    lemma_place_step(w, 0);
    assert(radix_digits(v, w, n).take(n as int) =~= radix_digits(v, w, n));
    lemma_small_mod(v as nat, place(w, n as int) as nat);
    assert(n - n == 0);
    lemma_div_basics(v);
    let ds = radix_digits(v, w, n);
    assert forall|i: int| 0 <= i < ds.len() implies 0 <= #[trigger] ds[i] < pow2(w) by {
        lemma_place_step(w, n - 1 - i);
        lemma_mod_bound(v / place(w, n - 1 - i), pow2(w) as int);
    }
}

/// Digits in range are recovered from the number they denote.
pub proof fn lemma_digits_of_value(ds: Seq<int>, w: nat)
    requires
        digits_in_range(ds, w),
    ensures
        radix_digits(radix_value(ds, w), w, ds.len()) == ds,
    decreases ds.len(),
{
    let n = ds.len();
    lemma_place_step(w, 0);
    if n > 0 {
        let front = ds.drop_last();
        assert(digits_in_range(front, w)) by {
            assert forall|i: int| 0 <= i < front.len() implies 0 <= #[trigger] front[i] < pow2(w) by {
                assert(front[i] == ds[i]);
            }
        }
        lemma_digits_of_value(front, w);
        lemma_radix_value_bound(front, w);
        let v = radix_value(ds, w);
        let v0 = radix_value(front, w);
        let b = pow2(w) as int;
        assert(ds.last() == ds[n - 1]);
        lemma_radix_value_bound(ds, w);
        lemma_fundamental_div_mod_converse(v, b, v0, ds.last());
        assert forall|i: int| 0 <= i < n implies #[trigger] radix_digit(v, w, n as int, i) == ds[i] by {
            if i == n - 1 {
                assert(n as int - 1 - i == 0);
                lemma_div_basics(v);
            } else {
                let p = place(w, n - 2 - i);
                lemma_place_step(w, n - 2 - i);
                lemma_mul_is_commutative(p, b);
                lemma_div_denominator(v, b, p);
                assert(radix_digits(v0, w, (n - 1) as nat)[i] == front[i]);
                assert(v / place(w, n - 1 - i) == v0 / p);
                assert(radix_digit(v0, w, n - 1, i) == (v0 / p) % b);
            }
        }
        assert(radix_digits(v, w, n) =~= ds);
    }
}

/// Walks two digit sequences of one length that agree on their first `k`
/// digits to the first place where they differ.
proof fn first_difference(a: Seq<int>, b: Seq<int>, k: int) -> (j: int)
    requires
        a.len() == b.len(),
        a != b,
        0 <= k <= a.len(),
        a.take(k) == b.take(k),
    ensures
        k <= j < a.len(),
        a.take(j) == b.take(j),
        a[j] != b[j],
    decreases a.len() - k,
{
    if k == a.len() {
        assert(a.take(k) =~= a);
        assert(b.take(k) =~= b);
        k
    } else if a[k] != b[k] {
        k
    } else {
        assert(a.take(k + 1) =~= a.take(k).push(a[k]));
        assert(b.take(k + 1) =~= b.take(k).push(b[k]));
        first_difference(a, b, k + 1)
    }
}

/// Of two distinct numbers below `2^(w n)`, the smaller has the smaller digit
/// at the first place where their digits differ.
pub proof fn lemma_digits_order(v1: int, v2: int, w: nat, n: nat) -> (j: int)
    requires
        0 <= v1 < v2 < place(w, n as int),
    ensures
        0 <= j < n,
        radix_digits(v1, w, n).take(j) == radix_digits(v2, w, n).take(j),
        radix_digits(v1, w, n)[j] < radix_digits(v2, w, n)[j],
{
    let d1 = radix_digits(v1, w, n);
    let d2 = radix_digits(v2, w, n);
    lemma_value_of_digits(v1, w, n);
    lemma_value_of_digits(v2, w, n);
    assert(d1.take(0) =~= d2.take(0));
    let j = first_difference(d1, d2, 0);
    lemma_digits_prefix_value(v1, w, n, j);
    lemma_digits_prefix_value(v2, w, n, j);
    let p = place(w, n - j);
    let q = place(w, n - 1 - j);
    let b = pow2(w) as int;
    lemma_place_step(w, n - 1 - j);
    lemma_place_step(w, j);
    lemma_place_step(w, n - j);
    // both quotients by p are below place(j), so they are equal
    lemma_pow2_adds((w * (n - j)) as nat, (w * j) as nat);
    assert((w * (n - j)) as nat + (w * j) as nat == (w * n) as nat) by (nonlinear_arith)
        requires
            0 <= j < n,
    ;
    lemma_multiply_divide_lt(v1, p, place(w, j));
    lemma_multiply_divide_lt(v2, p, place(w, j));
    lemma_div_pos_is_pos(v1, p);
    lemma_div_pos_is_pos(v2, p);
    lemma_small_mod((v1 / p) as nat, place(w, j) as nat);
    lemma_small_mod((v2 / p) as nat, place(w, j) as nat);
    let x1 = v1 / q;
    let x2 = v2 / q;
    lemma_mul_is_commutative(q, b);
    lemma_div_denominator(v1, q, b);
    lemma_div_denominator(v2, q, b);
    lemma_div_is_ordered(v1, v2, q);
    lemma_div_pos_is_pos(v1, q);
    lemma_fundamental_div_mod(x1, b);
    lemma_fundamental_div_mod(x2, b);
    assert(d1[j] == x1 % b);
    assert(d2[j] == x2 % b);
    j
}

} // verus!
