use vstd::prelude::*;
use vstd::arithmetic::div_mod::lemma_fundamental_div_mod;
use crate::error::UsageError;

verus! {

/// `d` divides `n`: `n` is an integer multiple of `d`.
pub open spec fn divides(d: int, n: int) -> bool {
    exists|k: int| n == #[trigger] (d * k)
}

/// Euclid's greatest common divisor on natural numbers, with `gcd(0, 0) == 0`.
pub open spec fn spec_gcd(a: nat, b: nat) -> nat
    decreases b,
{
    if b == 0 {
        a
    } else {
        spec_gcd(b, a % b)
    }
}

proof fn lemma_divides_mod(a: nat, b: nat, d: int)
    requires
        b > 0,
        divides(d, a as int),
        divides(d, b as int),
    ensures
        divides(d, (a % b) as int),
{
    let ka = choose|k: int| a == #[trigger] (d * k);
    let kb = choose|k: int| b == #[trigger] (d * k);
    let q = (a / b) as int;
    lemma_fundamental_div_mod(a as int, b as int);
    assert((a % b) as int == d * (ka - kb * q)) by (nonlinear_arith)
        requires
            a == d * ka,
            b == d * kb,
            a as int == b * q + (a % b) as int,
    ;
}

proof fn lemma_divides_from_mod(a: nat, b: nat, d: int)
    requires
        b > 0,
        divides(d, b as int),
        divides(d, (a % b) as int),
    ensures
        divides(d, a as int),
{
    let kb = choose|k: int| b == #[trigger] (d * k);
    let kr = choose|k: int| (a % b) as int == #[trigger] (d * k);
    let q = (a / b) as int;
    lemma_fundamental_div_mod(a as int, b as int);
    assert(a as int == d * (kb * q + kr)) by (nonlinear_arith)
        requires
            b == d * kb,
            (a % b) as int == d * kr,
            a as int == b * q + (a % b) as int,
    ;
}

proof fn lemma_divides_self(n: int)
    ensures
        divides(n, n),
        divides(n, 0),
{
    assert(n == n * 1);
    assert(0 == n * 0);
}

proof fn lemma_divides_trans(a: int, b: int, c: int)
    requires
        divides(a, b),
        divides(b, c),
    ensures
        divides(a, c),
{
    let k1 = choose|k: int| b == #[trigger] (a * k);
    let k2 = choose|k: int| c == #[trigger] (b * k);
    assert(c == a * (k1 * k2)) by (nonlinear_arith)
        requires
            b == a * k1,
            c == b * k2,
    ;
}

/// A positive divisor of a positive number is no larger than it.
proof fn lemma_divisor_le(d: int, n: int)
    requires
        d > 0,
        n > 0,
        divides(d, n),
    ensures
        d <= n,
{
    let k = choose|k: int| n == #[trigger] (d * k);
    assert(d <= n) by (nonlinear_arith)
        requires
            d > 0,
            n > 0,
            n == d * k,
    ;
}

/// A non-negative remainder of zero makes the divisor divide the number.
proof fn lemma_mod_zero_divides(n: int, d: int)
    requires
        d > 0,
        n % d == 0,
    ensures
        divides(d, n),
{
    lemma_fundamental_div_mod(n, d);
    assert(n == d * (n / d));
}

proof fn lemma_divides_mod_zero(n: int, d: int)
    requires
        d > 0,
        divides(d, n),
    ensures
        n % d == 0,
{
    let k = choose|k: int| n == #[trigger] (d * k);
    vstd::arithmetic::div_mod::lemma_mod_multiples_basic(k, d);
    vstd::arithmetic::mul::lemma_mul_is_commutative(d, k);
}

proof fn lemma_gcd_divides(a: nat, b: nat)
    ensures
        divides(spec_gcd(a, b) as int, a as int),
        divides(spec_gcd(a, b) as int, b as int),
    decreases b,
{
    if b == 0 {
        lemma_divides_self(a as int);
    } else {
        lemma_gcd_divides(b, a % b);
        lemma_divides_from_mod(a, b, spec_gcd(a, b) as int);
    }
}

proof fn lemma_gcd_greatest(a: nat, b: nat, d: int)
    requires
        divides(d, a as int),
        divides(d, b as int),
    ensures
        divides(d, spec_gcd(a, b) as int),
    decreases b,
{
    if b != 0 {
        lemma_divides_mod(a, b, d);
        lemma_gcd_greatest(b, a % b, d);
    }
}

proof fn lemma_gcd_zero(a: nat, b: nat)
    ensures
        spec_gcd(a, b) == 0 <==> (a == 0 && b == 0),
{
    lemma_gcd_divides(a, b);
    if spec_gcd(a, b) == 0 {
        let ka = choose|k: int| a == #[trigger] (0 * k);
        let kb = choose|k: int| b == #[trigger] (0 * k);
    }
}

/// `gcd(a, b)` divides both `a` and `b` evenly, for all positive `a` and `b`.
pub proof fn lemma_gcd_divides_both(a: nat, b: nat)
    requires
        a > 0,
        b > 0,
    ensures
        spec_gcd(a, b) > 0,
        a % spec_gcd(a, b) == 0,
        b % spec_gcd(a, b) == 0,
{
    lemma_gcd_zero(a, b);
    lemma_gcd_divides(a, b);
    lemma_divides_mod_zero(a as int, spec_gcd(a, b) as int);
    lemma_divides_mod_zero(b as int, spec_gcd(a, b) as int);
}

/// No integer greater than `gcd(a, b)` divides both `a` and `b`, for all
/// positive `a` and `b`.
pub proof fn lemma_gcd_is_greatest(a: nat, b: nat)
    requires
        a > 0,
        b > 0,
    ensures
        forall|d: int|
            d > spec_gcd(a, b) ==> !(#[trigger] (a as int % d) == 0 && (b as int % d) == 0),
{
    assert forall|d: int| d > spec_gcd(a, b) implies !(#[trigger] (a as int % d) == 0 && (b as int
        % d) == 0) by {
        if (a as int % d) == 0 && (b as int % d) == 0 {
            lemma_mod_zero_divides(a as int, d);
            lemma_mod_zero_divides(b as int, d);
            lemma_gcd_greatest(a, b, d);
            lemma_gcd_zero(a, b);
            lemma_divisor_le(d, spec_gcd(a, b) as int);
        }
    }
}

/// `gcd(a, b) == gcd(b, a)` for all `a` and `b`.
pub proof fn lemma_gcd_commutative(a: nat, b: nat)
    ensures
        spec_gcd(a, b) == spec_gcd(b, a),
{
    let g1 = spec_gcd(a, b);
    let g2 = spec_gcd(b, a);
    lemma_gcd_divides(a, b);
    lemma_gcd_divides(b, a);
    lemma_gcd_greatest(b, a, g1 as int);
    lemma_gcd_greatest(a, b, g2 as int);
    lemma_gcd_zero(a, b);
    lemma_gcd_zero(b, a);
    if g1 > 0 && g2 > 0 {
        lemma_divisor_le(g1 as int, g2 as int);
        lemma_divisor_le(g2 as int, g1 as int);
    }
}

/// `gcd(a, a) == a` for every positive `a`.
pub proof fn lemma_gcd_identity(a: nat)
    requires
        a > 0,
    ensures
        spec_gcd(a, a) == a,
{
    vstd::arithmetic::div_mod::lemma_mod_self_0(a as int);
    assert(spec_gcd(a, 0) == a);
}

/// Zero is absorbed on either side: `gcd(a, 0) == a` and `gcd(0, a) == a`.
pub proof fn lemma_gcd_zero_absorbed(a: nat)
    ensures
        spec_gcd(a, 0) == a,
        spec_gcd(0, a) == a,
{
    if a > 0 {
        assert(0nat % a == 0) by (nonlinear_arith)
            requires
                a > 0,
        ;
        assert(spec_gcd(a, 0) == a);
    }
}

/// One step of the reduction: the larger operand may be replaced by its
/// remainder modulo the smaller.
proof fn lemma_gcd_step(n: nat, m: nat)
    requires
        n > 0,
    ensures
        spec_gcd(n, m) == spec_gcd(n, m % n),
{
    lemma_gcd_commutative(n, m);
    if m == 0 {
        lemma_gcd_zero_absorbed(n);
        assert(0nat % n == 0) by (nonlinear_arith)
            requires
                n > 0,
        ;
    }
}

/// Computes the greatest common divisor of `n` and `m` by Euclid's algorithm:
/// while `m` is non-zero, the larger of the two is reduced modulo the smaller.
/// Both operands zero is outside the domain of the reducer.
pub fn gcd(n: u64, m: u64) -> (r: u64)
    requires
        n != 0 || m != 0,
    ensures
        r == spec_gcd(n as nat, m as nat),
        r > 0,
{
    let ghost goal = spec_gcd(n as nat, m as nat);
    proof {
        lemma_gcd_zero(n as nat, m as nat);
    }
    if n == 0 {
        proof {
            lemma_gcd_zero_absorbed(m as nat);
        }
        return m;
    }
    let mut n: u64 = n;
    let mut m: u64 = m;
    while m != 0
        invariant
            n != 0,
            spec_gcd(n as nat, m as nat) == goal,
        decreases m,
    {
        if m < n {
            proof {
                lemma_gcd_commutative(n as nat, m as nat);
            }
            let t = m;
            m = n;
            n = t;
        }
        proof {
            lemma_gcd_step(n as nat, m as nat);
        }
        m = m % n;
    }
    n
}

/// The left fold of `spec_gcd` over `s`, starting from zero (which
/// `spec_gcd` absorbs).
pub open spec fn spec_gcd_seq(s: Seq<u64>) -> nat
    decreases s.len(),
{
    if s.len() == 0 {
        0
    } else {
        spec_gcd(spec_gcd_seq(s.drop_last()), s.last() as nat)
    }
}

/// `d` is positive and divides every element of `s` evenly.
pub open spec fn is_common_divisor(s: Seq<u64>, d: int) -> bool {
    d > 0 && forall|i: int| 0 <= i < s.len() ==> (#[trigger] s[i]) as int % d == 0
}

/// Every element of `s` is zero.
pub open spec fn all_zero(s: Seq<u64>) -> bool {
    forall|i: int| 0 <= i < s.len() ==> s[i] == 0
}

proof fn lemma_gcd_seq_zero(s: Seq<u64>)
    ensures
        spec_gcd_seq(s) == 0 <==> all_zero(s),
    decreases s.len(),
{
    if s.len() > 0 {
        let t = s.drop_last();
        lemma_gcd_seq_zero(t);
        lemma_gcd_zero(spec_gcd_seq(t), s.last() as nat);
        if all_zero(s) {
            assert(all_zero(t));
        } else if all_zero(t) {
            let i = choose|i: int| 0 <= i < s.len() && s[i] != 0;
            if i < s.len() - 1 {
                assert(t[i] == s[i]);
            }
        }
    }
}

/// The fold yields the greatest common divisor of all elements: it divides
/// each of them, and every common divisor of them divides it.
pub proof fn lemma_gcd_seq_is_gcd(s: Seq<u64>)
    ensures
        forall|i: int| 0 <= i < s.len() ==> divides(spec_gcd_seq(s) as int, #[trigger] s[i] as int),
        forall|d: int|
            (forall|i: int| 0 <= i < s.len() ==> divides(d, #[trigger] s[i] as int)) ==> divides(
                d,
                spec_gcd_seq(s) as int,
            ),
    decreases s.len(),
{
    if s.len() == 0 {
        assert forall|d: int|
            (forall|i: int| 0 <= i < s.len() ==> divides(d, #[trigger] s[i] as int)) implies divides(
            d,
            spec_gcd_seq(s) as int,
        ) by {
            lemma_divides_self(d);
        }
    } else {
        let t = s.drop_last();
        let gt = spec_gcd_seq(t);
        let g = spec_gcd_seq(s);
        lemma_gcd_seq_is_gcd(t);
        lemma_gcd_divides(gt, s.last() as nat);
        assert forall|i: int| 0 <= i < s.len() implies divides(g as int, #[trigger] s[i] as int) by {
            if i < s.len() - 1 {
                assert(t[i] == s[i]);
                lemma_divides_trans(g as int, gt as int, s[i] as int);
            }
        }
        assert forall|d: int|
            (forall|i: int| 0 <= i < s.len() ==> divides(d, #[trigger] s[i] as int)) implies divides(
            d,
            g as int,
        ) by {
            assert forall|i: int| 0 <= i < t.len() implies divides(d, #[trigger] t[i] as int) by {
                assert(t[i] == s[i]);
            }
            assert(divides(d, s[s.len() - 1] as int));
            lemma_gcd_greatest(gt, s.last() as nat, d);
        }
    }
}

/// Computes the greatest common divisor of a sequence of numbers by a left
/// fold of `gcd`, starting from the first element. An empty sequence and a
/// sequence of zeros only are rejected, so the reducer is never called on two
/// zeros.
pub fn gcd_all(nums: &Vec<u64>) -> (r: Result<u64, UsageError>)
    ensures
        nums@.len() == 0 ==> r == Err::<u64, UsageError>(UsageError::NoArguments),
        nums@.len() > 0 && all_zero(nums@) ==> r == Err::<u64, UsageError>(UsageError::AllZero),
        nums@.len() > 0 && !all_zero(nums@) ==> r is Ok && r->Ok_0 == spec_gcd_seq(nums@),
        r is Ok ==> is_common_divisor(nums@, r->Ok_0 as int),
        r is Ok ==> forall|d: int| #[trigger] is_common_divisor(nums@, d) ==> d <= r->Ok_0,
{
    if nums.len() == 0 {
        return Err(UsageError::NoArguments);
    }
    let mut acc: u64 = nums[0];
    proof {
        let first = nums@.subrange(0, 1);
        assert(first.drop_last() =~= Seq::<u64>::empty());
        assert(spec_gcd_seq(first.drop_last()) == 0);
        assert(first.last() == nums@[0]);
        lemma_gcd_zero_absorbed(nums@[0] as nat);
    }
    let mut i: usize = 1;
    while i < nums.len()
        invariant
            1 <= i <= nums@.len(),
            acc == spec_gcd_seq(nums@.subrange(0, i as int)),
        decreases nums@.len() - i,
    {
        let x = nums[i];
        proof {
            assert(nums@.subrange(0, i + 1).drop_last() =~= nums@.subrange(0, i as int));
        }
        if acc != 0 || x != 0 {
            acc = gcd(acc, x);
        } else {
            proof {
                lemma_gcd_zero_absorbed(0);
            }
        }
        i = i + 1;
    }
    proof {
        assert(nums@.subrange(0, nums@.len() as int) =~= nums@);
        lemma_gcd_seq_zero(nums@);
    }
    if acc == 0 {
        return Err(UsageError::AllZero);
    }
    proof {
        let s = nums@;
        let g = acc as int;
        lemma_gcd_seq_is_gcd(s);
        assert forall|i: int| 0 <= i < s.len() implies (#[trigger] s[i]) as int % g == 0 by {
            lemma_divides_mod_zero(s[i] as int, g);
        }
        assert forall|d: int| #[trigger] is_common_divisor(s, d) implies d <= g by {
            assert forall|i: int| 0 <= i < s.len() implies divides(d, #[trigger] s[i] as int) by {
                lemma_mod_zero_divides(s[i] as int, d);
            }
            lemma_divisor_le(d, g);
        }
    }
    Ok(acc)
}

} // verus!
