//! Binary64 rounding, stated over the integers.
//!
//! A double is a value `m / 2^k`. The nearest double to a positive ratio
//! `n / d` below 2^53 has a 53-bit significand `m` (ties to even); a byte
//! count converted to a double keeps its 53 leading bits the same way. The
//! decimal text of a double with a fixed number of fraction digits rounds
//! its exact value, ties to even.
use vstd::prelude::*;
use vstd::arithmetic::power2::{lemma_pow2_adds, lemma_pow2_pos, lemma_pow2_strictly_increases, lemma2_to64, pow2};

verus! {

/// `n / d` rounded to the nearest integer, ties to the even one.
pub open spec fn round_half_even(n: nat, d: nat) -> nat
    recommends
        d > 0,
{
    let q = n / d;
    let r = n % d;
    if 2 * r > d {
        q + 1
    } else if 2 * r < d {
        q
    } else {
        q + q % 2
    }
}

/// `n / d` scaled by `2^k` has exactly 53 significant bits.
pub open spec fn in_binade(n: nat, d: nat, k: nat) -> bool {
    pow2(52) * d <= n * pow2(k) < pow2(53) * d
}

/// The double nearest `n / d` (for `0 < n / d < 2^53`), as `(m, k)`: the
/// value `m / 2^k`.
pub open spec fn nearest_f64(n: nat, d: nat) -> (nat, nat) {
    let k = choose|k: nat| in_binade(n, d, k);
    (round_half_even(n * pow2(k), d), k)
}

/// `b` has 53 significant bits once divided by `2^s`.
pub open spec fn int_binade(b: nat, s: nat) -> bool {
    pow2(52) * pow2(s) <= b < pow2(53) * pow2(s)
}

/// The exact value of `b as f64`: `b` itself below 2^53, else `b` rounded to
/// its 53 leading bits, ties to even.
pub open spec fn f64_of(b: nat) -> nat {
    if b < pow2(53) {
        b
    } else {
        let s = choose|s: nat| int_binade(b, s);
        round_half_even(b, pow2(s)) * pow2(s)
    }
}

pub proof fn lemma_round_half_even_bounds(n: nat, d: nat)
    requires
        d > 0,
    ensures
        n / d <= round_half_even(n, d) <= n / d + 1,
{
}

proof fn lemma_pow2_facts()
    ensures
        pow2(52) == 0x10_0000_0000_0000,
        pow2(53) == 0x20_0000_0000_0000,
        pow2(64) == 0x1_0000_0000_0000_0000,
{
    lemma2_to64();
    vstd::arithmetic::power2::lemma2_to64_rest();
}

/// At most one scale puts a ratio in the binade.
proof fn lemma_binade_unique(n: nat, d: nat, k1: nat, k2: nat)
    requires
        in_binade(n, d, k1),
        in_binade(n, d, k2),
    ensures
        k1 == k2,
{
    lemma_pow2_facts();
    if k1 < k2 {
        lemma_pow2_adds(k1, (k2 - k1) as nat);
        lemma_pow2_strictly_increases(0, (k2 - k1) as nat);
        lemma2_to64();
        let a = n * pow2(k1);
        let g = pow2((k2 - k1) as nat);
        assert(n * pow2(k2) == a * g) by (nonlinear_arith)
            requires
                pow2(k2) == pow2(k1) * g,
                a == n * pow2(k1),
        ;
        assert(a * g >= 2 * a) by (nonlinear_arith)
            requires
                g >= 2,
                a >= 0,
        ;
    } else if k2 < k1 {
        lemma_pow2_adds(k2, (k1 - k2) as nat);
        lemma_pow2_strictly_increases(0, (k1 - k2) as nat);
        lemma2_to64();
        let a = n * pow2(k2);
        let g = pow2((k1 - k2) as nat);
        assert(n * pow2(k1) == a * g) by (nonlinear_arith)
            requires
                pow2(k1) == pow2(k2) * g,
                a == n * pow2(k2),
        ;
        assert(a * g >= 2 * a) by (nonlinear_arith)
            requires
                g >= 2,
                a >= 0,
        ;
    }
}

/// At most one shift puts an integer in the binade.
proof fn lemma_int_binade_unique(b: nat, s1: nat, s2: nat)
    requires
        int_binade(b, s1),
        int_binade(b, s2),
    ensures
        s1 == s2,
{
    lemma_pow2_facts();
    lemma_pow2_adds(52, s1);
    lemma_pow2_adds(53, s1);
    lemma_pow2_adds(52, s2);
    lemma_pow2_adds(53, s2);
    if s1 < s2 {
        if 53 + s1 < 52 + s2 {
            lemma_pow2_strictly_increases(53 + s1, 52 + s2);
        }
    } else if s2 < s1 {
        if 53 + s2 < 52 + s1 {
            lemma_pow2_strictly_increases(53 + s2, 52 + s1);
        }
    }
}

/// `n / d` rounded to the nearest integer, ties to even.
pub fn round_half_even_exec(n: u128, d: u128) -> (r: u128)
    requires
        d > 0,
        n / d < u128::MAX,
    ensures
        r == round_half_even(n as nat, d as nat),
{
    let q = n / d;
    let r = n % d;
    if r > d - r {
        q + 1
    } else if r < d - r {
        q
    } else {
        q + q % 2
    }
}

/// The double nearest `n / d`, as its significand and `2^k`.
pub fn nearest_f64_exec(n: u128, d: u128) -> (r: (u128, u128))
    requires
        1 <= n <= 0x1_0000_0000_0000_0000,
        1_000_000 <= d <= 1_000_000_000,
    ensures
        r.0 == nearest_f64(n as nat, d as nat).0,
        r.1 == pow2(nearest_f64(n as nat, d as nat).1),
        r.0 <= 0x20_0000_0000_0000,
        1 <= r.1 < 0x800_0000_0000_0000_0000_0000,
{
    proof {
        lemma_pow2_facts();
    }
    let target: u128 = 0x10_0000_0000_0000 * d;
    let mut p: u128 = 1;
    let ghost mut k: nat = 0;
    proof {
        lemma2_to64();
        assert(n * 1 < 2 * target);
    }
    while n * p < target
        invariant
            1 <= n <= 0x1_0000_0000_0000_0000,
            1_000_000 <= d <= 1_000_000_000,
            target == 0x10_0000_0000_0000 * d,
            p == pow2(k),
            1 <= p,
            n * p < 2 * target,
        decreases 2 * target - n * p,
    {
        proof {
            lemma_pow2_adds(k, 1);
            lemma2_to64();
            assert(p <= n * p) by (nonlinear_arith)
                requires
                    n >= 1,
                    p >= 1,
            ;
            assert(n * (p * 2) == 2 * (n * p)) by (nonlinear_arith);
        }
        p = p * 2;
        proof {
            k = k + 1;
        }
    }
    proof {
        assert(p <= n * p) by (nonlinear_arith)
            requires
                n >= 1,
                p >= 1,
        ;
    }
    let m = round_half_even_exec(n * p, d);
    proof {
        assert(in_binade(n as nat, d as nat, k));
        let kk = choose|kk: nat| in_binade(n as nat, d as nat, kk);
        lemma_binade_unique(n as nat, d as nat, k, kk);
        lemma_round_half_even_bounds((n * p) as nat, d as nat);
        assert(((n * p) as int) / (d as int) < 0x20_0000_0000_0000) by (nonlinear_arith)
            requires
                n * p < 0x20_0000_0000_0000 * d,
                d >= 1,
        ;
    }
    (m, p)
}

/// The exact value of `b as f64`.
pub fn f64_of_exec(b: u64) -> (r: u128)
    ensures
        r == f64_of(b as nat),
        r <= 0x1_0000_0000_0000_0000,
        b >= 1 ==> r >= 1,
        b == 0 ==> r == 0,
{
    proof {
        lemma_pow2_facts();
    }
    if b < 0x20_0000_0000_0000 {
        return b as u128;
    }
    let x = b as u128;
    let mut ps: u128 = 1;
    let ghost mut s: nat = 0;
    proof {
        lemma2_to64();
    }
    while x >= 0x20_0000_0000_0000 * ps
        invariant
            x == b,
            x >= 0x20_0000_0000_0000,
            ps == pow2(s),
            1 <= ps,
            x >= 0x10_0000_0000_0000 * ps,
        decreases x - ps,
    {
        proof {
            lemma_pow2_adds(s, 1);
            lemma2_to64();
        }
        ps = ps * 2;
        proof {
            s = s + 1;
        }
    }
    proof {
        assert(ps < 0x1000);
        lemma_pow2_adds(52, s);
        lemma_pow2_adds(53, s);
        lemma2_to64();
        assert(int_binade(b as nat, s));
        let ss = choose|ss: nat| int_binade(b as nat, ss);
        lemma_int_binade_unique(b as nat, s, ss);
        lemma_round_half_even_bounds(x as nat, ps as nat);
        assert(x / ps < 0x20_0000_0000_0000) by (nonlinear_arith)
            requires
                x < 0x20_0000_0000_0000 * ps,
                ps >= 1,
        ;
        if s > 12 {
            lemma_pow2_strictly_increases(12, s);
        }
        if s < 11 {
            lemma_pow2_strictly_increases(s, 11);
        }
        assert(ps <= 0x800);
    }
    let m = round_half_even_exec(x, ps);
    proof {
        assert(m * ps <= 0x20_0000_0000_0000 * 0x800) by (nonlinear_arith)
            requires
                m <= 0x20_0000_0000_0000,
                ps <= 0x800,
        ;
        assert(m >= 1) by (nonlinear_arith)
            requires
                x >= 0x10_0000_0000_0000 * ps,
                ps >= 1,
                m >= x / ps,
        ;
        assert(m * ps >= 1) by (nonlinear_arith)
            requires
                m >= 1,
                ps >= 1,
        ;
    }
    m * ps
}

/// The exact value of `x as f64`, for `x` below 2^66.
pub fn f64_of_wide(x: u128) -> (r: u128)
    requires
        x < 0x4_0000_0000_0000_0000,
    ensures
        r == f64_of(x as nat),
        r <= 0x4_0000_0000_0000_0000,
{
    proof {
        lemma_pow2_facts();
    }
    if x < 0x20_0000_0000_0000 {
        return x;
    }
    let mut ps: u128 = 1;
    let ghost mut s: nat = 0;
    proof {
        lemma2_to64();
    }
    while x >= 0x20_0000_0000_0000 * ps
        invariant
            x < 0x4_0000_0000_0000_0000,
            x >= 0x20_0000_0000_0000,
            ps == pow2(s),
            1 <= ps,
            x >= 0x10_0000_0000_0000 * ps,
        decreases x - ps,
    {
        proof {
            lemma_pow2_adds(s, 1);
            lemma2_to64();
        }
        ps = ps * 2;
        proof {
            s = s + 1;
        }
    }
    proof {
        assert(ps < 0x4000);
        lemma_pow2_adds(52, s);
        lemma_pow2_adds(53, s);
        lemma2_to64();
        assert(int_binade(x as nat, s));
        let ss = choose|ss: nat| int_binade(x as nat, ss);
        lemma_int_binade_unique(x as nat, s, ss);
        lemma_round_half_even_bounds(x as nat, ps as nat);
        assert(x / ps < 0x20_0000_0000_0000) by (nonlinear_arith)
            requires
                x < 0x20_0000_0000_0000 * ps,
                ps >= 1,
        ;
        if s > 14 {
            lemma_pow2_strictly_increases(14, s);
        }
        if s < 13 {
            lemma_pow2_strictly_increases(s, 13);
        }
        vstd::arithmetic::power2::lemma2_to64_rest();
        assert(ps <= 0x2000);
    }
    let m = round_half_even_exec(x, ps);
    proof {
        assert(m * ps <= 0x20_0000_0000_0000 * 0x2000) by (nonlinear_arith)
            requires
                m <= 0x20_0000_0000_0000,
                ps <= 0x2000,
        ;
    }
    m * ps
}

} // verus!
