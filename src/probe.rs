use vstd::prelude::*;

use vstd::arithmetic::div_mod::{
    lemma_add_mod_noop, lemma_fundamental_div_mod, lemma_mod_mod, lemma_mod_multiples_vanish,
};

verus! {

/// `n` is a power of two.
pub open spec fn is_pow2(n: int) -> bool
    decreases n,
{
    if n <= 1 {
        n == 1
    } else {
        n % 2 == 0 && is_pow2(n / 2)
    }
}

/// Of two powers of two, the smaller one at least doubles into the larger.
pub proof fn lemma_pow2_double_le(a: int, b: int)
    requires
        is_pow2(a),
        is_pow2(b),
        a < b,
    ensures
        2 * a <= b,
    decreases b,
{
    if a > 1 {
        lemma_pow2_double_le(a / 2, b / 2);
    }
}

/// The triangular number `0 + 1 + ... + d`.
pub open spec fn tri(d: nat) -> nat
    decreases d,
{
    if d == 0 {
        0
    } else {
        tri((d - 1) as nat) + d
    }
}

/// Slot visited at step `d` of the probe sequence that starts at `home` in a
/// table of `n` slots: triangular (quadratic) probing.
pub open spec fn probe(home: int, d: int, n: int) -> int {
    (home + tri(d as nat)) % n
}

pub proof fn lemma_tri_closed(d: nat)
    ensures
        2 * tri(d) == d * (d + 1),
    decreases d,
{
    if d == 0 {
        assert(tri(0) == 0);
    } else {
        lemma_tri_closed((d - 1) as nat);
        assert(tri(d) == tri((d - 1) as nat) + d);
        assert(2 * tri(d) == d * (d + 1)) by (nonlinear_arith)
            requires
                tri(d) == tri((d - 1) as nat) + d,
                2 * tri((d - 1) as nat) == (d - 1) * d,
                d > 0,
        ;
    }
}

/// In a table of `2m` slots, the step `2m - 1 - d` lands `m` slots away from
/// step `d`.
proof fn lemma_tri_mirror(m: nat, d: nat)
    requires
        m > 0,
        d < 2 * m,
    ensures
        tri((2 * m - 1 - d) as nat) as int == tri(d) + m + 2 * m * (m - 1 - d),
{
    let e = (2 * m - 1 - d) as nat;
    lemma_tri_closed(d);
    lemma_tri_closed(e);
    assert(2 * (tri(e) as int) == 2 * (tri(d) + m + 2 * m * (m - 1 - d))) by (nonlinear_arith)
        requires
            2 * tri(d) == d * (d + 1),
            2 * tri(e) == e * (e + 1),
            e == 2 * m - 1 - d,
    ;
}

/// Triangular numbers reach every residue modulo a power of two.
#[verifier::rlimit(30)]
pub proof fn lemma_tri_covers(n: int, r: int)
    requires
        is_pow2(n),
        0 <= r < n,
    ensures
        exists|d: int| 0 <= d < n && #[trigger] (tri(d as nat) as int % n) == r,
    decreases n,
{
    if n == 1 {
        let d: int = 0;
        assert(tri(d as nat) == 0);
        assert(tri(d as nat) as int % n == r);
    } else {
        let m = n / 2;
        assert(n == 2 * m);
        assert(m >= 1) by {
            assert(n > 1);
        }
        let r0 = r % m;
        lemma_tri_covers(m, r0);
        let d0 = choose|d: int| 0 <= d < m && #[trigger] (tri(d as nat) as int % m) == r0;
        let x = tri(d0 as nat) as int;
        lemma_mod_mod(x, m, 2);
        lemma_mod_mod(r, m, 2);
        assert(m * 2 == n);
        lemma_fundamental_div_mod(x % n, m);
        lemma_fundamental_div_mod(r, m);
        assert(0 <= x % n < n);
        assert((x % n) / m == 0 || (x % n) / m == 1) by (nonlinear_arith)
            requires
                0 <= x % n < n,
                n == 2 * m,
                m > 0,
                x % n == m * ((x % n) / m) + (x % n) % m,
                0 <= (x % n) % m < m,
        ;
        assert(r / m == 0 || r / m == 1) by (nonlinear_arith)
            requires
                0 <= r < n,
                n == 2 * m,
                m > 0,
                r == m * (r / m) + r % m,
                0 <= r % m < m,
        ;
        if x % n == r {
            assert(0 <= d0 < n);
            assert(tri(d0 as nat) as int % n == r);
        } else {
            let e = 2 * m - 1 - d0;
            lemma_tri_mirror(m as nat, d0 as nat);
            let y = tri(e as nat) as int;
            assert(y == (x + m) + n * (m - 1 - d0));
            lemma_mod_multiples_vanish(m - 1 - d0, x + m, n);
            assert(y % n == (x + m) % n);
            lemma_add_mod_noop(x, m, n);
            assert(m % n == m) by {
                vstd::arithmetic::div_mod::lemma_small_mod(m as nat, n as nat);
            }
            assert((x % n + m) % n == r) by {
                if x % n < m {
                    vstd::arithmetic::div_mod::lemma_small_mod((x % n + m) as nat, n as nat);
                } else {
                    vstd::arithmetic::div_mod::lemma_small_mod((x % n - m) as nat, n as nat);
                    lemma_mod_multiples_vanish(1, x % n - m, n);
                }
            }
            assert(0 <= e < n);
            assert(tri(e as nat) as int % n == r);
        }
    }
}

/// The probe sequence from any home reaches every slot of a power-of-two table
/// within `n` steps.
pub proof fn lemma_probe_covers(home: int, n: int, s: int)
    requires
        is_pow2(n),
        0 <= home < n,
        0 <= s < n,
    ensures
        exists|d: int| 0 <= d < n && #[trigger] probe(home, d, n) == s,
{
    let r = if s >= home {
        s - home
    } else {
        s + n - home
    };
    lemma_tri_covers(n, r);
    let d = choose|d: int| 0 <= d < n && #[trigger] (tri(d as nat) as int % n) == r;
    lemma_add_mod_noop(home, tri(d as nat) as int, n);
    vstd::arithmetic::div_mod::lemma_small_mod(home as nat, n as nat);
    if s >= home {
        vstd::arithmetic::div_mod::lemma_small_mod(s as nat, n as nat);
    } else {
        lemma_mod_multiples_vanish(1, s, n);
        vstd::arithmetic::div_mod::lemma_small_mod(s as nat, n as nat);
    }
    assert(probe(home, d, n) == s);
}

/// One probe step: step `d + 1` lies `d + 1` slots after step `d`.
pub proof fn lemma_probe_step(home: int, d: int, n: int)
    requires
        n > 0,
        d >= 0,
    ensures
        probe(home, d + 1, n) == (probe(home, d, n) + d + 1) % n,
{
    assert(tri((d + 1) as nat) == tri(d as nat) + d + 1);
    lemma_add_mod_noop(home + tri(d as nat), d + 1, n);
    lemma_add_mod_noop(probe(home, d, n), d + 1, n);
    vstd::arithmetic::div_mod::lemma_mod_twice(home + tri(d as nat), n);
}

} // verus!
