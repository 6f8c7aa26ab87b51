//! Arithmétique des sondes : sur une capacité première, le pas du double
//! hachage parcourt toutes les cases.

use vstd::prelude::*;
use vstd::arithmetic::div_mod::{
    lemma_fundamental_div_mod, lemma_mod_division_less_than_divisor, lemma_mod_multiples_basic,
    lemma_add_mod_noop_right, lemma_mul_mod_noop_left, lemma_small_mod,
    lemma_mod_multiples_vanish,
};

verus! {

/// Un entier premier : au moins 2, sans diviseur propre.
pub open spec fn est_premier(p: int) -> bool {
    2 <= p && forall|d: int| 2 <= d < p ==> #[trigger] (p % d) != 0
}

/// `d` divise `n`.
pub open spec fn divise(d: int, n: int) -> bool {
    exists|q: int| n == #[trigger] (d * q)
}

/// Identité de Bézout, par l'algorithme d'Euclide : rend (g, x, y) avec
/// g = a·x + b·y, g > 0, et g divisant a et b.
pub proof fn lemma_bezout(a: int, b: int) -> (r: (int, int, int))
    requires
        a > 0,
        b >= 0,
    ensures
        r.0 > 0,
        r.0 == a * r.1 + b * r.2,
        divise(r.0, a),
        divise(r.0, b),
    decreases b,
{
    if b == 0 {
        assert(a == a * 1 + b * 0) by (nonlinear_arith);
        assert(a == a * 1) by (nonlinear_arith);
        assert(0 == a * 0) by (nonlinear_arith);
        (a, 1int, 0int)
    } else {
        lemma_mod_division_less_than_divisor(a, b);
        let (g, x, y) = lemma_bezout(b, a % b);
        lemma_fundamental_div_mod(a, b);
        let q = a / b;
        let x2 = y;
        let y2 = x - q * y;
        assert(a == b * q + a % b);
        assert(g == b * x + (a % b) * y);
        assert(a * x2 + b * y2 == g) by (nonlinear_arith)
            requires
                a == b * q + a % b,
                g == b * x + (a % b) * y,
                x2 == y,
                y2 == x - q * y,
        ;
        let q1 = choose|q1: int| b == #[trigger] (g * q1);
        let q2 = choose|q2: int| (a % b) == #[trigger] (g * q2);
        assert(a == g * (q1 * q + q2)) by (nonlinear_arith)
            requires
                a == b * q + a % b,
                b == g * q1,
                a % b == g * q2,
        ;
        (g, x2, y2)
    }
}

/// Sur un module premier, tout pas non nul a un inverse : rend (x, y) avec
/// p·x + s·y = 1.
pub proof fn lemma_inverse_modulaire(p: int, s: int) -> (r: (int, int))
    requires
        est_premier(p),
        0 < s < p,
    ensures
        p * r.0 + s * r.1 == 1,
{
    let (g, x, y) = lemma_bezout(p, s);
    let q1 = choose|q: int| p == #[trigger] (g * q);
    let q2 = choose|q: int| s == #[trigger] (g * q);
    if g >= 2 {
        // g divise s, 0 < s, donc g <= s < p : g serait un diviseur propre.
        assert(q2 >= 1) by (nonlinear_arith)
            requires
                s == g * q2,
                s > 0,
                g >= 2,
        ;
        assert(g <= s) by (nonlinear_arith)
            requires
                s == g * q2,
                q2 >= 1,
                g > 0,
        ;
        assert(g * q1 == q1 * g) by (nonlinear_arith);
        lemma_mod_multiples_basic(q1, g);
        assert(p % g == 0);
        assert(false);
    }
    assert(g == 1);
    (x, y)
}

/// La suite de sondage atteint chaque case : pour toute cible t il existe
/// un indice i sous la capacité première avec (h + i·s) mod p = t.
pub proof fn lemma_sonde_surjective(p: int, h: int, s: int, t: int) -> (i: int)
    requires
        est_premier(p),
        0 <= h < p,
        0 < s < p,
        0 <= t < p,
    ensures
        0 <= i < p,
        (h + i * s) % p == t,
{
    let (x, y) = lemma_inverse_modulaire(p, s);
    let d = t - h;
    let i = (d * y) % p;
    lemma_mod_division_less_than_divisor(d * y, p);
    assert(0 <= i < p);
    // (i·s) mod p = (d·y·s) mod p
    lemma_mul_mod_noop_left(d * y, s, p);
    assert((i * s) % p == (d * y * s) % p);
    // d·y·s = d - (d·x)·p
    assert(d * y * s == (-(d * x)) * p + d) by (nonlinear_arith)
        requires
            p * x + s * y == 1,
            d == t - h,
    ;
    lemma_mod_multiples_vanish(-(d * x), d, p);
    assert((d * y * s) % p == d % p);
    // h + i·s ≡ h + d = t (mod p)
    lemma_add_mod_noop_right(h, i * s, p);
    assert((h + i * s) % p == (h + (i * s) % p) % p);
    assert((h + (i * s) % p) % p == (h + d % p) % p);
    lemma_add_mod_noop_right(h, d, p);
    assert((h + d % p) % p == (h + d) % p);
    assert(h + d == t);
    lemma_small_mod(t as nat, p as nat);
    i
}

} // verus!
