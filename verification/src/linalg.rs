//! Finite sums, matrix products and congruence modulo the field order, as
//! used to state and prove the coding and decoding of RLNC pieces.
use vstd::prelude::*;
use vstd::arithmetic::div_mod::{
    lemma_add_mod_noop, lemma_mul_mod_noop_left, lemma_mul_mod_noop_right, lemma_sub_mod_noop,
};
use vstd::arithmetic::mul::{
    lemma_mul_is_associative, lemma_mul_is_commutative, lemma_mul_is_distributive_add,
    lemma_mul_is_distributive_sub,
};

use crate::scalar::{fmul, fsub, modulus};

verus! {

/// `a` and `b` are congruent modulo the field order.
pub open spec fn cong(a: int, b: int) -> bool {
    a % (modulus() as int) == b % (modulus() as int)
}

/// `f(0) + f(1) + ... + f(n - 1)`.
pub open spec fn sum(f: spec_fn(int) -> int, n: nat) -> int
    decreases n,
{
    if n == 0 {
        0
    } else {
        sum(f, (n - 1) as nat) + f(n - 1)
    }
}

/// Entry `(i, j)` of the product of the `n`-by-`n` matrices `x` and `y`.
pub open spec fn mat_mul(x: spec_fn(int, int) -> int, y: spec_fn(int, int) -> int, n: nat, i: int, j: int) -> int {
    sum(|k: int| x(i, k) * y(k, j), n)
}

/// Entry `i` of the product of the matrix `x` with the column vector `v`.
pub open spec fn mat_vec(x: spec_fn(int, int) -> int, v: spec_fn(int) -> int, n: nat, i: int) -> int {
    sum(|k: int| x(i, k) * v(k), n)
}

/// The identity matrix.
pub open spec fn ident(i: int, j: int) -> int {
    if i == j {
        1
    } else {
        0
    }
}

/// `b` is a left inverse of `a` modulo the field order.
pub open spec fn is_left_inverse(b: spec_fn(int, int) -> int, a: spec_fn(int, int) -> int, n: nat) -> bool {
    forall|i: int, j: int|
        0 <= i < n && 0 <= j < n ==> #[trigger] cong(mat_mul(b, a, n, i, j), ident(i, j))
}

/// `b` is a right inverse of `a` modulo the field order.
pub open spec fn is_right_inverse(b: spec_fn(int, int) -> int, a: spec_fn(int, int) -> int, n: nat) -> bool {
    forall|i: int, j: int|
        0 <= i < n && 0 <= j < n ==> #[trigger] cong(mat_mul(a, b, n, i, j), ident(i, j))
}

/// The identity matrix as a function.
pub open spec fn ident_fn() -> spec_fn(int, int) -> int {
    |i: int, j: int| ident(i, j)
}

/// `a` has a left inverse modulo the field order.
pub open spec fn invertible(a: spec_fn(int, int) -> int, n: nat) -> bool {
    exists|b: spec_fn(int, int) -> int| is_left_inverse(b, a, n)
}

pub proof fn lemma_sum_ext(f: spec_fn(int) -> int, g: spec_fn(int) -> int, n: nat)
    requires
        forall|k: int| 0 <= k < n ==> #[trigger] f(k) == g(k),
    ensures
        sum(f, n) == sum(g, n),
    decreases n,
{
    if n > 0 {
        lemma_sum_ext(f, g, (n - 1) as nat);
    }
}

pub proof fn lemma_cong_add(a: int, b: int, c: int, d: int)
    requires
        cong(a, b),
        cong(c, d),
    ensures
        cong(a + c, b + d),
{
    let m = modulus() as int;
    lemma_add_mod_noop(a, c, m);
    lemma_add_mod_noop(b, d, m);
}

pub proof fn lemma_cong_sub(a: int, b: int, c: int, d: int)
    requires
        cong(a, b),
        cong(c, d),
    ensures
        cong(a - c, b - d),
{
    let m = modulus() as int;
    lemma_sub_mod_noop(a, c, m);
    lemma_sub_mod_noop(b, d, m);
}

pub proof fn lemma_cong_mul(a: int, b: int, c: int, d: int)
    requires
        cong(a, b),
        cong(c, d),
    ensures
        cong(a * c, b * d),
{
    let m = modulus() as int;
    lemma_mul_mod_noop_left(a, c, m);
    lemma_mul_mod_noop_left(b, c, m);
    lemma_mul_mod_noop_right(b, c, m);
    lemma_mul_mod_noop_right(b, d, m);
}

/// A value is congruent to its reduction.
pub proof fn lemma_cong_mod(a: int)
    ensures
        cong(a % (modulus() as int), a),
{
    let m = modulus() as int;
    vstd::arithmetic::div_mod::lemma_mod_twice(a, m);
}

/// Congruent values below the modulus are equal.
pub proof fn lemma_cong_small(a: int, b: int)
    requires
        cong(a, b),
        0 <= a < modulus(),
        0 <= b < modulus(),
    ensures
        a == b,
{
    let m = modulus() as int;
    vstd::arithmetic::div_mod::lemma_small_mod(a as nat, m as nat);
    vstd::arithmetic::div_mod::lemma_small_mod(b as nat, m as nat);
}

/// Sums of termwise congruent functions are congruent.
pub proof fn lemma_sum_cong(f: spec_fn(int) -> int, g: spec_fn(int) -> int, n: nat)
    requires
        forall|k: int| 0 <= k < n ==> #[trigger] cong(f(k), g(k)),
    ensures
        cong(sum(f, n), sum(g, n)),
    decreases n,
{
    if n > 0 {
        lemma_sum_cong(f, g, (n - 1) as nat);
        lemma_cong_add(sum(f, (n - 1) as nat), sum(g, (n - 1) as nat), f(n - 1), g(n - 1));
    }
}

/// `sum(h) == a * sum(f) + b * sum(g)` when `h == a * f + b * g` termwise.
pub proof fn lemma_sum_linear(
    f: spec_fn(int) -> int,
    g: spec_fn(int) -> int,
    h: spec_fn(int) -> int,
    a: int,
    b: int,
    n: nat,
)
    requires
        forall|k: int| 0 <= k < n ==> #[trigger] h(k) == a * f(k) + b * g(k),
    ensures
        sum(h, n) == a * sum(f, n) + b * sum(g, n),
    decreases n,
{
    if n > 0 {
        let n1 = (n - 1) as nat;
        lemma_sum_linear(f, g, h, a, b, n1);
        lemma_mul_is_distributive_add(a, sum(f, n1), f(n - 1));
        lemma_mul_is_distributive_add(b, sum(g, n1), g(n - 1));
        assert(h(n - 1) == a * f(n - 1) + b * g(n - 1));
    }
}

/// `sum(g) == c * sum(f)` when `g == c * f` termwise.
pub proof fn lemma_sum_scale(f: spec_fn(int) -> int, g: spec_fn(int) -> int, c: int, n: nat)
    requires
        forall|k: int| 0 <= k < n ==> #[trigger] g(k) == c * f(k),
    ensures
        sum(g, n) == c * sum(f, n),
{
    assert forall|k: int| 0 <= k < n implies #[trigger] g(k) == c * f(k) + 0 * f(k) by {
        assert(g(k) == c * f(k));
    }
    lemma_sum_linear(f, f, g, c, 0, n);
}

/// Changing one term of a sum changes the sum by the same amount.
pub proof fn lemma_sum_update(f: spec_fn(int) -> int, g: spec_fn(int) -> int, n: nat, t: int)
    requires
        0 <= t < n,
        forall|k: int| 0 <= k < n && k != t ==> #[trigger] f(k) == g(k),
    ensures
        sum(g, n) == sum(f, n) - f(t) + g(t),
    decreases n,
{
    let n1 = (n - 1) as nat;
    if t == n - 1 {
        lemma_sum_ext(f, g, n1);
    } else {
        lemma_sum_update(f, g, n1, t);
    }
}

/// A sum is unchanged when two of its terms trade places.
pub proof fn lemma_sum_transpose(f: spec_fn(int) -> int, g: spec_fn(int) -> int, n: nat, p: int, q: int)
    requires
        0 <= p < n,
        0 <= q < n,
        g(p) == f(q),
        g(q) == f(p),
        forall|k: int| 0 <= k < n && k != p && k != q ==> #[trigger] f(k) == g(k),
    ensures
        sum(g, n) == sum(f, n),
{
    if p == q {
        lemma_sum_ext(f, g, n);
    } else {
        let mid = |k: int|
            if k == p {
                g(p)
            } else {
                f(k)
            };
        lemma_sum_update(f, mid, n, p);
        lemma_sum_update(mid, g, n, q);
    }
}

/// `sum_k ident(i, k) * v(k) == v(i)`.
pub proof fn lemma_sum_ident(v: spec_fn(int) -> int, n: nat, i: int)
    requires
        0 <= i < n,
    ensures
        sum(|k: int| ident(i, k) * v(k), n) == v(i),
{
    let f = |k: int| ident(i, k) * v(k);
    let z = |k: int| 0int;
    assert forall|k: int| 0 <= k < n && k != i implies #[trigger] z(k) == f(k) by {}
    lemma_sum_update(z, f, n, i);
    lemma_sum_zero(n);
}

pub proof fn lemma_sum_zero(n: nat)
    ensures
        sum(|k: int| 0int, n) == 0,
    decreases n,
{
    if n > 0 {
        lemma_sum_zero((n - 1) as nat);
    }
}

/// Sums of a two-dimensional array may be taken in either order.
pub proof fn lemma_sum_exchange(h: spec_fn(int, int) -> int, n: nat, m: nat)
    ensures
        sum(|j: int| sum(|k: int| h(k, j), n), m) == sum(|k: int| sum(|j: int| h(k, j), m), n),
    decreases m,
{
    let lhs = |j: int| sum(|k: int| h(k, j), n);
    if m == 0 {
        lemma_sum_zero(n);
        lemma_sum_ext(|k: int| 0int, |k: int| sum(|j: int| h(k, j), 0), n);
    } else {
        let m1 = (m - 1) as nat;
        lemma_sum_exchange(h, n, m1);
        let prev = |k: int| sum(|j: int| h(k, j), m1);
        let last = |k: int| h(k, m - 1);
        let full = |k: int| sum(|j: int| h(k, j), m);
        assert forall|k: int| 0 <= k < n implies #[trigger] full(k) == 1 * prev(k) + 1 * last(k) by {}
        lemma_sum_linear(prev, last, full, 1, 1, n);
        assert(lhs(m - 1) == sum(last, n));
    }
}

/// Matrix products are associative when applied to a vector:
/// `((x * y) * v)_i == (x * (y * v))_i`.
pub proof fn lemma_mat_vec_assoc(
    x: spec_fn(int, int) -> int,
    y: spec_fn(int, int) -> int,
    v: spec_fn(int) -> int,
    n: nat,
    i: int,
)
    ensures
        sum(|l: int| mat_mul(x, y, n, i, l) * v(l), n) == mat_vec(
            x,
            |k: int| mat_vec(y, v, n, k),
            n,
            i,
        ),
{
    let h = |k: int, l: int| x(i, k) * (y(k, l) * v(l));
    lemma_sum_exchange(h, n, n);
    let left = |l: int| mat_mul(x, y, n, i, l) * v(l);
    let left2 = |l: int| sum(|k: int| h(k, l), n);
    assert forall|l: int| 0 <= l < n implies #[trigger] left(l) == left2(l) by {
        let a = |k: int| x(i, k) * y(k, l);
        let b = |k: int| h(k, l);
        assert forall|k: int| 0 <= k < n implies #[trigger] b(k) == v(l) * a(k) by {
            lemma_mul_is_associative(x(i, k), y(k, l), v(l));
            lemma_mul_is_commutative(x(i, k) * y(k, l), v(l));
        }
        lemma_sum_scale(a, b, v(l), n);
        lemma_mul_is_commutative(sum(a, n), v(l));
    }
    lemma_sum_ext(left, left2, n);
    let right = |k: int| x(i, k) * mat_vec(y, v, n, k);
    let right2 = |k: int| sum(|l: int| h(k, l), n);
    assert forall|k: int| 0 <= k < n implies #[trigger] right(k) == right2(k) by {
        let a = |l: int| y(k, l) * v(l);
        let b = |l: int| h(k, l);
        lemma_sum_scale(a, b, x(i, k), n);
    }
    lemma_sum_ext(right, right2, n);
    let inner = |k: int| mat_vec(y, v, n, k);
    lemma_sum_ext(right, |k: int| x(i, k) * inner(k), n);
}


/// Row `r` of `e * a` is congruent to row `r` of `c`.
pub open spec fn row_ok(e: spec_fn(int, int) -> int, a: spec_fn(int, int) -> int, c: spec_fn(int, int) -> int, n: nat, r: int) -> bool {
    forall|j: int| 0 <= j < n ==> #[trigger] cong(mat_mul(e, a, n, r, j), c(r, j))
}

/// `g * x` is congruent to `c` everywhere.
pub open spec fn prod_ok(g: spec_fn(int, int) -> int, x: spec_fn(int, int) -> int, c: spec_fn(int, int) -> int, n: nat) -> bool {
    forall|i: int, j: int| 0 <= i < n && 0 <= j < n ==> #[trigger] cong(mat_mul(g, x, n, i, j), c(i, j))
}

/// Replacing row `r` of both `e` and `c` by the same combination
/// `alpha * row r + beta * row p` keeps row `r` of `e * a` congruent to row `r` of `c`.
pub proof fn lemma_row_lincomb(
    e: spec_fn(int, int) -> int,
    a: spec_fn(int, int) -> int,
    c: spec_fn(int, int) -> int,
    e2: spec_fn(int, int) -> int,
    c2: spec_fn(int, int) -> int,
    n: nat,
    r: int,
    p: int,
    alpha: int,
    beta: int,
)
    requires
        row_ok(e, a, c, n, r),
        row_ok(e, a, c, n, p),
        forall|k: int| 0 <= k < n ==> #[trigger] cong(e2(r, k), alpha * e(r, k) + beta * e(p, k)),
        forall|j: int| 0 <= j < n ==> #[trigger] cong(c2(r, j), alpha * c(r, j) + beta * c(p, j)),
    ensures
        row_ok(e2, a, c2, n, r),
{
    assert forall|j: int| 0 <= j < n implies #[trigger] cong(mat_mul(e2, a, n, r, j), c2(r, j)) by {
        let t2 = |k: int| e2(r, k) * a(k, j);
        let tr = |k: int| e(r, k) * a(k, j);
        let tp = |k: int| e(p, k) * a(k, j);
        let t = |k: int| (alpha * e(r, k) + beta * e(p, k)) * a(k, j);
        assert forall|k: int| 0 <= k < n implies #[trigger] cong(t2(k), t(k)) by {
            lemma_cong_mul(e2(r, k), alpha * e(r, k) + beta * e(p, k), a(k, j), a(k, j));
        }
        lemma_sum_cong(t2, t, n);
        assert forall|k: int| 0 <= k < n implies #[trigger] t(k) == alpha * tr(k) + beta * tp(k) by {
            lemma_mul_is_distributive_add(a(k, j), alpha * e(r, k), beta * e(p, k));
            lemma_mul_is_commutative(a(k, j), alpha * e(r, k) + beta * e(p, k));
            lemma_mul_is_commutative(a(k, j), alpha * e(r, k));
            lemma_mul_is_commutative(a(k, j), beta * e(p, k));
            lemma_mul_is_associative(alpha, e(r, k), a(k, j));
            lemma_mul_is_associative(beta, e(p, k), a(k, j));
        }
        lemma_sum_linear(tr, tp, t, alpha, beta, n);
        assert(cong(mat_mul(e, a, n, r, j), c(r, j)));
        assert(cong(mat_mul(e, a, n, p, j), c(p, j)));
        lemma_sum_ext(tr, |k: int| e(r, k) * a(k, j), n);
        lemma_sum_ext(tp, |k: int| e(p, k) * a(k, j), n);
        assert(cong(sum(tr, n), c(r, j)));
        assert(cong(sum(tp, n), c(p, j)));
        lemma_cong_mul(alpha, alpha, sum(tr, n), c(r, j));
        lemma_cong_mul(beta, beta, sum(tp, n), c(p, j));
        lemma_cong_add(alpha * sum(tr, n), alpha * c(r, j), beta * sum(tp, n), beta * c(p, j));
        lemma_sum_ext(t2, |k: int| e2(r, k) * a(k, j), n);
        assert(cong(c2(r, j), alpha * c(r, j) + beta * c(p, j)));
    }
}

/// Exchanging columns `p` and `q` of `g` together with rows `p` and `q` of
/// `x` leaves `g * x` unchanged.
pub proof fn lemma_prod_transpose(
    g: spec_fn(int, int) -> int,
    x: spec_fn(int, int) -> int,
    c: spec_fn(int, int) -> int,
    g2: spec_fn(int, int) -> int,
    x2: spec_fn(int, int) -> int,
    n: nat,
    p: int,
    q: int,
)
    requires
        prod_ok(g, x, c, n),
        0 <= p < n,
        0 <= q < n,
        forall|i: int, k: int|
            0 <= i < n && 0 <= k < n ==> #[trigger] g2(i, k) == (if k == p {
                g(i, q)
            } else if k == q {
                g(i, p)
            } else {
                g(i, k)
            }),
        forall|k: int, j: int|
            0 <= k < n && 0 <= j < n ==> #[trigger] x2(k, j) == (if k == p {
                x(q, j)
            } else if k == q {
                x(p, j)
            } else {
                x(k, j)
            }),
    ensures
        prod_ok(g2, x2, c, n),
{
    assert forall|i: int, j: int| 0 <= i < n && 0 <= j < n implies #[trigger] cong(
        mat_mul(g2, x2, n, i, j),
        c(i, j),
    ) by {
        let t = |k: int| g(i, k) * x(k, j);
        let t2 = |k: int| g2(i, k) * x2(k, j);
        assert(t2(p) == t(q));
        assert(t2(q) == t(p));
        assert forall|k: int| 0 <= k < n && k != p && k != q implies #[trigger] t(k) == t2(k) by {}
        lemma_sum_transpose(t, t2, n, p, q);
        assert(cong(mat_mul(g, x, n, i, j), c(i, j)));
    }
}

/// Scaling column `p` of `g` by `u` and row `p` of `x` by `s`, where
/// `u * s` is congruent to one, leaves `g * x` congruent.
pub proof fn lemma_prod_scale(
    g: spec_fn(int, int) -> int,
    x: spec_fn(int, int) -> int,
    c: spec_fn(int, int) -> int,
    g2: spec_fn(int, int) -> int,
    x2: spec_fn(int, int) -> int,
    n: nat,
    p: int,
    u: int,
    s: int,
)
    requires
        prod_ok(g, x, c, n),
        0 <= p < n,
        cong(u * s, 1),
        forall|i: int, k: int|
            0 <= i < n && 0 <= k < n ==> #[trigger] g2(i, k) == (if k == p {
                g(i, p) * u
            } else {
                g(i, k)
            }),
        forall|j: int| 0 <= j < n ==> #[trigger] cong(x2(p, j), x(p, j) * s),
        forall|k: int, j: int| 0 <= k < n && 0 <= j < n && k != p ==> #[trigger] x2(k, j) == x(k, j),
    ensures
        prod_ok(g2, x2, c, n),
{
    assert forall|i: int, j: int| 0 <= i < n && 0 <= j < n implies #[trigger] cong(
        mat_mul(g2, x2, n, i, j),
        c(i, j),
    ) by {
        let t = |k: int| g(i, k) * x(k, j);
        let t2 = |k: int| g2(i, k) * x2(k, j);
        assert forall|k: int| 0 <= k < n implies #[trigger] cong(t2(k), t(k)) by {
            if k == p {
                let gp = g(i, p);
                let xp = x(p, j);
                lemma_cong_mul(gp * u, gp * u, x2(p, j), xp * s);
                assert((gp * u) * (xp * s) == (gp * xp) * (u * s)) by (nonlinear_arith);
                lemma_cong_mul(gp * xp, gp * xp, u * s, 1);
            }
        }
        lemma_sum_cong(t2, t, n);
        assert(cong(mat_mul(g, x, n, i, j), c(i, j)));
    }
}

/// Adding `f` times column `r` of `g` to its column `p`, while row `r` of `x`
/// loses `f` times row `p`, leaves `g * x` congruent.
pub proof fn lemma_prod_eliminate(
    g: spec_fn(int, int) -> int,
    x: spec_fn(int, int) -> int,
    c: spec_fn(int, int) -> int,
    g2: spec_fn(int, int) -> int,
    x2: spec_fn(int, int) -> int,
    n: nat,
    p: int,
    r: int,
    f: int,
)
    requires
        prod_ok(g, x, c, n),
        0 <= p < n,
        0 <= r < n,
        r != p,
        forall|i: int, k: int|
            0 <= i < n && 0 <= k < n ==> #[trigger] g2(i, k) == (if k == p {
                g(i, p) + f * g(i, r)
            } else {
                g(i, k)
            }),
        forall|j: int| 0 <= j < n ==> #[trigger] cong(x2(r, j), x(r, j) - f * x(p, j)),
        forall|k: int, j: int| 0 <= k < n && 0 <= j < n && k != r ==> #[trigger] x2(k, j) == x(k, j),
    ensures
        prod_ok(g2, x2, c, n),
{
    assert forall|i: int, j: int| 0 <= i < n && 0 <= j < n implies #[trigger] cong(
        mat_mul(g2, x2, n, i, j),
        c(i, j),
    ) by {
        let t = |k: int| g(i, k) * x(k, j);
        let t2 = |k: int| g2(i, k) * x2(k, j);
        let mid = |k: int|
            if k == p {
                t2(p)
            } else {
                t(k)
            };
        assert forall|k: int| 0 <= k < n && k != p implies #[trigger] t(k) == mid(k) by {}
        lemma_sum_update(t, mid, n, p);
        assert forall|k: int| 0 <= k < n && k != r implies #[trigger] mid(k) == t2(k) by {}
        lemma_sum_update(mid, t2, n, r);
        let gp = g(i, p);
        let gr = g(i, r);
        let xp = x(p, j);
        let xr = x(r, j);
        assert(t2(p) - t(p) == f * gr * xp) by (nonlinear_arith)
            requires
                t2(p) == (gp + f * gr) * xp,
                t(p) == gp * xp,
        ;
        lemma_cong_mul(gr, gr, x2(r, j), xr - f * xp);
        assert(gr * (xr - f * xp) == gr * xr - f * gr * xp) by (nonlinear_arith);
        assert(sum(t2, n) == sum(t, n) + f * gr * xp + (t2(r) - t(r)));
        lemma_cong_sub(t2(r), gr * xr - f * gr * xp, t(r), gr * xr);
        assert(cong(t2(r) - t(r), -(f * gr * xp)));
        lemma_cong_add(sum(t, n) + f * gr * xp, sum(t, n) + f * gr * xp, t2(r) - t(r), -(f * gr * xp));
        assert(cong(mat_mul(g, x, n, i, j), c(i, j)));
    }
}


/// `sum_k v(k) * ident(k, j) == v(j)`.
pub proof fn lemma_sum_ident_right(v: spec_fn(int) -> int, n: nat, j: int)
    requires
        0 <= j < n,
    ensures
        sum(|k: int| v(k) * ident(k, j), n) == v(j),
{
    let f = |k: int| v(k) * ident(k, j);
    let z = |k: int| 0int;
    assert forall|k: int| 0 <= k < n && k != j implies #[trigger] z(k) == f(k) by {}
    lemma_sum_update(z, f, n, j);
    lemma_sum_zero(n);
}

/// Once Gauss-Jordan elimination has reduced `m` to the identity, the matrix
/// `e` that recorded the row operations is a two-sided inverse of `a`.
pub proof fn lemma_reduced_inverse(
    a: spec_fn(int, int) -> int,
    g: spec_fn(int, int) -> int,
    m: spec_fn(int, int) -> int,
    e: spec_fn(int, int) -> int,
    n: nat,
)
    requires
        prod_ok(g, m, a, n),
        prod_ok(g, e, ident_fn(), n),
        forall|i: int, j: int| 0 <= i < n && 0 <= j < n ==> #[trigger] m(i, j) == ident(i, j),
        forall|i: int| 0 <= i < n ==> #[trigger] row_ok(e, a, m, n, i),
    ensures
        is_left_inverse(e, a, n),
        is_right_inverse(e, a, n),
{
    assert forall|i: int, j: int| 0 <= i < n && 0 <= j < n implies #[trigger] cong(
        mat_mul(e, a, n, i, j),
        ident(i, j),
    ) by {
        assert(row_ok(e, a, m, n, i));
        assert(cong(mat_mul(e, a, n, i, j), m(i, j)));
    }
    assert forall|i: int, k: int| 0 <= i < n && 0 <= k < n implies #[trigger] cong(g(i, k), a(i, k)) by {
        assert(cong(mat_mul(g, m, n, i, k), a(i, k)));
        lemma_sum_ext(|l: int| g(i, l) * m(l, k), |l: int| g(i, l) * ident(l, k), n);
        lemma_sum_ident_right(|l: int| g(i, l), n, k);
        lemma_sum_ext(|l: int| g(i, l) * ident(l, k), |l: int| (|l: int| g(i, l))(l) * ident(l, k), n);
    }
    assert forall|i: int, j: int| 0 <= i < n && 0 <= j < n implies #[trigger] cong(
        mat_mul(a, e, n, i, j),
        ident(i, j),
    ) by {
        let t = |k: int| a(i, k) * e(k, j);
        let t2 = |k: int| g(i, k) * e(k, j);
        assert forall|k: int| 0 <= k < n implies #[trigger] cong(t(k), t2(k)) by {
            assert(cong(g(i, k), a(i, k)));
            lemma_cong_mul(a(i, k), g(i, k), e(k, j), e(k, j));
        }
        lemma_sum_cong(t, t2, n);
        assert(cong(mat_mul(g, e, n, i, j), ident_fn()(i, j)));
    }
}

/// If the first `p` columns of `m` are unit vectors and column `p` is zero
/// from row `p` down, while `a` is congruent to `g * m`, then `a` has no left
/// inverse.
pub proof fn lemma_singular(
    a: spec_fn(int, int) -> int,
    g: spec_fn(int, int) -> int,
    m: spec_fn(int, int) -> int,
    n: nat,
    p: int,
)
    requires
        prod_ok(g, m, a, n),
        0 <= p < n,
        forall|k: int| p <= k < n ==> #[trigger] m(k, p) == 0,
        forall|k: int, c: int| 0 <= k < n && 0 <= c < p ==> #[trigger] m(k, c) == ident(k, c),
    ensures
        !invertible(a, n),
{
    let v = |c: int|
        if c < p {
            -m(c, p)
        } else if c == p {
            1int
        } else {
            0int
        };
    let z = |c: int| 0int;
    lemma_sum_zero(n);
    assert forall|k: int| 0 <= k < n implies #[trigger] mat_vec(m, v, n, k) == 0 by {
        let t = |c: int| m(k, c) * v(c);
        lemma_sum_ext(t, |c: int| m(k, c) * v(c), n);
        if k < p {
            let mid = |c: int|
                if c == k {
                    t(k)
                } else {
                    0int
                };
            assert forall|c: int| 0 <= c < n && c != k implies #[trigger] z(c) == mid(c) by {}
            lemma_sum_update(z, mid, n, k);
            assert forall|c: int| 0 <= c < n && c != p implies #[trigger] mid(c) == t(c) by {
                if c < p && c != k {
                    assert(m(k, c) == ident(k, c));
                }
            }
            assert(m(k, k) == ident(k, k));
            assert(v(p) == 1);
            assert(t(p) == m(k, p) * 1);
            lemma_sum_update(mid, t, n, p);
        } else {
            assert forall|c: int| 0 <= c < n implies #[trigger] t(c) == z(c) by {
                if c < p {
                    assert(m(k, c) == ident(k, c));
                } else if c == p {
                    assert(m(k, p) == 0);
                }
            }
            lemma_sum_ext(t, z, n);
        }
    }
    let mv = |k: int| mat_vec(m, v, n, k);
    assert forall|i: int| 0 <= i < n implies #[trigger] cong(mat_vec(a, v, n, i), 0) by {
        let t = |l: int| a(i, l) * v(l);
        let t2 = |l: int| mat_mul(g, m, n, i, l) * v(l);
        assert forall|l: int| 0 <= l < n implies #[trigger] cong(t(l), t2(l)) by {
            assert(cong(mat_mul(g, m, n, i, l), a(i, l)));
            lemma_cong_mul(a(i, l), mat_mul(g, m, n, i, l), v(l), v(l));
        }
        lemma_sum_cong(t, t2, n);
        lemma_mat_vec_assoc(g, m, v, n, i);
        let t3 = |k: int| g(i, k) * mv(k);
        assert forall|k: int| 0 <= k < n implies #[trigger] t3(k) == z(k) by {
            assert(mv(k) == mat_vec(m, v, n, k));
        }
        lemma_sum_ext(t3, z, n);
    }
    if invertible(a, n) {
        let b = choose|b: spec_fn(int, int) -> int| is_left_inverse(b, a, n);
        let av = |k: int| mat_vec(a, v, n, k);
        lemma_sum_ident(v, n, p);
        let t = |l: int| ident(p, l) * v(l);
        let t2 = |l: int| mat_mul(b, a, n, p, l) * v(l);
        assert forall|l: int| 0 <= l < n implies #[trigger] cong(t(l), t2(l)) by {
            assert(cong(mat_mul(b, a, n, p, l), ident(p, l)));
            lemma_cong_mul(ident(p, l), mat_mul(b, a, n, p, l), v(l), v(l));
        }
        lemma_sum_cong(t, t2, n);
        lemma_mat_vec_assoc(b, a, v, n, p);
        let t3 = |k: int| b(p, k) * av(k);
        assert forall|k: int| 0 <= k < n implies #[trigger] cong(t3(k), z(k)) by {
            assert(cong(mat_vec(a, v, n, k), 0));
            lemma_cong_mul(b(p, k), b(p, k), av(k), 0);
        }
        lemma_sum_cong(t3, z, n);
        assert(cong(1, 0));
        assert(false);
    }
}


/// A row of `e * a` that is congruent to a row of `c` stays so when both
/// rows are copied to another place.
pub proof fn lemma_row_ok_copy(
    e: spec_fn(int, int) -> int,
    a: spec_fn(int, int) -> int,
    c: spec_fn(int, int) -> int,
    e2: spec_fn(int, int) -> int,
    c2: spec_fn(int, int) -> int,
    n: nat,
    r: int,
    s: int,
)
    requires
        row_ok(e, a, c, n, s),
        forall|k: int| 0 <= k < n ==> #[trigger] e2(r, k) == e(s, k),
        forall|j: int| 0 <= j < n ==> #[trigger] c2(r, j) == c(s, j),
    ensures
        row_ok(e2, a, c2, n, r),
{
    assert forall|j: int| 0 <= j < n implies #[trigger] cong(mat_mul(e2, a, n, r, j), c2(r, j)) by {
        assert(cong(mat_mul(e, a, n, s, j), c(s, j)));
        lemma_sum_ext(|k: int| e2(r, k) * a(k, j), |k: int| e(s, k) * a(k, j), n);
    }
}

/// A field product is congruent to the integer product.
pub proof fn lemma_fmul_cong(x: int, y: int)
    ensures
        cong(fmul(x, y) as int, x * y),
        0 <= fmul(x, y) < modulus(),
{
    let m = modulus() as int;
    vstd::arithmetic::div_mod::lemma_mod_bound(x * y, m);
    lemma_cong_mod(x * y);
}

/// A field difference is congruent to the integer difference.
pub proof fn lemma_fsub_cong(x: int, y: int)
    ensures
        cong(fsub(x, y) as int, x - y),
        0 <= fsub(x, y) < modulus(),
{
    let m = modulus() as int;
    vstd::arithmetic::div_mod::lemma_mod_bound(x - y, m);
    lemma_cong_mod(x - y);
}


/// Invertibility depends only on the entries inside the `n`-by-`n` square.
pub proof fn lemma_invertible_ext(a1: spec_fn(int, int) -> int, a2: spec_fn(int, int) -> int, n: nat)
    requires
        forall|i: int, j: int| 0 <= i < n && 0 <= j < n ==> #[trigger] a1(i, j) == a2(i, j),
    ensures
        invertible(a1, n) == invertible(a2, n),
{
    if invertible(a1, n) {
        let b = choose|b: spec_fn(int, int) -> int| is_left_inverse(b, a1, n);
        assert forall|i: int, j: int| 0 <= i < n && 0 <= j < n implies #[trigger] cong(
            mat_mul(b, a2, n, i, j),
            ident(i, j),
        ) by {
            assert(cong(mat_mul(b, a1, n, i, j), ident(i, j)));
            lemma_sum_ext(|k: int| b(i, k) * a1(k, j), |k: int| b(i, k) * a2(k, j), n);
        }
        assert(is_left_inverse(b, a2, n));
    }
    if invertible(a2, n) {
        let b = choose|b: spec_fn(int, int) -> int| is_left_inverse(b, a2, n);
        assert forall|i: int, j: int| 0 <= i < n && 0 <= j < n implies #[trigger] cong(
            mat_mul(b, a1, n, i, j),
            ident(i, j),
        ) by {
            assert(cong(mat_mul(b, a2, n, i, j), ident(i, j)));
            lemma_sum_ext(|k: int| b(i, k) * a1(k, j), |k: int| b(i, k) * a2(k, j), n);
        }
        assert(is_left_inverse(b, a1, n));
    }
}

/// With `e` a right inverse of `a`, any `x` congruent to `e * y` solves `a * x == y`.
pub proof fn lemma_solve(
    a: spec_fn(int, int) -> int,
    e: spec_fn(int, int) -> int,
    y: spec_fn(int) -> int,
    x: spec_fn(int) -> int,
    n: nat,
)
    requires
        is_right_inverse(e, a, n),
        forall|i: int| 0 <= i < n ==> #[trigger] cong(x(i), mat_vec(e, y, n, i)),
    ensures
        forall|r: int| 0 <= r < n ==> #[trigger] cong(mat_vec(a, x, n, r), y(r)),
{
    assert forall|r: int| 0 <= r < n implies #[trigger] cong(mat_vec(a, x, n, r), y(r)) by {
        let ey = |k: int| mat_vec(e, y, n, k);
        let t = |k: int| a(r, k) * x(k);
        let t2 = |k: int| a(r, k) * ey(k);
        assert forall|k: int| 0 <= k < n implies #[trigger] cong(t(k), t2(k)) by {
            assert(cong(x(k), mat_vec(e, y, n, k)));
            lemma_cong_mul(a(r, k), a(r, k), x(k), ey(k));
        }
        lemma_sum_cong(t, t2, n);
        lemma_mat_vec_assoc(a, e, y, n, r);
        let u = |l: int| mat_mul(a, e, n, r, l) * y(l);
        let u2 = |l: int| ident(r, l) * y(l);
        assert forall|l: int| 0 <= l < n implies #[trigger] cong(u(l), u2(l)) by {
            assert(cong(mat_mul(a, e, n, r, l), ident(r, l)));
            lemma_cong_mul(mat_mul(a, e, n, r, l), ident(r, l), y(l), y(l));
        }
        lemma_sum_cong(u, u2, n);
        lemma_sum_ident(y, n, r);
    }
}

/// An invertible system has at most one solution among canonical vectors.
pub proof fn lemma_unique_solution(
    a: spec_fn(int, int) -> int,
    x1: spec_fn(int) -> int,
    x2: spec_fn(int) -> int,
    y: spec_fn(int) -> int,
    n: nat,
)
    requires
        invertible(a, n),
        forall|r: int| 0 <= r < n ==> #[trigger] cong(mat_vec(a, x1, n, r), y(r)),
        forall|r: int| 0 <= r < n ==> #[trigger] cong(mat_vec(a, x2, n, r), y(r)),
        forall|i: int| 0 <= i < n ==> 0 <= #[trigger] x1(i) < modulus(),
        forall|i: int| 0 <= i < n ==> 0 <= #[trigger] x2(i) < modulus(),
    ensures
        forall|i: int| 0 <= i < n ==> #[trigger] x1(i) == x2(i),
{
    let b = choose|b: spec_fn(int, int) -> int| is_left_inverse(b, a, n);
    assert forall|i: int| 0 <= i < n implies #[trigger] x1(i) == x2(i) by {
        lemma_left_solve(a, b, x1, y, n, i);
        lemma_left_solve(a, b, x2, y, n, i);
        lemma_cong_small(x1(i), x2(i));
    }
}

/// With `b` a left inverse of `a`, a solution of `a * x == y` is congruent to `b * y`.
pub proof fn lemma_left_solve(
    a: spec_fn(int, int) -> int,
    b: spec_fn(int, int) -> int,
    x: spec_fn(int) -> int,
    y: spec_fn(int) -> int,
    n: nat,
    i: int,
)
    requires
        is_left_inverse(b, a, n),
        forall|r: int| 0 <= r < n ==> #[trigger] cong(mat_vec(a, x, n, r), y(r)),
        0 <= i < n,
    ensures
        cong(x(i), mat_vec(b, y, n, i)),
{
    lemma_sum_ident(x, n, i);
    let t = |l: int| ident(i, l) * x(l);
    let t2 = |l: int| mat_mul(b, a, n, i, l) * x(l);
    assert forall|l: int| 0 <= l < n implies #[trigger] cong(t(l), t2(l)) by {
        assert(cong(mat_mul(b, a, n, i, l), ident(i, l)));
        lemma_cong_mul(ident(i, l), mat_mul(b, a, n, i, l), x(l), x(l));
    }
    lemma_sum_cong(t, t2, n);
    lemma_mat_vec_assoc(b, a, x, n, i);
    let ax = |k: int| mat_vec(a, x, n, k);
    let u = |k: int| b(i, k) * ax(k);
    let u2 = |k: int| b(i, k) * y(k);
    assert forall|k: int| 0 <= k < n implies #[trigger] cong(u(k), u2(k)) by {
        assert(cong(mat_vec(a, x, n, k), y(k)));
        lemma_cong_mul(b(i, k), b(i, k), ax(k), y(k));
    }
    lemma_sum_cong(u, u2, n);
}

} // verus!
