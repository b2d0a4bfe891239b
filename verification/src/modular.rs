//! Congruence modulo a positive integer, finite sums and products, and the
//! algebra of polynomials and Lagrange coefficients over them.
use vstd::arithmetic::power::pow;
use vstd::prelude::*;

verus! {

/// `a` and `b` leave the same remainder modulo `n`.
pub open spec fn eqm(a: int, b: int, n: int) -> bool {
    a % n == b % n
}

/// `a` has an inverse modulo `n`.
pub open spec fn invertible(a: int, n: int) -> bool {
    exists|b: int| eqm(#[trigger] (a * b), 1, n)
}

/// `f(0) + f(1) + ... + f(k - 1)`.
pub open spec fn sum(k: nat, f: spec_fn(int) -> int) -> int
    decreases k,
{
    if k == 0 {
        0
    } else {
        sum((k - 1) as nat, f) + f(k - 1)
    }
}

/// `f(0) * f(1) * ... * f(k - 1)`.
pub open spec fn prod(k: nat, f: spec_fn(int) -> int) -> int
    decreases k,
{
    if k == 0 {
        1
    } else {
        prod((k - 1) as nat, f) * f(k - 1)
    }
}

/// The polynomial with coefficients `c`, constant term first, at `x`.
pub open spec fn poly(c: Seq<int>, x: int) -> int {
    sum(c.len(), |j: int| c[j] * pow(x, j as nat))
}

/// The factor that the node at a position contributes to the numerator of the
/// Lagrange coefficient of `i`.
pub open spec fn num_factor(i: int, xs: Seq<int>) -> spec_fn(int) -> int {
    |j: int|
        if xs[j] == i {
            1
        } else {
            xs[j]
        }
}

/// The factor that the node at a position contributes to the denominator.
pub open spec fn den_factor(i: int, xs: Seq<int>) -> spec_fn(int) -> int {
    |j: int|
        if xs[j] == i {
            1
        } else {
            xs[j] - i
        }
}

/// The numerator of the Lagrange coefficient at zero of the node `i` in `xs`:
/// the product of the other nodes.
pub open spec fn lagrange_num(i: int, xs: Seq<int>) -> int {
    prod(xs.len(), num_factor(i, xs))
}

/// The denominator of the Lagrange coefficient at zero of the node `i` in
/// `xs`: the product of the other nodes' distances to it.
pub open spec fn lagrange_den(i: int, xs: Seq<int>) -> int {
    prod(xs.len(), den_factor(i, xs))
}

/// The Lagrange coefficient at zero of the node `i` in `xs`, modulo `n`: the
/// residue that the denominator takes to the numerator.
pub open spec fn lagrange(i: int, xs: Seq<int>, n: int) -> int {
    choose|l: int| 0 <= l < n && eqm(#[trigger] (l * lagrange_den(i, xs)), lagrange_num(i, xs), n)
}

/// No value occurs twice in `xs`.
pub open spec fn distinct(xs: Seq<int>) -> bool {
    forall|i: int, j: int| 0 <= i < j < xs.len() ==> xs[i] != xs[j]
}

pub proof fn lemma_eqm_add(a: int, b: int, c: int, d: int, n: int)
    requires
        n > 0,
        eqm(a, b, n),
        eqm(c, d, n),
    ensures
        eqm(a + c, b + d, n),
        eqm(a - c, b - d, n),
{
    vstd::arithmetic::div_mod::lemma_add_mod_noop(a, c, n);
    vstd::arithmetic::div_mod::lemma_add_mod_noop(b, d, n);
    vstd::arithmetic::div_mod::lemma_sub_mod_noop(a, c, n);
    vstd::arithmetic::div_mod::lemma_sub_mod_noop(b, d, n);
}

pub proof fn lemma_eqm_mul(a: int, b: int, c: int, d: int, n: int)
    requires
        n > 0,
        eqm(a, b, n),
        eqm(c, d, n),
    ensures
        eqm(a * c, b * d, n),
{
    vstd::arithmetic::div_mod::lemma_mul_mod_noop(a, c, n);
    vstd::arithmetic::div_mod::lemma_mul_mod_noop(b, d, n);
}

/// A residue is congruent to the number it was taken from.
pub proof fn lemma_eqm_mod(a: int, n: int)
    requires
        n > 0,
    ensures
        eqm(a % n, a, n),
        0 <= a % n < n,
{
    vstd::arithmetic::div_mod::lemma_mod_twice(a, n);
    vstd::arithmetic::div_mod::lemma_mod_bound(a, n);
}

/// Congruent residues below the modulus are equal.
pub proof fn lemma_eqm_small(a: int, b: int, n: int)
    requires
        0 <= a < n,
        0 <= b < n,
        eqm(a, b, n),
    ensures
        a == b,
{
    vstd::arithmetic::div_mod::lemma_small_mod(a as nat, n as nat);
    vstd::arithmetic::div_mod::lemma_small_mod(b as nat, n as nat);
}

pub proof fn lemma_small(a: int, n: int)
    requires
        0 <= a < n,
    ensures
        a % n == a,
{
    vstd::arithmetic::div_mod::lemma_small_mod(a as nat, n as nat);
}

/// A factor that has an inverse cancels.
pub proof fn lemma_cancel(a: int, b: int, c: int, n: int)
    requires
        n > 0,
        invertible(c, n),
        eqm(a * c, b * c, n),
    ensures
        eqm(a, b, n),
{
    let d = choose|d: int| eqm(#[trigger] (c * d), 1, n);
    lemma_eqm_mul(a * c, b * c, d, d, n);
    assert(a * c * d == a * (c * d)) by (nonlinear_arith);
    assert(b * c * d == b * (c * d)) by (nonlinear_arith);
    lemma_eqm_mul(a, a, c * d, 1, n);
    lemma_eqm_mul(b, b, c * d, 1, n);
    assert(a * 1 == a && b * 1 == b);
}

/// A factor of an invertible product is invertible.
pub proof fn lemma_factor_invertible(a: int, b: int, n: int)
    requires
        n > 0,
        invertible(a * b, n),
    ensures
        invertible(a, n),
        invertible(b, n),
{
    let d = choose|d: int| eqm(#[trigger] (a * b * d), 1, n);
    assert(a * (b * d) == a * b * d) by (nonlinear_arith);
    assert(b * (a * d) == a * b * d) by (nonlinear_arith);
    assert(eqm(a * (b * d), 1, n));
    assert(eqm(b * (a * d), 1, n));
}

pub proof fn lemma_sum_ext(k: nat, f: spec_fn(int) -> int, g: spec_fn(int) -> int)
    requires
        forall|i: int| 0 <= i < k ==> #[trigger] f(i) == g(i),
    ensures
        sum(k, f) == sum(k, g),
    decreases k,
{
    if k > 0 {
        assert(f(k - 1) == g(k - 1));
        lemma_sum_ext((k - 1) as nat, f, g);
    }
}

pub proof fn lemma_prod_ext(k: nat, f: spec_fn(int) -> int, g: spec_fn(int) -> int)
    requires
        forall|i: int| 0 <= i < k ==> #[trigger] f(i) == g(i),
    ensures
        prod(k, f) == prod(k, g),
    decreases k,
{
    if k > 0 {
        assert(f(k - 1) == g(k - 1));
        lemma_prod_ext((k - 1) as nat, f, g);
    }
}

pub proof fn lemma_sum_eqm(k: nat, f: spec_fn(int) -> int, g: spec_fn(int) -> int, n: int)
    requires
        n > 0,
        forall|i: int| 0 <= i < k ==> eqm(#[trigger] f(i), g(i), n),
    ensures
        eqm(sum(k, f), sum(k, g), n),
    decreases k,
{
    if k > 0 {
        assert(eqm(f(k - 1), g(k - 1), n));
        lemma_sum_eqm((k - 1) as nat, f, g, n);
        lemma_eqm_add(sum((k - 1) as nat, f), sum((k - 1) as nat, g), f(k - 1), g(k - 1), n);
    }
}

/// The first term splits off a sum.
pub proof fn lemma_sum_first(k: nat, f: spec_fn(int) -> int)
    requires
        k > 0,
    ensures
        sum(k, f) == f(0) + sum((k - 1) as nat, |i: int| f(i + 1)),
    decreases k,
{
    let g = |i: int| f(i + 1);
    if k > 1 {
        lemma_sum_first((k - 1) as nat, f);
        assert(g(k - 2) == f(k - 1));
    } else {
        assert(sum(0, f) == 0);
        assert(sum(0, g) == 0);
    }
}

/// The first factor splits off a product.
pub proof fn lemma_prod_first(k: nat, f: spec_fn(int) -> int)
    requires
        k > 0,
    ensures
        prod(k, f) == f(0) * prod((k - 1) as nat, |i: int| f(i + 1)),
    decreases k,
{
    let g = |i: int| f(i + 1);
    if k > 1 {
        lemma_prod_first((k - 1) as nat, f);
        assert(g(k - 2) == f(k - 1));
        let a = f(0);
        let b = prod((k - 2) as nat, g);
        let c = f(k - 1);
        assert(a * b * c == a * (b * c)) by (nonlinear_arith);
    } else {
        assert(prod(0, f) == 1);
        assert(prod(0, g) == 1);
        assert(1 * f(0) == f(0) * 1);
    }
}

/// A common factor comes out of a sum.
pub proof fn lemma_sum_scale(k: nat, f: spec_fn(int) -> int, c: int)
    ensures
        sum(k, |i: int| c * f(i)) == c * sum(k, f),
    decreases k,
{
    let g = |i: int| c * f(i);
    if k > 0 {
        lemma_sum_scale((k - 1) as nat, f, c);
        let a = sum((k - 1) as nat, f);
        let b = f(k - 1);
        assert(c * (a + b) == c * a + c * b) by (nonlinear_arith);
        assert(g(k - 1) == c * b);
    } else {
        assert(sum(0, g) == 0);
        assert(sum(0, f) == 0);
        assert(c * 0 == 0) by (nonlinear_arith);
    }
}

/// Two sums of the same length add term by term.
pub proof fn lemma_sum_plus(k: nat, f: spec_fn(int) -> int, g: spec_fn(int) -> int)
    ensures
        sum(k, |i: int| f(i) + g(i)) == sum(k, f) + sum(k, g),
    decreases k,
{
    if k > 0 {
        lemma_sum_plus((k - 1) as nat, f, g);
    }
}

/// Appending a coefficient adds its monomial.
pub proof fn lemma_poly_last(c: Seq<int>, x: int)
    requires
        c.len() > 0,
    ensures
        poly(c, x) == poly(c.drop_last(), x) + c.last() * pow(x, (c.len() - 1) as nat),
{
    let d = c.drop_last();
    lemma_sum_ext(
        d.len(),
        |j: int| c[j] * pow(x, j as nat),
        |j: int| d[j] * pow(x, j as nat),
    );
}

/// At zero a polynomial is its constant term.
pub proof fn lemma_poly_zero(c: Seq<int>)
    requires
        c.len() > 0,
    ensures
        poly(c, 0) == c[0],
    decreases c.len(),
{
    lemma_poly_last(c, 0);
    if c.len() == 1 {
        assert(poly(c.drop_last(), 0) == 0);
        assert(pow(0, 0) == 1) by {
            reveal(pow);
        }
        assert(c.last() * 1 == c[0]);
    } else {
        lemma_poly_zero(c.drop_last());
        let m = (c.len() - 1) as nat;
        assert(pow(0, m) == 0) by {
            vstd::arithmetic::power::lemma0_pow(m);
        }
        assert(c.last() * 0 == 0) by (nonlinear_arith);
    }
}

/// `sum(l[i] * x[i]^k)`, the `k`-th power sum of the nodes under the weights.
pub open spec fn power_sum(ls: Seq<int>, xs: Seq<int>, k: nat) -> int {
    sum(xs.len(), |i: int| ls[i] * pow(xs[i], k))
}

/// The weighted sum of a polynomial's values is the coefficients' combination
/// of the power sums: one coefficient at a time.
proof fn lemma_weighted_poly_last(ls: Seq<int>, xs: Seq<int>, c: Seq<int>)
    requires
        c.len() > 0,
    ensures
        sum(xs.len(), |i: int| ls[i] * poly(c, xs[i])) == sum(
            xs.len(),
            |i: int| ls[i] * poly(c.drop_last(), xs[i]),
        ) + c.last() * power_sum(ls, xs, (c.len() - 1) as nat),
{
    let m = (c.len() - 1) as nat;
    let f = |i: int| ls[i] * poly(c, xs[i]);
    let g = |i: int| ls[i] * poly(c.drop_last(), xs[i]);
    let p = |i: int| ls[i] * pow(xs[i], m);
    let h = |i: int| c.last() * p(i);
    lemma_sum_scale(xs.len(), p, c.last());
    lemma_sum_plus(xs.len(), g, h);
    let gh = |i: int| g(i) + h(i);
    assert forall|i: int| 0 <= i < xs.len() implies #[trigger] f(i) == gh(i) by {
        lemma_poly_last(c, xs[i]);
        let l = ls[i];
        let a = poly(c.drop_last(), xs[i]);
        let b = c.last();
        let w = pow(xs[i], m);
        assert(l * (a + b * w) == l * a + b * (l * w)) by (nonlinear_arith);
    }
    lemma_sum_ext(xs.len(), f, gh);
}

/// Some inverse of `a` modulo `n`.
pub open spec fn inverse_of(a: int, n: int) -> int {
    choose|b: int| eqm(#[trigger] (a * b), 1, n)
}

/// Lagrange weights for all nodes of `xs`, as unreduced integers.
spec fn weights(xs: Seq<int>, n: int) -> Seq<int> {
    Seq::new(
        xs.len(),
        |i: int| lagrange_num(xs[i], xs) * inverse_of(lagrange_den(xs[i], xs), n),
    )
}

/// Every node of `xs` has an invertible Lagrange denominator.
pub open spec fn nodes_separated(xs: Seq<int>, n: int) -> bool {
    forall|i: int| 0 <= i < xs.len() ==> invertible(#[trigger] lagrange_den(xs[i], xs), n)
}

/// `ls` are Lagrange coefficients at zero for the nodes `xs`.
pub open spec fn are_weights(ls: Seq<int>, xs: Seq<int>, n: int) -> bool {
    &&& ls.len() == xs.len()
    &&& forall|i: int|
        0 <= i < xs.len() ==> eqm(
            ls[i] * #[trigger] lagrange_den(xs[i], xs),
            lagrange_num(xs[i], xs),
            n,
        )
}

proof fn lemma_weights(xs: Seq<int>, n: int)
    requires
        n > 0,
        nodes_separated(xs, n),
    ensures
        are_weights(weights(xs, n), xs, n),
{
    let ls = weights(xs, n);
    assert forall|i: int| 0 <= i < xs.len() implies eqm(
        ls[i] * #[trigger] lagrange_den(xs[i], xs),
        lagrange_num(xs[i], xs),
        n,
    ) by {
        let d = lagrange_den(xs[i], xs);
        let m = lagrange_num(xs[i], xs);
        let v = inverse_of(d, n);
        assert(eqm(d * v, 1, n));
        assert(m * v * d == m * (d * v)) by (nonlinear_arith);
        lemma_eqm_mul(m, m, d * v, 1, n);
        assert(m * 1 == m);
    }
}

/// What is left of `xs` without its first or its last node.
spec fn trimmed(xs: Seq<int>, first: bool) -> Seq<int> {
    if first {
        xs.drop_first()
    } else {
        xs.drop_last()
    }
}

spec fn trimmed_node(xs: Seq<int>, first: bool) -> int {
    if first {
        xs[0]
    } else {
        xs.last()
    }
}

/// Taking a node out divides numerators by it and denominators by the
/// distance to it.
proof fn lemma_trim_products(xs: Seq<int>, first: bool, x: int)
    requires
        xs.len() > 0,
        x != trimmed_node(xs, first),
    ensures
        lagrange_num(x, xs) == lagrange_num(x, trimmed(xs, first)) * trimmed_node(xs, first),
        lagrange_den(x, xs) == lagrange_den(x, trimmed(xs, first)) * (trimmed_node(xs, first) - x),
{
    let ys = trimmed(xs, first);
    let q = trimmed_node(xs, first);
    let k = (xs.len() - 1) as nat;
    let fx = num_factor(x, xs);
    let gx = den_factor(x, xs);
    let fy = num_factor(x, ys);
    let gy = den_factor(x, ys);
    if first {
        lemma_prod_first(xs.len(), fx);
        lemma_prod_first(xs.len(), gx);
        let sf = |j: int| fx(j + 1);
        let sg = |j: int| gx(j + 1);
        assert forall|j: int| 0 <= j < k implies #[trigger] sf(j) == fy(j) by {
            assert(ys[j] == xs[j + 1]);
        }
        assert forall|j: int| 0 <= j < k implies #[trigger] sg(j) == gy(j) by {
            assert(ys[j] == xs[j + 1]);
        }
        lemma_prod_ext(k, sf, fy);
        lemma_prod_ext(k, sg, gy);
        let a = prod(k, fy);
        let b = prod(k, gy);
        assert(q * a == a * q) by (nonlinear_arith);
        assert((q - x) * b == b * (q - x)) by (nonlinear_arith);
        assert(fx(0) == q && gx(0) == q - x);
    } else {
        lemma_prod_ext(k, fx, fy);
        lemma_prod_ext(k, gx, gy);
        assert(fx(k as int) == q && gx(k as int) == q - x);
    }
    assert(prod(xs.len(), fx) == prod(k, fy) * q);
    assert(prod(xs.len(), gx) == prod(k, gy) * (q - x));
}

/// The recurrence of the power sums when a node is taken out.
proof fn lemma_trim_power_sum(ls: Seq<int>, xs: Seq<int>, first: bool, k: nat, n: int)
    requires
        n > 0,
        xs.len() > 1,
        distinct(xs),
        nodes_separated(xs, n),
        are_weights(ls, xs, n),
    ensures
        distinct(trimmed(xs, first)),
        nodes_separated(trimmed(xs, first), n),
        are_weights(weights(trimmed(xs, first), n), trimmed(xs, first), n),
        eqm(
            trimmed_node(xs, first) * power_sum(ls, xs, k) - power_sum(ls, xs, k + 1),
            trimmed_node(xs, first) * power_sum(
                weights(trimmed(xs, first), n),
                trimmed(xs, first),
                k,
            ),
            n,
        ),
{
    let ys = trimmed(xs, first);
    let q = trimmed_node(xs, first);
    let off: int = if first { 1 } else { 0 };
    assert forall|i: int| 0 <= i < ys.len() implies ys[i] == xs[i + off] && ys[i] != q by {}
    assert forall|i: int| 0 <= i < ys.len() implies invertible(
        #[trigger] lagrange_den(ys[i], ys),
        n,
    ) by {
        lemma_trim_products(xs, first, ys[i]);
        assert(invertible(lagrange_den(xs[i + off], xs), n));
        lemma_factor_invertible(lagrange_den(ys[i], ys), q - ys[i], n);
    }
    lemma_weights(ys, n);
    let ms = weights(ys, n);
    // The difference as one sum.
    let p = |i: int| ls[i] * pow(xs[i], k);
    let p1 = |i: int| ls[i] * pow(xs[i], k + 1);
    let a = |i: int| q * p(i);
    let b = |i: int| -1 * p1(i);
    lemma_sum_scale(xs.len(), p, q);
    lemma_sum_scale(xs.len(), p1, -1);
    lemma_sum_plus(xs.len(), a, b);
    let f = |i: int| a(i) + b(i);
    assert(sum(xs.len(), f) == q * power_sum(ls, xs, k) - power_sum(ls, xs, k + 1));
    assert forall|i: int| 0 <= i < xs.len() implies #[trigger] f(i) == ls[i] * (q - xs[i]) * pow(
        xs[i],
        k,
    ) by {
        assert(pow(xs[i], k + 1) == xs[i] * pow(xs[i], k)) by {
            reveal(pow);
        }
        let l = ls[i];
        let x = xs[i];
        let w = pow(x, k);
        assert(q * (l * w) + -1 * (l * (x * w)) == l * (q - x) * w) by (nonlinear_arith);
    }
    // The node that is taken out contributes nothing.
    let g = |i: int| f(i + off);
    let qi: int = if first { 0 } else { xs.len() - 1 };
    assert(f(qi) == 0) by {
        let l = ls[qi];
        let w = pow(xs[qi], k);
        assert(xs[qi] == q);
        assert(l * (q - q) * w == 0) by (nonlinear_arith);
    }
    if first {
        lemma_sum_first(xs.len(), f);
        lemma_sum_ext(ys.len(), |i: int| f(i + 1), g);
    } else {
        lemma_sum_ext(ys.len(), f, g);
    }
    assert(sum(xs.len(), f) == sum(ys.len(), g));
    let h = |i: int| ms[i] * pow(ys[i], k);
    let qh = |i: int| q * h(i);
    assert forall|i: int| 0 <= i < ys.len() implies eqm(#[trigger] g(i), qh(i), n) by {
        let x = ys[i];
        let l = ls[i + off];
        let w = pow(x, k);
        let d = lagrange_den(x, ys);
        lemma_trim_products(xs, first, x);
        assert(eqm(l * lagrange_den(xs[i + off], xs), lagrange_num(xs[i + off], xs), n));
        assert(eqm(ms[i] * lagrange_den(ys[i], ys), lagrange_num(ys[i], ys), n));
        lemma_eqm_mul(ms[i] * d, lagrange_num(x, ys), q, q, n);
        let mi = ms[i];
        assert(l * (d * (q - x)) == l * (q - x) * d) by (nonlinear_arith);
        assert(mi * d * q == q * mi * d) by (nonlinear_arith);
        assert(eqm(l * (q - x) * d, q * mi * d, n));
        lemma_cancel(l * (q - x), q * mi, d, n);
        lemma_eqm_mul(l * (q - x), q * mi, w, w, n);
        assert(q * mi * w == q * (mi * w)) by (nonlinear_arith);
        assert(f(i + off) == ls[i + off] * (q - xs[i + off]) * pow(xs[i + off], k));
    }
    lemma_sum_eqm(ys.len(), g, qh, n);
    lemma_sum_scale(ys.len(), h, q);
}

/// Power sums of Lagrange weights at zero: one for the constant, zero for
/// every other power below the number of nodes.
proof fn lemma_power_sums(ls: Seq<int>, xs: Seq<int>, k: nat, n: int)
    requires
        n > 0,
        distinct(xs),
        nodes_separated(xs, n),
        are_weights(ls, xs, n),
        k < xs.len(),
    ensures
        eqm(
            power_sum(ls, xs, k),
            if k == 0 {
                1
            } else {
                0
            },
            n,
        ),
    decreases xs.len(), k,
{
    if xs.len() == 1 {
        let fx = num_factor(xs[0], xs);
        let gx = den_factor(xs[0], xs);
        assert(prod(0, fx) == 1 && prod(0, gx) == 1);
        assert(prod(1, fx) == prod(0, fx) * fx(0));
        assert(prod(1, gx) == prod(0, gx) * gx(0));
        assert(lagrange_num(xs[0], xs) == 1);
        assert(lagrange_den(xs[0], xs) == 1);
        assert(eqm(ls[0] * lagrange_den(xs[0], xs), lagrange_num(xs[0], xs), n));
        let p = |i: int| ls[i] * pow(xs[i], 0);
        assert(pow(xs[0], 0) == 1) by {
            reveal(pow);
        }
        assert(sum(0, p) == 0);
        assert(sum(1, p) == sum(0, p) + p(0));
        assert(ls[0] * 1 == ls[0]);
    } else if k == 0 {
        let xf = xs[0];
        let xl = xs.last();
        let s0 = power_sum(ls, xs, 0);
        let s1 = power_sum(ls, xs, 1);
        lemma_trim_power_sum(ls, xs, true, 0, n);
        lemma_trim_power_sum(ls, xs, false, 0, n);
        let ys = trimmed(xs, true);
        let zs = trimmed(xs, false);
        lemma_power_sums(weights(ys, n), ys, 0, n);
        lemma_power_sums(weights(zs, n), zs, 0, n);
        lemma_eqm_mul(xf, xf, power_sum(weights(ys, n), ys, 0), 1, n);
        lemma_eqm_mul(xl, xl, power_sum(weights(zs, n), zs, 0), 1, n);
        lemma_eqm_add(xf * s0 - s1, xf * 1, xl * s0 - s1, xl * 1, n);
        assert((xf * s0 - s1) - (xl * s0 - s1) == s0 * (xf - xl)) by (nonlinear_arith);
        assert(xf * 1 - xl * 1 == 1 * (xf - xl));
        lemma_trim_products(xs, true, xl);
        assert(invertible(lagrange_den(xs[xs.len() - 1], xs), n));
        lemma_factor_invertible(lagrange_den(xl, ys), xf - xl, n);
        lemma_cancel(s0, 1, xf - xl, n);
    } else {
        let j = (k - 1) as nat;
        let xl = xs.last();
        let zs = trimmed(xs, false);
        lemma_trim_power_sum(ls, xs, false, j, n);
        lemma_power_sums(weights(zs, n), zs, j, n);
        lemma_power_sums(ls, xs, j, n);
        let e: int = if j == 0 { 1 } else { 0 };
        let sj = power_sum(ls, xs, j);
        let sk = power_sum(ls, xs, k);
        let t = power_sum(weights(zs, n), zs, j);
        lemma_eqm_mul(xl, xl, t, e, n);
        lemma_eqm_mul(xl, xl, sj, e, n);
        lemma_eqm_add(xl * sj, xl * e, xl * sj - sk, xl * e, n);
        assert(xl * sj - (xl * sj - sk) == sk);
        assert(xl * e - xl * e == 0);
    }
}

/// Interpolation at zero: the Lagrange combination of a polynomial's values
/// at distinct nodes is its constant term, provided that the polynomial has
/// no more coefficients than there are nodes.
pub proof fn lemma_interpolation(ls: Seq<int>, xs: Seq<int>, c: Seq<int>, n: int)
    requires
        n > 0,
        distinct(xs),
        nodes_separated(xs, n),
        are_weights(ls, xs, n),
        0 < c.len() <= xs.len(),
    ensures
        eqm(sum(xs.len(), |i: int| ls[i] * poly(c, xs[i])), c[0], n),
    decreases c.len(),
{
    lemma_weighted_poly_last(ls, xs, c);
    let m = (c.len() - 1) as nat;
    lemma_power_sums(ls, xs, m, n);
    let d = c.drop_last();
    let s = power_sum(ls, xs, m);
    let t = sum(xs.len(), |i: int| ls[i] * poly(d, xs[i]));
    if m == 0 {
        let f = |i: int| ls[i] * poly(d, xs[i]);
        let z = |i: int| 0int;
        assert forall|i: int| 0 <= i < xs.len() implies #[trigger] f(i) == z(i) by {
            assert(poly(d, xs[i]) == 0);
            assert(ls[i] * 0 == 0) by (nonlinear_arith);
        }
        lemma_sum_ext(xs.len(), f, z);
        lemma_sum_zero(xs.len());
        lemma_eqm_mul(c[0], c[0], s, 1, n);
        assert(c[0] * 1 == c[0]);
    } else {
        lemma_interpolation(ls, xs, d, n);
        lemma_eqm_mul(c.last(), c.last(), s, 0, n);
        assert(c.last() * 0 == 0) by (nonlinear_arith);
        lemma_eqm_add(t, c[0], c.last() * s, 0, n);
    }
}

pub proof fn lemma_sum_zero(k: nat)
    ensures
        sum(k, |i: int| 0int) == 0,
    decreases k,
{
    if k > 0 {
        lemma_sum_zero((k - 1) as nat);
    }
}

} // verus!
