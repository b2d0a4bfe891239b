//! Exponential ElGamal with verifiable secret sharing and threshold decryption.
use crate::curve::Point;
use crate::dkg;
use crate::dkg::SeededRng;
use crate::field;
use crate::field::Scalar;
use crate::modular;
use vstd::arithmetic::power::pow;
use vstd::prelude::*;

verus! {

/// One participant's share of a secret.
#[derive(Clone, Copy, Debug, PartialEq, Eq, Structural)]
pub struct Share {
    pub index: u64,
    pub value: Scalar,
}

/// The numbers of a list of scalars.
pub open spec fn values(s: Seq<Scalar>) -> Seq<int> {
    Seq::new(s.len(), |i: int| s[i]@)
}

/// The logarithms of a list of points.
pub open spec fn logs(s: Seq<Point>) -> Seq<int> {
    Seq::new(s.len(), |i: int| s[i].log())
}

/// A list of participant indices as numbers.
pub open spec fn nodes(s: Seq<u64>) -> Seq<int> {
    Seq::new(s.len(), |i: int| s[i] as int)
}

/// The indices of a list of shares.
pub open spec fn share_nodes(s: Seq<Share>) -> Seq<int> {
    Seq::new(s.len(), |i: int| s[i].index as int)
}

/// Encodes a number of votes in the exponent.
pub fn encode_vote(vote: u64, g: &Point) -> (r: Point)
    ensures
        r.log() == (vote * g.log()) % field::scalar_order(),
{
    if vote == 0 {
        assert(0 * g.log() == 0);
        Point::identity()
    } else {
        assert(g.log() * vote == vote * g.log()) by (nonlinear_arith);
        g.times(&Scalar::from_u64(vote))
    }
}

/// Encrypts a point under a public key with the given randomness.
pub fn elgamal_encrypt(msg_point: &Point, pk: &Point, g: &Point, r: Scalar) -> (c: (Point, Point))
    ensures
        c.0.log() == (g.log() * r@) % field::scalar_order(),
        c.1.log() == (msg_point.log() + pk.log() * r@) % field::scalar_order(),
{
    let c1 = g.times(&r);
    let r_pk = pk.times(&r);
    proof {
        let n = field::scalar_order();
        modular::lemma_eqm_mod(pk.log() * r@, n);
        modular::lemma_eqm_add(msg_point.log(), msg_point.log(), r_pk.log(), pk.log() * r@, n);
    }
    let c2 = msg_point.plus(&r_pk);
    (c1, c2)
}

/// Taking one more coefficient adds its monomial.
proof fn lemma_poly_take(c: Seq<int>, i: int, x: int)
    requires
        0 <= i < c.len(),
    ensures
        modular::poly(c.take(i + 1), x) == modular::poly(c.take(i), x) + c[i] * pow(x, i as nat),
{
    modular::lemma_poly_last(c.take(i + 1), x);
    assert(c.take(i + 1).drop_last() =~= c.take(i));
}

/// One step of an evaluation: the accumulated value, the power and the next
/// coefficient, all as residues.
proof fn lemma_poly_step(c: Seq<int>, i: int, x: int, acc: int, p: int, n: int)
    requires
        n > 0,
        0 <= i < c.len(),
        modular::eqm(acc, modular::poly(c.take(i), x), n),
        modular::eqm(p, pow(x, i as nat), n),
    ensures
        modular::eqm(acc + (c[i] * p) % n, modular::poly(c.take(i + 1), x), n),
        modular::eqm(p * x, pow(x, (i + 1) as nat), n),
{
    lemma_poly_take(c, i, x);
    modular::lemma_eqm_mul(c[i], c[i], p, pow(x, i as nat), n);
    modular::lemma_eqm_mod(c[i] * p, n);
    modular::lemma_eqm_add(
        acc,
        modular::poly(c.take(i), x),
        (c[i] * p) % n,
        c[i] * pow(x, i as nat),
        n,
    );
    assert(pow(x, (i + 1) as nat) == x * pow(x, i as nat)) by {
        reveal(pow);
    }
    modular::lemma_eqm_mul(p, pow(x, i as nat), x, x, n);
    assert(x * pow(x, i as nat) == pow(x, i as nat) * x) by (nonlinear_arith);
}

/// `f(x) = a0 + a1 x + ... + a_{t-1} x^{t-1}`.
pub fn eval_poly(coeffs: &[Scalar], x: Scalar) -> (r: Scalar)
    ensures
        r@ == modular::poly(values(coeffs@), x@) % field::scalar_order(),
{
    broadcast use field::lemma_scalar_range;

    let mut acc = Scalar::zero();
    let mut pow_x = Scalar::one();
    let ghost c = values(coeffs@);
    let ghost n = field::scalar_order();
    let mut i: usize = 0;
    assert(modular::poly(c.take(0), x@) == 0);
    assert(pow(x@, 0) == 1) by {
        reveal(pow);
    }
    while i < coeffs.len()
        invariant
            i <= coeffs.len(),
            n == field::scalar_order(),
            c == values(coeffs@),
            modular::eqm(acc@, modular::poly(c.take(i as int), x@), n),
            modular::eqm(pow_x@, pow(x@, i as nat), n),
        decreases coeffs.len() - i,
    {
        let term = coeffs[i].times(&pow_x);
        proof {
            lemma_poly_step(c, i as int, x@, acc@, pow_x@, n);
            modular::lemma_eqm_mod(acc@ + term@, n);
            modular::lemma_eqm_mod(pow_x@ * x@, n);
        }
        acc = acc.plus(&term);
        pow_x = pow_x.times(&x);
        i = i + 1;
    }
    proof {
        assert(c.take(i as int) =~= c);
        modular::lemma_small(acc@, n);
    }
    acc
}

/// Commits to every coefficient: `V_j = a_j * G`.
pub fn feldman_commitments(coeffs: &[Scalar], g: Point) -> (r: Vec<Point>)
    ensures
        r.len() == coeffs.len(),
        forall|j: int|
            0 <= j < coeffs.len() ==> #[trigger] r[j].log() == (g.log() * coeffs[j]@)
                % field::scalar_order(),
{
    let mut out: Vec<Point> = Vec::new();
    let mut i: usize = 0;
    while i < coeffs.len()
        invariant
            i <= coeffs.len(),
            out.len() == i,
            forall|j: int|
                0 <= j < i ==> #[trigger] out[j].log() == (g.log() * coeffs[j]@)
                    % field::scalar_order(),
        decreases coeffs.len() - i,
    {
        out.push(g.times(&coeffs[i]));
        i = i + 1;
    }
    out
}

/// Deals shares of the polynomial with coefficients `coeffs` to the
/// participants `1..=n`.
pub open spec fn deals(shares: Seq<Share>, coeffs: Seq<Scalar>, n: int) -> bool {
    &&& shares.len() == n
    &&& forall|i: int|
        0 <= i < n ==> (#[trigger] shares[i]).index == i + 1 && shares[i].value@ == modular::poly(
            values(coeffs),
            i + 1,
        ) % field::scalar_order()
}

/// The commitments to the coefficients under the base `g`.
pub open spec fn commits_to(commits: Seq<Point>, coeffs: Seq<Scalar>, g: Point) -> bool {
    &&& commits.len() == coeffs.len()
    &&& forall|j: int|
        0 <= j < coeffs.len() ==> #[trigger] commits[j].log() == (g.log() * coeffs[j]@)
            % field::scalar_order()
}

/// Splits the constant term of a polynomial: shares for the participants
/// `1..=n` and commitments to the coefficients.
pub fn split_polynomial(coeffs: &[Scalar], n: usize, g: Point) -> (r: (Vec<Share>, Vec<Point>))
    requires
        n <= u64::MAX,
    ensures
        deals(r.0@, coeffs@, n as int),
        commits_to(r.1@, coeffs@, g),
{
    let mut shares: Vec<Share> = Vec::new();
    let mut i: u64 = 0;
    while i < n as u64
        invariant
            i <= n <= u64::MAX,
            deals(shares@, coeffs@, i as int),
        decreases n - i,
    {
        i = i + 1;
        let value = eval_poly(coeffs, Scalar::from_u64(i));
        shares.push(Share { index: i, value });
    }
    let commits = feldman_commitments(coeffs, g);
    (shares, commits)
}

/// The coefficients that a dealer uses: the secret, then pseudo-random ones.
pub open spec fn drawn_coeffs(
    coeffs: Seq<Scalar>,
    secret: Scalar,
    t: int,
    seed: Seq<u8>,
    drawn: nat,
) -> bool {
    &&& coeffs.len() == (if t > 1 {
        t
    } else {
        1
    })
    &&& coeffs[0] == secret
    &&& forall|j: int|
        1 <= j < coeffs.len() ==> (#[trigger] coeffs[j])@ == dkg::seeded_scalar(
            seed,
            (drawn + j - 1) as nat,
        )
}

/// Shares a secret among the participants `1..=n` so that `t` of them hold it:
/// draws the other coefficients, deals the shares and commits to the
/// coefficients. A threshold of zero counts as one.
pub fn shamir_split_with_commitments(
    secret: Scalar,
    t: usize,
    n: usize,
    g: Point,
    rng: &mut SeededRng,
) -> (r: (Vec<Share>, Vec<Scalar>, Vec<Point>))
    ensures
        drawn_coeffs(r.1@, secret, t as int, old(rng).seed(), old(rng).drawn()),
        deals(r.0@, r.1@, n as int),
        commits_to(r.2@, r.1@, g),
        final(rng).seed() == old(rng).seed(),
        final(rng).drawn() == old(rng).drawn() + r.1@.len() - 1,
{
    let ghost seed = rng.seed();
    let ghost drawn = rng.drawn();
    let mut coeffs: Vec<Scalar> = Vec::new();
    coeffs.push(secret);
    let mut i: usize = 1;
    while i < t
        invariant
            1 <= i,
            i <= t || i == 1,
            coeffs.len() == i,
            coeffs[0] == secret,
            rng.seed() == seed,
            rng.drawn() == drawn + i - 1,
            forall|j: int|
                1 <= j < i ==> (#[trigger] coeffs[j])@ == dkg::seeded_scalar(
                    seed,
                    (drawn + j - 1) as nat,
                ),
        decreases t - i,
    {
        coeffs.push(rng.next_scalar());
        i = i + 1;
    }
    let (shares, commits) = split_polynomial(coeffs.as_slice(), n, g);
    (shares, coeffs, commits)
}

/// A polynomial under the commitments is the base times the polynomial that
/// was committed to.
pub proof fn lemma_committed_poly(commits: Seq<Point>, coeffs: Seq<Scalar>, g: Point, x: int)
    requires
        commits_to(commits, coeffs, g),
    ensures
        modular::eqm(
            modular::poly(logs(commits), x),
            g.log() * modular::poly(values(coeffs), x),
            field::scalar_order(),
        ),
{
    let n = field::scalar_order();
    let c = values(coeffs);
    let d = logs(commits);
    let f = |j: int| d[j] * pow(x, j as nat);
    let h = |j: int| c[j] * pow(x, j as nat);
    let gh = |j: int| g.log() * h(j);
    assert forall|j: int| 0 <= j < c.len() implies modular::eqm(#[trigger] f(j), gh(j), n) by {
        let p = pow(x, j as nat);
        let gl = g.log();
        let cj = c[j];
        assert(commits[j].log() == (gl * cj) % n);
        modular::lemma_eqm_mod(gl * cj, n);
        modular::lemma_eqm_mul(d[j], gl * cj, p, p, n);
        assert(gl * cj * p == gl * (cj * p)) by (nonlinear_arith);
    }
    modular::lemma_sum_eqm(c.len(), f, gh, n);
    modular::lemma_sum_scale(c.len(), h, g.log());
}

/// A share that was dealt passes the check against the dealer's commitments.
pub proof fn law_dealt_share_is_accepted(
    shares: Seq<Share>,
    coeffs: Seq<Scalar>,
    commits: Seq<Point>,
    g: Point,
    n: int,
    i: int,
)
    requires
        deals(shares, coeffs, n),
        commits_to(commits, coeffs, g),
        0 <= i < n,
    ensures
        share_matches(shares[i], commits, g),
{
    let o = field::scalar_order();
    let y = modular::poly(values(coeffs), i + 1);
    assert(shares[i].index == i + 1);
    lemma_committed_poly(commits, coeffs, g, i + 1);
    modular::lemma_eqm_mod(y, o);
    modular::lemma_eqm_mul(g.log(), g.log(), shares[i].value@, y, o);
}

/// A point generates the group: its logarithm has an inverse.
pub open spec fn is_generator(g: Point) -> bool {
    modular::invertible(g.log(), field::scalar_order())
}

/// Against commitments under a generator, only the dealt value passes the check.
pub proof fn law_other_share_is_rejected(
    share: Share,
    coeffs: Seq<Scalar>,
    commits: Seq<Point>,
    g: Point,
)
    requires
        commits_to(commits, coeffs, g),
        is_generator(g),
    ensures
        share_matches(share, commits, g) == (share.value@ == modular::poly(
            values(coeffs),
            share.index as int,
        ) % field::scalar_order()),
{
    broadcast use field::lemma_scalar_range;

    let o = field::scalar_order();
    let gl = g.log();
    let v = share.value@;
    let y = modular::poly(values(coeffs), share.index as int);
    lemma_committed_poly(commits, coeffs, g, share.index as int);
    modular::lemma_small(v, o);
    assert(gl * v == v * gl && gl * y == y * gl) by (nonlinear_arith);
    if share_matches(share, commits, g) {
        modular::lemma_cancel(v, y, gl, o);
    }
    if v == y % o {
        modular::lemma_eqm_mod(y, o);
        modular::lemma_eqm_mul(gl, gl, v, y, o);
    }
}

/// A share's value in the exponent is the committed polynomial at its index.
pub open spec fn share_matches(share: Share, commits: Seq<Point>, g: Point) -> bool {
    (g.log() * share.value@) % field::scalar_order() == modular::poly(
        logs(commits),
        share.index as int,
    ) % field::scalar_order()
}

/// Whether a share lies on the polynomial that was committed to.
pub fn verify_share_with_commitments(share: &Share, commits: &[Point], g: Point) -> (b: bool)
    ensures
        b == share_matches(*share, commits@, g),
{
    broadcast use field::lemma_scalar_range;
    broadcast use crate::curve::lemma_log_range;

    let xi = Scalar::from_u64(share.index);
    let lhs = g.times(&share.value);
    let mut rhs = Point::identity();
    let mut pow_x = Scalar::one();
    let ghost c = logs(commits@);
    let ghost n = field::scalar_order();
    let mut i: usize = 0;
    assert(modular::poly(c.take(0), xi@) == 0);
    assert(pow(xi@, 0) == 1) by {
        reveal(pow);
    }
    while i < commits.len()
        invariant
            i <= commits.len(),
            n == field::scalar_order(),
            c == logs(commits@),
            modular::eqm(rhs.log(), modular::poly(c.take(i as int), xi@), n),
            modular::eqm(pow_x@, pow(xi@, i as nat), n),
        decreases commits.len() - i,
    {
        let term = commits[i].times(&pow_x);
        proof {
            lemma_poly_step(c, i as int, xi@, rhs.log(), pow_x@, n);
            modular::lemma_eqm_mod(rhs.log() + term.log(), n);
            modular::lemma_eqm_mod(pow_x@ * xi@, n);
        }
        rhs = rhs.plus(&term);
        pow_x = pow_x.times(&xi);
        i = i + 1;
    }
    proof {
        assert(c.take(i as int) =~= c);
        modular::lemma_small(rhs.log(), n);
    }
    lhs.same(&rhs)
}

/// The coefficient of the participant `i` among `set` that interpolates at
/// zero.
pub fn lagrange_at_zero(i: u64, set: &[u64]) -> (r: Scalar)
    ensures
        r@ == modular::lagrange(i as int, nodes(set@), field::scalar_order()),
        modular::eqm(
            r@ * modular::lagrange_den(i as int, nodes(set@)),
            modular::lagrange_num(i as int, nodes(set@)),
            field::scalar_order(),
        ),
        modular::invertible(modular::lagrange_den(i as int, nodes(set@)), field::scalar_order()),
{
    broadcast use field::lemma_scalar_range;

    let xi = Scalar::from_u64(i);
    let mut num = Scalar::one();
    let mut den = Scalar::one();
    let ghost xs = nodes(set@);
    let ghost n = field::scalar_order();
    let ghost fnum = modular::num_factor(i as int, xs);
    let ghost fden = modular::den_factor(i as int, xs);
    let mut k: usize = 0;
    while k < set.len()
        invariant
            k <= set.len(),
            xs == nodes(set@),
            n == field::scalar_order(),
            xi@ == i,
            fnum == modular::num_factor(i as int, xs),
            fden == modular::den_factor(i as int, xs),
            modular::eqm(num@, modular::prod(k as nat, fnum), n),
            modular::eqm(den@, modular::prod(k as nat, fden), n),
            den@ != 0,
        decreases set.len() - k,
    {
        let j: u64 = set[k];
        proof {
            assert(xs[k as int] == j);
            assert(modular::prod((k + 1) as nat, fnum) == modular::prod(k as nat, fnum) * fnum(
                k as int,
            ));
            assert(modular::prod((k + 1) as nat, fden) == modular::prod(k as nat, fden) * fden(
                k as int,
            ));
        }
        if j != i {
            let xj = Scalar::from_u64(j);
            let diff = xj.minus(&xi);
            proof {
                modular::lemma_eqm_mod(j - i, n);
                modular::lemma_eqm_mul(num@, modular::prod(k as nat, fnum), j as int, j as int, n);
                modular::lemma_eqm_mul(den@, modular::prod(k as nat, fden), diff@, j - i, n);
                modular::lemma_eqm_mod(num@ * xj@, n);
                modular::lemma_eqm_mod(den@ * diff@, n);
                lemma_distance_nonzero(i, j);
            }
            num = num.times(&xj);
            den = den.times(&diff);
        } else {
            proof {
                let a = modular::prod(k as nat, fnum);
                let b = modular::prod(k as nat, fden);
                assert(a * 1 == a && b * 1 == b);
                assert(fnum(k as int) == 1 && fden(k as int) == 1);
            }
        }
        k = k + 1;
    }
    let inv = den.inverse();
    proof {
        assert(inv is Some);
    }
    let v = inv.unwrap();
    let r = num.times(&v);
    proof {
        let d = modular::lagrange_den(i as int, xs);
        let m = modular::lagrange_num(i as int, xs);
        // The inverse of the residue inverts the denominator.
        modular::lemma_eqm_mul(den@, d, v@, v@, n);
        modular::lemma_small(1, n);
        assert(modular::eqm(d * v@, 1, n));
        assert(modular::invertible(d, n));
        modular::lemma_eqm_mod(num@ * v@, n);
        modular::lemma_eqm_mul(r@, num@ * v@, d, d, n);
        assert(num@ * v@ * d == num@ * (d * v@)) by (nonlinear_arith);
        modular::lemma_eqm_mul(num@, m, d * v@, 1, n);
        assert(m * 1 == m);
        assert(modular::eqm(r@ * d, m, n));
        let l = modular::lagrange(i as int, xs, n);
        assert(0 <= r@ < n && modular::eqm(r@ * modular::lagrange_den(i as int, xs), modular::lagrange_num(i as int, xs), n));
        assert(0 <= l < n && modular::eqm(l * d, m, n));
        modular::lemma_cancel(r@, l, d, n);
        modular::lemma_eqm_small(r@, l, n);
    }
    r
}

/// Two different participant indices differ modulo the order.
proof fn lemma_distance_nonzero(i: u64, j: u64)
    requires
        i != j,
    ensures
        (j - i) % field::scalar_order() != 0,
{
    let n = field::scalar_order();
    if j > i {
        modular::lemma_small(j - i, n);
    } else {
        modular::lemma_small(j - i + n, n);
        modular::lemma_eqm_add(j - i, j - i, n, 0, n);
    }
}

/// A share's contribution to the interpolation at zero.
pub open spec fn reconstruction_term(subset: Seq<Share>) -> spec_fn(int) -> int {
    |k: int|
        modular::lagrange(
            subset[k].index as int,
            share_nodes(subset),
            field::scalar_order(),
        ) * subset[k].value@
}

/// The shares lie on the polynomial with coefficients `c`.
pub open spec fn on_polynomial(subset: Seq<Share>, c: Seq<int>) -> bool {
    forall|k: int|
        0 <= k < subset.len() ==> modular::eqm(
            (#[trigger] subset[k]).value@,
            modular::poly(c, subset[k].index as int),
            field::scalar_order(),
        )
}

/// What `reconstruct_secret` gives: the interpolation at zero; and the constant term
/// of every polynomial that the shares lie on, where they are of distinct participants
/// and as many as it has coefficients.
pub open spec fn is_reconstruction(subset: Seq<Share>, r: int) -> bool {
    &&& r == modular::sum(subset.len(), reconstruction_term(subset)) % field::scalar_order()
    &&& forall|c: Seq<int>|
        #[trigger] on_polynomial(subset, c) && 0 < c.len() <= subset.len() && modular::distinct(
            share_nodes(subset),
        ) ==> r == c[0] % field::scalar_order()
}

/// Interpolates the shared polynomial at zero.
///
/// Shares of distinct participants that lie on a polynomial with no more
/// coefficients than there are shares give back its constant term.
pub fn reconstruct_secret(subset: &[Share]) -> (r: Scalar)
    ensures
        is_reconstruction(subset@, r@),
{
    broadcast use field::lemma_scalar_range;

    let mut idxs: Vec<u64> = Vec::new();
    let mut i: usize = 0;
    while i < subset.len()
        invariant
            i <= subset.len(),
            idxs.len() == i,
            forall|k: int| 0 <= k < i ==> idxs[k] == subset[k].index,
        decreases subset.len() - i,
    {
        idxs.push(subset[i].index);
        i = i + 1;
    }
    let ghost xs = share_nodes(subset@);
    let ghost n = field::scalar_order();
    let ghost f = reconstruction_term(subset@);
    let ghost mut ls: Seq<int> = Seq::empty();
    assert(nodes(idxs@) =~= xs);
    let mut acc = Scalar::zero();
    i = 0;
    while i < subset.len()
        invariant
            i <= subset.len(),
            n == field::scalar_order(),
            xs == share_nodes(subset@),
            nodes(idxs@) == xs,
            f == reconstruction_term(subset@),
            modular::eqm(acc@, modular::sum(i as nat, f), n),
            ls.len() == i,
            forall|k: int|
                0 <= k < i ==> ls[k] == #[trigger] modular::lagrange(subset[k].index as int, xs, n),
            forall|k: int|
                0 <= k < i ==> modular::eqm(
                    ls[k] * #[trigger] modular::lagrange_den(xs[k], xs),
                    modular::lagrange_num(xs[k], xs),
                    n,
                ) && modular::invertible(modular::lagrange_den(xs[k], xs), n),
        decreases subset.len() - i,
    {
        let lambda_i = lagrange_at_zero(subset[i].index, idxs.as_slice());
        let term = subset[i].value.times(&lambda_i);
        proof {
            ls = ls.push(lambda_i@);
            let k = i as int;
            modular::lemma_eqm_mod(subset[k].value@ * lambda_i@, n);
            assert(subset[k].value@ * lambda_i@ == lambda_i@ * subset[k].value@) by (nonlinear_arith);
            modular::lemma_eqm_add(acc@, modular::sum(i as nat, f), term@, f(k), n);
            modular::lemma_eqm_mod(acc@ + term@, n);
            assert(modular::sum((i + 1) as nat, f) == modular::sum(i as nat, f) + f(k));
        }
        acc = acc.plus(&term);
        i = i + 1;
    }
    proof {
        modular::lemma_small(acc@, n);
        assert forall|c: Seq<int>|
            #[trigger] on_polynomial(subset@, c) && 0 < c.len() <= subset@.len()
                && modular::distinct(share_nodes(subset@)) implies acc@ == c[0] % n by {
            let g = |k: int| ls[k] * modular::poly(c, xs[k]);
            assert forall|k: int| 0 <= k < subset@.len() implies modular::eqm(
                #[trigger] f(k),
                g(k),
                n,
            ) by {
                assert(ls[k] == modular::lagrange(subset[k].index as int, xs, n));
                modular::lemma_eqm_mul(
                    ls[k],
                    ls[k],
                    subset[k].value@,
                    modular::poly(c, subset[k].index as int),
                    n,
                );
            }
            modular::lemma_sum_eqm(subset@.len(), f, g, n);
            modular::lemma_interpolation(ls, xs, c, n);
        }
    }
    acc
}

/// The sum of the participants' public keys.
pub fn aggregate_pk_from_individual_pks(pks: &[Point]) -> (r: Point)
    ensures
        r.log() == modular::sum(pks@.len(), |i: int| pks@[i].log()) % field::scalar_order(),
{
    broadcast use crate::curve::lemma_log_range;

    let mut acc = Point::identity();
    let ghost n = field::scalar_order();
    let ghost f = |i: int| pks@[i].log();
    let mut i: usize = 0;
    while i < pks.len()
        invariant
            i <= pks.len(),
            n == field::scalar_order(),
            f == (|i: int| pks@[i].log()),
            modular::eqm(acc.log(), modular::sum(i as nat, f), n),
        decreases pks.len() - i,
    {
        proof {
            modular::lemma_eqm_add(
                acc.log(),
                modular::sum(i as nat, f),
                pks[i as int].log(),
                f(i as int),
                n,
            );
            modular::lemma_eqm_mod(acc.log() + pks[i as int].log(), n);
            assert(modular::sum((i + 1) as nat, f) == modular::sum(i as nat, f) + f(i as int));
        }
        acc = acc.plus(&pks[i]);
        i = i + 1;
    }
    proof {
        modular::lemma_small(acc.log(), n);
    }
    acc
}

/// The public key of a shared polynomial: the commitment to its constant term.
pub fn pk_from_commitments(commits: &[Point]) -> (r: Point)
    requires
        commits@.len() > 0,
    ensures
        r == commits@[0],
{
    commits[0]
}

/// One participant's part of a decryption.
pub fn partial_decrypt_share(c1: &Point, sk_i: Scalar) -> (r: Point)
    ensures
        r.log() == (c1.log() * sk_i@) % field::scalar_order(),
{
    c1.times(&sk_i)
}

fn contains_index(chosen: &[u64], i: u64) -> (b: bool)
    ensures
        b == chosen@.contains(i),
{
    let mut k: usize = 0;
    while k < chosen.len()
        invariant
            k <= chosen.len(),
            forall|j: int| 0 <= j < k ==> chosen[j] != i,
        decreases chosen.len() - k,
    {
        if chosen[k] == i {
            assert(chosen@[k as int] == i);
            return true;
        }
        k = k + 1;
    }
    false
}

/// `l` is the Lagrange coefficient at zero of the node `i` in `xs`, whose
/// denominator has an inverse.
spec fn is_weight(l: int, i: int, xs: Seq<int>) -> bool {
    &&& l == modular::lagrange(i, xs, field::scalar_order())
    &&& modular::eqm(
        l * modular::lagrange_den(i, xs),
        modular::lagrange_num(i, xs),
        field::scalar_order(),
    )
    &&& modular::invertible(modular::lagrange_den(i, xs), field::scalar_order())
}

/// A partial decryption's contribution to a combination over `chosen`.
pub open spec fn combination_term(
    indexed_shares: Seq<(u64, Point)>,
    chosen: Seq<u64>,
) -> spec_fn(int) -> int {
    |k: int|
        if chosen.contains(indexed_shares[k].0) {
            modular::lagrange(
                indexed_shares[k].0 as int,
                nodes(chosen),
                field::scalar_order(),
            ) * indexed_shares[k].1.log()
        } else {
            0
        }
}

/// The partial decryptions are those of `c1` under shares of the polynomial
/// with coefficients `c`, one for each chosen participant in turn.
pub open spec fn partial_decryptions(
    indexed_shares: Seq<(u64, Point)>,
    chosen: Seq<u64>,
    c1: int,
    c: Seq<int>,
) -> bool {
    &&& indexed_shares.len() == chosen.len()
    &&& forall|k: int|
        0 <= k < chosen.len() ==> (#[trigger] indexed_shares[k]).0 == chosen[k] && modular::eqm(
            indexed_shares[k].1.log(),
            c1 * modular::poly(c, chosen[k] as int),
            field::scalar_order(),
        )
}

/// A number occurs once among partial decryptions.
pub open spec fn occurs_once(parts: Seq<(u64, Point)>, x: u64) -> bool {
    &&& exists|k: int| 0 <= k < parts.len() && (#[trigger] parts[k]).0 == x
    &&& forall|k: int, l: int|
        0 <= k < parts.len() && 0 <= l < parts.len() && (#[trigger] parts[k]).0 == x && (
        #[trigger] parts[l]).0 == x ==> k == l
}

/// Among the partial decryptions there is one of each chosen participant, and it is
/// that of `c1` under the participant's share of the polynomial with coefficients `c`.
/// They stand in any order, and there may be others.
pub open spec fn has_parts(
    parts: Seq<(u64, Point)>,
    chosen: Seq<u64>,
    c1: int,
    c: Seq<int>,
) -> bool {
    &&& forall|j: int| 0 <= j < chosen.len() ==> occurs_once(parts, #[trigger] chosen[j])
    &&& forall|k: int|
        0 <= k < parts.len() && chosen.contains((#[trigger] parts[k]).0) ==> modular::eqm(
            parts[k].1.log(),
            c1 * modular::poly(c, parts[k].0 as int),
            field::scalar_order(),
        )
}

/// What `combine_shares_threshold` gives: the ciphertext less the combination; and
/// less `c1` times the shared secret, where the partial decryptions of distinct
/// participants, as many as the polynomial has coefficients, are among those given.
pub open spec fn is_combination(
    c2: Point,
    parts: Seq<(u64, Point)>,
    chosen: Seq<u64>,
    r: Point,
) -> bool {
    &&& r.log() == (c2.log() - modular::sum(parts.len(), combination_term(parts, chosen)))
        % field::scalar_order()
    &&& forall|c1: int, c: Seq<int>|
        #[trigger] has_parts(parts, chosen, c1, c) && 0 < c.len() <= chosen.len()
            && modular::distinct(nodes(chosen)) ==> r.log() == (c2.log() - c1 * c[0])
            % field::scalar_order()
}

/// A sum whose terms are zero but at some positions is the sum over those.
proof fn lemma_sum_at(m: nat, f: spec_fn(int) -> int, pos: Seq<int>)
    requires
        pos.no_duplicates(),
        forall|j: int| 0 <= j < pos.len() ==> 0 <= #[trigger] pos[j] < m,
        forall|k: int| 0 <= k < m && !pos.contains(k) ==> #[trigger] f(k) == 0,
    ensures
        modular::sum(m, f) == modular::sum(pos.len(), |j: int| f(pos[j])),
    decreases pos.len(),
{
    let h = |j: int| f(pos[j]);
    if pos.len() == 0 {
        let z = |k: int| 0int;
        assert forall|k: int| 0 <= k < m implies #[trigger] f(k) == z(k) by {
            assert(!pos.contains(k));
        }
        modular::lemma_sum_ext(m, f, z);
        modular::lemma_sum_zero(m);
    } else {
        let p = pos.last();
        let rest = pos.drop_last();
        let g = |k: int|
            if k == p {
                0
            } else {
                f(k)
            };
        assert forall|k: int| 0 <= k < m && !rest.contains(k) implies #[trigger] g(k) == 0 by {
            if k != p && pos.contains(k) {
                let j = choose|j: int| 0 <= j < pos.len() && pos[j] == k;
                assert(rest[j] == k);
            }
        }
        assert forall|i: int, j: int|
            0 <= i < rest.len() && 0 <= j < rest.len() && i != j implies rest[i] != rest[j] by {
            assert(pos[i] != pos[j]);
        }
        lemma_sum_at(m, g, rest);
        lemma_sum_bump(m, g, f, p, f(p));
        let u = |j: int| g(rest[j]);
        assert forall|j: int| 0 <= j < rest.len() implies #[trigger] u(j) == h(j) by {
            assert(pos[j] != pos[pos.len() - 1]);
        }
        modular::lemma_sum_ext(rest.len(), u, h);
        assert(modular::sum(pos.len(), h) == modular::sum(rest.len(), h) + h(rest.len() as int));
    }
}

/// Partial decryptions of distinct participants in turn are among those given.
proof fn lemma_parts_in_turn(
    parts: Seq<(u64, Point)>,
    chosen: Seq<u64>,
    c1: int,
    c: Seq<int>,
)
    requires
        partial_decryptions(parts, chosen, c1, c),
        modular::distinct(nodes(chosen)),
    ensures
        has_parts(parts, chosen, c1, c),
{
    let xs = nodes(chosen);
    assert forall|j: int| 0 <= j < chosen.len() implies occurs_once(parts, #[trigger] chosen[j]) by {
        assert(parts[j].0 == chosen[j]);
        assert forall|k: int, l: int|
            0 <= k < parts.len() && 0 <= l < parts.len() && (#[trigger] parts[k]).0 == chosen[j] && (
            #[trigger] parts[l]).0 == chosen[j] implies k == l by {
            assert(xs[k] == chosen[k] && xs[l] == chosen[l]);
            if k < l {
                assert(xs[k] != xs[l]);
            } else if l < k {
                assert(xs[l] != xs[k]);
            }
        }
    }
}

/// Weights for the partial decryptions of the chosen participants combine them into
/// `c1` times the shared secret.
proof fn lemma_parts_combine(
    parts: Seq<(u64, Point)>,
    chosen: Seq<u64>,
    ls: Seq<int>,
    c1: int,
    c: Seq<int>,
)
    requires
        has_parts(parts, chosen, c1, c),
        0 < c.len() <= chosen.len(),
        modular::distinct(nodes(chosen)),
        ls.len() == parts.len(),
        forall|k: int|
            0 <= k < parts.len() && chosen.contains(parts[k].0) ==> is_weight(
                #[trigger] ls[k],
                parts[k].0 as int,
                nodes(chosen),
            ),
    ensures
        modular::eqm(
            modular::sum(parts.len(), combination_term(parts, chosen)),
            c1 * c[0],
            field::scalar_order(),
        ),
{
    let n = field::scalar_order();
    let xs = nodes(chosen);
    let f = combination_term(parts, chosen);
    let pos = Seq::new(
        chosen.len(),
        |j: int| choose|k: int| 0 <= k < parts.len() && (#[trigger] parts[k]).0 == chosen[j],
    );
    assert forall|j: int| 0 <= j < pos.len() implies 0 <= #[trigger] pos[j] < parts.len()
        && parts[pos[j]].0 == chosen[j] && chosen.contains(parts[pos[j]].0) by {
        assert(occurs_once(parts, chosen[j]));
    }
    assert forall|i: int, j: int|
        0 <= i < pos.len() && 0 <= j < pos.len() && i != j implies pos[i] != pos[j] by {
        assert(xs[i] == chosen[i] && xs[j] == chosen[j]);
        assert(parts[pos[i]].0 == chosen[i] && parts[pos[j]].0 == chosen[j]);
        if i < j {
            assert(xs[i] != xs[j]);
        } else {
            assert(xs[j] != xs[i]);
        }
    }
    assert forall|k: int| 0 <= k < parts.len() && !pos.contains(k) implies #[trigger] f(k) == 0 by {
        if chosen.contains(parts[k].0) {
            let j = choose|j: int| 0 <= j < chosen.len() && chosen[j] == parts[k].0;
            assert(occurs_once(parts, chosen[j]));
            assert(parts[pos[j]].0 == chosen[j]);
            assert(pos[j] == k);
        }
    }
    lemma_sum_at(parts.len(), f, pos);
    let h = |j: int| f(pos[j]);
    let lb = Seq::new(chosen.len(), |j: int| ls[pos[j]]);
    assert forall|j: int| 0 <= j < xs.len() implies is_weight(#[trigger] lb[j], xs[j], xs) by {
        assert(parts[pos[j]].0 == chosen[j]);
        assert(is_weight(ls[pos[j]], parts[pos[j]].0 as int, xs));
    }
    assert forall|j: int| 0 <= j < xs.len() implies modular::eqm(
        lb[j] * #[trigger] modular::lagrange_den(xs[j], xs),
        modular::lagrange_num(xs[j], xs),
        n,
    ) && modular::invertible(modular::lagrange_den(xs[j], xs), n) by {
        assert(is_weight(lb[j], xs[j], xs));
    }
    let p = |j: int| lb[j] * modular::poly(c, xs[j]);
    let g = |j: int| c1 * p(j);
    assert forall|j: int| 0 <= j < xs.len() implies modular::eqm(#[trigger] h(j), g(j), n) by {
        let k = pos[j];
        assert(parts[k].0 == chosen[j]);
        assert(is_weight(lb[j], xs[j], xs));
        let y = modular::poly(c, xs[j]);
        modular::lemma_eqm_mul(lb[j], lb[j], parts[k].1.log(), c1 * y, n);
        let l = lb[j];
        assert(l * (c1 * y) == c1 * (l * y)) by (nonlinear_arith);
    }
    modular::lemma_sum_eqm(xs.len(), h, g, n);
    modular::lemma_sum_scale(xs.len(), p, c1);
    modular::lemma_interpolation(lb, xs, c, n);
    modular::lemma_eqm_mul(c1, c1, modular::sum(xs.len(), p), c[0], n);
}

/// Takes the combined partial decryptions off a ciphertext.
///
/// Partial decryptions by distinct participants, at least as many as the
/// shared polynomial has coefficients, take off exactly `c1` times the shared
/// secret: what is left is the message.
pub fn combine_shares_threshold(
    c2: &Point,
    indexed_shares: &[(u64, Point)],
    chosen: &[u64],
) -> (r: Point)
    ensures
        is_combination(*c2, indexed_shares@, chosen@, r),
        forall|c1: int, c: Seq<int>|
            #[trigger] partial_decryptions(indexed_shares@, chosen@, c1, c) && 0 < c.len()
                <= chosen@.len() && modular::distinct(nodes(chosen@)) ==> r.log() == (c2.log() - c1
                * c[0]) % field::scalar_order(),
{
    broadcast use crate::curve::lemma_log_range;

    let mut agg = Point::identity();
    let ghost n = field::scalar_order();
    let ghost xs = nodes(chosen@);
    let ghost f = combination_term(indexed_shares@, chosen@);
    let ghost mut ls: Seq<int> = Seq::empty();
    let mut i: usize = 0;
    while i < indexed_shares.len()
        invariant
            i <= indexed_shares.len(),
            n == field::scalar_order(),
            xs == nodes(chosen@),
            f == combination_term(indexed_shares@, chosen@),
            modular::eqm(agg.log(), modular::sum(i as nat, f), n),
            ls.len() == i,
            forall|k: int|
                0 <= k < i && chosen@.contains(indexed_shares[k].0) ==> is_weight(
                    #[trigger] ls[k],
                    indexed_shares[k].0 as int,
                    xs,
                ),
        decreases indexed_shares.len() - i,
    {
        let ghost k = i as int;
        assert(modular::sum((i + 1) as nat, f) == modular::sum(i as nat, f) + f(k));
        let idx: u64 = indexed_shares[i].0;
        if contains_index(chosen, idx) {
            let lambda_i = lagrange_at_zero(idx, chosen);
            let term = indexed_shares[i].1.times(&lambda_i);
            proof {
                ls = ls.push(lambda_i@);
                let w = indexed_shares[k].1.log();
                modular::lemma_eqm_mod(w * lambda_i@, n);
                assert(w * lambda_i@ == lambda_i@ * w) by (nonlinear_arith);
                modular::lemma_eqm_add(agg.log(), modular::sum(i as nat, f), term.log(), f(k), n);
                modular::lemma_eqm_mod(agg.log() + term.log(), n);
            }
            agg = agg.plus(&term);
        } else {
            proof {
                ls = ls.push(0);
            }
        }
        i = i + 1;
    }
    let r = c2.minus(&agg);
    proof {
        let t = modular::sum(indexed_shares@.len(), f);
        modular::lemma_eqm_add(c2.log(), c2.log(), agg.log(), t, n);
        assert forall|c1: int, c: Seq<int>|
            #[trigger] has_parts(indexed_shares@, chosen@, c1, c) && 0 < c.len() <= chosen@.len()
                && modular::distinct(nodes(chosen@)) implies r.log() == (c2.log() - c1 * c[0])
            % n by {
            lemma_parts_combine(indexed_shares@, chosen@, ls, c1, c);
            modular::lemma_eqm_add(c2.log(), c2.log(), t, c1 * c[0], n);
        }
        assert forall|c1: int, c: Seq<int>|
            #[trigger] partial_decryptions(indexed_shares@, chosen@, c1, c) && 0 < c.len()
                <= chosen@.len() && modular::distinct(nodes(chosen@)) implies r.log() == (c2.log()
            - c1 * c[0]) % n by {
            lemma_parts_in_turn(indexed_shares@, chosen@, c1, c);
        }
    }
    r
}

/// What `decode_vote` finds: the least number of votes, up to `max_votes`,
/// whose encoding the point is.
pub open spec fn decoded(msg: int, g: int, max_votes: int, r: Option<u64>) -> bool {
    match r {
        Some(k) => {
            &&& k <= max_votes || k == 0
            &&& msg == (k * g) % field::scalar_order()
            &&& forall|j: int| 0 <= j < k ==> msg != #[trigger] (j * g) % field::scalar_order()
        },
        None => forall|j: int|
            0 <= j <= max_votes ==> msg != #[trigger] (j * g) % field::scalar_order(),
    }
}

/// Searches for the number of votes that a point encodes, up to `max_votes`.
pub fn decode_vote(msg_point: &Point, g: &Point, max_votes: u64) -> (r: Option<u64>)
    ensures
        decoded(msg_point.log(), g.log(), max_votes as int, r),
{
    broadcast use crate::curve::lemma_log_range;

    let ghost n = field::scalar_order();
    let ghost gl = g.log();
    if msg_point.is_zero() {
        assert(0 * gl == 0);
        return Some(0);
    }
    assert(0 * gl == 0);
    let mut current_g = *g;
    let mut k: u64 = 0;
    proof {
        modular::lemma_small(gl, n);
        assert(1 * gl == gl);
    }
    while k < max_votes
        invariant
            k <= max_votes,
            n == field::scalar_order(),
            gl == g.log(),
            current_g.log() == ((k + 1) * gl) % n,
            msg_point.log() != 0,
            forall|j: int| 0 <= j <= k ==> msg_point.log() != #[trigger] (j * gl) % n,
        decreases max_votes - k,
    {
        if current_g.same(msg_point) {
            return Some(k + 1);
        }
        proof {
            modular::lemma_eqm_mod((k + 1) * gl, n);
            modular::lemma_eqm_add(((k + 1) * gl) % n, (k + 1) * gl, gl, gl, n);
            assert((k + 1) * gl + gl == (k + 2) * gl) by (nonlinear_arith);
        }
        current_g = current_g.plus(g);
        k = k + 1;
    }
    None
}

/// A ciphertext list's first components, as logarithms.
pub open spec fn first_log(cts: Seq<(Point, Point)>) -> spec_fn(int) -> int {
    |i: int| cts[i].0.log()
}

/// A ciphertext list's second components, as logarithms.
pub open spec fn second_log(cts: Seq<(Point, Point)>) -> spec_fn(int) -> int {
    |i: int| cts[i].1.log()
}

/// Adds ciphertexts component by component.
pub fn ct_sum(cts: &[(Point, Point)]) -> (r: (Point, Point))
    ensures
        r.0.log() == modular::sum(cts@.len(), first_log(cts@)) % field::scalar_order(),
        r.1.log() == modular::sum(cts@.len(), second_log(cts@)) % field::scalar_order(),
{
    broadcast use crate::curve::lemma_log_range;

    let mut acc_c1 = Point::identity();
    let mut acc_c2 = Point::identity();
    let ghost n = field::scalar_order();
    let ghost f = first_log(cts@);
    let ghost h = second_log(cts@);
    let mut i: usize = 0;
    while i < cts.len()
        invariant
            i <= cts.len(),
            n == field::scalar_order(),
            f == first_log(cts@),
            h == second_log(cts@),
            modular::eqm(acc_c1.log(), modular::sum(i as nat, f), n),
            modular::eqm(acc_c2.log(), modular::sum(i as nat, h), n),
        decreases cts.len() - i,
    {
        proof {
            let k = i as int;
            modular::lemma_eqm_add(acc_c1.log(), modular::sum(i as nat, f), cts[k].0.log(), f(k), n);
            modular::lemma_eqm_add(acc_c2.log(), modular::sum(i as nat, h), cts[k].1.log(), h(k), n);
            modular::lemma_eqm_mod(acc_c1.log() + cts[k].0.log(), n);
            modular::lemma_eqm_mod(acc_c2.log() + cts[k].1.log(), n);
            assert(modular::sum((i + 1) as nat, f) == modular::sum(i as nat, f) + f(k));
            assert(modular::sum((i + 1) as nat, h) == modular::sum(i as nat, h) + h(k));
        }
        acc_c1 = acc_c1.plus(&cts[i].0);
        acc_c2 = acc_c2.plus(&cts[i].1);
        i = i + 1;
    }
    proof {
        modular::lemma_small(acc_c1.log(), n);
        modular::lemma_small(acc_c2.log(), n);
    }
    (acc_c1, acc_c2)
}

/// A number of votes that was encoded under a generator, and that the search
/// reaches, is what the search finds.
pub proof fn law_vote_round_trip(vote: u64, msg: Point, g: Point, max_votes: u64, r: Option<u64>)
    requires
        is_generator(g),
        msg.log() == (vote * g.log()) % field::scalar_order(),
        vote <= max_votes,
        decoded(msg.log(), g.log(), max_votes as int, r),
    ensures
        r == Some(vote),
{
    let n = field::scalar_order();
    assert(msg.log() == (vote as int * g.log()) % n);
    match r {
        Some(k) => {
            assert(modular::eqm(k * g.log(), vote * g.log(), n));
            modular::lemma_cancel(k as int, vote as int, g.log(), n);
            modular::lemma_eqm_small(k as int, vote as int, n);
        },
        None => {},
    }
}

/// The numbers of partial decryptions.
pub open spec fn part_numbers(parts: Seq<(u64, Point)>) -> Seq<u64> {
    Seq::new(parts.len(), |k: int| parts[k].0)
}

/// What a list of numbers adds up to where each number has a value.
spec fn valued(s: Seq<u64>, v: spec_fn(u64) -> int, among: Seq<u64>) -> spec_fn(int) -> int {
    |k: int|
        if among.contains(s[k]) {
            v(s[k])
        } else {
            0
        }
}

proof fn lemma_sum_bump(k: nat, f: spec_fn(int) -> int, g: spec_fn(int) -> int, at: int, d: int)
    requires
        0 <= at < k,
        forall|i: int| 0 <= i < k && i != at ==> #[trigger] f(i) == g(i),
        g(at) == f(at) + d,
    ensures
        modular::sum(k, g) == modular::sum(k, f) + d,
    decreases k,
{
    if at == k - 1 {
        modular::lemma_sum_ext((k - 1) as nat, f, g);
    } else {
        assert(f(k - 1) == g(k - 1));
        lemma_sum_bump((k - 1) as nat, f, g, at, d);
    }
}

/// The numbers that two lists have in common add up to the same in both.
proof fn lemma_common(s: Seq<u64>, t: Seq<u64>, v: spec_fn(u64) -> int)
    requires
        s.no_duplicates(),
        t.no_duplicates(),
    ensures
        modular::sum(s.len(), valued(s, v, t)) == modular::sum(t.len(), valued(t, v, s)),
    decreases s.len(),
{
    let f = valued(s, v, t);
    if s.len() == 0 {
        let z = |k: int| 0int;
        let h = valued(t, v, s);
        assert forall|k: int| 0 <= k < t.len() implies #[trigger] h(k) == z(k) by {}
        modular::lemma_sum_ext(t.len(), h, z);
        modular::lemma_sum_zero(t.len());
    } else {
        let m = (s.len() - 1) as nat;
        let rest = s.drop_last();
        let x = s.last();
        lemma_common(rest, t, v);
        let f0 = valued(rest, v, t);
        assert forall|k: int| 0 <= k < m implies #[trigger] f0(k) == f(k) by {
            assert(rest[k] == s[k]);
        }
        modular::lemma_sum_ext(m, f0, f);
        let h0 = valued(t, v, rest);
        let h = valued(t, v, s);
        assert(s =~= rest.push(x));
        assert forall|q: u64| s.contains(q) == (rest.contains(q) || q == x) by {
            if s.contains(q) {
                let i = choose|i: int| 0 <= i < s.len() && s[i] == q;
                if i < m {
                    assert(rest[i] == q);
                }
            }
            if rest.contains(q) {
                let i = choose|i: int| 0 <= i < rest.len() && rest[i] == q;
                assert(s[i] == q);
            }
            assert(s[m as int] == x);
        }
        assert(!rest.contains(x)) by {
            if rest.contains(x) {
                let i = choose|i: int| 0 <= i < rest.len() && rest[i] == x;
                assert(s[i] == s[m as int]);
            }
        }
        if t.contains(x) {
            let at = choose|i: int| 0 <= i < t.len() && t[i] == x;
            assert forall|k: int| 0 <= k < t.len() && k != at implies #[trigger] h0(k) == h(k) by {
                assert(t[k] != t[at]);
            }
            lemma_sum_bump(t.len(), h0, h, at, v(x));
        } else {
            assert forall|k: int| 0 <= k < t.len() implies #[trigger] h0(k) == h(k) by {
                if t[k] == x {
                    assert(t.contains(x));
                }
            }
            modular::lemma_sum_ext(t.len(), h0, h);
        }
    }
}

/// Two lists hold the same partial decryptions of the chosen participants, none of
/// them twice.
pub open spec fn same_parts(
    a: Seq<(u64, Point)>,
    b: Seq<(u64, Point)>,
    chosen: Seq<u64>,
) -> bool {
    &&& part_numbers(a).no_duplicates()
    &&& part_numbers(b).no_duplicates()
    &&& forall|x: u64|
        chosen.contains(x) ==> (#[trigger] part_numbers(a).contains(x) == part_numbers(b).contains(
            x,
        ))
    &&& forall|i: int, j: int|
        #![trigger a[i], b[j]]
        0 <= i < a.len() && 0 <= j < b.len() && a[i].0 == b[j].0 && chosen.contains(a[i].0)
            ==> a[i].1.log() == b[j].1.log()
}

proof fn lemma_combination(
    a: Seq<(u64, Point)>,
    b: Seq<(u64, Point)>,
    chosen: Seq<u64>,
    v: spec_fn(u64) -> int,
)
    requires
        forall|x: u64|
            chosen.contains(x) ==> (#[trigger] part_numbers(a).contains(x)
                == part_numbers(b).contains(x)),
        forall|i: int|
            0 <= i < a.len() ==> v((#[trigger] a[i]).0) == combination_term(a, chosen)(i),
    ensures
        modular::sum(a.len(), combination_term(a, chosen)) == modular::sum(
            a.len(),
            valued(part_numbers(a), v, part_numbers(b)),
        ),
{
    let f = combination_term(a, chosen);
    let h = valued(part_numbers(a), v, part_numbers(b));
    assert forall|k: int| 0 <= k < a.len() implies #[trigger] f(k) == h(k) by {
        let x = a[k].0;
        assert(v(a[k].0) == f(k));
        assert(part_numbers(a)[k] == x);
        if chosen.contains(x) {
            assert(part_numbers(a).contains(x));
        }
    }
    modular::lemma_sum_ext(a.len(), f, h);
}

/// What combined partial decryptions take off a ciphertext depends on those of the
/// chosen participants alone: neither the order in which they are listed nor
/// further entries matter.
pub proof fn law_order_of_parts_does_not_matter(
    c2: Point,
    a: Seq<(u64, Point)>,
    b: Seq<(u64, Point)>,
    chosen: Seq<u64>,
)
    requires
        same_parts(a, b, chosen),
    ensures
        (c2.log() - modular::sum(a.len(), combination_term(a, chosen))) % field::scalar_order() == (
        c2.log() - modular::sum(b.len(), combination_term(b, chosen))) % field::scalar_order(),
{
    let na = part_numbers(a);
    let nb = part_numbers(b);
    let v = |x: u64|
        if !chosen.contains(x) {
            0
        } else if na.contains(x) {
            combination_term(a, chosen)(na.index_of(x))
        } else {
            0
        };
    assert forall|i: int| 0 <= i < a.len() implies v((#[trigger] a[i]).0) == combination_term(
        a,
        chosen,
    )(i) by {
        let x = a[i].0;
        assert(na[i] == x);
        assert(na.contains(x));
        let at = na.index_of(x);
        assert(0 <= at < na.len() && na[at] == x);
        assert(at == i);
    }
    assert forall|j: int| 0 <= j < b.len() implies v((#[trigger] b[j]).0) == combination_term(
        b,
        chosen,
    )(j) by {
        let x = b[j].0;
        assert(nb[j] == x);
        assert(nb.contains(x));
        if chosen.contains(x) {
            assert(na.contains(x) == nb.contains(x));
            let at = na.index_of(x);
            assert(0 <= at < na.len() && na[at] == x);
            assert(a[at].0 == b[j].0);
            assert(a[at].1.log() == b[j].1.log());
        }
    }
    lemma_combination(a, b, chosen, v);
    assert forall|x: u64| chosen.contains(x) implies (#[trigger] nb.contains(x) == na.contains(x)) by {
        assert(na.contains(x) == nb.contains(x));
    }
    lemma_combination(b, a, chosen, v);
    lemma_common(na, nb, v);
}

/// The partial decryption of a participant is that of `c1` under its dealt share.
pub open spec fn is_part_under(part: (u64, Point), shares: Seq<Share>, c1: Point) -> bool {
    part.1.log() == (c1.log() * shares[part.0 - 1].value@) % field::scalar_order()
}

/// Any participants decrypt, as many as the shared polynomial has coefficients: where
/// `shares` are dealt of the secret of `pk`, `(c1, c2)` is the encryption of `msg`
/// under `pk`, and the partial decryptions of the chosen participants are among those
/// given, in any order, `r`, which `combine_shares_threshold` leaves, is the message.
pub proof fn law_any_participants_decrypt(
    msg: Point,
    pk: Point,
    g: Point,
    rand: Scalar,
    c1: Point,
    c2: Point,
    coeffs: Seq<Scalar>,
    shares: Seq<Share>,
    n: int,
    parts: Seq<(u64, Point)>,
    chosen: Seq<u64>,
    r: Point,
)
    requires
        deals(shares, coeffs, n),
        0 < coeffs.len() <= chosen.len(),
        pk.log() == (g.log() * coeffs[0]@) % field::scalar_order(),
        c1.log() == (g.log() * rand@) % field::scalar_order(),
        c2.log() == (msg.log() + pk.log() * rand@) % field::scalar_order(),
        chosen.no_duplicates(),
        forall|j: int| 0 <= j < chosen.len() ==> 1 <= #[trigger] chosen[j] <= n,
        forall|j: int| 0 <= j < chosen.len() ==> occurs_once(parts, #[trigger] chosen[j]),
        forall|k: int|
            0 <= k < parts.len() && chosen.contains((#[trigger] parts[k]).0) ==> is_part_under(
                parts[k],
                shares,
                c1,
            ),
        is_combination(c2, parts, chosen, r),
    ensures
        r.log() == msg.log(),
{
    broadcast use crate::curve::lemma_log_range;

    let o = field::scalar_order();
    let c = values(coeffs);
    let xs = nodes(chosen);
    let (gl, s, w, ml) = (g.log(), coeffs[0]@, rand@, msg.log());
    assert forall|i: int, j: int| 0 <= i < j < xs.len() implies xs[i] != xs[j] by {
        assert(chosen[i] != chosen[j]);
    }
    assert forall|k: int|
        0 <= k < parts.len() && chosen.contains((#[trigger] parts[k]).0) implies modular::eqm(
        parts[k].1.log(),
        c1.log() * modular::poly(c, parts[k].0 as int),
        o,
    ) by {
        let x = parts[k].0;
        let j = choose|j: int| 0 <= j < chosen.len() && chosen[j] == x;
        let share = shares[x - 1];
        let y = modular::poly(c, x as int);
        assert(is_part_under(parts[k], shares, c1));
        assert(share.value@ == y % o);
        modular::lemma_eqm_mod(c1.log() * share.value@, o);
        modular::lemma_eqm_mod(y, o);
        modular::lemma_eqm_mul(c1.log(), c1.log(), share.value@, y, o);
    }
    assert(has_parts(parts, chosen, c1.log(), c));
    assert(r.log() == (c2.log() - c1.log() * c[0]) % o);
    modular::lemma_eqm_mod(gl * s, o);
    modular::lemma_eqm_mod(gl * w, o);
    modular::lemma_eqm_mul(pk.log(), gl * s, w, w, o);
    modular::lemma_eqm_mul(c1.log(), gl * w, s, s, o);
    assert(gl * s * w == gl * w * s) by (nonlinear_arith);
    modular::lemma_eqm_mod(ml + pk.log() * w, o);
    modular::lemma_eqm_add(pk.log() * w, gl * s * w, ml, ml, o);
    modular::lemma_eqm_add(c2.log(), ml + gl * s * w, c1.log() * s, gl * w * s, o);
    modular::lemma_small(ml, o);
}

/// The ciphertexts `cts` encrypt the numbers `votes` under `pk`.
pub open spec fn encrypts(
    cts: Seq<(Point, Point)>,
    votes: Seq<int>,
    rs: Seq<int>,
    pk: Point,
    g: Point,
) -> bool {
    &&& votes.len() == cts.len()
    &&& rs.len() == cts.len()
    &&& forall|i: int|
        0 <= i < cts.len() ==> (#[trigger] cts[i]).0.log() == (g.log() * rs[i])
            % field::scalar_order() && cts[i].1.log() == ((votes[i] * g.log()) % field::scalar_order()
            + pk.log() * rs[i]) % field::scalar_order()
}

/// The sum of ciphertexts decrypts to the sum of the votes: taking `x` times
/// the first component off the second leaves the encoding of the tally, where
/// `x` is the secret key of `pk`.
pub proof fn law_tally(
    cts: Seq<(Point, Point)>,
    votes: Seq<int>,
    rs: Seq<int>,
    pk: Point,
    g: Point,
    x: int,
    total: (Point, Point),
)
    requires
        encrypts(cts, votes, rs, pk, g),
        pk.log() == (g.log() * x) % field::scalar_order(),
        total.0.log() == modular::sum(cts.len(), first_log(cts)) % field::scalar_order(),
        total.1.log() == modular::sum(cts.len(), second_log(cts)) % field::scalar_order(),
    ensures
        modular::eqm(
            total.1.log() - total.0.log() * x,
            modular::sum(cts.len(), |i: int| votes[i]) * g.log(),
            field::scalar_order(),
        ),
{
    let n = field::scalar_order();
    let gl = g.log();
    let k = cts.len();
    let f = first_log(cts);
    let h = second_log(cts);
    let r = |i: int| rs[i];
    let v = |i: int| votes[i];
    let gr = |i: int| gl * r(i);
    let gv = |i: int| gl * v(i);
    let pr = |i: int| (gl * x) * r(i);
    let e = |i: int| gv(i) + pr(i);
    modular::lemma_eqm_mod(gl * x, n);
    assert forall|i: int| 0 <= i < k implies modular::eqm(#[trigger] f(i), gr(i), n) by {
        modular::lemma_eqm_mod(gl * rs[i], n);
        assert(cts[i].0.log() == (gl * rs[i]) % n);
    }
    assert forall|i: int| 0 <= i < k implies modular::eqm(#[trigger] h(i), e(i), n) by {
        let a = (votes[i] * gl) % n;
        assert(cts[i].1.log() == (a + pk.log() * rs[i]) % n);
        modular::lemma_eqm_mod(votes[i] * gl, n);
        assert(votes[i] * gl == gl * votes[i]) by (nonlinear_arith);
        modular::lemma_eqm_mul(pk.log(), gl * x, rs[i], rs[i], n);
        modular::lemma_eqm_add(a, gl * votes[i], pk.log() * rs[i], (gl * x) * rs[i], n);
        modular::lemma_eqm_mod(a + pk.log() * rs[i], n);
    }
    modular::lemma_sum_eqm(k, f, gr, n);
    modular::lemma_sum_eqm(k, h, e, n);
    modular::lemma_sum_scale(k, r, gl);
    modular::lemma_sum_scale(k, v, gl);
    modular::lemma_sum_scale(k, r, gl * x);
    modular::lemma_sum_plus(k, gv, pr);
    let sr = modular::sum(k, r);
    let sv = modular::sum(k, v);
    modular::lemma_eqm_mod(modular::sum(k, f), n);
    modular::lemma_eqm_mod(modular::sum(k, h), n);
    modular::lemma_eqm_mul(total.0.log(), gl * sr, x, x, n);
    modular::lemma_eqm_add(
        total.1.log(),
        gl * sv + (gl * x) * sr,
        total.0.log() * x,
        (gl * sr) * x,
        n,
    );
    assert(gl * sv + (gl * x) * sr - (gl * sr) * x == sv * gl) by (nonlinear_arith);
}

} // verus!
