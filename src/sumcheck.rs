use crate::error::GkrError;
use crate::field::{ark_inverse, be_bytes, fadd, fmul, fsub, le_value, modulus, Fq};
use crate::mle::{
    bytes_of, dim_of, elements_to_bytes, is_pow2, lemma_dim_of_pow2, lemma_pow2_pos, pow2, vals,
};
use crate::poly::{
    first_term_error, fold_terms, n_vars, sum_at, sum_eval, uniform, uniform_terms,
    well_shaped, SumPoly,
};
use crate::transcript::{keccak256_of, KeccakHasher, Transcript};
use vstd::prelude::*;

verus! {

/// The field element a transcript derives from the bytes absorbed.
pub open spec fn challenge_of(bytes: Seq<u8>) -> int {
    le_value(keccak256_of(bytes)) % modulus()
}

/// A sum of products whose factors all have the same power-of-two length.
pub open spec fn ready(ts: Seq<Seq<Seq<int>>>) -> bool {
    well_shaped(ts) && is_pow2(ts[0][0].len())
}

/// The largest number of factors of any term: the degree bound of a round.
pub open spec fn max_factors(ts: Seq<Seq<Seq<int>>>) -> nat
    decreases ts.len(),
{
    if ts.len() == 0 {
        0
    } else {
        let m = max_factors(ts.drop_last());
        if ts.last().len() > m {
            ts.last().len()
        } else {
            m
        }
    }
}

/// The sum, over the first `k` positions, of the terms' products there.
pub open spec fn table_total(ts: Seq<Seq<Seq<int>>>, k: nat) -> int
    decreases k,
{
    if k == 0 {
        0
    } else {
        fadd(table_total(ts, (k - 1) as nat), sum_at(ts, k - 1))
    }
}

/// The sum over the whole hypercube.
pub open spec fn hypercube_sum(ts: Seq<Seq<Seq<int>>>) -> int {
    table_total(ts, ts[0][0].len())
}

/// The round polynomial's value at `x`: coordinate 0 fixed to `x`, the rest
/// summed over the hypercube.
pub open spec fn round_sample(ts: Seq<Seq<Seq<int>>>, x: int) -> int {
    hypercube_sum(fold_terms(ts, n_vars(ts), 0, x))
}

pub open spec fn round_samples(ts: Seq<Seq<Seq<int>>>, d: nat) -> Seq<int> {
    Seq::new(d + 1, |x: int| round_sample(ts, x))
}

/// The polynomial left after fixing coordinate 0 to each challenge in turn.
pub open spec fn fold_rounds(ts: Seq<Seq<Seq<int>>>, chals: Seq<int>) -> Seq<Seq<Seq<int>>>
    decreases chals.len(),
{
    if chals.len() == 0 {
        ts
    } else {
        let prev = fold_rounds(ts, chals.drop_last());
        fold_terms(prev, n_vars(prev), 0, chals.last())
    }
}

/// The encodings of the round polynomials' samples, in order.
pub open spec fn rounds_bytes(rounds: Seq<Seq<Fq>>) -> Seq<u8>
    decreases rounds.len(),
{
    if rounds.len() == 0 {
        Seq::empty()
    } else {
        rounds_bytes(rounds.drop_last()) + bytes_of(rounds.last())
    }
}

/// What the transcript holds when round `r`'s challenge is drawn: the claimed
/// sum, then the samples of rounds `0..=r`.
pub open spec fn transcript_at(claimed: int, rounds: Seq<Seq<Fq>>, r: int) -> Seq<u8> {
    be_bytes(claimed, 32) + rounds_bytes(rounds.subrange(0, r + 1))
}

/// The inverse in the field (unique, the field order being prime).
pub open spec fn finv(a: int) -> int {
    choose|b: int| 0 <= b < modulus() && fmul(a, b) == 1
}

/// The product of `c - j` over the nodes `j < k` other than `i`.
pub open spec fn basis_num(i: int, c: int, k: nat) -> int
    decreases k,
{
    if k == 0 {
        1
    } else if k - 1 == i {
        basis_num(i, c, (k - 1) as nat)
    } else {
        fmul(basis_num(i, c, (k - 1) as nat), fsub(c, k - 1))
    }
}

/// The Lagrange terms `ys[i] * basis_num / basis_num(i, i, ..)` for `i < k`,
/// summed, over the nodes `0..ys.len()`.
pub open spec fn lagrange_sum(ys: Seq<int>, c: int, k: nat) -> int
    decreases k,
{
    if k == 0 {
        0
    } else {
        let i = k - 1;
        fadd(
            lagrange_sum(ys, c, (k - 1) as nat),
            fmul(fmul(ys[i], basis_num(i, c, ys.len())), finv(basis_num(i, i, ys.len()))),
        )
    }
}

/// The value at `c` of the polynomial of degree below `ys.len()` that takes
/// value `ys[x]` at each node `x`; `None` if a node's denominator vanishes.
pub open spec fn lagrange_at(ys: Seq<int>, c: int) -> Option<int> {
    if forall|i: int| 0 <= i < ys.len() ==> #[trigger] basis_num(i, i, ys.len()) != 0 {
        Some(lagrange_sum(ys, c, ys.len()))
    } else {
        None
    }
}

/// The verifier's rounds from round `r` on, with running claim `claim` and
/// the challenges drawn so far (derived from the transcript, never read from
/// the proof); after the last round the claim must match the polynomial at
/// the challenges.
pub open spec fn verify_from(
    ts: Seq<Seq<Seq<int>>>,
    claimed: int,
    rounds: Seq<Seq<Fq>>,
    r: nat,
    claim: int,
    chals: Seq<int>,
) -> bool
    decreases rounds.len() - r,
{
    if r >= rounds.len() {
        claim == sum_eval(ts, chals)
    } else {
        let g = vals(rounds[r as int]);
        if fadd(g[0], g[1]) != claim {
            false
        } else {
            let c = challenge_of(transcript_at(claimed, rounds, r as int));
            match lagrange_at(g, c) {
                None => false,
                Some(v) => verify_from(ts, claimed, rounds, r + 1, v, chals.push(c)),
            }
        }
    }
}

/// A proof has one round per variable, each with `d + 1` samples.
pub open spec fn proof_shaped(rounds: Seq<Seq<Fq>>, n: nat, d: nat) -> bool {
    rounds.len() == n && forall|r: int| 0 <= r < n ==> (#[trigger] rounds[r]).len() == d + 1
}

/// The proof is the honest prover's for `ts` and claim `claimed`: one round
/// per variable, each round's samples those of the round polynomial of what
/// the earlier challenges left, and each challenge drawn from the transcript
/// through its round.
#[verifier::opaque]
pub open spec fn honest_proof(ts: Seq<Seq<Seq<int>>>, claimed: int, p: SumCheckProof) -> bool {
    let n = n_vars(ts);
    let chals = vals(p.random_challenges@);
    &&& p.claimed_sum.val() == claimed
    &&& p.round_polys@.len() == n
    &&& p.random_challenges@.len() == n
    &&& forall|k: int|
        0 <= k < n ==> vals(#[trigger] p.rounds()[k]) == round_samples(
            fold_rounds(ts, chals.subrange(0, k)),
            max_factors(ts),
        )
    &&& forall|k: int|
        0 <= k < n ==> #[trigger] chals[k] == challenge_of(transcript_at(claimed, p.rounds(), k))
}

pub proof fn lemma_honest_lengths(ts: Seq<Seq<Seq<int>>>, claimed: int, p: SumCheckProof)
    requires
        honest_proof(ts, claimed, p),
    ensures
        p.random_challenges@.len() == n_vars(ts),
        p.round_polys@.len() == n_vars(ts),
        p.claimed_sum.val() == claimed,
{
    reveal(honest_proof);
}

/// The verifier accepts the proof for `ts` and claim `claimed`.
pub open spec fn accepts(ts: Seq<Seq<Seq<int>>>, claimed: int, p: SumCheckProof) -> bool {
    &&& p.claimed_sum.val() == claimed
    &&& verify_from(ts, claimed, p.rounds(), 0, claimed, Seq::empty())
}

/// The proof has the shape the verifier expects for `ts`.
pub open spec fn shaped(ts: Seq<Seq<Seq<int>>>, p: SumCheckProof) -> bool {
    &&& proof_shaped(p.rounds(), n_vars(ts), max_factors(ts))
}

/// The challenges a transcript derives for the rounds: round `k`'s after
/// the claimed sum and the samples of rounds `0..=k`.
pub open spec fn derived_chals(claimed: int, rounds: Seq<Seq<Fq>>) -> Seq<int> {
    Seq::new(rounds.len(), |k: int| challenge_of(transcript_at(claimed, rounds, k)))
}

/// An honest proof lists the challenges the transcript derives.
pub proof fn lemma_honest_chals(ts: Seq<Seq<Seq<int>>>, claimed: int, p: SumCheckProof)
    requires
        honest_proof(ts, claimed, p),
    ensures
        vals(p.random_challenges@) == derived_chals(claimed, p.rounds()),
{
    reveal(honest_proof);
    assert(vals(p.random_challenges@) =~= derived_chals(claimed, p.rounds()));
}

/// A proof that the polynomial sums to `claimed_sum` over the hypercube.
#[derive(Clone, Debug)]
pub struct SumCheckProof {
    pub claimed_sum: Fq,
    /// Each round polynomial as its values at `0, 1, ..., d`.
    pub round_polys: Vec<Vec<Fq>>,
    pub random_challenges: Vec<Fq>,
}

/// Folding a ready polynomial at coordinate 0 leaves a ready one of half the
/// length.
pub proof fn lemma_fold_ready(ts: Seq<Seq<Seq<int>>>, x: int)
    requires
        ready(ts),
        n_vars(ts) >= 1,
    ensures
        ready(fold_terms(ts, n_vars(ts), 0, x)),
        fold_terms(ts, n_vars(ts), 0, x)[0][0].len() == ts[0][0].len() / 2,
        n_vars(fold_terms(ts, n_vars(ts), 0, x)) == n_vars(ts) - 1,
        fold_terms(ts, n_vars(ts), 0, x).len() == ts.len(),
        forall|t: int|
            0 <= t < ts.len() ==> (#[trigger] fold_terms(ts, n_vars(ts), 0, x)[t]).len()
                == ts[t].len(),
{
    let n = n_vars(ts);
    let f = fold_terms(ts, n, 0, x);
    let len = ts[0][0].len();
    assert(len == pow2(n));
    assert(pow2(n) == 2 * pow2((n - 1) as nat));
    lemma_dim_of_pow2((n - 1) as nat);
    assert forall|t: int| 0 <= t < f.len() implies (#[trigger] f[t]).len() > 0 && uniform(
        f[t],
        f[0][0].len(),
    ) by {
        assert(ts[t].len() > 0);
        assert(uniform(ts[t], len));
        assert forall|j: int| 0 <= j < f[t].len() implies (#[trigger] f[t][j]).len() == f[0][0].len() by {
            assert(ts[t][j].len() == len);
            assert(ts[0][0].len() == len);
        }
    }
}

/// The polynomial after `k` rounds is ready, with `n - k` variables left.
pub proof fn lemma_fold_rounds_ready(ts: Seq<Seq<Seq<int>>>, chals: Seq<int>)
    requires
        ready(ts),
        chals.len() <= n_vars(ts),
    ensures
        ready(fold_rounds(ts, chals)),
        n_vars(fold_rounds(ts, chals)) == n_vars(ts) - chals.len(),
        fold_rounds(ts, chals)[0][0].len() == pow2((n_vars(ts) - chals.len()) as nat),
        fold_rounds(ts, chals).len() == ts.len(),
        max_factors(fold_rounds(ts, chals)) == max_factors(ts),
    decreases chals.len(),
{
    if chals.len() == 0 {
    } else {
        let prev = fold_rounds(ts, chals.drop_last());
        lemma_fold_rounds_ready(ts, chals.drop_last());
        lemma_fold_ready(prev, chals.last());
        lemma_max_factors_fold(prev, n_vars(prev), chals.last());
        lemma_dim_of_pow2((n_vars(ts) - chals.len()) as nat);
        assert(pow2((n_vars(ts) - chals.drop_last().len()) as nat) == 2 * pow2(
            (n_vars(ts) - chals.len()) as nat,
        ));
    }
}

proof fn lemma_max_factors_fold(ts: Seq<Seq<Seq<int>>>, n: nat, x: int)
    ensures
        max_factors(fold_terms(ts, n, 0, x)) == max_factors(ts),
    decreases ts.len(),
{
    if ts.len() > 0 {
        lemma_max_factors_fold(ts.drop_last(), n, x);
        assert(fold_terms(ts, n, 0, x).drop_last() =~= fold_terms(ts.drop_last(), n, 0, x));
    }
}

proof fn lemma_max_factors_bound(ts: Seq<Seq<Seq<int>>>)
    ensures
        forall|t: int| 0 <= t < ts.len() ==> (#[trigger] ts[t]).len() <= max_factors(ts),
        ts.len() > 0 ==> exists|t: int| 0 <= t < ts.len() && (#[trigger] ts[t]).len() == max_factors(ts),
    decreases ts.len(),
{
    if ts.len() > 0 {
        lemma_max_factors_bound(ts.drop_last());
        assert forall|t: int| 0 <= t < ts.len() implies (#[trigger] ts[t]).len() <= max_factors(ts) by {
            if t < ts.len() - 1 {
                assert(ts.drop_last()[t] == ts[t]);
            }
        }
        if max_factors(ts) == ts.last().len() {
            assert(ts[ts.len() - 1].len() == max_factors(ts));
        } else {
            let t = choose|t: int| 0 <= t < ts.drop_last().len() && (#[trigger] ts.drop_last()[t]).len() == max_factors(ts.drop_last());
            assert(ts[t] == ts.drop_last()[t]);
        }
    }
}

/// Checks that a sum of products is ready for the sumcheck.
fn check_ready(poly: &SumPoly) -> (r: bool)
    ensures
        r == ready(poly.terms()),
{
    let ghost ts = poly.terms();
    if poly.product_polys.len() == 0 {
        return false;
    }
    if poly.product_polys[0].poly_coefficients.len() == 0 {
        return false;
    }
    let len = poly.product_polys[0].poly_coefficients[0].coefficients.len();
    assert(ts[0][0].len() == len);
    if crate::mle::table_dim(len).is_none() {
        return false;
    }
    let mut t: usize = 0;
    while t < poly.product_polys.len()
        invariant
            t <= poly.product_polys@.len(),
            ts == poly.terms(),
            ts.len() > 0,
            len == ts[0][0].len(),
            forall|x: int| 0 <= x < t ==> (#[trigger] ts[x]).len() > 0 && uniform(ts[x], len as nat),
        decreases poly.product_polys@.len() - t,
    {
        let fs = &poly.product_polys[t].poly_coefficients;
        assert(ts[t as int].len() == fs@.len());
        if fs.len() == 0 {
            return false;
        }
        let mut j: usize = 0;
        while j < fs.len()
            invariant
                j <= fs@.len(),
                t < ts.len(),
                fs == &poly.product_polys@[t as int].poly_coefficients,
                ts == poly.terms(),
                ts.len() > 0,
                len == ts[0][0].len(),
                forall|y: int| 0 <= y < j ==> (#[trigger] ts[t as int][y]).len() == len,
            decreases fs@.len() - j,
        {
            assert(ts[t as int][j as int] == vals(fs@[j as int].coefficients@));
            if fs[j].coefficients.len() != len {
                proof {
                    assert(!well_shaped(ts)) by {
                        if well_shaped(ts) {
                            assert(uniform(ts[t as int], ts[0][0].len()));
                        }
                    }
                }
                return false;
            }
            j = j + 1;
        }
        t = t + 1;
    }
    true
}

/// The largest number of factors of any term.
fn max_factor_count(poly: &SumPoly) -> (r: usize)
    ensures
        r == max_factors(poly.terms()),
{
    let ghost ts = poly.terms();
    let mut m: usize = 0;
    let mut t: usize = 0;
    while t < poly.product_polys.len()
        invariant
            t <= poly.product_polys@.len(),
            ts == poly.terms(),
            m == max_factors(ts.subrange(0, t as int)),
        decreases poly.product_polys@.len() - t,
    {
        proof {
            assert(ts.subrange(0, t + 1).drop_last() =~= ts.subrange(0, t as int));
        }
        let k = poly.product_polys[t].poly_coefficients.len();
        if k > m {
            m = k;
        }
        t = t + 1;
    }
    assert(ts.subrange(0, ts.len() as int) =~= ts);
    m
}

/// The sum of a table's entries.
fn total(entries: &Vec<Fq>) -> (r: Fq)
    ensures
        r.val() == sum_vals(vals(entries@), entries@.len()),
{
    let mut acc = Fq::zero();
    let mut i: usize = 0;
    while i < entries.len()
        invariant
            i <= entries@.len(),
            acc.val() == sum_vals(vals(entries@), i as nat),
        decreases entries@.len() - i,
    {
        acc = acc.add(&entries[i]);
        i = i + 1;
    }
    acc
}

pub open spec fn sum_vals(s: Seq<int>, k: nat) -> int
    decreases k,
{
    if k == 0 {
        0
    } else {
        fadd(sum_vals(s, (k - 1) as nat), s[k - 1])
    }
}

proof fn lemma_total_matches(s: Seq<int>, ts: Seq<Seq<Seq<int>>>, k: nat)
    requires
        k <= s.len(),
        forall|i: int| 0 <= i < s.len() ==> #[trigger] s[i] == sum_at(ts, i),
    ensures
        sum_vals(s, k) == table_total(ts, k),
    decreases k,
{
    if k > 0 {
        lemma_total_matches(s, ts, (k - 1) as nat);
    }
}

/// The round polynomial's values at `0, 1, ..., d`.
pub fn split_and_sum(poly: &SumPoly, d: usize) -> (r: Vec<Fq>)
    requires
        ready(poly.terms()),
        n_vars(poly.terms()) >= 1,
    ensures
        vals(r@) == round_samples(poly.terms(), d as nat),
{
    let ghost ts = poly.terms();
    let ghost n = n_vars(ts);
    let mut out: Vec<Fq> = Vec::new();
    let mut x: usize = 0;
    proof {
        assert(ts[0][0].len() == pow2(n));
        assert(uniform_terms(ts, pow2(n))) by {
            assert forall|t: int| 0 <= t < ts.len() implies uniform(#[trigger] ts[t], pow2(n)) by {
                assert(uniform(ts[t], ts[0][0].len()));
            }
        }
    }
    loop
        invariant_except_break
            out@.len() == x,
        invariant
            ts == poly.terms(),
            n == n_vars(ts),
            ready(ts),
            n >= 1,
            uniform_terms(ts, pow2(n)),
            x <= d,
            out@.len() <= d + 1,
            forall|y: int| 0 <= y < out@.len() ==> (#[trigger] out@[y]).val() == round_sample(ts, y),
        ensures
            out@.len() == d + 1,
        decreases d - x,
    {
        let point = Fq::from_u64(x as u64);
        let folded = poly.partial_evaluate(0, point);
        proof {
            lemma_fold_ready(ts, x as int);
        }
        let reduced = folded.sum_reduce();
        match reduced {
            Ok(p) => {
                let ghost f = folded.terms();
                proof {
                    assert(p.tables()[0] == vals(p.poly_coefficients@[0].coefficients@));
                    lemma_total_matches(p.tables()[0], f, f[0][0].len());
                }
                let s = total(&p.poly_coefficients[0].coefficients);
                out.push(s);
            },
            Err(_) => {
                proof {
                    assert(false);
                }
                return out;
            },
        }
        if x == d {
            break;
        }
        x = x + 1;
    }
    assert(vals(out@) =~= round_samples(ts, d as nat));
    out
}

/// Evaluates at `c` the polynomial that takes value `ys[x]` at each node `x`.
pub fn interpolate_at(ys: &Vec<Fq>, c: Fq) -> (r: Option<Fq>)
    ensures
        match r {
            Some(v) => lagrange_at(vals(ys@), c.val()) == Some(v.val()),
            None => lagrange_at(vals(ys@), c.val()) is None,
        },
{
    let ghost g = vals(ys@);
    let m = ys.len();
    let mut acc = Fq::zero();
    let mut i: usize = 0;
    while i < m
        invariant
            i <= m,
            m == ys@.len(),
            g == vals(ys@),
            acc.val() == lagrange_sum(g, c.val(), i as nat),
            forall|y: int| 0 <= y < i ==> #[trigger] basis_num(y, y, m as nat) != 0,
        decreases m - i,
    {
        let xi = Fq::from_u64(i as u64);
        let mut num = Fq::one();
        let mut den = Fq::one();
        let mut j: usize = 0;
        while j < m
            invariant
                j <= m,
                i < m,
                xi.val() == i,
                num.val() == basis_num(i as int, c.val(), j as nat),
                den.val() == basis_num(i as int, i as int, j as nat),
            decreases m - j,
        {
            if j != i {
                let xj = Fq::from_u64(j as u64);
                num = num.mul(&c.sub(&xj));
                den = den.mul(&xi.sub(&xj));
            }
            j = j + 1;
        }
        if den.eq_val(&Fq::zero()) {
            return None;
        }
        let inv = ark_inverse(&den);
        proof {
            assert(finv(den.val()) == inv.val()) by {
                lemma_inverse_unique(den.val(), inv.val());
            }
        }
        let term = ys[i].mul(&num).mul(&inv);
        acc = acc.add(&term);
        i = i + 1;
    }
    Some(acc)
}

/// The chosen inverse is the one `ark_inverse` returned: both are below the
/// field order with product one, and the order is prime.
proof fn lemma_inverse_unique(a: int, b: int)
    requires
        0 <= b < modulus(),
        fmul(a, b) == 1,
    ensures
        finv(a) == b,
{
    let c = finv(a);
    assert(0 <= c < modulus() && fmul(a, c) == 1);
    crate::field::lemma_inverse_unique(a, b, c);
    assert(c == b);
}

impl SumCheckProof {
    pub open spec fn rounds(&self) -> Seq<Seq<Fq>> {
        rounds_seq(self.round_polys@)
    }
}

/// The sumcheck prover and verifier for one polynomial and claimed sum.
#[derive(Clone, Debug)]
pub struct GKRProver {
    pub initial_poly: SumPoly,
    pub claimed_sum: Fq,
}

impl GKRProver {
    pub fn new(poly: SumPoly, claimed_sum: Fq) -> (r: Self)
        ensures
            r.initial_poly == poly,
            r.claimed_sum == claimed_sum,
    {
        GKRProver { initial_poly: poly, claimed_sum }
    }

    /// Runs the prover over a fresh transcript: it absorbs the claimed sum,
    /// then each round's samples, and draws that round's challenge.
    pub fn prove(&self) -> (r: Result<SumCheckProof, GkrError>)
        ensures
            match r {
                Ok(p) => ready(self.initial_poly.terms()) && p.claimed_sum == self.claimed_sum
                    && honest_proof(self.initial_poly.terms(), self.claimed_sum.val(), p),
                Err(e) => e == GkrError::DimensionMismatch && !ready(self.initial_poly.terms()),
            },
    {
        if !check_ready(&self.initial_poly) {
            return Err(GkrError::DimensionMismatch);
        }
        let ghost ts = self.initial_poly.terms();
        let len = self.initial_poly.product_polys[0].poly_coefficients[0].coefficients.len();
        assert(ts[0][0].len() == len);
        let n = match crate::mle::table_dim(len) {
            Some(n) => n,
            None => {
                return Err(GkrError::DimensionMismatch);
            },
        };
        let d = max_factor_count(&self.initial_poly);
        proof {
            lemma_max_factors_bound(ts);
            crate::mle::lemma_pow2_gt(n as nat);
        }
        let ghost cl = self.claimed_sum.val();
        let mut transcript = Transcript::init(KeccakHasher::new());
        let cb = self.claimed_sum.to_bytes_be();
        transcript.absorb(cb.as_slice());
        let mut cur = self.initial_poly.duplicate();
        let mut rounds: Vec<Vec<Fq>> = Vec::new();
        let mut chals: Vec<Fq> = Vec::new();
        let mut k: usize = 0;
        proof {
            assert(rounds_seq(rounds@) =~= Seq::<Seq<Fq>>::empty());
            assert(vals(chals@) =~= Seq::<int>::empty());
            assert(be_bytes(cl, 32) + rounds_bytes(Seq::<Seq<Fq>>::empty()) =~= be_bytes(cl, 32));
            reveal(prover_state);
        }
        while k < n
            invariant
                k <= n,
                n == n_vars(ts),
                ts == self.initial_poly.terms(),
                ready(ts),
                d == max_factors(ts),
                cl == self.claimed_sum.val(),
                cur.terms() == fold_rounds(ts, vals(chals@)),
                chals@.len() == k,
                rounds@.len() == k,
                transcript.absorbed() == be_bytes(cl, 32) + rounds_bytes(rounds_seq(rounds@)),
                prover_state(ts, cl, d as nat, rounds_seq(rounds@), vals(chals@)),
            decreases n - k,
        {
            proof {
                lemma_fold_rounds_ready(ts, vals(chals@));
            }
            let samples = split_and_sum(&cur, d);
            let bytes = elements_to_bytes(&samples);
            transcript.absorb(bytes.as_slice());
            let c = transcript.squeeze();
            let ghost old_rounds = rounds_seq(rounds@);
            let ghost old_chals = vals(chals@);
            proof {
                let f = fold_rounds(ts, vals(chals@));
                assert(uniform_terms(f, pow2(n_vars(f)))) by {
                    assert forall|t: int| 0 <= t < f.len() implies uniform(#[trigger] f[t], pow2(n_vars(f))) by {
                        assert(uniform(f[t], f[0][0].len()));
                    }
                }
            }
            let next = cur.partial_evaluate(0, c);
            rounds.push(samples);
            chals.push(c);
            cur = next;
            proof {
                assert(rounds_seq(rounds@) =~= old_rounds.push(samples@));
                assert(vals(chals@) =~= old_chals.push(c.val()));
                assert(old_chals.push(c.val()).drop_last() =~= old_chals);
                lemma_prover_step(ts, cl, d as nat, old_rounds, old_chals, samples@, c.val());
            }
            k = k + 1;
        }
        let proof = SumCheckProof {
            claimed_sum: self.claimed_sum,
            round_polys: rounds,
            random_challenges: chals,
        };
        proof {
            reveal(prover_state);
            reveal(honest_proof);
            assert(proof.rounds() == rounds_seq(proof.round_polys@));
        }
        Ok(proof)
    }

    /// Checks a proof over a fresh transcript built as the prover's was: each
    /// round's samples must sum, at 0 and 1, to the running claim, which then
    /// becomes the round polynomial's value at the challenge the transcript
    /// derives; the last claim must equal the polynomial at all the
    /// challenges. The challenges the proof lists are not read.
    pub fn verify(&self, proof: &SumCheckProof) -> (r: Result<bool, GkrError>)
        ensures
            match r {
                Ok(b) => ready(self.initial_poly.terms()) && shaped(self.initial_poly.terms(), *proof)
                    && b == accepts(self.initial_poly.terms(), self.claimed_sum.val(), *proof),
                Err(e) => {
                    let ts = self.initial_poly.terms();
                    ||| e == GkrError::DimensionMismatch && !ready(ts)
                    ||| e == GkrError::MalformedProof && ready(ts) && !shaped(ts, *proof)
                },
            },
    {
        match self.verify_rounds(proof) {
            Ok(Some(_)) => Ok(true),
            Ok(None) => Ok(false),
            Err(e) => Err(e),
        }
    }

    /// `verify`, returning on acceptance the challenges it derived.
    pub fn verify_rounds(&self, proof: &SumCheckProof) -> (r: Result<Option<Vec<Fq>>, GkrError>)
        ensures
            match r {
                Ok(o) => ready(self.initial_poly.terms()) && shaped(self.initial_poly.terms(), *proof)
                    && (o is Some <==> accepts(self.initial_poly.terms(), self.claimed_sum.val(), *proof))
                    && (o matches Some(ch) ==> vals(ch@) == derived_chals(self.claimed_sum.val(), proof.rounds())),
                Err(e) => {
                    let ts = self.initial_poly.terms();
                    ||| e == GkrError::DimensionMismatch && !ready(ts)
                    ||| e == GkrError::MalformedProof && ready(ts) && !shaped(ts, *proof)
                },
            },
    {
        if !check_ready(&self.initial_poly) {
            return Err(GkrError::DimensionMismatch);
        }
        let ghost ts = self.initial_poly.terms();
        let ghost rs = proof.rounds();
        let len = self.initial_poly.product_polys[0].poly_coefficients[0].coefficients.len();
        assert(ts[0][0].len() == len);
        let n = match crate::mle::table_dim(len) {
            Some(n) => n,
            None => {
                return Err(GkrError::DimensionMismatch);
            },
        };
        let d = max_factor_count(&self.initial_poly);
        proof {
            lemma_max_factors_bound(ts);
            assert(ts[0].len() <= d);
        }
        if proof.round_polys.len() != n {
            return Err(GkrError::MalformedProof);
        }
        let mut k: usize = 0;
        while k < n
            invariant
                k <= n,
                n == proof.round_polys@.len(),
                rs == proof.rounds(),
                ts == self.initial_poly.terms(),
                ready(ts),
                n == n_vars(ts),
                d == max_factors(ts),
                forall|j: int| 0 <= j < k ==> (#[trigger] rs[j]).len() == d + 1,
            decreases n - k,
        {
            let m = proof.round_polys[k].len();
            assert(rs[k as int].len() == m);
            if m == 0 || m - 1 != d {
                proof {
                    assert(n == n_vars(ts));
                    assert(!proof_shaped(rs, n_vars(ts), d as nat)) by {
                        assert(rs[k as int].len() != d + 1);
                    }
                }
                return Err(GkrError::MalformedProof);
            }
            k = k + 1;
        }
        assert(proof_shaped(rs, n_vars(ts), d as nat));
        if !proof.claimed_sum.eq_val(&self.claimed_sum) {
            return Ok(None);
        }
        let ghost cl = self.claimed_sum.val();
        let mut transcript = Transcript::init(KeccakHasher::new());
        let cb = self.claimed_sum.to_bytes_be();
        transcript.absorb(cb.as_slice());
        let mut claim = self.claimed_sum;
        let mut chals: Vec<Fq> = Vec::new();
        let mut k: usize = 0;
        proof {
            assert(rs.subrange(0, 0) =~= Seq::<Seq<Fq>>::empty());
            assert(be_bytes(cl, 32) + rounds_bytes(Seq::<Seq<Fq>>::empty()) =~= be_bytes(cl, 32));
            assert(vals(chals@) =~= Seq::<int>::empty());
        }
        while k < n
            invariant
                k <= n,
                n == proof.round_polys@.len(),
                n == n_vars(ts),
                rs == proof.rounds(),
                ts == self.initial_poly.terms(),
                cl == self.claimed_sum.val(),
                ready(ts),
                proof.claimed_sum.val() == self.claimed_sum.val(),
                d == max_factors(ts),
                d >= 1,
                proof_shaped(rs, n as nat, d as nat),
                chals@.len() == k,
                transcript.absorbed() == be_bytes(cl, 32) + rounds_bytes(rs.subrange(0, k as int)),
                vals(chals@) == derived_chals(cl, rs).subrange(0, k as int),
                verify_from(ts, cl, rs, 0, cl, Seq::empty()) == verify_from(
                    ts,
                    cl,
                    rs,
                    k as nat,
                    claim.val(),
                    vals(chals@),
                ),
            decreases n - k,
        {
            let g = &proof.round_polys[k];
            assert(g@ == rs[k as int]);
            assert(g@.len() == d + 1);
            let s01 = g[0].add(&g[1]);
            assert(vals(rs[k as int])[0] == g@[0].val());
            assert(vals(rs[k as int])[1] == g@[1].val());
            if !s01.eq_val(&claim) {
                assert(!verify_from(ts, cl, rs, k as nat, claim.val(), vals(chals@)));
                return Ok(None);
            }
            let bytes = elements_to_bytes(g);
            transcript.absorb(bytes.as_slice());
            let c = transcript.squeeze();
            proof {
                assert(rs.subrange(0, k + 1).drop_last() =~= rs.subrange(0, k as int));
                assert(transcript.absorbed() =~= transcript_at(cl, rs, k as int));
            }
            assert(c.val() == challenge_of(transcript_at(cl, rs, k as int)));
            assert(vals(g@) == vals(rs[k as int]));
            match interpolate_at(g, c) {
                None => {
                    assert(!verify_from(ts, cl, rs, k as nat, claim.val(), vals(chals@)));
                    return Ok(None);
                },
                Some(v) => {
                    claim = v;
                },
            }
            let ghost old_chals = vals(chals@);
            chals.push(c);
            proof {
                assert(vals(chals@) =~= old_chals.push(c.val()));
                assert(vals(chals@) =~= derived_chals(cl, rs).subrange(0, k + 1));
            }
            k = k + 1;
        }
        proof {
            lemma_ready_no_error(ts);
            assert(derived_chals(cl, rs).subrange(0, n as int) =~= derived_chals(cl, rs));
        }
        match self.initial_poly.evaluate(&chals) {
            Ok(v) => {
                if v.eq_val(&claim) {
                    Ok(Some(chals))
                } else {
                    Ok(None)
                }
            },
            Err(_) => {
                proof {
                    assert(false);
                }
                Ok(None)
            },
        }
    }
}

proof fn lemma_no_error_factors(fs: Seq<Seq<int>>, len: nat)
    requires
        uniform(fs, len),
        is_pow2(len),
    ensures
        crate::poly::first_error(fs, dim_of(len)) is None,
    decreases fs.len(),
{
    if fs.len() > 0 {
        let p = fs.drop_last();
        assert(uniform(p, len)) by {
            assert forall|j: int| 0 <= j < p.len() implies (#[trigger] p[j]).len() == len by {
                assert(p[j] == fs[j]);
            }
        }
        lemma_no_error_factors(p, len);
        assert(fs[fs.len() - 1].len() == len);
    }
}

proof fn lemma_no_error_terms(ts: Seq<Seq<Seq<int>>>, len: nat)
    requires
        forall|t: int| 0 <= t < ts.len() ==> uniform(#[trigger] ts[t], len),
        is_pow2(len),
    ensures
        first_term_error(ts, dim_of(len)) is None,
    decreases ts.len(),
{
    if ts.len() > 0 {
        let p = ts.drop_last();
        assert forall|t: int| 0 <= t < p.len() implies uniform(#[trigger] p[t], len) by {
            assert(p[t] == ts[t]);
        }
        lemma_no_error_terms(p, len);
        assert(uniform(ts[ts.len() - 1], len));
        lemma_no_error_factors(ts.last(), len);
    }
}

/// A ready polynomial can be evaluated at any point of its dimension.
pub proof fn lemma_ready_no_error(ts: Seq<Seq<Seq<int>>>)
    requires
        ready(ts),
    ensures
        first_term_error(ts, n_vars(ts)) is None,
{
    assert forall|t: int| 0 <= t < ts.len() implies uniform(#[trigger] ts[t], ts[0][0].len()) by {
    }
    lemma_no_error_terms(ts, ts[0][0].len());
}


/// What the prover has produced after some rounds: each round's samples are
/// the round polynomial of what the earlier challenges left, and each
/// challenge is drawn from the transcript through that round.
#[verifier::opaque]
pub open spec fn prover_state(
    ts: Seq<Seq<Seq<int>>>,
    cl: int,
    d: nat,
    rounds: Seq<Seq<Fq>>,
    chals: Seq<int>,
) -> bool {
    &&& rounds.len() == chals.len()
    &&& forall|j: int|
        0 <= j < rounds.len() ==> vals(#[trigger] rounds[j]) == round_samples(
            fold_rounds(ts, chals.subrange(0, j)),
            d,
        )
    &&& forall|j: int|
        0 <= j < rounds.len() ==> #[trigger] chals[j] == challenge_of(transcript_at(cl, rounds, j))
}

proof fn lemma_prover_step(
    ts: Seq<Seq<Seq<int>>>,
    cl: int,
    d: nat,
    rounds: Seq<Seq<Fq>>,
    chals: Seq<int>,
    g: Seq<Fq>,
    c: int,
)
    requires
        prover_state(ts, cl, d, rounds, chals),
        vals(g) == round_samples(fold_rounds(ts, chals), d),
        c == challenge_of(be_bytes(cl, 32) + rounds_bytes(rounds) + bytes_of(g)),
    ensures
        prover_state(ts, cl, d, rounds.push(g), chals.push(c)),
        be_bytes(cl, 32) + rounds_bytes(rounds.push(g)) == be_bytes(cl, 32) + rounds_bytes(rounds)
            + bytes_of(g),
{
    reveal(prover_state);
    let rs = rounds.push(g);
    let cs = chals.push(c);
    let k = rounds.len() as int;
    assert(rs.drop_last() =~= rounds);
    assert(rs.subrange(0, k + 1) =~= rs);
    assert(be_bytes(cl, 32) + rounds_bytes(rs) =~= be_bytes(cl, 32) + rounds_bytes(rounds)
        + bytes_of(g));
    assert forall|j: int| 0 <= j < rs.len() implies vals(#[trigger] rs[j]) == round_samples(
        fold_rounds(ts, cs.subrange(0, j)),
        d,
    ) by {
        if j < k {
            assert(cs.subrange(0, j) =~= chals.subrange(0, j));
        } else {
            assert(cs.subrange(0, j) =~= chals);
        }
    }
    assert forall|j: int| 0 <= j < rs.len() implies #[trigger] cs[j] == challenge_of(
        transcript_at(cl, rs, j),
    ) by {
        if j < k {
            assert(rs.subrange(0, j + 1) =~= rounds.subrange(0, j + 1));
        }
    }
}

pub open spec fn rounds_seq(rounds: Seq<Vec<Fq>>) -> Seq<Seq<Fq>> {
    rounds.map_values(|v: Vec<Fq>| v@)
}

/// Two field elements that add to the same value with a third are equal.
proof fn lemma_fadd_cancel(x: int, y: int, g: int)
    requires
        0 <= x < modulus(),
        0 <= y < modulus(),
        fadd(x, g) == fadd(y, g),
    ensures
        x == y,
{
    let p = modulus();
    vstd::arithmetic::div_mod::lemma_fundamental_div_mod(x + g, p);
    vstd::arithmetic::div_mod::lemma_fundamental_div_mod(y + g, p);
    let qa = (x + g) / p;
    let qb = (y + g) / p;
    assert(x - y == p * (qa - qb)) by (nonlinear_arith)
        requires
            x + g == p * qa + (x + g) % p,
            y + g == p * qb + (y + g) % p,
            (x + g) % p == (y + g) % p,
    ;
    assert(qa == qb) by (nonlinear_arith)
        requires
            x - y == p * (qa - qb),
            -p < x - y < p,
            p > 0,
    ;
}

/// The rounds before `r` are replayed alike, so a proof that passed round
/// `r`'s sum check fails it once sample `j` (0 or 1) of round `r` changes.
proof fn lemma_reject_from(
    ts: Seq<Seq<Seq<int>>>,
    claimed: int,
    rounds: Seq<Seq<Fq>>,
    r: int,
    j: int,
    x: Fq,
    k: nat,
    claim: int,
    chals: Seq<int>,
)
    requires
        0 <= k <= r < rounds.len(),
        j == 0 || j == 1,
        rounds[r].len() >= 2,
        rounds[r][j].wf(),
        x.wf(),
        x.val() != rounds[r][j].val(),
        verify_from(ts, claimed, rounds, k, claim, chals),
    ensures
        !verify_from(
            ts,
            claimed,
            rounds.update(r, rounds[r].update(j, x)),
            k,
            claim,
            chals,
        ),
    decreases r - k,
{
    let changed = rounds.update(r, rounds[r].update(j, x));
    let g = vals(rounds[k as int]);
    if k == r {
        let h = vals(changed[r]);
        assert(fadd(g[0], g[1]) == claim);
        if j == 0 {
            assert(h[1] == g[1]);
            if fadd(h[0], h[1]) == claim {
                lemma_fadd_cancel(h[0], g[0], g[1]);
            }
        } else {
            assert(h[0] == g[0]);
            if fadd(h[0], h[1]) == claim {
                assert(fadd(h[1], h[0]) == fadd(g[1], g[0]));
                lemma_fadd_cancel(h[1], g[1], g[0]);
            }
        }
    } else {
        assert(changed[k as int] == rounds[k as int]);
        assert(changed.subrange(0, k + 1 as int) =~= rounds.subrange(0, k + 1 as int));
        let c = challenge_of(transcript_at(claimed, rounds, k as int));
        assert(transcript_at(claimed, changed, k as int) == transcript_at(claimed, rounds, k as int));
        let v = lagrange_at(g, c).unwrap();
        lemma_reject_from(ts, claimed, rounds, r, j, x, k + 1, v, chals.push(c));
    }
}

/// In a proof that the verifier accepts, changing sample 0 or 1 of any
/// round's polynomial to another field element makes the verifier reject
/// it: that round's check `g(0) + g(1) == claim` fails, the rounds before it
/// being replayed unchanged.
pub proof fn lemma_changed_sample_rejected(
    ts: Seq<Seq<Seq<int>>>,
    claimed: int,
    rounds: Seq<Seq<Fq>>,
    r: int,
    j: int,
    x: Fq,
)
    requires
        verify_from(ts, claimed, rounds, 0, claimed, Seq::empty()),
        0 <= r < rounds.len(),
        j == 0 || j == 1,
        rounds[r].len() >= 2,
        rounds[r][j].wf(),
        x.wf(),
        x.val() != rounds[r][j].val(),
    ensures
        !verify_from(
            ts,
            claimed,
            rounds.update(r, rounds[r].update(j, x)),
            0,
            claimed,
            Seq::empty(),
        ),
{
    lemma_reject_from(ts, claimed, rounds, r, j, x, 0, claimed, Seq::empty());
}

/// `fadd` is associative.
proof fn lemma_fadd_assoc(a: int, b: int, c: int)
    ensures
        fadd(fadd(a, b), c) == fadd(a, fadd(b, c)),
{
    crate::mle::lemma_mod_add_right(c, a + b);
    crate::mle::lemma_mod_add_right(a, b + c);
    assert(c + (a + b) == a + (b + c));
}

/// Products of entries that agree modulo the field order agree.
proof fn lemma_prod_at_congruent(fa: Seq<Seq<int>>, fb: Seq<Seq<int>>, i: int, j: int)
    requires
        fa.len() == fb.len(),
        forall|f: int| 0 <= f < fa.len() ==> (#[trigger] fa[f])[i] % modulus() == fb[f][j] % modulus(),
    ensures
        crate::poly::prod_at(fa, i) == crate::poly::prod_at(fb, j),
    decreases fa.len(),
{
    if fa.len() > 0 {
        let pa = fa.drop_last();
        let pb = fb.drop_last();
        assert forall|f: int| 0 <= f < pa.len() implies (#[trigger] pa[f])[i] % modulus() == pb[f][j] % modulus() by {
            assert(pa[f] == fa[f]);
            assert(pb[f] == fb[f]);
        }
        lemma_prod_at_congruent(pa, pb, i, j);
        let x = crate::poly::prod_at(pa, i);
        assert(fa.last()[i] % modulus() == fb.last()[j] % modulus()) by {
            assert(fa[fa.len() - 1] == fa.last());
        }
        vstd::arithmetic::div_mod::lemma_mul_mod_noop_general(x, fa.last()[i], modulus());
        vstd::arithmetic::div_mod::lemma_mul_mod_noop_general(x, fb.last()[j], modulus());
    }
}

/// Sums of products at positions whose entries agree modulo the field
/// order agree.
proof fn lemma_sum_at_congruent(ta: Seq<Seq<Seq<int>>>, tb: Seq<Seq<Seq<int>>>, i: int, j: int)
    requires
        ta.len() == tb.len(),
        forall|t: int| 0 <= t < ta.len() ==> (#[trigger] ta[t]).len() == tb[t].len(),
        forall|t: int, f: int|
            0 <= t < ta.len() && 0 <= f < ta[t].len() ==> (#[trigger] ta[t][f])[i] % modulus() == tb[t][f][j] % modulus(),
    ensures
        sum_at(ta, i) == sum_at(tb, j),
    decreases ta.len(),
{
    if ta.len() > 0 {
        let pa = ta.drop_last();
        let pb = tb.drop_last();
        assert forall|t: int| 0 <= t < pa.len() implies (#[trigger] pa[t]).len() == pb[t].len() by {
            assert(pa[t] == ta[t]);
            assert(pb[t] == tb[t]);
        }
        assert forall|t: int, f: int| 0 <= t < pa.len() && 0 <= f < pa[t].len() implies (#[trigger] pa[t][f])[i] % modulus() == pb[t][f][j] % modulus() by {
            assert(pa[t] == ta[t]);
            assert(pb[t] == tb[t]);
        }
        lemma_sum_at_congruent(pa, pb, i, j);
        let k = ta.len() - 1;
        assert forall|f: int| 0 <= f < ta.last().len() implies (#[trigger] ta.last()[f])[i] % modulus() == tb.last()[f][j] % modulus() by {
            assert(ta.last() == ta[k]);
            assert(tb.last() == tb[k]);
        }
        lemma_prod_at_congruent(ta.last(), tb.last(), i, j);
    }
}

/// The sum of the terms' products at positions `o .. o + m`.
pub open spec fn table_total_from(ts: Seq<Seq<Seq<int>>>, o: int, m: nat) -> int
    decreases m,
{
    if m == 0 {
        0
    } else {
        fadd(table_total_from(ts, o, (m - 1) as nat), sum_at(ts, o + m - 1))
    }
}

proof fn lemma_table_total_split(ts: Seq<Seq<Seq<int>>>, h: nat, m: nat)
    ensures
        table_total(ts, h + m) == fadd(table_total(ts, h), table_total_from(ts, h as int, m)),
    decreases m,
{
    if m == 0 {
        let a = table_total(ts, h);
        assert(modulus() > 1);
        if h > 0 {
            let x = table_total(ts, (h - 1) as nat) + sum_at(ts, h - 1);
            assert(a == x % modulus());
            vstd::arithmetic::div_mod::lemma_mod_twice(x, modulus());
        } else {
            assert(a == 0);
            assert(0int % modulus() == 0);
        }
        assert(fadd(a, 0) == a % modulus());
    } else {
        lemma_table_total_split(ts, h, (m - 1) as nat);
        assert((h + m - 1) as nat == h + (m - 1) as nat);
        lemma_fadd_assoc(table_total(ts, h), table_total_from(ts, h as int, (m - 1) as nat), sum_at(ts, h + m - 1));
    }
}

/// Sums over positions `0..m` of two polynomials whose products agree at
/// `k` and `o + k` agree.
proof fn lemma_totals_match(ta: Seq<Seq<Seq<int>>>, tb: Seq<Seq<Seq<int>>>, o: int, m: nat)
    requires
        forall|k: int| 0 <= k < m ==> #[trigger] sum_at(ta, k) == sum_at(tb, o + k),
    ensures
        table_total(ta, m) == table_total_from(tb, o, m),
    decreases m,
{
    if m > 0 {
        lemma_totals_match(ta, tb, o, (m - 1) as nat);
        assert(sum_at(ta, m - 1) == sum_at(tb, o + (m - 1)));
    }
}

/// The round polynomial's values at 0 and 1 add up to the sum over the
/// hypercube: fixing coordinate 0 to 0 keeps the first half of every
/// table, and to 1 the second half.
pub proof fn lemma_round_sum(ts: Seq<Seq<Seq<int>>>)
    requires
        ready(ts),
        n_vars(ts) >= 1,
    ensures
        fadd(round_sample(ts, 0), round_sample(ts, 1)) == hypercube_sum(ts),
{
    let n = n_vars(ts);
    let len = ts[0][0].len();
    let h = len / 2;
    let f0 = fold_terms(ts, n, 0, 0);
    let f1 = fold_terms(ts, n, 0, 1);
    lemma_fold_ready(ts, 0);
    lemma_fold_ready(ts, 1);
    assert(len == pow2(n));
    assert(pow2(n) == 2 * pow2((n - 1) as nat));
    assert(pow2((n - 1 - 0) as nat) == h);
    lemma_pow2_pos((n - 1) as nat);
    assert forall|k: int| 0 <= k < h implies #[trigger] sum_at(f0, k) == sum_at(ts, k) && sum_at(f1, k) == sum_at(ts, h + k) by {
        vstd::arithmetic::div_mod::lemma_fundamental_div_mod_converse(k, h as int, 0, k);
        assert(k / (h as int) == 0);
        assert(k % (h as int) == k);
        assert(crate::mle::low_index(k, h as int) == k);
        assert forall|t: int| 0 <= t < f0.len() implies (#[trigger] f0[t]).len() == ts[t].len() by {}
        assert forall|t: int| 0 <= t < f1.len() implies (#[trigger] f1[t]).len() == ts[t].len() by {}
        assert forall|t: int, f: int| 0 <= t < f0.len() && 0 <= f < f0[t].len() implies (#[trigger] f0[t][f])[k] % modulus() == ts[t][f][k] % modulus() by {
            assert(uniform(ts[t], len));
            let x = ts[t][f][k];
            let y = ts[t][f][k + h];
            crate::mle::lemma_lerp_exact(x, y, 0);
            assert(x + 0 * (y - x) == x);
            vstd::arithmetic::div_mod::lemma_mod_twice(x, modulus());
        }
        assert forall|t: int, f: int| 0 <= t < f1.len() && 0 <= f < f1[t].len() implies (#[trigger] f1[t][f])[k] % modulus() == ts[t][f][h + k] % modulus() by {
            assert(uniform(ts[t], len));
            let x = ts[t][f][k];
            let y = ts[t][f][k + h];
            crate::mle::lemma_lerp_exact(x, y, 1);
            assert(x + 1 * (y - x) == y);
            vstd::arithmetic::div_mod::lemma_mod_twice(y, modulus());
            assert(h + k == k + h);
        }
        lemma_sum_at_congruent(f0, ts, k, k);
        lemma_sum_at_congruent(f1, ts, k, h + k);
    }
    assert(f0[0][0].len() == h);
    assert(f1[0][0].len() == h);
    assert forall|k: int| 0 <= k < h implies #[trigger] sum_at(f1, k) == sum_at(ts, h + k) by {
        assert(sum_at(f0, k) == sum_at(ts, k));
    }
    lemma_totals_match(f0, ts, 0, h);
    lemma_totals_match(f1, ts, h as int, h);
    assert(table_total_from(ts, 0, h) == table_total(ts, h)) by {
        lemma_from_zero(ts, h);
    }
    lemma_table_total_split(ts, h, h);
    assert(h + h == len);
}

proof fn lemma_from_zero(ts: Seq<Seq<Seq<int>>>, m: nat)
    ensures
        table_total_from(ts, 0, m) == table_total(ts, m),
    decreases m,
{
    if m > 0 {
        lemma_from_zero(ts, (m - 1) as nat);
    }
}

/// Each round polynomial of an honest proof passes its round's check: its
/// values at 0 and 1 add up to the sum over the hypercube of what the earlier
/// challenges left, which is the claimed sum in the first round. (That the
/// value at the challenge, interpolated from the samples, is again such a
/// sum is not stated here.)
pub proof fn lemma_honest_rounds_pass_sum_check(ts: Seq<Seq<Seq<int>>>, chals: Seq<int>, d: nat)
    requires
        ready(ts),
        chals.len() < n_vars(ts),
        d >= 1,
    ensures
        fadd(
            round_samples(fold_rounds(ts, chals), d)[0],
            round_samples(fold_rounds(ts, chals), d)[1],
        ) == hypercube_sum(fold_rounds(ts, chals)),
{
    lemma_fold_rounds_ready(ts, chals);
    lemma_round_sum(fold_rounds(ts, chals));
}

} // verus!
