use crate::circuit::{output_bits, padded, Circuit};
use crate::error::GkrError;
use crate::field::Fq;
use crate::mle::{eval, lemma_dim_of_pow2, pow2, vals, MultilinearPolynomial};
use crate::poly::fit_error;
use crate::wiring::{combine, fold_prefix, lemma_fold_prefix_len, lemma_target_ready, target_terms};
use crate::circuit::{outputs_of, run_from, Op};
use crate::sumcheck::{
    accepts, challenge_of, derived_chals, honest_proof, lemma_honest_chals, lemma_honest_lengths,
    shaped, GKRProver, SumCheckProof,
};
use crate::field::{be_bytes, fadd, fmul};
use crate::mle::bytes_of;
use crate::transcript::{KeccakHasher, Transcript};
use vstd::prelude::*;

verus! {

/// A proof that a circuit's execution is correct: the claimed sum at the
/// output layer, one sumcheck proof per layer, and per layer the values of
/// the next layer's polynomial at the two halves of that layer's
/// challenges.
#[derive(Clone, Debug)]
pub struct Proof {
    pub claimed_sum: Fq,
    pub sumcheck_proofs: Vec<SumCheckProof>,
    pub wb_evals: Vec<Fq>,
    pub wc_evals: Vec<Fq>,
}

/// The first half of a challenge vector (the `b` coordinates).
pub open spec fn b_half(ch: Seq<int>) -> Seq<int> {
    ch.subrange(0, (ch.len() / 2) as int)
}

/// The second half of a challenge vector (the `c` coordinates).
pub open spec fn c_half(ch: Seq<int>) -> Seq<int> {
    ch.subrange((ch.len() / 2) as int, ch.len() as int)
}

/// Splits a vector at its middle.
fn split_half(ch: &Vec<Fq>) -> (r: (Vec<Fq>, Vec<Fq>))
    ensures
        vals(r.0@) == b_half(vals(ch@)),
        vals(r.1@) == c_half(vals(ch@)),
        r.0@.len() == ch@.len() / 2,
        r.1@.len() == ch@.len() - ch@.len() / 2,
{
    let middle = ch.len() / 2;
    let mut first: Vec<Fq> = Vec::new();
    let mut second: Vec<Fq> = Vec::new();
    let mut i: usize = 0;
    while i < ch.len()
        invariant
            i <= ch@.len(),
            middle == ch@.len() / 2,
            first@ == ch@.subrange(0, if i < middle { i as int } else { middle as int }),
            second@ == ch@.subrange(middle as int, if i < middle { middle as int } else { i as int }),
        decreases ch@.len() - i,
    {
        if i < middle {
            first.push(ch[i]);
        } else {
            second.push(ch[i]);
        }
        i = i + 1;
        assert(first@ =~= ch@.subrange(0, if i < middle { i as int } else { middle as int }));
        assert(second@ =~= ch@.subrange(middle as int, if i < middle { middle as int } else { i as int }));
    }
    assert(vals(first@) =~= b_half(vals(ch@)));
    assert(vals(second@) =~= c_half(vals(ch@)));
    (first, second)
}

/// The values of `wb_poly` at the first half of the challenges and of
/// `wc_poly` at the second half.
pub fn eval_wb_wc(
    wb_poly: &MultilinearPolynomial,
    wc_poly: &MultilinearPolynomial,
    challenges: &Vec<Fq>,
) -> (r: Result<(Fq, Fq), GkrError>)
    ensures
        match r {
            Ok((b, c)) => b.val() == eval(wb_poly.table(), b_half(vals(challenges@))) && c.val()
                == eval(wc_poly.table(), c_half(vals(challenges@))),
            Err(_) => fit_error(wb_poly.table().len(), b_half(vals(challenges@)).len()) is Some
                || fit_error(wc_poly.table().len(), c_half(vals(challenges@)).len()) is Some,
        },
{
    let (rb, rc) = split_half(challenges);
    assert(wb_poly.table().len() == wb_poly.coefficients@.len());
    assert(wc_poly.table().len() == wc_poly.coefficients@.len());
    let b = match wb_poly.evaluate(&rb) {
        Ok(v) => v,
        Err(e) => {
            return Err(e);
        },
    };
    let c = match wc_poly.evaluate(&rc) {
        Ok(v) => v,
        Err(e) => {
            return Err(e);
        },
    };
    Ok((b, c))
}

/// The per-layer values a proof carries: for each layer, `wb` and `wc` are
/// the next layer's polynomial at the two halves of that layer's
/// challenges.
pub open spec fn evals_match(circuit: Circuit, out: Seq<int>, p: Proof, k: int) -> bool {
    evals_prefix(circuit, out, p.sumcheck_proofs@, p.wb_evals@, p.wc_evals@, k)
}

#[verifier::opaque]
pub open spec fn evals_prefix(
    circuit: Circuit,
    out: Seq<int>,
    proofs: Seq<SumCheckProof>,
    wbs: Seq<Fq>,
    wcs: Seq<Fq>,
    k: int,
) -> bool {
    forall|l: int|
        0 <= l < k ==> {
            let ch = layer_chals(out, proofs, wbs, wcs, l);
            &&& (#[trigger] wbs[l]).val() == eval(circuit.next_table(l as nat), b_half(ch))
            &&& wcs[l].val() == eval(circuit.next_table(l as nat), c_half(ch))
        }
}

/// The 32-byte big-endian encodings of a sequence of field values.
pub open spec fn be_concat(vs: Seq<int>) -> Seq<u8>
    decreases vs.len(),
{
    if vs.len() == 0 {
        Seq::empty()
    } else {
        be_concat(vs.drop_last()) + be_bytes(vs.last(), 32)
    }
}

proof fn lemma_bytes_of_vals(s: Seq<Fq>)
    ensures
        bytes_of(s) == be_concat(vals(s)),
    decreases s.len(),
{
    if s.len() > 0 {
        lemma_bytes_of_vals(s.drop_last());
        assert(vals(s).drop_last() =~= vals(s.drop_last()));
    }
}

/// What the transcript absorbs after the output layer: each layer's `wb`
/// and `wc`, for the layers before `l`.
pub open spec fn layer_bytes(wbs: Seq<Fq>, wcs: Seq<Fq>, l: int) -> Seq<u8>
    decreases l,
{
    if l <= 0 {
        Seq::empty()
    } else {
        layer_bytes(wbs, wcs, l - 1) + be_bytes(wbs[l - 1].val(), 32) + be_bytes(
            wcs[l - 1].val(),
            32,
        )
    }
}

/// The challenge drawn from the padded output values.
pub open spec fn gkr_point(out: Seq<int>) -> int {
    challenge_of(be_concat(padded(out)))
}

/// The `alpha` that merges layer `l - 1`'s two values: drawn after its `wb`.
pub open spec fn layer_alpha(out: Seq<int>, wbs: Seq<Fq>, wcs: Seq<Fq>, l: int) -> int {
    challenge_of(be_concat(padded(out)) + layer_bytes(wbs, wcs, l - 1) + be_bytes(wbs[l - 1].val(), 32))
}

/// The `beta` that merges layer `l - 1`'s two values: drawn after its `wc`.
pub open spec fn layer_beta(out: Seq<int>, wbs: Seq<Fq>, wcs: Seq<Fq>, l: int) -> int {
    challenge_of(be_concat(padded(out)) + layer_bytes(wbs, wcs, l))
}

/// The claim that layer `l`'s sumcheck proves: the output values' polynomial
/// at the drawn point for the output layer, `alpha * wb + beta * wc` of the
/// layer above for the others.
pub open spec fn layer_claim(out: Seq<int>, wbs: Seq<Fq>, wcs: Seq<Fq>, l: int) -> int {
    if l == 0 {
        eval(padded(out), seq![gkr_point(out)])
    } else {
        fadd(
            fmul(layer_alpha(out, wbs, wcs, l), wbs[l - 1].val()),
            fmul(layer_beta(out, wbs, wcs, l), wcs[l - 1].val()),
        )
    }
}

/// The challenges the transcript of layer `l`'s sumcheck derives, from its
/// claim and its round polynomials.
#[verifier::opaque]
pub open spec fn layer_chals(
    out: Seq<int>,
    proofs: Seq<SumCheckProof>,
    wbs: Seq<Fq>,
    wcs: Seq<Fq>,
    l: int,
) -> Seq<int> {
    derived_chals(layer_claim(out, wbs, wcs, l), proofs[l].rounds())
}

/// Layer `l`'s sumcheck target: the wiring predicates at the drawn point for
/// the output layer; for the others, merged at the two halves of the layer
/// above's challenges with that layer's `alpha` and `beta`.
pub open spec fn layer_target(
    c: Circuit,
    out: Seq<int>,
    proofs: Seq<SumCheckProof>,
    wbs: Seq<Fq>,
    wcs: Seq<Fq>,
    l: int,
) -> Seq<Seq<Seq<int>>> {
    let lv = l as nat;
    let add_t = c.wiring_table(lv, Op::Add);
    let mul_t = c.wiring_table(lv, Op::Mul);
    if l == 0 {
        let z = seq![gkr_point(out)];
        target_terms(fold_prefix(add_t, z), fold_prefix(mul_t, z), c.next_table(lv))
    } else {
        let ch = layer_chals(out, proofs, wbs, wcs, l - 1);
        let a = layer_alpha(out, wbs, wcs, l);
        let b = layer_beta(out, wbs, wcs, l);
        target_terms(
            combine(fold_prefix(add_t, b_half(ch)), fold_prefix(add_t, c_half(ch)), a, b),
            combine(fold_prefix(mul_t, b_half(ch)), fold_prefix(mul_t, c_half(ch)), a, b),
            c.next_table(lv),
        )
    }
}

/// The transcript bytes of the layers before `j` depend on those layers only.
proof fn lemma_layer_bytes_prefix(b1: Seq<Fq>, c1: Seq<Fq>, b2: Seq<Fq>, c2: Seq<Fq>, j: int)
    requires
        forall|k: int| 0 <= k < j ==> b1[k] == b2[k] && c1[k] == c2[k],
    ensures
        layer_bytes(b1, c1, j) == layer_bytes(b2, c2, j),
    decreases j,
{
    if j > 0 {
        lemma_layer_bytes_prefix(b1, c1, b2, c2, j - 1);
        assert(b1[j - 1] == b2[j - 1] && c1[j - 1] == c2[j - 1]);
    }
}

/// Layer `j`'s claim and target depend on the layers before `j` only.
proof fn lemma_layer_prefix(
    c: Circuit,
    out: Seq<int>,
    p1: Seq<SumCheckProof>,
    b1: Seq<Fq>,
    c1: Seq<Fq>,
    p2: Seq<SumCheckProof>,
    b2: Seq<Fq>,
    c2: Seq<Fq>,
    j: int,
)
    requires
        0 <= j,
        forall|k: int| 0 <= k < j ==> p1[k] == p2[k] && b1[k] == b2[k] && c1[k] == c2[k],
    ensures
        layer_claim(out, b1, c1, j) == layer_claim(out, b2, c2, j),
        layer_target(c, out, p1, b1, c1, j) == layer_target(c, out, p2, b2, c2, j),
    decreases j,
{
    reveal(layer_chals);
    lemma_layer_bytes_prefix(b1, c1, b2, c2, j);
    if j > 0 {
        lemma_layer_prefix(c, out, p1, b1, c1, p2, b2, c2, j - 1);
        lemma_layer_bytes_prefix(b1, c1, b2, c2, j - 1);
        assert(p1[j - 1] == p2[j - 1]);
        assert(b1[j - 1] == b2[j - 1]);
        assert(c1[j - 1] == c2[j - 1]);
    }
}

/// The circuit's stored outputs are those of its execution.
#[verifier::opaque]
spec fn ran_ok(c: Circuit) -> bool {
    c.executed(outputs_of(c.outputs@))
}

proof fn lemma_ran(c: Circuit)
    requires
        ran_ok(c),
    ensures
        c.executed(outputs_of(c.outputs@)),
{
    reveal(ran_ok);
}

/// Extending the per-layer values by one layer whose `wb`, `wc` match.
proof fn lemma_evals_step(
    c: Circuit,
    out: Seq<int>,
    proofs: Seq<SumCheckProof>,
    wbs: Seq<Fq>,
    wcs: Seq<Fq>,
    sp: SumCheckProof,
    wb: Fq,
    wc: Fq,
    l: int,
)
    requires
        0 <= l,
        proofs.len() == l,
        wbs.len() == l,
        wcs.len() == l,
        evals_prefix(c, out, proofs, wbs, wcs, l),
        wb.val() == eval(c.next_table(l as nat), b_half(layer_chals(out, proofs.push(sp), wbs.push(wb), wcs.push(wc), l))),
        wc.val() == eval(c.next_table(l as nat), c_half(layer_chals(out, proofs.push(sp), wbs.push(wb), wcs.push(wc), l))),
    ensures
        evals_prefix(c, out, proofs.push(sp), wbs.push(wb), wcs.push(wc), l + 1),
{
    reveal(evals_prefix);
    let p2 = proofs.push(sp);
    let b2 = wbs.push(wb);
    let c2 = wcs.push(wc);
    assert forall|j: int| 0 <= j < l + 1 implies {
        let ch = layer_chals(out, p2, b2, c2, j);
        &&& (#[trigger] b2[j]).val() == eval(c.next_table(j as nat), b_half(ch))
        &&& c2[j].val() == eval(c.next_table(j as nat), c_half(ch))
    } by {
        if j < l {
            assert forall|k: int| 0 <= k < j implies proofs[k] == p2[k] && wbs[k] == b2[k] && wcs[k] == c2[k] by {}
            lemma_layer_prefix(c, out, proofs, wbs, wcs, p2, b2, c2, j);
            reveal(layer_chals);
            assert(p2[j] == proofs[j]);
            assert(b2[j] == wbs[j]);
        }
    }
}

/// One more layer of a fixed proof whose `wb`, `wc` match.
proof fn lemma_evals_next(
    c: Circuit,
    out: Seq<int>,
    proofs: Seq<SumCheckProof>,
    wbs: Seq<Fq>,
    wcs: Seq<Fq>,
    l: int,
)
    requires
        0 <= l,
        evals_prefix(c, out, proofs, wbs, wcs, l),
        wbs[l].val() == eval(c.next_table(l as nat), b_half(layer_chals(out, proofs, wbs, wcs, l))),
        wcs[l].val() == eval(c.next_table(l as nat), c_half(layer_chals(out, proofs, wbs, wcs, l))),
    ensures
        evals_prefix(c, out, proofs, wbs, wcs, l + 1),
{
    reveal(evals_prefix);
}

/// A proof whose `wb` at layer `l` does not match fails `evals_match`.
proof fn lemma_evals_at(c: Circuit, out: Seq<int>, p: Proof, l: int)
    requires
        0 <= l < p.sumcheck_proofs@.len(),
        evals_match(c, out, p, p.sumcheck_proofs@.len() as int),
    ensures
        p.wb_evals@[l].val() == eval(c.next_table(l as nat), b_half(layer_chals(out, p.sumcheck_proofs@, p.wb_evals@, p.wc_evals@, l))),
        p.wc_evals@[l].val() == eval(c.next_table(l as nat), c_half(layer_chals(out, p.sumcheck_proofs@, p.wb_evals@, p.wc_evals@, l))),
{
    let ps = p.sumcheck_proofs@;
    let bs = p.wb_evals@;
    let cs = p.wc_evals@;
    assert(evals_prefix(c, out, ps, bs, cs, ps.len() as int));
    reveal(evals_prefix);
    let ch = layer_chals(out, ps, bs, cs, l);
    assert(bs[l].val() == eval(c.next_table(l as nat), b_half(ch)));
    assert(cs[l].val() == eval(c.next_table(l as nat), c_half(ch)));
}

/// Each of the first `k` sumcheck proofs is the honest one for its layer's
/// target and claim.
#[verifier::opaque]
pub open spec fn proved_layers(
    c: Circuit,
    out: Seq<int>,
    proofs: Seq<SumCheckProof>,
    wbs: Seq<Fq>,
    wcs: Seq<Fq>,
    k: int,
) -> bool {
    forall|j: int|
        0 <= j < k ==> honest_proof(
            layer_target(c, out, proofs, wbs, wcs, j),
            layer_claim(out, wbs, wcs, j),
            #[trigger] proofs[j],
        )
}

proof fn lemma_proved_step(
    c: Circuit,
    out: Seq<int>,
    proofs: Seq<SumCheckProof>,
    wbs: Seq<Fq>,
    wcs: Seq<Fq>,
    sp: SumCheckProof,
    wb: Fq,
    wc: Fq,
    l: int,
)
    requires
        0 <= l,
        proofs.len() == l,
        wbs.len() == l,
        wcs.len() == l,
        proved_layers(c, out, proofs, wbs, wcs, l),
        honest_proof(layer_target(c, out, proofs, wbs, wcs, l), layer_claim(out, wbs, wcs, l), sp),
    ensures
        proved_layers(c, out, proofs.push(sp), wbs.push(wb), wcs.push(wc), l + 1),
{
    reveal(proved_layers);
    let p2 = proofs.push(sp);
    let b2 = wbs.push(wb);
    let c2 = wcs.push(wc);
    assert forall|j: int| 0 <= j < l + 1 implies honest_proof(
        layer_target(c, out, p2, b2, c2, j),
        layer_claim(out, b2, c2, j),
        #[trigger] p2[j],
    ) by {
        assert forall|k: int| 0 <= k < j implies proofs[k] == p2[k] && wbs[k] == b2[k] && wcs[k] == c2[k] by {}
        lemma_layer_prefix(c, out, proofs, wbs, wcs, p2, b2, c2, j);
        if j < l {
            assert(p2[j] == proofs[j]);
        }
    }
}

/// The circuit, executed, has the shapes the protocol needs: at least one
/// layer, an output layer of one or two values, and for every layer a target
/// that can be built (see `target_ok`).
pub open spec fn gkr_ready(c: Circuit) -> bool {
    &&& c.layers@.len() >= 1
    &&& c.outputs@.len() == c.layers@.len()
    &&& padded(vals(c.outputs@[0]@)).len() == 2
    &&& forall|l: int|
        0 <= l < c.layers@.len() ==> #[trigger] c.target_ok(l as nat, output_bits(l as nat))
}

/// Executes the circuit and proves its layers, output layer first. The
/// output layer's values are absorbed and a challenge `z` drawn; the claim
/// is their polynomial at `z`. Each layer's target is proved by sumcheck;
/// the next layer's polynomial is evaluated at both halves of the
/// challenges, and the two values, absorbed in turn, draw the `alpha` and
/// `beta` that merge them into the next claim. It fails exactly when the
/// circuit does not execute or does not have those shapes.
/// Circuits have at most 10 layers: layer 10's wiring tables would hold
/// `2^32` entries of 32 bytes each.
#[verifier::rlimit(100)]
#[verifier::spinoff_prover]
pub fn prove(circuit: &mut Circuit) -> (r: Result<Proof, GkrError>)
    requires
        old(circuit).layers@.len() <= 10,
    ensures
        final(circuit).inputs == old(circuit).inputs,
        final(circuit).layers == old(circuit).layers,
        run_from(old(circuit).gates(), vals(old(circuit).inputs@), 0) is Some
            ==> final(circuit).executed(outputs_of(final(circuit).outputs@)),
        match r {
            Ok(p) => {
                &&& gkr_ready(*final(circuit))
                &&& p.sumcheck_proofs@.len() == final(circuit).layers@.len()
                &&& p.wb_evals@.len() == final(circuit).layers@.len()
                &&& p.wc_evals@.len() == final(circuit).layers@.len()
                &&& p.sumcheck_proofs@[0].claimed_sum == p.claimed_sum
                &&& evals_match(
                    *final(circuit),
                    vals(final(circuit).outputs@[0]@),
                    p,
                    p.sumcheck_proofs@.len() as int,
                )
                &&& p.claimed_sum.val() == layer_claim(
                    vals(final(circuit).outputs@[0]@),
                    p.wb_evals@,
                    p.wc_evals@,
                    0,
                )
                &&& forall|l: int|
                    0 <= l < p.sumcheck_proofs@.len() ==> honest_proof(
                        layer_target(
                            *final(circuit),
                            vals(final(circuit).outputs@[0]@),
                            p.sumcheck_proofs@,
                            p.wb_evals@,
                            p.wc_evals@,
                            l,
                        ),
                        layer_claim(vals(final(circuit).outputs@[0]@), p.wb_evals@, p.wc_evals@, l),
                        #[trigger] p.sumcheck_proofs@[l],
                    )
            },
            Err(_) => run_from(old(circuit).gates(), vals(old(circuit).inputs@), 0) is None
                || !gkr_ready(*final(circuit)),
        },
{
    match circuit.execute() {
        Ok(_) => {},
        Err(e) => {
            return Err(e);
        },
    }
    let depth = circuit.layers.len();
    if depth == 0 {
        return Err(GkrError::InvalidWiring);
    }
    assert(circuit.outputs@.len() == depth) by {
        assert(outputs_len(circuit.outputs@) == circuit.outputs@.len());
    }
    let mut transcript = Transcript::init(KeccakHasher::new());
    let w0 = match circuit.w_i_polynomial(0) {
        Ok(w) => w,
        Err(e) => {
            return Err(e);
        },
    };
    let w0_bytes = w0.convert_to_bytes();
    transcript.absorb(w0_bytes.as_slice());
    let z0 = transcript.squeeze();
    let z = vec![z0];
    let ghost out0 = vals(circuit.outputs@[0]@);
    proof {
        lemma_bytes_of_vals(w0.coefficients@);
        assert(w0.table() == padded(out0));
        assert(transcript.absorbed() =~= be_concat(padded(out0)));
        assert(z0.val() == gkr_point(out0));
        assert(vals(z@) =~= seq![gkr_point(out0)]);
        lemma_dim_of_pow2(1);
        assert(pow2(0) == 1);
        assert(pow2(1) == 2);
    }
    let first_claim = match w0.evaluate(&z) {
        Ok(v) => v,
        Err(e) => {
            return Err(e);
        },
    };
    let mut claimed_sum = first_claim;
    let mut sumcheck_proofs: Vec<SumCheckProof> = Vec::new();
    let mut wb_evals: Vec<Fq> = Vec::new();
    let mut wc_evals: Vec<Fq> = Vec::new();
    let mut alpha = Fq::zero();
    let mut beta = Fq::zero();
    let mut rb: Vec<Fq> = Vec::new();
    let mut rc: Vec<Fq> = Vec::new();
    let mut l: usize = 0;
    proof {
        reveal(proved_layers);
        reveal(ran_ok);
        assert(ran_ok(*circuit));
        reveal(evals_prefix);
    }
    while l < depth
        invariant
            l <= depth,
            depth == circuit.layers@.len(),
            depth == circuit.outputs@.len(),
            depth <= 10,
            depth >= 1,
            circuit.inputs == old(circuit).inputs,
            circuit.layers == old(circuit).layers,
            padded(vals(circuit.outputs@[0]@)).len() == 2,
            z@.len() == 1,
            forall|j: int| 0 <= j < l ==> #[trigger] circuit.target_ok(j as nat, output_bits(j as nat)),
            1 <= l < depth ==> rb@.len() == l && rc@.len() == l,
            sumcheck_proofs@.len() == l,
            wb_evals@.len() == l,
            wc_evals@.len() == l,
            l > 0 ==> sumcheck_proofs@[0].claimed_sum == first_claim,
            l == 0 ==> claimed_sum == first_claim,
            evals_prefix(*circuit, out0, sumcheck_proofs@, wb_evals@, wc_evals@, l as int),
            ran_ok(*circuit),
            out0 == vals(circuit.outputs@[0]@),
            vals(z@) == seq![gkr_point(out0)],
            first_claim.val() == layer_claim(out0, wb_evals@, wc_evals@, 0),
            l < depth ==> transcript.absorbed() == be_concat(padded(out0)) + layer_bytes(
                wb_evals@,
                wc_evals@,
                l as int,
            ),
            l < depth ==> claimed_sum.val() == layer_claim(out0, wb_evals@, wc_evals@, l as int),
            1 <= l < depth ==> alpha.val() == layer_alpha(out0, wb_evals@, wc_evals@, l as int)
                && beta.val() == layer_beta(out0, wb_evals@, wc_evals@, l as int) && vals(rb@)
                == b_half(layer_chals(out0, sumcheck_proofs@, wb_evals@, wc_evals@, l - 1))
                && vals(rc@) == c_half(layer_chals(out0, sumcheck_proofs@, wb_evals@, wc_evals@, l - 1)),
            proved_layers(*circuit, out0, sumcheck_proofs@, wb_evals@, wc_evals@, l as int),
        decreases depth - l,
    {
        let ghost lv = l as nat;
        let target = if l == 0 {
            circuit.f_b_c(0, &z)
        } else {
            circuit.f_b_c_merged(l, alpha, beta, &rb, &rc)
        };
        let target = match target {
            Ok(t) => t,
            Err(e) => {
                proof {
                    let li: int = l as int;
                    assert(!circuit.target_ok(li as nat, output_bits(li as nat)));
                    if gkr_ready(*circuit) {
                        assert(circuit.target_ok(li as nat, output_bits(li as nat)));
                    }
                }
                proof {
                    lemma_ran(*circuit);
                }
                return Err(e);
            },
        };
        proof {
            assert(circuit.target_ok(lv, output_bits(lv)));
            let ob = output_bits(lv);
            let m = (ob + 2 * (lv + 1)) as nat;
            let add_t = circuit.wiring_table(lv, Op::Add);
            let mul_t = circuit.wiring_table(lv, Op::Mul);
            assert((m - ob) as nat == 2 * (lv + 1));
            if l == 0 {
                lemma_fold_prefix_len(add_t, vals(z@), m);
                lemma_fold_prefix_len(mul_t, vals(z@), m);
                lemma_target_ready(fold_prefix(add_t, vals(z@)), fold_prefix(mul_t, vals(z@)), circuit.next_table(lv), lv);
            } else {
                lemma_fold_prefix_len(add_t, vals(rb@), m);
                lemma_fold_prefix_len(add_t, vals(rc@), m);
                lemma_fold_prefix_len(mul_t, vals(rb@), m);
                lemma_fold_prefix_len(mul_t, vals(rc@), m);
                lemma_target_ready(
                    combine(fold_prefix(add_t, vals(rb@)), fold_prefix(add_t, vals(rc@)), alpha.val(), beta.val()),
                    combine(fold_prefix(mul_t, vals(rb@)), fold_prefix(mul_t, vals(rc@)), alpha.val(), beta.val()),
                    circuit.next_table(lv),
                    lv,
                );
            }
        }
        let ghost tt = target.terms();
        assert(tt == layer_target(*circuit, out0, sumcheck_proofs@, wb_evals@, wc_evals@, l as int));
        let prover = GKRProver::new(target, claimed_sum);
        let sp = match prover.prove() {
            Ok(p) => p,
            Err(e) => {
                proof {
                    lemma_ran(*circuit);
                }
                return Err(e);
            },
        };
        proof {
            lemma_honest_lengths(tt, claimed_sum.val(), sp);
            lemma_honest_chals(tt, claimed_sum.val(), sp);
        }
        assert(sp.random_challenges@.len() == 2 * (lv + 1));
        let w_next = match circuit.w_i_polynomial(l + 1) {
            Ok(w) => w,
            Err(e) => {
                proof {
                    lemma_ran(*circuit);
                }
                return Err(e);
            },
        };
        proof {
            assert(w_next.table() == circuit.next_table(lv));
            lemma_dim_of_pow2(lv + 1);
        }
        let (wb, wc) = match eval_wb_wc(&w_next, &w_next, &sp.random_challenges) {
            Ok(pair) => pair,
            Err(e) => {
                proof {
                    lemma_ran(*circuit);
                }
                return Err(e);
            },
        };
        let (next_rb, next_rc) = split_half(&sp.random_challenges);
        let ghost old_proofs = sumcheck_proofs@;
        let ghost old_wb = wb_evals@;
        let ghost old_wc = wc_evals@;
        sumcheck_proofs.push(sp);
        wb_evals.push(wb);
        wc_evals.push(wc);
        proof {
            lemma_layer_prefix(*circuit, out0, old_proofs, old_wb, old_wc, sumcheck_proofs@, wb_evals@, wc_evals@, l as int);
            assert(sumcheck_proofs@[l as int] == sp);
            assert(layer_chals(out0, sumcheck_proofs@, wb_evals@, wc_evals@, l as int) == vals(sp.random_challenges@)) by {
                reveal(layer_chals);
            }
            lemma_evals_step(*circuit, out0, old_proofs, old_wb, old_wc, sp, wb, wc, l as int);
            lemma_proved_step(*circuit, out0, old_proofs, old_wb, old_wc, sp, wb, wc, l as int);
            lemma_layer_prefix(*circuit, out0, old_proofs, old_wb, old_wc, sumcheck_proofs@, wb_evals@, wc_evals@, 0);
            lemma_layer_bytes_prefix(old_wb, old_wc, wb_evals@, wc_evals@, l as int);
            assert forall|j: int| 0 <= j < l + 1 implies #[trigger] circuit.target_ok(j as nat, output_bits(j as nat)) by {
                if j == l {
                    assert(circuit.target_ok(lv, output_bits(lv)));
                }
            }
        }
        if l + 1 < depth {
            let ghost before = transcript.absorbed();
            let wb_bytes = wb.to_bytes_be();
            transcript.absorb(wb_bytes.as_slice());
            alpha = transcript.squeeze();
            let wc_bytes = wc.to_bytes_be();
            transcript.absorb(wc_bytes.as_slice());
            beta = transcript.squeeze();
            claimed_sum = alpha.mul(&wb).add(&beta.mul(&wc));
            rb = next_rb;
            rc = next_rc;
            proof {
                let nb = wb_evals@;
                let nc = wc_evals@;
                let base = be_concat(padded(out0));
                assert(before == base + layer_bytes(nb, nc, l as int));
                assert(nb[l as int] == wb);
                assert(nc[l as int] == wc);
                assert(layer_bytes(nb, nc, l + 1) == layer_bytes(nb, nc, l as int) + be_bytes(wb.val(), 32) + be_bytes(wc.val(), 32));
                assert(before + be_bytes(wb.val(), 32) =~= base + layer_bytes(nb, nc, l as int) + be_bytes(nb[l as int].val(), 32));
                assert(alpha.val() == layer_alpha(out0, nb, nc, l + 1));
                assert(transcript.absorbed() =~= base + layer_bytes(nb, nc, l + 1));
                assert(beta.val() == layer_beta(out0, nb, nc, l + 1));
                assert(claimed_sum.val() == layer_claim(out0, nb, nc, l + 1));
                assert(sumcheck_proofs@[l as int] == sp);
            }
        }
        l = l + 1;
    }
    let p = Proof { claimed_sum: first_claim, sumcheck_proofs, wb_evals, wc_evals };
    proof {
        reveal(proved_layers);
        lemma_ran(*circuit);
    }
    Ok(p)
}

pub open spec fn outputs_len(outs: Seq<Vec<Fq>>) -> nat {
    outs.len()
}

/// Each layer's sumcheck proof has one round per variable of its target and
/// three samples a round (its terms have two factors); and the proof has one
/// of each per layer. The challenges a proof lists are not read.
pub open spec fn proof_dims(p: Proof, depth: nat) -> bool {
    &&& p.sumcheck_proofs@.len() == depth
    &&& p.wb_evals@.len() == depth
    &&& p.wc_evals@.len() == depth
    &&& forall|l: int|
        0 <= l < depth ==> {
            let sp = #[trigger] p.sumcheck_proofs@[l];
            &&& sp.round_polys@.len() == 2 * (l + 1)
            &&& forall|r: int| 0 <= r < 2 * (l + 1) ==> (#[trigger] sp.round_polys@[r])@.len() == 3
        }
}

/// The sumcheck verifier accepts each of the first `k` layers' proofs for
/// that layer's target and claim.
#[verifier::opaque]
pub open spec fn accepted_layers(
    c: Circuit,
    out: Seq<int>,
    proofs: Seq<SumCheckProof>,
    wbs: Seq<Fq>,
    wcs: Seq<Fq>,
    k: int,
) -> bool {
    forall|j: int|
        0 <= j < k ==> accepts(
            layer_target(c, out, proofs, wbs, wcs, j),
            layer_claim(out, wbs, wcs, j),
            #[trigger] proofs[j],
        )
}

/// A proof is accepted for the circuit and the claimed output values: the
/// first claim is the output values' polynomial at the drawn point, every
/// layer's sumcheck proof is accepted for that layer's target and claim,
/// and every `wb`, `wc` is the next layer's polynomial at the halves of that
/// layer's challenges (for the last layer, the inputs' polynomial).
pub open spec fn gkr_accepts(c: Circuit, out: Seq<int>, p: Proof) -> bool {
    &&& p.claimed_sum.val() == layer_claim(out, p.wb_evals@, p.wc_evals@, 0)
    &&& accepted_layers(c, out, p.sumcheck_proofs@, p.wb_evals@, p.wc_evals@, p.sumcheck_proofs@.len() as int)
    &&& evals_match(c, out, p, p.sumcheck_proofs@.len() as int)
}

/// Checks the shape of every layer's sumcheck proof.
fn check_dims(proof: &Proof, depth: usize) -> (r: bool)
    ensures
        r == proof_dims(*proof, depth as nat),
{
    if proof.sumcheck_proofs.len() != depth || proof.wb_evals.len() != depth
        || proof.wc_evals.len() != depth {
        return false;
    }
    let mut l: usize = 0;
    while l < depth
        invariant
            l <= depth,
            depth <= usize::MAX,
            proof.sumcheck_proofs@.len() == depth,
            proof.wb_evals@.len() == depth,
            proof.wc_evals@.len() == depth,
            forall|j: int|
                0 <= j < l ==> {
                    let sp = #[trigger] proof.sumcheck_proofs@[j];
                    &&& sp.round_polys@.len() == 2 * (j + 1)
                    &&& forall|r: int| 0 <= r < 2 * (j + 1) ==> (#[trigger] sp.round_polys@[r])@.len() == 3
                },
        decreases depth - l,
    {
        let sp = &proof.sumcheck_proofs[l];
        let rounds = sp.round_polys.len();
        if rounds / 2 != l + 1 || rounds % 2 != 0 {
            return false;
        }
        let mut r: usize = 0;
        while r < rounds
            invariant
                r <= rounds,
                l < depth,
                proof.sumcheck_proofs@.len() == depth,
                *sp == proof.sumcheck_proofs@[l as int],
                rounds == sp.round_polys@.len(),
                rounds == 2 * (l + 1),
                forall|q: int| 0 <= q < r ==> (#[trigger] sp.round_polys@[q])@.len() == 3,
            decreases rounds - r,
        {
            if sp.round_polys[r].len() != 3 {
                proof {
                    let li = l as int;
                    assert(proof.sumcheck_proofs@[li].round_polys@[r as int]@.len() != 3);
                }
                return false;
            }
            r = r + 1;
        }
        l = l + 1;
    }
    true
}

/// Checks a proof against the circuit and its claimed output values. The
/// verifier executes the circuit itself, rebuilds each layer's target,
/// replays the transcript the prover kept, and accepts exactly when
/// `gkr_accepts` holds. It fails when the circuit does not execute or does
/// not have the shapes the protocol needs, when the claimed output is not of
/// one or two values, or when the proof is not of the expected dimensions.
/// Circuits have at most 10 layers: layer 10's wiring tables would hold
/// `2^32` entries of 32 bytes each.
#[verifier::rlimit(100)]
#[verifier::spinoff_prover]
pub fn verify(circuit: &mut Circuit, claimed_output: &Vec<Fq>, proof: &Proof) -> (r: Result<
    bool,
    GkrError,
>)
    requires
        old(circuit).layers@.len() <= 10,
    ensures
        final(circuit).inputs == old(circuit).inputs,
        final(circuit).layers == old(circuit).layers,
        run_from(old(circuit).gates(), vals(old(circuit).inputs@), 0) is Some
            ==> final(circuit).executed(outputs_of(final(circuit).outputs@)),
        match r {
            Ok(b) => {
                &&& gkr_ready(*final(circuit))
                &&& padded(vals(claimed_output@)).len() == 2
                &&& proof_dims(*proof, final(circuit).layers@.len())
                &&& b == gkr_accepts(*final(circuit), vals(claimed_output@), *proof)
            },
            Err(_) => {
                ||| run_from(old(circuit).gates(), vals(old(circuit).inputs@), 0) is None
                ||| !gkr_ready(*final(circuit))
                ||| padded(vals(claimed_output@)).len() != 2
                ||| !proof_dims(*proof, final(circuit).layers@.len())
            },
        },
{
    match circuit.execute() {
        Ok(_) => {},
        Err(e) => {
            return Err(e);
        },
    }
    let depth = circuit.layers.len();
    if depth == 0 {
        return Err(GkrError::InvalidWiring);
    }
    assert(circuit.outputs@.len() == depth) by {
        assert(outputs_len(circuit.outputs@) == circuit.outputs@.len());
    }
    if !crate::wiring::layers_ready(circuit) {
        return Err(GkrError::InvalidWiring);
    }
    let top = circuit.outputs[0].len();
    if top != 1 && top != 2 {
        return Err(GkrError::DimensionMismatch);
    }
    assert(gkr_ready(*circuit));
    if !check_dims(proof, depth) {
        return Err(GkrError::MalformedProof);
    }
    let mut table = claimed_output.clone();
    if table.len() == 1 {
        table.push(Fq::zero());
    }
    let ghost out = vals(claimed_output@);
    assert(vals(table@) =~= padded(out));
    if table.len() != 2 {
        return Err(GkrError::DimensionMismatch);
    }
    let w0 = MultilinearPolynomial::new(table);
    let mut transcript = Transcript::init(KeccakHasher::new());
    let w0_bytes = w0.convert_to_bytes();
    transcript.absorb(w0_bytes.as_slice());
    let z0 = transcript.squeeze();
    let z = vec![z0];
    proof {
        lemma_bytes_of_vals(w0.coefficients@);
        assert(transcript.absorbed() =~= be_concat(padded(out)));
        assert(vals(z@) =~= seq![gkr_point(out)]);
        lemma_dim_of_pow2(1);
        assert(pow2(0) == 1);
        assert(pow2(1) == 2);
    }
    let mut claim = match w0.evaluate(&z) {
        Ok(v) => v,
        Err(e) => {
            return Err(e);
        },
    };
    let ghost ps = proof.sumcheck_proofs@;
    let ghost bs = proof.wb_evals@;
    let ghost cs = proof.wc_evals@;
    assert(claim.val() == layer_claim(out, bs, cs, 0));
    if !claim.eq_val(&proof.claimed_sum) {
        return Ok(false);
    }
    let mut alpha = Fq::zero();
    let mut beta = Fq::zero();
    let mut rb: Vec<Fq> = Vec::new();
    let mut rc: Vec<Fq> = Vec::new();
    let mut l: usize = 0;
    proof {
        reveal(accepted_layers);
        reveal(ran_ok);
        assert(ran_ok(*circuit));
        reveal(evals_prefix);
    }
    while l < depth
        invariant
            l <= depth,
            depth == circuit.layers@.len(),
            depth <= 10,
            circuit.inputs == old(circuit).inputs,
            circuit.layers == old(circuit).layers,
            gkr_ready(*circuit),
            proof_dims(*proof, depth as nat),
            ps == proof.sumcheck_proofs@,
            bs == proof.wb_evals@,
            cs == proof.wc_evals@,
            out == vals(claimed_output@),
            padded(out).len() == 2,
            vals(z@) == seq![gkr_point(out)],
            proof.claimed_sum.val() == layer_claim(out, bs, cs, 0),
            l < depth ==> transcript.absorbed() == be_concat(padded(out)) + layer_bytes(bs, cs, l as int),
            l < depth ==> claim.val() == layer_claim(out, bs, cs, l as int),
            1 <= l < depth ==> alpha.val() == layer_alpha(out, bs, cs, l as int) && beta.val()
                == layer_beta(out, bs, cs, l as int) && vals(rb@) == b_half(
                layer_chals(out, ps, bs, cs, l - 1),
            ) && vals(rc@) == c_half(layer_chals(out, ps, bs, cs, l - 1)) && rb@.len() == l
                && rc@.len() == l,
            accepted_layers(*circuit, out, ps, bs, cs, l as int),
            evals_prefix(*circuit, out, ps, bs, cs, l as int),
            ran_ok(*circuit),
        decreases depth - l,
    {
        let ghost lv = l as nat;
        let ghost li = l as int;
        assert(circuit.target_ok(li as nat, output_bits(li as nat)));
        let target = if l == 0 {
            circuit.f_b_c(0, &z)
        } else {
            circuit.f_b_c_merged(l, alpha, beta, &rb, &rc)
        };
        let target = match target {
            Ok(t) => t,
            Err(e) => {
                proof {
                    lemma_ran(*circuit);
                }
                return Err(e);
            },
        };
        let ghost tt = target.terms();
        proof {
            let ob = output_bits(lv);
            let m = (ob + 2 * (lv + 1)) as nat;
            let add_t = circuit.wiring_table(lv, Op::Add);
            let mul_t = circuit.wiring_table(lv, Op::Mul);
            assert((m - ob) as nat == 2 * (lv + 1));
            assert(tt == layer_target(*circuit, out, ps, bs, cs, li));
            if l == 0 {
                lemma_fold_prefix_len(add_t, vals(z@), m);
                lemma_fold_prefix_len(mul_t, vals(z@), m);
                lemma_target_ready(fold_prefix(add_t, vals(z@)), fold_prefix(mul_t, vals(z@)), circuit.next_table(lv), lv);
                crate::wiring::lemma_target_factors(fold_prefix(add_t, vals(z@)), fold_prefix(mul_t, vals(z@)), circuit.next_table(lv));
            } else {
                lemma_fold_prefix_len(add_t, vals(rb@), m);
                lemma_fold_prefix_len(add_t, vals(rc@), m);
                lemma_fold_prefix_len(mul_t, vals(rb@), m);
                lemma_fold_prefix_len(mul_t, vals(rc@), m);
                let ca = combine(fold_prefix(add_t, vals(rb@)), fold_prefix(add_t, vals(rc@)), alpha.val(), beta.val());
                let cm = combine(fold_prefix(mul_t, vals(rb@)), fold_prefix(mul_t, vals(rc@)), alpha.val(), beta.val());
                lemma_target_ready(ca, cm, circuit.next_table(lv), lv);
                crate::wiring::lemma_target_factors(ca, cm, circuit.next_table(lv));
            }
            let sp = ps[li];
            assert(sp.round_polys@.len() == 2 * (li + 1));
            assert(crate::sumcheck::proof_shaped(sp.rounds(), crate::poly::n_vars(tt), crate::sumcheck::max_factors(tt))) by {
                assert forall|r: int| 0 <= r < crate::poly::n_vars(tt) implies (#[trigger] sp.rounds()[r]).len() == crate::sumcheck::max_factors(tt) + 1 by {
                    assert(sp.rounds()[r] == sp.round_polys@[r]@);
                }
            }
            assert(shaped(tt, sp));
        }
        let sp = &proof.sumcheck_proofs[l];
        let checker = GKRProver::new(target, claim);
        let ch = match checker.verify_rounds(sp) {
            Ok(Some(ch)) => ch,
            Ok(None) => {
                proof {
                    assert(ps[li] == *sp);
                    assert(!accepts(tt, layer_claim(out, bs, cs, li), ps[li]));
                    if gkr_accepts(*circuit, out, *proof) {
                        reveal(accepted_layers);
                        assert(accepts(
                            layer_target(*circuit, out, ps, bs, cs, li),
                            layer_claim(out, bs, cs, li),
                            ps[li],
                        ));
                    }
                }
                proof {
                    lemma_ran(*circuit);
                }
                return Ok(false);
            },
            Err(e) => {
                proof {
                    lemma_ran(*circuit);
                }
                return Err(e);
            },
        };
        assert(ps[li] == *sp);
        assert(vals(ch@) == layer_chals(out, ps, bs, cs, li) && ch@.len() == 2 * (li + 1)) by {
            reveal(layer_chals);
            assert(vals(ch@).len() == ch@.len());
            assert(sp.rounds().len() == sp.round_polys@.len());
        }
        let w_next = match circuit.w_i_polynomial(l + 1) {
            Ok(w) => w,
            Err(e) => {
                proof {
                    lemma_ran(*circuit);
                }
                return Err(e);
            },
        };
        proof {
            assert(w_next.table() == circuit.next_table(lv));
            lemma_dim_of_pow2(lv + 1);
        }
        let (wb, wc) = match eval_wb_wc(&w_next, &w_next, &ch) {
            Ok(pair) => pair,
            Err(e) => {
                proof {
                    lemma_ran(*circuit);
                }
                return Err(e);
            },
        };
        if !wb.eq_val(&proof.wb_evals[l]) || !wc.eq_val(&proof.wc_evals[l]) {
            proof {
                assert(w_next.table() == circuit.next_table(lv));
                if gkr_accepts(*circuit, out, *proof) {
                    lemma_evals_at(*circuit, out, *proof, li);
                }
            }
            proof {
                lemma_ran(*circuit);
            }
            return Ok(false);
        }
        proof {
            reveal(accepted_layers);
            assert(accepts(layer_target(*circuit, out, ps, bs, cs, li), layer_claim(out, bs, cs, li), ps[li]));
            assert(ps[li] == *sp);
            lemma_evals_next(*circuit, out, ps, bs, cs, li);
        }
        if l + 1 < depth {
            let ghost before = transcript.absorbed();
            let wb_bytes = wb.to_bytes_be();
            transcript.absorb(wb_bytes.as_slice());
            alpha = transcript.squeeze();
            let wc_bytes = wc.to_bytes_be();
            transcript.absorb(wc_bytes.as_slice());
            beta = transcript.squeeze();
            claim = alpha.mul(&wb).add(&beta.mul(&wc));
            let (next_rb, next_rc) = split_half(&ch);
            rb = next_rb;
            rc = next_rc;
            proof {
                let base = be_concat(padded(out));
                assert(bs[li].val() == wb.val());
                assert(cs[li].val() == wc.val());
                assert(layer_bytes(bs, cs, li + 1) == layer_bytes(bs, cs, li) + be_bytes(wb.val(), 32) + be_bytes(wc.val(), 32));
                assert(before + be_bytes(wb.val(), 32) =~= base + layer_bytes(bs, cs, li) + be_bytes(bs[li].val(), 32));
                assert(alpha.val() == layer_alpha(out, bs, cs, li + 1));
                assert(transcript.absorbed() =~= base + layer_bytes(bs, cs, li + 1));
                assert(beta.val() == layer_beta(out, bs, cs, li + 1));
                assert(claim.val() == layer_claim(out, bs, cs, li + 1));
            }
        }
        l = l + 1;
    }
    proof {
        lemma_ran(*circuit);
    }
    Ok(true)
}

} // verus!
