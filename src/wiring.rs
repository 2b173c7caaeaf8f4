use crate::circuit::{
    arrange_gate_index, fits, gate_index_combinations, output_bits, padded, wiring_index, Circuit,
    Gate, Op,
};
use crate::error::GkrError;
use crate::field::{fadd, fmul, Fq};
use crate::mle::{
    dim_of, fold, is_pow2, lemma_dim_of_pow2, partial_evaluate, pow2, vals,
    MultilinearPolynomial,
};
use crate::poly::{ProductPoly, SumPoly};
use vstd::prelude::*;

verus! {

/// One where a gate among the first `k` has operation `op` and wiring index
/// `idx`, zero elsewhere.
pub open spec fn wiring_entry(gates: Seq<Gate>, k: int, l: nat, op: Op, idx: int) -> int {
    if exists|j: int|
        0 <= j < k && (#[trigger] gates[j]).op == op && wiring_index(
            l,
            gates[j].output as nat,
            gates[j].left as nat,
            gates[j].right as nat,
        ) == idx {
        1
    } else {
        0
    }
}

/// Every gate's fields fit the widths of layer `l`.
pub open spec fn all_fit(gates: Seq<Gate>, l: nat) -> bool {
    forall|k: int|
        0 <= k < gates.len() ==> fits(
            l,
            (#[trigger] gates[k]).output as nat,
            gates[k].left as nat,
            gates[k].right as nat,
        )
}

/// The table left after fixing coordinate 0 to each of `zs` in turn.
pub open spec fn fold_prefix(t: Seq<int>, zs: Seq<int>) -> Seq<int>
    decreases zs.len(),
{
    if zs.len() == 0 {
        t
    } else {
        let prev = fold_prefix(t, zs.drop_last());
        fold(prev, dim_of(prev.len()), 0, zs.last())
    }
}

/// The table over `(b, c)` of `w[b] + w[c]`.
pub open spec fn pair_sum(w: Seq<int>) -> Seq<int> {
    Seq::new(w.len() * w.len(), |k: int| fadd(w[k / w.len() as int], w[k % w.len() as int]))
}

/// The table over `(b, c)` of `w[b] * w[c]`.
pub open spec fn pair_prod(w: Seq<int>) -> Seq<int> {
    Seq::new(w.len() * w.len(), |k: int| fmul(w[k / w.len() as int], w[k % w.len() as int]))
}

/// The entrywise combination `a * x + b * y`.
pub open spec fn combine(x: Seq<int>, y: Seq<int>, a: int, b: int) -> Seq<int> {
    Seq::new(x.len(), |k: int| fadd(fmul(a, x[k]), fmul(b, y[k])))
}

/// The two-term target of a layer: `add * (W(b) + W(c))` and
/// `mul * W(b) * W(c)`.
pub open spec fn target_terms(add: Seq<int>, mul: Seq<int>, w: Seq<int>) -> Seq<Seq<Seq<int>>> {
    seq![seq![add, pair_sum(w)], seq![mul, pair_prod(w)]]
}

/// `2^k`.
pub(crate) fn power_of_two(k: usize) -> (r: usize)
    requires
        k <= 31,
    ensures
        r == pow2(k as nat),
{
    let mut p: usize = 1;
    let mut i: usize = 0;
    while i < k
        invariant
            i <= k,
            k <= 31,
            p == pow2(i as nat),
        decreases k - i,
    {
        proof {
            lemma_pow2_below(i as nat);
        }
        p = p * 2;
        i = i + 1;
    }
    p
}

proof fn lemma_pow2_below(i: nat)
    requires
        i < 31,
    ensures
        pow2(i) < 0x8000_0000,
    decreases i,
{
    crate::circuit::lemma_pow2_mono(i, 30);
    reveal_with_fuel(pow2, 31);
}

/// Fixes coordinate 0 of the table to each of `zs` in turn.
fn fold_points(t: Vec<Fq>, zs: &Vec<Fq>) -> (r: Vec<Fq>)
    requires
        is_pow2(t@.len()),
        zs@.len() <= dim_of(t@.len()),
    ensures
        vals(r@) == fold_prefix(vals(t@), vals(zs@)),
        r@.len() == pow2((dim_of(t@.len()) - zs@.len()) as nat),
{
    let ghost n = dim_of(t@.len());
    let ghost t0 = vals(t@);
    let mut cur = t;
    let mut j: usize = 0;
    proof {
        assert(vals(zs@).subrange(0, 0) =~= Seq::<int>::empty());
    }
    while j < zs.len()
        invariant
            j <= zs@.len(),
            zs@.len() <= n,
            cur@.len() == pow2((n - j) as nat),
            vals(cur@) == fold_prefix(t0, vals(zs@).subrange(0, j as int)),
        decreases zs@.len() - j,
    {
        proof {
            lemma_dim_of_pow2((n - j) as nat);
            assert(pow2((n - j) as nat) == 2 * pow2((n - j - 1) as nat));
            assert(vals(zs@).subrange(0, j + 1).drop_last() =~= vals(zs@).subrange(0, j as int));
            assert(vals(cur@).len() == cur@.len());
        }
        cur = partial_evaluate(cur, 0, zs[j]);
        proof {
            assert(vals(cur@).len() == cur@.len());
        }
        j = j + 1;
    }
    proof {
        assert(vals(zs@).subrange(0, j as int) =~= vals(zs@));
    }
    cur
}

/// The tables `w[b] + w[c]` and `w[b] * w[c]` over `(b, c)`.
fn pair_tables(w: &Vec<Fq>) -> (r: (Vec<Fq>, Vec<Fq>))
    requires
        w@.len() <= 0x8000,
    ensures
        vals(r.0@) == pair_sum(vals(w@)),
        vals(r.1@) == pair_prod(vals(w@)),
{
    let n = w.len();
    let ghost g = vals(w@);
    let mut sums: Vec<Fq> = Vec::new();
    let mut prods: Vec<Fq> = Vec::new();
    let mut b: usize = 0;
    while b < n
        invariant
            b <= n,
            n == w@.len(),
            n <= 0x8000,
            g == vals(w@),
            sums@.len() == b * n,
            prods@.len() == b * n,
            forall|k: int| 0 <= k < b * n ==> (#[trigger] sums@[k]).val() == fadd(g[k / n as int], g[k % n as int]),
            forall|k: int| 0 <= k < b * n ==> (#[trigger] prods@[k]).val() == fmul(g[k / n as int], g[k % n as int]),
        decreases n - b,
    {
        let mut c: usize = 0;
        while c < n
            invariant
                c <= n,
                b < n,
                n == w@.len(),
                n <= 0x8000,
                g == vals(w@),
                sums@.len() == b * n + c,
                prods@.len() == b * n + c,
                forall|k: int| 0 <= k < b * n + c ==> (#[trigger] sums@[k]).val() == fadd(g[k / n as int], g[k % n as int]),
                forall|k: int| 0 <= k < b * n + c ==> (#[trigger] prods@[k]).val() == fmul(g[k / n as int], g[k % n as int]),
            decreases n - c,
        {
            proof {
                let k = b * n + c;
                vstd::arithmetic::div_mod::lemma_fundamental_div_mod_converse(k as int, n as int, b as int, c as int);
                assert(b * n + c < n * n) by (nonlinear_arith)
                    requires
                        b < n,
                        c < n,
                ;
            }
            sums.push(w[b].add(&w[c]));
            prods.push(w[b].mul(&w[c]));
            c = c + 1;
        }
        proof {
            assert((b + 1) * n == b * n + n) by (nonlinear_arith);
        }
        b = b + 1;
    }
    assert(vals(sums@) =~= pair_sum(g));
    assert(vals(prods@) =~= pair_prod(g));
    (sums, prods)
}

impl Circuit {
    /// The layer's wiring predicates `add_i` and `mul_i`: over the
    /// `gate_index_combinations(layer_index)` index bits, one at each gate's
    /// wiring index in the table of its operation, zero elsewhere.
    /// Layer indices stay below 10: layer 10's wiring tables would hold
    /// `2^32` entries of 32 bytes each.
    pub fn add_i_n_mul_i_arrays(&self, layer_index: usize) -> (r: Result<
        (MultilinearPolynomial, MultilinearPolynomial),
        GkrError,
    >)
        requires
            layer_index < 10,
        ensures
            match r {
                Ok((a, m)) => {
                    let gates = self.gates()[layer_index as int];
                    let size = pow2((output_bits(layer_index as nat) + 2 * (layer_index + 1)) as nat);
                    &&& layer_index < self.layers@.len()
                    &&& all_fit(gates, layer_index as nat)
                    &&& a.table().len() == size
                    &&& m.table().len() == size
                    &&& forall|i: int|
                        0 <= i < size ==> #[trigger] a.table()[i] == wiring_entry(
                            gates,
                            gates.len() as int,
                            layer_index as nat,
                            Op::Add,
                            i,
                        )
                    &&& forall|i: int|
                        0 <= i < size ==> #[trigger] m.table()[i] == wiring_entry(
                            gates,
                            gates.len() as int,
                            layer_index as nat,
                            Op::Mul,
                            i,
                        )
                },
                Err(e) => e == GkrError::InvalidWiring && !(layer_index < self.layers@.len()
                    && all_fit(self.gates()[layer_index as int], layer_index as nat)),
            },
    {
        if layer_index >= self.layers.len() {
            return Err(GkrError::InvalidWiring);
        }
        let gates = &self.layers[layer_index].gates;
        let ghost gs = gates@;
        let ghost l = layer_index as nat;
        assert(gs == self.gates()[layer_index as int]);
        let bits = gate_index_combinations(layer_index);
        let out_cap = power_of_two(if layer_index == 0 {
            1
        } else {
            layer_index
        });
        let side = power_of_two(layer_index + 1);
        let mut k: usize = 0;
        while k < gates.len()
            invariant
                k <= gates@.len(),
                gs == gates@,
                gs == self.gates()[layer_index as int],
                out_cap == pow2(output_bits(l)),
                side == pow2(l + 1),
                l == layer_index,
                forall|j: int| 0 <= j < k ==> fits(l, (#[trigger] gs[j]).output as nat, gs[j].left as nat, gs[j].right as nat),
            decreases gates@.len() - k,
        {
            let g = gates[k];
            if g.output >= out_cap || g.left >= side || g.right >= side {
                proof {
                    assert(!all_fit(gs, l)) by {
                        assert(gs[k as int] == g);
                    }
                }
                return Err(GkrError::InvalidWiring);
            }
            k = k + 1;
        }
        let size = power_of_two(bits);
        let mut add_values = vec![Fq::zero(); size];
        let mut mul_values = vec![Fq::zero(); size];
        let mut k: usize = 0;
        while k < gates.len()
            invariant
                k <= gates@.len(),
                gs == gates@,
                l == layer_index,
                l < 10,
                all_fit(gs, l),
                size == pow2((output_bits(l) + 2 * (l + 1)) as nat),
                add_values@.len() == size,
                mul_values@.len() == size,
                forall|i: int| 0 <= i < size ==> (#[trigger] add_values@[i]).val() == wiring_entry(gs, k as int, l, Op::Add, i),
                forall|i: int| 0 <= i < size ==> (#[trigger] mul_values@[i]).val() == wiring_entry(gs, k as int, l, Op::Mul, i),
            decreases gates@.len() - k,
        {
            let g = gates[k];
            assert(gs[k as int] == g);
            assert(fits(l, g.output as nat, g.left as nat, g.right as nat));
            proof {
                crate::circuit::lemma_pow2_mono((output_bits(l) + 2 * (l + 1)) as nat, 31);
                crate::circuit::lemma_pow2_small();
            }
            let idx = match arrange_gate_index(layer_index, g.output, g.left, g.right) {
                Ok(i) => i,
                Err(e) => {
                    return Err(e);
                },
            };
            let ghost old_add = add_values@;
            let ghost old_mul = mul_values@;
            match g.op {
                Op::Add => {
                    add_values.set(idx, Fq::one());
                },
                Op::Mul => {
                    mul_values.set(idx, Fq::one());
                },
            }
            proof {
                assert forall|i: int| 0 <= i < size implies (#[trigger] add_values@[i]).val() == wiring_entry(gs, k + 1, l, Op::Add, i) by {
                    lemma_entry_step(gs, k as int, l, Op::Add, i);
                    if g.op == Op::Add && i == idx {
                        assert(gs[k as int].op == Op::Add);
                    } else {
                        assert(add_values@[i] == old_add[i]);
                    }
                }
                assert forall|i: int| 0 <= i < size implies (#[trigger] mul_values@[i]).val() == wiring_entry(gs, k + 1, l, Op::Mul, i) by {
                    lemma_entry_step(gs, k as int, l, Op::Mul, i);
                    if g.op == Op::Mul && i == idx {
                        assert(gs[k as int].op == Op::Mul);
                    } else {
                        assert(mul_values@[i] == old_mul[i]);
                    }
                }
            }
            k = k + 1;
        }
        let a = MultilinearPolynomial::new(add_values);
        let m = MultilinearPolynomial::new(mul_values);
        proof {
            assert(a.table().len() == size);
            assert(m.table().len() == size);
        }
        Ok((a, m))
    }

    /// The sumcheck target of the first layer: the wiring predicates with
    /// their output coordinates fixed to `a_s`, against the next layer's
    /// values `W`: `add(a_s, b, c) * (W(b) + W(c)) + mul(a_s, b, c) * W(b) * W(c)`.
    /// Layer indices stay below 10: layer 10's wiring tables would hold
    /// `2^32` entries of 32 bytes each.
    pub fn f_b_c(&self, layer_index: usize, a_s: &Vec<Fq>) -> (r: Result<SumPoly, GkrError>)
        requires
            layer_index < 10,
        ensures
            match r {
                Ok(p) => self.target_ok(layer_index as nat, a_s@.len()) && p.terms()
                    == target_terms(
                    fold_prefix(self.wiring_table(layer_index as nat, Op::Add), vals(a_s@)),
                    fold_prefix(self.wiring_table(layer_index as nat, Op::Mul), vals(a_s@)),
                    self.next_table(layer_index as nat),
                ),
                Err(_) => !self.target_ok(layer_index as nat, a_s@.len()),
            },
    {
        let (add, mul) = match self.add_i_n_mul_i_arrays(layer_index) {
            Ok(pair) => pair,
            Err(e) => {
                return Err(e);
            },
        };
        let l = layer_index;
        if a_s.len() != (if l == 0 {
            1
        } else {
            l
        }) {
            return Err(GkrError::InvalidArity);
        }
        let w = match self.w_i_polynomial(layer_index + 1) {
            Ok(w) => w,
            Err(e) => {
                return Err(e);
            },
        };
        let side = power_of_two(layer_index + 1);
        if w.coefficients.len() != side {
            return Err(GkrError::DimensionMismatch);
        }
        proof {
            lemma_wiring_dims(l as nat);
        }
        let ghost add_t = add.table();
        let ghost mul_t = mul.table();
        assert(vals(add.coefficients@).len() == add.coefficients@.len());
        assert(vals(mul.coefficients@).len() == mul.coefficients@.len());
        let add_bc = fold_points(add.coefficients, a_s);
        let mul_bc = fold_points(mul.coefficients, a_s);
        let (sums, prods) = pair_tables(&w.coefficients);
        let p = SumPoly::new(
            vec![
                ProductPoly::new(vec![MultilinearPolynomial::new(add_bc), MultilinearPolynomial::new(sums)]),
                ProductPoly::new(vec![MultilinearPolynomial::new(mul_bc), MultilinearPolynomial::new(prods)]),
            ],
        );
        proof {
            assert(add_t =~= self.wiring_table(l as nat, Op::Add));
            assert(mul_t =~= self.wiring_table(l as nat, Op::Mul));
            let tt = target_terms(fold_prefix(add_t, vals(a_s@)), fold_prefix(mul_t, vals(a_s@)), w.table());
            assert(p.terms() =~~= tt);
        }
        Ok(p)
    }
}

impl Circuit {
    /// The sumcheck target of a later layer, merging the two claims of the
    /// layer above: the wiring predicates with their output coordinates fixed
    /// to `rb` and to `rc`, combined as `alpha * (at rb) + beta * (at rc)`.
    /// Layer indices stay below 10: layer 10's wiring tables would hold
    /// `2^32` entries of 32 bytes each.
    pub fn f_b_c_merged(
        &self,
        layer_index: usize,
        alpha: Fq,
        beta: Fq,
        rb: &Vec<Fq>,
        rc: &Vec<Fq>,
    ) -> (r: Result<SumPoly, GkrError>)
        requires
            layer_index < 10,
        ensures
            match r {
                Ok(p) => self.target_ok(layer_index as nat, rb@.len()) && rc@.len() == rb@.len()
                    && p.terms() == target_terms(
                    combine(
                        fold_prefix(self.wiring_table(layer_index as nat, Op::Add), vals(rb@)),
                        fold_prefix(self.wiring_table(layer_index as nat, Op::Add), vals(rc@)),
                        alpha.val(),
                        beta.val(),
                    ),
                    combine(
                        fold_prefix(self.wiring_table(layer_index as nat, Op::Mul), vals(rb@)),
                        fold_prefix(self.wiring_table(layer_index as nat, Op::Mul), vals(rc@)),
                        alpha.val(),
                        beta.val(),
                    ),
                    self.next_table(layer_index as nat),
                ),
                Err(_) => !(self.target_ok(layer_index as nat, rb@.len()) && rc@.len()
                    == rb@.len()),
            },
    {
        let (add, mul) = match self.add_i_n_mul_i_arrays(layer_index) {
            Ok(pair) => pair,
            Err(e) => {
                return Err(e);
            },
        };
        let l = layer_index;
        let width = if l == 0 {
            1
        } else {
            l
        };
        if rb.len() != width || rc.len() != width {
            return Err(GkrError::InvalidArity);
        }
        let w = match self.w_i_polynomial(layer_index + 1) {
            Ok(w) => w,
            Err(e) => {
                return Err(e);
            },
        };
        let side = power_of_two(layer_index + 1);
        if w.coefficients.len() != side {
            return Err(GkrError::DimensionMismatch);
        }
        proof {
            lemma_wiring_dims(l as nat);
        }
        let ghost add_t = add.table();
        let ghost mul_t = mul.table();
        assert(vals(add.coefficients@).len() == add.coefficients@.len());
        assert(vals(mul.coefficients@).len() == mul.coefficients@.len());
        let add_copy = add.coefficients.clone();
        let mul_copy = mul.coefficients.clone();
        let add_b = fold_points(add_copy, rb);
        let add_c = fold_points(add.coefficients, rc);
        let mul_b = fold_points(mul_copy, rb);
        let mul_c = fold_points(mul.coefficients, rc);
        let add_comb = combine_tables(&add_b, &add_c, alpha, beta);
        let mul_comb = combine_tables(&mul_b, &mul_c, alpha, beta);
        let (sums, prods) = pair_tables(&w.coefficients);
        let p = SumPoly::new(
            vec![
                ProductPoly::new(vec![MultilinearPolynomial::new(add_comb), MultilinearPolynomial::new(sums)]),
                ProductPoly::new(vec![MultilinearPolynomial::new(mul_comb), MultilinearPolynomial::new(prods)]),
            ],
        );
        proof {
            assert(add_t =~= self.wiring_table(l as nat, Op::Add));
            assert(mul_t =~= self.wiring_table(l as nat, Op::Mul));
            let tt = target_terms(
                combine(fold_prefix(add_t, vals(rb@)), fold_prefix(add_t, vals(rc@)), alpha.val(), beta.val()),
                combine(fold_prefix(mul_t, vals(rb@)), fold_prefix(mul_t, vals(rc@)), alpha.val(), beta.val()),
                w.table(),
            );
            assert(p.terms() =~~= tt);
        }
        Ok(p)
    }
}

/// The entrywise combination `a * x + b * y` of two tables of one length.
fn combine_tables(x: &Vec<Fq>, y: &Vec<Fq>, a: Fq, b: Fq) -> (r: Vec<Fq>)
    requires
        x@.len() == y@.len(),
    ensures
        vals(r@) == combine(vals(x@), vals(y@), a.val(), b.val()),
{
    let mut out: Vec<Fq> = Vec::new();
    let mut k: usize = 0;
    while k < x.len()
        invariant
            k <= x@.len(),
            x@.len() == y@.len(),
            out@.len() == k,
            forall|j: int| 0 <= j < k ==> (#[trigger] out@[j]).val() == fadd(fmul(a.val(), x@[j].val()), fmul(b.val(), y@[j].val())),
        decreases x@.len() - k,
    {
        out.push(a.mul(&x[k]).add(&b.mul(&y[k])));
        k = k + 1;
    }
    assert(vals(out@) =~= combine(vals(x@), vals(y@), a.val(), b.val()));
    out
}

impl Circuit {
    /// The wiring predicate table of layer `l` for one operation.
    pub open spec fn wiring_table(&self, l: nat, op: Op) -> Seq<int> {
        let gates = self.gates()[l as int];
        Seq::new(
            pow2((output_bits(l) + 2 * (l + 1)) as nat),
            |i: int| wiring_entry(gates, gates.len() as int, l, op, i),
        )
    }

    /// The stored output of layer `l + 1` (the inputs below the last
    /// layer), padded.
    pub open spec fn next_table(&self, l: nat) -> Seq<int> {
        padded(
            if l + 1 == self.outputs@.len() {
                vals(self.inputs@)
            } else {
                vals(self.outputs@[l + 1 as int]@)
            },
        )
    }

    /// Layer `l`'s target can be built with `n_points` output coordinates:
    /// the layer exists and its gates fit the index widths, the point has
    /// one coordinate per output bit, and the next layer's values are
    /// stored and number `2^(l + 1)`.
    pub open spec fn target_ok(&self, l: nat, n_points: nat) -> bool {
        &&& l < self.layers@.len()
        &&& all_fit(self.gates()[l as int], l)
        &&& n_points == output_bits(l)
        &&& l + 1 <= self.outputs@.len()
        &&& self.next_table(l).len() == pow2(l + 1)
    }
}

/// Folding `k` coordinates of a `2^m` table leaves `2^(m - k)` entries.
pub proof fn lemma_fold_prefix_len(t: Seq<int>, zs: Seq<int>, m: nat)
    requires
        t.len() == pow2(m),
        zs.len() <= m,
    ensures
        fold_prefix(t, zs).len() == pow2((m - zs.len()) as nat),
    decreases zs.len(),
{
    if zs.len() > 0 {
        lemma_fold_prefix_len(t, zs.drop_last(), m);
        let k = zs.len();
        assert(pow2((m - (k - 1)) as nat) == 2 * pow2((m - k) as nat));
    }
}

/// A layer's target, with tables of `2^(2(l + 1))` entries and next-layer
/// values of `2^(l + 1)`, is ready for the sumcheck, in `2(l + 1)` variables.
pub proof fn lemma_target_ready(add: Seq<int>, mul: Seq<int>, w: Seq<int>, l: nat)
    requires
        add.len() == pow2(2 * (l + 1)),
        mul.len() == pow2(2 * (l + 1)),
        w.len() == pow2(l + 1),
    ensures
        crate::sumcheck::ready(target_terms(add, mul, w)),
        crate::poly::n_vars(target_terms(add, mul, w)) == 2 * (l + 1),
{
    let ts = target_terms(add, mul, w);
    crate::mle::lemma_pow2_add(l + 1, l + 1);
    assert((l + 1 + (l + 1)) as nat == 2 * (l + 1));
    assert(pair_sum(w).len() == add.len());
    assert(pair_prod(w).len() == add.len());
    lemma_dim_of_pow2(2 * (l + 1));
    assert(ts[0][0] == add);
    assert(crate::poly::well_shaped(ts)) by {
        assert forall|t: int| 0 <= t < ts.len() implies (#[trigger] ts[t]).len() > 0 && crate::poly::uniform(ts[t], ts[0][0].len()) by {
            assert(ts[t].len() == 2);
            assert forall|j: int| 0 <= j < ts[t].len() implies (#[trigger] ts[t][j]).len() == ts[0][0].len() by {
                if t == 0 {
                    if j == 1 {
                        assert(ts[t][j] == pair_sum(w));
                    }
                } else {
                    if j == 0 {
                        assert(ts[t][j] == mul);
                    } else {
                        assert(ts[t][j] == pair_prod(w));
                    }
                }
            }
        }
    }
}

/// A layer's target has two factors in each of its two terms.
pub proof fn lemma_target_factors(add: Seq<int>, mul: Seq<int>, w: Seq<int>)
    ensures
        crate::sumcheck::max_factors(target_terms(add, mul, w)) == 2,
{
    let ts = target_terms(add, mul, w);
    assert(ts.drop_last() =~= seq![seq![add, pair_sum(w)]]);
    assert(ts.drop_last().drop_last() =~= Seq::<Seq<Seq<int>>>::empty());
    assert(ts.drop_last().last().len() == 2);
    assert(ts.last().len() == 2);
    reveal_with_fuel(crate::sumcheck::max_factors, 3);
}

/// Checks every layer's target can be built: `target_ok` for each layer
/// with its number of output bits.
/// Layer indices stay below 10: layer 10's wiring tables would hold
/// `2^32` entries of 32 bytes each.
pub fn layers_ready(c: &Circuit) -> (r: bool)
    requires
        c.layers@.len() <= 10,
        c.outputs@.len() == c.layers@.len(),
    ensures
        r == forall|l: int| 0 <= l < c.layers@.len() ==> #[trigger] c.target_ok(l as nat, output_bits(l as nat)),
{
    let depth = c.layers.len();
    let mut l: usize = 0;
    while l < depth
        invariant
            l <= depth,
            depth == c.layers@.len(),
            depth <= 10,
            c.outputs@.len() == depth,
            forall|j: int| 0 <= j < l ==> #[trigger] c.target_ok(j as nat, output_bits(j as nat)),
        decreases depth - l,
    {
        let li: Ghost<int> = Ghost(l as int);
        match c.add_i_n_mul_i_arrays(l) {
            Ok(_) => {},
            Err(_) => {
                proof {
                    assert(!c.target_ok(li@ as nat, output_bits(li@ as nat)));
                }
                return false;
            },
        }
        let w = match c.w_i_polynomial(l + 1) {
            Ok(w) => w,
            Err(_) => {
                return false;
            },
        };
        assert(w.table() == c.next_table(l as nat));
        if w.coefficients.len() != power_of_two(l + 1) {
            proof {
                assert(!c.target_ok(li@ as nat, output_bits(li@ as nat)));
            }
            return false;
        }
        proof {
            assert(c.target_ok(li@ as nat, output_bits(li@ as nat)));
        }
        l = l + 1;
    }
    true
}

proof fn lemma_wiring_dims(l: nat)
    requires
        l < 10,
    ensures
        is_pow2(pow2((output_bits(l) + 2 * (l + 1)) as nat)),
        dim_of(pow2((output_bits(l) + 2 * (l + 1)) as nat)) == output_bits(l) + 2 * (l + 1),
        pow2(l + 1) <= 0x8000,
{
    lemma_dim_of_pow2((output_bits(l) + 2 * (l + 1)) as nat);
    lemma_pow2_below(l + 1);
    crate::circuit::lemma_pow2_mono(l + 1, 15);
    reveal_with_fuel(pow2, 16);
}

/// Adding gate `k` changes the entry at its own index of its own table only.
proof fn lemma_entry_step(gs: Seq<Gate>, k: int, l: nat, op: Op, i: int)
    requires
        0 <= k < gs.len(),
    ensures
        wiring_entry(gs, k + 1, l, op, i) == if gs[k].op == op && wiring_index(
            l,
            gs[k].output as nat,
            gs[k].left as nat,
            gs[k].right as nat,
        ) == i {
            1
        } else {
            wiring_entry(gs, k, l, op, i)
        },
{
    if gs[k].op == op && wiring_index(l, gs[k].output as nat, gs[k].left as nat, gs[k].right as nat) == i {
        assert(gs[k].op == op);
    } else {
        if exists|j: int|
            0 <= j < k + 1 && (#[trigger] gs[j]).op == op && wiring_index(
                l,
                gs[j].output as nat,
                gs[j].left as nat,
                gs[j].right as nat,
            ) == i {
            let j = choose|j: int|
                0 <= j < k + 1 && (#[trigger] gs[j]).op == op && wiring_index(
                    l,
                    gs[j].output as nat,
                    gs[j].left as nat,
                    gs[j].right as nat,
                ) == i;
            assert(j < k);
        }
    }
}

} // verus!
