use crate::error::GkrError;
use crate::field::{fadd, fmul, Fq};
use crate::mle::{
    bytes_of, dim_of, eval, fold, is_pow2, partial_evaluate, pow2, vals,
    MultilinearPolynomial,
};
use vstd::prelude::*;

verus! {

/// Why a table of length `len` cannot be evaluated at a point of `n`
/// coordinates, if it cannot.
pub open spec fn fit_error(len: nat, n: nat) -> Option<GkrError> {
    if !is_pow2(len) {
        Some(GkrError::DimensionMismatch)
    } else if n != dim_of(len) {
        Some(GkrError::InvalidArity)
    } else {
        None
    }
}

/// The first table, in order, that does not fit `n` coordinates.
pub open spec fn first_error(fs: Seq<Seq<int>>, n: nat) -> Option<GkrError>
    decreases fs.len(),
{
    if fs.len() == 0 {
        None
    } else if first_error(fs.drop_last(), n) is Some {
        first_error(fs.drop_last(), n)
    } else {
        fit_error(fs.last().len(), n)
    }
}

pub open spec fn first_term_error(ts: Seq<Seq<Seq<int>>>, n: nat) -> Option<GkrError>
    decreases ts.len(),
{
    if ts.len() == 0 {
        None
    } else if first_term_error(ts.drop_last(), n) is Some {
        first_term_error(ts.drop_last(), n)
    } else {
        first_error(ts.last(), n)
    }
}

/// The product of the factors' values at a point.
pub open spec fn prod_eval(fs: Seq<Seq<int>>, p: Seq<int>) -> int
    decreases fs.len(),
{
    if fs.len() == 0 {
        1
    } else {
        fmul(prod_eval(fs.drop_last(), p), eval(fs.last(), p))
    }
}

/// The sum over the terms of their products' values at a point.
pub open spec fn sum_eval(ts: Seq<Seq<Seq<int>>>, p: Seq<int>) -> int
    decreases ts.len(),
{
    if ts.len() == 0 {
        0
    } else {
        fadd(sum_eval(ts.drop_last(), p), prod_eval(ts.last(), p))
    }
}

/// The product of the factors' entries at position `i`.
pub open spec fn prod_at(fs: Seq<Seq<int>>, i: int) -> int
    decreases fs.len(),
{
    if fs.len() == 0 {
        1
    } else {
        fmul(prod_at(fs.drop_last(), i), fs.last()[i])
    }
}

/// The sum over the terms of their products' entries at position `i`.
pub open spec fn sum_at(ts: Seq<Seq<Seq<int>>>, i: int) -> int
    decreases ts.len(),
{
    if ts.len() == 0 {
        0
    } else {
        fadd(sum_at(ts.drop_last(), i), prod_at(ts.last(), i))
    }
}

/// Every factor has `len` entries.
pub open spec fn uniform(fs: Seq<Seq<int>>, len: nat) -> bool {
    forall|j: int| 0 <= j < fs.len() ==> (#[trigger] fs[j]).len() == len
}

pub open spec fn uniform_terms(ts: Seq<Seq<Seq<int>>>, len: nat) -> bool {
    forall|t: int| 0 <= t < ts.len() ==> uniform(#[trigger] ts[t], len)
}

pub open spec fn fold_each(fs: Seq<Seq<int>>, n: nat, i: nat, r: int) -> Seq<Seq<int>> {
    Seq::new(fs.len(), |j: int| fold(fs[j], n, i, r))
}

pub open spec fn fold_terms(ts: Seq<Seq<Seq<int>>>, n: nat, i: nat, r: int) -> Seq<
    Seq<Seq<int>>,
> {
    Seq::new(ts.len(), |t: int| fold_each(ts[t], n, i, r))
}

pub open spec fn tables_of(ms: Seq<MultilinearPolynomial>) -> Seq<Seq<int>> {
    ms.map_values(|m: MultilinearPolynomial| m.table())
}

pub open spec fn terms_of(ps: Seq<ProductPoly>) -> Seq<Seq<Seq<int>>> {
    ps.map_values(|p: ProductPoly| p.tables())
}

pub open spec fn factor_bytes(ms: Seq<MultilinearPolynomial>) -> Seq<u8>
    decreases ms.len(),
{
    if ms.len() == 0 {
        Seq::empty()
    } else {
        factor_bytes(ms.drop_last()) + bytes_of(ms.last().coefficients@)
    }
}

pub open spec fn term_bytes(ps: Seq<ProductPoly>) -> Seq<u8>
    decreases ps.len(),
{
    if ps.len() == 0 {
        Seq::empty()
    } else {
        term_bytes(ps.drop_last()) + factor_bytes(ps.last().poly_coefficients@)
    }
}

/// The pointwise product of multilinear polynomials over one hypercube.
#[derive(Clone, Debug)]
pub struct ProductPoly {
    pub poly_coefficients: Vec<MultilinearPolynomial>,
}

impl ProductPoly {
    pub open spec fn tables(&self) -> Seq<Seq<int>> {
        tables_of(self.poly_coefficients@)
    }

    pub fn new(poly_coefficients: Vec<MultilinearPolynomial>) -> (r: Self)
        ensures
            r.poly_coefficients@ == poly_coefficients@,
    {
        ProductPoly { poly_coefficients }
    }

    /// The number of variables of the first factor, which all factors share.
    pub fn degree(&self) -> (r: usize)
        requires
            self.poly_coefficients@.len() > 0,
        ensures
            self.poly_coefficients@[0].coefficients@.len() <= pow2(r as nat),
            r == 0 || pow2((r - 1) as nat) < self.poly_coefficients@[0].coefficients@.len(),
    {
        self.poly_coefficients[0].dimension()
    }

    /// The product of the factors' values at `eval_points`.
    pub fn evaluate(&self, eval_points: &Vec<Fq>) -> (r: Result<Fq, GkrError>)
        ensures
            match r {
                Ok(v) => first_error(self.tables(), eval_points@.len()) is None && v.val()
                    == prod_eval(self.tables(), vals(eval_points@)),
                Err(e) => first_error(self.tables(), eval_points@.len()) == Some(e),
            },
    {
        let ghost fs = self.tables();
        let ghost n = eval_points@.len();
        let mut result = Fq::one();
        let mut j: usize = 0;
        while j < self.poly_coefficients.len()
            invariant
                j <= self.poly_coefficients@.len(),
                fs == self.tables(),
                n == eval_points@.len(),
                first_error(fs.subrange(0, j as int), n) is None,
                result.val() == prod_eval(fs.subrange(0, j as int), vals(eval_points@)),
            decreases self.poly_coefficients@.len() - j,
        {
            proof {
                assert(fs.subrange(0, j + 1).drop_last() =~= fs.subrange(0, j as int));
            }
            match self.poly_coefficients[j].evaluate(eval_points) {
                Ok(v) => {
                    result = result.mul(&v);
                },
                Err(e) => {
                    proof {
                        lemma_first_error_prefix(fs, n, j + 1);
                    }
                    return Err(e);
                },
            }
            j = j + 1;
        }
        proof {
            assert(fs.subrange(0, fs.len() as int) =~= fs);
        }
        Ok(result)
    }

    /// Folds coordinate `index` of every factor at `eval_point`.
    pub fn partial_evaluate(&self, index: usize, eval_point: Fq) -> (r: ProductPoly)
        requires
            uniform(self.tables(), pow2(dim_of(self.poly_coefficients@[0].coefficients@.len()))),
            self.poly_coefficients@.len() > 0,
            index < dim_of(self.poly_coefficients@[0].coefficients@.len()),
        ensures
            r.tables() == fold_each(
                self.tables(),
                dim_of(self.poly_coefficients@[0].coefficients@.len()),
                index as nat,
                eval_point.val(),
            ),
    {
        let ghost fs = self.tables();
        let ghost len0 = self.poly_coefficients@[0].coefficients@.len();
        let ghost n = dim_of(len0);
        let mut out: Vec<MultilinearPolynomial> = Vec::new();
        let mut j: usize = 0;
        while j < self.poly_coefficients.len()
            invariant
                j <= self.poly_coefficients@.len(),
                fs == self.tables(),
                uniform(fs, pow2(n)),
                n == dim_of(len0),
                index < n,
                out@.len() == j,
                forall|x: int| 0 <= x < j ==> (#[trigger] out@[x]).table() == fold(fs[x], n, index as nat, eval_point.val()),
            decreases self.poly_coefficients@.len() - j,
        {
            let c = self.poly_coefficients[j].coefficients.clone();
            proof {
                assert(fs[j as int] == vals(self.poly_coefficients@[j as int].coefficients@));
                assert(vals(c@).len() == c@.len());
                crate::mle::lemma_dim_of_pow2(n);
            }
            let folded = partial_evaluate(c, index, eval_point);
            out.push(MultilinearPolynomial::new(folded));
            j = j + 1;
        }
        let r = ProductPoly::new(out);
        assert(r.tables() =~= fold_each(fs, n, index as nat, eval_point.val()));
        r
    }

    /// Adds the two factors entry by entry.
    pub fn sum_reduce(&self) -> (r: MultilinearPolynomial)
        requires
            self.poly_coefficients@.len() == 2,
            uniform(self.tables(), self.poly_coefficients@[0].coefficients@.len()),
            is_pow2(self.poly_coefficients@[0].coefficients@.len()),
        ensures
            r.table().len() == self.tables()[0].len(),
            forall|i: int|
                0 <= i < r.table().len() ==> #[trigger] r.table()[i] == fadd(
                    self.tables()[0][i],
                    self.tables()[1][i],
                ),
    {
        let ghost fs = self.tables();
        let first = &self.poly_coefficients[0].coefficients;
        let second = &self.poly_coefficients[1].coefficients;
        proof {
            assert(fs[1].len() == fs[0].len());
            assert(vals(first@).len() == first@.len());
            assert(vals(second@).len() == second@.len());
        }
        let mut out: Vec<Fq> = Vec::new();
        let mut i: usize = 0;
        while i < first.len()
            invariant
                i <= first@.len(),
                first@.len() == second@.len(),
                fs == self.tables(),
                self.poly_coefficients@.len() >= 2,
                first == &self.poly_coefficients@[0].coefficients,
                second == &self.poly_coefficients@[1].coefficients,
                out@.len() == i,
                forall|x: int| 0 <= x < i ==> (#[trigger] out@[x]).val() == fadd(fs[0][x], fs[1][x]),
            decreases first@.len() - i,
        {
            proof {
                assert(fs[0] == vals(first@));
                assert(fs[1] == vals(second@));
                assert(fs[0][i as int] == first@[i as int].val());
                assert(fs[1][i as int] == second@[i as int].val());
            }
            out.push(first[i].add(&second[i]));
            i = i + 1;
        }
        let r = MultilinearPolynomial::new(out);
        assert(vals(r.coefficients@).len() == r.coefficients@.len());
        r
    }

    /// Multiplies all factors entry by entry.
    pub fn product_reduce(&self) -> (r: Result<MultilinearPolynomial, GkrError>)
        ensures
            match r {
                Ok(m) => self.poly_coefficients@.len() > 0 && uniform(
                    self.tables(),
                    self.tables()[0].len(),
                ) && m.table().len() == self.tables()[0].len() && forall|i: int|
                    0 <= i < m.table().len() ==> #[trigger] m.table()[i] == prod_at(
                        self.tables(),
                        i,
                    ),
                Err(e) => e == GkrError::DimensionMismatch && !(self.poly_coefficients@.len()
                    > 0 && uniform(self.tables(), self.tables()[0].len())),
            },
    {
        let ghost fs = self.tables();
        if self.poly_coefficients.len() == 0 {
            return Err(GkrError::DimensionMismatch);
        }
        let len = self.poly_coefficients[0].coefficients.len();
        let mut j: usize = 0;
        while j < self.poly_coefficients.len()
            invariant
                j <= self.poly_coefficients@.len(),
                fs == self.tables(),
                self.poly_coefficients@.len() > 0,
                len == fs[0].len(),
                forall|x: int| 0 <= x < j ==> (#[trigger] fs[x]).len() == len,
            decreases self.poly_coefficients@.len() - j,
        {
            assert(fs[j as int].len() == self.poly_coefficients@[j as int].coefficients@.len());
            if self.poly_coefficients[j].coefficients.len() != len {
                return Err(GkrError::DimensionMismatch);
            }
            j = j + 1;
        }
        let mut out: Vec<Fq> = Vec::new();
        let mut i: usize = 0;
        while i < len
            invariant
                i <= len,
                fs == self.tables(),
                uniform(fs, len as nat),
                self.poly_coefficients@.len() > 0,
                len == fs[0].len(),
                out@.len() == i,
                forall|x: int| 0 <= x < i ==> (#[trigger] out@[x]).val() == prod_at(fs, x),
            decreases len - i,
        {
            let mut acc = Fq::one();
            let mut j: usize = 0;
            while j < self.poly_coefficients.len()
                invariant
                    j <= self.poly_coefficients@.len(),
                    i < len,
                    fs == self.tables(),
                    uniform(fs, len as nat),
                    acc.val() == prod_at(fs.subrange(0, j as int), i as int),
                decreases self.poly_coefficients@.len() - j,
            {
                proof {
                    assert(fs.subrange(0, j + 1).drop_last() =~= fs.subrange(0, j as int));
                    assert(fs[j as int].len() == len);
                    assert(fs[j as int] == vals(self.poly_coefficients@[j as int].coefficients@));
                }
                acc = acc.mul(&self.poly_coefficients[j].coefficients[i]);
                j = j + 1;
            }
            proof {
                assert(fs.subrange(0, fs.len() as int) =~= fs);
            }
            out.push(acc);
            i = i + 1;
        }
        let m = MultilinearPolynomial::new(out);
        assert(vals(m.coefficients@).len() == m.coefficients@.len());
        Ok(m)
    }

    /// The factors' encodings, concatenated in order.
    pub fn convert_to_bytes(&self) -> (r: Vec<u8>)
        ensures
            r@ == factor_bytes(self.poly_coefficients@),
    {
        let mut out: Vec<u8> = Vec::new();
        let mut j: usize = 0;
        while j < self.poly_coefficients.len()
            invariant
                j <= self.poly_coefficients@.len(),
                out@ == factor_bytes(self.poly_coefficients@.subrange(0, j as int)),
            decreases self.poly_coefficients@.len() - j,
        {
            let mut b = self.poly_coefficients[j].convert_to_bytes();
            proof {
                assert(self.poly_coefficients@.subrange(0, j + 1).drop_last()
                    =~= self.poly_coefficients@.subrange(0, j as int));
            }
            out.append(&mut b);
            j = j + 1;
        }
        assert(self.poly_coefficients@.subrange(0, j as int) =~= self.poly_coefficients@);
        out
    }
}

/// The first error is the first in a prefix, once that prefix has one.
proof fn lemma_first_error_prefix(fs: Seq<Seq<int>>, n: nat, k: int)
    requires
        0 <= k <= fs.len(),
        first_error(fs.subrange(0, k), n) is Some,
    ensures
        first_error(fs, n) == first_error(fs.subrange(0, k), n),
    decreases fs.len() - k,
{
    if k < fs.len() {
        assert(fs.subrange(0, k + 1).drop_last() =~= fs.subrange(0, k));
        lemma_first_error_prefix(fs, n, k + 1);
    } else {
        assert(fs.subrange(0, k) =~= fs);
    }
}

proof fn lemma_first_term_error_prefix(ts: Seq<Seq<Seq<int>>>, n: nat, k: int)
    requires
        0 <= k <= ts.len(),
        first_term_error(ts.subrange(0, k), n) is Some,
    ensures
        first_term_error(ts, n) == first_term_error(ts.subrange(0, k), n),
    decreases ts.len() - k,
{
    if k < ts.len() {
        assert(ts.subrange(0, k + 1).drop_last() =~= ts.subrange(0, k));
        lemma_first_term_error_prefix(ts, n, k + 1);
    } else {
        assert(ts.subrange(0, k) =~= ts);
    }
}

/// A sum of products of multilinear polynomials: the sumcheck target.
#[derive(Clone, Debug)]
pub struct SumPoly {
    pub product_polys: Vec<ProductPoly>,
}

impl SumPoly {
    pub open spec fn terms(&self) -> Seq<Seq<Seq<int>>> {
        terms_of(self.product_polys@)
    }

    pub fn new(product_polys: Vec<ProductPoly>) -> (r: Self)
        ensures
            r.product_polys@ == product_polys@,
    {
        SumPoly { product_polys }
    }

    /// The number of variables of the first term's first factor.
    pub fn degree(&self) -> (r: usize)
        requires
            self.product_polys@.len() > 0,
            self.product_polys@[0].poly_coefficients@.len() > 0,
        ensures
            self.product_polys@[0].poly_coefficients@[0].coefficients@.len() <= pow2(r as nat),
            r == 0 || pow2((r - 1) as nat)
                < self.product_polys@[0].poly_coefficients@[0].coefficients@.len(),
    {
        self.product_polys[0].degree()
    }

    /// The sum of the terms' values at `eval_points`.
    pub fn evaluate(&self, eval_points: &Vec<Fq>) -> (r: Result<Fq, GkrError>)
        ensures
            match r {
                Ok(v) => first_term_error(self.terms(), eval_points@.len()) is None && v.val()
                    == sum_eval(self.terms(), vals(eval_points@)),
                Err(e) => first_term_error(self.terms(), eval_points@.len()) == Some(e),
            },
    {
        let ghost ts = self.terms();
        let ghost n = eval_points@.len();
        let mut result = Fq::zero();
        let mut t: usize = 0;
        while t < self.product_polys.len()
            invariant
                t <= self.product_polys@.len(),
                ts == self.terms(),
                n == eval_points@.len(),
                first_term_error(ts.subrange(0, t as int), n) is None,
                result.val() == sum_eval(ts.subrange(0, t as int), vals(eval_points@)),
            decreases self.product_polys@.len() - t,
        {
            proof {
                assert(ts.subrange(0, t + 1).drop_last() =~= ts.subrange(0, t as int));
            }
            match self.product_polys[t].evaluate(eval_points) {
                Ok(v) => {
                    result = result.add(&v);
                },
                Err(e) => {
                    proof {
                        lemma_first_term_error_prefix(ts, n, t + 1);
                    }
                    return Err(e);
                },
            }
            t = t + 1;
        }
        proof {
            assert(ts.subrange(0, ts.len() as int) =~= ts);
        }
        Ok(result)
    }

    pub fn add_polynomial(&mut self, poly: ProductPoly)
        ensures
            final(self).product_polys@ == old(self).product_polys@.push(poly),
    {
        self.product_polys.push(poly);
    }

    pub fn add_polynomials(&mut self, polys: Vec<ProductPoly>)
        ensures
            final(self).product_polys@ == old(self).product_polys@ + polys@,
    {
        let mut polys = polys;
        self.product_polys.append(&mut polys);
    }

    /// The terms' encodings, concatenated in order.
    pub fn convert_to_bytes(&self) -> (r: Vec<u8>)
        ensures
            r@ == term_bytes(self.product_polys@),
    {
        let mut out: Vec<u8> = Vec::new();
        let mut t: usize = 0;
        while t < self.product_polys.len()
            invariant
                t <= self.product_polys@.len(),
                out@ == term_bytes(self.product_polys@.subrange(0, t as int)),
            decreases self.product_polys@.len() - t,
        {
            let mut b = self.product_polys[t].convert_to_bytes();
            proof {
                assert(self.product_polys@.subrange(0, t + 1).drop_last()
                    =~= self.product_polys@.subrange(0, t as int));
            }
            out.append(&mut b);
            t = t + 1;
        }
        assert(self.product_polys@.subrange(0, t as int) =~= self.product_polys@);
        out
    }

    /// Folds coordinate `index` of every factor of every term at `eval_point`.
    pub fn partial_evaluate(&self, index: usize, eval_point: Fq) -> (r: SumPoly)
        requires
            self.terms().len() > 0,
            uniform_terms(self.terms(), pow2(n_vars(self.terms()))),
            forall|t: int| 0 <= t < self.terms().len() ==> (#[trigger] self.terms()[t]).len() > 0,
            index < n_vars(self.terms()),
        ensures
            r.terms() == fold_terms(self.terms(), n_vars(self.terms()), index as nat, eval_point.val()),
    {
        let ghost ts = self.terms();
        let ghost n = n_vars(ts);
        let mut out: Vec<ProductPoly> = Vec::new();
        let mut t: usize = 0;
        while t < self.product_polys.len()
            invariant
                t <= self.product_polys@.len(),
                ts == self.terms(),
                n == n_vars(ts),
                index < n,
                uniform_terms(ts, pow2(n)),
                forall|x: int| 0 <= x < ts.len() ==> (#[trigger] ts[x]).len() > 0,
                out@.len() == t,
                forall|x: int| 0 <= x < t ==> (#[trigger] out@[x]).tables() == fold_each(ts[x], n, index as nat, eval_point.val()),
            decreases self.product_polys@.len() - t,
        {
            proof {
                let fs = ts[t as int];
                assert(fs == self.product_polys@[t as int].tables());
                assert(uniform(fs, pow2(n)));
                assert(fs[0].len() == pow2(n));
                assert(fs[0] == vals(self.product_polys@[t as int].poly_coefficients@[0].coefficients@));
                assert(vals(self.product_polys@[t as int].poly_coefficients@[0].coefficients@).len()
                    == self.product_polys@[t as int].poly_coefficients@[0].coefficients@.len());
                crate::mle::lemma_dim_of_pow2(n);
            }
            let p = self.product_polys[t].partial_evaluate(index, eval_point);
            out.push(p);
            t = t + 1;
        }
        let r = SumPoly::new(out);
        assert(r.terms() =~= fold_terms(ts, n, index as nat, eval_point.val()));
        r
    }

    /// A copy with the same tables.
    pub fn duplicate(&self) -> (r: SumPoly)
        ensures
            r.terms() == self.terms(),
    {
        let mut out: Vec<ProductPoly> = Vec::new();
        let mut t: usize = 0;
        while t < self.product_polys.len()
            invariant
                t <= self.product_polys@.len(),
                out@.len() == t,
                forall|x: int| 0 <= x < t ==> (#[trigger] out@[x]).tables() == self.product_polys@[x].tables(),
            decreases self.product_polys@.len() - t,
        {
            let fs = &self.product_polys[t].poly_coefficients;
            let mut copies: Vec<MultilinearPolynomial> = Vec::new();
            let mut j: usize = 0;
            while j < fs.len()
                invariant
                    j <= fs@.len(),
                    copies@.len() == j,
                    forall|y: int| 0 <= y < j ==> (#[trigger] copies@[y]).coefficients@ == fs@[y].coefficients@,
                decreases fs@.len() - j,
            {
                let c = fs[j].coefficients.clone();
                copies.push(MultilinearPolynomial::new(c));
                j = j + 1;
            }
            let p = ProductPoly::new(copies);
            assert(p.tables() =~= self.product_polys@[t as int].tables());
            out.push(p);
            t = t + 1;
        }
        let r = SumPoly::new(out);
        assert(r.terms() =~= self.terms());
        r
    }

    /// Reduces every term to the entrywise product of its factors and adds
    /// the terms entry by entry: the one factor of the result holds, at each
    /// position, the sum over the terms of their products there.
    pub fn sum_reduce(&self) -> (r: Result<ProductPoly, GkrError>)
        ensures
            match r {
                Ok(p) => self.terms().len() > 0 && well_shaped(self.terms())
                    && p.poly_coefficients@.len() == 1 && p.tables()[0].len()
                    == self.terms()[0][0].len() && forall|i: int|
                    0 <= i < p.tables()[0].len() ==> #[trigger] p.tables()[0][i] == sum_at(
                        self.terms(),
                        i,
                    ),
                Err(e) => e == GkrError::DimensionMismatch && !(self.terms().len() > 0
                    && well_shaped(self.terms())),
            },
    {
        let ghost ts = self.terms();
        if self.product_polys.len() == 0 {
            return Err(GkrError::DimensionMismatch);
        }
        let mut reduced: Vec<MultilinearPolynomial> = Vec::new();
        let mut t: usize = 0;
        while t < self.product_polys.len()
            invariant
                t <= self.product_polys@.len(),
                ts == self.terms(),
                ts.len() > 0,
                reduced@.len() == t,
                forall|x: int| 0 <= x < t ==> (#[trigger] ts[x]).len() > 0 && uniform(ts[x], ts[x][0].len()),
                forall|x: int| 0 <= x < t ==> (#[trigger] reduced@[x]).table().len() == ts[x][0].len(),
                forall|x: int, i: int|
                    0 <= x < t && 0 <= i < ts[x][0].len() ==> #[trigger] reduced@[x].table()[i] == prod_at(ts[x], i),
                forall|x: int| 0 <= x < t ==> (#[trigger] ts[x])[0].len() == ts[0][0].len(),
            decreases self.product_polys@.len() - t,
        {
            match self.product_polys[t].product_reduce() {
                Ok(m) => {
                    let ml = m.coefficients.len();
                    assert(m.table().len() == ml);
                    if t > 0 && ml != reduced[0].coefficients.len() {
                        proof {
                            assert(reduced@[0].table().len() == reduced@[0].coefficients@.len());
                            assert(!well_shaped(ts)) by {
                                if well_shaped(ts) {
                                    assert(ts[t as int][0].len() == ts[0][0].len());
                                }
                            }
                        }
                        return Err(GkrError::DimensionMismatch);
                    }
                    proof {
                        if t > 0 {
                            assert(reduced@[0].table().len() == reduced@[0].coefficients@.len());
                        }
                    }
                    reduced.push(m);
                },
                Err(e) => {
                    proof {
                        assert(!well_shaped(ts)) by {
                            if well_shaped(ts) {
                                assert(ts[t as int] == self.product_polys@[t as int].tables());
                            }
                        }
                    }
                    return Err(e);
                },
            }
            t = t + 1;
        }
        let len = reduced[0].coefficients.len();
        assert(reduced@[0].table().len() == len);
        let mut out: Vec<Fq> = Vec::new();
        let mut i: usize = 0;
        while i < len
            invariant
                i <= len,
                ts == self.terms(),
                ts.len() > 0,
                len == ts[0][0].len(),
                reduced@.len() == ts.len(),
                forall|x: int| 0 <= x < ts.len() ==> (#[trigger] ts[x]).len() > 0 && uniform(ts[x], ts[x][0].len()),
                forall|x: int| 0 <= x < ts.len() ==> (#[trigger] reduced@[x]).table().len() == ts[x][0].len(),
                forall|x: int, i: int|
                    0 <= x < ts.len() && 0 <= i < ts[x][0].len() ==> #[trigger] reduced@[x].table()[i] == prod_at(ts[x], i),
                forall|x: int| 0 <= x < ts.len() ==> (#[trigger] ts[x])[0].len() == ts[0][0].len(),
                out@.len() == i,
                forall|x: int| 0 <= x < i ==> (#[trigger] out@[x]).val() == sum_at(ts, x),
            decreases len - i,
        {
            let mut acc = Fq::zero();
            let mut t: usize = 0;
            while t < reduced.len()
                invariant
                    t <= reduced@.len(),
                    i < len,
                    reduced@.len() == ts.len(),
                    len == ts[0][0].len(),
                    forall|x: int| 0 <= x < ts.len() ==> (#[trigger] reduced@[x]).table().len() == ts[x][0].len(),
                    forall|x: int, i: int|
                        0 <= x < ts.len() && 0 <= i < ts[x][0].len() ==> #[trigger] reduced@[x].table()[i] == prod_at(ts[x], i),
                    forall|x: int| 0 <= x < ts.len() ==> (#[trigger] ts[x])[0].len() == ts[0][0].len(),
                    acc.val() == sum_at(ts.subrange(0, t as int), i as int),
                decreases reduced@.len() - t,
            {
                proof {
                    assert(ts.subrange(0, t + 1).drop_last() =~= ts.subrange(0, t as int));
                    assert(reduced@[t as int].table().len() == reduced@[t as int].coefficients@.len());
                    assert(reduced@[t as int].table()[i as int] == reduced@[t as int].coefficients@[i as int].val());
                }
                acc = acc.add(&reduced[t].coefficients[i]);
                t = t + 1;
            }
            proof {
                assert(ts.subrange(0, ts.len() as int) =~= ts);
            }
            out.push(acc);
            i = i + 1;
        }
        let m = MultilinearPolynomial::new(out);
        let r = ProductPoly::new(vec![m]);
        proof {
            assert(vals(m.coefficients@).len() == m.coefficients@.len());
            assert(r.tables()[0] == m.table());
            assert(well_shaped(ts)) by {
                assert forall|x: int| 0 <= x < ts.len() implies (#[trigger] ts[x]).len() > 0 && uniform(ts[x], ts[0][0].len()) by {
                    assert(ts[x][0].len() == ts[0][0].len());
                }
            }
        }
        Ok(r)
    }
}

/// Every term has a factor, and all factors of all terms have the same length.
pub open spec fn well_shaped(ts: Seq<Seq<Seq<int>>>) -> bool {
    ts.len() > 0 && forall|t: int| 0 <= t < ts.len() ==> (#[trigger] ts[t]).len() > 0 && uniform(ts[t], ts[0][0].len())
}

/// The number of variables of a sum of products: that of its first table.
pub open spec fn n_vars(ts: Seq<Seq<Seq<int>>>) -> nat {
    dim_of(ts[0][0].len())
}

} // verus!
