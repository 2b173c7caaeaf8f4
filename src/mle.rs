use crate::error::GkrError;
use crate::field::{be_bytes, fadd, fmul, fsub, modulus, Fq};
use vstd::arithmetic::div_mod::*;
use vstd::prelude::*;

verus! {

pub open spec fn pow2(n: nat) -> nat
    decreases n,
{
    if n == 0 {
        1
    } else {
        2 * pow2((n - 1) as nat)
    }
}

/// The floor of the base-2 logarithm (zero for lengths below two).
pub open spec fn dim_of(len: nat) -> nat
    decreases len,
{
    if len <= 1 {
        0
    } else {
        1 + dim_of(len / 2)
    }
}

/// A table over a Boolean hypercube has power-of-two length.
pub open spec fn is_pow2(len: nat) -> bool {
    len == pow2(dim_of(len))
}

/// The integers that a sequence of field elements stands for.
pub open spec fn vals(s: Seq<Fq>) -> Seq<int> {
    s.map_values(|x: Fq| x.val())
}

/// The affine interpolation `x + r * (y - x)` in the field.
pub open spec fn lerp(x: int, y: int, r: int) -> int {
    fadd(x, fmul(r, fsub(y, x)))
}

/// The position of the `k`-th pair's first entry, for pairs `stride` apart.
pub open spec fn low_index(k: int, stride: int) -> int {
    (k / stride) * (2 * stride) + k % stride
}

/// Fixing coordinate `i` (coordinate 0 is the most significant index bit) of
/// an `n`-dimensional table to `r`: each pair of entries that differ only in
/// that coordinate, `(v0, v1)`, becomes `v0 + r * (v1 - v0)`.
pub open spec fn fold(t: Seq<int>, n: nat, i: nat, r: int) -> Seq<int> {
    let s = pow2((n - 1 - i) as nat) as int;
    Seq::new(t.len() / 2, |k: int| lerp(t[low_index(k, s)], t[low_index(k, s) + s], r))
}

/// The multilinear extension of table `t` at `p`, one coordinate per entry of
/// `p`, folding coordinate 0 each time.
pub open spec fn eval(t: Seq<int>, p: Seq<int>) -> int
    decreases p.len(),
{
    if p.len() == 0 {
        t[0]
    } else {
        eval(fold(t, p.len(), 0, p[0]), p.drop_first())
    }
}

pub proof fn lemma_pow2_pos(n: nat)
    ensures
        pow2(n) >= 1,
    decreases n,
{
    if n > 0 {
        lemma_pow2_pos((n - 1) as nat);
    }
}

pub proof fn lemma_pow2_gt(n: nat)
    ensures
        pow2(n) > n,
    decreases n,
{
    if n > 0 {
        lemma_pow2_gt((n - 1) as nat);
    }
}

pub proof fn lemma_pow2_add(a: nat, b: nat)
    ensures
        pow2(a + b) == pow2(a) * pow2(b),
    decreases a,
{
    if a > 0 {
        let a1 = (a - 1) as nat;
        lemma_pow2_add(a1, b);
        assert(pow2(a + b) == 2 * pow2(a1 + b));
        assert(pow2(a) == 2 * pow2(a1));
        assert(pow2(a) * pow2(b) == 2 * (pow2(a1) * pow2(b))) by (nonlinear_arith)
            requires
                pow2(a) == 2 * pow2(a1),
        ;
    } else {
        assert(pow2(a) == 1);
        assert(a + b == b);
    }
}

pub proof fn lemma_dim_of_pow2(n: nat)
    ensures
        dim_of(pow2(n)) == n,
    decreases n,
{
    if n > 0 {
        lemma_pow2_pos((n - 1) as nat);
        lemma_dim_of_pow2((n - 1) as nat);
        assert(pow2(n) / 2 == pow2((n - 1) as nat));
    }
}

/// The pair positions of a fold stay inside the table.
proof fn lemma_low_index_bounds(k: int, s: int, b: int)
    requires
        0 <= k < b * s,
        s > 0,
    ensures
        0 <= low_index(k, s),
        low_index(k, s) + s < 2 * b * s,
        k % s < s,
        (k / s) * (2 * s) <= low_index(k, s),
{
    let q = k / s;
    let m = k % s;
    lemma_fundamental_div_mod(k, s);
    lemma_mod_bound(k, s);
    assert(q >= 0) by (nonlinear_arith)
        requires
            k == s * q + m,
            0 <= m < s,
            k >= 0,
    ;
    assert(q < b) by (nonlinear_arith)
        requires
            k == s * q + m,
            0 <= m,
            k < b * s,
            s > 0,
    ;
    assert(q * (2 * s) + m + s < 2 * b * s) by (nonlinear_arith)
        requires
            q + 1 <= b,
            m < s,
            s > 0,
    ;
    assert(q * (2 * s) >= 0) by (nonlinear_arith)
        requires
            q >= 0,
            s > 0,
    ;
}

/// The exact dimension of a table, when its length is a power of two.
pub fn table_dim(len: usize) -> (r: Option<usize>)
    ensures
        match r {
            Some(n) => is_pow2(len as nat) && n == dim_of(len as nat),
            None => !is_pow2(len as nat),
        },
{
    let mut m: usize = len;
    let mut d: usize = 0;
    proof {
        assert(pow2(0) == 1);
    }
    while m > 1
        invariant
            len as nat == m as nat * pow2(d as nat),
            dim_of(len as nat) == d + dim_of(m as nat),
            m <= len,
        decreases m,
    {
        if m % 2 != 0 {
            proof {
                lemma_pow2_add(d as nat, dim_of(m as nat));
                lemma_pow2_pos(d as nat);
                let e = dim_of(m as nat);
                assert(e >= 1);
                assert(pow2(e) == 2 * pow2((e - 1) as nat));
                if len as nat == pow2(dim_of(len as nat)) {
                    assert(dim_of(len as nat) == (d as nat + e) as nat);
                    assert(pow2((d as nat + e) as nat) == pow2(d as nat) * pow2(e));
                    assert(pow2(d as nat) * pow2(e) == pow2(e) * pow2(d as nat)) by (nonlinear_arith);
                    assert(m as nat * pow2(d as nat) == pow2(e) * pow2(d as nat));
                    assert(m as nat == pow2(e)) by (nonlinear_arith)
                        requires
                            m as nat * pow2(d as nat) == pow2(e) * pow2(d as nat),
                            pow2(d as nat) >= 1,
                    ;
                }
            }
            return None;
        }
        proof {
            assert(m as nat * pow2(d as nat) == (m / 2) as nat * pow2((d + 1) as nat)) by (
            nonlinear_arith)
                requires
                    m % 2 == 0,
                    pow2((d + 1) as nat) == 2 * pow2(d as nat),
            ;
            lemma_pow2_gt(d as nat);
            assert(m as nat * pow2(d as nat) >= 2 * pow2(d as nat)) by (nonlinear_arith)
                requires
                    m >= 2,
            ;
        }
        m = m / 2;
        d = d + 1;
    }
    if m == 1 {
        Some(d)
    } else {
        proof {
            lemma_pow2_pos(dim_of(len as nat));
        }
        None
    }
}

/// Folds coordinate `index` of a table of `2^n` entries at `eval_point`,
/// halving its length.
pub fn partial_evaluate(points: Vec<Fq>, index: usize, eval_point: Fq) -> (r: Vec<Fq>)
    requires
        is_pow2(points@.len()),
        index < dim_of(points@.len()),
    ensures
        vals(r@) == fold(vals(points@), dim_of(points@.len()), index as nat, eval_point.val()),
{
    let ghost n = dim_of(points@.len());
    let len = points.len();
    let half = len / 2;
    proof {
        lemma_pow2_add(index as nat, (n - 1 - index) as nat);
        lemma_pow2_pos(index as nat);
        lemma_pow2_pos((n - 1 - index) as nat);
        assert(pow2(n) == 2 * pow2((n - 1) as nat));
        assert((index + (n - 1 - index)) as nat == (n - 1) as nat);
    }
    let mut s = half;
    let mut j: usize = 0;
    while j < index
        invariant
            j <= index,
            index < n,
            s as nat == pow2((n - 1 - j) as nat),
        decreases index - j,
    {
        proof {
            assert(pow2((n - 1 - j) as nat) == 2 * pow2((n - 1 - (j + 1)) as nat));
        }
        s = s / 2;
        j = j + 1;
    }
    let ghost b = pow2(index as nat) as int;
    assert(half as int == b * s as int);
    let ghost t = vals(points@);
    let mut out: Vec<Fq> = Vec::new();
    let mut k: usize = 0;
    while k < half
        invariant
            k <= half,
            half as int == b * s as int,
            b >= 1,
            len == points@.len(),
            half == len / 2,
            len == 2 * half,
            s > 0,
            t == vals(points@),
            s as nat == pow2((n - 1 - index) as nat),
            out@.len() == k,
            forall|x: int|
                0 <= x < k ==> out@[x].val() == lerp(
                    t[low_index(x, s as int)],
                    t[low_index(x, s as int) + s as int],
                    eval_point.val(),
                ),
        decreases half - k,
    {
        proof {
            lemma_low_index_bounds(k as int, s as int, b);
            lemma_pow2_pos(index as nat);
            assert(s <= half) by (nonlinear_arith)
                requires
                    half as int == b * s as int,
                    b >= 1,
                    s > 0,
            ;
        }
        let q = k / s;
        assert((q as int) * (2 * s as int) <= low_index(k as int, s as int));
        assert(2 * b * s == 2 * (b * s)) by (nonlinear_arith);
        assert(low_index(k as int, s as int) + s < len);
        let i0 = q * (2 * s) + k % s;
        let x = points[i0];
        let y = points[i0 + s];
        let v = x.add(&eval_point.mul(&y.sub(&x)));
        out.push(v);
        k = k + 1;
    }
    assert(vals(out@) =~= fold(t, n, index as nat, eval_point.val()));
    out
}

/// Fixing the last coordinate to the last value of `p`, then the one before,
/// down to coordinate 0.
pub open spec fn fold_back(t: Seq<int>, p: Seq<int>) -> Seq<int>
    decreases p.len(),
{
    if p.len() == 0 {
        t
    } else {
        fold_back(fold(t, p.len(), (p.len() - 1) as nat, p.last()), p.drop_last())
    }
}

/// Evaluates the table at `evaluations` by folding its coordinates from the
/// last to the first; the result is the one remaining entry.
pub fn total_evaluate(points: Vec<Fq>, evaluations: Vec<Fq>) -> (r: Vec<Fq>)
    requires
        is_pow2(points@.len()),
        evaluations@.len() == dim_of(points@.len()),
    ensures
        vals(r@) == fold_back(vals(points@), vals(evaluations@)),
        vals(r@) == seq![eval(vals(points@), vals(evaluations@))],
        r@.len() == 1,
{
    let n = evaluations.len();
    let ghost p = vals(evaluations@);
    let mut cur = points;
    let mut i: usize = 0;
    proof {
        assert(p.subrange(0, n as int) =~= p);
    }
    while i < n
        invariant
            i <= n,
            n == evaluations@.len(),
            p == vals(evaluations@),
            cur@.len() == pow2((n - i) as nat),
            fold_back(vals(cur@), p.subrange(0, (n - i) as int)) == fold_back(vals(points@), p),
        decreases n - i,
    {
        let k = n - 1 - i;
        proof {
            lemma_dim_of_pow2((n - i) as nat);
            let q = p.subrange(0, (n - i) as int);
            assert(q.drop_last() =~= p.subrange(0, k as int));
            assert(q.last() == evaluations@[k as int].val());
            assert(pow2((n - i) as nat) / 2 == pow2((n - i - 1) as nat));
            assert(vals(cur@).len() == cur@.len());
        }
        cur = partial_evaluate(cur, k, evaluations[k]);
        proof {
            assert(vals(cur@).len() == cur@.len());
        }
        i = i + 1;
    }
    proof {
        assert(p.subrange(0, 0) =~= Seq::<int>::empty());
        lemma_fold_back_is_eval(vals(points@), p);
    }
    cur
}

/// `(x + M mod P) mod P == (x + M) mod P`.
pub proof fn lemma_mod_add_right(x: int, m: int)
    ensures
        (x + m % modulus()) % modulus() == (x + m) % modulus(),
{
    let p = modulus();
    lemma_fundamental_div_mod(m, p);
    assert(x + m == p * (m / p) + (x + m % p)) by (nonlinear_arith)
        requires
            m == p * (m / p) + m % p,
    ;
    lemma_mod_multiples_vanish(m / p, x + m % p, p);
}

/// The field's interpolation is the integer one, reduced.
pub proof fn lemma_lerp_exact(x: int, y: int, r: int)
    ensures
        lerp(x, y, r) == (x + r * (y - x)) % modulus(),
{
    let p = modulus();
    lemma_mul_mod_noop_general(r, y - x, p);
    assert(fmul(r, fsub(y, x)) == (r * (y - x)) % p);
    lemma_mod_add_right(x, r * (y - x));
}

/// Interpolating between reduced values reduces the integer interpolation.
proof fn lemma_lerp_of_reduced(a: int, b: int, r: int)
    ensures
        lerp(a % modulus(), b % modulus(), r) == (a + r * (b - a)) % modulus(),
{
    let p = modulus();
    lemma_lerp_exact(a % p, b % p, r);
    lemma_fundamental_div_mod(a, p);
    lemma_fundamental_div_mod(b, p);
    let qa = a / p;
    let qb = b / p;
    let a1 = a % p;
    let b1 = b % p;
    assert(a + r * (b - a) == p * (qa + r * (qb - qa)) + (a1 + r * (b1 - a1))) by (nonlinear_arith)
        requires
            a == p * qa + a1,
            b == p * qb + b1,
    ;
    lemma_mod_multiples_vanish(qa + r * (qb - qa), a1 + r * (b1 - a1), p);
}

/// Bilinear interpolation does not depend on which axis goes first.
proof fn lemma_lerp_commute(w: int, x: int, y: int, z: int, a: int, b: int)
    ensures
        lerp(lerp(w, x, b), lerp(y, z, b), a) == lerp(lerp(w, y, a), lerp(x, z, a), b),
{
    lemma_lerp_exact(w, x, b);
    lemma_lerp_exact(y, z, b);
    lemma_lerp_exact(w, y, a);
    lemma_lerp_exact(x, z, a);
    let l1 = w + b * (x - w);
    let l2 = y + b * (z - y);
    let m1 = w + a * (y - w);
    let m2 = x + a * (z - x);
    lemma_lerp_of_reduced(l1, l2, a);
    lemma_lerp_of_reduced(m1, m2, b);
    assert(l1 + a * (l2 - l1) == m1 + b * (m2 - m1)) by (nonlinear_arith)
        requires
            l1 == w + b * (x - w),
            l2 == y + b * (z - y),
            m1 == w + a * (y - w),
            m2 == x + a * (z - x),
    ;
}

/// Pairs at a stride that divides `q` shift by `2q` when the pair number
/// shifts by `q`.
proof fn lemma_low_index_shift(k: int, s: int, m: int)
    requires
        s > 0,
        m >= 0,
        k >= 0,
    ensures
        low_index(k + s * m, s) == low_index(k, s) + 2 * (s * m),
{
    lemma_fundamental_div_mod(k, s);
    lemma_mod_bound(k, s);
    assert(k + s * m == s * (k / s + m) + k % s) by (nonlinear_arith)
        requires
            k == s * (k / s) + k % s,
    ;
    lemma_fundamental_div_mod_converse(k + s * m, s, k / s + m, k % s);
    assert((k / s + m) * (2 * s) == (k / s) * (2 * s) + 2 * (s * m)) by (nonlinear_arith);
}

/// Folding coordinate 0 and then coordinate `i - 1` equals folding
/// coordinate `i` and then coordinate 0.
pub proof fn lemma_fold_commute(t: Seq<int>, n: nat, i: nat, a: int, b: int)
    requires
        t.len() == pow2(n),
        1 <= i < n,
    ensures
        fold(fold(t, n, i, b), (n - 1) as nat, 0, a) == fold(fold(t, n, 0, a), (n - 1) as nat, (i - 1) as nat, b),
{
    let s = pow2((n - 1 - i) as nat) as int;
    let hh = pow2((n - 1) as nat) as int;
    let q = pow2((n - 2) as nat) as int;
    let m = pow2((i - 1) as nat) as int;
    lemma_pow2_pos((n - 1 - i) as nat);
    lemma_pow2_pos((i - 1) as nat);
    lemma_pow2_add((n - 1 - i) as nat, (i - 1) as nat);
    assert(((n - 1 - i) + (i - 1)) as nat == (n - 2) as nat);
    assert(q == s * m);
    assert(hh == 2 * q);
    assert(pow2(n) == 2 * hh);
    assert(pow2(((n - 1) - 1 - (i - 1)) as nat) == s) by {
        assert(((n - 1) - 1 - (i - 1)) as nat == (n - 1 - i) as nat);
    }
    assert(pow2(((n - 1) - 1 - 0) as nat) == q) by {
        assert(((n - 1) - 1 - 0) as nat == (n - 2) as nat);
    }
    assert(pow2((n - 1 - 0) as nat) == hh);
    let v = fold(t, n, i, b);
    let u = fold(t, n, 0, a);
    let lhs = fold(v, (n - 1) as nat, 0, a);
    let rhs = fold(u, (n - 1) as nat, (i - 1) as nat, b);
    assert(v.len() == hh);
    assert(u.len() == hh);
    assert(lhs.len() == q);
    assert(rhs.len() == q);
    assert forall|k: int| 0 <= k < q implies #[trigger] lhs[k] == rhs[k] by {
        assert(k < m * s) by (nonlinear_arith)
            requires
                k < q,
                q == s * m,
        ;
        lemma_low_index_bounds(k, s, m);
        let j = low_index(k, s);
        assert(2 * m * s == 2 * (s * m)) by (nonlinear_arith);
        assert(j + s < hh);
        // Coordinate 0 of the folded table pairs k with k + q.
        lemma_fundamental_div_mod_converse(k, q, 0, k);
        assert(low_index(k, q) == k);
        lemma_low_index_shift(k, s, m);
        assert(low_index(k + q, s) == j + hh);
        // Coordinate 0 of the whole table pairs j with j + hh.
        lemma_fundamental_div_mod_converse(j, hh, 0, j);
        lemma_fundamental_div_mod_converse(j + s, hh, 0, j + s);
        assert(low_index(j, hh) == j);
        assert(low_index(j + s, hh) == j + s);
        assert(lhs[k] == lerp(v[k], v[k + q], a));
        assert(v[k] == lerp(t[j], t[j + s], b));
        assert(v[k + q] == lerp(t[j + hh], t[j + hh + s], b));
        assert(rhs[k] == lerp(u[j], u[j + s], b));
        assert(u[j] == lerp(t[j], t[j + hh], a));
        assert(u[j + s] == lerp(t[j + s], t[j + s + hh], a));
        lemma_lerp_commute(t[j], t[j + s], t[j + hh], t[j + hh + s], a, b);
    }
    assert(lhs =~= rhs);
}

/// Folding two coordinates `i < j` commutes: fixing `i` first moves `j` to
/// position `j - 1`.
pub proof fn lemma_fold_pair_commute(t: Seq<int>, n: nat, i: nat, j: nat, r: int, s: int)
    requires
        t.len() == pow2(n),
        i < j < n,
    ensures
        fold(fold(t, n, i, r), (n - 1) as nat, (j - 1) as nat, s) == fold(
            fold(t, n, j, s),
            (n - 1) as nat,
            i,
            r,
        ),
{
    let sl = pow2((n - 1 - j) as nat) as int;
    let md = pow2((j - i - 1) as nat) as int;
    let si = pow2((n - 1 - i) as nat) as int;
    let q = pow2((n - 2 - i) as nat) as int;
    let hb = pow2(i) as int;
    lemma_pow2_pos((n - 1 - j) as nat);
    lemma_pow2_pos((j - i - 1) as nat);
    lemma_pow2_pos(i);
    lemma_pow2_add((n - 1 - j) as nat, (j - i - 1) as nat);
    assert(((n - 1 - j) + (j - i - 1)) as nat == (n - 2 - i) as nat);
    assert(q == sl * md);
    assert(si == 2 * q);
    lemma_pow2_add(i, (n - 2 - i) as nat);
    assert((i + (n - 2 - i)) as nat == (n - 2) as nat);
    assert(pow2((n - 2) as nat) == hb * q);
    assert(pow2((n - 1) as nat) == 2 * pow2((n - 2) as nat));
    assert(pow2(n) == 2 * pow2((n - 1) as nat));
    assert(pow2(((n - 1) - 1 - (j - 1)) as nat) == sl) by {
        assert(((n - 1) - 1 - (j - 1)) as nat == (n - 1 - j) as nat);
    }
    assert(pow2(((n - 1) - 1 - i) as nat) == q) by {
        assert(((n - 1) - 1 - i) as nat == (n - 2 - i) as nat);
    }
    let v = fold(t, n, i, r);
    let u = fold(t, n, j, s);
    let lhs = fold(v, (n - 1) as nat, (j - 1) as nat, s);
    let rhs = fold(u, (n - 1) as nat, i, r);
    assert(lhs.len() == hb * q);
    assert(rhs.len() == hb * q);
    assert forall|k: int| 0 <= k < hb * q implies #[trigger] lhs[k] == rhs[k] by {
        let hi = k / q;
        let rem = k % q;
        let mid = rem / sl;
        let lo = rem % sl;
        lemma_fundamental_div_mod(k, q);
        lemma_mod_bound(k, q);
        lemma_fundamental_div_mod(rem, sl);
        lemma_mod_bound(rem, sl);
        assert(0 <= hi < hb) by (nonlinear_arith)
            requires
                k == q * hi + rem,
                0 <= rem < q,
                0 <= k < hb * q,
        ;
        assert(0 <= mid < md) by (nonlinear_arith)
            requires
                rem == sl * mid + lo,
                0 <= lo < sl,
                0 <= rem < q,
                q == sl * md,
        ;
        let a = hi * (2 * si) + mid * (2 * sl) + lo;
        // Fixing coordinate j - 1 of v pairs m1 with m1 + sl.
        let m1 = hi * si + mid * (2 * sl) + lo;
        assert(k == sl * (hi * md + mid) + lo) by (nonlinear_arith)
            requires
                k == q * hi + rem,
                rem == sl * mid + lo,
                q == sl * md,
        ;
        lemma_fundamental_div_mod_converse(k, sl, hi * md + mid, lo);
        assert(low_index(k, sl) == m1) by (nonlinear_arith)
            requires
                low_index(k, sl) == (k / sl) * (2 * sl) + k % sl,
                k / sl == hi * md + mid,
                k % sl == lo,
                m1 == hi * si + mid * (2 * sl) + lo,
                si == 2 * (sl * md),
        ;
        assert((mid + 1) * (2 * sl) <= md * (2 * sl)) by (nonlinear_arith)
            requires
                mid + 1 <= md,
                sl > 0,
        ;
        assert(mid * (2 * sl) + lo + sl < si) by (nonlinear_arith)
            requires
                (mid + 1) * (2 * sl) <= md * (2 * sl),
                lo < sl,
                si == 2 * (sl * md),
        ;
        assert(mid * (2 * sl) + lo >= 0) by (nonlinear_arith)
            requires
                mid >= 0,
                lo >= 0,
                sl > 0,
        ;
        lemma_fundamental_div_mod_converse(m1, si, hi, mid * (2 * sl) + lo);
        lemma_fundamental_div_mod_converse(m1 + sl, si, hi, mid * (2 * sl) + lo + sl);
        assert(low_index(m1, si) == a);
        assert(low_index(m1 + sl, si) == a + sl);
        // Fixing coordinate i of u pairs m2 with m2 + q.
        let m2 = hi * si + mid * sl + lo;
        lemma_fundamental_div_mod_converse(k, q, hi, rem);
        assert(low_index(k, q) == m2) by (nonlinear_arith)
            requires
                low_index(k, q) == (k / q) * (2 * q) + k % q,
                k / q == hi,
                k % q == rem,
                rem == sl * mid + lo,
                m2 == hi * si + mid * sl + lo,
                si == 2 * q,
        ;
        assert(m2 == sl * (hi * 2 * md + mid) + lo) by (nonlinear_arith)
            requires
                m2 == hi * si + mid * sl + lo,
                si == 2 * (sl * md),
        ;
        assert(m2 + q == sl * (hi * 2 * md + mid + md) + lo) by (nonlinear_arith)
            requires
                m2 == sl * (hi * 2 * md + mid) + lo,
                q == sl * md,
        ;
        lemma_fundamental_div_mod_converse(m2, sl, hi * 2 * md + mid, lo);
        lemma_fundamental_div_mod_converse(m2 + q, sl, hi * 2 * md + mid + md, lo);
        assert(low_index(m2, sl) == a) by (nonlinear_arith)
            requires
                low_index(m2, sl) == (m2 / sl) * (2 * sl) + m2 % sl,
                m2 / sl == hi * 2 * md + mid,
                m2 % sl == lo,
                a == hi * (2 * si) + mid * (2 * sl) + lo,
                si == 2 * (sl * md),
        ;
        assert(low_index(m2 + q, sl) == a + si) by (nonlinear_arith)
            requires
                low_index(m2 + q, sl) == ((m2 + q) / sl) * (2 * sl) + (m2 + q) % sl,
                (m2 + q) / sl == hi * 2 * md + mid + md,
                (m2 + q) % sl == lo,
                a == hi * (2 * si) + mid * (2 * sl) + lo,
                si == 2 * (sl * md),
        ;
        // Every position stays inside its table.
        assert((hi + 1) * si <= hb * si) by (nonlinear_arith)
            requires
                hi + 1 <= hb,
                si > 0,
        ;
        assert((mid + 1) * sl <= md * sl) by (nonlinear_arith)
            requires
                mid + 1 <= md,
                sl > 0,
        ;
        assert(mid * sl + lo + q < si) by (nonlinear_arith)
            requires
                (mid + 1) * sl <= md * sl,
                lo < sl,
                q == sl * md,
                si == 2 * q,
        ;
        assert(hi * si >= 0) by (nonlinear_arith)
            requires
                hi >= 0,
                si > 0,
        ;
        assert(m1 + sl < 2 * (hb * q)) by (nonlinear_arith)
            requires
                m1 == hi * si + mid * (2 * sl) + lo,
                mid * (2 * sl) + lo + sl < si,
                (hi + 1) * si <= hb * si,
                si == 2 * q,
        ;
        assert(m2 + q < 2 * (hb * q)) by (nonlinear_arith)
            requires
                m2 == hi * si + mid * sl + lo,
                mid * sl + lo + q < si,
                (hi + 1) * si <= hb * si,
                si == 2 * q,
        ;
        assert(a + si + sl < 4 * (hb * q)) by (nonlinear_arith)
            requires
                a == hi * (2 * si) + mid * (2 * sl) + lo,
                mid * (2 * sl) + lo + sl < si,
                (hi + 1) * si <= hb * si,
                si == 2 * q,
        ;
        assert(a >= 0 && m1 >= 0 && m2 >= 0) by (nonlinear_arith)
            requires
                a == hi * (2 * si) + mid * (2 * sl) + lo,
                m1 == hi * si + mid * (2 * sl) + lo,
                m2 == hi * si + mid * sl + lo,
                hi >= 0,
                mid >= 0,
                lo >= 0,
                si > 0,
                sl > 0,
        ;
        assert(lhs[k] == lerp(v[m1], v[m1 + sl], s));
        assert(v[m1] == lerp(t[a], t[a + si], r));
        assert(v[m1 + sl] == lerp(t[a + sl], t[a + sl + si], r));
        assert(rhs[k] == lerp(u[m2], u[m2 + q], r));
        assert(u[m2] == lerp(t[a], t[a + sl], s));
        assert(u[m2 + q] == lerp(t[a + si], t[a + si + sl], s));
        assert(a + sl + si == a + si + sl);
        lemma_lerp_commute(t[a], t[a + si], t[a + sl], t[a + si + sl], s, r);
    }
    assert(lhs =~= rhs);
}

/// Folding any one coordinate first and evaluating the others gives the
/// value of the multilinear extension: by induction, folding the
/// coordinates in any order gives `evaluate`'s result.
pub proof fn lemma_fold_any_coordinate(t: Seq<int>, p: Seq<int>, i: int)
    requires
        t.len() == pow2(p.len()),
        0 <= i < p.len(),
    ensures
        eval(fold(t, p.len(), i as nat, p[i]), p.remove(i)) == eval(t, p),
    decreases p.len(),
{
    let n = p.len();
    if i == 0 {
        assert(p.remove(0) =~= p.drop_first());
    } else {
        let q = p.drop_first();
        let u = fold(t, n, 0, p[0]);
        lemma_pow2_pos((n - 1) as nat);
        assert(u.len() == pow2((n - 1) as nat));
        lemma_fold_any_coordinate(u, q, i - 1);
        let v = fold(t, n, i as nat, p[i]);
        let pr = p.remove(i);
        assert(pr.len() == n - 1);
        assert(pr[0] == p[0]);
        assert(pr.drop_first() =~= q.remove(i - 1));
        assert(q[i - 1] == p[i]);
        lemma_fold_commute(t, n, i as nat, p[0], p[i]);
        assert(eval(v, pr) == eval(fold(v, (n - 1) as nat, 0, pr[0]), pr.drop_first()));
    }
}

/// Folding from the last coordinate to the first leaves the one value of
/// the multilinear extension.
pub proof fn lemma_fold_back_is_eval(t: Seq<int>, p: Seq<int>)
    requires
        t.len() == pow2(p.len()),
    ensures
        fold_back(t, p) == seq![eval(t, p)],
    decreases p.len(),
{
    if p.len() == 0 {
        assert(t =~= seq![t[0]]);
    } else {
        let n = p.len();
        let f = fold(t, n, (n - 1) as nat, p.last());
        lemma_pow2_pos((n - 1) as nat);
        assert(f.len() == pow2((n - 1) as nat));
        lemma_fold_back_is_eval(f, p.drop_last());
        lemma_fold_any_coordinate(t, p, n - 1);
        assert(p.remove(n - 1) =~= p.drop_last());
    }
}

/// Folds the coordinates in the order `picks` gives: each pick is a position
/// among the coordinates still left, and its value comes from `p`.
pub open spec fn fold_in_order(t: Seq<int>, p: Seq<int>, picks: Seq<int>) -> Seq<int>
    decreases picks.len(),
{
    if picks.len() == 0 {
        t
    } else {
        let i = picks[0];
        fold_in_order(fold(t, p.len(), i as nat, p[i]), p.remove(i), picks.drop_first())
    }
}

/// Picks that name, at each step, one of the coordinates still left.
pub open spec fn valid_picks(n: nat, picks: Seq<int>) -> bool {
    picks.len() == n && forall|k: int| 0 <= k < n ==> 0 <= #[trigger] picks[k] < n - k
}

/// Folding all coordinates of a `2^n` table in any order leaves the one
/// value that `evaluate` gives at the point.
pub proof fn lemma_fold_in_any_order(t: Seq<int>, p: Seq<int>, picks: Seq<int>)
    requires
        t.len() == pow2(p.len()),
        valid_picks(p.len(), picks),
    ensures
        fold_in_order(t, p, picks) == seq![eval(t, p)],
    decreases picks.len(),
{
    if picks.len() == 0 {
        assert(t =~= seq![t[0]]);
    } else {
        let n = p.len();
        let i = picks[0];
        let f = fold(t, n, i as nat, p[i]);
        lemma_pow2_pos((n - 1) as nat);
        assert(f.len() == pow2((n - 1) as nat));
        let rest = picks.drop_first();
        assert(valid_picks((n - 1) as nat, rest)) by {
            assert forall|k: int| 0 <= k < n - 1 implies 0 <= #[trigger] rest[k] < n - 1 - k by {
                assert(rest[k] == picks[k + 1]);
            }
        }
        lemma_fold_in_any_order(f, p.remove(i), rest);
        lemma_fold_any_coordinate(t, p, i);
    }
}

/// A multilinear polynomial given by its table over the Boolean hypercube.
#[derive(Clone, Debug)]
pub struct MultilinearPolynomial {
    pub coefficients: Vec<Fq>,
}

impl MultilinearPolynomial {
    pub open spec fn table(&self) -> Seq<int> {
        vals(self.coefficients@)
    }

    pub fn new(coefficients: Vec<Fq>) -> (r: Self)
        ensures
            r.coefficients@ == coefficients@,
    {
        MultilinearPolynomial { coefficients }
    }

    /// The number of variables: the least `n` with `len <= 2^n`.
    pub fn dimension(&self) -> (r: usize)
        ensures
            self.coefficients@.len() <= pow2(r as nat),
            r == 0 || pow2((r - 1) as nat) < self.coefficients@.len(),
    {
        let len = self.coefficients.len();
        let mut p: u128 = 1;
        let mut d: usize = 0;
        while p < len as u128
            invariant
                p == pow2(d as nat),
                d == 0 || pow2((d - 1) as nat) < len,
                p <= 2 * len || d == 0,
                len == self.coefficients@.len(),
            decreases len - d,
        {
            proof {
                lemma_pow2_gt(d as nat);
                lemma_pow2_pos(d as nat);
            }
            assert(p > 0);
            p = p * 2;
            d = d + 1;
        }
        d
    }

    /// The value at `point`, one coordinate per variable.
    pub fn evaluate(&self, point: &Vec<Fq>) -> (r: Result<Fq, GkrError>)
        ensures
            match r {
                Ok(v) => is_pow2(self.coefficients@.len()) && point@.len() == dim_of(
                    self.coefficients@.len(),
                ) && v.val() == eval(self.table(), vals(point@)),
                Err(e) => (e == GkrError::DimensionMismatch && !is_pow2(
                    self.coefficients@.len(),
                )) || (e == GkrError::InvalidArity && is_pow2(self.coefficients@.len())
                    && point@.len() != dim_of(self.coefficients@.len())),
            },
    {
        let n = match table_dim(self.coefficients.len()) {
            Some(n) => n,
            None => {
                return Err(GkrError::DimensionMismatch);
            },
        };
        if point.len() != n {
            return Err(GkrError::InvalidArity);
        }
        let ghost p = vals(point@);
        let mut cur = self.coefficients.clone();
        assert(cur@ == self.coefficients@);
        assert(p.subrange(0, n as int) =~= p);
        let mut j: usize = 0;
        while j < n
            invariant
                j <= n,
                n == point@.len(),
                p == vals(point@),
                cur@.len() == pow2((n - j) as nat),
                eval(vals(cur@), p.subrange(j as int, n as int)) == eval(self.table(), p),
            decreases n - j,
        {
            proof {
                lemma_dim_of_pow2((n - j) as nat);
                assert(p.subrange(j as int, n as int).drop_first() =~= p.subrange(
                    j + 1,
                    n as int,
                ));
                assert(pow2((n - j) as nat) / 2 == pow2((n - j - 1) as nat));
            }
            cur = partial_evaluate(cur, 0, point[j]);
            assert(vals(cur@).len() == cur@.len());
            j = j + 1;
        }
        proof {
            lemma_pow2_pos(0);
            assert(p.subrange(n as int, n as int).len() == 0);
        }
        Ok(cur[0])
    }

    /// The canonical encoding: each entry's 32 big-endian bytes, in order.
    pub fn convert_to_bytes(&self) -> (r: Vec<u8>)
        ensures
            r@ == bytes_of(self.coefficients@),
    {
        elements_to_bytes(&self.coefficients)
    }
}

/// The concatenated 32-byte big-endian encodings of a sequence of elements.
pub open spec fn bytes_of(s: Seq<Fq>) -> Seq<u8>
    decreases s.len(),
{
    if s.len() == 0 {
        Seq::empty()
    } else {
        bytes_of(s.drop_last()) + be_bytes(s.last().val(), 32)
    }
}

pub fn elements_to_bytes(s: &Vec<Fq>) -> (r: Vec<u8>)
    ensures
        r@ == bytes_of(s@),
{
    let mut out: Vec<u8> = Vec::new();
    let mut i: usize = 0;
    while i < s.len()
        invariant
            i <= s@.len(),
            out@ == bytes_of(s@.subrange(0, i as int)),
        decreases s@.len() - i,
    {
        let mut b = s[i].to_bytes_be();
        proof {
            assert(s@.subrange(0, i + 1).drop_last() =~= s@.subrange(0, i as int));
        }
        out.append(&mut b);
        i = i + 1;
    }
    assert(s@.subrange(0, s@.len() as int) =~= s@);
    out
}

} // verus!
