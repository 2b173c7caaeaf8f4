use vstd::prelude::*;

verus! {

/// The numerator `prod x_j` and denominator `prod (x_j - x_i)` of share `i`'s
/// Lagrange weight at zero, over the shares `j < k` other than `i`, in `i32`;
/// `None` if a step overflows.
pub open spec fn weight_parts(shares: Seq<(i32, i32)>, i: int, k: int) -> Option<(i32, i32)>
    decreases k,
{
    if k <= 0 {
        Some((1i32, 1i32))
    } else {
        match weight_parts(shares, i, k - 1) {
            None => None,
            Some(p) => if k - 1 == i {
                Some(p)
            } else {
                let xj = shares[k - 1].0;
                match (p.0.checked_mul(xj), xj.checked_sub(shares[i].0)) {
                    (Some(num), Some(diff)) => match p.1.checked_mul(diff) {
                        Some(den) => Some((num, den)),
                        None => None,
                    },
                    _ => None,
                }
            },
        }
    }
}

/// The sum over the first `k` shares of `y_i * numerator / denominator`
/// (division truncating toward zero), in `i32`; `None` if a step overflows
/// or a denominator is zero.
pub open spec fn secret_upto(shares: Seq<(i32, i32)>, k: int) -> Option<i32>
    decreases k,
{
    if k <= 0 {
        Some(0i32)
    } else {
        match secret_upto(shares, k - 1) {
            None => None,
            Some(acc) => match weight_parts(shares, k - 1, shares.len() as int) {
                None => None,
                Some(p) => match shares[k - 1].1.checked_mul(p.0) {
                    None => None,
                    Some(scaled) => match scaled.checked_div(p.1) {
                        None => None,
                        Some(term) => acc.checked_add(term),
                    },
                },
            },
        }
    }
}

/// Recovers the secret, the polynomial's value at zero, from shares `(x, y)`
/// by Lagrange interpolation in integers. `None` when two shares have the
/// same `x` or an intermediate value leaves `i32`.
pub fn reconstruct_secret(shares: &[(i32, i32)]) -> (r: Option<i32>)
    ensures
        r == secret_upto(shares@, shares@.len() as int),
{
    let n = shares.len();
    let mut secret: i32 = 0;
    let mut i: usize = 0;
    while i < n
        invariant
            i <= n,
            n == shares@.len(),
            secret_upto(shares@, i as int) == Some(secret),
        decreases n - i,
    {
        let (x_i, y_i) = shares[i];
        let mut numerator: i32 = 1;
        let mut denominator: i32 = 1;
        let mut j: usize = 0;
        while j < n
            invariant
                j <= n,
                i < n,
                n == shares@.len(),
                x_i == shares@[i as int].0,
                secret_upto(shares@, i as int) == Some(secret),
                weight_parts(shares@, i as int, j as int) == Some((numerator, denominator)),
            decreases n - j,
        {
            if i != j {
                let x_j = shares[j].0;
                let num = match numerator.checked_mul(x_j) {
                    Some(v) => v,
                    None => {
                        proof {
                            lemma_parts_none(shares@, i as int, j as int + 1, n as int);
                            lemma_secret_none(shares@, i as int + 1, n as int);
                        }
                        return None;
                    },
                };
                let diff = match x_j.checked_sub(x_i) {
                    Some(v) => v,
                    None => {
                        proof {
                            lemma_parts_none(shares@, i as int, j as int + 1, n as int);
                            lemma_secret_none(shares@, i as int + 1, n as int);
                        }
                        return None;
                    },
                };
                let den = match denominator.checked_mul(diff) {
                    Some(v) => v,
                    None => {
                        proof {
                            lemma_parts_none(shares@, i as int, j as int + 1, n as int);
                            lemma_secret_none(shares@, i as int + 1, n as int);
                        }
                        return None;
                    },
                };
                numerator = num;
                denominator = den;
            }
            j = j + 1;
        }
        let term = match y_i.checked_mul(numerator) {
            Some(scaled) => match scaled.checked_div(denominator) {
                Some(t) => t,
                None => {
                    proof {
                        lemma_secret_none(shares@, i as int + 1, n as int);
                    }
                    return None;
                },
            },
            None => {
                proof {
                    lemma_secret_none(shares@, i as int + 1, n as int);
                }
                return None;
            },
        };
        secret = match secret.checked_add(term) {
            Some(v) => v,
            None => {
                proof {
                    lemma_secret_none(shares@, i as int + 1, n as int);
                }
                return None;
            },
        };
        i = i + 1;
    }
    Some(secret)
}

proof fn lemma_parts_none(shares: Seq<(i32, i32)>, i: int, k: int, n: int)
    requires
        0 <= k <= n,
        weight_parts(shares, i, k) is None,
    ensures
        weight_parts(shares, i, n) is None,
    decreases n - k,
{
    if k < n {
        lemma_parts_none(shares, i, k + 1, n);
    }
}

proof fn lemma_secret_none(shares: Seq<(i32, i32)>, k: int, n: int)
    requires
        0 <= k <= n,
        secret_upto(shares, k) is None,
    ensures
        secret_upto(shares, n) is None,
    decreases n - k,
{
    if k < n {
        lemma_secret_none(shares, k + 1, n);
    }
}

/// The polynomial with coefficients `coeffs` (constant first) at `x`, over
/// its first `k` terms, with the power of `x` for the next term, in `i32`;
/// `None` if a step overflows.
pub open spec fn poly_at(coeffs: Seq<i32>, x: i32, k: int) -> Option<(i32, i32)>
    decreases k,
{
    if k <= 0 {
        Some((0i32, 1i32))
    } else {
        match poly_at(coeffs, x, k - 1) {
            None => None,
            Some(st) => match coeffs[k - 1].checked_mul(st.1) {
                None => None,
                Some(term) => match st.0.checked_add(term) {
                    None => None,
                    Some(acc) => if k == coeffs.len() {
                        Some((acc, st.1))
                    } else {
                        match st.1.checked_mul(x) {
                            None => None,
                            Some(next) => Some((acc, next)),
                        }
                    },
                },
            },
        }
    }
}

/// Share `j` is `(j + 1, p(j + 1))`.
pub open spec fn share_ok(coeffs: Seq<i32>, share: (i32, i32), j: int) -> bool {
    &&& poly_at(coeffs, (j + 1) as i32, coeffs.len() as int) is Some
    &&& share == ((j + 1) as i32, poly_at(coeffs, (j + 1) as i32, coeffs.len() as int).unwrap().0)
}

/// The shares `(x, p(x))` for `x = 1, ..., n` of the polynomial with
/// coefficients `coefficients`, the secret first; `None` when a value leaves
/// `i32`.
pub fn shares_of(coefficients: &Vec<i32>, n: usize) -> (r: Option<Vec<(i32, i32)>>)
    ensures
        match r {
            Some(v) => n <= i32::MAX && v@.len() == n && forall|i: int|
                0 <= i < n ==> #[trigger] v@[i] == ((i + 1) as i32, poly_at(
                    coefficients@,
                    (i + 1) as i32,
                    coefficients@.len() as int,
                ).unwrap().0),
            None => n > i32::MAX || exists|i: int|
                0 <= i < n && #[trigger] poly_at(coefficients@, (i + 1) as i32, coefficients@.len() as int) is None,
        },
{
    if n > i32::MAX as usize {
        return None;
    }
    let mut shares: Vec<(i32, i32)> = Vec::new();
    let mut i: usize = 0;
    while i < n
        invariant
            i <= n,
            n <= i32::MAX,
            shares@.len() == i,
            forall|j: int| 0 <= j < i ==> share_ok(coefficients@, #[trigger] shares@[j], j),
        decreases n - i,
    {
        let x = (i + 1) as i32;
        let mut acc: i32 = 0;
        let mut power: i32 = 1;
        let mut k: usize = 0;
        let m = coefficients.len();
        while k < m
            invariant
                k <= m,
                m == coefficients@.len(),
                i < n,
                n <= i32::MAX,
                x == (i + 1) as i32,
                shares@.len() == i,
                forall|j: int| 0 <= j < i ==> share_ok(coefficients@, #[trigger] shares@[j], j),
                poly_at(coefficients@, x, k as int) == Some((acc, power)),
            decreases m - k,
        {
            let term = match coefficients[k].checked_mul(power) {
                Some(t) => t,
                None => {
                    proof {
                        lemma_poly_none(coefficients@, x, k as int + 1, m as int);
                        assert(poly_at(coefficients@, (i as int + 1) as i32, coefficients@.len() as int) is None);
                    }
                    return None;
                },
            };
            acc = match acc.checked_add(term) {
                Some(a) => a,
                None => {
                    proof {
                        lemma_poly_none(coefficients@, x, k as int + 1, m as int);
                        assert(poly_at(coefficients@, (i as int + 1) as i32, coefficients@.len() as int) is None);
                    }
                    return None;
                },
            };
            if k + 1 < m {
                power = match power.checked_mul(x) {
                    Some(p) => p,
                    None => {
                        proof {
                            lemma_poly_none(coefficients@, x, k as int + 1, m as int);
                            assert(poly_at(coefficients@, (i as int + 1) as i32, coefficients@.len() as int) is None);
                        }
                        return None;
                    },
                };
            }
            k = k + 1;
        }
        let ghost old_shares = shares@;
        shares.push((x, acc));
        proof {
            assert forall|j: int| 0 <= j < i + 1 implies share_ok(coefficients@, #[trigger] shares@[j], j) by {
                if j < i {
                    assert(shares@[j] == old_shares[j]);
                }
            }
        }
        i = i + 1;
    }
    Some(shares)
}

proof fn lemma_poly_none(coeffs: Seq<i32>, x: i32, k: int, n: int)
    requires
        0 <= k <= n,
        poly_at(coeffs, x, k) is None,
    ensures
        poly_at(coeffs, x, n) is None,
    decreases n - k,
{
    if k < n {
        lemma_poly_none(coeffs, x, k + 1, n);
    }
}

} // verus!
