//! Dense linear algebra: the matrices that the fitter fills, what it asks of a
//! linear algebra library, and how it takes the answers.
use crate::error::Error;
use crate::value::{filled, Value};
use vstd::prelude::*;

verus! {

/// 5, the factor on the default tolerance of the decomposition.
pub const SVD_EPS_FACTOR: u64 = 0x4014_0000_0000_0000;

/// A matrix, row by row.
#[derive(Debug, Clone)]
pub struct Matrix<T> {
    pub rows: Vec<Vec<T>>,
    pub ncols: usize,
}

impl<T> View for Matrix<T> {
    type V = Seq<Seq<T>>;

    open spec fn view(&self) -> Seq<Seq<T>> {
        Seq::new(self.rows@.len(), |i: int| self.rows@[i]@)
    }
}

/// The rows form a matrix with `r` rows and `c` columns.
pub open spec fn shaped<T>(rows: Seq<Seq<T>>, r: nat, c: nat) -> bool {
    rows.len() == r && forall|i: int| 0 <= i < r ==> (#[trigger] rows[i]).len() == c
}

impl<T> Matrix<T> {
    /// Every row has as many entries as there are columns.
    pub open spec fn wf(&self) -> bool {
        shaped(self@, self.rows@.len(), self.ncols as nat)
    }
}

/// A matrix of zeros.
pub open spec fn zeros<T: Value>(r: nat, c: nat) -> Seq<Seq<T>> {
    Seq::new(r, |i: int| Seq::new(c, |j: int| T::zero_spec()))
}

/// What a linear algebra library does for the fitter.
///
/// The trait promises nothing of the answers: the fitter is verified whatever they
/// are. An answer of the wrong shape counts as zero, or as no solution.
pub trait LinearAlgebra<T> {
    /// A singular value decomposition.
    type Svd;

    /// The singular value decomposition of a matrix with both orthogonal factors,
    /// `None` if it does not converge within so many iterations.
    fn svd(&self, a: &Matrix<T>, eps: T, max_iters: usize) -> Option<Self::Svd>;

    /// The largest singular value.
    fn max_singular_value(&self, svd: &Self::Svd) -> T;

    /// The least squares solution for a right hand side, singular values up to
    /// `eps` taken as zero, or the reason why there is none.
    fn solve(&self, svd: &Self::Svd, b: &Vec<T>, eps: T) -> Result<Vec<T>, &'static str>;

    /// The transpose of a matrix times the matrix.
    fn gram(&self, a: &Matrix<T>) -> Matrix<T>;

    /// The transpose of a matrix times a vector.
    fn transpose_mul(&self, a: &Matrix<T>, b: &Vec<T>) -> Vec<T>;

    /// The dot product.
    fn dot(&self, a: &Vec<T>, b: &Vec<T>) -> T;
}

/// The rows if they have the given shape, else zeros.
pub open spec fn conformed<T: Value>(rows: Seq<Seq<T>>, r: nat, c: nat) -> Seq<Seq<T>> {
    if shaped(rows, r, c) {
        rows
    } else {
        zeros(r, c)
    }
}

/// The vector if it has the given length, else zeros.
pub open spec fn conformed_vec<T: Value>(v: Seq<T>, n: nat) -> Seq<T> {
    if v.len() == n {
        v
    } else {
        Seq::new(n, |i: int| T::zero_spec())
    }
}

fn zero_matrix<T: Value>(r: usize, c: usize) -> (m: Matrix<T>)
    ensures
        m@ == zeros::<T>(r as nat, c as nat),
        m.ncols == c,
        m.wf(),
{
    let mut rows: Vec<Vec<T>> = Vec::new();
    let mut i: usize = 0;
    while i < r
        invariant
            i <= r,
            rows@.len() == i,
            forall|k: int|
                0 <= k < i ==> (#[trigger] rows@[k])@ == Seq::new(
                    c as nat,
                    |j: int| T::zero_spec(),
                ),
        decreases r - i,
    {
        rows.push(filled(c, T::zero()));
        i = i + 1;
    }
    let m = Matrix { rows, ncols: c };
    assert(m@ =~= zeros::<T>(r as nat, c as nat));
    m
}

/// A matrix if it has the given shape, else zeros.
pub fn conform<T: Value>(m: Matrix<T>, r: usize, c: usize) -> (res: Matrix<T>)
    ensures
        res@ == conformed(m@, r as nat, c as nat),
        res.ncols == c,
        res.wf(),
{
    if m.rows.len() != r {
        return zero_matrix(r, c);
    }
    let mut i: usize = 0;
    while i < r
        invariant
            m.rows@.len() == r,
            i <= r,
            forall|k: int| 0 <= k < i ==> (#[trigger] m@[k]).len() == c,
        decreases r - i,
    {
        if m.rows[i].len() != c {
            assert(m@[i as int].len() != c);
            return zero_matrix(r, c);
        }
        i = i + 1;
    }
    let res = Matrix { rows: m.rows, ncols: c };
    assert(res@ =~= m@);
    res
}

/// A vector if it has the given length, else zeros.
pub fn conform_vec<T: Value>(v: Vec<T>, n: usize) -> (res: Vec<T>)
    ensures
        res@ == conformed_vec(v@, n as nat),
{
    if v.len() == n {
        v
    } else {
        filled(n, T::zero())
    }
}

/// `g` is what a library can give for the transpose of `a` times `a`.
pub open spec fn gram_of<T: Value, A: LinearAlgebra<T>>(
    alg: A,
    a: Seq<Seq<T>>,
    c: nat,
    g: Seq<Seq<T>>,
) -> bool {
    exists|m: Matrix<T>, out: Matrix<T>|
        {
            &&& #[trigger] call_ensures(A::gram, (&alg, &m), out)
            &&& m@ == a
            &&& m.ncols == c
            &&& g == conformed(out@, c, c)
        }
}

/// The transpose of a matrix times the matrix.
pub fn gram<T: Value, A: LinearAlgebra<T>>(alg: &A, a: &Matrix<T>) -> (r: Matrix<T>)
    requires
        a.wf(),
    ensures
        gram_of(*alg, a@, a.ncols as nat, r@),
        r.wf(),
        r.ncols == a.ncols,
        r@.len() == a.ncols,
{
    let out = alg.gram(a);
    assert(call_ensures(A::gram, (alg, a), out));
    conform(out, a.ncols, a.ncols)
}

/// `v` is what a library can give for the transpose of `a` times `b`.
pub open spec fn transpose_mul_of<T: Value, A: LinearAlgebra<T>>(
    alg: A,
    a: Seq<Seq<T>>,
    c: nat,
    b: Seq<T>,
    v: Seq<T>,
) -> bool {
    exists|m: Matrix<T>, x: Vec<T>, out: Vec<T>|
        {
            &&& #[trigger] call_ensures(A::transpose_mul, (&alg, &m, &x), out)
            &&& m@ == a
            &&& m.ncols == c
            &&& x@ == b
            &&& v == conformed_vec(out@, c)
        }
}

/// The transpose of a matrix times a vector.
pub fn transpose_mul<T: Value, A: LinearAlgebra<T>>(alg: &A, a: &Matrix<T>, b: &Vec<T>) -> (r: Vec<
    T,
>)
    requires
        a.wf(),
        b@.len() == a@.len(),
    ensures
        transpose_mul_of(*alg, a@, a.ncols as nat, b@, r@),
        r@.len() == a.ncols,
{
    let out = alg.transpose_mul(a, b);
    assert(call_ensures(A::transpose_mul, (alg, a, b), out));
    conform_vec(out, a.ncols)
}

/// `d` is what a library can give for a dot product.
pub open spec fn dot_of<T: Value, A: LinearAlgebra<T>>(alg: A, a: Seq<T>, b: Seq<T>, d: T) -> bool {
    exists|x: Vec<T>, y: Vec<T>|
        #[trigger] call_ensures(A::dot, (&alg, &x, &y), d) && x@ == a && y@ == b
}

/// The dot product.
pub fn dot<T: Value, A: LinearAlgebra<T>>(alg: &A, a: &Vec<T>, b: &Vec<T>) -> (r: T)
    requires
        a@.len() == b@.len(),
    ensures
        dot_of(*alg, a@, b@, r),
{
    let r = alg.dot(a, b);
    assert(call_ensures(A::dot, (alg, a, b), r));
    r
}

/// How many iterations a decomposition may take: the square of the larger dimension,
/// at least 1000, at most 10000.
pub open spec fn svd_iterations(dim: nat) -> int {
    if dim * dim < 1000 {
        1000
    } else if dim * dim > 10000 {
        10000
    } else {
        (dim * dim) as int
    }
}

/// The larger of two numbers.
pub open spec fn larger(a: nat, b: nat) -> nat {
    if a > b {
        a
    } else {
        b
    }
}

/// The tolerance of a decomposition.
pub open spec fn svd_eps<T: Value>() -> T {
    T::default_epsilon_spec().mul_spec(T::convert_f64_spec(SVD_EPS_FACTOR))
}

/// `dec` is what a library can give for the decomposition of `a`.
pub open spec fn decomposed<T: Value, A: LinearAlgebra<T>>(
    alg: A,
    a: Seq<Seq<T>>,
    c: nat,
    dec: Option<A::Svd>,
) -> bool {
    exists|m: Matrix<T>, iters: usize|
        {
            &&& #[trigger] call_ensures(A::svd, (&alg, &m, svd_eps::<T>(), iters), dec)
            &&& m@ == a
            &&& m.ncols == c
            &&& iters == svd_iterations(larger(a.len(), c))
        }
}

/// `x` is what a library can give for the solution with a right hand side.
pub open spec fn solved_with<T: Value, A: LinearAlgebra<T>>(
    alg: A,
    dec: A::Svd,
    b: Seq<T>,
    eps: T,
    x: Result<Seq<T>, &'static str>,
) -> bool {
    exists|v: Vec<T>, out: Result<Vec<T>, &'static str>|
        {
            &&& #[trigger] call_ensures(A::solve, (&alg, &dec, &v, eps), out)
            &&& v@ == b
            &&& x == seq_of(out)
        }
}

/// A result over sequences.
pub open spec fn seq_of<T, E>(r: Result<Vec<T>, E>) -> Result<Seq<T>, E> {
    match r {
        Ok(v) => Ok(v@),
        Err(e) => Err(e),
    }
}

/// Some coefficient is not a number.
pub open spec fn has_nan<T: Value>(v: Seq<T>) -> bool {
    exists|i: int| 0 <= i < v.len() && (#[trigger] v[i]).is_nan_spec()
}

/// A solution is used if every coefficient is a number and none is missing.
pub open spec fn accepted<T: Value>(x: Result<Seq<T>, &'static str>, n: nat) -> Result<
    Seq<T>,
    Error,
> {
    match x {
        Err(e) => Err(Error::Algebra(e)),
        Ok(v) => if has_nan(v) {
            Err(Error::Algebra("NaN in coefficients"))
        } else if v.len() != n {
            Err(Error::Algebra("wrong number of coefficients"))
        } else {
            Ok(v)
        },
    }
}

/// Take a solution, or say why it cannot be used.
pub fn accept<T: Value>(x: Result<Vec<T>, &'static str>, n: usize) -> (r: Result<Vec<T>, Error>)
    ensures
        seq_of(r) == accepted(seq_of(x), n as nat),
{
    let v = match x {
        Err(e) => {
            return Err(Error::Algebra(e));
        },
        Ok(v) => v,
    };
    let mut i: usize = 0;
    while i < v.len()
        invariant
            x == Ok::<Vec<T>, &'static str>(v),
            i <= v.len(),
            forall|k: int| 0 <= k < i ==> !(#[trigger] v@[k]).is_nan_spec(),
        decreases v.len() - i,
    {
        if v[i].is_nan() {
            assert(v@[i as int].is_nan_spec());
            return Err(Error::Algebra("NaN in coefficients"));
        }
        i = i + 1;
    }
    if v.len() != n {
        return Err(Error::Algebra("wrong number of coefficients"));
    }
    Ok(v)
}

/// `r` is what solving `a x = b` can give: the matrix is decomposed, singular values
/// below the machine epsilon, scaled by the larger dimension and the largest singular
/// value, count as zero, and the solution is taken if it is usable.
pub open spec fn svd_solution<T: Value, A: LinearAlgebra<T>>(
    alg: A,
    a: Seq<Seq<T>>,
    c: nat,
    b: Seq<T>,
    r: Result<Seq<T>, Error>,
) -> bool {
    exists|dec: Option<A::Svd>|
        #[trigger] decomposed(alg, a, c, dec) && match dec {
            None => r == Err::<Seq<T>, Error>(Error::DidNotConverge),
            Some(d) => match T::try_cast_usize_spec(larger(a.len(), c) as usize) {
                None => r == Err::<Seq<T>, Error>(Error::CastFailed),
                Some(size) => exists|sigma: T, x: Result<Seq<T>, &'static str>|
                    {
                        &&& #[trigger] call_ensures(A::max_singular_value, (&alg, &d), sigma)
                        &&& #[trigger] solved_with(
                            alg,
                            d,
                            b,
                            T::epsilon_spec().mul_spec(size).mul_spec(sigma),
                            x,
                        )
                        &&& r == accepted(x, c)
                    },
            },
        }
}

fn iteration_limit(dim: usize) -> (r: usize)
    ensures
        r == svd_iterations(dim as nat),
{
    if dim > 100 {
        assert(dim * dim > 10000) by (nonlinear_arith)
            requires
                dim > 100,
        ;
        10000
    } else {
        assert(dim * dim <= 10000) by (nonlinear_arith)
            requires
                dim <= 100,
        ;
        let square: usize = dim * dim;
        if square < 1000 {
            1000
        } else {
            square
        }
    }
}

/// Solve Ax = b via singular value decomposition.
pub fn solve_svd<T: Value, A: LinearAlgebra<T>>(alg: &A, a: &Matrix<T>, b: &Vec<T>) -> (r: Result<
    Vec<T>,
    Error,
>)
    requires
        a.wf(),
        a@.len() > 0,
        a.ncols > 0,
        b@.len() == a@.len(),
    ensures
        svd_solution(*alg, a@, a.ncols as nat, b@, seq_of(r)),
        r matches Ok(v) ==> v@.len() == a.ncols,
{
    let eps = T::default_epsilon().mul(T::convert_f64(SVD_EPS_FACTOR));
    let max_dim: usize = if a.rows.len() > a.ncols {
        a.rows.len()
    } else {
        a.ncols
    };
    let iters: usize = iteration_limit(max_dim);
    let dec = alg.svd(a, eps, iters);
    proof {
        assert(call_ensures(A::svd, (alg, a, eps, iters), dec));
        assert(decomposed(*alg, a@, a.ncols as nat, dec));
    }
    let d = match dec {
        None => {
            return Err(Error::DidNotConverge);
        },
        Some(d) => d,
    };
    let sigma_max = alg.max_singular_value(&d);
    let size = match T::try_cast_usize(max_dim) {
        None => {
            return Err(Error::CastFailed);
        },
        Some(s) => s,
    };
    let epsilon = T::epsilon().mul(size).mul(sigma_max);
    let x = alg.solve(&d, b, epsilon);
    let ghost xs = seq_of(x);
    proof {
        assert(call_ensures(A::max_singular_value, (alg, &d), sigma_max));
        assert(call_ensures(A::solve, (alg, &d, b, epsilon), x));
        assert(solved_with(*alg, d, b@, epsilon, xs));
    }
    accept(x, a.ncols)
}

} // verus!
