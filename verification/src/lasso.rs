//! Lasso regression over exponentially weighted rows: each row that arrives fades what came before
//! it, and the coefficients are improved by coordinate descent from where they stood.
use vstd::prelude::*;

use crate::scalar::{Arithmetic, Scalar};

verus! {

/// How fast rows fade, how strongly coefficients are drawn to zero, how many sweeps over the
/// coefficients one row may take, and below which change a sweep is the last.
#[derive(Debug, Clone, Copy)]
pub struct EwmLassoOptions<T> {
    pub decay: T,
    pub alpha: T,
    pub max_iter: usize,
    pub tol: T,
}

/// The regression after some rows: the weighted sums of the products of features (`s`, by rows),
/// of features and target (`z`) and of the features (`m`), the sum of the weights, and the
/// coefficients.
#[derive(Debug, Clone)]
pub struct EwmLassoState<T> {
    n_features: usize,
    decay: T,
    alpha: T,
    max_iter: usize,
    tol: T,
    s: Vec<T>,
    z: Vec<T>,
    coef: Vec<T>,
    m: Vec<T>,
    wsum: T,
}

/// What a state holds.
#[verifier::ext_equal]
pub ghost struct LassoModel<T> {
    pub n_features: nat,
    pub options: EwmLassoOptions<T>,
    pub s: Seq<T>,
    pub z: Seq<T>,
    pub coef: Seq<T>,
    pub m: Seq<T>,
    pub wsum: T,
}

impl<T> LassoModel<T> {
    /// The sums have one entry for each feature, or for each pair of features.
    pub open spec fn wf(self) -> bool {
        &&& self.s.len() == self.n_features * self.n_features
        &&& self.z.len() == self.n_features
        &&& self.coef.len() == self.n_features
        &&& self.m.len() == self.n_features
    }
}

impl<T> View for EwmLassoState<T> {
    type V = LassoModel<T>;

    closed spec fn view(&self) -> LassoModel<T> {
        LassoModel {
            n_features: self.n_features as nat,
            options: EwmLassoOptions {
                decay: self.decay,
                alpha: self.alpha,
                max_iter: self.max_iter,
                tol: self.tol,
            },
            s: self.s@,
            z: self.z@,
            coef: self.coef@,
            m: self.m@,
            wsum: self.wsum,
        }
    }
}

/// The regression before the first row.
pub open spec fn blank<T: Arithmetic>(n_features: nat, options: EwmLassoOptions<T>) -> LassoModel<T> {
    LassoModel {
        n_features,
        options,
        s: Seq::new(n_features * n_features, |p: int| T::nil()),
        z: Seq::new(n_features, |j: int| T::nil()),
        coef: Seq::new(n_features, |j: int| T::nil()),
        m: Seq::new(n_features, |j: int| T::nil()),
        wsum: T::nil(),
    }
}

/// A weighted sum after one more row: the old sum has faded, the new term has full weight.
pub open spec fn faded<T: Arithmetic>(decay: T, old_sum: T, term: T) -> T {
    T::sum(T::product(decay, old_sum), term)
}

/// The weighted sums after the row with features `x` and target `y`; the coefficients are as they
/// were.
pub open spec fn accumulated<T: Arithmetic>(st: LassoModel<T>, x: Seq<T>, y: T) -> LassoModel<T> {
    let decay = st.options.decay;
    let n = st.n_features as int;
    LassoModel {
        s: Seq::new(
            st.s.len(),
            |p: int| faded(decay, st.s[p], T::product(x[p / n], x[p % n])),
        ),
        z: Seq::new(st.z.len(), |j: int| faded(decay, st.z[j], T::product(x[j], y))),
        m: Seq::new(st.m.len(), |j: int| faded(decay, st.m[j], x[j])),
        wsum: faded(decay, st.wsum, T::unit()),
        ..st
    }
}

/// The entry of `s` for a pair of features.
pub open spec fn cross<T>(st: LassoModel<T>, i: int, j: int) -> T {
    st.s[i * st.n_features + j]
}

/// What the target leaves to feature `j`, once the share of each of the first `k` features but `j`
/// itself is taken away.
pub open spec fn residual<T: Arithmetic>(st: LassoModel<T>, j: int, k: int) -> T
    decreases k,
{
    if k <= 0 {
        st.z[j]
    } else if k - 1 == j {
        residual(st, j, k - 1)
    } else {
        T::difference(
            residual(st, j, k - 1),
            T::product(cross(st, j, k - 1), st.coef[k - 1]),
        )
    }
}

/// The weighted variance of feature `j`.
pub open spec fn variance<T: Arithmetic>(st: LassoModel<T>, j: int) -> T {
    let mean = T::quotient(st.m[j], st.wsum);
    T::difference(T::quotient(cross(st, j, j), st.wsum), T::product(mean, mean))
}

/// The standard deviation of feature `j`, zero where rounding left no positive variance.
pub open spec fn deviation<T: Arithmetic>(st: LassoModel<T>, j: int) -> T {
    if T::below(T::nil(), variance(st, j)) {
        T::root(variance(st, j))
    } else {
        T::nil()
    }
}

/// What a residual has to exceed for the coefficient of feature `j` not to vanish. It grows with
/// the deviation, so that the scale of a feature does not matter.
pub open spec fn threshold<T: Arithmetic>(st: LassoModel<T>, j: int) -> T {
    T::product(T::product(st.options.alpha, deviation(st, j)), st.wsum)
}

/// A residual drawn to zero by the threshold, over the weight of the feature.
pub open spec fn shrunk<T: Arithmetic>(rho: T, thr: T, weight: T) -> T {
    if T::below(thr, rho) {
        T::quotient(T::difference(rho, thr), weight)
    } else if T::below(rho, T::opposite(thr)) {
        T::quotient(T::sum(rho, thr), weight)
    } else {
        T::nil()
    }
}

/// The best coefficient for feature `j` while the others stay as they are.
pub open spec fn best<T: Arithmetic>(st: LassoModel<T>, j: int) -> T {
    shrunk(residual(st, j, st.n_features as int), threshold(st, j), cross(st, j, j))
}

/// The state with one coefficient replaced by the best one.
pub open spec fn improved<T: Arithmetic>(st: LassoModel<T>, j: int) -> LassoModel<T> {
    LassoModel { coef: st.coef.update(j, best(st, j)), ..st }
}

/// The state after the first `k` coefficients have been improved one after the other.
pub open spec fn swept<T: Arithmetic>(st: LassoModel<T>, k: int) -> LassoModel<T>
    decreases k,
{
    if k <= 0 {
        st
    } else {
        improved(swept(st, k - 1), k - 1)
    }
}

/// The larger of two numbers, the first where neither is.
pub open spec fn larger<T: Arithmetic>(a: T, b: T) -> T {
    if T::below(a, b) {
        b
    } else {
        a
    }
}

/// The largest change of a coefficient while the first `k` are improved.
pub open spec fn largest_change<T: Arithmetic>(st: LassoModel<T>, k: int) -> T
    decreases k,
{
    if k <= 0 {
        T::nil()
    } else {
        larger(
            largest_change(st, k - 1),
            T::size(T::difference(swept(st, k).coef[k - 1], st.coef[k - 1])),
        )
    }
}

/// The state after at most `sweeps` sweeps over all coefficients. A sweep that changes no
/// coefficient by the tolerance or more is the last.
pub open spec fn descended<T: Arithmetic>(st: LassoModel<T>, sweeps: nat) -> LassoModel<T>
    decreases sweeps,
{
    if sweeps == 0 {
        st
    } else {
        let n = st.n_features as int;
        let next = swept(st, n);
        if T::below(largest_change(st, n), st.options.tol) {
            next
        } else {
            descended(next, (sweeps - 1) as nat)
        }
    }
}

/// The state after one more row.
pub open spec fn stepped<T: Arithmetic>(st: LassoModel<T>, x: Seq<T>, y: T) -> LassoModel<T> {
    descended(accumulated(st, x, y), st.options.max_iter as nat)
}

/// A list of zeros.
fn zeros<T: Scalar>(len: usize) -> (r: Vec<T>)
    ensures
        r@ == Seq::new(len as nat, |j: int| T::nil()),
{
    let mut r: Vec<T> = Vec::new();
    let mut j: usize = 0;
    while j < len
        invariant
            j <= len,
            r@ == Seq::new(j as nat, |j: int| T::nil()),
        decreases len - j,
    {
        r.push(T::zero());
        j += 1;
    }
    r
}

/// The place of a pair among the entries by rows.
pub proof fn lemma_entry(i: int, j: int, n: int)
    requires
        0 <= i < n,
        0 <= j < n,
    ensures
        0 <= i * n,
        i * n + j < n * n,
        (i * n + j) / n == i,
        (i * n + j) % n == j,
{
    assert(i * n + j < n * n) by (nonlinear_arith)
        requires
            0 <= i < n,
            0 <= j < n,
    ;
    assert(0 <= i * n) by (nonlinear_arith)
        requires
            0 <= i < n,
    ;
    vstd::arithmetic::div_mod::lemma_fundamental_div_mod_converse(i * n + j, n, i, j);
}

/// A sweep changes nothing but the coefficients whose turn has come.
pub proof fn sweep_keeps_all_but_the_coefficients<T: Arithmetic>(st: LassoModel<T>, k: int)
    requires
        st.wf(),
        0 <= k <= st.n_features,
    ensures
        swept(st, k) == (LassoModel { coef: swept(st, k).coef, ..st }),
        swept(st, k).coef.len() == st.coef.len(),
        forall|j: int| k <= j < st.n_features ==> swept(st, k).coef[j] == st.coef[j],
    decreases k,
{
    if k > 0 {
        sweep_keeps_all_but_the_coefficients(st, k - 1);
    }
}

/// Sweeps change nothing but the coefficients, and keep one for each feature.
pub proof fn descent_keeps_all_but_the_coefficients<T: Arithmetic>(st: LassoModel<T>, sweeps: nat)
    requires
        st.wf(),
    ensures
        descended(st, sweeps) == (LassoModel { coef: descended(st, sweeps).coef, ..st }),
        descended(st, sweeps).wf(),
    decreases sweeps,
{
    if sweeps > 0 {
        let next = swept(st, st.n_features as int);
        sweep_keeps_all_but_the_coefficients(st, st.n_features as int);
        descent_keeps_all_but_the_coefficients(next, (sweeps - 1) as nat);
    }
}

impl<T: Scalar> EwmLassoState<T> {
    /// The state before the first row.
    pub fn new(n_features: usize, options: EwmLassoOptions<T>) -> (r: Self)
        requires
            n_features * n_features <= usize::MAX,
        ensures
            r@ == blank(n_features as nat, options),
            r@.wf(),
    {
        EwmLassoState {
            n_features,
            decay: options.decay,
            alpha: options.alpha,
            max_iter: options.max_iter,
            tol: options.tol,
            s: zeros(n_features * n_features),
            z: zeros(n_features),
            coef: zeros(n_features),
            m: zeros(n_features),
            wsum: T::zero(),
        }
    }

    /// The coefficients, one for each feature.
    pub fn coefficients(&self) -> (r: &[T])
        ensures
            r@ == self@.coef,
    {
        self.coef.as_slice()
    }

    /// How many features a row has.
    pub fn n_features(&self) -> (r: usize)
        ensures
            r == self@.n_features,
    {
        self.n_features
    }

    /// Takes in the row with features `x` and target `y`.
    pub fn update_row(&mut self, x: &[T], y: T)
        requires
            old(self)@.wf(),
            x@.len() >= old(self)@.n_features,
        ensures
            final(self)@ == stepped(old(self)@, x@, y),
            final(self)@.wf(),
    {
        self.accumulate(x, y);
        let ghost start = self@;
        let mut sweep: usize = 0;
        while sweep < self.max_iter
            invariant_except_break
                sweep <= start.options.max_iter,
                self@.options == start.options,
                descended(start, start.options.max_iter as nat) == descended(
                    self@,
                    (start.options.max_iter - sweep) as nat,
                ),
            invariant
                self@.wf(),
            ensures
                descended(start, start.options.max_iter as nat) == self@,
            decreases start.options.max_iter - sweep,
        {
            let max_delta = self.sweep();
            if max_delta.less(self.tol) {
                break;
            }
            sweep += 1;
        }
    }

    /// Adds a row to the weighted sums.
    fn accumulate(&mut self, x: &[T], y: T)
        requires
            old(self)@.wf(),
            x@.len() >= old(self)@.n_features,
        ensures
            final(self)@ == accumulated(old(self)@, x@, y),
            final(self)@.wf(),
    {
        let ghost st = self@;
        let n: usize = self.n_features;
        let decay = self.decay;
        self.wsum = decay.times(self.wsum).plus(T::one());

        let mut j: usize = 0;
        while j < n
            invariant
                st.wf(),
                n == st.n_features,
                decay == st.options.decay,
                x@.len() >= n,
                j <= n,
                self@ == (LassoModel { wsum: self.wsum, m: self.m@, ..st }),
                self.wsum == accumulated(st, x@, y).wsum,
                self.m@.len() == n,
                forall|i: int| 0 <= i < j ==> self.m@[i] == accumulated(st, x@, y).m[i],
                forall|i: int| j <= i < n ==> self.m@[i] == st.m[i],
            decreases n - j,
        {
            let v = decay.times(self.m[j]).plus(x[j]);
            self.m.set(j, v);
            j += 1;
        }
        assert(self.m@ == accumulated(st, x@, y).m);

        let mut i: usize = 0;
        while i < n
            invariant
                st.wf(),
                n == st.n_features,
                decay == st.options.decay,
                x@.len() >= n,
                i <= n,
                self@ == (LassoModel { wsum: self.wsum, m: self.m@, s: self.s@, ..st }),
                self.wsum == accumulated(st, x@, y).wsum,
                self.m@ == accumulated(st, x@, y).m,
                self.s@.len() == n * n,
                forall|p: int| 0 <= p < i * n ==> self.s@[p] == accumulated(st, x@, y).s[p],
                forall|p: int| i * n <= p < n * n ==> self.s@[p] == st.s[p],
            decreases n - i,
        {
            let x_i = x[i];
            proof {
                lemma_entry(i as int, 0, n as int);
                assert(self.s.len() == n * n);
            }
            let row_offset: usize = i * n;
            let mut k: usize = 0;
            while k < n
                invariant
                    st.wf(),
                    n == st.n_features,
                    decay == st.options.decay,
                    x@.len() >= n,
                    i < n,
                    k <= n,
                    row_offset == i * n,
                    x_i == x@[i as int],
                    self@ == (LassoModel { wsum: self.wsum, m: self.m@, s: self.s@, ..st }),
                    self.wsum == accumulated(st, x@, y).wsum,
                    self.m@ == accumulated(st, x@, y).m,
                    self.s@.len() == n * n,
                    self.s@.len() <= usize::MAX,
                    forall|p: int|
                        0 <= p < row_offset + k ==> self.s@[p] == accumulated(st, x@, y).s[p],
                    forall|p: int| row_offset + k <= p < n * n ==> self.s@[p] == st.s[p],
                decreases n - k,
            {
                proof {
                    lemma_entry(i as int, k as int, n as int);
                }
                let v = decay.times(self.s[row_offset + k]).plus(x_i.times(x[k]));
                self.s.set(row_offset + k, v);
                k += 1;
            }
            assert((i + 1) * n == i * n + n) by (nonlinear_arith);
            i += 1;
        }
        assert(self.s@ == accumulated(st, x@, y).s);

        let mut j: usize = 0;
        while j < n
            invariant
                st.wf(),
                n == st.n_features,
                decay == st.options.decay,
                x@.len() >= n,
                j <= n,
                self@ == (LassoModel {
                    wsum: self.wsum,
                    m: self.m@,
                    s: self.s@,
                    z: self.z@,
                    ..st
                }),
                self.wsum == accumulated(st, x@, y).wsum,
                self.m@ == accumulated(st, x@, y).m,
                self.s@ == accumulated(st, x@, y).s,
                self.z@.len() == n,
                forall|i: int| 0 <= i < j ==> self.z@[i] == accumulated(st, x@, y).z[i],
                forall|i: int| j <= i < n ==> self.z@[i] == st.z[i],
            decreases n - j,
        {
            let v = decay.times(self.z[j]).plus(x[j].times(y));
            self.z.set(j, v);
            j += 1;
        }
        assert(self.z@ == accumulated(st, x@, y).z);
    }

    /// Improves every coefficient once and returns the largest change.
    fn sweep(&mut self) -> (max_delta: T)
        requires
            old(self)@.wf(),
        ensures
            final(self)@ == swept(old(self)@, old(self)@.n_features as int),
            max_delta == largest_change(old(self)@, old(self)@.n_features as int),
            final(self)@.wf(),
            final(self)@.options == old(self)@.options,
            final(self)@.n_features == old(self)@.n_features,
    {
        let ghost st = self@;
        let n: usize = self.n_features;
        let mut max_delta = T::zero();
        let mut j: usize = 0;
        while j < n
            invariant
                st.wf(),
                n == st.n_features,
                j <= n,
                self@ == swept(st, j as int),
                max_delta == largest_change(st, j as int),
            decreases n - j,
        {
            proof {
                sweep_keeps_all_but_the_coefficients(st, j as int);
                sweep_keeps_all_but_the_coefficients(st, j + 1);
            }
            let rho = self.residual(j);
            let thr = self.threshold(j);
            let beta_old = self.coef[j];
            let weight = self.cross(j, j);
            let beta = if thr.less(rho) {
                rho.minus(thr).over(weight)
            } else if rho.less(thr.negated()) {
                rho.plus(thr).over(weight)
            } else {
                T::zero()
            };
            self.coef.set(j, beta);
            assert(self@ == swept(st, j + 1));
            let delta = beta.minus(beta_old).magnitude();
            if max_delta.less(delta) {
                max_delta = delta;
            }
            j += 1;
        }
        proof {
            sweep_keeps_all_but_the_coefficients(st, n as int);
        }
        max_delta
    }

    fn cross(&self, i: usize, j: usize) -> (r: T)
        requires
            self@.wf(),
            i < self@.n_features,
            j < self@.n_features,
        ensures
            r == cross(self@, i as int, j as int),
    {
        proof {
            lemma_entry(i as int, j as int, self.n_features as int);
            assert(self.s.len() == self.n_features * self.n_features);
        }
        self.s[i * self.n_features + j]
    }

    fn residual(&self, j: usize) -> (rho: T)
        requires
            self@.wf(),
            j < self@.n_features,
        ensures
            rho == residual(self@, j as int, self@.n_features as int),
    {
        let mut rho = self.z[j];
        let mut k: usize = 0;
        while k < self.n_features
            invariant
                self@.wf(),
                j < self@.n_features,
                k <= self@.n_features,
                rho == residual(self@, j as int, k as int),
            decreases self.n_features - k,
        {
            if k != j {
                rho = rho.minus(self.cross(j, k).times(self.coef[k]));
            }
            k += 1;
        }
        rho
    }

    fn threshold(&self, j: usize) -> (thr: T)
        requires
            self@.wf(),
            j < self@.n_features,
        ensures
            thr == threshold(self@, j as int),
    {
        let mean = self.m[j].over(self.wsum);
        let var_j = self.cross(j, j).over(self.wsum).minus(mean.times(mean));
        let sigma_j = if T::zero().less(var_j) {
            var_j.square_root()
        } else {
            T::zero()
        };
        self.alpha.times(sigma_j).times(self.wsum)
    }
}

} // verus!
