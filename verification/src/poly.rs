//! Laurent polynomials over the integers in one formal variable `q`.
//!
//! A polynomial is a dense coefficient vector together with a degree shift:
//! `terms[i]` is the coefficient of `q^(shift + i)`.  Negative exponents are
//! allowed.  Two values are equal exactly when they represent the same
//! coefficient function, independently of how the pair `(terms, shift)` is
//! normalized.

use vstd::prelude::*;

verus! {

use vstd::arithmetic::power::pow;
use vstd::math::abs;
use vstd::math::max;
use vstd::math::min;

/// A Laurent polynomial: `terms[i]` is the coefficient of `q^(shift + i)`.
#[derive(Clone, Debug)]
pub struct Polynomial {
    terms: Vec<i64>,
    shift: i64,
}

/// Coefficient of `q^e` in the polynomial represented by `(terms, shift)`.
pub open spec fn coeff_at(terms: Seq<i64>, shift: int, e: int) -> int {
    if shift <= e && e < shift + terms.len() {
        terms[e - shift] as int
    } else {
        0
    }
}

impl Polynomial {
    pub closed spec fn spec_terms(&self) -> Seq<i64> {
        self.terms@
    }

    pub closed spec fn spec_shift(&self) -> int {
        self.shift as int
    }

    /// The coefficient function this value represents.
    pub open spec fn spec_coeff(&self, e: int) -> int {
        coeff_at(self.spec_terms(), self.spec_shift(), e)
    }

    /// One past the largest exponent covered by the backing vector.
    pub open spec fn spec_degree(&self) -> int {
        self.spec_shift() + self.spec_terms().len()
    }

    /// The backing vector stays addressable with `i64` exponents.
    pub open spec fn wf(&self) -> bool {
        &&& self.spec_terms().len() <= i64::MAX
        &&& self.spec_shift() + self.spec_terms().len() <= i64::MAX
    }
}

/// Sum of the absolute values of the first `k` entries of `t`.
pub open spec fn sum_abs_prefix(t: Seq<i64>, k: int) -> int
    decreases k,
{
    if k <= 0 {
        0
    } else {
        sum_abs_prefix(t, k - 1) + abs(t[k - 1] as int)
    }
}

/// Sum of the absolute values of the entries of `t`.
pub open spec fn sum_abs(t: Seq<i64>) -> int {
    sum_abs_prefix(t, t.len() as int)
}

/// Largest absolute value among the first `k` entries of `t` (0 if none).
pub open spec fn max_abs_prefix(t: Seq<i64>, k: int) -> int
    decreases k,
{
    if k <= 0 {
        0
    } else {
        max(max_abs_prefix(t, k - 1), abs(t[k - 1] as int) as int)
    }
}

/// Largest absolute value among the entries of `t` (0 if none).
pub open spec fn max_abs(t: Seq<i64>) -> int {
    max_abs_prefix(t, t.len() as int)
}

/// Partial Cauchy convolution: the coefficient of `q^e` contributed by the
/// first `k` terms of `(pt, ps)` against the coefficient function `q`.
pub open spec fn convf_prefix(pt: Seq<i64>, ps: int, q: spec_fn(int) -> int, e: int, k: int) -> int
    decreases k,
{
    if k <= 0 {
        0
    } else {
        convf_prefix(pt, ps, q, e, k - 1) + pt[k - 1] * q(e - ps - (k - 1))
    }
}

/// Coefficient of `q^e` in the product of `(pt, ps)` with the coefficient
/// function `q`.
pub open spec fn convf(pt: Seq<i64>, ps: int, q: spec_fn(int) -> int, e: int) -> int {
    convf_prefix(pt, ps, q, e, pt.len() as int)
}

/// The coefficient function of the pair `(t, s)`, as a value.
pub open spec fn coeff_fn(t: Seq<i64>, s: int) -> spec_fn(int) -> int {
    |e: int| coeff_at(t, s, e)
}

/// Coefficient of `q^e` in the `k`-th power of `(pt, ps)`; the 0th power is
/// the multiplicative identity.
pub open spec fn pow_coeff(pt: Seq<i64>, ps: int, k: nat, e: int) -> int
    decreases k, 0int,
{
    if k == 0 {
        if e == 0 {
            1
        } else {
            0
        }
    } else {
        convf(pt, ps, pow_fn(pt, ps, (k - 1) as nat), e)
    }
}

/// The coefficient function of the `k`-th power of `(pt, ps)`, as a value.
pub open spec fn pow_fn(pt: Seq<i64>, ps: int, k: nat) -> spec_fn(int) -> int
    decreases k, 1int,
{
    |x: int| pow_coeff(pt, ps, k, x)
}

/// Two polynomials represent the same coefficient function.
pub open spec fn same_poly(p: &Polynomial, q: &Polynomial) -> bool {
    forall|e: int| p.spec_coeff(e) == q.spec_coeff(e)
}

proof fn lemma_sum_abs_prefix_nonneg(t: Seq<i64>, k: int)
    ensures
        sum_abs_prefix(t, k) >= 0,
    decreases k,
{
    if k > 0 {
        lemma_sum_abs_prefix_nonneg(t, k - 1);
    }
}

proof fn lemma_sum_abs_prefix_mono(t: Seq<i64>, k1: int, k2: int)
    requires
        k1 <= k2,
    ensures
        sum_abs_prefix(t, k1) <= sum_abs_prefix(t, k2),
    decreases k2 - k1,
{
    if k1 < k2 {
        lemma_sum_abs_prefix_mono(t, k1, k2 - 1);
    }
}

proof fn lemma_entry_le_sum(t: Seq<i64>, i: int, k: int)
    requires
        0 <= i < k,
    ensures
        abs(t[i] as int) <= sum_abs_prefix(t, k),
{
    lemma_sum_abs_prefix_nonneg(t, i);
    lemma_sum_abs_prefix_mono(t, i + 1, k);
}

proof fn lemma_max_abs_prefix_nonneg(t: Seq<i64>, k: int)
    ensures
        max_abs_prefix(t, k) >= 0,
    decreases k,
{
    if k > 0 {
        lemma_max_abs_prefix_nonneg(t, k - 1);
    }
}

proof fn lemma_entry_le_max(t: Seq<i64>, i: int, k: int)
    requires
        0 <= i < k,
    ensures
        abs(t[i] as int) <= max_abs_prefix(t, k),
    decreases k,
{
    if i < k - 1 {
        lemma_entry_le_max(t, i, k - 1);
    }
}

proof fn lemma_coeff_at_le_max(t: Seq<i64>, s: int, e: int)
    ensures
        abs(coeff_at(t, s, e)) <= max_abs(t),
{
    lemma_max_abs_prefix_nonneg(t, t.len() as int);
    if s <= e < s + t.len() {
        lemma_entry_le_max(t, e - s, t.len() as int);
    }
}

proof fn lemma_max_abs_prefix_le(t: Seq<i64>, k: int, b: int)
    requires
        b >= 0,
        forall|j: int| 0 <= j < k ==> abs(t[j] as int) <= b,
    ensures
        max_abs_prefix(t, k) <= b,
    decreases k,
{
    if k > 0 {
        lemma_max_abs_prefix_le(t, k - 1, b);
    }
}

/// If the coefficient function `q` is bounded by `b`, a partial convolution
/// against it is bounded by the corresponding partial sum of absolute values.
proof fn lemma_convf_prefix_bound(pt: Seq<i64>, ps: int, q: spec_fn(int) -> int, e: int, k: int, b: int)
    requires
        b >= 0,
        forall|x: int| abs(#[trigger] q(x)) <= b,
    ensures
        abs(convf_prefix(pt, ps, q, e, k)) <= sum_abs_prefix(pt, k) * b,
    decreases k,
{
    if k <= 0 {
    } else {
        lemma_convf_prefix_bound(pt, ps, q, e, k - 1, b);
        let c = convf_prefix(pt, ps, q, e, k - 1);
        let a = pt[k - 1] as int;
        let qv = q(e - ps - (k - 1));
        assert(abs(a * qv) <= abs(a) * b) by (nonlinear_arith)
            requires
                abs(qv) <= b,
                b >= 0,
        ;
        assert((sum_abs_prefix(pt, k - 1) + abs(a)) * b == sum_abs_prefix(pt, k - 1) * b + abs(a)
            * b) by (nonlinear_arith);
    }
}

/// Builds the polynomial whose coefficient of `q^(shift + i)` is `terms[i]`.
pub fn new(terms: Vec<i64>, shift: i64) -> (p: Polynomial)
    requires
        terms@.len() <= i64::MAX,
        shift + terms@.len() <= i64::MAX,
    ensures
        p.wf(),
        p.spec_terms() == terms@,
        p.spec_shift() == shift,
{
    Polynomial { terms, shift }
}

impl Polynomial {
    /// One past the largest exponent covered by the backing vector.
    pub fn degree(&self) -> (d: i64)
        requires
            self.wf(),
        ensures
            d == self.spec_degree(),
    {
        self.shift + self.terms.len() as i64
    }

    /// The degree offset: the exponent of the first stored coefficient.
    pub fn offset(&self) -> (s: i64)
        ensures
            s == self.spec_shift(),
    {
        self.shift
    }

    /// Bounds-checked coefficient lookup: 0 outside the stored span.
    pub fn coeff(&self, term: i64) -> (c: i64)
        requires
            self.wf(),
        ensures
            c == self.spec_coeff(term as int),
    {
        if term < self.shift {
            return 0;
        }
        let d = self.shift + self.terms.len() as i64;
        if term >= d {
            return 0;
        }
        let index = (term - self.shift) as usize;
        self.terms[index]
    }

    /// Same coefficients, with every exponent raised by `shift`: multiplies
    /// the represented value by `q^shift`.
    pub fn shift(&self, shift: i64) -> (r: Polynomial)
        requires
            self.wf(),
            i64::MIN <= self.spec_shift() + shift,
            self.spec_shift() + shift + self.spec_terms().len() <= i64::MAX,
        ensures
            r.wf(),
            r.spec_terms() == self.spec_terms(),
            r.spec_shift() == self.spec_shift() + shift,
            forall|e: int| r.spec_coeff(e) == self.spec_coeff(e - shift),
    {
        let mut terms: Vec<i64> = Vec::new();
        let mut i: usize = 0;
        while i < self.terms.len()
            invariant
                i <= self.terms@.len(),
                terms@ =~= self.terms@.subrange(0, i as int),
            decreases self.terms@.len() - i,
        {
            terms.push(self.terms[i]);
            i = i + 1;
        }
        proof {
            assert(terms@ =~= self.terms@);
        }
        Polynomial { terms, shift: self.shift + shift }
    }

    /// Coefficient lookup over a wide exponent, used by equality, which may
    /// not assume anything about its operands.
    fn coeff_wide(&self, e: i128) -> (c: i64)
        requires
            -0x4000_0000_0000_0000_0000_0000_0000_0000 <= e
                < 0x4000_0000_0000_0000_0000_0000_0000_0000,
        ensures
            c as int == self.spec_coeff(e as int),
    {
        let idx = e - self.shift as i128;
        if idx >= 0 && idx < self.terms.len() as i128 {
            self.terms[idx as usize]
        } else {
            0
        }
    }

    /// Per-coefficient sign flip, same shift.
    pub fn neg(&self) -> (r: Polynomial)
        requires
            self.wf(),
            forall|e: int| self.spec_coeff(e) != i64::MIN,
        ensures
            r.wf(),
            r.spec_shift() == self.spec_shift(),
            r.spec_terms().len() == self.spec_terms().len(),
            forall|e: int| r.spec_coeff(e) == -self.spec_coeff(e),
    {
        let mut terms: Vec<i64> = Vec::new();
        let mut i: usize = 0;
        while i < self.terms.len()
            invariant
                i <= self.terms@.len(),
                terms@.len() == i,
                forall|e: int| self.spec_coeff(e) != i64::MIN,
                self.wf(),
                forall|j: int| 0 <= j < i ==> terms@[j] == -(self.terms@[j] as int),
            decreases self.terms@.len() - i,
        {
            proof {
                assert(self.terms@[i as int] as int == self.spec_coeff(
                    self.spec_shift() + i,
                ));
            }
            terms.push(-self.terms[i]);
            i = i + 1;
        }
        let r = Polynomial { terms, shift: self.shift };
        proof {
            assert forall|e: int| r.spec_coeff(e) == -self.spec_coeff(e) by {
                if self.spec_shift() <= e < self.spec_shift() + self.spec_terms().len() {
                    assert(r.spec_terms()[e - r.spec_shift()] == -(self.spec_terms()[e
                        - self.spec_shift()] as int));
                }
            }
        }
        r
    }

    /// Coefficientwise sum, aligned at the smaller shift and padded with
    /// zeros over the union of both spans.
    pub fn add(&self, rhs: &Polynomial) -> (r: Polynomial)
        requires
            self.wf(),
            rhs.wf(),
            max(self.spec_degree(), rhs.spec_degree()) - min(
                self.spec_shift(),
                rhs.spec_shift(),
            ) <= i64::MAX,
            max(self.spec_degree(), rhs.spec_degree()) - min(
                self.spec_shift(),
                rhs.spec_shift(),
            ) <= usize::MAX,
            forall|e: int|
                #![trigger self.spec_coeff(e)]
                #![trigger rhs.spec_coeff(e)]
                i64::MIN <= self.spec_coeff(e) + rhs.spec_coeff(e) <= i64::MAX,
        ensures
            r.wf(),
            r.spec_shift() == min(self.spec_shift(), rhs.spec_shift()),
            r.spec_terms().len() == max(self.spec_degree(), rhs.spec_degree()) - min(
                self.spec_shift(),
                rhs.spec_shift(),
            ),
            forall|e: int| r.spec_coeff(e) == self.spec_coeff(e) + rhs.spec_coeff(e),
    {
        let shift = if self.shift <= rhs.shift {
            self.shift
        } else {
            rhs.shift
        };
        let d1 = self.degree();
        let d2 = rhs.degree();
        let degree = if d1 >= d2 {
            d1
        } else {
            d2
        };
        let span_wide: i128 = degree as i128 - shift as i128;
        proof {
            assert(0 <= span_wide <= i64::MAX);
            assert(span_wide <= usize::MAX);
        }
        let span = span_wide as usize;
        let mut terms: Vec<i64> = Vec::new();
        let mut t: usize = 0;
        while t < span
            invariant
                self.wf(),
                rhs.wf(),
                forall|e: int|
                    #![trigger self.spec_coeff(e)]
                    #![trigger rhs.spec_coeff(e)]
                    i64::MIN <= self.spec_coeff(e) + rhs.spec_coeff(e) <= i64::MAX,
                t <= span,
                span <= i64::MAX,
                span == max(self.spec_degree(), rhs.spec_degree()) - min(
                    self.spec_shift(),
                    rhs.spec_shift(),
                ),
                shift == min(self.spec_shift(), rhs.spec_shift()),
                terms@.len() == t,
                forall|j: int|
                    0 <= j < t ==> terms@[j] as int == self.spec_coeff(shift + j)
                        + rhs.spec_coeff(shift + j),
            decreases span - t,
        {
            proof {
                assert(shift + span == max(self.spec_degree(), rhs.spec_degree()));
            }
            let e = shift + t as i64;
            let c = self.coeff(e) + rhs.coeff(e);
            terms.push(c);
            t = t + 1;
        }
        let r = Polynomial { terms, shift };
        proof {
            assert forall|e: int| r.spec_coeff(e) == self.spec_coeff(e) + rhs.spec_coeff(e) by {
                if !(r.spec_shift() <= e < r.spec_shift() + r.spec_terms().len()) {
                    assert(self.spec_coeff(e) == 0);
                    assert(rhs.spec_coeff(e) == 0);
                }
            }
        }
        r
    }

    /// Coefficientwise difference, aligned like `add`.
    pub fn sub(&self, rhs: &Polynomial) -> (r: Polynomial)
        requires
            self.wf(),
            rhs.wf(),
            max(self.spec_degree(), rhs.spec_degree()) - min(
                self.spec_shift(),
                rhs.spec_shift(),
            ) <= i64::MAX,
            max(self.spec_degree(), rhs.spec_degree()) - min(
                self.spec_shift(),
                rhs.spec_shift(),
            ) <= usize::MAX,
            forall|e: int|
                #![trigger self.spec_coeff(e)]
                #![trigger rhs.spec_coeff(e)]
                i64::MIN <= self.spec_coeff(e) - rhs.spec_coeff(e) <= i64::MAX,
        ensures
            r.wf(),
            r.spec_shift() == min(self.spec_shift(), rhs.spec_shift()),
            r.spec_terms().len() == max(self.spec_degree(), rhs.spec_degree()) - min(
                self.spec_shift(),
                rhs.spec_shift(),
            ),
            forall|e: int| r.spec_coeff(e) == self.spec_coeff(e) - rhs.spec_coeff(e),
    {
        let shift = if self.shift <= rhs.shift {
            self.shift
        } else {
            rhs.shift
        };
        let d1 = self.degree();
        let d2 = rhs.degree();
        let degree = if d1 >= d2 {
            d1
        } else {
            d2
        };
        let span_wide: i128 = degree as i128 - shift as i128;
        proof {
            assert(0 <= span_wide <= i64::MAX);
            assert(span_wide <= usize::MAX);
        }
        let span = span_wide as usize;
        let mut terms: Vec<i64> = Vec::new();
        let mut t: usize = 0;
        while t < span
            invariant
                self.wf(),
                rhs.wf(),
                forall|e: int|
                    #![trigger self.spec_coeff(e)]
                    #![trigger rhs.spec_coeff(e)]
                    i64::MIN <= self.spec_coeff(e) - rhs.spec_coeff(e) <= i64::MAX,
                t <= span,
                span <= i64::MAX,
                span == max(self.spec_degree(), rhs.spec_degree()) - min(
                    self.spec_shift(),
                    rhs.spec_shift(),
                ),
                shift == min(self.spec_shift(), rhs.spec_shift()),
                terms@.len() == t,
                forall|j: int|
                    0 <= j < t ==> terms@[j] as int == self.spec_coeff(shift + j)
                        - rhs.spec_coeff(shift + j),
            decreases span - t,
        {
            proof {
                assert(shift + span == max(self.spec_degree(), rhs.spec_degree()));
            }
            let e = shift + t as i64;
            let c = self.coeff(e) - rhs.coeff(e);
            terms.push(c);
            t = t + 1;
        }
        let r = Polynomial { terms, shift };
        proof {
            assert forall|e: int| r.spec_coeff(e) == self.spec_coeff(e) - rhs.spec_coeff(e) by {
                if !(r.spec_shift() <= e < r.spec_shift() + r.spec_terms().len()) {
                    assert(self.spec_coeff(e) == 0);
                    assert(rhs.spec_coeff(e) == 0);
                }
            }
        }
        r
    }
}

impl Polynomial {
    /// Cauchy product: for each term of `self`, the scalar multiple of `rhs`
    /// shifted by that term's position is accumulated into a running total
    /// that starts from the zero polynomial at the combined shift.
    pub fn mul(&self, rhs: &Polynomial) -> (r: Polynomial)
        requires
            self.wf(),
            rhs.wf(),
            i64::MIN <= self.spec_shift() + rhs.spec_shift(),
            self.spec_shift() + rhs.spec_shift() + self.spec_terms().len()
                + rhs.spec_terms().len() <= i64::MAX,
            self.spec_terms().len() + rhs.spec_terms().len() <= i64::MAX,
            self.spec_terms().len() + rhs.spec_terms().len() <= usize::MAX,
            sum_abs(self.spec_terms()) * max_abs(rhs.spec_terms()) <= i64::MAX,
        ensures
            r.wf(),
            r.spec_shift() == self.spec_shift() + rhs.spec_shift(),
            r.spec_terms().len() <= self.spec_terms().len() + rhs.spec_terms().len(),
            forall|e: int|
                r.spec_coeff(e) == convf(
                    self.spec_terms(),
                    self.spec_shift(),
                    coeff_fn(rhs.spec_terms(), rhs.spec_shift()),
                    e,
                ),
    {
        let ghost pt = self.spec_terms();
        let ghost ps = self.spec_shift();
        let ghost qt = rhs.spec_terms();
        let ghost qs = rhs.spec_shift();
        let ghost qf = coeff_fn(qt, qs);
        let ghost bq = max_abs(qt);
        proof {
            lemma_max_abs_prefix_nonneg(qt, qt.len() as int);
            lemma_sum_abs_prefix_nonneg(pt, pt.len() as int);
            assert forall|x: int| abs(#[trigger] qf(x)) <= bq by {
                lemma_coeff_at_le_max(qt, qs, x);
            }
        }
        let base = self.shift + rhs.shift;
        let empty: Vec<i64> = Vec::new();
        let mut product = Polynomial { terms: empty, shift: base };
        let mut s: usize = 0;
        while s < self.terms.len()
            invariant
                self.wf(),
                rhs.wf(),
                pt == self.spec_terms(),
                ps == self.spec_shift(),
                qt == rhs.spec_terms(),
                qs == rhs.spec_shift(),
                qf == coeff_fn(qt, qs),
                bq == max_abs(qt),
                bq >= 0,
                forall|x: int| abs(#[trigger] qf(x)) <= bq,
                base == ps + qs,
                ps + qs + pt.len() + qt.len() <= i64::MAX,
                pt.len() + qt.len() <= i64::MAX,
                pt.len() + qt.len() <= usize::MAX,
                sum_abs(pt) * bq <= i64::MAX,
                s <= pt.len(),
                product.wf(),
                product.spec_shift() == base as int,
                product.spec_terms().len() <= s + qt.len(),
                forall|e: int|
                    #[trigger] product.spec_coeff(e) == convf_prefix(pt, ps, qf, e, s as int),
            decreases pt.len() - s,
        {
            let factor = self.terms[s];
            proof {
                lemma_entry_le_sum(pt, s as int, pt.len() as int);
                lemma_sum_abs_prefix_nonneg(pt, pt.len() as int);
            }
            let mut vec: Vec<i64> = Vec::new();
            let mut j: usize = 0;
            while j < rhs.terms.len()
                invariant
                    rhs.wf(),
                    qt == rhs.spec_terms(),
                    factor == pt[s as int],
                    0 <= s < pt.len(),
                    abs(factor as int) <= sum_abs(pt),
                    sum_abs(pt) * bq <= i64::MAX,
                    bq == max_abs(qt),
                    bq >= 0,
                    sum_abs(pt) >= 0,
                    j <= qt.len(),
                    vec@.len() == j,
                    forall|i2: int| 0 <= i2 < j ==> vec@[i2] as int == factor * (qt[i2] as int),
                decreases qt.len() - j,
            {
                let q_j = rhs.terms[j];
                proof {
                    lemma_entry_le_max(qt, j as int, qt.len() as int);
                    assert(abs((factor as int) * (q_j as int)) <= sum_abs(pt) * bq)
                        by (nonlinear_arith)
                        requires
                            abs(factor as int) <= sum_abs(pt),
                            abs(q_j as int) <= bq,
                            bq >= 0,
                            sum_abs(pt) >= 0,
                    ;
                }
                vec.push(factor * q_j);
                j = j + 1;
            }
            let scaled = Polynomial { terms: vec, shift: base + s as i64 };
            proof {
                // the scalar multiple is exactly the `s`-th convolution summand
                assert(scaled.spec_shift() == ps + qs + s);
                assert(scaled.spec_terms() == vec@);
                assert forall|e: int| scaled.spec_coeff(e) == pt[s as int] * qf(e - ps - s) by {
                    assert(qf(e - ps - s) == coeff_at(qt, qs, e - ps - s));
                    if scaled.spec_shift() <= e < scaled.spec_shift() + scaled.spec_terms().len() {
                        let idx = e - scaled.spec_shift();
                        assert(0 <= idx < vec@.len());
                        assert(vec@[idx] as int == factor * (qt[idx] as int));
                        assert(scaled.spec_coeff(e) == vec@[idx] as int);
                        assert(e - ps - s - qs == idx);
                        assert(coeff_at(qt, qs, e - ps - s) == qt[idx] as int);
                    } else {
                        assert(scaled.spec_coeff(e) == 0);
                        assert(coeff_at(qt, qs, e - ps - s) == 0);
                    }
                }
                // bounds that let the running total absorb the new summand
                lemma_sum_abs_prefix_mono(pt, s + 1 as int, pt.len() as int);
                assert forall|e: int|
                    i64::MIN <= #[trigger] product.spec_coeff(e) + scaled.spec_coeff(e)
                        <= i64::MAX by {
                    lemma_convf_prefix_bound(pt, ps, qf, e, s as int, bq);
                    lemma_sum_abs_prefix_nonneg(pt, s as int);
                    assert(abs(pt[s as int] * qf(e - ps - s)) <= abs(pt[s as int] as int) * bq)
                        by (nonlinear_arith)
                        requires
                            abs(qf(e - ps - s)) <= bq,
                            bq >= 0,
                    ;
                    assert((sum_abs_prefix(pt, s as int) + abs(pt[s as int] as int)) * bq
                        == sum_abs_prefix(pt, s as int) * bq + abs(pt[s as int] as int) * bq)
                        by (nonlinear_arith);
                    assert(sum_abs_prefix(pt, s + 1) * bq <= sum_abs(pt) * bq) by (nonlinear_arith)
                        requires
                            sum_abs_prefix(pt, s + 1) <= sum_abs(pt),
                            bq >= 0,
                    ;
                }
            }
            let next = product.add(&scaled);
            proof {
                assert forall|e: int|
                    #[trigger] next.spec_coeff(e) == convf_prefix(pt, ps, qf, e, s + 1) by {
                    assert(next.spec_coeff(e) == product.spec_coeff(e) + scaled.spec_coeff(e));
                }
            }
            product = next;
            s = s + 1;
        }
        product
    }

    /// Repeated multiplication starting from the multiplicative identity;
    /// `exp == 0` yields the identity.
    pub fn pow(&self, exp: usize) -> (r: Polynomial)
        requires
            self.wf(),
            exp * (abs(self.spec_shift()) + self.spec_terms().len() + 1) <= i64::MAX,
            exp * (abs(self.spec_shift()) + self.spec_terms().len() + 1) <= usize::MAX,
            pow(sum_abs(self.spec_terms()), exp as nat) <= i64::MAX,
        ensures
            r.wf(),
            r.spec_shift() == exp * self.spec_shift(),
            r.spec_terms().len() <= exp * self.spec_terms().len() + 1,
            forall|e: int|
                r.spec_coeff(e) == pow_coeff(
                    self.spec_terms(),
                    self.spec_shift(),
                    exp as nat,
                    e,
                ),
    {
        let ghost pt = self.spec_terms();
        let ghost ps = self.spec_shift();
        let ghost sa = sum_abs(pt);
        let ghost cap = abs(ps) + pt.len() + 1;
        proof {
            lemma_sum_abs_prefix_nonneg(pt, pt.len() as int);
        }
        let mut one_terms: Vec<i64> = Vec::new();
        one_terms.push(1);
        let mut ret = Polynomial { terms: one_terms, shift: 0 };
        proof {
            assert forall|e: int| #[trigger] ret.spec_coeff(e) == pow_coeff(pt, ps, 0, e) by {
                if e == 0 {
                    assert(ret.spec_coeff(0) == ret.spec_terms()[0]);
                }
            }
        }
        let mut k: usize = 0;
        while k < exp
            invariant
                self.wf(),
                pt == self.spec_terms(),
                ps == self.spec_shift(),
                sa == sum_abs(pt),
                sa >= 0,
                cap == abs(ps) + pt.len() + 1,
                exp * cap <= i64::MAX,
                exp * cap <= usize::MAX,
                pow(sa, exp as nat) <= i64::MAX,
                k <= exp,
                ret.wf(),
                ret.spec_shift() == k * ps,
                ret.spec_terms().len() <= k * pt.len() + 1,
                forall|e: int| #[trigger] ret.spec_coeff(e) == pow_coeff(pt, ps, k as nat, e),
            decreases exp - k,
        {
            proof {
                // shift and length budgets for this round of multiplication
                assert((k + 1) * abs(ps) + (k + 1) * pt.len() + 1 <= exp * cap)
                    by (nonlinear_arith)
                    requires
                        k + 1 <= exp,
                        cap == abs(ps) + pt.len() + 1,
                        exp * cap <= i64::MAX,
                ;
                assert(k * ps <= k * abs(ps) && k * ps >= -(k * abs(ps)) && (k + 1) * ps <= (k + 1)
                    * abs(ps) && (k + 1) * ps >= -((k + 1) * abs(ps))) by (nonlinear_arith);
                assert((k + 1) * abs(ps) <= exp * cap) by (nonlinear_arith)
                    requires
                        k + 1 <= exp,
                        cap >= abs(ps) + 1,
                        cap >= 1,
                        exp * cap <= i64::MAX,
                ;
                assert((k + 1) * ps == ps + k * ps) by (nonlinear_arith);
                assert((k + 1) * pt.len() == pt.len() + k * pt.len()) by (nonlinear_arith);
                // the coefficient bound for the running power
                lemma_pow_coeff_bound(pt, ps, k as nat);
                assert forall|j: int| 0 <= j < ret.spec_terms().len() implies abs(
                    ret.spec_terms()[j] as int,
                ) <= pow(sa, k as nat) by {
                    assert(ret.spec_coeff(ret.spec_shift() + j) == ret.spec_terms()[j] as int);
                }
                lemma_pow_nonneg(sa, k as nat);
                lemma_max_abs_prefix_le(
                    ret.spec_terms(),
                    ret.spec_terms().len() as int,
                    pow(sa, k as nat),
                );
                assert(pow(sa, (k + 1) as nat) == sa * pow(sa, k as nat)) by {
                    reveal(pow);
                }
                if sa >= 1 {
                    vstd::arithmetic::power::lemma_pow_increases(sa as nat, (k + 1) as nat, exp as nat);
                } else {
                    assert(sa * pow(sa, k as nat) == 0) by (nonlinear_arith)
                        requires
                            sa == 0,
                    ;
                }
                assert(sum_abs(pt) * max_abs(ret.spec_terms()) <= sa * pow(sa, k as nat))
                    by (nonlinear_arith)
                    requires
                        sa == sum_abs(pt),
                        sa >= 0,
                        max_abs(ret.spec_terms()) <= pow(sa, k as nat),
                ;
            }
            let next = self.mul(&ret);
            proof {
                let ghost rf = coeff_fn(ret.spec_terms(), ret.spec_shift());
                let ghost pf = pow_fn(pt, ps, k as nat);
                assert forall|x: int| #[trigger] rf(x) == pf(x) by {
                    assert(rf(x) == coeff_at(ret.spec_terms(), ret.spec_shift(), x));
                    assert(pf(x) == pow_coeff(pt, ps, k as nat, x));
                    assert(ret.spec_coeff(x) == pow_coeff(pt, ps, k as nat, x));
                }
                assert(rf =~= pf);
                assert forall|e: int| #[trigger] next.spec_coeff(e) == pow_coeff(
                    pt,
                    ps,
                    (k + 1) as nat,
                    e,
                ) by {
                    assert(pow_coeff(pt, ps, (k + 1) as nat, e) == convf(
                        pt,
                        ps,
                        pow_fn(pt, ps, k as nat),
                        e,
                    ));
                }
            }
            ret = next;
            k = k + 1;
        }
        ret
    }
}

proof fn lemma_pow_nonneg(b: int, e: nat)
    requires
        b >= 0,
    ensures
        pow(b, e) >= 0,
    decreases e,
{
    reveal(pow);
    if e > 0 {
        lemma_pow_nonneg(b, (e - 1) as nat);
        assert(b * pow(b, (e - 1) as nat) >= 0) by (nonlinear_arith)
            requires
                b >= 0,
                pow(b, (e - 1) as nat) >= 0,
        ;
    }
}

/// Every coefficient of the `k`-th power is bounded by the `k`-th power of
/// the sum of absolute values of the base's coefficients.
pub proof fn lemma_pow_coeff_bound(pt: Seq<i64>, ps: int, k: nat)
    ensures
        forall|e: int| abs(#[trigger] pow_coeff(pt, ps, k, e)) <= pow(sum_abs(pt), k),
    decreases k,
{
    lemma_sum_abs_prefix_nonneg(pt, pt.len() as int);
    let s = sum_abs(pt);
    if k == 0 {
        assert(pow(s, 0) == 1) by {
            reveal(pow);
        }
    } else {
        lemma_pow_coeff_bound(pt, ps, (k - 1) as nat);
        let f = pow_fn(pt, ps, (k - 1) as nat);
        let b = pow(s, (k - 1) as nat);
        lemma_pow_nonneg(s, (k - 1) as nat);
        assert forall|e: int| abs(#[trigger] pow_coeff(pt, ps, k, e)) <= pow(s, k) by {
            assert(pow_coeff(pt, ps, k, e) == convf(pt, ps, f, e));
            assert forall|x: int| abs(#[trigger] f(x)) <= b by {
                assert(f(x) == pow_coeff(pt, ps, (k - 1) as nat, x));
            }
            lemma_convf_prefix_bound(pt, ps, f, e, pt.len() as int, b);
            assert(pow(s, k) == s * b) by {
                reveal(pow);
            }
        }
    }
}

proof fn lemma_convf_prefix_zero(pt: Seq<i64>, ps: int, q: spec_fn(int) -> int, e: int, k: int)
    requires
        forall|x: int| #[trigger] q(x) == 0,
    ensures
        convf_prefix(pt, ps, q, e, k) == 0,
    decreases k,
{
    if k > 0 {
        lemma_convf_prefix_zero(pt, ps, q, e, k - 1);
    }
}

proof fn lemma_convf_prefix_delta(pt: Seq<i64>, ps: int, q: spec_fn(int) -> int, e: int, k: int)
    requires
        forall|x: int| #[trigger] q(x) == (if x == 0 { 1int } else { 0int }),
    ensures
        convf_prefix(pt, ps, q, e, k) == (if ps <= e < ps + k {
            pt[e - ps] as int
        } else {
            0
        }),
    decreases k,
{
    if k > 0 {
        lemma_convf_prefix_delta(pt, ps, q, e, k - 1);
    }
}

proof fn lemma_convf_prefix_congr(
    pt: Seq<i64>,
    ps: int,
    f: spec_fn(int) -> int,
    g: spec_fn(int) -> int,
    e: int,
    k: int,
)
    requires
        forall|x: int| #[trigger] f(x) == g(x),
    ensures
        convf_prefix(pt, ps, f, e, k) == convf_prefix(pt, ps, g, e, k),
    decreases k,
{
    if k > 0 {
        lemma_convf_prefix_congr(pt, ps, f, g, e, k - 1);
    }
}

proof fn lemma_convf_prefix_entries(
    pt1: Seq<i64>,
    pt2: Seq<i64>,
    ps: int,
    q: spec_fn(int) -> int,
    e: int,
    k: int,
)
    requires
        forall|i: int| 0 <= i < k ==> pt1[i] == pt2[i],
    ensures
        convf_prefix(pt1, ps, q, e, k) == convf_prefix(pt2, ps, q, e, k),
    decreases k,
{
    if k > 0 {
        lemma_convf_prefix_entries(pt1, pt2, ps, q, e, k - 1);
    }
}

proof fn lemma_convf_prefix_linear(
    pt: Seq<i64>,
    ps: int,
    f: spec_fn(int) -> int,
    g: spec_fn(int) -> int,
    h: spec_fn(int) -> int,
    e: int,
    k: int,
)
    requires
        forall|x: int| #[trigger] f(x) == g(x) + h(x),
    ensures
        convf_prefix(pt, ps, f, e, k) == convf_prefix(pt, ps, g, e, k) + convf_prefix(
            pt,
            ps,
            h,
            e,
            k,
        ),
    decreases k,
{
    if k > 0 {
        lemma_convf_prefix_linear(pt, ps, f, g, h, e, k - 1);
        let x = e - ps - (k - 1);
        let a = pt[k - 1] as int;
        assert(a * f(x) == a * g(x) + a * h(x)) by (nonlinear_arith)
            requires
                f(x) == g(x) + h(x),
        ;
    }
}

proof fn lemma_convf_prefix_one_point(
    qt: Seq<i64>,
    qs: int,
    f: spec_fn(int) -> int,
    g: spec_fn(int) -> int,
    e: int,
    k: int,
    d: int,
)
    requires
        forall|x: int| x != d ==> #[trigger] f(x) == g(x),
    ensures
        convf_prefix(qt, qs, f, e, k) - convf_prefix(qt, qs, g, e, k) == (if 0 <= e - qs - d
            < k {
            qt[e - qs - d] * (f(d) - g(d))
        } else {
            0
        }),
    decreases k,
{
    if k > 0 {
        lemma_convf_prefix_one_point(qt, qs, f, g, e, k - 1, d);
        let x = e - qs - (k - 1);
        let a = qt[k - 1] as int;
        if x == d {
            assert(a * f(d) - a * g(d) == a * (f(d) - g(d))) by (nonlinear_arith);
        }
    }
}

proof fn lemma_convf_prefix_scale(
    pt: Seq<i64>,
    ps: int,
    f: spec_fn(int) -> int,
    h: spec_fn(int) -> int,
    c: int,
    e: int,
    k: int,
)
    requires
        forall|x: int| #[trigger] h(x) == c * f(x),
    ensures
        convf_prefix(pt, ps, h, e, k) == c * convf_prefix(pt, ps, f, e, k),
    decreases k,
{
    if k <= 0 {
        assert(c * 0 == 0) by (nonlinear_arith);
    } else {
        lemma_convf_prefix_scale(pt, ps, f, h, c, e, k - 1);
        let a = pt[k - 1] as int;
        let x = e - ps - (k - 1);
        assert(a * (c * f(x)) == c * (a * f(x))) by (nonlinear_arith);
        assert(c * convf_prefix(pt, ps, f, e, k - 1) + c * (a * f(x)) == c * (convf_prefix(
            pt,
            ps,
            f,
            e,
            k - 1,
        ) + a * f(x))) by (nonlinear_arith);
    }
}

proof fn lemma_convf_prefix_shift(
    pt: Seq<i64>,
    ps: int,
    f: spec_fn(int) -> int,
    fs: spec_fn(int) -> int,
    d: int,
    e: int,
    k: int,
)
    requires
        forall|x: int| #[trigger] fs(x) == f(x - d),
    ensures
        convf_prefix(pt, ps, fs, e, k) == convf_prefix(pt, ps, f, e - d, k),
    decreases k,
{
    if k > 0 {
        lemma_convf_prefix_shift(pt, ps, f, fs, d, e, k - 1);
    }
}

/// Convolution operators with different bases commute: convolving with
/// `(at, sa)` and then with `(ct, sc)` gives the same coefficient function
/// as the other way around.
proof fn lemma_conv_exchange(
    at: Seq<i64>,
    sa: int,
    ct: Seq<i64>,
    sc: int,
    f: spec_fn(int) -> int,
    g1: spec_fn(int) -> int,
    g2: spec_fn(int) -> int,
    e: int,
)
    requires
        forall|x: int| #[trigger] g1(x) == convf(at, sa, f, x),
        forall|x: int| #[trigger] g2(x) == convf(ct, sc, f, x),
    ensures
        convf(ct, sc, g1, e) == convf(at, sa, g2, e),
    decreases at.len(),
{
    let n = at.len() as int;
    if n == 0 {
        assert forall|x: int| #[trigger] g1(x) == 0 by {
            assert(g1(x) == convf(at, sa, f, x));
        }
        lemma_convf_prefix_zero(ct, sc, g1, e, ct.len() as int);
    } else {
        let at2 = at.drop_last();
        let a_last = at[n - 1] as int;
        let d = sa + n - 1;
        let g1p = |x: int| convf(at2, sa, f, x);
        let fd = |x: int| f(x - d);
        let h = |x: int| a_last * fd(x);
        // each value of g1 splits into the shorter convolution plus the
        // last term's contribution
        assert forall|x: int| #[trigger] g1(x) == g1p(x) + h(x) by {
            lemma_convf_prefix_entries(at, at2, sa, f, x, n - 1);
            assert(g1(x) == convf(at, sa, f, x));
            assert(convf_prefix(at, sa, f, x, n) == convf_prefix(at, sa, f, x, n - 1) + a_last
                * f(x - sa - (n - 1)));
        }
        lemma_convf_prefix_linear(ct, sc, g1, g1p, h, e, ct.len() as int);
        // the inductive half
        lemma_conv_exchange(at2, sa, ct, sc, f, g1p, g2, e);
        // the last term's half: scale and shift move through the outer
        // convolution
        lemma_convf_prefix_scale(ct, sc, fd, h, a_last, e, ct.len() as int);
        lemma_convf_prefix_shift(ct, sc, f, fd, d, e, ct.len() as int);
        assert(convf(ct, sc, h, e) == a_last * g2(e - d));
        // and the right-hand side splits the same way
        lemma_convf_prefix_entries(at, at2, sa, g2, e, n - 1);
        assert(convf_prefix(at, sa, g2, e, n) == convf_prefix(at, sa, g2, e, n - 1) + a_last
            * g2(e - sa - (n - 1)));
    }
}

/// The Cauchy convolution is symmetric in its two operands: multiplication
/// of Laurent polynomials is commutative.
pub proof fn lemma_conv_comm(pt: Seq<i64>, ps: int, qt: Seq<i64>, qs: int, e: int)
    ensures
        convf(pt, ps, coeff_fn(qt, qs), e) == convf(qt, qs, coeff_fn(pt, ps), e),
    decreases pt.len(),
{
    let qf = coeff_fn(qt, qs);
    let pf = coeff_fn(pt, ps);
    let n = pt.len() as int;
    if n == 0 {
        assert forall|x: int| #[trigger] pf(x) == 0 by {
            assert(pf(x) == coeff_at(pt, ps, x));
        }
        lemma_convf_prefix_zero(qt, qs, pf, e, qt.len() as int);
    } else {
        let pt2 = pt.drop_last();
        let d = ps + n - 1;
        let pf2 = coeff_fn(pt2, ps);
        lemma_conv_comm(pt2, ps, qt, qs, e);
        lemma_convf_prefix_entries(pt, pt2, ps, qf, e, n - 1);
        assert(convf(pt, ps, qf, e) == convf(pt2, ps, qf, e) + pt[n - 1] * qf(e - ps - (n - 1)));
        assert forall|x: int| x != d implies #[trigger] pf(x) == pf2(x) by {
            assert(pf(x) == coeff_at(pt, ps, x));
            assert(pf2(x) == coeff_at(pt2, ps, x));
        }
        lemma_convf_prefix_one_point(qt, qs, pf, pf2, e, qt.len() as int, d);
        assert(pf(d) == pt[n - 1] as int) by {
            assert(pf(d) == coeff_at(pt, ps, d));
        }
        assert(pf2(d) == 0) by {
            assert(pf2(d) == coeff_at(pt2, ps, d));
        }
        assert(qf(e - ps - (n - 1)) == coeff_at(qt, qs, e - d));
        if 0 <= e - qs - d < qt.len() {
            let a = qt[e - qs - d] as int;
            let b = pt[n - 1] as int;
            assert(coeff_at(qt, qs, e - d) == a);
            assert(a * b == b * a) by (nonlinear_arith);
        } else {
            assert(coeff_at(qt, qs, e - d) == 0);
        }
    }
}

/// Equality compares the represented coefficient functions over the union of
/// both supports: it is independent of how `(terms, shift)` is normalized.
impl PartialEq for Polynomial {
    fn eq(&self, rhs: &Polynomial) -> (r: bool) {
        let s1 = self.shift as i128;
        let s2 = rhs.shift as i128;
        let shift: i128 = if s1 <= s2 {
            s1
        } else {
            s2
        };
        let d1: i128 = s1 + self.terms.len() as i128;
        let d2: i128 = s2 + rhs.terms.len() as i128;
        let degree: i128 = if d1 >= d2 {
            d1
        } else {
            d2
        };
        let span: i128 = degree - shift;
        let mut t: i128 = 0;
        let mut value = true;
        while t < span
            invariant
                0 <= t,
                t <= span || span < 0,
                -0x8000_0000_0000_0000 <= shift,
                degree <= 0x2_0000_0000_0000_0000,
                shift == min(self.spec_shift(), rhs.spec_shift()),
                degree == max(self.spec_degree(), rhs.spec_degree()),
                span == degree - shift,
                value <==> (forall|e: int|
                    shift <= e < shift + t ==> self.spec_coeff(e) == rhs.spec_coeff(e)),
            decreases span - t,
        {
            let c1 = self.coeff_wide(shift + t);
            let c2 = rhs.coeff_wide(shift + t);
            if c1 != c2 {
                value = false;
            }
            t = t + 1;
        }
        proof {
            assert forall|e: int| !(shift <= e < degree) implies self.spec_coeff(e)
                == rhs.spec_coeff(e) by {
                assert(self.spec_coeff(e) == 0);
                assert(rhs.spec_coeff(e) == 0);
            }
            if value {
                assert forall|e: int| self.spec_coeff(e) == rhs.spec_coeff(e) by {
                    if shift <= e < degree {
                        assert(shift <= e < shift + t);
                    }
                }
            }
        }
        value
    }
}

impl vstd::std_specs::cmp::PartialEqSpecImpl for Polynomial {
    open spec fn obeys_eq_spec() -> bool {
        true
    }

    open spec fn eq_spec(&self, rhs: &Polynomial) -> bool {
        same_poly(self, rhs)
    }
}

/// A polynomial re-expressed at a smaller shift with zeros prepended is the
/// same polynomial: for shifts `s1 < s2`, prepending `s2 - s1` zeros to the
/// coefficients and using shift `s1` gives the coefficient function of the
/// original coefficients at shift `s2`.
pub proof fn lemma_equality_over_shifts(c: Seq<i64>, s1: int, s2: int)
    requires
        s1 < s2,
    ensures
        forall|e: int|
            coeff_at(Seq::new((s2 - s1) as nat, |i: int| 0i64) + c, s1, e) == coeff_at(c, s2, e),
{
    let padded = Seq::new((s2 - s1) as nat, |i: int| 0i64) + c;
    assert forall|e: int| coeff_at(padded, s1, e) == coeff_at(c, s2, e) by {
        if s1 <= e < s1 + padded.len() {
            if e < s2 {
                assert(padded[e - s1] == 0i64);
            } else {
                assert(padded[e - s1] == c[e - s2]);
            }
        }
    }
}

/// Adding the zero polynomial gives the same polynomial back.
pub proof fn lemma_add_zero(p: &Polynomial, z: &Polynomial, r: &Polynomial)
    requires
        forall|e: int| z.spec_coeff(e) == 0,
        forall|e: int| r.spec_coeff(e) == p.spec_coeff(e) + z.spec_coeff(e),
    ensures
        same_poly(r, p),
{
}

/// Adding a polynomial to itself doubles every coefficient.
pub proof fn lemma_add_self_doubles(p: &Polynomial, r: &Polynomial)
    requires
        forall|e: int| r.spec_coeff(e) == p.spec_coeff(e) + p.spec_coeff(e),
    ensures
        forall|e: int| r.spec_coeff(e) == 2 * p.spec_coeff(e),
{
}

/// Adding the negation of a polynomial gives the zero polynomial.
pub proof fn lemma_add_neg(p: &Polynomial, n: &Polynomial, r: &Polynomial)
    requires
        forall|e: int| n.spec_coeff(e) == -p.spec_coeff(e),
        forall|e: int| r.spec_coeff(e) == p.spec_coeff(e) + n.spec_coeff(e),
    ensures
        forall|e: int| r.spec_coeff(e) == 0,
{
}

/// Subtracting a polynomial from itself gives the zero polynomial.
pub proof fn lemma_sub_self(p: &Polynomial, r: &Polynomial)
    requires
        forall|e: int| r.spec_coeff(e) == p.spec_coeff(e) - p.spec_coeff(e),
    ensures
        forall|e: int| r.spec_coeff(e) == 0,
{
}

/// Negating twice gives the original polynomial back.
pub proof fn lemma_neg_neg(p: &Polynomial, n: &Polynomial, m: &Polynomial)
    requires
        forall|e: int| n.spec_coeff(e) == -p.spec_coeff(e),
        forall|e: int| m.spec_coeff(e) == -n.spec_coeff(e),
    ensures
        same_poly(m, p),
{
}

/// `-p + q` and `q - p` are the same polynomial.
pub proof fn lemma_neg_add_is_sub(
    p: &Polynomial,
    q: &Polynomial,
    n: &Polynomial,
    l: &Polynomial,
    r: &Polynomial,
)
    requires
        forall|e: int| n.spec_coeff(e) == -p.spec_coeff(e),
        forall|e: int| l.spec_coeff(e) == n.spec_coeff(e) + q.spec_coeff(e),
        forall|e: int| r.spec_coeff(e) == q.spec_coeff(e) - p.spec_coeff(e),
    ensures
        same_poly(l, r),
{
}

/// Multiplying by the zero polynomial gives the zero polynomial.
pub proof fn lemma_mul_zero(p: &Polynomial, z: &Polynomial, r: &Polynomial)
    requires
        forall|e: int| z.spec_coeff(e) == 0,
        forall|e: int|
            r.spec_coeff(e) == convf(
                p.spec_terms(),
                p.spec_shift(),
                coeff_fn(z.spec_terms(), z.spec_shift()),
                e,
            ),
    ensures
        forall|e: int| r.spec_coeff(e) == 0,
{
    let zf = coeff_fn(z.spec_terms(), z.spec_shift());
    assert forall|x: int| #[trigger] zf(x) == 0 by {
        assert(zf(x) == coeff_at(z.spec_terms(), z.spec_shift(), x));
        assert(z.spec_coeff(x) == 0);
    }
    assert forall|e: int| r.spec_coeff(e) == 0 by {
        lemma_convf_prefix_zero(
            p.spec_terms(),
            p.spec_shift(),
            zf,
            e,
            p.spec_terms().len() as int,
        );
    }
}

/// Multiplying by the multiplicative identity gives the same polynomial back.
pub proof fn lemma_mul_one(p: &Polynomial, one: &Polynomial, r: &Polynomial)
    requires
        forall|e: int|
            one.spec_coeff(e) == (if e == 0 {
                1int
            } else {
                0int
            }),
        forall|e: int|
            r.spec_coeff(e) == convf(
                p.spec_terms(),
                p.spec_shift(),
                coeff_fn(one.spec_terms(), one.spec_shift()),
                e,
            ),
    ensures
        same_poly(r, p),
{
    let of = coeff_fn(one.spec_terms(), one.spec_shift());
    assert forall|x: int|
        #[trigger] of(x) == (if x == 0 {
            1int
        } else {
            0int
        }) by {
        assert(of(x) == coeff_at(one.spec_terms(), one.spec_shift(), x));
        assert(one.spec_coeff(x) == (if x == 0 {
            1int
        } else {
            0int
        }));
    }
    assert forall|e: int| r.spec_coeff(e) == p.spec_coeff(e) by {
        lemma_convf_prefix_delta(
            p.spec_terms(),
            p.spec_shift(),
            of,
            e,
            p.spec_terms().len() as int,
        );
    }
}

/// Multiplication is commutative: the products of a pair of polynomials in
/// either order are the same polynomial.
pub proof fn lemma_mul_comm(p: &Polynomial, q: &Polynomial, l: &Polynomial, r: &Polynomial)
    requires
        forall|e: int|
            l.spec_coeff(e) == convf(
                p.spec_terms(),
                p.spec_shift(),
                coeff_fn(q.spec_terms(), q.spec_shift()),
                e,
            ),
        forall|e: int|
            r.spec_coeff(e) == convf(
                q.spec_terms(),
                q.spec_shift(),
                coeff_fn(p.spec_terms(), p.spec_shift()),
                e,
            ),
    ensures
        same_poly(l, r),
{
    assert forall|e: int| l.spec_coeff(e) == r.spec_coeff(e) by {
        lemma_conv_comm(p.spec_terms(), p.spec_shift(), q.spec_terms(), q.spec_shift(), e);
    }
}

/// Multiplication distributes over addition: `p * (q + s)` and
/// `p * q + p * s` are the same polynomial.
pub proof fn lemma_mul_distributes(
    p: &Polynomial,
    q: &Polynomial,
    s: &Polynomial,
    qs_sum: &Polynomial,
    prod: &Polynomial,
    pq: &Polynomial,
    ps_prod: &Polynomial,
    total: &Polynomial,
)
    requires
        forall|e: int| qs_sum.spec_coeff(e) == q.spec_coeff(e) + s.spec_coeff(e),
        forall|e: int|
            prod.spec_coeff(e) == convf(
                p.spec_terms(),
                p.spec_shift(),
                coeff_fn(qs_sum.spec_terms(), qs_sum.spec_shift()),
                e,
            ),
        forall|e: int|
            pq.spec_coeff(e) == convf(
                p.spec_terms(),
                p.spec_shift(),
                coeff_fn(q.spec_terms(), q.spec_shift()),
                e,
            ),
        forall|e: int|
            ps_prod.spec_coeff(e) == convf(
                p.spec_terms(),
                p.spec_shift(),
                coeff_fn(s.spec_terms(), s.spec_shift()),
                e,
            ),
        forall|e: int| total.spec_coeff(e) == pq.spec_coeff(e) + ps_prod.spec_coeff(e),
    ensures
        same_poly(prod, total),
{
    let f = coeff_fn(qs_sum.spec_terms(), qs_sum.spec_shift());
    let g = coeff_fn(q.spec_terms(), q.spec_shift());
    let h = coeff_fn(s.spec_terms(), s.spec_shift());
    assert forall|x: int| #[trigger] f(x) == g(x) + h(x) by {
        assert(f(x) == coeff_at(qs_sum.spec_terms(), qs_sum.spec_shift(), x));
        assert(g(x) == coeff_at(q.spec_terms(), q.spec_shift(), x));
        assert(h(x) == coeff_at(s.spec_terms(), s.spec_shift(), x));
        assert(qs_sum.spec_coeff(x) == q.spec_coeff(x) + s.spec_coeff(x));
    }
    assert forall|e: int| prod.spec_coeff(e) == total.spec_coeff(e) by {
        lemma_convf_prefix_linear(
            p.spec_terms(),
            p.spec_shift(),
            f,
            g,
            h,
            e,
            p.spec_terms().len() as int,
        );
    }
}

/// Multiplication is associative: `(a * b) * c` and `a * (b * c)` are the
/// same polynomial.
pub proof fn lemma_mul_associates(
    a: &Polynomial,
    b: &Polynomial,
    c: &Polynomial,
    ab: &Polynomial,
    bc: &Polynomial,
    l: &Polynomial,
    r: &Polynomial,
)
    requires
        forall|e: int|
            ab.spec_coeff(e) == convf(
                a.spec_terms(),
                a.spec_shift(),
                coeff_fn(b.spec_terms(), b.spec_shift()),
                e,
            ),
        forall|e: int|
            bc.spec_coeff(e) == convf(
                b.spec_terms(),
                b.spec_shift(),
                coeff_fn(c.spec_terms(), c.spec_shift()),
                e,
            ),
        forall|e: int|
            l.spec_coeff(e) == convf(
                ab.spec_terms(),
                ab.spec_shift(),
                coeff_fn(c.spec_terms(), c.spec_shift()),
                e,
            ),
        forall|e: int|
            r.spec_coeff(e) == convf(
                a.spec_terms(),
                a.spec_shift(),
                coeff_fn(bc.spec_terms(), bc.spec_shift()),
                e,
            ),
    ensures
        same_poly(l, r),
{
    let at = a.spec_terms();
    let sa = a.spec_shift();
    let bt = b.spec_terms();
    let sb = b.spec_shift();
    let ct = c.spec_terms();
    let sc = c.spec_shift();
    let bf = coeff_fn(bt, sb);
    let abf = coeff_fn(ab.spec_terms(), ab.spec_shift());
    let bcf = coeff_fn(bc.spec_terms(), bc.spec_shift());
    // the coefficient function of `a * b` is the convolution of `a`
    // against `b`'s coefficients
    assert forall|x: int| #[trigger] abf(x) == convf(at, sa, bf, x) by {
        assert(abf(x) == coeff_at(ab.spec_terms(), ab.spec_shift(), x));
        assert(ab.spec_coeff(x) == convf(at, sa, bf, x));
    }
    // the coefficient function of `b * c` is also the convolution of `c`
    // against `b`'s coefficients, by commutativity
    assert forall|x: int| #[trigger] bcf(x) == convf(ct, sc, bf, x) by {
        assert(bcf(x) == coeff_at(bc.spec_terms(), bc.spec_shift(), x));
        assert(bc.spec_coeff(x) == convf(bt, sb, coeff_fn(ct, sc), x));
        lemma_conv_comm(bt, sb, ct, sc, x);
    }
    assert forall|e: int| l.spec_coeff(e) == r.spec_coeff(e) by {
        lemma_conv_comm(ab.spec_terms(), ab.spec_shift(), ct, sc, e);
        assert(l.spec_coeff(e) == convf(ct, sc, abf, e));
        lemma_conv_exchange(at, sa, ct, sc, bf, abf, bcf, e);
        assert(r.spec_coeff(e) == convf(at, sa, bcf, e));
    }
}

/// Shifting by one is the same as prepending a zero coefficient while
/// keeping the shift.
pub proof fn lemma_shift_prepends_zero(p: &Polynomial, r: &Polynomial, padded: &Polynomial)
    requires
        forall|e: int| r.spec_coeff(e) == p.spec_coeff(e - 1),
        padded.spec_terms() == seq![0i64] + p.spec_terms(),
        padded.spec_shift() == p.spec_shift(),
    ensures
        same_poly(r, padded),
{
    assert forall|e: int| r.spec_coeff(e) == padded.spec_coeff(e) by {
        if padded.spec_shift() <= e < padded.spec_shift() + padded.spec_terms().len() {
            if e == p.spec_shift() {
                assert(padded.spec_terms()[0] == 0i64);
            } else {
                assert(padded.spec_terms()[e - padded.spec_shift()] == p.spec_terms()[e - 1
                    - p.spec_shift()]);
            }
        }
    }
}

/// The zeroth power is the multiplicative identity.
pub proof fn lemma_pow_zero(p: &Polynomial, r: &Polynomial, one: &Polynomial)
    requires
        forall|e: int|
            r.spec_coeff(e) == pow_coeff(p.spec_terms(), p.spec_shift(), 0, e),
        forall|e: int|
            one.spec_coeff(e) == (if e == 0 {
                1int
            } else {
                0int
            }),
    ensures
        same_poly(r, one),
{
}

/// The first power is the polynomial itself.
pub proof fn lemma_pow_one(p: &Polynomial, r: &Polynomial)
    requires
        forall|e: int|
            r.spec_coeff(e) == pow_coeff(p.spec_terms(), p.spec_shift(), 1, e),
    ensures
        same_poly(r, p),
{
    let pt = p.spec_terms();
    let ps = p.spec_shift();
    let f = pow_fn(pt, ps, 0);
    assert forall|x: int|
        #[trigger] f(x) == (if x == 0 {
            1int
        } else {
            0int
        }) by {
        assert(f(x) == pow_coeff(pt, ps, 0, x));
    }
    assert forall|e: int| r.spec_coeff(e) == p.spec_coeff(e) by {
        assert(pow_coeff(pt, ps, 1, e) == convf(pt, ps, f, e));
        lemma_convf_prefix_delta(pt, ps, f, e, pt.len() as int);
    }
}

/// Peeling one factor off a power: the `k`-th power equals the `(k - 1)`-th
/// power multiplied by the polynomial.
pub proof fn lemma_pow_peel(p: &Polynomial, k: nat, a: &Polynomial, b: &Polynomial, m: &Polynomial)
    requires
        k >= 1,
        forall|e: int|
            a.spec_coeff(e) == pow_coeff(p.spec_terms(), p.spec_shift(), k, e),
        forall|e: int|
            b.spec_coeff(e) == pow_coeff(p.spec_terms(), p.spec_shift(), (k - 1) as nat, e),
        forall|e: int|
            m.spec_coeff(e) == convf(
                b.spec_terms(),
                b.spec_shift(),
                coeff_fn(p.spec_terms(), p.spec_shift()),
                e,
            ),
    ensures
        same_poly(a, m),
{
    let pt = p.spec_terms();
    let ps = p.spec_shift();
    let bf = coeff_fn(b.spec_terms(), b.spec_shift());
    let pf = pow_fn(pt, ps, (k - 1) as nat);
    assert forall|x: int| #[trigger] bf(x) == pf(x) by {
        assert(bf(x) == coeff_at(b.spec_terms(), b.spec_shift(), x));
        assert(b.spec_coeff(x) == pow_coeff(pt, ps, (k - 1) as nat, x));
        assert(pf(x) == pow_coeff(pt, ps, (k - 1) as nat, x));
    }
    assert forall|e: int| a.spec_coeff(e) == m.spec_coeff(e) by {
        lemma_conv_comm(b.spec_terms(), b.spec_shift(), pt, ps, e);
        lemma_convf_prefix_congr(pt, ps, bf, pf, e, pt.len() as int);
        assert(m.spec_coeff(e) == convf(pt, ps, bf, e));
        assert(a.spec_coeff(e) == convf(pt, ps, pf, e));
    }
}

} // verus!
