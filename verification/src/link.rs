//! Link diagrams and the Kauffman-bracket state sum.
//!
//! A link is an immutable list of 4-valent crossings, each holding four
//! diagram edge labels (numbered from 1) and a sign derived from a fixed
//! labeling convention.  `count_loops` resolves every crossing according to
//! one bit of a smoothing mask and counts the resulting closed curves;
//! `jones` folds all `2^n` smoothings into a Laurent polynomial.

use vstd::prelude::*;

verus! {

use crate::poly;
use crate::poly::Polynomial;
use crate::poly::pow_coeff;
use crate::poly::sum_abs;
use crate::poly::sum_abs_prefix;
use crate::set_union;
use crate::set_union::SetUnion;
use crate::set_union::SetUnionModel;
use crate::set_union::model_connect;
use crate::set_union::model_new;
use vstd::arithmetic::power::pow;
use vstd::math::abs;
use vstd::math::max;

/// The sign of a crossing under the fixed labeling convention: `-1` if the
/// fourth label is 1, else `+1` if the second label is 1, else `-1` if the
/// fourth label directly follows the second, else `+1`.
pub open spec fn sign_spec(j: int, l: int) -> int {
    if l == 1 {
        -1
    } else if j == 1 {
        1
    } else if j + 1 == l {
        -1
    } else {
        1
    }
}

/// A crossing of a link diagram: the labels of its four incident edges, in
/// the order the diagram lists them, and the sign derived from them.
pub struct X {
    pub i: usize,
    pub j: usize,
    pub k: usize,
    pub l: usize,
    pub sign: i32,
}

impl X {
    /// The stored sign is the one the labeling convention derives.
    pub open spec fn sign_ok(&self) -> bool {
        self.sign as int == sign_spec(self.j as int, self.l as int)
    }

    /// Builds a crossing; its sign is computed eagerly from the labels.
    pub fn new(i: usize, j: usize, k: usize, l: usize) -> (x: X)
        ensures
            x.i == i,
            x.j == j,
            x.k == k,
            x.l == l,
            x.sign_ok(),
    {
        let sign: i32 = if l == 1 {
            -1
        } else if j == 1 {
            1
        } else if l > 0 && j == l - 1 {
            -1
        } else {
            1
        };
        X { i, j, k, l, sign }
    }

    /// The crossing's sign.
    pub fn get_sign(&self) -> (s: i32)
        requires
            self.sign_ok(),
        ensures
            s as int == sign_spec(self.j as int, self.l as int),
    {
        self.sign
    }
}

/// Largest edge label occurring among the first `k` crossings (0 if none).
pub open spec fn max_label(cs: Seq<X>, k: int) -> int
    decreases k,
{
    if k <= 0 {
        0
    } else {
        max(
            max_label(cs, k - 1),
            max(
                max(cs[k - 1].i as int, cs[k - 1].j as int),
                max(cs[k - 1].k as int, cs[k - 1].l as int),
            ),
        )
    }
}

/// Number of positive crossings among the first `k`.
pub open spec fn pos_count(cs: Seq<X>, k: int) -> int
    decreases k,
{
    if k <= 0 {
        0
    } else {
        pos_count(cs, k - 1) + if sign_spec(cs[k - 1].j as int, cs[k - 1].l as int) == 1 {
            1int
        } else {
            0int
        }
    }
}

proof fn lemma_label_le_max(cs: Seq<X>, k: int, t: int)
    requires
        0 <= t < k,
    ensures
        cs[t].i as int <= max_label(cs, k),
        cs[t].j as int <= max_label(cs, k),
        cs[t].k as int <= max_label(cs, k),
        cs[t].l as int <= max_label(cs, k),
    decreases k,
{
    if t < k - 1 {
        lemma_label_le_max(cs, k - 1, t);
    }
}

/// An immutable link diagram: its crossings, the number of edges (derived
/// as the largest label used), and the counts of positive and negative
/// crossings.
pub struct Link {
    np: usize,
    nm: usize,
    edges: usize,
    crosses: Vec<X>,
}

impl Link {
    pub closed spec fn spec_crossings(&self) -> Seq<X> {
        self.crosses@
    }

    pub closed spec fn spec_np(&self) -> int {
        self.np as int
    }

    pub closed spec fn spec_nm(&self) -> int {
        self.nm as int
    }

    pub closed spec fn spec_edges(&self) -> int {
        self.edges as int
    }

    /// The derived fields agree with the crossing list, every stored sign
    /// follows the convention, and every edge label is positive.
    pub open spec fn wf(&self) -> bool {
        let cs = self.spec_crossings();
        &&& forall|t: int| 0 <= t < cs.len() ==> (#[trigger] cs[t]).sign_ok()
        &&& forall|t: int|
            0 <= t < cs.len() ==> (#[trigger] cs[t]).i >= 1 && cs[t].j >= 1 && cs[t].k >= 1
                && cs[t].l >= 1
        &&& self.spec_edges() == max_label(cs, cs.len() as int)
        &&& self.spec_np() == pos_count(cs, cs.len() as int)
        &&& self.spec_np() + self.spec_nm() == cs.len()
    }

    /// Builds a link from an ordered list of crossings over positive edge
    /// labels, deriving the edge count and the signed-crossing counts.
    pub fn new(v: Vec<X>) -> (link: Link)
        requires
            forall|t: int| 0 <= t < v@.len() ==> (#[trigger] v@[t]).sign_ok(),
            forall|t: int|
                0 <= t < v@.len() ==> (#[trigger] v@[t]).i >= 1 && v@[t].j >= 1 && v@[t].k >= 1
                    && v@[t].l >= 1,
        ensures
            link.wf(),
            link.spec_crossings() == v@,
    {
        let mut nm: usize = 0;
        let mut np: usize = 0;
        let mut edges: usize = 0;
        let mut t: usize = 0;
        while t < v.len()
            invariant
                t <= v@.len(),
                forall|s: int| 0 <= s < v@.len() ==> (#[trigger] v@[s]).sign_ok(),
                np as int == pos_count(v@, t as int),
                np + nm == t,
                edges as int == max_label(v@, t as int),
            decreases v@.len() - t,
        {
            let x = &v[t];
            let mut m = edges;
            if x.i > m {
                m = x.i;
            }
            if x.j > m {
                m = x.j;
            }
            if x.k > m {
                m = x.k;
            }
            if x.l > m {
                m = x.l;
            }
            edges = m;
            if x.get_sign() == 1 {
                np = np + 1;
            } else {
                nm = nm + 1;
            }
            t = t + 1;
        }
        Link { np, nm, edges, crosses: v }
    }
}

/// Whether bit `i` of `mask` is set.
pub open spec fn bit_set(mask: usize, i: int) -> bool {
    mask & (1usize << (i as usize)) != 0
}

/// The partition of the diagram's edges after resolving the first `k`
/// crossings according to the bits of `mask`: a set bit joins `(i, l)` and
/// `(j, k)`, a clear bit joins `(i, j)` and `(k, l)` (labels made 0-based).
pub open spec fn smooth_model(cs: Seq<X>, edges: int, mask: usize, k: int) -> SetUnionModel
    decreases k,
{
    if k <= 0 {
        model_new(edges)
    } else {
        let m = smooth_model(cs, edges, mask, k - 1);
        let x = cs[k - 1];
        if bit_set(mask, k - 1) {
            model_connect(model_connect(m, x.i - 1, x.l - 1), x.j - 1, x.k - 1)
        } else {
            model_connect(model_connect(m, x.i - 1, x.j - 1), x.k - 1, x.l - 1)
        }
    }
}

impl Link {
    /// Resolves every crossing according to the bits of `smoothing` and
    /// returns the number of closed curves: the component count of the
    /// resulting partition of the diagram's edges.
    pub fn count_loops(&self, smoothing: usize) -> (r: usize)
        requires
            self.wf(),
            self.spec_crossings().len() < usize::BITS,
        ensures
            r as int == smooth_model(
                self.spec_crossings(),
                self.spec_edges(),
                smoothing,
                self.spec_crossings().len() as int,
            ).components,
            r as int <= self.spec_edges(),
    {
        let ghost cs = self.spec_crossings();
        let ghost ne = self.spec_edges();
        let mut s = set_union::new(self.edges);
        proof {
            set_union::lemma_new_excess_total(ne);
        }
        let mut i: usize = 0;
        while i < self.crosses.len()
            invariant
                self.wf(),
                cs == self.spec_crossings(),
                ne == self.spec_edges(),
                i <= cs.len(),
                cs.len() < usize::BITS,
                s.wf(),
                s@ == smooth_model(cs, ne, smoothing, i as int),
                s@.len() == ne,
                s@.excess_total() <= 2 * i,
            decreases cs.len() - i,
        {
            let xi = self.crosses[i].i;
            let xj = self.crosses[i].j;
            let xk = self.crosses[i].k;
            let xl = self.crosses[i].l;
            proof {
                lemma_label_le_max(cs, cs.len() as int, i as int);
                set_union::lemma_wf_inv(&s);
            }
            if smoothing & (1usize << i) != 0 {
                proof {
                    set_union::lemma_connect_budget(s@, xi as int - 1, xl as int - 1, 2 * i as int);
                }
                s.connect(xi - 1, xl - 1);
                proof {
                    set_union::lemma_wf_inv(&s);
                    set_union::lemma_connect_budget(s@, xj as int - 1, xk as int - 1, 2 * i as int + 1);
                }
                s.connect(xj - 1, xk - 1);
            } else {
                proof {
                    set_union::lemma_connect_budget(s@, xi as int - 1, xj as int - 1, 2 * i as int);
                }
                s.connect(xi - 1, xj - 1);
                proof {
                    set_union::lemma_wf_inv(&s);
                    set_union::lemma_connect_budget(s@, xk as int - 1, xl as int - 1, 2 * i as int + 1);
                }
                s.connect(xk - 1, xl - 1);
            }
            i = i + 1;
        }
        let c = s.num_components();
        proof {
            set_union::lemma_wf_inv(&s);
            set_union::lemma_components_le_len(s@);
        }
        c
    }
}

/// Coefficients of the fixed bracket polynomial `q^{-1} + q`, stored at
/// shift -1.
pub open spec fn bracket_coeffs() -> Seq<i64> {
    seq![1i64, 0i64, 1i64]
}

/// Number of set bits among the first `k` bit positions of `mask`.
pub open spec fn ones(mask: usize, k: int) -> int
    decreases k,
{
    if k <= 0 {
        0
    } else {
        ones(mask, k - 1) + if bit_set(mask, k - 1) {
            1int
        } else {
            0int
        }
    }
}

/// Number of set bits of `mask`.
pub open spec fn popcount_of(mask: usize) -> int {
    ones(mask, usize::BITS as int)
}

/// Coefficient of `q^e` in one smoothing's contribution to the bracket
/// state sum: `(-1)^h (q^{-1}+q)^dim` shifted up by `h`, where `dim` is the
/// smoothing's loop count and `h` the number of 1-smoothed crossings.
pub open spec fn bracket_term_coeff(cs: Seq<X>, edges: int, mask: usize, e: int) -> int {
    let dim = smooth_model(cs, edges, mask, cs.len() as int).components;
    let h = popcount_of(mask);
    let c = pow_coeff(bracket_coeffs(), -1, dim as nat, e - h);
    if h % 2 == 0 {
        c
    } else {
        -c
    }
}

/// Coefficient of `q^e` in the sum of the contributions of the first
/// `nmasks` smoothings.
pub open spec fn bracket_sum_coeff(cs: Seq<X>, edges: int, nmasks: int, e: int) -> int
    decreases nmasks,
{
    if nmasks <= 0 {
        0
    } else {
        bracket_sum_coeff(cs, edges, nmasks - 1, e) + bracket_term_coeff(
            cs,
            edges,
            (nmasks - 1) as usize,
            e,
        )
    }
}

impl Link {
    /// Coefficient of `q^e` in the Jones polynomial of this link: the full
    /// bracket state sum over all `2^n` smoothings, negated when the
    /// negative-crossing count is odd, then shifted by the writhe
    /// normalization `np - 2 nm`.
    pub open spec fn jones_coeff(&self, e: int) -> int {
        let cs = self.spec_crossings();
        let w = self.spec_np() - 2 * self.spec_nm();
        let base = bracket_sum_coeff(
            cs,
            self.spec_edges(),
            (1usize << (cs.len() as usize)) as int,
            e - w,
        );
        if self.spec_nm() % 2 == 1 {
            -base
        } else {
            base
        }
    }
}

/// Number of set bits of `mask`.
fn popcount(mask: usize) -> (c: usize)
    ensures
        c as int == popcount_of(mask),
        c <= usize::BITS,
{
    let width = usize::BITS as usize;
    let mut c: usize = 0;
    let mut i: usize = 0;
    while i < width
        invariant
            i <= width,
            width == usize::BITS,
            c <= i,
            c as int == ones(mask, i as int),
        decreases width - i,
    {
        if mask & (1usize << i) != 0 {
            c = c + 1;
        }
        i = i + 1;
    }
    c
}

proof fn lemma_pow2_small(d: nat)
    requires
        d <= 60,
    ensures
        1 <= pow(2, d) <= 0x1000_0000_0000_0000,
{
    vstd::arithmetic::power2::lemma_pow2(d);
    vstd::arithmetic::power2::lemma_pow2(60);
    vstd::arithmetic::power2::lemma2_to64();
    vstd::arithmetic::power2::lemma2_to64_rest();
    vstd::arithmetic::power2::lemma_pow2_pos(d);
    if d < 60 {
        vstd::arithmetic::power2::lemma_pow2_strictly_increases(d, 60);
    }
}

impl Link {
    /// The Jones polynomial: sums, over every smoothing mask, a signed and
    /// degree-shifted power of `q^{-1} + q` weighted by the smoothing's
    /// loop count, then normalizes by the writhe.
    pub fn jones(&self) -> (r: Polynomial)
        requires
            self.wf(),
            self.spec_crossings().len() + self.spec_edges() <= 60,
            self.spec_crossings().len() < usize::BITS,
        ensures
            r.wf(),
            forall|e: int| r.spec_coeff(e) == self.jones_coeff(e),
    {
        let ghost cs = self.spec_crossings();
        let ghost ne = self.spec_edges();
        let n = self.crosses.len();
        proof {
            vstd::bits::lemma_usize_pow2_no_overflow(n as nat);
            vstd::bits::lemma_usize_shl_is_mul(1usize, n);
            vstd::arithmetic::power2::lemma_pow2(n as nat);
            lemma_pow2_small(n as nat);
        }
        let total: usize = 1usize << n;
        let mut vterms: Vec<i64> = Vec::new();
        vterms.push(1);
        vterms.push(0);
        vterms.push(1);
        let v = poly::new(vterms, -1);
        let ghost bc = bracket_coeffs();
        proof {
            assert(v.spec_terms() =~= bc);
            assert(bc[0] == 1i64 && bc[1] == 0i64 && bc[2] == 1i64);
            assert(sum_abs_prefix(bc, 0) == 0);
            assert(sum_abs_prefix(bc, 1) == 1);
            assert(sum_abs_prefix(bc, 2) == 1);
            assert(sum_abs_prefix(bc, 3) == 2);
            assert(sum_abs(bc) == 2);
        }
        let mut rterms: Vec<i64> = Vec::new();
        rterms.push(0);
        let mut ret = poly::new(rterms, 0);
        let ghost cap = pow(2, ne as nat);
        proof {
            lemma_pow2_small(ne as nat);
            assert forall|e: int| #[trigger] ret.spec_coeff(e) == bracket_sum_coeff(
                cs,
                ne,
                0,
                e,
            ) by {
                if ret.spec_shift() <= e < ret.spec_degree() {
                    assert(ret.spec_terms()[e - ret.spec_shift()] == 0i64);
                }
            }
        }
        let mut mask: usize = 0;
        while mask < total
            invariant
                self.wf(),
                cs == self.spec_crossings(),
                ne == self.spec_edges(),
                n == cs.len(),
                n + ne <= 60,
                n < usize::BITS,
                total as int == pow(2, n as nat),
                1 <= pow(2, n as nat) <= 0x1000_0000_0000_0000,
                cap == pow(2, ne as nat),
                1 <= cap <= 0x1000_0000_0000_0000,
                v.wf(),
                v.spec_terms() == bracket_coeffs(),
                v.spec_shift() == -1,
                bc == bracket_coeffs(),
                sum_abs(bc) == 2,
                mask <= total,
                ret.wf(),
                -ne <= ret.spec_shift() <= 0,
                ret.spec_degree() <= 130 + 2 * ne,
                forall|e: int|
                    #[trigger] ret.spec_coeff(e) == bracket_sum_coeff(cs, ne, mask as int, e),
                forall|e: int| abs(#[trigger] ret.spec_coeff(e)) <= mask * cap,
            decreases total - mask,
        {
            let dim = self.count_loops(mask);
            let height = popcount(mask);
            proof {
                // the power's preconditions: small exponent, bounded growth
                lemma_pow2_small(dim as nat);
                assert(pow(sum_abs(v.spec_terms()), dim as nat) <= i64::MAX) by {
                    assert(sum_abs(v.spec_terms()) == 2);
                }
                vstd::arithmetic::power::lemma_pow_increases(2, dim as nat, ne as nat);
                assert(v.spec_terms().len() == 3);
                assert(abs(v.spec_shift()) == 1);
                assert(dim * (abs(v.spec_shift()) + v.spec_terms().len() + 1) <= 305)
                    by (nonlinear_arith)
                    requires
                        0 <= dim <= 60,
                        abs(v.spec_shift()) == 1,
                        v.spec_terms().len() == 3,
                ;
            }
            let term0 = v.pow(dim);
            proof {
                assert(term0.spec_shift() == dim * (-1));
                poly::lemma_pow_coeff_bound(bc, -1, dim as nat);
            }
            let term = term0.shift(height as i64);
            let signed = if height % 2 == 0 {
                term
            } else {
                term.neg()
            };
            proof {
                // the new summand is exactly this mask's contribution
                assert forall|e: int| #[trigger] signed.spec_coeff(e) == bracket_term_coeff(
                    cs,
                    ne,
                    mask,
                    e,
                ) by {
                    assert(term.spec_coeff(e) == term0.spec_coeff(e - height));
                    assert(term0.spec_coeff(e - height) == pow_coeff(
                        bc,
                        -1,
                        dim as nat,
                        e - height,
                    ));
                }
                // and it is bounded by the cap
                assert forall|e: int| abs(#[trigger] signed.spec_coeff(e)) <= cap by {
                    assert(abs(pow_coeff(bc, -1, dim as nat, e - height)) <= pow(2, dim as nat));
                }
                // so the running total can absorb it
                assert((mask + 1) * cap == mask * cap + cap) by (nonlinear_arith);
                assert(mask * cap + cap <= pow(2, n as nat) * cap) by (nonlinear_arith)
                    requires
                        mask + 1 <= pow(2, n as nat),
                        cap >= 1,
                ;
                assert(pow(2, n as nat) * cap == pow(2, (n + ne) as nat)) by {
                    vstd::arithmetic::power::lemma_pow_adds(2, n as nat, ne as nat);
                }
                lemma_pow2_small((n + ne) as nat);
            }
            let next = ret.add(&signed);
            proof {
                assert forall|e: int| #[trigger] next.spec_coeff(e) == bracket_sum_coeff(
                    cs,
                    ne,
                    mask as int + 1,
                    e,
                ) by {
                    assert(((mask as int + 1) - 1) as usize == mask);
                }
                assert forall|e: int| abs(#[trigger] next.spec_coeff(e)) <= (mask + 1) * cap by {
                    assert(abs(ret.spec_coeff(e)) <= mask * cap);
                    assert(abs(signed.spec_coeff(e)) <= cap);
                }
            }
            ret = next;
            mask = mask + 1;
        }
        proof {
            assert(total * cap == pow(2, (n + ne) as nat)) by {
                vstd::arithmetic::power::lemma_pow_adds(2, n as nat, ne as nat);
            }
            lemma_pow2_small((n + ne) as nat);
            assert forall|e: int| #[trigger] ret.spec_coeff(e) != i64::MIN by {
                assert(abs(ret.spec_coeff(e)) <= total * cap);
            }
        }
        let fin = if self.nm % 2 == 1 {
            ret.neg()
        } else {
            ret
        };
        let w: i64 = self.np as i64 - 2 * (self.nm as i64);
        let out = fin.shift(w);
        proof {
            assert forall|e: int| #[trigger] out.spec_coeff(e) == self.jones_coeff(e) by {
                assert(out.spec_coeff(e) == fin.spec_coeff(e - w));
                assert((1usize << (cs.len() as usize)) as int == total as int);
            }
        }
        out
    }
}

/// Every link with no crossings resolves, under any mask, to one closed
/// loop per edge: the partition stays all-singleton and the loop count is
/// the edge count.
pub proof fn lemma_no_crossing_loops(cs: Seq<X>, edges: int, mask: usize)
    requires
        cs.len() == 0,
    ensures
        smooth_model(cs, edges, mask, cs.len() as int).components == edges,
{
}

} // verus!
