//! A disjoint-set (union-find) structure with per-component metadata.
//!
//! Each component tracks its size and an "excess edge" count: connecting two
//! already-connected elements increments that count instead of merging,
//! which downstream code reads as a genus (independent-cycle) counter.
//! Structures over disjoint ground sets can be combined side by side.
//!
//! Contracts speak of a mathematical model: a map from each element to the
//! canonical element (current root) of its class, the per-root metadata, and
//! the component count.

use vstd::prelude::*;

verus! {

/// The mathematical state of a disjoint-set structure.  `root[x]` is the
/// canonical element of `x`'s class; `size` and `excess` carry meaning at
/// root indices (entries at non-roots are stale); `components` counts the
/// classes.
#[verifier::ext_equal]
pub ghost struct SetUnionModel {
    pub root: Seq<int>,
    pub size: Seq<int>,
    pub excess: Seq<int>,
    pub components: int,
}

/// Number of roots among the first `k` elements.
pub open spec fn root_count(root: Seq<int>, k: int) -> int
    decreases k,
{
    if k <= 0 {
        0
    } else {
        root_count(root, k - 1) + if root[k - 1] == k - 1 {
            1int
        } else {
            0int
        }
    }
}

/// Sum of `val` over the roots among the first `k` elements.
pub open spec fn root_sum(root: Seq<int>, val: Seq<int>, k: int) -> int
    decreases k,
{
    if k <= 0 {
        0
    } else {
        root_sum(root, val, k - 1) + if root[k - 1] == k - 1 {
            val[k - 1]
        } else {
            0int
        }
    }
}

impl SetUnionModel {
    pub open spec fn len(self) -> int {
        self.root.len() as int
    }

    /// Total excess over all components: what a sequence of operations has
    /// deposited as genus.
    pub open spec fn excess_total(self) -> int {
        root_sum(self.root, self.excess, self.len())
    }

    /// The model is a well-formed partition state.
    pub open spec fn inv(self) -> bool {
        &&& self.size.len() == self.root.len()
        &&& self.excess.len() == self.root.len()
        &&& forall|x: int| 0 <= x < self.len() ==> 0 <= #[trigger] self.root[x] < self.len()
        &&& forall|x: int|
            0 <= x < self.len() ==> #[trigger] self.root[self.root[x]] == self.root[x]
        &&& forall|x: int| 0 <= x < self.len() ==> #[trigger] self.size[x] >= 0
        &&& forall|x: int| 0 <= x < self.len() ==> #[trigger] self.excess[x] >= 0
        &&& self.components == root_count(self.root, self.len())
        &&& root_sum(self.root, self.size, self.len()) == self.len()
    }

    /// Two elements lie in the same class.
    pub open spec fn same_class(self, a: int, b: int) -> bool {
        self.root[a] == self.root[b]
    }
}

/// The model of a freshly built structure: every element a singleton root.
pub open spec fn model_new(n: int) -> SetUnionModel {
    SetUnionModel {
        root: Seq::new(n as nat, |i: int| i),
        size: Seq::new(n as nat, |i: int| 1int),
        excess: Seq::new(n as nat, |i: int| 0int),
        components: n,
    }
}

/// The model of `connect(a, b)`: if the classes coincide, the root's excess
/// grows by one; otherwise the classes merge under the root whose
/// `(size, excess)` pair is lexicographically largest, both metadata counts
/// become the sums of the two old ones, and the component count drops by
/// one.  Only a connection that does not reduce the component count records
/// excess.
pub open spec fn model_connect(m: SetUnionModel, a: int, b: int) -> SetUnionModel {
    let ra = m.root[a];
    let rb = m.root[b];
    if ra == rb {
        SetUnionModel { excess: m.excess.update(ra, m.excess[ra] + 1), ..m }
    } else {
        let sa = m.size[ra];
        let sb = m.size[rb];
        let ea = m.excess[ra];
        let eb = m.excess[rb];
        let keep = if sa > sb || (sa == sb && ea >= eb) {
            ra
        } else {
            rb
        };
        SetUnionModel {
            root: Seq::new(
                m.root.len(),
                |x: int|
                    if m.root[x] == ra || m.root[x] == rb {
                        keep
                    } else {
                        m.root[x]
                    },
            ),
            size: m.size.update(keep, sa + sb),
            excess: m.excess.update(keep, ea + eb),
            components: m.components - 1,
        }
    }
}

/// The model of `insert(genus)`: one new singleton root carrying `genus` as
/// its initial excess.
pub open spec fn model_insert(m: SetUnionModel, genus: int) -> SetUnionModel {
    SetUnionModel {
        root: m.root.push(m.root.len() as int),
        size: m.size.push(1),
        excess: m.excess.push(genus),
        components: m.components + 1,
    }
}

/// The model of `combine`: ground sets concatenate (the second operand's
/// elements shift up by the first's length), partitions stay disjoint,
/// metadata concatenates, component counts add.
pub open spec fn model_combine(m1: SetUnionModel, m2: SetUnionModel) -> SetUnionModel {
    SetUnionModel {
        root: m1.root + m2.root.map(|i: int, v: int| v + m1.root.len()),
        size: m1.size + m2.size,
        excess: m1.excess + m2.excess,
        components: m1.components + m2.components,
    }
}

proof fn lemma_root_count_bounds(root: Seq<int>, k: int)
    ensures
        0 <= root_count(root, k),
        root_count(root, k) <= k || k < 0,
    decreases k,
{
    if k > 0 {
        lemma_root_count_bounds(root, k - 1);
    }
}

proof fn lemma_root_count_mono(root: Seq<int>, k1: int, k2: int)
    requires
        k1 <= k2,
    ensures
        root_count(root, k1) <= root_count(root, k2),
    decreases k2 - k1,
{
    if k1 < k2 {
        lemma_root_count_mono(root, k1, k2 - 1);
    }
}

proof fn lemma_two_roots_count(root: Seq<int>, k: int, ra: int, rb: int)
    requires
        0 <= ra < k,
        0 <= rb < k,
        ra != rb,
        root[ra] == ra,
        root[rb] == rb,
    ensures
        root_count(root, k) >= 2,
{
    let lo = if ra < rb {
        ra
    } else {
        rb
    };
    let hi = if ra < rb {
        rb
    } else {
        ra
    };
    lemma_root_count_bounds(root, lo);
    lemma_root_count_mono(root, lo + 1, hi);
    lemma_root_count_mono(root, hi + 1, k);
}

/// A root sum over nonnegative values is nonnegative.
pub proof fn lemma_root_sum_nonneg(root: Seq<int>, val: Seq<int>, k: int)
    requires
        forall|x: int| 0 <= x < k ==> #[trigger] val[x] >= 0,
    ensures
        root_sum(root, val, k) >= 0,
    decreases k,
{
    if k > 0 {
        lemma_root_sum_nonneg(root, val, k - 1);
    }
}

proof fn lemma_root_sum_mono(root: Seq<int>, val: Seq<int>, k1: int, k2: int)
    requires
        k1 <= k2,
        forall|x: int| 0 <= x < k2 ==> #[trigger] val[x] >= 0,
    ensures
        root_sum(root, val, k1) <= root_sum(root, val, k2),
    decreases k2 - k1,
{
    if k1 < k2 {
        lemma_root_sum_mono(root, val, k1, k2 - 1);
    }
}

/// The value at a single root is at most the sum over all roots.
pub proof fn lemma_root_le_sum(root: Seq<int>, val: Seq<int>, k: int, r: int)
    requires
        0 <= r < k,
        root[r] == r,
        forall|x: int| 0 <= x < k ==> #[trigger] val[x] >= 0,
    ensures
        val[r] <= root_sum(root, val, k),
{
    lemma_root_sum_nonneg(root, val, r);
    lemma_root_sum_mono(root, val, r + 1, k);
}

/// The values at two distinct roots together are at most the sum over all
/// roots.
pub proof fn lemma_two_roots_le_sum(root: Seq<int>, val: Seq<int>, k: int, ra: int, rb: int)
    requires
        0 <= ra < k,
        0 <= rb < k,
        ra != rb,
        root[ra] == ra,
        root[rb] == rb,
        forall|x: int| 0 <= x < k ==> #[trigger] val[x] >= 0,
    ensures
        val[ra] + val[rb] <= root_sum(root, val, k),
{
    let lo = if ra < rb {
        ra
    } else {
        rb
    };
    let hi = if ra < rb {
        rb
    } else {
        ra
    };
    lemma_root_sum_nonneg(root, val, lo);
    lemma_root_sum_mono(root, val, lo + 1, hi);
    lemma_root_sum_mono(root, val, hi + 1, k);
}

proof fn lemma_root_count_congr(r1: Seq<int>, r2: Seq<int>, k: int)
    requires
        forall|i: int| 0 <= i < k ==> r1[i] == r2[i],
    ensures
        root_count(r1, k) == root_count(r2, k),
    decreases k,
{
    if k > 0 {
        lemma_root_count_congr(r1, r2, k - 1);
    }
}

proof fn lemma_root_sum_congr(r1: Seq<int>, v1: Seq<int>, r2: Seq<int>, v2: Seq<int>, k: int)
    requires
        forall|i: int| 0 <= i < k ==> r1[i] == r2[i],
        forall|i: int| 0 <= i < k ==> v1[i] == v2[i],
    ensures
        root_sum(r1, v1, k) == root_sum(r2, v2, k),
    decreases k,
{
    if k > 0 {
        lemma_root_sum_congr(r1, v1, r2, v2, k - 1);
    }
}

proof fn lemma_identity_count(root: Seq<int>, k: int)
    requires
        forall|x: int| 0 <= x < k ==> #[trigger] root[x] == x,
    ensures
        root_count(root, k) == k || k < 0,
    decreases k,
{
    if k > 0 {
        lemma_identity_count(root, k - 1);
    }
}

proof fn lemma_identity_sum(root: Seq<int>, val: Seq<int>, k: int, c: int)
    requires
        forall|x: int| 0 <= x < k ==> #[trigger] root[x] == x,
        forall|x: int| 0 <= x < k ==> #[trigger] val[x] == c,
    ensures
        root_sum(root, val, k) == k * c || k < 0,
    decreases k,
{
    if k > 0 {
        lemma_identity_sum(root, val, k - 1, c);
        assert(root[k - 1] == k - 1);
        assert(val[k - 1] == c);
        assert(root_sum(root, val, k) == root_sum(root, val, k - 1) + c);
        assert(root_sum(root, val, k - 1) == (k - 1) * c);
        assert(k * c == (k - 1) * c + c) by (nonlinear_arith);
    } else {
        if k == 0 {
            assert(k * c == 0) by (nonlinear_arith)
                requires
                    k == 0,
            ;
        }
    }
}

/// Merging class `loser` into class `keep` removes one root.
proof fn lemma_merge_count(root: Seq<int>, merged: Seq<int>, k: int, ra: int, rb: int, keep: int)
    requires
        0 <= ra < root.len(),
        0 <= rb < root.len(),
        ra != rb,
        root[ra] == ra,
        root[rb] == rb,
        keep == ra || keep == rb,
        merged.len() == root.len(),
        k <= root.len(),
        forall|i: int|
            0 <= i < root.len() ==> #[trigger] merged[i] == (if root[i] == ra || root[i] == rb {
                keep
            } else {
                root[i]
            }),
    ensures
        root_count(merged, k) == root_count(root, k) - (if (if keep == ra {
            rb
        } else {
            ra
        }) < k {
            1int
        } else {
            0int
        }),
    decreases k,
{
    if k > 0 {
        lemma_merge_count(root, merged, k - 1, ra, rb, keep);
    }
}

/// Merging class `loser` into class `keep`, with the kept root's value set
/// to the sum of both old values plus `c`, changes the root sum by exactly
/// the adjustments at the two old roots.
proof fn lemma_merge_sum(
    root: Seq<int>,
    val: Seq<int>,
    merged: Seq<int>,
    mval: Seq<int>,
    k: int,
    ra: int,
    rb: int,
    keep: int,
    c: int,
)
    requires
        0 <= ra < root.len(),
        0 <= rb < root.len(),
        ra != rb,
        root[ra] == ra,
        root[rb] == rb,
        keep == ra || keep == rb,
        val.len() == root.len(),
        merged.len() == root.len(),
        k <= root.len(),
        forall|i: int|
            0 <= i < root.len() ==> #[trigger] merged[i] == (if root[i] == ra || root[i] == rb {
                keep
            } else {
                root[i]
            }),
        mval == val.update(keep, val[ra] + val[rb] + c),
    ensures
        root_sum(merged, mval, k) == root_sum(root, val, k) + (if keep < k {
            val[ra] + val[rb] + c - val[keep]
        } else {
            0int
        }) + (if (if keep == ra {
            rb
        } else {
            ra
        }) < k {
            -val[(if keep == ra {
                rb
            } else {
                ra
            })]
        } else {
            0int
        }),
    decreases k,
{
    if k > 0 {
        lemma_merge_sum(root, val, merged, mval, k - 1, ra, rb, keep, c);
    }
}

/// Appending a fresh singleton root adds one root and its value to the sum.
proof fn lemma_push_count_sum(root: Seq<int>, val: Seq<int>, v: int)
    requires
        val.len() == root.len(),
    ensures
        root_count(root.push(root.len() as int), root.len() as int + 1) == root_count(
            root,
            root.len() as int,
        ) + 1,
        root_sum(root.push(root.len() as int), val.push(v), root.len() as int + 1) == root_sum(
            root,
            val,
            root.len() as int,
        ) + v,
{
    let n = root.len() as int;
    lemma_root_count_congr(root.push(n), root, n);
    lemma_root_sum_congr(root.push(n), val.push(v), root, val, n);
}

/// Counts and sums over a side-by-side combination add up.
proof fn lemma_concat_count_sum(
    r1: Seq<int>,
    v1: Seq<int>,
    r2: Seq<int>,
    v2: Seq<int>,
    k2: int,
)
    requires
        v1.len() == r1.len(),
        v2.len() == r2.len(),
        0 <= k2 <= r2.len(),
    ensures
        root_count(r1 + r2.map(|i: int, v: int| v + r1.len()), r1.len() + k2) == root_count(
            r1,
            r1.len() as int,
        ) + root_count(r2, k2),
        root_sum(r1 + r2.map(|i: int, v: int| v + r1.len()), v1 + v2, r1.len() + k2) == root_sum(
            r1,
            v1,
            r1.len() as int,
        ) + root_sum(r2, v2, k2),
    decreases k2,
{
    let n1 = r1.len() as int;
    let rc = r1 + r2.map(|i: int, v: int| v + r1.len());
    let vc = v1 + v2;
    if k2 == 0 {
        lemma_root_count_congr(rc, r1, n1);
        lemma_root_sum_congr(rc, vc, r1, v1, n1);
    } else {
        lemma_concat_count_sum(r1, v1, r2, v2, k2 - 1);
        assert(rc[n1 + k2 - 1] == r2[k2 - 1] + n1);
        assert(vc[n1 + k2 - 1] == v2[k2 - 1]);
    }
}

/// A disjoint-set structure over the ground set `0 .. size()`, with path
/// compression and union by size.
#[derive(Clone)]
pub struct SetUnion {
    parents: Vec<usize>,
    structure: Vec<(usize, usize)>,
    components: usize,
    root_map: Ghost<Seq<int>>,
    depth: Ghost<Seq<nat>>,
}

impl View for SetUnion {
    type V = SetUnionModel;

    closed spec fn view(&self) -> SetUnionModel {
        SetUnionModel {
            root: self.root_map@,
            size: Seq::new(self.structure@.len(), |i: int| self.structure@[i].0 as int),
            excess: Seq::new(self.structure@.len(), |i: int| self.structure@[i].1 as int),
            components: self.components as int,
        }
    }
}

impl SetUnion {
    /// The parent forest encodes exactly the partition of the model: parent
    /// links stay within a class, terminate at the class's canonical root,
    /// and strictly descend in depth.
    pub closed spec fn wf(&self) -> bool {
        let n = self.parents@.len() as int;
        &&& self.structure@.len() == n
        &&& self.root_map@.len() == n
        &&& self.depth@.len() == n
        &&& forall|x: int| 0 <= x < n ==> (#[trigger] self.parents@[x]) < n
        &&& forall|x: int|
            0 <= x < n ==> self.parents@[#[trigger] self.root_map@[x]] == self.root_map@[x]
        &&& forall|x: int|
            0 <= x < n ==> ((#[trigger] self.parents@[x]) as int == x ==> self.root_map@[x] == x)
        &&& forall|x: int|
            0 <= x < n ==> #[trigger] self.root_map@[self.parents@[x] as int]
                == self.root_map@[x]
        &&& forall|x: int|
            0 <= x < n ==> ((#[trigger] self.parents@[x]) as int != x ==> self.depth@[
                self.parents@[x] as int
            ] < self.depth@[x])
        &&& self@.inv()
    }

    pub open spec fn spec_size(&self) -> int {
        self@.len()
    }

    spec fn spec_parents(&self) -> Seq<usize> {
        self.parents@
    }

    spec fn spec_structure(&self) -> Seq<(usize, usize)> {
        self.structure@
    }
}

/// Builds a structure of `size` singleton components.
pub fn new(size: usize) -> (s: SetUnion)
    ensures
        s.wf(),
        s@ == model_new(size as int),
{
    let mut parents: Vec<usize> = Vec::new();
    let mut structure: Vec<(usize, usize)> = Vec::new();
    let mut i: usize = 0;
    while i < size
        invariant
            i <= size,
            parents@.len() == i,
            structure@.len() == i,
            forall|x: int| 0 <= x < i ==> #[trigger] parents@[x] == x,
            forall|x: int| 0 <= x < i ==> #[trigger] structure@[x] == (1usize, 0usize),
        decreases size - i,
    {
        parents.push(i);
        structure.push((1, 0));
        i = i + 1;
    }
    let s = SetUnion {
        parents,
        structure,
        components: size,
        root_map: Ghost(Seq::new(size as nat, |x: int| x)),
        depth: Ghost(Seq::new(size as nat, |x: int| 0nat)),
    };
    proof {
        let m = model_new(size as int);
        assert(s@.root =~= m.root);
        assert(s@.size =~= m.size);
        assert(s@.excess =~= m.excess);
        assert(s@ =~= m);
        lemma_identity_count(s@.root, size as int);
        lemma_identity_sum(s@.root, s@.size, size as int, 1);
    }
    s
}

impl SetUnion {
    /// Iterative root lookup with path halving; the partition itself does
    /// not change.
    pub fn find(&mut self, y: usize) -> (r: usize)
        requires
            old(self).wf(),
            y < old(self).spec_size(),
        ensures
            final(self).wf(),
            final(self)@ == old(self)@,
            r as int == final(self)@.root[y as int],
    {
        let mut x = y;
        while x != self.parents[x]
            invariant
                self.wf(),
                self@ == old(self)@,
                x < self.spec_size(),
                self@.root[x as int] == self@.root[y as int],
            decreases self.depth@[x as int],
        {
            let p = self.parents[x];
            let gp = self.parents[p];
            self.parents.set(x, gp);
            x = gp;
        }
        proof {
            assert(self.root_map@[x as int] == x as int);
        }
        x
    }

    /// Whether `a` and `b` lie in the same component.
    pub fn connected(&mut self, a: usize, b: usize) -> (r: bool)
        requires
            old(self).wf(),
            a < old(self).spec_size(),
            b < old(self).spec_size(),
        ensures
            final(self).wf(),
            final(self)@ == old(self)@,
            r == final(self)@.same_class(a as int, b as int),
    {
        let r1 = self.find(a);
        let r2 = self.find(b);
        r1 == r2
    }

    /// Number of components.
    pub fn num_components(&self) -> (c: usize)
        requires
            self.wf(),
        ensures
            c as int == self@.components,
    {
        self.components
    }

    /// Size of the ground set.
    pub fn size(&self) -> (n: usize)
        requires
            self.wf(),
        ensures
            n as int == self@.len(),
    {
        self.parents.len()
    }

    /// Union of the components of `a` and `b`; a connection between two
    /// already-joined elements records one more excess edge instead.
    pub fn connect(&mut self, a: usize, b: usize)
        requires
            old(self).wf(),
            a < old(self).spec_size(),
            b < old(self).spec_size(),
            old(self)@.excess[old(self)@.root[a as int]] + old(self)@.excess[old(self)@.root[b
                as int]] + 1 <= usize::MAX,
        ensures
            final(self).wf(),
            final(self)@ == model_connect(old(self)@, a as int, b as int),
    {
        let ghost m0 = old(self)@;
        let r1 = self.find(a);
        let r2 = self.find(b);
        let ghost n = self.spec_size();
        if r1 == r2 {
            let s0 = self.structure[r1].0;
            let e0 = self.structure[r1].1;
            self.structure.set(r1, (s0, e0 + 1));
            proof {
                let m = model_connect(m0, a as int, b as int);
                assert(self@.size =~= m.size);
                assert(self@.excess =~= m.excess);
                assert(self@ =~= m);
                lemma_root_sum_congr(self@.root, self@.size, m0.root, m0.size, n);
            }
            return ;
        }
        let s1 = self.structure[r1].0;
        let e1 = self.structure[r1].1;
        let s2 = self.structure[r2].0;
        let e2 = self.structure[r2].1;
        let ground = self.parents.len();
        proof {
            assert(ground as int == n);
            lemma_two_roots_le_sum(m0.root, m0.size, n, r1 as int, r2 as int);
        }
        let cs = s1 + s2;
        let ce = e1 + e2;
        let keep: usize;
        let lose: usize;
        if s1 > s2 || (s1 == s2 && e1 >= e2) {
            keep = r1;
            lose = r2;
        } else {
            keep = r2;
            lose = r1;
        }
        self.structure.set(keep, (cs, ce));
        self.parents.set(lose, keep);
        proof {
            let ghost old_root = self.root_map@;
            let ghost old_depth = self.depth@;
            let bump = old_depth[keep as int] + 1;
            self.root_map = Ghost(
                Seq::new(
                    old_root.len(),
                    |x: int|
                        if old_root[x] == lose as int {
                            keep as int
                        } else {
                            old_root[x]
                        },
                ),
            );
            self.depth = Ghost(
                Seq::new(
                    old_depth.len(),
                    |x: int|
                        if old_root[x] == lose as int {
                            (old_depth[x] + bump) as nat
                        } else {
                            old_depth[x]
                        },
                ),
            );
        }
        proof {
            lemma_two_roots_count(m0.root, n, r1 as int, r2 as int);
        }
        self.components = self.components - 1;
        proof {
            let m = model_connect(m0, a as int, b as int);
            assert(m0.root[a as int] == r1 as int && m0.root[b as int] == r2 as int);
            assert forall|x: int| 0 <= x < n implies #[trigger] self.root_map@[x] == (if m0.root[x]
                == r1 as int || m0.root[x] == r2 as int {
                keep as int
            } else {
                m0.root[x]
            }) by {
                if m0.root[x] == keep as int {
                    assert(self.root_map@[x] == m0.root[x]);
                }
            }
            assert(self@.root =~= m.root);
            assert(self@.size =~= m.size);
            assert(self@.excess =~= m.excess);
            assert(self@ =~= m);
            lemma_merge_count(m0.root, self@.root, n, r1 as int, r2 as int, keep as int);
            lemma_merge_sum(
                m0.root,
                m0.size,
                self@.root,
                self@.size,
                n,
                r1 as int,
                r2 as int,
                keep as int,
                0,
            );
            assert(self@.inv());
        }
    }

    /// Appends one new singleton element at the next free index, pre-seeded
    /// with `genus` as its excess count; the component count grows by one.
    pub fn insert(&mut self, genus: usize)
        requires
            old(self).wf(),
            old(self).spec_size() + 1 <= usize::MAX,
        ensures
            final(self).wf(),
            final(self)@ == model_insert(old(self)@, genus as int),
    {
        let ghost m0 = old(self)@;
        let ghost n = old(self).spec_size();
        let idx = self.parents.len();
        self.parents.push(idx);
        self.structure.push((1, genus));
        proof {
            lemma_root_count_bounds(m0.root, n);
        }
        self.components = self.components + 1;
        proof {
            self.root_map = Ghost(self.root_map@.push(idx as int));
            self.depth = Ghost(self.depth@.push(0nat));
            let m = model_insert(m0, genus as int);
            assert(self@.root =~= m.root);
            assert(self@.size =~= m.size);
            assert(self@.excess =~= m.excess);
            assert(self@ =~= m);
            lemma_push_count_sum(m0.root, m0.size, 1);
            lemma_root_sum_congr(
                self@.root,
                self@.size,
                m0.root.push(n),
                m0.size.push(1),
                n + 1,
            );
            lemma_root_count_congr(self@.root, m0.root.push(n), n + 1);
        }
    }

    /// Disjoint union: a new structure whose ground set is `self`'s elements
    /// followed by `rhs`'s (re-indexed upward), with both partitions and
    /// their metadata kept verbatim and component counts added.
    pub fn combine(&self, rhs: &SetUnion) -> (s: SetUnion)
        requires
            self.wf(),
            rhs.wf(),
            self.spec_size() + rhs.spec_size() <= usize::MAX,
        ensures
            s.wf(),
            s@ == model_combine(self@, rhs@),
    {
        let ghost m1 = self@;
        let ghost m2 = rhs@;
        let n1 = self.parents.len();
        let n2 = rhs.parents.len();
        let mut parents: Vec<usize> = Vec::new();
        let mut structure: Vec<(usize, usize)> = Vec::new();
        let mut i: usize = 0;
        while i < n1
            invariant
                self.wf(),
                n1 as int == self.spec_size(),
                i <= n1,
                parents@.len() == i,
                structure@.len() == i,
                forall|x: int| 0 <= x < i ==> #[trigger] parents@[x] == self.spec_parents()[x],
                forall|x: int|
                    0 <= x < i ==> #[trigger] structure@[x] == self.spec_structure()[x],
            decreases n1 - i,
        {
            parents.push(self.parents[i]);
            structure.push(self.structure[i]);
            i = i + 1;
        }
        let mut j: usize = 0;
        while j < n2
            invariant
                self.wf(),
                rhs.wf(),
                n1 as int == self.spec_size(),
                n2 as int == rhs.spec_size(),
                n1 + n2 <= usize::MAX,
                j <= n2,
                parents@.len() == n1 + j,
                structure@.len() == n1 + j,
                forall|x: int| 0 <= x < n1 ==> #[trigger] parents@[x] == self.spec_parents()[x],
                forall|x: int|
                    0 <= x < n1 ==> #[trigger] structure@[x] == self.spec_structure()[x],
                forall|x: int|
                    n1 <= x < n1 + j ==> #[trigger] parents@[x] == rhs.spec_parents()[x - n1]
                        + n1,
                forall|x: int|
                    n1 <= x < n1 + j ==> #[trigger] structure@[x] == rhs.spec_structure()[x
                        - n1],
            decreases n2 - j,
        {
            parents.push(rhs.parents[j] + n1);
            structure.push(rhs.structure[j]);
            j = j + 1;
        }
        proof {
            lemma_root_count_bounds(m1.root, n1 as int);
            lemma_root_count_bounds(m2.root, n2 as int);
        }
        let s = SetUnion {
            parents,
            structure,
            components: self.components + rhs.components,
            root_map: Ghost(m1.root + m2.root.map(|x: int, v: int| v + n1 as int)),
            depth: Ghost(self.depth@ + rhs.depth@),
        };
        proof {
            let m = model_combine(m1, m2);
            assert(s@.root =~= m.root);
            assert(s@.size =~= m.size);
            assert(s@.excess =~= m.excess);
            assert(s@ =~= m);
            lemma_concat_count_sum(m1.root, m1.size, m2.root, m2.size, n2 as int);
            assert(m.root == m1.root + m2.root.map(|i2: int, v: int| v + m1.root.len()));
        }
        s
    }
}

/// The component count never exceeds the size of the ground set.
pub proof fn lemma_components_le_len(m: SetUnionModel)
    requires
        m.inv(),
    ensures
        0 <= m.components <= m.len(),
{
    lemma_root_count_bounds(m.root, m.len());
}

proof fn lemma_update_root_sum(root: Seq<int>, val: Seq<int>, k: int, r: int, d: int)
    requires
        0 <= r < root.len(),
        root[r] == r,
        val.len() == root.len(),
        k <= root.len(),
    ensures
        root_sum(root, val.update(r, val[r] + d), k) == root_sum(root, val, k) + (if r < k {
            d
        } else {
            0int
        }),
    decreases k,
{
    if k > 0 {
        lemma_update_root_sum(root, val, k - 1, r, d);
    }
}

/// A redundant `connect` deposits exactly one unit of total excess; a
/// merging `connect` deposits none (the merged root just takes over both
/// old counts).
pub proof fn lemma_connect_excess_total(m: SetUnionModel, a: int, b: int)
    requires
        m.inv(),
        0 <= a < m.len(),
        0 <= b < m.len(),
    ensures
        model_connect(m, a, b).excess_total() == m.excess_total() + (if m.same_class(a, b) {
            1int
        } else {
            0int
        }),
{
    let ra = m.root[a];
    let rb = m.root[b];
    let m2 = model_connect(m, a, b);
    if ra == rb {
        lemma_update_root_sum(m.root, m.excess, m.len(), ra, 1);
    } else {
        let keep = if m.size[ra] > m.size[rb] || (m.size[ra] == m.size[rb] && m.excess[ra]
            >= m.excess[rb]) {
            ra
        } else {
            rb
        };
        lemma_merge_sum(
            m.root,
            m.excess,
            m2.root,
            m2.excess,
            m.len(),
            ra,
            rb,
            keep,
            0,
        );
        lemma_root_sum_congr(m2.root, m2.excess, m2.root, m2.excess, m2.len());
    }
}

/// Inserting a singleton with initial excess `g` grows the total excess by
/// exactly `g`.
pub proof fn lemma_insert_excess_total(m: SetUnionModel, g: int)
    requires
        m.inv(),
    ensures
        model_insert(m, g).excess_total() == m.excess_total() + g,
{
    lemma_push_count_sum(m.root, m.excess, g);
}

/// Combining adds the total excess of both operands.
pub proof fn lemma_combine_excess_total(m1: SetUnionModel, m2: SetUnionModel)
    requires
        m1.inv(),
        m2.inv(),
    ensures
        model_combine(m1, m2).excess_total() == m1.excess_total() + m2.excess_total(),
{
    lemma_concat_count_sum(m1.root, m1.excess, m2.root, m2.excess, m2.len());
}

/// A freshly built structure carries no excess.
pub proof fn lemma_new_excess_total(n: int)
    ensures
        model_new(n).excess_total() == 0,
{
    let len = model_new(n).len();
    lemma_identity_sum(model_new(n).root, model_new(n).excess, len, 0);
    assert(len * 0 == 0) by (nonlinear_arith);
}

/// Budget step: when the total excess is small, any single `connect` stays
/// far from overflowing its counters, and afterwards the total has grown by
/// exactly one.
pub proof fn lemma_connect_budget(m: SetUnionModel, a: int, b: int, budget: int)
    requires
        m.inv(),
        0 <= a < m.len(),
        0 <= b < m.len(),
        m.excess_total() <= budget,
        0 <= budget,
        2 * budget + 1 <= usize::MAX,
    ensures
        m.excess[m.root[a]] + m.excess[m.root[b]] + 1 <= usize::MAX,
        model_connect(m, a, b).excess_total() <= budget + 1,
{
    lemma_root_le_sum(m.root, m.excess, m.len(), m.root[a]);
    lemma_root_le_sum(m.root, m.excess, m.len(), m.root[b]);
    lemma_connect_excess_total(m, a, b);
}

/// A well-formed structure's model is a well-formed partition state.
pub proof fn lemma_wf_inv(s: &SetUnion)
    requires
        s.wf(),
    ensures
        s@.inv(),
{
}

/// Connecting two previously disconnected elements drops the component
/// count by exactly one and makes them connected.
pub proof fn lemma_connect_disconnected(m: SetUnionModel, a: int, b: int)
    requires
        m.inv(),
        0 <= a < m.len(),
        0 <= b < m.len(),
        !m.same_class(a, b),
    ensures
        model_connect(m, a, b).components == m.components - 1,
        model_connect(m, a, b).same_class(a, b),
{
}

/// Connecting two already-connected elements leaves the partition and the
/// component count unchanged and increments the tracked excess count of
/// their root by one.
pub proof fn lemma_connect_redundant(m: SetUnionModel, a: int, b: int)
    requires
        m.inv(),
        0 <= a < m.len(),
        0 <= b < m.len(),
        m.same_class(a, b),
    ensures
        model_connect(m, a, b).components == m.components,
        model_connect(m, a, b).root == m.root,
        model_connect(m, a, b).excess[m.root[a]] == m.excess[m.root[a]] + 1,
        forall|r: int|
            0 <= r < m.len() && r != m.root[a] ==> model_connect(m, a, b).excess[r]
                == m.excess[r],
{
}

/// Combining two structures adds their component counts, preserves
/// connectivity and the per-element metadata within each operand verbatim,
/// and never connects an element of one operand to an element of the
/// other.
pub proof fn lemma_combine_classes(m1: SetUnionModel, m2: SetUnionModel)
    requires
        m1.inv(),
        m2.inv(),
    ensures
        model_combine(m1, m2).components == m1.components + m2.components,
        model_combine(m1, m2).len() == m1.len() + m2.len(),
        forall|x: int|
            0 <= x < m1.len() ==> #[trigger] model_combine(m1, m2).size[x] == m1.size[x]
                && model_combine(m1, m2).excess[x] == m1.excess[x],
        forall|x: int|
            0 <= x < m2.len() ==> #[trigger] model_combine(m1, m2).size[m1.len() + x]
                == m2.size[x] && model_combine(m1, m2).excess[m1.len() + x] == m2.excess[x],
        forall|a: int, b: int|
            0 <= a < m1.len() && 0 <= b < m1.len() ==> (model_combine(m1, m2).same_class(a, b)
                <==> m1.same_class(a, b)),
        forall|a: int, b: int|
            0 <= a < m2.len() && 0 <= b < m2.len() ==> (model_combine(m1, m2).same_class(
                m1.len() + a,
                m1.len() + b,
            ) <==> m2.same_class(a, b)),
        forall|a: int, b: int|
            0 <= a < m1.len() && 0 <= b < m2.len() ==> !(#[trigger] model_combine(
                m1,
                m2,
            ).same_class(a, m1.len() + b)),
{
    let m = model_combine(m1, m2);
    assert forall|a: int, b: int|
        0 <= a < m1.len() && 0 <= b < m1.len() implies (m.same_class(a, b) <==> m1.same_class(
        a,
        b,
    )) by {
        assert(m.root[a] == m1.root[a]);
        assert(m.root[b] == m1.root[b]);
    }
    assert forall|a: int, b: int|
        0 <= a < m2.len() && 0 <= b < m2.len() implies (m.same_class(m1.len() + a, m1.len() + b)
        <==> m2.same_class(a, b)) by {
        assert(m.root[m1.len() + a] == m2.root[a] + m1.len());
        assert(m.root[m1.len() + b] == m2.root[b] + m1.len());
    }
    assert forall|a: int, b: int|
        0 <= a < m1.len() && 0 <= b < m2.len() implies !(#[trigger] m.same_class(
        a,
        m1.len() + b,
    )) by {
        assert(m.root[a] == m1.root[a]);
        assert(m.root[m1.len() + b] == m2.root[b] + m1.len());
        assert(m1.root[a] < m1.len());
        assert(m2.root[b] >= 0);
    }
}

} // verus!
