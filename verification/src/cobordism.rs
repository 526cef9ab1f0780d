//! Smoothings (1-manifold resolutions of a diagram) and cobordisms
//! (surfaces between two smoothings), both built on the disjoint-set core.
//!
//! A smoothing partitions its boundary points and closed loops into curves.
//! A cobordism partitions the disjoint union of two smoothings' points into
//! surface components, gluing matching boundary points, inserting extra
//! closed components ("bubbles") as genus-bearing singletons, and recording
//! redundant connections as genus.  Both compose by vertical stacking.

use vstd::prelude::*;

verus! {

use crate::set_union;
use crate::set_union::SetUnion;
use crate::set_union::SetUnionModel;
use crate::set_union::model_combine;
use crate::set_union::model_connect;
use crate::set_union::model_insert;
use crate::set_union::model_new;
use vstd::math::min;

/// Folds `connect` over a list of index pairs, the second index raised by
/// `off`.
pub open spec fn connect_fold(
    m: SetUnionModel,
    conns: Seq<(usize, usize)>,
    off: int,
    k: int,
) -> SetUnionModel
    decreases k,
{
    if k <= 0 {
        m
    } else {
        model_connect(
            connect_fold(m, conns, off, k - 1),
            conns[k - 1].0 as int,
            conns[k - 1].1 as int + off,
        )
    }
}

/// Folds `insert` over a list of initial genus values.
pub open spec fn insert_fold(m: SetUnionModel, bubbles: Seq<usize>, k: int) -> SetUnionModel
    decreases k,
{
    if k <= 0 {
        m
    } else {
        model_insert(insert_fold(m, bubbles, k - 1), bubbles[k - 1] as int)
    }
}

/// Folds the identity-like gluing of matching positions: each pair
/// `(xs[i], ys[i] + off)` is connected only if not already in one class, so
/// an identity gluing never deposits genus.
pub open spec fn glue_fold(
    m: SetUnionModel,
    xs: Seq<usize>,
    ys: Seq<usize>,
    off: int,
    k: int,
) -> SetUnionModel
    decreases k,
{
    if k <= 0 {
        m
    } else {
        let p = glue_fold(m, xs, ys, off, k - 1);
        if p.same_class(xs[k - 1] as int, ys[k - 1] as int + off) {
            p
        } else {
            model_connect(p, xs[k - 1] as int, ys[k - 1] as int + off)
        }
    }
}

/// Folds an unconditional pairwise gluing of `(xs[i], ys[i] + off)`: a
/// redundant pair deliberately records one unit of genus.
pub open spec fn pair_fold(
    m: SetUnionModel,
    xs: Seq<usize>,
    ys: Seq<usize>,
    off: int,
    k: int,
) -> SetUnionModel
    decreases k,
{
    if k <= 0 {
        m
    } else {
        model_connect(
            pair_fold(m, xs, ys, off, k - 1),
            xs[k - 1] as int,
            ys[k - 1] as int + off,
        )
    }
}

/// Sum of a sequence of genus values.
pub open spec fn genus_sum(s: Seq<usize>, k: int) -> int
    decreases k,
{
    if k <= 0 {
        0
    } else {
        genus_sum(s, k - 1) + s[k - 1]
    }
}

/// A 1-manifold cross-section: boundary points available for gluing, closed
/// loops already present, and a partition of all points into curves.
#[derive(Clone)]
pub struct Smoothing {
    boundary: Vec<usize>,
    loops: Vec<usize>,
    pub curves: SetUnion,
}

impl Smoothing {
    pub closed spec fn spec_boundary(&self) -> Seq<usize> {
        self.boundary@
    }

    pub closed spec fn spec_loops(&self) -> Seq<usize> {
        self.loops@
    }

    /// The model of the curve partition.
    pub closed spec fn spec_curves(&self) -> SetUnionModel {
        self.curves@
    }

    pub closed spec fn curves_wf(&self) -> bool {
        self.curves.wf()
    }

    /// The curve partition covers exactly the boundary and loop points.
    pub open spec fn wf(&self) -> bool {
        &&& self.curves_wf()
        &&& self.spec_curves().len() == self.spec_boundary().len() + self.spec_loops().len()
    }

    /// Builds a smoothing over `boundary.len() + loops.len()` points whose
    /// curve partition starts all-singleton and then connects every listed
    /// pair.
    pub fn new(boundary: Vec<usize>, loops: Vec<usize>, connections: Vec<(usize, usize)>) -> (s:
        Smoothing)
        requires
            boundary@.len() + loops@.len() <= usize::MAX,
            forall|t: int|
                0 <= t < connections@.len() ==> (#[trigger] connections@[t]).0
                    < boundary@.len() + loops@.len() && connections@[t].1 < boundary@.len()
                    + loops@.len(),
            2 * connections@.len() + 1 <= usize::MAX,
        ensures
            s.wf(),
            s.spec_boundary() == boundary@,
            s.spec_loops() == loops@,
            s.spec_curves() == connect_fold(
                model_new(boundary@.len() + loops@.len() as int),
                connections@,
                0,
                connections@.len() as int,
            ),
            s.spec_curves().excess_total() <= connections@.len(),
    {
        let ghost points = boundary@.len() + loops@.len();
        let mut curves: SetUnion = set_union::new(boundary.len() + loops.len());
        proof {
            set_union::lemma_new_excess_total(points as int);
        }
        let mut t: usize = 0;
        while t < connections.len()
            invariant
                t <= connections@.len(),
                points == boundary@.len() + loops@.len(),
                points <= usize::MAX,
                2 * connections@.len() + 1 <= usize::MAX,
                forall|u: int|
                    0 <= u < connections@.len() ==> (#[trigger] connections@[u]).0 < points
                        && connections@[u].1 < points,
                curves.wf(),
                curves@.len() == points,
                curves@ == connect_fold(model_new(points as int), connections@, 0, t as int),
                curves@.excess_total() <= t,
            decreases connections@.len() - t,
        {
            let pair = connections[t];
            proof {
                set_union::lemma_wf_inv(&curves);
                set_union::lemma_connect_budget(
                    curves@,
                    pair.0 as int,
                    pair.1 as int,
                    t as int,
                );
            }
            curves.connect(pair.0, pair.1);
            t = t + 1;
        }
        Smoothing { boundary, loops, curves }
    }

    /// Total number of points: boundary points plus closed loops.
    pub fn size(&self) -> (n: usize)
        requires
            self.wf(),
        ensures
            n as int == self.spec_boundary().len() + self.spec_loops().len(),
    {
        let total = self.curves.size();
        proof {
            assert(total as int == self.spec_boundary().len() + self.spec_loops().len());
        }
        self.boundary.len() + self.loops.len()
    }

    /// Vertical stacking: boundaries and loops concatenate (the right
    /// operand's point indices shifted up by the left's point count) and
    /// the curve partitions sit side by side, with no new connections.
    pub fn compose(&self, rhs: &Smoothing) -> (s: Smoothing)
        requires
            self.wf(),
            rhs.wf(),
            self.spec_curves().len() + rhs.spec_curves().len() <= usize::MAX,
            forall|t: int|
                0 <= t < rhs.spec_boundary().len() ==> (#[trigger] rhs.spec_boundary()[t])
                    + self.spec_curves().len() <= usize::MAX,
            forall|t: int|
                0 <= t < rhs.spec_loops().len() ==> (#[trigger] rhs.spec_loops()[t])
                    + self.spec_curves().len() <= usize::MAX,
        ensures
            s.wf(),
            s.spec_boundary() == self.spec_boundary() + rhs.spec_boundary().map(
                |t: int, v: usize| (v + self.spec_curves().len()) as usize,
            ),
            s.spec_loops() == self.spec_loops() + rhs.spec_loops().map(
                |t: int, v: usize| (v + self.spec_curves().len()) as usize,
            ),
            s.spec_curves() == model_combine(self.spec_curves(), rhs.spec_curves()),
    {
        let off = self.curves.size();
        let mut boundary: Vec<usize> = Vec::new();
        let mut t: usize = 0;
        while t < self.boundary.len()
            invariant
                t <= self.spec_boundary().len(),
                boundary@ =~= self.spec_boundary().subrange(0, t as int),
            decreases self.spec_boundary().len() - t,
        {
            boundary.push(self.boundary[t]);
            t = t + 1;
        }
        let mut u: usize = 0;
        while u < rhs.boundary.len()
            invariant
                rhs.wf(),
                u <= rhs.spec_boundary().len(),
                off as int == self.spec_curves().len(),
                forall|w: int|
                    0 <= w < rhs.spec_boundary().len() ==> (#[trigger] rhs.spec_boundary()[w])
                        + off <= usize::MAX,
                boundary@.len() == self.spec_boundary().len() + u,
                boundary@.subrange(0, self.spec_boundary().len() as int) =~= self.spec_boundary(),
                forall|w: int|
                    0 <= w < u ==> #[trigger] boundary@[self.spec_boundary().len() + w]
                        == rhs.spec_boundary()[w] + off,
            decreases rhs.spec_boundary().len() - u,
        {
            boundary.push(rhs.boundary[u] + off);
            u = u + 1;
        }
        let mut loops: Vec<usize> = Vec::new();
        let mut t2: usize = 0;
        while t2 < self.loops.len()
            invariant
                t2 <= self.spec_loops().len(),
                loops@ =~= self.spec_loops().subrange(0, t2 as int),
            decreases self.spec_loops().len() - t2,
        {
            loops.push(self.loops[t2]);
            t2 = t2 + 1;
        }
        let mut u2: usize = 0;
        while u2 < rhs.loops.len()
            invariant
                rhs.wf(),
                u2 <= rhs.spec_loops().len(),
                off as int == self.spec_curves().len(),
                forall|w: int|
                    0 <= w < rhs.spec_loops().len() ==> (#[trigger] rhs.spec_loops()[w]) + off
                        <= usize::MAX,
                loops@.len() == self.spec_loops().len() + u2,
                loops@.subrange(0, self.spec_loops().len() as int) =~= self.spec_loops(),
                forall|w: int|
                    0 <= w < u2 ==> #[trigger] loops@[self.spec_loops().len() + w]
                        == rhs.spec_loops()[w] + off,
            decreases rhs.spec_loops().len() - u2,
        {
            loops.push(rhs.loops[u2] + off);
            u2 = u2 + 1;
        }
        let curves = self.curves.combine(&rhs.curves);
        let s = Smoothing { boundary, loops, curves };
        proof {
            let nb = self.spec_boundary().len() as int;
            let nl = self.spec_loops().len() as int;
            let tb = self.spec_boundary() + rhs.spec_boundary().map(
                |w: int, v: usize| (v + self.spec_curves().len()) as usize,
            );
            let tl = self.spec_loops() + rhs.spec_loops().map(
                |w: int, v: usize| (v + self.spec_curves().len()) as usize,
            );
            assert forall|w: int| 0 <= w < tb.len() implies s.spec_boundary()[w] == tb[w] by {
                if w < nb {
                    assert(s.spec_boundary()[w] == self.spec_boundary().subrange(0, nb)[w]);
                } else {
                    let w2 = w - nb;
                    assert(s.spec_boundary()[nb + w2] == rhs.spec_boundary()[w2] + off);
                    assert(tb[w] == (rhs.spec_boundary()[w - nb] + self.spec_curves().len())
                        as usize);
                }
            }
            assert(s.spec_boundary() =~= tb);
            assert forall|w: int| 0 <= w < tl.len() implies s.spec_loops()[w] == tl[w] by {
                if w < nl {
                    assert(s.spec_loops()[w] == self.spec_loops().subrange(0, nl)[w]);
                } else {
                    let w2 = w - nl;
                    assert(s.spec_loops()[nl + w2] == rhs.spec_loops()[w2] + off);
                    assert(tl[w] == (rhs.spec_loops()[w - nl] + self.spec_curves().len())
                        as usize);
                }
            }
            assert(s.spec_loops() =~= tl);
        }
        s
    }
}

/// The component partition a cobordism is built with: the two smoothings'
/// curve partitions side by side, one inserted singleton per bubble, the
/// identity-like gluing of matching boundary positions, then every extra
/// connection (redundant ones recording genus).
pub open spec fn cobordism_model(
    top: SetUnionModel,
    bot: SetUnionModel,
    top_bnd: Seq<usize>,
    bot_bnd: Seq<usize>,
    conns: Seq<(usize, usize)>,
    bubbles: Seq<usize>,
) -> SetUnionModel {
    let off = top.len();
    let m0 = model_combine(top, bot);
    let m1 = insert_fold(m0, bubbles, bubbles.len() as int);
    let m2 = glue_fold(m1, top_bnd, bot_bnd, off, top_bnd.len() as int);
    connect_fold(m2, conns, off, conns.len() as int)
}

/// A surface between a top and a bottom smoothing of equal boundary
/// length: the shared boundary positions, the closed loops of both ends,
/// and a partition of all points into surface components.
#[derive(Clone)]
pub struct Cobordism {
    boundary: Vec<usize>,
    top_loops: Vec<usize>,
    bottom_loops: Vec<usize>,
    components: SetUnion,
}

impl Cobordism {
    pub closed spec fn spec_boundary(&self) -> Seq<usize> {
        self.boundary@
    }

    pub closed spec fn spec_top_loops(&self) -> Seq<usize> {
        self.top_loops@
    }

    pub closed spec fn spec_bottom_loops(&self) -> Seq<usize> {
        self.bottom_loops@
    }

    /// The model of the component partition.
    pub closed spec fn spec_components(&self) -> SetUnionModel {
        self.components@
    }

    pub closed spec fn components_wf(&self) -> bool {
        self.components.wf()
    }

    pub open spec fn wf(&self) -> bool {
        self.components_wf()
    }

    /// Builds the surface between `a` (top) and `b` (bottom): their curve
    /// partitions side by side, one extra genus-bearing singleton per
    /// bubble, matching boundary points glued (without genus when already
    /// joined), and every extra connection applied unconditionally.
    pub fn new(
        a: &Smoothing,
        b: &Smoothing,
        connections: Vec<(usize, usize)>,
        bubbles: Vec<usize>,
    ) -> (c: Cobordism)
        requires
            a.wf(),
            b.wf(),
            a.spec_boundary().len() == b.spec_boundary().len(),
            a.spec_curves().len() + b.spec_curves().len() + bubbles@.len() <= usize::MAX,
            forall|t: int|
                0 <= t < a.spec_boundary().len() ==> (#[trigger] a.spec_boundary()[t])
                    < a.spec_curves().len(),
            forall|t: int|
                0 <= t < b.spec_boundary().len() ==> (#[trigger] b.spec_boundary()[t])
                    < b.spec_curves().len(),
            forall|t: int|
                0 <= t < connections@.len() ==> (#[trigger] connections@[t]).0
                    < a.spec_curves().len() + b.spec_curves().len() + bubbles@.len()
                    && connections@[t].1 + a.spec_curves().len() < a.spec_curves().len()
                    + b.spec_curves().len() + bubbles@.len(),
            forall|t: int|
                0 <= t < b.spec_loops().len() ==> (#[trigger] b.spec_loops()[t])
                    + a.spec_curves().len() <= usize::MAX,
            2 * (a.spec_curves().excess_total() + b.spec_curves().excess_total() + genus_sum(
                bubbles@,
                bubbles@.len() as int,
            ) + a.spec_boundary().len() + connections@.len()) + 1 <= usize::MAX,
        ensures
            c.wf(),
            c.spec_boundary() == a.spec_boundary(),
            c.spec_top_loops() == a.spec_loops(),
            c.spec_bottom_loops() == b.spec_loops().map(
                |t: int, v: usize| (v + a.spec_curves().len()) as usize,
            ),
            c.spec_components() == cobordism_model(
                a.spec_curves(),
                b.spec_curves(),
                a.spec_boundary(),
                b.spec_boundary(),
                connections@,
                bubbles@,
            ),
    {
        let ghost ma = a.spec_curves();
        let ghost mb = b.spec_curves();
        let ghost off = ma.len();
        let ghost total = ma.len() + mb.len() + bubbles@.len();
        let ghost bsum = genus_sum(bubbles@, bubbles@.len() as int);
        let ghost budget_cap = ma.excess_total() + mb.excess_total() + bsum
            + a.spec_boundary().len() + connections@.len();
        let s_off = a.size();
        let mut components = a.curves.combine(&b.curves);
        proof {
            set_union::lemma_wf_inv(&a.curves);
            set_union::lemma_wf_inv(&b.curves);
            set_union::lemma_combine_excess_total(ma, mb);
            lemma_genus_sum_nonneg(bubbles@, bubbles@.len() as int);
            lemma_excess_total_nonneg(ma);
            lemma_excess_total_nonneg(mb);
        }
        let ghost m0 = components@;
        let mut t: usize = 0;
        while t < bubbles.len()
            invariant
                t <= bubbles@.len(),
                m0 == model_combine(ma, mb),
                m0.len() == ma.len() + mb.len(),
                total == ma.len() + mb.len() + bubbles@.len(),
                total <= usize::MAX,
                components.wf(),
                components@ == insert_fold(m0, bubbles@, t as int),
                components@.len() == m0.len() + t,
                components@.excess_total() == m0.excess_total() + genus_sum(bubbles@, t as int),
            decreases bubbles@.len() - t,
        {
            proof {
                set_union::lemma_wf_inv(&components);
                set_union::lemma_insert_excess_total(components@, bubbles@[t as int] as int);
            }
            components.insert(bubbles[t]);
            t = t + 1;
        }
        let ghost m1 = components@;
        proof {
            lemma_genus_sum_nonneg(bubbles@, bubbles@.len() as int);
        }
        let mut i: usize = 0;
        while i < a.boundary.len()
            invariant
                a.wf(),
                b.wf(),
                i <= a.spec_boundary().len(),
                ma == a.spec_curves(),
                mb == b.spec_curves(),
                off == ma.len(),
                s_off as int == off,
                a.spec_boundary().len() == b.spec_boundary().len(),
                forall|w: int|
                    0 <= w < a.spec_boundary().len() ==> (#[trigger] a.spec_boundary()[w])
                        < ma.len(),
                forall|w: int|
                    0 <= w < b.spec_boundary().len() ==> (#[trigger] b.spec_boundary()[w])
                        < mb.len(),
                total == ma.len() + mb.len() + bubbles@.len(),
                total <= usize::MAX,
                components.wf(),
                components@ == glue_fold(m1, a.spec_boundary(), b.spec_boundary(), off, i as int),
                components@.len() == total,
                components@.excess_total() <= m1.excess_total() + i,
                m1.excess_total() >= 0,
                m1.excess_total() + a.spec_boundary().len() + connections@.len()
                    <= budget_cap,
                2 * budget_cap + 1 <= usize::MAX,
            decreases a.spec_boundary().len() - i,
        {
            let x = a.boundary[i];
            let y = b.boundary[i] + s_off;
            let joined = components.connected(x, y);
            if !joined {
                proof {
                    set_union::lemma_wf_inv(&components);
                    set_union::lemma_connect_budget(
                        components@,
                        x as int,
                        y as int,
                        m1.excess_total() + i,
                    );
                }
                components.connect(x, y);
            }
            i = i + 1;
        }
        let ghost m2 = components@;
        proof {
            set_union::lemma_wf_inv(&components);
            lemma_excess_total_nonneg(components@);
        }
        let mut u: usize = 0;
        while u < connections.len()
            invariant
                u <= connections@.len(),
                off == ma.len(),
                s_off as int == off,
                forall|w: int|
                    0 <= w < connections@.len() ==> (#[trigger] connections@[w]).0 < total
                        && connections@[w].1 + off < total,
                total <= usize::MAX,
                components.wf(),
                components@ == connect_fold(m2, connections@, off, u as int),
                components@.len() == total,
                components@.excess_total() <= m2.excess_total() + u,
                m2.excess_total() >= 0,
                m2.excess_total() + connections@.len() <= budget_cap,
                2 * budget_cap + 1 <= usize::MAX,
            decreases connections@.len() - u,
        {
            let pair = connections[u];
            proof {
                set_union::lemma_wf_inv(&components);
                set_union::lemma_connect_budget(
                    components@,
                    pair.0 as int,
                    pair.1 as int + off,
                    m2.excess_total() + u,
                );
            }
            components.connect(pair.0, pair.1 + s_off);
            u = u + 1;
        }
        let mut boundary: Vec<usize> = Vec::new();
        let mut v1: usize = 0;
        while v1 < a.boundary.len()
            invariant
                v1 <= a.spec_boundary().len(),
                boundary@ =~= a.spec_boundary().subrange(0, v1 as int),
            decreases a.spec_boundary().len() - v1,
        {
            boundary.push(a.boundary[v1]);
            v1 = v1 + 1;
        }
        let mut top_loops: Vec<usize> = Vec::new();
        let mut v2: usize = 0;
        while v2 < a.loops.len()
            invariant
                v2 <= a.spec_loops().len(),
                top_loops@ =~= a.spec_loops().subrange(0, v2 as int),
            decreases a.spec_loops().len() - v2,
        {
            top_loops.push(a.loops[v2]);
            v2 = v2 + 1;
        }
        let mut bottom_loops: Vec<usize> = Vec::new();
        let mut v3: usize = 0;
        while v3 < b.loops.len()
            invariant
                b.wf(),
                v3 <= b.spec_loops().len(),
                s_off as int == off,
                off == ma.len(),
                ma == a.spec_curves(),
                forall|w: int|
                    0 <= w < b.spec_loops().len() ==> (#[trigger] b.spec_loops()[w]) + off
                        <= usize::MAX,
                bottom_loops@.len() == v3,
                forall|w: int|
                    0 <= w < v3 ==> #[trigger] bottom_loops@[w] == b.spec_loops()[w] + off,
            decreases b.spec_loops().len() - v3,
        {
            bottom_loops.push(b.loops[v3] + s_off);
            v3 = v3 + 1;
        }
        let c = Cobordism { boundary, top_loops, bottom_loops, components };
        proof {
            assert(c.spec_boundary() =~= a.spec_boundary());
            assert(c.spec_top_loops() =~= a.spec_loops());
            assert(c.spec_bottom_loops() =~= b.spec_loops().map(
                |w: int, v: usize| (v + a.spec_curves().len()) as usize,
            ));
        }
        c
    }
}

/// The component partition of a stacking of two cobordisms: both
/// partitions side by side, matching boundary positions glued without
/// genus, then the left's exit loops glued to the right's entry loops
/// unconditionally (this interior seam always counts).
pub open spec fn stack_model(
    left: SetUnionModel,
    right: SetUnionModel,
    left_bnd: Seq<usize>,
    right_bnd: Seq<usize>,
    left_bottom: Seq<usize>,
    right_top: Seq<usize>,
) -> SetUnionModel {
    let off = left.len();
    let m0 = model_combine(left, right);
    let bl = min(left_bnd.len() as int, right_bnd.len() as int);
    let ll = min(left_bottom.len() as int, right_top.len() as int);
    let m1 = glue_fold(m0, left_bnd, right_bnd, off, bl);
    pair_fold(m1, left_bottom, right_top, off, ll)
}

impl Cobordism {
    /// Stacks `self` on top of `rhs` along their shared middle smoothing:
    /// the result carries `self`'s boundary and top loops and `rhs`'s
    /// bottom loops (re-indexed), and its components are the two component
    /// partitions glued along matching boundary positions and along
    /// `self`'s bottom loops paired with `rhs`'s top loops.
    pub fn compose(&self, rhs: &Cobordism) -> (c: Cobordism)
        requires
            self.wf(),
            rhs.wf(),
            self.spec_components().len() + rhs.spec_components().len() <= usize::MAX,
            forall|t: int|
                0 <= t < self.spec_boundary().len() && t < rhs.spec_boundary().len() ==> (
                #[trigger] self.spec_boundary()[t]) < self.spec_components().len()
                    && rhs.spec_boundary()[t] < rhs.spec_components().len(),
            forall|t: int|
                0 <= t < self.spec_bottom_loops().len() && t < rhs.spec_top_loops().len() ==> (
                #[trigger] self.spec_bottom_loops()[t]) < self.spec_components().len()
                    && rhs.spec_top_loops()[t] < rhs.spec_components().len(),
            forall|t: int|
                0 <= t < rhs.spec_bottom_loops().len() ==> (#[trigger] rhs.spec_bottom_loops()[t])
                    + self.spec_components().len() <= usize::MAX,
            2 * (self.spec_components().excess_total() + rhs.spec_components().excess_total()
                + min(self.spec_boundary().len() as int, rhs.spec_boundary().len() as int) + min(
                self.spec_bottom_loops().len() as int,
                rhs.spec_top_loops().len() as int,
            )) + 1 <= usize::MAX,
        ensures
            c.wf(),
            c.spec_boundary() == self.spec_boundary(),
            c.spec_top_loops() == self.spec_top_loops(),
            c.spec_bottom_loops() == rhs.spec_bottom_loops().map(
                |t: int, v: usize| (v + self.spec_components().len()) as usize,
            ),
            c.spec_components() == stack_model(
                self.spec_components(),
                rhs.spec_components(),
                self.spec_boundary(),
                rhs.spec_boundary(),
                self.spec_bottom_loops(),
                rhs.spec_top_loops(),
            ),
    {
        let ghost ms = self.spec_components();
        let ghost mr = rhs.spec_components();
        let ghost off = ms.len();
        let ghost total = ms.len() + mr.len();
        let ghost bl = min(self.spec_boundary().len() as int, rhs.spec_boundary().len() as int);
        let ghost ll = min(
            self.spec_bottom_loops().len() as int,
            rhs.spec_top_loops().len() as int,
        );
        let ghost budget_cap = ms.excess_total() + mr.excess_total() + bl + ll;
        let s_off = self.components.size();
        let mut components = self.components.combine(&rhs.components);
        proof {
            set_union::lemma_wf_inv(&self.components);
            set_union::lemma_wf_inv(&rhs.components);
            set_union::lemma_combine_excess_total(ms, mr);
            lemma_excess_total_nonneg(ms);
            lemma_excess_total_nonneg(mr);
        }
        let ghost m0 = components@;
        let bnd_pairs = if self.boundary.len() <= rhs.boundary.len() {
            self.boundary.len()
        } else {
            rhs.boundary.len()
        };
        let mut i: usize = 0;
        while i < bnd_pairs
            invariant
                self.wf(),
                rhs.wf(),
                ms == self.spec_components(),
                mr == rhs.spec_components(),
                off == ms.len(),
                s_off as int == off,
                total == ms.len() + mr.len(),
                total <= usize::MAX,
                bl == min(self.spec_boundary().len() as int, rhs.spec_boundary().len() as int),
                ll == min(
                    self.spec_bottom_loops().len() as int,
                    rhs.spec_top_loops().len() as int,
                ),
                bnd_pairs as int == bl,
                i <= bnd_pairs,
                forall|t: int|
                    0 <= t < self.spec_boundary().len() && t < rhs.spec_boundary().len() ==> (
                    #[trigger] self.spec_boundary()[t]) < ms.len() && rhs.spec_boundary()[t]
                        < mr.len(),
                components.wf(),
                components@ == glue_fold(
                    m0,
                    self.spec_boundary(),
                    rhs.spec_boundary(),
                    off,
                    i as int,
                ),
                components@.len() == total,
                components@.excess_total() <= m0.excess_total() + i,
                m0.excess_total() >= 0,
                m0.excess_total() + bl + ll <= budget_cap,
                2 * budget_cap + 1 <= usize::MAX,
            decreases bnd_pairs - i,
        {
            let x = self.boundary[i];
            let y = rhs.boundary[i] + s_off;
            let joined = components.connected(x, y);
            if !joined {
                proof {
                    set_union::lemma_wf_inv(&components);
                    set_union::lemma_connect_budget(
                        components@,
                        x as int,
                        y as int,
                        m0.excess_total() + i,
                    );
                }
                components.connect(x, y);
            }
            i = i + 1;
        }
        let ghost m1 = components@;
        proof {
            set_union::lemma_wf_inv(&components);
            lemma_excess_total_nonneg(components@);
        }
        let loop_pairs = if self.bottom_loops.len() <= rhs.top_loops.len() {
            self.bottom_loops.len()
        } else {
            rhs.top_loops.len()
        };
        let mut u: usize = 0;
        while u < loop_pairs
            invariant
                self.wf(),
                rhs.wf(),
                ms == self.spec_components(),
                mr == rhs.spec_components(),
                off == ms.len(),
                s_off as int == off,
                total == ms.len() + mr.len(),
                total <= usize::MAX,
                ll == min(
                    self.spec_bottom_loops().len() as int,
                    rhs.spec_top_loops().len() as int,
                ),
                loop_pairs as int == ll,
                u <= loop_pairs,
                forall|t: int|
                    0 <= t < self.spec_bottom_loops().len() && t < rhs.spec_top_loops().len()
                        ==> (#[trigger] self.spec_bottom_loops()[t]) < ms.len()
                        && rhs.spec_top_loops()[t] < mr.len(),
                components.wf(),
                components@ == pair_fold(
                    m1,
                    self.spec_bottom_loops(),
                    rhs.spec_top_loops(),
                    off,
                    u as int,
                ),
                components@.len() == total,
                components@.excess_total() <= m1.excess_total() + u,
                m1.excess_total() >= 0,
                m1.excess_total() + ll <= budget_cap,
                2 * budget_cap + 1 <= usize::MAX,
            decreases loop_pairs - u,
        {
            let x = self.bottom_loops[u];
            let y = rhs.top_loops[u] + s_off;
            proof {
                set_union::lemma_wf_inv(&components);
                set_union::lemma_connect_budget(
                    components@,
                    x as int,
                    y as int,
                    m1.excess_total() + u,
                );
            }
            components.connect(x, y);
            u = u + 1;
        }
        let mut boundary: Vec<usize> = Vec::new();
        let mut v1: usize = 0;
        while v1 < self.boundary.len()
            invariant
                v1 <= self.spec_boundary().len(),
                boundary@ =~= self.spec_boundary().subrange(0, v1 as int),
            decreases self.spec_boundary().len() - v1,
        {
            boundary.push(self.boundary[v1]);
            v1 = v1 + 1;
        }
        let mut top_loops: Vec<usize> = Vec::new();
        let mut v2: usize = 0;
        while v2 < self.top_loops.len()
            invariant
                v2 <= self.spec_top_loops().len(),
                top_loops@ =~= self.spec_top_loops().subrange(0, v2 as int),
            decreases self.spec_top_loops().len() - v2,
        {
            top_loops.push(self.top_loops[v2]);
            v2 = v2 + 1;
        }
        let mut bottom_loops: Vec<usize> = Vec::new();
        let mut v3: usize = 0;
        while v3 < rhs.bottom_loops.len()
            invariant
                rhs.wf(),
                v3 <= rhs.spec_bottom_loops().len(),
                s_off as int == off,
                off == ms.len(),
                ms == self.spec_components(),
                forall|w: int|
                    0 <= w < rhs.spec_bottom_loops().len() ==> (
                    #[trigger] rhs.spec_bottom_loops()[w]) + off <= usize::MAX,
                bottom_loops@.len() == v3,
                forall|w: int|
                    0 <= w < v3 ==> #[trigger] bottom_loops@[w] == rhs.spec_bottom_loops()[w]
                        + off,
            decreases rhs.spec_bottom_loops().len() - v3,
        {
            bottom_loops.push(rhs.bottom_loops[v3] + s_off);
            v3 = v3 + 1;
        }
        let c = Cobordism { boundary, top_loops, bottom_loops, components };
        proof {
            assert(c.spec_boundary() =~= self.spec_boundary());
            assert(c.spec_top_loops() =~= self.spec_top_loops());
            assert(c.spec_bottom_loops() =~= rhs.spec_bottom_loops().map(
                |t: int, v: usize| (v + self.spec_components().len()) as usize,
            ));
        }
        c
    }
}

proof fn lemma_genus_sum_nonneg(s: Seq<usize>, k: int)
    ensures
        genus_sum(s, k) >= 0,
    decreases k,
{
    if k > 0 {
        lemma_genus_sum_nonneg(s, k - 1);
    }
}

proof fn lemma_excess_total_nonneg(m: SetUnionModel)
    requires
        m.inv(),
    ensures
        m.excess_total() >= 0,
{
    set_union::lemma_root_sum_nonneg(m.root, m.excess, m.len());
}

} // verus!
