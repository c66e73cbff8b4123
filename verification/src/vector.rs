//! Sparse document vectors and cosine similarity.
//!
//! A `DocumentVector` maps term indices to positive fixed-point TF-IDF
//! weights, kept sorted by index, together with the sum of the squared
//! weights. Cosine similarity divides the dot product by both norms, so the
//! score of a vector with itself is exactly `SCALE` (that is, 1.0): the
//! stored weights describe an L2-normalized direction.
use vstd::prelude::*;
use vstd::arithmetic::div_mod::{lemma_div_is_ordered, lemma_div_multiples_vanish,
    lemma_div_pos_is_pos};
use crate::fixed::{SCALE, IDF_MAX, isqrt, isqrt_spec, lemma_isqrt_bounds, lemma_isqrt_pos};

verus! {

/// `IDF_MAX` squared: no product of two term weights exceeds it.
pub const IDF_SQ_MAX: u128 = 27026211358276;

/// The mathematical content of a `DocumentVector`.
pub struct DocView {
    /// Pairs of term index and positive weight, strictly sorted by index.
    pub entries: Seq<(usize, u64)>,
    /// The sum of the squared weights.
    pub norm_sq: u128,
}

/// A sparse TF-IDF vector over the vocabulary's index space.
#[derive(Debug, PartialEq, Eq)]
pub struct DocumentVector {
    /// Pairs of term index and positive weight, strictly sorted by index.
    pub entries: Vec<(usize, u64)>,
    /// The sum of the squared weights.
    pub norm_sq: u128,
}

impl View for DocumentVector {
    type V = DocView;

    open spec fn view(&self) -> DocView {
        DocView { entries: self.entries@, norm_sq: self.norm_sq }
    }
}

/// The sum of the squared weights of `s`.
pub open spec fn sum_sq(s: Seq<(usize, u64)>) -> int
    decreases s.len(),
{
    if s.len() == 0 {
        0
    } else {
        (s[0].1 as int) * (s[0].1 as int) + sum_sq(s.drop_first())
    }
}

/// The sparse dot product of two index-sorted weight sequences.
pub open spec fn dot_spec(a: Seq<(usize, u64)>, b: Seq<(usize, u64)>) -> int
    decreases a.len() + b.len(),
{
    if a.len() == 0 || b.len() == 0 {
        0
    } else if a[0].0 == b[0].0 {
        (a[0].1 as int) * (b[0].1 as int) + dot_spec(a.drop_first(), b.drop_first())
    } else if a[0].0 < b[0].0 {
        dot_spec(a.drop_first(), b)
    } else {
        dot_spec(a, b.drop_first())
    }
}

/// Well-formedness of a vector's mathematical content.
pub open spec fn dv_wf(d: DocView) -> bool {
    &&& forall|k: int| 0 <= k < d.entries.len() ==> 0 < (#[trigger] d.entries[k]).1 <= IDF_MAX
    &&& forall|k: int| 0 <= k && k + 1 < d.entries.len()
        ==> (#[trigger] d.entries[k]).0 < d.entries[k + 1].0
    &&& d.norm_sq as int == sum_sq(d.entries)
}

/// Cosine similarity of two vectors, in fixed point: the dot product over
/// the product of the integer square roots of the two norms, clamped to
/// `SCALE`; zero whenever either vector is zero.
pub open spec fn sim_spec(a: DocView, b: DocView) -> int {
    if a.norm_sq == 0 || b.norm_sq == 0 {
        0
    } else {
        let q = isqrt_spec(a.norm_sq as int) * isqrt_spec(b.norm_sq as int);
        let v = dot_spec(a.entries, b.entries) * SCALE / q;
        if v > SCALE {
            SCALE as int
        } else {
            v
        }
    }
}

impl DocumentVector {
    /// Well-formedness: positive bounded weights, strictly sorted indices,
    /// and a norm that is really the sum of the squared weights.
    pub open spec fn wf(&self) -> bool {
        dv_wf(self@)
    }

    /// The all-zero vector, produced by empty or fully unknown text.
    pub fn zero() -> (r: DocumentVector)
        ensures
            r.wf(),
            r@.entries.len() == 0,
            r@.norm_sq == 0,
    {
        DocumentVector { entries: Vec::new(), norm_sq: 0 }
    }
}

/// Appending an entry adds its squared weight to `sum_sq`.
pub proof fn lemma_sum_sq_push(s: Seq<(usize, u64)>, x: (usize, u64))
    ensures
        sum_sq(s.push(x)) == sum_sq(s) + (x.1 as int) * (x.1 as int),
    decreases s.len(),
{
    let p = s.push(x);
    assert(p.len() == s.len() + 1);
    if s.len() == 0 {
        assert(p[0] == x);
        assert(p.drop_first() =~= Seq::<(usize, u64)>::empty());
        assert(sum_sq(p) == (p[0].1 as int) * (p[0].1 as int) + sum_sq(p.drop_first()));
        assert((p[0].1 as int) * (p[0].1 as int) == (x.1 as int) * (x.1 as int))
            by (nonlinear_arith)
            requires p[0] == x;
    } else {
        assert(p[0] == s[0]);
        assert(p.drop_first() =~= s.drop_first().push(x));
        lemma_sum_sq_push(s.drop_first(), x);
        assert(sum_sq(p) == (p[0].1 as int) * (p[0].1 as int) + sum_sq(p.drop_first()));
        assert((p[0].1 as int) * (p[0].1 as int) == (s[0].1 as int) * (s[0].1 as int))
            by (nonlinear_arith)
            requires p[0] == s[0];
    }
}

/// The sum of squares is never negative.
pub proof fn lemma_sum_sq_nonneg(s: Seq<(usize, u64)>)
    ensures
        sum_sq(s) >= 0,
    decreases s.len(),
{
    if s.len() > 0 {
        lemma_sum_sq_nonneg(s.drop_first());
        assert((s[0].1 as int) * (s[0].1 as int) >= 0) by (nonlinear_arith);
    }
}

/// A dot product of non-negative weights is never negative.
pub proof fn lemma_dot_nonneg(a: Seq<(usize, u64)>, b: Seq<(usize, u64)>)
    ensures
        dot_spec(a, b) >= 0,
    decreases a.len() + b.len(),
{
    if a.len() == 0 || b.len() == 0 {
    } else if a[0].0 == b[0].0 {
        lemma_dot_nonneg(a.drop_first(), b.drop_first());
        assert((a[0].1 as int) * (b[0].1 as int) >= 0) by (nonlinear_arith);
    } else if a[0].0 < b[0].0 {
        lemma_dot_nonneg(a.drop_first(), b);
    } else {
        lemma_dot_nonneg(a, b.drop_first());
    }
}

/// The dot product of a sequence with itself is its sum of squares.
pub proof fn lemma_dot_self(s: Seq<(usize, u64)>)
    ensures
        dot_spec(s, s) == sum_sq(s),
    decreases s.len(),
{
    if s.len() > 0 {
        lemma_dot_self(s.drop_first());
    }
}

/// The sparse dot product of two sorted weight vectors, by merging.
pub fn dot_product(a: &Vec<(usize, u64)>, b: &Vec<(usize, u64)>) -> (r: u128)
    requires
        forall|k: int| 0 <= k < a@.len() ==> (#[trigger] a@[k]).1 <= IDF_MAX,
        forall|k: int| 0 <= k < b@.len() ==> (#[trigger] b@[k]).1 <= IDF_MAX,
    ensures
        r as int == dot_spec(a@, b@),
        (r as int) <= (a@.len() + b@.len()) * (IDF_SQ_MAX as int),
{
    let mut acc: u128 = 0;
    let mut i: usize = 0;
    let mut j: usize = 0;
    proof {
        assert(a@.skip(0) =~= a@);
        assert(b@.skip(0) =~= b@);
    }
    while i < a.len() && j < b.len()
        invariant
            i <= a@.len(),
            j <= b@.len(),
            forall|k: int| 0 <= k < a@.len() ==> (#[trigger] a@[k]).1 <= IDF_MAX,
            forall|k: int| 0 <= k < b@.len() ==> (#[trigger] b@[k]).1 <= IDF_MAX,
            dot_spec(a@, b@) == acc + dot_spec(a@.skip(i as int), b@.skip(j as int)),
            (acc as int) <= (i + j) * (IDF_SQ_MAX as int),
        decreases a@.len() - i + b@.len() - j,
    {
        let ghost sa = a@.skip(i as int);
        let ghost sb = b@.skip(j as int);
        proof {
            assert(sa.len() > 0 && sb.len() > 0);
            assert(sa[0] == a@[i as int]);
            assert(sb[0] == b@[j as int]);
            assert(sa.drop_first() =~= a@.skip(i as int + 1));
            assert(sb.drop_first() =~= b@.skip(j as int + 1));
            assert((i + j + 2) * (IDF_SQ_MAX as int) <= (a@.len() + b@.len()) * (IDF_SQ_MAX as int))
                by (nonlinear_arith)
                requires i + j + 2 <= a@.len() + b@.len(), IDF_SQ_MAX > 0;
            assert((a@.len() + b@.len()) * (IDF_SQ_MAX as int) < u128::MAX as int)
                by (nonlinear_arith)
                requires
                    a@.len() + b@.len() <= 0x2_0000_0000_0000_0000,
                    IDF_SQ_MAX == 27026211358276u128;
        }
        let (ia, wa) = a[i];
        let (ib, wb) = b[j];
        if ia == ib {
            proof {
                assert((wa as int) * (wb as int) <= IDF_SQ_MAX as int) by (nonlinear_arith)
                    requires wa <= IDF_MAX, wb <= IDF_MAX, IDF_MAX == 5198674u64,
                        IDF_SQ_MAX == 27026211358276u128;
                assert((i + j) * (IDF_SQ_MAX as int) + IDF_SQ_MAX
                    == (i + j + 1) * (IDF_SQ_MAX as int)) by (nonlinear_arith);
                assert((i + j + 1) * (IDF_SQ_MAX as int)
                    <= (i + j + 2) * (IDF_SQ_MAX as int)) by (nonlinear_arith)
                    requires IDF_SQ_MAX > 0;
            }
            acc = acc + (wa as u128) * (wb as u128);
            i = i + 1;
            j = j + 1;
        } else if ia < ib {
            proof {
                assert((i + 1 + j) * (IDF_SQ_MAX as int) >= (i + j) * (IDF_SQ_MAX as int))
                    by (nonlinear_arith)
                    requires IDF_SQ_MAX > 0;
            }
            i = i + 1;
        } else {
            proof {
                assert((i + j + 1) * (IDF_SQ_MAX as int) >= (i + j) * (IDF_SQ_MAX as int))
                    by (nonlinear_arith)
                    requires IDF_SQ_MAX > 0;
            }
            j = j + 1;
        }
    }
    proof {
        if i >= a@.len() {
            assert(a@.skip(i as int) =~= Seq::<(usize, u64)>::empty());
        } else {
            assert(b@.skip(j as int) =~= Seq::<(usize, u64)>::empty());
        }
        assert((i + j) * (IDF_SQ_MAX as int) <= (a@.len() + b@.len()) * (IDF_SQ_MAX as int))
            by (nonlinear_arith)
            requires i + j <= a@.len() + b@.len(), IDF_SQ_MAX > 0;
    }
    acc
}

/// Cosine similarity of two document vectors, in fixed point with `SCALE`
/// standing for 1.0. Zero when either vector is zero; never above `SCALE`.
pub fn similarity(a: &DocumentVector, b: &DocumentVector) -> (r: u64)
    requires
        a.wf(),
        b.wf(),
    ensures
        r as int == sim_spec(a@, b@),
        r <= SCALE,
{
    if a.norm_sq == 0 || b.norm_sq == 0 {
        proof {
            lemma_similarity_bounds(a@, b@);
        }
        return 0;
    }
    let la = a.entries.len();
    let lb = b.entries.len();
    let d = dot_product(&a.entries, &b.entries);
    let an = isqrt(a.norm_sq);
    let bn = isqrt(b.norm_sq);
    proof {
        assert(la as int + lb as int <= 0x2_0000_0000_0000_0000);
        lemma_isqrt_pos(a.norm_sq as int);
        lemma_isqrt_pos(b.norm_sq as int);
        assert(an >= 1 && bn >= 1);
        assert((an as int) * (bn as int) < u128::MAX as int) by (nonlinear_arith)
            requires an <= u64::MAX, bn <= u64::MAX;
        assert((d as int) <= 0x2_0000_0000_0000_0000 * 27026211358276) by (nonlinear_arith)
            requires
                (d as int) <= (a@.entries.len() + b@.entries.len()) * (IDF_SQ_MAX as int),
                a@.entries.len() + b@.entries.len() <= 0x2_0000_0000_0000_0000,
                IDF_SQ_MAX == 27026211358276u128;
        assert((d as int) * (SCALE as int) <= u128::MAX as int) by (nonlinear_arith)
            requires
                (d as int) <= 0x2_0000_0000_0000_0000 * 27026211358276,
                SCALE == 65536u64;
        assert((d as int) * (SCALE as int) >= 0) by (nonlinear_arith);
        assert((an as int) * (bn as int) >= 1) by (nonlinear_arith)
            requires an >= 1, bn >= 1;
    }
    let denom: u128 = (an as u128) * (bn as u128);
    let num: u128 = d * (SCALE as u128);
    let q = num / denom;
    if q > SCALE as u128 {
        SCALE
    } else {
        q as u64
    }
}

/// Similarity always lies between 0 and `SCALE` inclusive.
pub proof fn lemma_similarity_bounds(a: DocView, b: DocView)
    requires
        dv_wf(a),
        dv_wf(b),
    ensures
        0 <= sim_spec(a, b) <= SCALE,
{
    if a.norm_sq == 0 || b.norm_sq == 0 {
    } else {
        lemma_dot_nonneg(a.entries, b.entries);
        lemma_isqrt_bounds(a.norm_sq as int);
        lemma_isqrt_bounds(b.norm_sq as int);
        lemma_isqrt_pos(a.norm_sq as int);
        lemma_isqrt_pos(b.norm_sq as int);
        let ra = isqrt_spec(a.norm_sq as int);
        let rb = isqrt_spec(b.norm_sq as int);
        let q = ra * rb;
        assert(q >= 1) by (nonlinear_arith)
            requires ra >= 1, rb >= 1, q == ra * rb;
        assert(dot_spec(a.entries, b.entries) * SCALE >= 0) by (nonlinear_arith)
            requires dot_spec(a.entries, b.entries) >= 0;
        lemma_div_pos_is_pos(dot_spec(a.entries, b.entries) * SCALE, q);
    }
}

/// A non-zero vector has similarity exactly `SCALE` with itself: the stored
/// direction is a unit vector.
pub proof fn lemma_self_similarity(v: DocView)
    requires
        dv_wf(v),
        v.norm_sq > 0,
    ensures
        sim_spec(v, v) == SCALE,
{
    lemma_dot_self(v.entries);
    lemma_isqrt_bounds(v.norm_sq as int);
    lemma_isqrt_pos(v.norm_sq as int);
    let r = isqrt_spec(v.norm_sq as int);
    let q = r * r;
    let n = v.norm_sq as int;
    assert(1 <= q <= n) by (nonlinear_arith)
        requires r >= 1, r * r <= n, q == r * r;
    assert(q * SCALE <= n * SCALE) by (nonlinear_arith)
        requires q <= n, SCALE == 65536u64;
    lemma_div_is_ordered(q * (SCALE as int), n * (SCALE as int), q);
    lemma_div_multiples_vanish(SCALE as int, q);
    assert(n * (SCALE as int) / q >= SCALE);
}

/// With positive weights, the norm is zero exactly on the empty vector:
/// every non-empty well-formed vector is a genuine direction.
pub proof fn lemma_norm_zero_iff_empty(d: DocView)
    requires
        dv_wf(d),
    ensures
        d.norm_sq == 0 <==> d.entries.len() == 0,
{
    if d.entries.len() > 0 {
        lemma_sum_sq_pos(d.entries);
    }
}

/// A sum of squares of positive weights is positive.
proof fn lemma_sum_sq_pos(s: Seq<(usize, u64)>)
    requires
        s.len() > 0,
        forall|k: int| 0 <= k < s.len() ==> 0 < (#[trigger] s[k]).1,
    ensures
        sum_sq(s) > 0,
    decreases s.len(),
{
    assert((s[0].1 as int) * (s[0].1 as int) > 0) by (nonlinear_arith)
        requires s[0].1 >= 1;
    if s.len() > 1 {
        lemma_sum_sq_pos(s.drop_first());
    } else {
        lemma_sum_sq_nonneg(s.drop_first());
    }
}

} // verus!
