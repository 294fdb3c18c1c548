//! Reified linear inequalities and the pair-merge operators.
//!
//! A [`GeLineq`] states `sum(coeffs[i] * x[indices[i]]) + bias >= 0`, each
//! referenced variable being restricted to the paired bound interval.  The
//! merge operators collapse two inequalities into one that is satisfied by
//! exactly the disjunction (or conjunction) of the inputs, whenever a single
//! linear inequality can express that combination over the given supports.

use vstd::prelude::*;
use vstd::arithmetic::mul::lemma_mul_is_distributive_add;
use vstd::arithmetic::mul::lemma_mul_is_associative;

use crate::TheoryError;

verus! {

/// Most terms one inequality may carry and still take part in a merge.
pub const MAX_TERMS: usize = 1000;

/// Largest coefficient magnitude accepted by the merge operators.
pub const MAX_COEF: i64 = 1000;

/// Largest variable-bound magnitude accepted by the merge operators.
pub const MAX_BOUND: i64 = 1_000_000;

/// Largest bias magnitude accepted by the merge operators.
pub const MAX_BIAS: i64 = 1_000_000;

/// One reified linear constraint `sum(coeffs[i] * x[indices[i]]) + bias >= 0`.
#[derive(Clone, Debug)]
pub struct GeLineq {
    /// Provenance: the id of the statement this constraint reifies, if any.
    pub id: Option<u32>,
    pub bias: i64,
    /// Inclusive bound interval of the variable at the same position.
    pub bounds: Vec<(i64, i64)>,
    pub coeffs: Vec<i64>,
    /// Referenced variable ids; no id occurs twice.
    pub indices: Vec<u32>,
}

/// The smaller value the term `c * x` can take for `x` in `[lo, hi]`.
pub open spec fn term_lo(c: int, lo: int, hi: int) -> int {
    if c >= 0 {
        c * lo
    } else {
        c * hi
    }
}

/// The larger value the term `c * x` can take for `x` in `[lo, hi]`.
pub open spec fn term_hi(c: int, lo: int, hi: int) -> int {
    if c >= 0 {
        c * hi
    } else {
        c * lo
    }
}

impl GeLineq {
    /// Paired sequences agree in length, no variable id repeats, and every
    /// bound interval is non-empty.
    pub open spec fn wf(self) -> bool {
        &&& self.coeffs@.len() == self.indices@.len()
        &&& self.bounds@.len() == self.indices@.len()
        &&& forall|i: int, j: int|
            0 <= i < j < self.indices@.len() ==> self.indices@[i] != self.indices@[j]
        &&& forall|i: int|
            0 <= i < self.bounds@.len() ==> (#[trigger] self.bounds@[i]).0 <= self.bounds@[i].1
    }

    /// Sum of the first `n` terms under the assignment `x`.
    pub open spec fn sum_terms(self, x: Map<u32, int>, n: int) -> int
        decreases n,
    {
        if n <= 0 {
            0
        } else {
            self.sum_terms(x, n - 1) + self.coeffs@[n - 1] * x[self.indices@[n - 1]]
        }
    }

    /// The constraint's left-hand side under the assignment `x`.
    pub open spec fn value(self, x: Map<u32, int>) -> int {
        self.bias + self.sum_terms(x, self.indices@.len() as int)
    }

    /// `x` assigns every referenced variable a value within its bounds.
    pub open spec fn respects(self, x: Map<u32, int>) -> bool {
        forall|i: int|
            0 <= i < self.indices@.len() ==> {
                &&& x.contains_key(#[trigger] self.indices@[i])
                &&& self.bounds@[i].0 <= x[self.indices@[i]] <= self.bounds@[i].1
            }
    }

    /// The constraint holds under the assignment `x`.
    pub open spec fn satisfied(self, x: Map<u32, int>) -> bool {
        self.value(x) >= 0
    }

    /// Sum of the smallest values the first `n` terms can take in their boxes.
    pub open spec fn sum_lo(self, n: int) -> int
        decreases n,
    {
        if n <= 0 {
            0
        } else {
            self.sum_lo(n - 1) + term_lo(
                self.coeffs@[n - 1] as int,
                self.bounds@[n - 1].0 as int,
                self.bounds@[n - 1].1 as int,
            )
        }
    }

    /// Sum of the largest values the first `n` terms can take in their boxes.
    pub open spec fn sum_hi(self, n: int) -> int
        decreases n,
    {
        if n <= 0 {
            0
        } else {
            self.sum_hi(n - 1) + term_hi(
                self.coeffs@[n - 1] as int,
                self.bounds@[n - 1].0 as int,
                self.bounds@[n - 1].1 as int,
            )
        }
    }

    /// Least value the left-hand side takes over the bound box.
    pub open spec fn min_value(self) -> int {
        self.bias + self.sum_lo(self.indices@.len() as int)
    }

    /// Greatest value the left-hand side takes over the bound box.
    pub open spec fn max_value(self) -> int {
        self.bias + self.sum_hi(self.indices@.len() as int)
    }

    /// Within the caps the merge operators accept.
    pub open spec fn compact(self) -> bool {
        &&& self.indices@.len() <= MAX_TERMS
        &&& forall|i: int|
            0 <= i < self.coeffs@.len() ==> -MAX_COEF <= #[trigger] self.coeffs@[i] <= MAX_COEF
        &&& forall|i: int|
            0 <= i < self.bounds@.len() ==> {
                &&& -MAX_BOUND <= (#[trigger] self.bounds@[i]).0 <= MAX_BOUND
                &&& -MAX_BOUND <= self.bounds@[i].1 <= MAX_BOUND
            }
        &&& -MAX_BIAS <= self.bias <= MAX_BIAS
    }

    proof fn lemma_sum_in_range(self, x: Map<u32, int>, n: int)
        requires
            self.wf(),
            self.respects(x),
            0 <= n <= self.indices@.len(),
        ensures
            self.sum_lo(n) <= self.sum_terms(x, n) <= self.sum_hi(n),
        decreases n,
    {
        if n > 0 {
            self.lemma_sum_in_range(x, n - 1);
            let c = self.coeffs@[n - 1] as int;
            let lo = self.bounds@[n - 1].0 as int;
            let hi = self.bounds@[n - 1].1 as int;
            let xv = x[self.indices@[n - 1]];
            if c >= 0 {
                assert(c * lo <= c * xv && c * xv <= c * hi) by (nonlinear_arith)
                    requires
                        c >= 0,
                        lo <= xv,
                        xv <= hi,
                ;
            } else {
                assert(c * hi <= c * xv && c * xv <= c * lo) by (nonlinear_arith)
                    requires
                        c < 0,
                        lo <= xv,
                        xv <= hi,
                ;
            }
        }
    }

    /// Over the bound box, the left-hand side stays between its extremes.
    pub proof fn lemma_value_in_range(self, x: Map<u32, int>)
        requires
            self.wf(),
            self.respects(x),
        ensures
            self.min_value() <= self.value(x) <= self.max_value(),
    {
        self.lemma_sum_in_range(x, self.indices@.len() as int);
    }

    proof fn lemma_sum_lo_bound(self, n: int)
        requires
            self.wf(),
            self.compact(),
            0 <= n <= self.indices@.len(),
        ensures
            -n * (MAX_COEF * MAX_BOUND) <= self.sum_lo(n) <= n * (MAX_COEF * MAX_BOUND),
        decreases n,
    {
        if n > 0 {
            self.lemma_sum_lo_bound(n - 1);
            let c = self.coeffs@[n - 1] as int;
            let lo = self.bounds@[n - 1].0 as int;
            let hi = self.bounds@[n - 1].1 as int;
            assert(-(MAX_COEF * MAX_BOUND) <= term_lo(c, lo, hi) <= MAX_COEF * MAX_BOUND)
                by (nonlinear_arith)
                requires
                    -MAX_COEF <= c <= MAX_COEF,
                    -MAX_BOUND <= lo <= MAX_BOUND,
                    -MAX_BOUND <= hi <= MAX_BOUND,
            ;
            assert((n - 1) * (MAX_COEF * MAX_BOUND) + MAX_COEF * MAX_BOUND == n * (MAX_COEF
                * MAX_BOUND)) by (nonlinear_arith);
        }
    }

    proof fn lemma_sum_hi_bound(self, n: int)
        requires
            self.wf(),
            self.compact(),
            0 <= n <= self.indices@.len(),
        ensures
            -n * (MAX_COEF * MAX_BOUND) <= self.sum_hi(n) <= n * (MAX_COEF * MAX_BOUND),
        decreases n,
    {
        if n > 0 {
            self.lemma_sum_hi_bound(n - 1);
            let c = self.coeffs@[n - 1] as int;
            let lo = self.bounds@[n - 1].0 as int;
            let hi = self.bounds@[n - 1].1 as int;
            assert(-(MAX_COEF * MAX_BOUND) <= term_hi(c, lo, hi) <= MAX_COEF * MAX_BOUND)
                by (nonlinear_arith)
                requires
                    -MAX_COEF <= c <= MAX_COEF,
                    -MAX_BOUND <= lo <= MAX_BOUND,
                    -MAX_BOUND <= hi <= MAX_BOUND,
            ;
            assert((n - 1) * (MAX_COEF * MAX_BOUND) + MAX_COEF * MAX_BOUND == n * (MAX_COEF
                * MAX_BOUND)) by (nonlinear_arith);
        }
    }

}

/// The coefficient `l` gives the variable `id`, or zero when `l` does not
/// reference it.
pub open spec fn coeff_of(l: GeLineq, id: u32) -> int {
    if exists|k: int| 0 <= k < l.indices@.len() && l.indices@[k] == id {
        l.coeffs@[choose|k: int| 0 <= k < l.indices@.len() && l.indices@[k] == id] as int
    } else {
        0
    }
}

/// Looks up the coefficient of `id` in `l`.
pub fn coeff_lookup(l: &GeLineq, id: u32) -> (r: i64)
    requires
        l.wf(),
    ensures
        r as int == coeff_of(*l, id),
{
    let n = l.indices.len();
    let mut k: usize = 0;
    while k < n
        invariant
            l.wf(),
            n == l.indices@.len(),
            k <= n,
            forall|q: int| 0 <= q < k ==> l.indices@[q] != id,
        decreases n - k,
    {
        if l.indices[k] == id {
            proof {
                let k2 = choose|k2: int| 0 <= k2 < l.indices@.len() && l.indices@[k2] == id;
                assert(k2 == k as int);
            }
            return l.coeffs[k];
        }
        k += 1;
    }
    0
}

/// No id occurs twice in `v`.
pub open spec fn ids_distinct(v: Seq<u32>) -> bool {
    forall|i: int, j: int| 0 <= i < j < v.len() ==> v[i] != v[j]
}

/// The two constraints reference no common variable id.
pub open spec fn supports_disjoint(a: GeLineq, b: GeLineq) -> bool {
    forall|i: int, j: int|
        0 <= i < a.indices@.len() && 0 <= j < b.indices@.len() ==> a.indices@[i] != b.indices@[j]
}

/// Provenance of a merged constraint: kept only when both inputs carry the
/// same provenance.
pub open spec fn merged_id(a: GeLineq, b: GeLineq) -> Option<u32> {
    if a.id == b.id {
        a.id
    } else {
        None
    }
}

fn distinct_ids_exec(v: &Vec<u32>) -> (r: bool)
    ensures
        r == ids_distinct(v@),
{
    let n = v.len();
    let mut i: usize = 0;
    while i < n
        invariant
            n == v@.len(),
            i <= n,
            forall|a: int, b: int| 0 <= a < b < n && a < i ==> v@[a] != v@[b],
        decreases n - i,
    {
        let mut j: usize = i + 1;
        while j < n
            invariant
                n == v@.len(),
                i < j <= n,
                forall|b: int| i < b < j ==> v@[i as int] != v@[b],
            decreases n - j,
        {
            if v[i] == v[j] {
                return false;
            }
            j += 1;
        }
        i += 1;
    }
    true
}

fn check_wf(l: &GeLineq) -> (r: bool)
    ensures
        r == l.wf(),
{
    if l.coeffs.len() != l.indices.len() || l.bounds.len() != l.indices.len() {
        return false;
    }
    let n = l.bounds.len();
    let mut i: usize = 0;
    while i < n
        invariant
            n == l.bounds@.len(),
            i <= n,
            forall|k: int| 0 <= k < i ==> (#[trigger] l.bounds@[k]).0 <= l.bounds@[k].1,
        decreases n - i,
    {
        if l.bounds[i].0 > l.bounds[i].1 {
            return false;
        }
        i += 1;
    }
    distinct_ids_exec(&l.indices)
}

fn check_compact(l: &GeLineq) -> (r: bool)
    requires
        l.wf(),
    ensures
        r == l.compact(),
{
    if l.indices.len() > MAX_TERMS {
        return false;
    }
    if l.bias < -MAX_BIAS || l.bias > MAX_BIAS {
        return false;
    }
    let n = l.indices.len();
    let mut i: usize = 0;
    while i < n
        invariant
            l.wf(),
            n == l.indices@.len(),
            i <= n,
            forall|k: int|
                0 <= k < i ==> -MAX_COEF <= #[trigger] l.coeffs@[k] <= MAX_COEF,
            forall|k: int|
                0 <= k < i ==> {
                    &&& -MAX_BOUND <= (#[trigger] l.bounds@[k]).0 <= MAX_BOUND
                    &&& -MAX_BOUND <= l.bounds@[k].1 <= MAX_BOUND
                },
        decreases n - i,
    {
        let c = l.coeffs[i];
        if c < -MAX_COEF || c > MAX_COEF {
            return false;
        }
        let (lo, hi) = l.bounds[i];
        if lo < -MAX_BOUND || lo > MAX_BOUND || hi < -MAX_BOUND || hi > MAX_BOUND {
            return false;
        }
        i += 1;
    }
    true
}

fn check_disjoint(a: &GeLineq, b: &GeLineq) -> (r: bool)
    ensures
        r == supports_disjoint(*a, *b),
{
    let n = a.indices.len();
    let m = b.indices.len();
    let mut i: usize = 0;
    while i < n
        invariant
            n == a.indices@.len(),
            m == b.indices@.len(),
            i <= n,
            forall|p: int, q: int| 0 <= p < i && 0 <= q < m ==> a.indices@[p] != b.indices@[q],
        decreases n - i,
    {
        let mut j: usize = 0;
        while j < m
            invariant
                n == a.indices@.len(),
                m == b.indices@.len(),
                i < n,
                j <= m,
                forall|q: int| 0 <= q < j ==> a.indices@[i as int] != b.indices@[q],
            decreases m - j,
        {
            if a.indices[i] == b.indices[j] {
                return false;
            }
            j += 1;
        }
        i += 1;
    }
    true
}

fn min_value_exec(l: &GeLineq) -> (r: i64)
    requires
        l.wf(),
        l.compact(),
    ensures
        r as int == l.min_value(),
        -1_000_001_000_000 <= r <= 1_000_001_000_000,
{
    let n = l.indices.len();
    let mut acc: i64 = 0;
    let mut i: usize = 0;
    while i < n
        invariant
            l.wf(),
            l.compact(),
            n == l.indices@.len(),
            i <= n,
            acc as int == l.sum_lo(i as int),
            -(i as int) * 1_000_000_000 <= acc as int <= (i as int) * 1_000_000_000,
        decreases n - i,
    {
        let c = l.coeffs[i];
        let (lo, hi) = l.bounds[i];
        proof {
            assert(-1_000_000_000 <= c * lo <= 1_000_000_000 && -1_000_000_000 <= c * hi
                <= 1_000_000_000) by (nonlinear_arith)
                requires
                    -MAX_COEF <= c <= MAX_COEF,
                    -MAX_BOUND <= lo <= MAX_BOUND,
                    -MAX_BOUND <= hi <= MAX_BOUND,
            ;
        }
        let t: i64 = if c >= 0 {
            c * lo
        } else {
            c * hi
        };
        acc = acc + t;
        i += 1;
    }
    proof {
        l.lemma_sum_lo_bound(n as int);
    }
    l.bias + acc
}

fn max_value_exec(l: &GeLineq) -> (r: i64)
    requires
        l.wf(),
        l.compact(),
    ensures
        r as int == l.max_value(),
        -1_000_001_000_000 <= r <= 1_000_001_000_000,
{
    let n = l.indices.len();
    let mut acc: i64 = 0;
    let mut i: usize = 0;
    while i < n
        invariant
            l.wf(),
            l.compact(),
            n == l.indices@.len(),
            i <= n,
            acc as int == l.sum_hi(i as int),
            -(i as int) * 1_000_000_000 <= acc as int <= (i as int) * 1_000_000_000,
        decreases n - i,
    {
        let c = l.coeffs[i];
        let (lo, hi) = l.bounds[i];
        proof {
            assert(-1_000_000_000 <= c * lo <= 1_000_000_000 && -1_000_000_000 <= c * hi
                <= 1_000_000_000) by (nonlinear_arith)
                requires
                    -MAX_COEF <= c <= MAX_COEF,
                    -MAX_BOUND <= lo <= MAX_BOUND,
                    -MAX_BOUND <= hi <= MAX_BOUND,
            ;
        }
        let t: i64 = if c >= 0 {
            c * hi
        } else {
            c * lo
        };
        acc = acc + t;
        i += 1;
    }
    proof {
        l.lemma_sum_hi_bound(n as int);
    }
    l.bias + acc
}

/// `c` carries `p`'s terms scaled by `s`, then `q`'s terms unchanged, with
/// bias `s * p.bias + q.bias + extra`: its left-hand side is
/// `s * p.value + q.value + extra` everywhere.
pub open spec fn merged_shape(c: GeLineq, p: GeLineq, q: GeLineq, s: int, extra: int) -> bool {
    &&& p.wf()
    &&& q.wf()
    &&& c.indices@ == p.indices@ + q.indices@
    &&& c.bounds@ == p.bounds@ + q.bounds@
    &&& c.coeffs@.len() == p.coeffs@.len() + q.coeffs@.len()
    &&& forall|i: int|
        0 <= i < p.coeffs@.len() ==> (#[trigger] c.coeffs@[i]) as int == s * p.coeffs@[i]
    &&& forall|i: int|
        0 <= i < q.coeffs@.len() ==> #[trigger] c.coeffs@[p.coeffs@.len() + i] == q.coeffs@[i]
    &&& c.bias as int == s * p.bias + q.bias + extra
}

proof fn lemma_sum_scaled_prefix(c: GeLineq, p: GeLineq, q: GeLineq, s: int, extra: int, x: Map<
    u32,
    int,
>, n: int)
    requires
        merged_shape(c, p, q, s, extra),
        0 <= n <= p.indices@.len(),
    ensures
        c.sum_terms(x, n) == s * p.sum_terms(x, n),
    decreases n,
{
    if n <= 0 {
        assert(s * 0 == 0) by (nonlinear_arith);
    } else {
        lemma_sum_scaled_prefix(c, p, q, s, extra, x, n - 1);
        let pc = p.coeffs@[n - 1] as int;
        let xv = x[p.indices@[n - 1]];
        assert(c.indices@[n - 1] == p.indices@[n - 1]);
        lemma_mul_is_associative(s, pc, xv);
        lemma_mul_is_distributive_add(s, p.sum_terms(x, n - 1), pc * xv);
    }
}

proof fn lemma_sum_concat(c: GeLineq, p: GeLineq, q: GeLineq, s: int, extra: int, x: Map<
    u32,
    int,
>, n: int)
    requires
        merged_shape(c, p, q, s, extra),
        0 <= n <= q.indices@.len(),
    ensures
        c.sum_terms(x, p.indices@.len() + n) == c.sum_terms(x, p.indices@.len() as int)
            + q.sum_terms(x, n),
    decreases n,
{
    if n > 0 {
        lemma_sum_concat(c, p, q, s, extra, x, n - 1);
        let pl = p.indices@.len() as int;
        assert(c.indices@[pl + n - 1] == q.indices@[n - 1]);
        assert(c.coeffs@[pl + n - 1] == q.coeffs@[n - 1]);
    }
}

proof fn lemma_value_decomposition(c: GeLineq, p: GeLineq, q: GeLineq, s: int, extra: int, x: Map<
    u32,
    int,
>)
    requires
        merged_shape(c, p, q, s, extra),
    ensures
        c.value(x) == s * p.value(x) + q.value(x) + extra,
{
    let pl = p.indices@.len() as int;
    let ql = q.indices@.len() as int;
    lemma_sum_scaled_prefix(c, p, q, s, extra, x, pl);
    lemma_sum_concat(c, p, q, s, extra, x, ql);
    assert(c.indices@.len() == pl + ql);
    lemma_mul_is_distributive_add(s, p.bias as int, p.sum_terms(x, pl));
}

proof fn lemma_respects_split(c: GeLineq, p: GeLineq, q: GeLineq, s: int, extra: int)
    requires
        merged_shape(c, p, q, s, extra),
    ensures
        forall|x: Map<u32, int>| c.respects(x) <==> (p.respects(x) && q.respects(x)),
{
    let pl = p.indices@.len() as int;
    assert forall|x: Map<u32, int>| c.respects(x) <==> (p.respects(x) && q.respects(x)) by {
        if c.respects(x) {
            assert forall|i: int| 0 <= i < p.indices@.len() implies {
                &&& x.contains_key(#[trigger] p.indices@[i])
                &&& p.bounds@[i].0 <= x[p.indices@[i]] <= p.bounds@[i].1
            } by {
                assert(c.indices@[i] == p.indices@[i]);
                assert(c.bounds@[i] == p.bounds@[i]);
            }
            assert forall|i: int| 0 <= i < q.indices@.len() implies {
                &&& x.contains_key(#[trigger] q.indices@[i])
                &&& q.bounds@[i].0 <= x[q.indices@[i]] <= q.bounds@[i].1
            } by {
                assert(c.indices@[pl + i] == q.indices@[i]);
                assert(c.bounds@[pl + i] == q.bounds@[i]);
            }
        }
        if p.respects(x) && q.respects(x) {
            assert forall|i: int| 0 <= i < c.indices@.len() implies {
                &&& x.contains_key(#[trigger] c.indices@[i])
                &&& c.bounds@[i].0 <= x[c.indices@[i]] <= c.bounds@[i].1
            } by {
                if i < pl {
                    assert(c.indices@[i] == p.indices@[i]);
                    assert(c.bounds@[i] == p.bounds@[i]);
                } else {
                    assert(c.indices@[i] == q.indices@[i - pl]);
                    assert(c.bounds@[i] == q.bounds@[i - pl]);
                }
            }
        }
    }
}

proof fn lemma_merged_wf(c: GeLineq, p: GeLineq, q: GeLineq, s: int, extra: int)
    requires
        merged_shape(c, p, q, s, extra),
        supports_disjoint(p, q),
    ensures
        c.wf(),
{
    let pl = p.indices@.len() as int;
    assert forall|i: int, j: int| 0 <= i < j < c.indices@.len() implies c.indices@[i]
        != c.indices@[j] by {
        if j < pl {
            assert(c.indices@[i] == p.indices@[i] && c.indices@[j] == p.indices@[j]);
        } else if i < pl {
            assert(c.indices@[i] == p.indices@[i] && c.indices@[j] == q.indices@[j - pl]);
        } else {
            assert(c.indices@[i] == q.indices@[i - pl] && c.indices@[j] == q.indices@[j - pl]);
        }
    }
    assert forall|i: int| 0 <= i < c.bounds@.len() implies (#[trigger] c.bounds@[i]).0
        <= c.bounds@[i].1 by {
        if i < pl {
            assert(c.bounds@[i] == p.bounds@[i]);
        } else {
            assert(c.bounds@[i] == q.bounds@[i - pl]);
        }
    }
}

fn scale_extend(p: &GeLineq, q: &GeLineq, s: i64, extra: i64, id: Option<u32>) -> (c: GeLineq)
    requires
        p.wf(),
        q.wf(),
        p.compact(),
        q.compact(),
        1 <= s <= 2_000_000_000_000,
        0 <= extra <= 2_000_000_000_000,
    ensures
        merged_shape(c, *p, *q, s as int, extra as int),
        c.id == id,
        -3_000_000_000_000_000_000 <= c.bias <= 3_000_000_000_000_000_000,
{
    let pl = p.coeffs.len();
    let mut coeffs: Vec<i64> = Vec::new();
    let mut i: usize = 0;
    while i < pl
        invariant
            p.wf(),
            p.compact(),
            pl == p.coeffs@.len(),
            i <= pl,
            1 <= s <= 2_000_000_000_000,
            coeffs@.len() == i,
            forall|k: int| 0 <= k < i ==> (#[trigger] coeffs@[k]) as int == s * p.coeffs@[k],
        decreases pl - i,
    {
        let pc = p.coeffs[i];
        proof {
            assert(-2_000_000_000_000_000 <= s * pc <= 2_000_000_000_000_000)
                by (nonlinear_arith)
                requires
                    1 <= s <= 2_000_000_000_000,
                    -MAX_COEF <= pc <= MAX_COEF,
            ;
        }
        coeffs.push(s * pc);
        i += 1;
    }
    let ql = q.coeffs.len();
    let mut j: usize = 0;
    while j < ql
        invariant
            q.wf(),
            ql == q.coeffs@.len(),
            j <= ql,
            coeffs@.len() == pl + j,
            1 <= s <= 2_000_000_000_000,
            forall|k: int| 0 <= k < pl ==> (#[trigger] coeffs@[k]) as int == s * p.coeffs@[k],
            forall|k: int| 0 <= k < j ==> #[trigger] coeffs@[pl + k] == q.coeffs@[k],
        decreases ql - j,
    {
        coeffs.push(q.coeffs[j]);
        j += 1;
    }
    let mut indices: Vec<u32> = Vec::new();
    let mut bounds: Vec<(i64, i64)> = Vec::new();
    let mut k: usize = 0;
    while k < pl
        invariant
            p.wf(),
            pl == p.coeffs@.len(),
            k <= pl,
            indices@ =~= p.indices@.subrange(0, k as int),
            bounds@ =~= p.bounds@.subrange(0, k as int),
        decreases pl - k,
    {
        indices.push(p.indices[k]);
        bounds.push(p.bounds[k]);
        k += 1;
    }
    let mut k2: usize = 0;
    while k2 < ql
        invariant
            p.wf(),
            q.wf(),
            pl == p.coeffs@.len(),
            ql == q.coeffs@.len(),
            k2 <= ql,
            indices@ =~= p.indices@ + q.indices@.subrange(0, k2 as int),
            bounds@ =~= p.bounds@ + q.bounds@.subrange(0, k2 as int),
        decreases ql - k2,
    {
        indices.push(q.indices[k2]);
        bounds.push(q.bounds[k2]);
        k2 += 1;
    }
    proof {
        assert(indices@ =~= p.indices@ + q.indices@);
        assert(bounds@ =~= p.bounds@ + q.bounds@);
        assert(-2_000_000_000_000_000_000 <= s * p.bias <= 2_000_000_000_000_000_000)
            by (nonlinear_arith)
            requires
                1 <= s <= 2_000_000_000_000,
                -MAX_BIAS <= p.bias <= MAX_BIAS,
        ;
    }
    let bias: i64 = s * p.bias + q.bias + extra;
    GeLineq { id, bias, bounds, coeffs, indices }
}

fn merged_id_exec(a: &GeLineq, b: &GeLineq) -> (r: Option<u32>)
    ensures
        r == merged_id(*a, *b),
{
    match (a.id, b.id) {
        (Some(x), Some(y)) => {
            if x == y {
                Some(x)
            } else {
                None
            }
        },
        _ => None,
    }
}

proof fn lemma_disjoint_symmetric(a: GeLineq, b: GeLineq)
    requires
        supports_disjoint(a, b),
    ensures
        supports_disjoint(b, a),
{
    assert forall|i: int, j: int|
        0 <= i < b.indices@.len() && 0 <= j < a.indices@.len() implies b.indices@[i]
        != a.indices@[j] by {
        assert(a.indices@[j] != b.indices@[i]);
    }
}

impl GeLineq {
    /// Builds a constraint after checking its structural invariant: paired
    /// sequences of equal length and no repeated variable id.
    pub fn new(
        id: Option<u32>,
        bias: i64,
        bounds: Vec<(i64, i64)>,
        coeffs: Vec<i64>,
        indices: Vec<u32>,
    ) -> (r: Result<GeLineq, TheoryError>)
        ensures
            ({
                let ok = coeffs@.len() == indices@.len() && bounds@.len() == indices@.len()
                    && ids_distinct(indices@);
                match r {
                    Ok(l) => ok && l == (GeLineq { id, bias, bounds, coeffs, indices }),
                    Err(e) => !ok && e == TheoryError::DimensionMismatch,
                }
            }),
    {
        if coeffs.len() != indices.len() || bounds.len() != indices.len() {
            return Err(TheoryError::DimensionMismatch);
        }
        if !distinct_ids_exec(&indices) {
            return Err(TheoryError::DimensionMismatch);
        }
        Ok(GeLineq { id, bias, bounds, coeffs, indices })
    }

    /// The inputs on which `merge_disj` returns a merged constraint: both
    /// well formed and within the merge caps, supports disjoint, and at
    /// least one input whose left-hand side never drops more than one unit
    /// below zero anywhere in its bound box.
    pub open spec fn disj_mergeable(a: GeLineq, b: GeLineq) -> bool {
        &&& a.wf()
        &&& b.wf()
        &&& a.compact()
        &&& b.compact()
        &&& supports_disjoint(a, b)
        &&& (a.min_value() >= -1 || b.min_value() >= -1)
    }

    /// The inputs on which `merge_conj` returns a merged constraint: both
    /// well formed and within the merge caps, supports disjoint, and at
    /// least one input whose left-hand side never rises above zero anywhere
    /// in its bound box.
    pub open spec fn conj_mergeable(a: GeLineq, b: GeLineq) -> bool {
        &&& a.wf()
        &&& b.wf()
        &&& a.compact()
        &&& b.compact()
        &&& supports_disjoint(a, b)
        &&& (a.max_value() <= 0 || b.max_value() <= 0)
    }

    /// Merges two constraints into one satisfied by exactly the points
    /// satisfying either input, whenever a single linear inequality can
    /// express that disjunction; otherwise reports that no merge exists.
    pub fn merge_disj(&self, other: &GeLineq) -> (r: Option<GeLineq>)
        ensures
            r is Some <==> Self::disj_mergeable(*self, *other),
            match r {
                Some(c) => {
                    &&& c.wf()
                    &&& c.id == merged_id(*self, *other)
                    &&& -3_000_000_000_000_000_000 <= c.bias <= 3_000_000_000_000_000_000
                    &&& forall|x: Map<u32, int>|
                        c.respects(x) <==> (self.respects(x) && other.respects(x))
                    &&& forall|x: Map<u32, int>|
                        c.respects(x) ==> (c.satisfied(x) <==> (self.satisfied(x)
                            || other.satisfied(x)))
                },
                None => true,
            },
    {
        if !check_wf(self) || !check_wf(other) {
            return None;
        }
        if !check_compact(self) || !check_compact(other) {
            return None;
        }
        if !check_disjoint(self, other) {
            return None;
        }
        let min_a = min_value_exec(self);
        let min_b = min_value_exec(other);
        let mid = merged_id_exec(self, other);
        if min_a >= -1 {
            let s: i64 = if -min_b >= 1 {
                -min_b
            } else {
                1
            };
            let c = scale_extend(self, other, s, s, mid);
            proof {
                lemma_merged_wf(c, *self, *other, s as int, s as int);
                lemma_respects_split(c, *self, *other, s as int, s as int);
                lemma_disj_equiv(c, *self, *other, s as int);
            }
            Some(c)
        } else if min_b >= -1 {
            let s: i64 = if -min_a >= 1 {
                -min_a
            } else {
                1
            };
            let c = scale_extend(other, self, s, s, mid);
            proof {
                lemma_disjoint_symmetric(*self, *other);
                lemma_merged_wf(c, *other, *self, s as int, s as int);
                lemma_respects_split(c, *other, *self, s as int, s as int);
                lemma_disj_equiv(c, *other, *self, s as int);
            }
            Some(c)
        } else {
            None
        }
    }

    /// Merges two constraints into one satisfied by exactly the points
    /// satisfying both inputs, whenever a single linear inequality can
    /// express that conjunction; otherwise reports that no merge exists.
    pub fn merge_conj(&self, other: &GeLineq) -> (r: Option<GeLineq>)
        ensures
            r is Some <==> Self::conj_mergeable(*self, *other),
            match r {
                Some(c) => {
                    &&& c.wf()
                    &&& c.id == merged_id(*self, *other)
                    &&& -3_000_000_000_000_000_000 <= c.bias <= 3_000_000_000_000_000_000
                    &&& forall|x: Map<u32, int>|
                        c.respects(x) <==> (self.respects(x) && other.respects(x))
                    &&& forall|x: Map<u32, int>|
                        c.respects(x) ==> (c.satisfied(x) <==> (self.satisfied(x)
                            && other.satisfied(x)))
                },
                None => true,
            },
    {
        if !check_wf(self) || !check_wf(other) {
            return None;
        }
        if !check_compact(self) || !check_compact(other) {
            return None;
        }
        if !check_disjoint(self, other) {
            return None;
        }
        let max_a = max_value_exec(self);
        let max_b = max_value_exec(other);
        let mid = merged_id_exec(self, other);
        if max_a <= 0 {
            let s: i64 = if max_b + 1 >= 1 {
                max_b + 1
            } else {
                1
            };
            let c = scale_extend(self, other, s, 0, mid);
            proof {
                lemma_merged_wf(c, *self, *other, s as int, 0);
                lemma_respects_split(c, *self, *other, s as int, 0);
                lemma_conj_equiv(c, *self, *other, s as int);
            }
            Some(c)
        } else if max_b <= 0 {
            let s: i64 = if max_a + 1 >= 1 {
                max_a + 1
            } else {
                1
            };
            let c = scale_extend(other, self, s, 0, mid);
            proof {
                lemma_disjoint_symmetric(*self, *other);
                lemma_merged_wf(c, *other, *self, s as int, 0);
                lemma_respects_split(c, *other, *self, s as int, 0);
                lemma_conj_equiv(c, *other, *self, s as int);
            }
            Some(c)
        } else {
            None
        }
    }
}

proof fn lemma_disj_equiv(c: GeLineq, p: GeLineq, q: GeLineq, s: int)
    requires
        p.wf(),
        q.wf(),
        p.compact(),
        q.compact(),
        p.min_value() >= -1,
        s >= 1,
        s >= -q.min_value(),
        merged_shape(c, p, q, s, s),
    ensures
        forall|x: Map<u32, int>|
            c.respects(x) ==> (c.satisfied(x) <==> (p.satisfied(x) || q.satisfied(x))),
{
    lemma_respects_split(c, p, q, s, s);
    assert forall|x: Map<u32, int>| c.respects(x) implies (c.satisfied(x) <==> (p.satisfied(x)
        || q.satisfied(x))) by {
        lemma_value_decomposition(c, p, q, s, s, x);
        p.lemma_value_in_range(x);
        q.lemma_value_in_range(x);
        let vp = p.value(x);
        let vq = q.value(x);
        if vp >= 0 {
            assert(s * vp >= 0) by (nonlinear_arith)
                requires
                    s >= 1,
                    vp >= 0,
            ;
        } else if vq >= 0 {
            assert(s * vp >= -s) by (nonlinear_arith)
                requires
                    s >= 1,
                    vp >= -1,
            ;
        } else {
            assert(s * vp <= -s) by (nonlinear_arith)
                requires
                    s >= 1,
                    vp <= -1,
            ;
        }
    }
}

proof fn lemma_conj_equiv(c: GeLineq, t: GeLineq, u: GeLineq, s: int)
    requires
        t.wf(),
        u.wf(),
        t.compact(),
        u.compact(),
        t.max_value() <= 0,
        s >= 1,
        s >= u.max_value() + 1,
        merged_shape(c, t, u, s, 0),
    ensures
        forall|x: Map<u32, int>|
            c.respects(x) ==> (c.satisfied(x) <==> (t.satisfied(x) && u.satisfied(x))),
{
    lemma_respects_split(c, t, u, s, 0);
    assert forall|x: Map<u32, int>| c.respects(x) implies (c.satisfied(x) <==> (t.satisfied(x)
        && u.satisfied(x))) by {
        lemma_value_decomposition(c, t, u, s, 0, x);
        t.lemma_value_in_range(x);
        u.lemma_value_in_range(x);
        let vt = t.value(x);
        let vu = u.value(x);
        if vt >= 0 {
            assert(vt == 0);
            assert(s * 0 == 0) by (nonlinear_arith);
        } else {
            assert(s * vt <= -s) by (nonlinear_arith)
                requires
                    s >= 1,
                    vt <= -1,
            ;
        }
    }
}

} // verus!
