//! Theories of cardinality constraints and their compilation into linear
//! inequality systems.
//!
//! A [`Theory`] is a sequence of statements over bounded integer variables.
//! A statement either introduces a leaf variable or reifies its variable to
//! the truth value of an [`AtLeast`] expression over other statements'
//! variables.  Compilation emits one [`GeLineq`] per reified statement in
//! active mode, or a pair encoding the equivalence in full mode, optionally
//! merges compatible pairs to a fixpoint, and can assemble the result into a
//! dense [`Polyhedron`].

use vstd::prelude::*;
use vstd::arithmetic::mul::lemma_mul_is_associative;
use vstd::arithmetic::mul::lemma_mul_is_distributive_add;
use vstd::assert_by_contradiction;

use crate::TheoryError;
use crate::lineq::GeLineq;
use crate::solver::IntegerSolution;
use crate::solver::Matrix;
use crate::solver::Polyhedron;
use crate::variable::VarRegistry;
use crate::variable::Variable;

verus! {

/// Most statements a compilable theory may carry.
pub const MAX_STMTS: usize = 1000;

/// Most operand occurrences one expression may carry.
pub const MAX_OPS: usize = 1000;

/// Largest variable-bound magnitude a compilable theory may carry.
pub const MAX_THEORY_BOUND: i64 = 1_000_000;

/// Largest expression-bias magnitude a compilable theory may carry.
pub const MAX_THEORY_BIAS: i64 = 1_000_000;

/// A cardinality predicate: it holds under an assignment when the values of
/// the listed variables (with multiplicity) sum to at least `-bias`.
#[derive(Clone, Debug)]
pub struct AtLeast {
    pub ids: Vec<u32>,
    pub bias: i64,
}

/// Sum of `x` over the ids of `s`, counting repeated ids once per occurrence.
pub open spec fn occ_sum(s: Seq<u32>, x: Map<u32, int>) -> int
    decreases s.len(),
{
    if s.len() == 0 {
        0
    } else {
        occ_sum(s.drop_last(), x) + x[s.last()]
    }
}

/// How often `v` occurs in `s`.
spec fn occ_count(s: Seq<u32>, v: u32) -> int
    decreases s.len(),
{
    if s.len() == 0 {
        0
    } else {
        occ_count(s.drop_last(), v) + if s.last() == v {
            1int
        } else {
            0int
        }
    }
}

impl AtLeast {
    pub fn new(ids: Vec<u32>, bias: i64) -> (r: AtLeast)
        ensures
            r == (AtLeast { ids, bias }),
    {
        AtLeast { ids, bias }
    }

    /// The expression's left-hand side: operand sum plus bias.
    pub open spec fn value(self, x: Map<u32, int>) -> int {
        self.bias + occ_sum(self.ids@, x)
    }

    /// The predicate holds: the operand sum reaches the threshold `-bias`.
    pub open spec fn holds(self, x: Map<u32, int>) -> bool {
        self.value(x) >= 0
    }
}

/// One statement: a variable, optionally reified to an expression.
#[derive(Clone, Debug)]
pub struct Statement {
    pub variable: Variable,
    pub expression: Option<AtLeast>,
}

impl Statement {
    pub fn new(id: u32, bounds: (i64, i64), expression: Option<AtLeast>) -> (r: Statement)
        ensures
            r == (Statement { variable: Variable { id, bounds }, expression }),
    {
        Statement { variable: Variable { id, bounds }, expression }
    }
}

/// A named, immutable sequence of statements forming a dependency DAG.
#[derive(Clone, Debug)]
pub struct Theory {
    pub id: String,
    pub statements: Vec<Statement>,
}

impl Theory {
    pub fn new(id: String, statements: Vec<Statement>) -> (r: Theory)
        ensures
            r.id == id,
            r.statements == statements,
    {
        Theory { id, statements }
    }

    /// Two statements defining the same variable id agree on its bounds.
    pub open spec fn consistent(self) -> bool {
        forall|i: int, j: int|
            0 <= i < self.statements@.len() && 0 <= j < self.statements@.len()
                && (#[trigger] self.statements@[i]).variable.id
                == (#[trigger] self.statements@[j]).variable.id
                ==> self.statements@[i].variable.bounds == self.statements@[j].variable.bounds
    }

    /// No two statements define the same variable id.
    pub open spec fn stmt_ids_distinct(self) -> bool {
        forall|i: int, j: int|
            0 <= i < j < self.statements@.len() ==> (#[trigger] self.statements@[i]).variable.id
                != (#[trigger] self.statements@[j]).variable.id
    }

    /// Some statement defines the variable `id`.
    pub open spec fn defines(self, id: u32) -> bool {
        exists|j: int|
            0 <= j < self.statements@.len() && (#[trigger] self.statements@[j]).variable.id == id
    }

    /// The variable of some statement defining `id`.
    pub open spec fn var_of(self, id: u32) -> Variable {
        let j = choose|j: int|
            0 <= j < self.statements@.len() && (#[trigger] self.statements@[j]).variable.id == id;
        self.statements@[j].variable
    }

    /// The assignment placing each defined variable at its lower bound.
    pub open spec fn lo_map(self) -> Map<u32, int> {
        Map::new(|id: u32| self.defines(id), |id: u32| self.var_of(id).bounds.0 as int)
    }

    /// The assignment placing each defined variable at its upper bound.
    pub open spec fn hi_map(self) -> Map<u32, int> {
        Map::new(|id: u32| self.defines(id), |id: u32| self.var_of(id).bounds.1 as int)
    }

    /// Least value `e` can take when every operand stays in its bounds.
    pub open spec fn expr_lo(self, e: AtLeast) -> int {
        e.value(self.lo_map())
    }

    /// Greatest value `e` can take when every operand stays in its bounds.
    pub open spec fn expr_hi(self, e: AtLeast) -> int {
        e.value(self.hi_map())
    }

    /// Every operand of every expression is defined by some statement.
    pub open spec fn operands_defined(self) -> bool {
        forall|i: int, k: int|
            0 <= i < self.statements@.len() && self.statements@[i].expression is Some && 0 <= k
                < self.statements@[i].expression->Some_0.ids@.len() ==> self.defines(
                #[trigger] self.statements@[i].expression->Some_0.ids@[k],
            )
    }

    /// Statement `i` depends on statement `j`: `i`'s expression references
    /// the variable `j` defines.
    pub open spec fn dep(self, i: int, j: int) -> bool {
        &&& 0 <= i < self.statements@.len()
        &&& 0 <= j < self.statements@.len()
        &&& self.statements@[i].expression is Some
        &&& self.statements@[i].expression->Some_0.ids@.contains(self.statements@[j].variable.id)
    }

    /// `p` walks dependency edges back to its starting statement.
    pub open spec fn is_cycle(self, p: Seq<int>) -> bool {
        &&& p.len() >= 2
        &&& p[0] == p[p.len() - 1]
        &&& forall|k: int| 0 <= k < p.len() - 1 ==> #[trigger] self.dep(p[k], p[k + 1])
    }

    /// Some statement transitively depends on its own variable.
    pub open spec fn has_cycle(self) -> bool {
        exists|p: Seq<int>| self.is_cycle(p)
    }

    /// `x` assigns every statement's variable a value within its bounds.
    pub open spec fn theory_box(self, x: Map<u32, int>) -> bool {
        forall|i: int|
            0 <= i < self.statements@.len() ==> {
                &&& x.contains_key((#[trigger] self.statements@[i]).variable.id)
                &&& self.statements@[i].variable.bounds.0 <= x[self.statements@[i].variable.id]
                    <= self.statements@[i].variable.bounds.1
            }
    }

    /// Within the caps the compiler accepts: sizes and magnitudes that keep
    /// every derived coefficient within machine range.
    pub open spec fn bounded(self) -> bool {
        &&& self.statements@.len() <= MAX_STMTS
        &&& forall|i: int|
            0 <= i < self.statements@.len() ==> {
                let s = #[trigger] self.statements@[i];
                &&& s.variable.wf()
                &&& -MAX_THEORY_BOUND <= s.variable.bounds.0 <= MAX_THEORY_BOUND
                &&& -MAX_THEORY_BOUND <= s.variable.bounds.1 <= MAX_THEORY_BOUND
                &&& (s.expression is Some ==> {
                    &&& s.expression->Some_0.ids@.len() <= MAX_OPS
                    &&& -MAX_THEORY_BIAS <= s.expression->Some_0.bias <= MAX_THEORY_BIAS
                })
            }
    }

    /// Number of reified statements among the first `i`.
    pub open spec fn n_expr_before(self, i: int) -> int
        decreases i,
    {
        if i <= 0 {
            0
        } else {
            self.n_expr_before(i - 1) + if self.statements@[i - 1].expression is Some {
                1int
            } else {
                0int
            }
        }
    }

    /// Number of reified statements.
    pub open spec fn n_expr(self) -> int {
        self.n_expr_before(self.statements@.len() as int)
    }

    /// The pair of full-mode inequalities of statement `i` holds under `x`.
    /// With `m` and `mm` the extremes of the expression's left-hand side
    /// over the operand boxes, the rows are `e - m + m*v >= 0` (the reified
    /// variable at one forces the predicate) and `-e - 1 + (mm+1)*v >= 0`
    /// (the reified variable at zero forces its negation).
    pub open spec fn full_rows_hold(self, i: int, x: Map<u32, int>) -> bool {
        let v = self.statements@[i].variable;
        let e = self.statements@[i].expression->Some_0;
        let m = self.expr_lo(e);
        let mm = self.expr_hi(e);
        &&& e.value(x) - m + m * x[v.id] >= 0
        &&& -e.value(x) - 1 + (mm + 1) * x[v.id] >= 0
    }

    /// What the compiled system states under `x`: per reified statement, the
    /// bare predicate in active mode, or the full-mode pair otherwise.
    pub open spec fn rows_hold(self, active: bool, x: Map<u32, int>) -> bool {
        forall|i: int|
            0 <= i < self.statements@.len() && (#[trigger] self.statements@[i]).expression is Some
                ==> if active {
                self.statements@[i].expression->Some_0.value(x) >= 0
            } else {
                self.full_rows_hold(i, x)
            }
    }
}

impl Theory {
    /// What the compiled system states, restricted to statements before `i`.
    pub open spec fn rows_hold_before(self, i: int, active: bool, x: Map<u32, int>) -> bool {
        forall|i2: int|
            0 <= i2 < i && (#[trigger] self.statements@[i2]).expression is Some ==> if active {
                self.statements@[i2].expression->Some_0.value(x) >= 0
            } else {
                self.full_rows_hold(i2, x)
            }
    }

    /// The rows of statement `i` stand in `ls` at the positions assigned by
    /// declaration order, carry its provenance, and have exactly the
    /// intended left-hand sides.
    pub open spec fn stmt_rows_at(self, active: bool, ls: Seq<GeLineq>, i: int) -> bool {
        let v = self.statements@[i].variable;
        let e = self.statements@[i].expression->Some_0;
        let m = self.expr_lo(e);
        let mm = self.expr_hi(e);
        if active {
            let p = self.n_expr_before(i);
            &&& 0 <= p < ls.len()
            &&& ls[p].id == Some(v.id)
            &&& forall|x: Map<u32, int>| (#[trigger] ls[p].value(x)) == e.value(x)
        } else {
            let p = 2 * self.n_expr_before(i);
            &&& 0 <= p
            &&& p + 1 < ls.len()
            &&& ls[p].id == Some(v.id)
            &&& ls[p + 1].id == Some(v.id)
            &&& forall|x: Map<u32, int>|
                (#[trigger] ls[p].value(x)) == e.value(x) - m + m * x[v.id]
            &&& forall|x: Map<u32, int>|
                (#[trigger] ls[p + 1].value(x)) == -e.value(x) - 1 + (mm + 1) * x[v.id]
        }
    }

    /// The unreduced compilation result, described row by row.
    pub open spec fn rows_exact(self, active: bool, ls: Seq<GeLineq>) -> bool {
        &&& ls.len() == if active {
            self.n_expr()
        } else {
            2 * self.n_expr()
        }
        &&& forall|i: int|
            0 <= i < self.statements@.len() && (#[trigger] self.statements@[i]).expression is Some
                ==> self.stmt_rows_at(active, ls, i)
    }

    /// Everything a successful compilation guarantees of its result.
    pub open spec fn compiled_ok(self, active: bool, reduce: bool, ls: Seq<GeLineq>) -> bool {
        &&& forall|k: int|
            0 <= k < ls.len() ==> ((#[trigger] ls[k]).wf() && -3_000_000_000_000_000_000
                <= ls[k].bias <= 3_000_000_000_000_000_000)
        &&& forall|x: Map<u32, int>| self.theory_box(x) ==> #[trigger] sys_respects(ls, x)
        &&& forall|x: Map<u32, int>|
            self.theory_box(x) ==> (#[trigger] sys_sat(ls, x) <==> self.rows_hold(active, x))
        &&& (reduce ==> forall|a: int, b: int|
            0 <= a < ls.len() && 0 <= b < ls.len() && a != b ==> !GeLineq::conj_mergeable(
                ls[a],
                ls[b],
            ))
        &&& (!reduce ==> self.rows_exact(active, ls))
    }

    proof fn lemma_no_self_dep(self, i: int)
        requires
            !self.has_cycle(),
            0 <= i < self.statements@.len(),
            self.statements@[i].expression is Some,
        ensures
            !self.statements@[i].expression->Some_0.ids@.contains(
                self.statements@[i].variable.id,
            ),
    {
        assert_by_contradiction!(
            !self.statements@[i].expression->Some_0.ids@.contains(self.statements@[i].variable.id),
            {
                assert(self.dep(i, i));
                let p = seq![i, i];
                assert(p.len() == 2 && p[0] == p[p.len() - 1]);
                assert forall|k: int| 0 <= k < p.len() - 1 implies #[trigger] self.dep(
                    p[k],
                    p[k + 1],
                ) by {
                    assert(p[k] == i && p[k + 1] == i);
                }
                assert(self.is_cycle(p));
            }
        );
    }

    proof fn lemma_stmt_rows_extend(self, active: bool, a: Seq<GeLineq>, b: Seq<GeLineq>, i3: int)
        requires
            0 <= i3 < self.statements@.len(),
            self.statements@[i3].expression is Some,
            self.stmt_rows_at(active, a, i3),
            b.len() >= a.len(),
            forall|q: int| 0 <= q < a.len() ==> #[trigger] b[q] == a[q],
        ensures
            self.stmt_rows_at(active, b, i3),
    {
        let e = self.statements@[i3].expression->Some_0;
        let m = self.expr_lo(e);
        let mm = self.expr_hi(e);
        let v = self.statements@[i3].variable;
        if active {
            let p = self.n_expr_before(i3);
            assert(b[p] == a[p]);
            assert forall|x: Map<u32, int>| (#[trigger] b[p].value(x)) == e.value(x) by {
                assert(a[p].value(x) == e.value(x));
            }
        } else {
            let p = 2 * self.n_expr_before(i3);
            assert(b[p] == a[p]);
            assert(b[p + 1] == a[p + 1]);
            assert forall|x: Map<u32, int>| (#[trigger] b[p].value(x)) == e.value(x) - m + m
                * x[v.id] by {
                assert(a[p].value(x) == e.value(x) - m + m * x[v.id]);
            }
            assert forall|x: Map<u32, int>|
                (#[trigger] b[p + 1].value(x)) == -e.value(x) - 1 + (mm + 1) * x[v.id] by {
                assert(a[p].value(x) == e.value(x) - m + m * x[v.id]);
                assert(a[p + 1].value(x) == -e.value(x) - 1 + (mm + 1) * x[v.id]);
            }
        }
    }

    proof fn lemma_n_expr_range(self, a: int)
        requires
            0 <= a <= self.statements@.len(),
        ensures
            0 <= self.n_expr_before(a) <= a,
        decreases a,
    {
        if a > 0 {
            self.lemma_n_expr_range(a - 1);
        }
    }
}

/// Every constraint of `ls` is satisfied under `x`.
pub open spec fn sys_sat(ls: Seq<GeLineq>, x: Map<u32, int>) -> bool {
    forall|k: int| 0 <= k < ls.len() ==> (#[trigger] ls[k]).satisfied(x)
}

/// Every constraint of `ls` is respected by `x`.
pub open spec fn sys_respects(ls: Seq<GeLineq>, x: Map<u32, int>) -> bool {
    forall|k: int| 0 <= k < ls.len() ==> (#[trigger] ls[k]).respects(x)
}

/// Weighted sum of the first `n` groups: multiplicity times assigned value.
spec fn gsum(g: Seq<(u32, i64)>, x: Map<u32, int>, n: int) -> int
    decreases n,
{
    if n <= 0 {
        0
    } else {
        gsum(g, x, n - 1) + g[n - 1].1 * x[g[n - 1].0]
    }
}

/// Sum over the first `n` groups of `v`'s occurrence count in `s` times the
/// assigned value of the group's id.
spec fn csum(g: Seq<(u32, i64)>, s: Seq<u32>, x: Map<u32, int>, n: int) -> int
    decreases n,
{
    if n <= 0 {
        0
    } else {
        csum(g, s, x, n - 1) + occ_count(s, g[n - 1].0) * x[g[n - 1].0]
    }
}

/// `v` is the id of one of the first `n` groups.
spec fn first_in(g: Seq<(u32, i64)>, n: int, v: u32) -> bool {
    exists|k: int| 0 <= k < n && (#[trigger] g[k]).0 == v
}

/// No two groups share an id.
spec fn groups_distinct(g: Seq<(u32, i64)>) -> bool {
    forall|a: int, b: int| 0 <= a < b < g.len() ==> g[a].0 != g[b].0
}

proof fn lemma_occ_push(s: Seq<u32>, e: u32, v: u32)
    ensures
        occ_count(s.push(e), v) == occ_count(s, v) + if e == v {
            1int
        } else {
            0int
        },
{
    assert(s.push(e).drop_last() =~= s);
    assert(s.push(e).last() == e);
}

proof fn lemma_occ_absent(s: Seq<u32>, v: u32)
    requires
        !s.contains(v),
    ensures
        occ_count(s, v) == 0,
    decreases s.len(),
{
    if s.len() > 0 {
        assert(s.drop_last().len() == s.len() - 1);
        assert(!s.drop_last().contains(v)) by {
            if s.drop_last().contains(v) {
                let k = choose|k: int| 0 <= k < s.drop_last().len() && s.drop_last()[k] == v;
                assert(s[k] == v);
            }
        }
        lemma_occ_absent(s.drop_last(), v);
        assert(s.last() != v) by {
            assert(s[s.len() - 1] == s.last());
        }
    }
}

proof fn lemma_csum_empty(g: Seq<(u32, i64)>, x: Map<u32, int>, n: int)
    requires
        n <= g.len(),
    ensures
        csum(g, Seq::<u32>::empty(), x, n) == 0,
    decreases n,
{
    if n > 0 {
        lemma_csum_empty(g, x, n - 1);
        let v = g[n - 1].0;
        assert(occ_count(Seq::<u32>::empty(), v) == 0);
        assert(0int * x[v] == 0) by (nonlinear_arith);
    }
}

proof fn lemma_csum_push(g: Seq<(u32, i64)>, s: Seq<u32>, e: u32, x: Map<u32, int>, n: int)
    requires
        n <= g.len(),
        groups_distinct(g),
    ensures
        csum(g, s.push(e), x, n) == csum(g, s, x, n) + if first_in(g, n, e) {
            x[e]
        } else {
            0int
        },
    decreases n,
{
    if n > 0 {
        lemma_csum_push(g, s, e, x, n - 1);
        let f = g[n - 1].0;
        lemma_occ_push(s, e, f);
        let c = occ_count(s, f);
        if f == e {
            assert((c + 1) * x[f] == c * x[f] + x[f]) by (nonlinear_arith);
            assert(!first_in(g, n - 1, e)) by {
                if first_in(g, n - 1, e) {
                    let k = choose|k: int| 0 <= k < n - 1 && (#[trigger] g[k]).0 == e;
                    assert(g[k].0 == g[n - 1].0);
                }
            }
            assert(first_in(g, n, e)) by {
                assert((g[n - 1]).0 == e);
            }
        } else {
            assert(first_in(g, n, e) == first_in(g, n - 1, e)) by {
                if first_in(g, n, e) {
                    let k = choose|k: int| 0 <= k < n && (#[trigger] g[k]).0 == e;
                    assert(k < n - 1);
                    assert(first_in(g, n - 1, e));
                }
                if first_in(g, n - 1, e) {
                    let k = choose|k: int| 0 <= k < n - 1 && (#[trigger] g[k]).0 == e;
                    assert(0 <= k < n && (g[k]).0 == e);
                }
            }
        }
    }
}

proof fn lemma_csum_occ(g: Seq<(u32, i64)>, s: Seq<u32>, x: Map<u32, int>)
    requires
        groups_distinct(g),
        forall|u: int| 0 <= u < s.len() ==> first_in(g, g.len() as int, #[trigger] s[u]),
    ensures
        csum(g, s, x, g.len() as int) == occ_sum(s, x),
    decreases s.len(),
{
    if s.len() == 0 {
        assert(s =~= Seq::<u32>::empty());
        lemma_csum_empty(g, x, g.len() as int);
    } else {
        let s0 = s.drop_last();
        let e = s.last();
        assert(forall|u: int| 0 <= u < s0.len() ==> first_in(g, g.len() as int, #[trigger] s0[u]))
            by {
            assert(forall|u: int| 0 <= u < s0.len() ==> s0[u] == s[u]);
        }
        lemma_csum_occ(g, s0, x);
        assert(s =~= s0.push(e));
        lemma_csum_push(g, s0, e, x, g.len() as int);
        assert(first_in(g, g.len() as int, e)) by {
            assert(s[s.len() - 1] == e);
        }
    }
}

proof fn lemma_gsum_is_csum(g: Seq<(u32, i64)>, s: Seq<u32>, x: Map<u32, int>, n: int)
    requires
        n <= g.len(),
        forall|k: int| 0 <= k < n ==> (#[trigger] g[k]).1 as int == occ_count(s, g[k].0),
    ensures
        gsum(g, x, n) == csum(g, s, x, n),
    decreases n,
{
    if n > 0 {
        lemma_gsum_is_csum(g, s, x, n - 1);
    }
}

/// The weighted group sum is exactly the per-occurrence sum, when the
/// groups carry the occurrence counts of `s` and cover its values.
proof fn lemma_gsum_occ(g: Seq<(u32, i64)>, s: Seq<u32>, x: Map<u32, int>)
    requires
        groups_distinct(g),
        forall|k: int| 0 <= k < g.len() ==> (#[trigger] g[k]).1 as int == occ_count(s, g[k].0),
        forall|u: int| 0 <= u < s.len() ==> first_in(g, g.len() as int, #[trigger] s[u]),
    ensures
        gsum(g, x, g.len() as int) == occ_sum(s, x),
{
    lemma_gsum_is_csum(g, s, x, g.len() as int);
    lemma_csum_occ(g, s, x);
}

fn find_group(g: &Vec<(u32, i64)>, id: u32) -> (r: Option<usize>)
    ensures
        match r {
            Some(k) => k < g@.len() && g@[k as int].0 == id,
            None => !first_in(g@, g@.len() as int, id),
        },
{
    let n = g.len();
    let mut k: usize = 0;
    while k < n
        invariant
            n == g@.len(),
            k <= n,
            forall|q: int| 0 <= q < k ==> (#[trigger] g@[q]).0 != id,
        decreases n - k,
    {
        if g[k].0 == id {
            return Some(k);
        }
        k += 1;
    }
    None
}

/// Groups the operand list by id, in first-occurrence order, pairing each
/// distinct id with its multiplicity.
fn group_operands(ids: &Vec<u32>) -> (g: Vec<(u32, i64)>)
    requires
        ids@.len() <= MAX_OPS,
    ensures
        g@.len() <= ids@.len(),
        groups_distinct(g@),
        forall|k: int|
            0 <= k < g@.len() ==> {
                &&& (#[trigger] g@[k]).1 as int == occ_count(ids@, g@[k].0)
                &&& 1 <= g@[k].1 <= ids@.len()
                &&& ids@.contains(g@[k].0)
            },
        forall|u: int| 0 <= u < ids@.len() ==> first_in(g@, g@.len() as int, #[trigger] ids@[u]),
{
    let n = ids.len();
    let mut g: Vec<(u32, i64)> = Vec::new();
    let mut t: usize = 0;
    while t < n
        invariant
            n == ids@.len(),
            n <= MAX_OPS,
            t <= n,
            g@.len() <= t,
            groups_distinct(g@),
            forall|k: int|
                0 <= k < g@.len() ==> {
                    &&& (#[trigger] g@[k]).1 as int == occ_count(ids@.subrange(0, t as int), g@[k].0)
                    &&& 1 <= g@[k].1 <= t
                    &&& ids@.subrange(0, t as int).contains(g@[k].0)
                },
            forall|u: int| 0 <= u < t ==> first_in(g@, g@.len() as int, #[trigger] ids@[u]),
        decreases n - t,
    {
        let id = ids[t];
        let ghost pre = ids@.subrange(0, t as int);
        let ghost post = ids@.subrange(0, t as int + 1);
        proof {
            assert(post.drop_last() =~= pre);
            assert(post.last() == ids@[t as int]);
            assert(forall|v: u32| occ_count(post, v) == occ_count(pre, v) + if id == v {
                1int
            } else {
                0int
            }) by {
                assert forall|v: u32|
                    occ_count(post, v) == occ_count(pre, v) + (if id == v {
                        1int
                    } else {
                        0int
                    }) by {
                    lemma_occ_push(pre, id, v);
                    assert(pre.push(id) =~= post);
                }
            }
        }
        let ghost gpre = g@;
        match find_group(&g, id) {
            Some(k) => {
                let c = g[k].1;
                g.set(k, (id, c + 1));
                proof {
                    assert forall|u: int| 0 <= u < t + 1 implies first_in(
                        g@,
                        g@.len() as int,
                        #[trigger] ids@[u],
                    ) by {
                        if u < t {
                            let q = choose|q: int|
                                0 <= q < gpre.len() && (#[trigger] gpre[q]).0 == ids@[u];
                            if q == k {
                                assert(g@[q].0 == id && gpre[q].0 == ids@[u]);
                            } else {
                                assert(g@[q].0 == gpre[q].0);
                            }
                        } else {
                            assert(g@[k as int].0 == id);
                        }
                    }
                }
            },
            None => {
                proof {
                    assert(!pre.contains(id)) by {
                        if pre.contains(id) {
                            let u = choose|u: int| 0 <= u < pre.len() && pre[u] == id;
                            assert(ids@[u] == id);
                            assert(first_in(gpre, gpre.len() as int, ids@[u]));
                        }
                    }
                    lemma_occ_absent(pre, id);
                }
                g.push((id, 1));
                proof {
                    assert forall|u: int| 0 <= u < t + 1 implies first_in(
                        g@,
                        g@.len() as int,
                        #[trigger] ids@[u],
                    ) by {
                        if u < t {
                            let q = choose|q: int|
                                0 <= q < gpre.len() && (#[trigger] gpre[q]).0 == ids@[u];
                            assert(g@[q].0 == ids@[u]);
                        } else {
                            assert(g@[g@.len() - 1].0 == id);
                        }
                    }
                }
            },
        }
        t += 1;
    }
    proof {
        assert(ids@.subrange(0, n as int) =~= ids@);
    }
    g
}

spec fn count_true(s: Seq<bool>, n: int) -> int
    decreases n,
{
    if n <= 0 {
        0
    } else {
        count_true(s, n - 1) + if s[n - 1] {
            1int
        } else {
            0int
        }
    }
}

proof fn lemma_count_le(s: Seq<bool>, n: int)
    requires
        0 <= n <= s.len(),
    ensures
        0 <= count_true(s, n) <= n,
    decreases n,
{
    if n > 0 {
        lemma_count_le(s, n - 1);
    }
}

proof fn lemma_count_update(s: Seq<bool>, i: int, v: bool, n: int)
    requires
        0 <= i < s.len(),
        0 <= n <= s.len(),
    ensures
        count_true(s.update(i, v), n) == count_true(s, n) + if i < n && v != s[i] {
            if v {
                1int
            } else {
                -1int
            }
        } else {
            0int
        },
    decreases n,
{
    if n > 0 {
        lemma_count_update(s, i, v, n - 1);
    }
}

proof fn lemma_count_zero(s: Seq<bool>, n: int)
    requires
        0 <= n <= s.len(),
        forall|q: int| 0 <= q < n ==> !(#[trigger] s[q]),
    ensures
        count_true(s, n) == 0,
    decreases n,
{
    if n > 0 {
        lemma_count_zero(s, n - 1);
    }
}

proof fn lemma_count_missing(s: Seq<bool>, i: int, n: int)
    requires
        0 <= i < n <= s.len(),
        !s[i],
    ensures
        count_true(s, n) <= n - 1,
    decreases n,
{
    lemma_count_le(s, n - 1);
    if i < n - 1 {
        lemma_count_missing(s, i, n - 1);
    }
}

proof fn lemma_pigeonhole(s: Seq<int>, n: int)
    requires
        n >= 0,
        s.len() > n,
        forall|k: int| 0 <= k < s.len() ==> 0 <= #[trigger] s[k] < n,
    ensures
        exists|a: int, b: int| 0 <= a < b < s.len() && s[a] == s[b],
{
    assert_by_contradiction!(exists|a: int, b: int| 0 <= a < b < s.len() && s[a] == s[b], {
        assert forall|i: int, j: int|
            0 <= i < s.len() && 0 <= j < s.len() && i != j implies s[i] != s[j] by {
            if s[i] == s[j] {
                if i < j {
                    assert(0 <= i < j < s.len() && s[i] == s[j]);
                } else {
                    assert(0 <= j < i < s.len() && s[j] == s[i]);
                }
            }
        }
        assert(s.no_duplicates());
        s.unique_seq_to_set();
        let range = vstd::set_lib::set_int_range(0, n);
        assert(s.to_set().subset_of(range)) by {
            assert forall|e: int| s.to_set().contains(e) implies range.contains(e) by {
                assert(s.contains(e));
                let k = choose|k: int| 0 <= k < s.len() && s[k] == e;
                assert(0 <= s[k] < n);
            }
        }
        vstd::set_lib::lemma_int_range(0, n);
        vstd::set_lib::lemma_len_subset(s.to_set(), range);
    });
}

impl Theory {
    /// Builds a ghost walk of length `len` through pending statements,
    /// following dependency edges, starting at `start`.
    proof fn lemma_walk(self, done: Seq<bool>, start: int, len: int) -> (p: Seq<int>)
        requires
            done.len() == self.statements@.len(),
            0 <= start < done.len(),
            !done[start],
            forall|i: int|
                0 <= i < done.len() && !done[i] ==> exists|j: int|
                    0 <= j < done.len() && !done[j] && #[trigger] self.dep(i, j),
            len >= 1,
        ensures
            p.len() == len,
            p[0] == start,
            forall|k: int| 0 <= k < len ==> 0 <= #[trigger] p[k] < done.len() && !done[p[k]],
            forall|k: int| 0 <= k < len - 1 ==> #[trigger] self.dep(p[k], p[k + 1]),
        decreases len,
    {
        if len == 1 {
            seq![start]
        } else {
            let p0 = self.lemma_walk(done, start, len - 1);
            let last = p0[len - 2];
            let j = choose|j: int| 0 <= j < done.len() && !done[j] && #[trigger] self.dep(last, j);
            p0.push(j)
        }
    }

    /// When every pending statement depends on a pending statement, the
    /// dependency graph has a cycle.
    proof fn lemma_stalled_cycle(self, done: Seq<bool>, start: int)
        requires
            done.len() == self.statements@.len(),
            0 <= start < done.len(),
            !done[start],
            forall|i: int|
                0 <= i < done.len() && !done[i] ==> exists|j: int|
                    0 <= j < done.len() && !done[j] && #[trigger] self.dep(i, j),
        ensures
            self.has_cycle(),
    {
        let n = done.len() as int;
        let p = self.lemma_walk(done, start, n + 1);
        lemma_pigeonhole(p, n);
        let (a, b) = choose|a: int, b: int| 0 <= a < b < p.len() && p[a] == p[b];
        let c = p.subrange(a, b + 1);
        assert(c.len() == b + 1 - a >= 2);
        assert(c[0] == p[a] && c[c.len() - 1] == p[b]);
        assert forall|k: int| 0 <= k < c.len() - 1 implies #[trigger] self.dep(c[k], c[k + 1]) by {
            assert(c[k] == p[a + k] && c[k + 1] == p[a + k + 1]);
            assert(self.dep(p[a + k], p[a + k + 1]));
        }
        assert(self.is_cycle(c));
    }

    proof fn lemma_path_rank(self, rank: Map<int, int>, p: Seq<int>, k: int)
        requires
            forall|i: int, j: int| #[trigger] self.dep(i, j) ==> rank[j] < rank[i],
            forall|q: int| 0 <= q < p.len() - 1 ==> #[trigger] self.dep(p[q], p[q + 1]),
            0 <= k < p.len(),
        ensures
            rank[p[k]] <= rank[p[0]] - k,
        decreases k,
    {
        if k > 0 {
            self.lemma_path_rank(rank, p, k - 1);
            let q = k - 1;
            assert(self.dep(p[q], p[q + 1]));
        }
    }

    /// A ranking that strictly decreases along every dependency edge rules
    /// out cycles.
    proof fn lemma_rank_no_cycle(self, rank: Map<int, int>)
        requires
            forall|i: int, j: int| #[trigger] self.dep(i, j) ==> rank[j] < rank[i],
        ensures
            !self.has_cycle(),
    {
        assert_by_contradiction!(!self.has_cycle(), {
            let p = choose|p: Seq<int>| self.is_cycle(p);
            self.lemma_path_rank(rank, p, p.len() - 1);
        });
    }

    /// Whether every statement that statement `i` depends on is marked done.
    fn stmt_ready(&self, i: usize, done: &Vec<bool>) -> (r: bool)
        requires
            i < self.statements@.len(),
            done@.len() == self.statements@.len(),
        ensures
            r == forall|j: int| #[trigger] self.dep(i as int, j) ==> done@[j],
    {
        let n = self.statements.len();
        let e = match &self.statements[i].expression {
            None => {
                return true;
            },
            Some(e) => e,
        };
        let nk = e.ids.len();
        let mut k: usize = 0;
        while k < nk
            invariant
                i < self.statements@.len(),
                done@.len() == self.statements@.len(),
                n == self.statements@.len(),
                self.statements@[i as int].expression == Some(*e),
                nk == e.ids@.len(),
                k <= nk,
                forall|j: int|
                    0 <= j < n && (exists|q: int|
                        0 <= q < k && e.ids@[q] == (#[trigger] self.statements@[j]).variable.id)
                        ==> done@[j],
            decreases nk - k,
        {
            let id = e.ids[k];
            let mut j: usize = 0;
            while j < n
                invariant
                    i < self.statements@.len(),
                    done@.len() == self.statements@.len(),
                    n == self.statements@.len(),
                    self.statements@[i as int].expression == Some(*e),
                    k < nk,
                    nk == e.ids@.len(),
                    id == e.ids@[k as int],
                    j <= n,
                    forall|q: int|
                        0 <= q < j && (#[trigger] self.statements@[q]).variable.id == id
                            ==> done@[q],
                decreases n - j,
            {
                if self.statements[j].variable.id == id && !done[j] {
                    proof {
                        assert(self.statements@[i as int].expression->Some_0.ids@[k as int]
                            == self.statements@[j as int].variable.id);
                        assert(self.statements@[i as int].expression->Some_0.ids@.contains(
                            self.statements@[j as int].variable.id,
                        ));
                        assert(self.dep(i as int, j as int));
                    }
                    return false;
                }
                j += 1;
            }
            k += 1;
        }
        proof {
            assert forall|j: int| #[trigger] self.dep(i as int, j) implies done@[j] by {
                let q = choose|q: int|
                    0 <= q < e.ids@.len() && e.ids@[q] == self.statements@[j].variable.id;
                assert(exists|q2: int|
                    0 <= q2 < nk && e.ids@[q2] == (#[trigger] self.statements@[j]).variable.id);
            }
        }
        true
    }

    /// Whether the statement dependency graph is free of cycles, decided by
    /// repeatedly marking statements whose dependencies are all marked.
    fn check_acyclic(&self) -> (r: bool)
        ensures
            r == !self.has_cycle(),
    {
        let n = self.statements.len();
        let mut done: Vec<bool> = Vec::new();
        let mut z: usize = 0;
        while z < n
            invariant
                done@.len() == z,
                z <= n,
                forall|q: int| 0 <= q < z ==> !(#[trigger] done@[q]),
            decreases n - z,
        {
            done.push(false);
            z += 1;
        }
        let mut total: usize = 0;
        let mut stalled = false;
        let ghost mut rank: Map<int, int> = Map::empty();
        proof {
            lemma_count_zero(done@, n as int);
        }
        while !stalled
            invariant
                n == self.statements@.len(),
                done@.len() == n,
                total == count_true(done@, n as int),
                total <= n,
                forall|i: int, j: int|
                    0 <= i < n && done@[i] && #[trigger] self.dep(i, j) ==> done@[j] && rank[j]
                        < rank[i],
                forall|i: int| 0 <= i < n && done@[i] ==> rank[i] < total as int,
                stalled ==> forall|i: int|
                    0 <= i < n && !done@[i] ==> exists|j: int|
                        0 <= j < n && !done@[j] && #[trigger] self.dep(i, j),
            decreases (n - total) + if stalled {
                0int
            } else {
                1int
            },
        {
            let ghost total0 = total;
            let mut progress = false;
            let mut i: usize = 0;
            while i < n
                invariant
                    n == self.statements@.len(),
                    done@.len() == n,
                    total == count_true(done@, n as int),
                    total <= n,
                    i <= n,
                    forall|i2: int, j: int|
                        0 <= i2 < n && done@[i2] && #[trigger] self.dep(i2, j) ==> done@[j]
                            && rank[j] < rank[i2],
                    forall|i2: int| 0 <= i2 < n && done@[i2] ==> rank[i2] < total as int,
                    !progress ==> total == total0,
                    progress ==> total > total0,
                    !progress ==> forall|i2: int|
                        0 <= i2 < i && !done@[i2] ==> exists|j: int|
                            0 <= j < n && !done@[j] && #[trigger] self.dep(i2, j),
                decreases n - i,
            {
                if !done[i] {
                    if self.stmt_ready(i, &done) {
                        let ghost dpre = done@;
                        done.set(i, true);
                        proof {
                            lemma_count_update(dpre, i as int, true, n as int);
                            lemma_count_missing(dpre, i as int, n as int);
                            rank = rank.insert(i as int, total as int);
                        }
                        total += 1;
                        progress = true;
                    } else {
                        proof {
                            let j = choose|j: int| #[trigger] self.dep(i as int, j) && !done@[j];
                            assert(0 <= j < n);
                        }
                    }
                }
                i += 1;
            }
            if !progress {
                stalled = true;
            }
        }
        let mut all = true;
        let mut w: usize = 0;
        let mut witness: usize = 0;
        while w < n
            invariant
                n == self.statements@.len(),
                done@.len() == n,
                all ==> forall|q: int| 0 <= q < w ==> #[trigger] done@[q],
                !all ==> witness < n && !done@[witness as int],
                w <= n,
            decreases n - w,
        {
            if !done[w] {
                all = false;
                witness = w;
            }
            w += 1;
        }
        if all {
            proof {
                assert forall|i: int, j: int| #[trigger] self.dep(i, j) implies rank[j]
                    < rank[i] by {
                    assert(0 <= i < n && done@[i]);
                }
                self.lemma_rank_no_cycle(rank);
            }
            true
        } else {
            proof {
                self.lemma_stalled_cycle(done@, witness as int);
            }
            false
        }
    }
}

proof fn lemma_conj_mergeable_symmetric(a: GeLineq, b: GeLineq)
    ensures
        GeLineq::conj_mergeable(a, b) == GeLineq::conj_mergeable(b, a),
{
    if crate::lineq::supports_disjoint(a, b) {
        assert forall|i: int, j: int|
            0 <= i < b.indices@.len() && 0 <= j < a.indices@.len() implies b.indices@[i]
            != a.indices@[j] by {
            assert(a.indices@[j] != b.indices@[i]);
        }
    }
    if crate::lineq::supports_disjoint(b, a) {
        assert forall|i: int, j: int|
            0 <= i < a.indices@.len() && 0 <= j < b.indices@.len() implies a.indices@[i]
            != b.indices@[j] by {
            assert(b.indices@[j] != a.indices@[i]);
        }
    }
}

fn find_merge(ls: &Vec<GeLineq>) -> (r: Option<(usize, usize, GeLineq)>)
    ensures
        match r {
            None => forall|a: int, b: int|
                0 <= a < ls@.len() && 0 <= b < ls@.len() && a != b ==> !GeLineq::conj_mergeable(
                    ls@[a],
                    ls@[b],
                ),
            Some(t) => {
                &&& t.0 < t.1 < ls@.len()
                &&& GeLineq::conj_mergeable(ls@[t.0 as int], ls@[t.1 as int])
                &&& t.2.wf()
                &&& -3_000_000_000_000_000_000 <= t.2.bias <= 3_000_000_000_000_000_000
                &&& forall|x: Map<u32, int>|
                    t.2.respects(x) <==> (ls@[t.0 as int].respects(x)
                        && ls@[t.1 as int].respects(x))
                &&& forall|x: Map<u32, int>|
                    t.2.respects(x) ==> (t.2.satisfied(x) <==> (ls@[t.0 as int].satisfied(x)
                        && ls@[t.1 as int].satisfied(x)))
            },
        },
{
    let n = ls.len();
    let mut i: usize = 0;
    while i < n
        invariant
            n == ls@.len(),
            i <= n,
            forall|a: int, b: int|
                0 <= a < i && a < b < n ==> !GeLineq::conj_mergeable(ls@[a], ls@[b]),
        decreases n - i,
    {
        let mut j: usize = i + 1;
        while j < n
            invariant
                n == ls@.len(),
                i < n,
                i < j <= n,
                forall|b: int| i < b < j ==> !GeLineq::conj_mergeable(ls@[i as int], ls@[b]),
            decreases n - j,
        {
            match ls[i].merge_conj(&ls[j]) {
                Some(c) => {
                    return Some((i, j, c));
                },
                None => {},
            }
            j += 1;
        }
        i += 1;
    }
    proof {
        assert forall|a: int, b: int|
            0 <= a < ls@.len() && 0 <= b < ls@.len() && a != b implies !GeLineq::conj_mergeable(
            ls@[a],
            ls@[b],
        ) by {
            if a < b {
            } else {
                lemma_conj_mergeable_symmetric(ls@[a], ls@[b]);
            }
        }
    }
    None
}

/// Replaces pairs of constraints that a conjunction merge can collapse with
/// their merged form, repeatedly, until no pair merges.  The satisfying
/// assignments are unchanged: under any assignment respecting the input
/// constraints' bounds, the output system holds exactly when the input
/// system does.  An input with no mergeable pair comes back unchanged, so a
/// second application is always the identity.
pub fn reduce_lineqs(ls: Vec<GeLineq>) -> (r: Vec<GeLineq>)
    requires
        forall|k: int|
            0 <= k < ls@.len() ==> ((#[trigger] ls@[k]).wf() && -3_000_000_000_000_000_000
                <= ls@[k].bias <= 3_000_000_000_000_000_000),
    ensures
        forall|a: int, b: int|
            0 <= a < r@.len() && 0 <= b < r@.len() && a != b ==> !GeLineq::conj_mergeable(
                r@[a],
                r@[b],
            ),
        forall|k: int|
            0 <= k < r@.len() ==> ((#[trigger] r@[k]).wf() && -3_000_000_000_000_000_000
                <= r@[k].bias <= 3_000_000_000_000_000_000),
        forall|x: Map<u32, int>|
            #[trigger] sys_respects(ls@, x) ==> (sys_respects(r@, x) && (sys_sat(r@, x)
                <==> sys_sat(ls@, x))),
        (forall|a: int, b: int|
            0 <= a < ls@.len() && 0 <= b < ls@.len() && a != b ==> !GeLineq::conj_mergeable(
                ls@[a],
                ls@[b],
            )) ==> r@ == ls@,
    decreases ls@.len(),
{
    let ghost ls0 = ls@;
    match find_merge(&ls) {
        None => ls,
        Some((i, j, c)) => {
            let mut next = ls;
            let _removed_j = next.remove(j);
            let _removed_i = next.remove(i);
            next.push(c);
            proof {
                assert forall|x: Map<u32, int>| #[trigger] sys_respects(ls0, x) implies (
                sys_respects(next@, x) && (sys_sat(next@, x) <==> sys_sat(ls0, x))) by {
                    assert(ls0[i as int].respects(x) && ls0[j as int].respects(x));
                    assert forall|k: int| 0 <= k < next@.len() implies (#[trigger] next@[k]).respects(
                        x,
                    ) by {
                        if k < next@.len() - 1 {
                            assert(next@[k] == ls0[orig_index(i as int, j as int, k)]);
                        }
                    }
                    if sys_sat(next@, x) {
                        assert forall|k: int| 0 <= k < ls0.len() implies (#[trigger] ls0[k]).satisfied(
                            x,
                        ) by {
                            if k == i {
                                assert(next@[next@.len() - 1].satisfied(x));
                            } else if k == j {
                                assert(next@[next@.len() - 1].satisfied(x));
                            } else {
                                let k2 = squeezed_index(i as int, j as int, k);
                                assert(next@[k2] == ls0[k]);
                                assert(next@[k2].satisfied(x));
                            }
                        }
                    }
                    if sys_sat(ls0, x) {
                        assert forall|k: int| 0 <= k < next@.len() implies (#[trigger] next@[k]).satisfied(
                            x,
                        ) by {
                            if k < next@.len() - 1 {
                                assert(next@[k] == ls0[orig_index(i as int, j as int, k)]);
                            } else {
                                assert(ls0[i as int].satisfied(x) && ls0[j as int].satisfied(x));
                            }
                        }
                    }
                }
                assert forall|k: int| 0 <= k < next@.len() implies ((#[trigger] next@[k]).wf()
                    && -3_000_000_000_000_000_000 <= next@[k].bias
                    <= 3_000_000_000_000_000_000) by {
                    if k < next@.len() - 1 {
                        assert(next@[k] == ls0[orig_index(i as int, j as int, k)]);
                    }
                }
            }
            let r = reduce_lineqs(next);
            proof {
                assert forall|x: Map<u32, int>| #[trigger] sys_respects(ls0, x) implies (
                sys_respects(r@, x) && (sys_sat(r@, x) <==> sys_sat(ls0, x))) by {
                    assert(sys_respects(next@, x));
                }
            }
            r
        },
    }
}

/// The position in the input sequence of the element standing at `k` in
/// the sequence with positions `i` and `j` removed (`i < j`, `k` below the
/// appended merge result).
spec fn orig_index(i: int, j: int, k: int) -> int {
    if k < i {
        k
    } else if k < j - 1 {
        k + 1
    } else {
        k + 2
    }
}

/// The position after removing `i` and `j` of the element standing at `k`
/// in the input sequence (`k` different from both).
spec fn squeezed_index(i: int, j: int, k: int) -> int {
    if k < i {
        k
    } else if k < j {
        k - 1
    } else {
        k - 2
    }
}

/// The registry holds exactly the variables of `t`'s statements.
pub open spec fn reg_matches(t: Theory, reg: VarRegistry) -> bool {
    &&& reg.wf()
    &&& forall|j: int|
        0 <= j < t.statements@.len() ==> reg.contains_id(
            (#[trigger] t.statements@[j]).variable.id,
        )
    &&& forall|c: int| 0 <= c < reg.vars@.len() ==> t.defines((#[trigger] reg.vars@[c]).id)
    &&& forall|c: int|
        0 <= c < reg.vars@.len() ==> (#[trigger] reg.vars@[c]).bounds == t.var_of(
            reg.vars@[c].id,
        ).bounds
}

proof fn lemma_reg_var(t: Theory, reg: VarRegistry, c: int)
    requires
        reg_matches(t, reg),
        t.consistent(),
        0 <= c < reg.vars@.len(),
    ensures
        t.defines(reg.vars@[c].id),
        reg.vars@[c].bounds == t.var_of(reg.vars@[c].id).bounds,
{
}

proof fn lemma_sum_is_gsum(l: GeLineq, g: Seq<(u32, i64)>, x: Map<u32, int>, n: int, sgn: int)
    requires
        n <= g.len(),
        n <= l.coeffs@.len(),
        n <= l.indices@.len(),
        forall|k: int| 0 <= k < n ==> (#[trigger] l.coeffs@[k]) as int == sgn * g[k].1,
        forall|k: int| 0 <= k < n ==> #[trigger] l.indices@[k] == g[k].0,
    ensures
        l.sum_terms(x, n) == sgn * gsum(g, x, n),
    decreases n,
{
    if n <= 0 {
        assert(sgn * 0 == 0) by (nonlinear_arith);
    } else {
        lemma_sum_is_gsum(l, g, x, n - 1, sgn);
        let c = g[n - 1].1 as int;
        let xv = x[g[n - 1].0];
        lemma_mul_is_associative(sgn, c, xv);
        lemma_mul_is_distributive_add(sgn, gsum(g, x, n - 1), c * xv);
    }
}

impl Theory {
    proof fn lemma_emitted_wf(self, row: &GeLineq, g: Seq<(u32, i64)>, e: AtLeast, i: int)
        requires
            self.bounded(),
            self.consistent(),
            self.operands_defined(),
            0 <= i < self.statements@.len(),
            self.statements@[i].expression == Some(e),
            !e.ids@.contains(self.statements@[i].variable.id),
            groups_distinct(g),
            forall|q: int| 0 <= q < g.len() ==> e.ids@.contains((#[trigger] g[q]).0),
            row.coeffs@.len() == row.indices@.len(),
            row.bounds@.len() == row.indices@.len(),
            g.len() <= row.indices@.len() <= g.len() + 1,
            forall|q: int| 0 <= q < g.len() ==> #[trigger] row.indices@[q] == g[q].0,
            forall|q: int|
                0 <= q < g.len() ==> {
                    &&& (#[trigger] row.bounds@[q]).0 as int == self.lo_map()[g[q].0]
                    &&& row.bounds@[q].1 as int == self.hi_map()[g[q].0]
                },
            row.indices@.len() == g.len() + 1 ==> {
                &&& row.indices@[g.len() as int] == self.statements@[i].variable.id
                &&& row.bounds@[g.len() as int] == self.statements@[i].variable.bounds
            },
        ensures
            row.wf(),
            forall|x: Map<u32, int>| self.theory_box(x) ==> (#[trigger] row.respects(x)),
    {
        let gl = g.len() as int;
        let vid = self.statements@[i].variable.id;
        assert forall|q: int| 0 <= q < gl implies {
            &&& self.defines(g[q].0)
            &&& self.var_of(g[q].0).wf()
            &&& self.lo_map()[g[q].0] == self.var_of(g[q].0).bounds.0 as int
            &&& self.hi_map()[g[q].0] == self.var_of(g[q].0).bounds.1 as int
            &&& g[q].0 != vid
        } by {
            let gid = g[q].0;
            assert(e.ids@.contains(gid));
            let u = choose|u: int| 0 <= u < e.ids@.len() && e.ids@[u] == gid;
            assert(self.defines(#[trigger] self.statements@[i].expression->Some_0.ids@[u]));
            let j = choose|j: int|
                0 <= j < self.statements@.len() && (#[trigger] self.statements@[j]).variable.id
                    == gid;
            let j2 = choose|j2: int|
                0 <= j2 < self.statements@.len() && (#[trigger] self.statements@[j2]).variable.id
                    == gid;
            assert(self.var_of(gid) == self.statements@[j2].variable);
            assert(self.statements@[j2].variable.wf());
            if gid == vid {
                assert(e.ids@[u] == vid);
            }
        }
        assert forall|a: int, b: int| 0 <= a < b < row.indices@.len() implies row.indices@[a]
            != row.indices@[b] by {
            if b < gl {
                assert(g[a].0 != g[b].0);
            } else if row.indices@.len() == gl + 1 && b == gl {
                assert(row.indices@[a] == g[a].0 && row.indices@[b] == vid);
            }
        }
        assert forall|q: int| 0 <= q < row.bounds@.len() implies (#[trigger] row.bounds@[q]).0
            <= row.bounds@[q].1 by {
            if q < gl {
                assert(self.var_of(g[q].0).wf());
            } else {
                assert(self.statements@[i].variable.wf());
            }
        }
        assert forall|x: Map<u32, int>| self.theory_box(x) implies (#[trigger] row.respects(x)) by {
            assert forall|q: int| 0 <= q < row.indices@.len() implies {
                &&& x.contains_key(#[trigger] row.indices@[q])
                &&& row.bounds@[q].0 <= x[row.indices@[q]] <= row.bounds@[q].1
            } by {
                if q < gl {
                    let gid = g[q].0;
                    let j2 = choose|j2: int|
                        0 <= j2 < self.statements@.len()
                            && (#[trigger] self.statements@[j2]).variable.id == gid;
                    assert(x.contains_key(self.statements@[j2].variable.id));
                    assert(self.statements@[j2].variable.bounds == self.var_of(gid).bounds);
                } else {
                    assert(x.contains_key(self.statements@[i].variable.id));
                }
            }
        }
    }

    /// The reification rows of statement `i` (which must carry an
    /// expression): the bare predicate row in active mode, or the
    /// equivalence pair with bound-derived coefficients in full mode.
    #[verifier::rlimit(100)]
    #[verifier::spinoff_prover]
    fn emit_rows(&self, i: usize, reg: &VarRegistry, active: bool) -> (rows: Vec<GeLineq>)
        requires
            self.bounded(),
            self.consistent(),
            self.operands_defined(),
            reg_matches(*self, *reg),
            i < self.statements@.len(),
            self.statements@[i as int].expression is Some,
            !self.statements@[i as int].expression->Some_0.ids@.contains(
                self.statements@[i as int].variable.id,
            ),
        ensures
            ({
                let v = self.statements@[i as int].variable;
                let e = self.statements@[i as int].expression->Some_0;
                let m = self.expr_lo(e);
                let mm = self.expr_hi(e);
                &&& rows@.len() == if active {
                    1int
                } else {
                    2int
                }
                &&& forall|k: int|
                    0 <= k < rows@.len() ==> {
                        &&& (#[trigger] rows@[k]).id == Some(v.id)
                        &&& rows@[k].wf()
                        &&& -2_000_000_000_000 <= rows@[k].bias <= 2_000_000_000_000
                        &&& forall|q: int|
                            0 <= q < rows@[k].coeffs@.len() ==> -2_000_000_000_000
                                <= #[trigger] rows@[k].coeffs@[q] <= 2_000_000_000_000
                    }
                &&& forall|x: Map<u32, int>|
                    self.theory_box(x) ==> forall|k: int|
                        0 <= k < rows@.len() ==> (#[trigger] rows@[k]).respects(x)
                &&& (active ==> forall|x: Map<u32, int>| (#[trigger] rows@[0].value(x)) == e.value(
                    x,
                ))
                &&& (!active ==> forall|x: Map<u32, int>|
                    {
                        &&& (#[trigger] rows@[0].value(x)) == e.value(x) - m + m * x[v.id]
                        &&& rows@[1].value(x) == -e.value(x) - 1 + (mm + 1) * x[v.id]
                    })
            }),
    {
        let v = self.statements[i].variable;
        let e = match &self.statements[i].expression {
            Some(e) => e,
            None => {
                // unreachable: the statement was checked to carry an expression
                proof {
                    assert(false);
                }
                return Vec::new();
            },
        };
        let g = group_operands(&e.ids);
        let gl = g.len();
        let mut firsts: Vec<u32> = Vec::new();
        let mut firsts2: Vec<u32> = Vec::new();
        let mut cfs: Vec<i64> = Vec::new();
        let mut cfs2: Vec<i64> = Vec::new();
        let mut bnds: Vec<(i64, i64)> = Vec::new();
        let mut bnds2: Vec<(i64, i64)> = Vec::new();
        let mut m_acc: i64 = e.bias;
        let mut mm_acc: i64 = e.bias;
        let mut k: usize = 0;
        while k < gl
            invariant
                self.bounded(),
                self.consistent(),
                self.operands_defined(),
                reg_matches(*self, *reg),
                i < self.statements@.len(),
                self.statements@[i as int].expression is Some,
                e == self.statements@[i as int].expression->Some_0,
                gl == g@.len(),
                g@.len() <= e.ids@.len(),
                e.ids@.len() <= MAX_OPS,
                groups_distinct(g@),
                forall|q: int|
                    0 <= q < g@.len() ==> {
                        &&& (#[trigger] g@[q]).1 as int == occ_count(e.ids@, g@[q].0)
                        &&& 1 <= g@[q].1 <= e.ids@.len()
                        &&& e.ids@.contains(g@[q].0)
                    },
                k <= gl,
                firsts@.len() == k && firsts2@.len() == k && cfs@.len() == k && cfs2@.len() == k
                    && bnds@.len() == k && bnds2@.len() == k,
                forall|q: int| 0 <= q < k ==> #[trigger] firsts@[q] == g@[q].0,
                forall|q: int| 0 <= q < k ==> #[trigger] firsts2@[q] == g@[q].0,
                forall|q: int| 0 <= q < k ==> #[trigger] cfs@[q] == g@[q].1,
                forall|q: int| 0 <= q < k ==> (#[trigger] cfs2@[q]) as int == -(g@[q].1 as int),
                forall|q: int|
                    0 <= q < k ==> {
                        &&& (#[trigger] bnds@[q]).0 as int == self.lo_map()[g@[q].0]
                        &&& bnds@[q].1 as int == self.hi_map()[g@[q].0]
                        &&& bnds@[q].0 <= bnds@[q].1
                        &&& -MAX_THEORY_BOUND <= bnds@[q].0 <= MAX_THEORY_BOUND
                        &&& -MAX_THEORY_BOUND <= bnds@[q].1 <= MAX_THEORY_BOUND
                        &&& bnds2@[q] == bnds@[q]
                    },
                m_acc as int == e.bias + gsum(g@, self.lo_map(), k as int),
                mm_acc as int == e.bias + gsum(g@, self.hi_map(), k as int),
                -MAX_THEORY_BIAS - (k as int) * 1_000_000_000 <= m_acc as int <= MAX_THEORY_BIAS
                    + (k as int) * 1_000_000_000,
                -MAX_THEORY_BIAS - (k as int) * 1_000_000_000 <= mm_acc as int <= MAX_THEORY_BIAS
                    + (k as int) * 1_000_000_000,
            decreases gl - k,
        {
            let (gid, cnt) = g[k];
            let col = match reg.column_of(gid) {
                Some(c) => c,
                None => {
                    // unreachable: every operand id was checked to be registered
                    proof {
                        assert(e.ids@.contains(gid));
                        let u = choose|u: int| 0 <= u < e.ids@.len() && e.ids@[u] == gid;
                        assert(self.defines(e.ids@[u]));
                        let j = choose|j: int|
                            0 <= j < self.statements@.len()
                                && (#[trigger] self.statements@[j]).variable.id == gid;
                        assert(reg.contains_id(self.statements@[j].variable.id));
                        assert(false);
                    }
                    return Vec::new();
                },
            };
            let (lo, hi) = reg.vars[col].bounds;
            proof {
                lemma_reg_var(*self, *reg, col as int);
                let jv = choose|j: int|
                    0 <= j < self.statements@.len()
                        && (#[trigger] self.statements@[j]).variable.id == gid;
                assert(self.var_of(gid) == self.statements@[jv].variable);
                assert(self.var_of(gid).wf());
                assert(-MAX_THEORY_BOUND <= lo <= MAX_THEORY_BOUND);
                assert(-MAX_THEORY_BOUND <= hi <= MAX_THEORY_BOUND);
                assert(self.lo_map()[gid] == lo as int);
                assert(self.hi_map()[gid] == hi as int);
                assert(-1_000_000_000 <= cnt * lo <= 1_000_000_000 && -1_000_000_000 <= cnt * hi
                    <= 1_000_000_000) by (nonlinear_arith)
                    requires
                        1 <= cnt <= 1000,
                        -MAX_THEORY_BOUND <= lo <= MAX_THEORY_BOUND,
                        -MAX_THEORY_BOUND <= hi <= MAX_THEORY_BOUND,
                ;
            }
            firsts.push(gid);
            firsts2.push(gid);
            cfs.push(cnt);
            cfs2.push(-cnt);
            bnds.push((lo, hi));
            bnds2.push((lo, hi));
            m_acc = m_acc + cnt * lo;
            mm_acc = mm_acc + cnt * hi;
            k += 1;
        }
        let ghost bndsv = bnds@;
        let ghost bnds2v = bnds2@;
        proof {
            lemma_gsum_occ(g@, e.ids@, self.lo_map());
            lemma_gsum_occ(g@, e.ids@, self.hi_map());
            assert(m_acc as int == self.expr_lo(*e));
            assert(mm_acc as int == self.expr_hi(*e));
        }
        let m = m_acc;
        let mm = mm_acc;
        let mut rows: Vec<GeLineq> = Vec::new();
        if active {
            let row = GeLineq {
                id: Some(v.id),
                bias: e.bias,
                bounds: bnds,
                coeffs: cfs,
                indices: firsts,
            };
            proof {
                self.lemma_emitted_wf(&row, g@, *e, i as int);
                assert forall|x: Map<u32, int>| (#[trigger] row.value(x)) == e.value(x) by {
                    assert forall|q: int| 0 <= q < gl implies (#[trigger] row.coeffs@[q]) as int == 1
                        * g@[q].1 by {
                        assert(1 * (g@[q].1 as int) == g@[q].1 as int) by (nonlinear_arith);
                    }
                    lemma_sum_is_gsum(row, g@, x, gl as int, 1);
                    lemma_gsum_occ(g@, e.ids@, x);
                    assert(1 * gsum(g@, x, gl as int) == gsum(g@, x, gl as int))
                        by (nonlinear_arith);
                }
            }
            rows.push(row);
        } else {
            let mut idx1 = firsts;
            idx1.push(v.id);
            let mut cf1 = cfs;
            cf1.push(m);
            let mut bd1 = bnds;
            bd1.push(v.bounds);
            let row1 = GeLineq { id: Some(v.id), bias: e.bias - m, bounds: bd1, coeffs: cf1, indices: idx1 };
            let mut idx2 = firsts2;
            idx2.push(v.id);
            let mut cf2 = cfs2;
            cf2.push(mm + 1);
            let mut bd2 = bnds2;
            bd2.push(v.bounds);
            let row2 = GeLineq {
                id: Some(v.id),
                bias: -e.bias - 1,
                bounds: bd2,
                coeffs: cf2,
                indices: idx2,
            };
            proof {
                assert(row1.bounds@ =~= bndsv.push(v.bounds));
                assert(row2.bounds@ =~= bnds2v.push(v.bounds));
                assert forall|q: int| 0 <= q < gl implies {
                    &&& (#[trigger] row1.bounds@[q]).0 as int == self.lo_map()[g@[q].0]
                    &&& row1.bounds@[q].1 as int == self.hi_map()[g@[q].0]
                } by {
                    assert(row1.bounds@[q] == bndsv[q]);
                }
                assert forall|q: int| 0 <= q < gl implies {
                    &&& (#[trigger] row2.bounds@[q]).0 as int == self.lo_map()[g@[q].0]
                    &&& row2.bounds@[q].1 as int == self.hi_map()[g@[q].0]
                } by {
                    assert(row2.bounds@[q] == bnds2v[q]);
                    assert(bnds2v[q] == bndsv[q]);
                }
                self.lemma_emitted_wf(&row1, g@, *e, i as int);
                self.lemma_emitted_wf(&row2, g@, *e, i as int);
                assert forall|x: Map<u32, int>|
                    {
                        &&& (#[trigger] row1.value(x)) == e.value(x) - (m as int) + (m as int)
                            * x[v.id]
                        &&& row2.value(x) == -e.value(x) - 1 + ((mm as int) + 1) * x[v.id]
                    } by {
                    assert forall|q: int| 0 <= q < gl implies (#[trigger] row1.coeffs@[q]) as int
                        == 1 * g@[q].1 by {
                        assert(1 * (g@[q].1 as int) == g@[q].1 as int) by (nonlinear_arith);
                    }
                    lemma_sum_is_gsum(row1, g@, x, gl as int, 1);
                    lemma_sum_is_gsum(row2, g@, x, gl as int, -1);
                    lemma_gsum_occ(g@, e.ids@, x);
                    assert(1 * gsum(g@, x, gl as int) == gsum(g@, x, gl as int))
                        by (nonlinear_arith);
                    assert(-1 * gsum(g@, x, gl as int) == -gsum(g@, x, gl as int))
                        by (nonlinear_arith);
                    assert(row1.sum_terms(x, gl as int + 1) == row1.sum_terms(x, gl as int)
                        + (m as int) * x[v.id]);
                    assert(row2.sum_terms(x, gl as int + 1) == row2.sum_terms(x, gl as int) + ((
                    mm as int) + 1) * x[v.id]);
                }
            }
            rows.push(row1);
            rows.push(row2);
        }
        rows
    }

    #[verifier::spinoff_prover]
    fn build_registry(&self) -> (r: Result<VarRegistry, TheoryError>)
        ensures
            match r {
                Ok(reg) => {
                    &&& self.consistent()
                    &&& reg_matches(*self, reg)
                    &&& (self.stmt_ids_distinct() ==> reg.vars@.len() == self.statements@.len()
                        && forall|i: int|
                        0 <= i < reg.vars@.len() ==> #[trigger] reg.vars@[i]
                            == self.statements@[i].variable)
                },
                Err(e) => e == TheoryError::ConflictingBounds && !self.consistent(),
            },
            r is Ok <==> self.consistent(),
    {
        let n = self.statements.len();
        let mut reg = VarRegistry::new();
        let mut j: usize = 0;
        while j < n
            invariant
                n == self.statements@.len(),
                j <= n,
                reg.wf(),
                forall|c: int|
                    0 <= c < reg.vars@.len() ==> #[trigger] reg.vars@[c] == reg.vars@[c]
                        && exists|jj: int|
                        0 <= jj < j && (#[trigger] self.statements@[jj]).variable
                            == reg.vars@[c],
                forall|jj: int|
                    0 <= jj < j ==> reg.contains_id(
                        (#[trigger] self.statements@[jj]).variable.id,
                    ),
                forall|jj: int, c: int|
                    0 <= jj < j && 0 <= c < reg.vars@.len() && (#[trigger] reg.vars@[c]).id
                        == (#[trigger] self.statements@[jj]).variable.id ==> reg.vars@[c].bounds
                        == self.statements@[jj].variable.bounds,
                self.stmt_ids_distinct() ==> reg.vars@.len() == j && forall|jj: int|
                    0 <= jj < j ==> #[trigger] reg.vars@[jj] == self.statements@[jj].variable,
            decreases n - j,
        {
            let v = self.statements[j].variable;
            let ghost regpre = reg;
            match reg.register(v) {
                Ok(_) => {},
                Err(_) => {
                    proof {
                        assert(regpre.contains_id(v.id));
                        let c = choose|c: int|
                            0 <= c < regpre.vars@.len() && (#[trigger] regpre.vars@[c]).id == v.id;
                        assert(regpre.vars@[c].bounds != v.bounds);
                        let jj = choose|jj: int|
                            0 <= jj < j && (#[trigger] self.statements@[jj]).variable
                                == regpre.vars@[c];
                        assert(self.statements@[jj].variable.id == self.statements@[
                        j as int].variable.id);
                        assert(self.statements@[jj].variable.bounds != self.statements@[
                        j as int].variable.bounds);
                        assert(!self.consistent());
                    }
                    return Err(TheoryError::ConflictingBounds);
                },
            }
            proof {
                if self.stmt_ids_distinct() {
                    assert(!regpre.contains_id(v.id)) by {
                        if regpre.contains_id(v.id) {
                            let c = choose|c: int|
                                0 <= c < regpre.vars@.len() && (#[trigger] regpre.vars@[c]).id
                                    == v.id;
                            let jj = choose|jj: int|
                                0 <= jj < j && (#[trigger] self.statements@[jj]).variable
                                    == regpre.vars@[c];
                            assert(self.statements@[jj].variable.id == self.statements@[
                            j as int].variable.id);
                        }
                    }
                }
                if regpre.contains_id(v.id) {
                    assert(reg == regpre);
                } else {
                    assert(reg.vars@ =~= regpre.vars@.push(v));
                    assert(reg.vars@[regpre.vars@.len() as int] == v);
                    assert(reg.contains_id(v.id));
                    assert forall|jj: int| 0 <= jj < j implies reg.contains_id(
                        (#[trigger] self.statements@[jj]).variable.id,
                    ) by {
                        let c = choose|c: int|
                            0 <= c < regpre.vars@.len() && (#[trigger] regpre.vars@[c]).id
                                == self.statements@[jj].variable.id;
                        assert(reg.vars@[c] == regpre.vars@[c]);
                    }
                }
            }
            j += 1;
        }
        proof {
            assert forall|i1: int, i2: int|
                0 <= i1 < n && 0 <= i2 < n && (#[trigger] self.statements@[i1]).variable.id
                    == (#[trigger] self.statements@[i2]).variable.id implies self.statements@[
            i1].variable.bounds == self.statements@[i2].variable.bounds by {
                assert(reg.contains_id(self.statements@[i1].variable.id));
                let c = choose|c: int|
                    0 <= c < reg.vars@.len() && (#[trigger] reg.vars@[c]).id == self.statements@[
                    i1].variable.id;
                assert(reg.vars@[c].bounds == self.statements@[i1].variable.bounds);
                assert(reg.vars@[c].bounds == self.statements@[i2].variable.bounds);
            }
            assert(self.consistent());
            assert(j == n);
            assert forall|c: int| 0 <= c < reg.vars@.len() implies self.defines(
                (#[trigger] reg.vars@[c]).id,
            ) && reg.vars@[c].bounds == self.var_of(reg.vars@[c].id).bounds by {
                let jj = choose|jj: int|
                    0 <= jj < j && (#[trigger] self.statements@[jj]).variable == reg.vars@[c];
                assert(self.statements@[jj].variable.id == reg.vars@[c].id);
                assert(self.defines(reg.vars@[c].id));
                let j2 = choose|j2: int|
                    0 <= j2 < self.statements@.len()
                        && (#[trigger] self.statements@[j2]).variable.id == reg.vars@[c].id;
                assert(self.var_of(reg.vars@[c].id) == self.statements@[j2].variable);
                assert(reg.vars@[c].bounds == self.statements@[j2].variable.bounds);
            }
            assert(reg_matches(*self, reg));
        }
        Ok(reg)
    }

    fn operands_ok(&self, reg: &VarRegistry) -> (r: bool)
        requires
            reg_matches(*self, *reg),
        ensures
            r == self.operands_defined(),
    {
        let n = self.statements.len();
        let mut i2: usize = 0;
        while i2 < n
            invariant
                n == self.statements@.len(),
                reg_matches(*self, *reg),
                i2 <= n,
                forall|i3: int, k3: int|
                    0 <= i3 < i2 && self.statements@[i3].expression is Some && 0 <= k3
                        < self.statements@[i3].expression->Some_0.ids@.len() ==> self.defines(
                        #[trigger] self.statements@[i3].expression->Some_0.ids@[k3],
                    ),
            decreases n - i2,
        {
            match &self.statements[i2].expression {
                None => {},
                Some(e) => {
                    let nk = e.ids.len();
                    let mut k: usize = 0;
                    while k < nk
                        invariant
                            n == self.statements@.len(),
                            reg_matches(*self, *reg),
                            i2 < n,
                            self.statements@[i2 as int].expression == Some(*e),
                            nk == e.ids@.len(),
                            k <= nk,
                            forall|k3: int| 0 <= k3 < k ==> self.defines(#[trigger] e.ids@[k3]),
                        decreases nk - k,
                    {
                        match reg.column_of(e.ids[k]) {
                            Some(_) => {
                                proof {
                                    let id = e.ids@[k as int];
                                    assert(reg.contains_id(id));
                                    let c = choose|c: int|
                                        0 <= c < reg.vars@.len() && (#[trigger] reg.vars@[c]).id
                                            == id;
                                    assert(self.defines(reg.vars@[c].id));
                                }
                            },
                            None => {
                                proof {
                                    let id = e.ids@[k as int];
                                    assert_by_contradiction!(!self.defines(id), {
                                        let jj = choose|jj: int|
                                            0 <= jj < self.statements@.len()
                                                && (#[trigger] self.statements@[jj]).variable.id == id;
                                        assert(reg.contains_id(id));
                                    });
                                    assert(self.statements@[i2 as int].expression->Some_0.ids@[
                                        k as int] == id);
                                    assert(!self.defines(
                                        self.statements@[i2 as int].expression->Some_0.ids@[
                                            k as int],
                                    ));
                                    assert(!self.operands_defined());
                                }
                                return false;
                            },
                        }
                        k += 1;
                    }
                },
            }
            i2 += 1;
        }
        true
    }

    #[verifier::rlimit(100)]
    #[verifier::spinoff_prover]
    fn emit_all(&self, reg: &VarRegistry, active: bool) -> (out: Vec<GeLineq>)
        requires
            self.bounded(),
            self.consistent(),
            self.operands_defined(),
            !self.has_cycle(),
            reg_matches(*self, *reg),
        ensures
            self.rows_exact(active, out@),
            forall|k: int|
                0 <= k < out@.len() ==> ((#[trigger] out@[k]).wf() && -3_000_000_000_000_000_000
                    <= out@[k].bias <= 3_000_000_000_000_000_000),
            forall|x: Map<u32, int>| self.theory_box(x) ==> #[trigger] sys_respects(out@, x),
            forall|x: Map<u32, int>|
                self.theory_box(x) ==> (#[trigger] sys_sat(out@, x) <==> self.rows_hold(
                    active,
                    x,
                )),
    {
        let n = self.statements.len();
        let mut out: Vec<GeLineq> = Vec::new();
        let mut i: usize = 0;
        while i < n
            invariant
                self.bounded(),
                self.consistent(),
                self.operands_defined(),
                !self.has_cycle(),
                reg_matches(*self, *reg),
                n == self.statements@.len(),
                i <= n,
                out@.len() == if active {
                    self.n_expr_before(i as int)
                } else {
                    2 * self.n_expr_before(i as int)
                },
                forall|i3: int|
                    0 <= i3 < i && (#[trigger] self.statements@[i3]).expression is Some
                        ==> self.stmt_rows_at(active, out@, i3),
                forall|k: int|
                    0 <= k < out@.len() ==> ((#[trigger] out@[k]).wf()
                        && -3_000_000_000_000_000_000 <= out@[k].bias
                        <= 3_000_000_000_000_000_000),
                forall|x: Map<u32, int>|
                    self.theory_box(x) ==> #[trigger] sys_respects(out@, x),
                forall|x: Map<u32, int>|
                    self.theory_box(x) ==> (#[trigger] sys_sat(out@, x)
                        <==> self.rows_hold_before(i as int, active, x)),
            decreases n - i,
        {
            let ghost out0 = out@;
            proof {
                self.lemma_n_expr_range(i as int);
            }
            let has_expr = match &self.statements[i].expression {
                Some(_) => true,
                None => false,
            };
            if has_expr {
                proof {
                    self.lemma_no_self_dep(i as int);
                }
                let mut rows = self.emit_rows(i, reg, active);
                let ghost rows0 = rows@;
                out.append(&mut rows);
                proof {
                    assert(out@ =~= out0 + rows0);
                    let p = out0.len() as int;
                    assert forall|i3: int|
                        0 <= i3 < i + 1 && (#[trigger] self.statements@[i3]).expression
                            is Some implies self.stmt_rows_at(active, out@, i3) by {
                        if i3 < i {
                            assert(self.stmt_rows_at(active, out0, i3));
                            self.lemma_stmt_rows_extend(active, out0, out@, i3);
                        } else {
                            let v = self.statements@[i3].variable;
                            let e = self.statements@[i3].expression->Some_0;
                            let m = self.expr_lo(e);
                            let mm = self.expr_hi(e);
                            if active {
                                assert(out@[p] == rows0[0]);
                                assert forall|x: Map<u32, int>| (#[trigger] out@[p].value(x))
                                    == e.value(x) by {
                                    assert(rows0[0].value(x) == e.value(x));
                                }
                            } else {
                                assert(out@[p] == rows0[0]);
                                assert(out@[p + 1] == rows0[1]);
                                assert forall|x: Map<u32, int>| (#[trigger] out@[p].value(x))
                                    == e.value(x) - m + m * x[v.id] by {
                                    assert(rows0[0].value(x) == e.value(x) - m + m * x[v.id]);
                                }
                                assert forall|x: Map<u32, int>|
                                    (#[trigger] out@[p + 1].value(x)) == -e.value(x) - 1 + (mm + 1)
                                        * x[v.id] by {
                                    assert(rows0[0].value(x) == e.value(x) - m + m * x[v.id]);
                                    assert(rows0[1].value(x) == -e.value(x) - 1 + (mm + 1)
                                        * x[v.id]);
                                }
                            }
                        }
                    }
                    assert forall|x: Map<u32, int>| self.theory_box(x) implies #[trigger] sys_respects(
                        out@,
                        x,
                    ) by {
                        assert(sys_respects(out0, x));
                        assert forall|k: int| 0 <= k < out@.len() implies (#[trigger] out@[k]).respects(
                            x,
                        ) by {
                            if k < p {
                                assert(out@[k] == out0[k]);
                            } else {
                                assert(out@[k] == rows0[k - p]);
                            }
                        }
                    }
                    assert forall|x: Map<u32, int>| self.theory_box(x) implies (
                    #[trigger] sys_sat(out@, x) <==> self.rows_hold_before(
                        i as int + 1,
                        active,
                        x,
                    )) by {
                        let e = self.statements@[i as int].expression->Some_0;
                        if sys_sat(out@, x) {
                            assert forall|k: int| 0 <= k < out0.len() implies (#[trigger] out0[k]).satisfied(
                                x,
                            ) by {
                                assert(out@[k] == out0[k]);
                                assert(out@[k].satisfied(x));
                            }
                            assert(sys_sat(out0, x));
                            assert(out@[p].satisfied(x));
                            if !active {
                                assert(out@[p + 1].satisfied(x));
                            }
                            assert(self.rows_hold_before(i as int, active, x));
                            assert forall|i3: int|
                                0 <= i3 < i + 1 && (#[trigger] self.statements@[i3]).expression
                                    is Some implies (if active {
                                self.statements@[i3].expression->Some_0.value(x) >= 0
                            } else {
                                self.full_rows_hold(i3, x)
                            }) by {
                                if i3 == i {
                                    assert(out@[p].value(x) >= 0);
                                }
                            }
                        }
                        if self.rows_hold_before(i as int + 1, active, x) {
                            assert(self.rows_hold_before(i as int, active, x)) by {
                                assert forall|i3: int|
                                    0 <= i3 < i && (#[trigger] self.statements@[i3]).expression
                                        is Some implies (if active {
                                    self.statements@[i3].expression->Some_0.value(x) >= 0
                                } else {
                                    self.full_rows_hold(i3, x)
                                }) by {
                                    assert(0 <= i3 < i + 1);
                                }
                            }
                            assert(sys_sat(out0, x));
                            assert(if active {
                                e.value(x) >= 0
                            } else {
                                self.full_rows_hold(i as int, x)
                            });
                            assert forall|k: int| 0 <= k < out@.len() implies (#[trigger] out@[k]).satisfied(
                                x,
                            ) by {
                                if k < p {
                                    assert(out@[k] == out0[k]);
                                    assert(out0[k].satisfied(x));
                                } else if k == p {
                                    assert(out@[p] == rows0[0]);
                                } else {
                                    assert(out@[p + 1] == rows0[1]);
                                }
                            }
                        }
                    }
                }
            } else {
                proof {
                    assert forall|x: Map<u32, int>| self.theory_box(x) implies (
                    #[trigger] sys_sat(out@, x) <==> self.rows_hold_before(
                        i as int + 1,
                        active,
                        x,
                    )) by {
                        assert(self.rows_hold_before(i as int + 1, active, x)
                            == self.rows_hold_before(i as int, active, x)) by {
                            if self.rows_hold_before(i as int, active, x) {
                                assert forall|i3: int|
                                    0 <= i3 < i + 1 && (#[trigger] self.statements@[i3]).expression
                                        is Some implies (if active {
                                    self.statements@[i3].expression->Some_0.value(x) >= 0
                                } else {
                                    self.full_rows_hold(i3, x)
                                }) by {
                                    assert(i3 != i);
                                }
                            }
                            if self.rows_hold_before(i as int + 1, active, x) {
                                assert forall|i3: int|
                                    0 <= i3 < i && (#[trigger] self.statements@[i3]).expression
                                        is Some implies (if active {
                                    self.statements@[i3].expression->Some_0.value(x) >= 0
                                } else {
                                    self.full_rows_hold(i3, x)
                                }) by {
                                    assert(0 <= i3 < i + 1);
                                }
                            }
                        }
                    }
                }
            }
            i += 1;
        }
        proof {
            assert(self.rows_exact(active, out@)) by {
                assert(self.n_expr() == self.n_expr_before(n as int));
            }
            assert forall|x: Map<u32, int>| self.theory_box(x) implies (#[trigger] sys_sat(
                out@,
                x,
            ) <==> self.rows_hold(active, x)) by {
                assert(sys_sat(out@, x) <==> self.rows_hold_before(n as int, active, x));
                if self.rows_hold_before(n as int, active, x) {
                    assert(self.rows_hold(active, x));
                }
                if self.rows_hold(active, x) {
                    assert(self.rows_hold_before(n as int, active, x));
                }
            }
        }
        out
    }

    /// Whether the theory stays within the compiler's caps: statement and
    /// operand counts, bound magnitudes, and bias magnitudes.
    pub fn is_bounded(&self) -> (r: bool)
        ensures
            r == self.bounded(),
    {
        let n = self.statements.len();
        if n > MAX_STMTS {
            return false;
        }
        let mut i: usize = 0;
        while i < n
            invariant
                n == self.statements@.len(),
                i <= n,
                forall|k: int|
                    0 <= k < i ==> {
                        let s = #[trigger] self.statements@[k];
                        &&& s.variable.wf()
                        &&& -MAX_THEORY_BOUND <= s.variable.bounds.0 <= MAX_THEORY_BOUND
                        &&& -MAX_THEORY_BOUND <= s.variable.bounds.1 <= MAX_THEORY_BOUND
                        &&& (s.expression is Some ==> {
                            &&& s.expression->Some_0.ids@.len() <= MAX_OPS
                            &&& -MAX_THEORY_BIAS <= s.expression->Some_0.bias <= MAX_THEORY_BIAS
                        })
                    },
            decreases n - i,
        {
            let (lo, hi) = self.statements[i].variable.bounds;
            if lo > hi || lo < -MAX_THEORY_BOUND || lo > MAX_THEORY_BOUND || hi < -MAX_THEORY_BOUND
                || hi > MAX_THEORY_BOUND {
                return false;
            }
            match &self.statements[i].expression {
                None => {},
                Some(e) => {
                    if e.ids.len() > MAX_OPS || e.bias < -MAX_THEORY_BIAS || e.bias
                        > MAX_THEORY_BIAS {
                        return false;
                    }
                },
            }
            i += 1;
        }
        true
    }

    /// Compiles the theory into one inequality system: the reification rows
    /// of every statement that carries an expression, in declaration order,
    /// merged to a fixpoint when `reduce` is set.  Rejects a theory whose
    /// statements register one variable id with two different bound
    /// intervals, reference an undefined operand, or depend on themselves.
    pub fn to_lineqs(&self, active: bool, reduce: bool) -> (r: Result<Vec<GeLineq>, TheoryError>)
        requires
            self.bounded(),
        ensures
            r is Ok <==> (self.consistent() && self.operands_defined() && !self.has_cycle()),
            r == Err::<Vec<GeLineq>, TheoryError>(TheoryError::ConflictingBounds)
                <==> !self.consistent(),
            r == Err::<Vec<GeLineq>, TheoryError>(TheoryError::UnknownOperand) <==> (
            self.consistent() && !self.operands_defined()),
            r == Err::<Vec<GeLineq>, TheoryError>(TheoryError::CyclicTheory) <==> (
            self.consistent() && self.operands_defined() && self.has_cycle()),
            match r {
                Ok(ls) => self.compiled_ok(active, reduce, ls@),
                Err(_) => true,
            },
    {
        let reg = match self.build_registry() {
            Ok(reg) => reg,
            Err(_) => {
                return Err(TheoryError::ConflictingBounds);
            },
        };
        if !self.operands_ok(&reg) {
            return Err(TheoryError::UnknownOperand);
        }
        if !self.check_acyclic() {
            return Err(TheoryError::CyclicTheory);
        }
        let out = self.emit_all(&reg, active);
        if reduce {
            let ghost base = out@;
            let rout = reduce_lineqs(out);
            proof {
                assert forall|x: Map<u32, int>| self.theory_box(x) implies #[trigger] sys_respects(
                    rout@,
                    x,
                ) by {
                    assert(sys_respects(base, x));
                }
                assert forall|x: Map<u32, int>| self.theory_box(x) implies (#[trigger] sys_sat(
                    rout@,
                    x,
                ) <==> self.rows_hold(active, x)) by {
                    assert(sys_respects(base, x));
                    assert(sys_sat(base, x) <==> self.rows_hold(active, x));
                }
            }
            Ok(rout)
        } else {
            Ok(out)
        }
    }

    /// Assembles the compiled inequalities into a dense polyhedron
    /// `a · x >= b`: one column per registered variable in first-seen order,
    /// one row per inequality, `b` the negated biases, and per-row
    /// provenance.
    pub fn to_ge_polyhedron(&self, active: bool, reduce: bool) -> (r: Result<
        Polyhedron,
        TheoryError,
    >)
        requires
            self.bounded(),
        ensures
            r is Ok <==> (self.consistent() && self.operands_defined() && !self.has_cycle()),
            r == Err::<Polyhedron, TheoryError>(TheoryError::ConflictingBounds)
                <==> !self.consistent(),
            r == Err::<Polyhedron, TheoryError>(TheoryError::UnknownOperand) <==> (
            self.consistent() && !self.operands_defined()),
            r == Err::<Polyhedron, TheoryError>(TheoryError::CyclicTheory) <==> (
            self.consistent() && self.operands_defined() && self.has_cycle()),
            match r {
                Ok(p) => self.polyhedron_ok(active, reduce, p),
                Err(_) => true,
            },
    {
        let ls = match self.to_lineqs(active, reduce) {
            Ok(ls) => ls,
            Err(e) => {
                return Err(e);
            },
        };
        let reg = match self.build_registry() {
            Ok(reg) => reg,
            Err(_) => {
                // unreachable: a successful compilation proves the bounds consistent
                proof {
                    assert(false);
                }
                return Err(TheoryError::ConflictingBounds);
            },
        };
        let nrows = ls.len();
        let ncols = reg.vars.len();
        let mut val: Vec<i64> = Vec::new();
        let mut b: Vec<i64> = Vec::new();
        let mut index: Vec<Option<u32>> = Vec::new();
        let mut row: usize = 0;
        while row < nrows
            invariant
                self.compiled_ok(active, reduce, ls@),
                nrows == ls@.len(),
                ncols == reg.vars@.len(),
                row <= nrows,
                val@.len() == row * ncols,
                b@.len() == row,
                index@.len() == row,
                forall|r2: int, c2: int|
                    0 <= r2 < row && 0 <= c2 < ncols ==> #[trigger] val@[r2 * ncols + c2] as int
                        == crate::lineq::coeff_of(ls@[r2], reg.vars@[c2].id),
                forall|r2: int| 0 <= r2 < row ==> (#[trigger] b@[r2]) as int == -ls@[r2].bias,
                forall|r2: int| 0 <= r2 < row ==> #[trigger] index@[r2] == ls@[r2].id,
            decreases nrows - row,
        {
            let ghost val0 = val@;
            let mut rowv: Vec<i64> = Vec::new();
            let mut c: usize = 0;
            while c < ncols
                invariant
                    self.compiled_ok(active, reduce, ls@),
                    nrows == ls@.len(),
                    ncols == reg.vars@.len(),
                    row < nrows,
                    c <= ncols,
                    rowv@.len() == c,
                    forall|c2: int|
                        0 <= c2 < c ==> (#[trigger] rowv@[c2]) as int == crate::lineq::coeff_of(
                            ls@[row as int],
                            reg.vars@[c2].id,
                        ),
                decreases ncols - c,
            {
                let coef = crate::lineq::coeff_lookup(&ls[row], reg.vars[c].id);
                rowv.push(coef);
                c += 1;
            }
            let ghost rowv0 = rowv@;
            val.append(&mut rowv);
            let bias = ls[row].bias;
            b.push(-bias);
            index.push(ls[row].id);
            proof {
                assert(val@ =~= val0 + rowv0);
                assert((row + 1) * ncols == row * ncols + ncols) by (nonlinear_arith);
                assert forall|r2: int, c2: int|
                    0 <= r2 < row + 1 && 0 <= c2 < ncols implies #[trigger] val@[r2 * ncols
                    + c2] as int == crate::lineq::coeff_of(ls@[r2], reg.vars@[c2].id) by {
                    if r2 < row {
                        assert(r2 * ncols + c2 < row * ncols) by (nonlinear_arith)
                            requires
                                0 <= r2 < row,
                                0 <= c2 < ncols,
                        ;
                        assert(val@[r2 * ncols + c2] == val0[r2 * ncols + c2]);
                    } else {
                        assert(r2 * ncols + c2 == val0.len() + c2);
                        assert(val@[r2 * ncols + c2] == rowv0[c2]);
                    }
                }
            }
            row += 1;
        }
        let mut variables: Vec<Variable> = Vec::new();
        let mut c2: usize = 0;
        while c2 < ncols
            invariant
                ncols == reg.vars@.len(),
                c2 <= ncols,
                variables@ =~= reg.vars@.subrange(0, c2 as int),
            decreases ncols - c2,
        {
            variables.push(reg.vars[c2]);
            c2 += 1;
        }
        proof {
            assert(variables@ =~= reg.vars@);
        }
        let p = Polyhedron { a: Matrix { val, nrows, ncols }, b, variables, index };
        proof {
            assert forall|c: int| 0 <= c < p.variables@.len() implies (
            #[trigger] p.variables@[c]).wf() by {
                assert(self.defines(reg.vars@[c].id));
                let j2 = choose|j2: int|
                    0 <= j2 < self.statements@.len()
                        && (#[trigger] self.statements@[j2]).variable.id == reg.vars@[c].id;
                assert(self.var_of(reg.vars@[c].id) == self.statements@[j2].variable);
                assert(self.statements@[j2].variable.wf());
            }
            assert(p.wf());
            assert forall|rr: int, cc: int|
                0 <= rr < ls@.len() && 0 <= cc < p.variables@.len() implies #[trigger] p.a.at(
                rr,
                cc,
            ) == crate::lineq::coeff_of(ls@[rr], p.variables@[cc].id) by {
                assert(p.a.at(rr, cc) == p.a.val@[rr * ncols + cc] as int);
            }
            assert(matrix_matches(p, ls@));
            assert(self.polyhedron_ok(active, reduce, p));
        }
        Ok(p)
    }

    /// Everything a successful polyhedron assembly guarantees.
    pub open spec fn polyhedron_ok(self, active: bool, reduce: bool, p: Polyhedron) -> bool {
        &&& p.wf()
        &&& p.distinct_var_ids()
        &&& forall|c: int|
            0 <= c < p.variables@.len() ==> {
                &&& self.defines((#[trigger] p.variables@[c]).id)
                &&& p.variables@[c].bounds == self.var_of(p.variables@[c].id).bounds
            }
        &&& forall|j: int|
            0 <= j < self.statements@.len() ==> exists|c: int|
                0 <= c < p.variables@.len() && (#[trigger] p.variables@[c]).id == (
                #[trigger] self.statements@[j]).variable.id
        &&& (self.stmt_ids_distinct() ==> p.variables@.len() == self.statements@.len()
            && forall|i: int|
            0 <= i < p.variables@.len() ==> #[trigger] p.variables@[i]
                == self.statements@[i].variable)
        &&& exists|ls: Seq<GeLineq>|
            #[trigger] self.compiled_ok(active, reduce, ls) && matrix_matches(p, ls)
    }

    /// Compiles the theory in full mode, then solves the polyhedron once per
    /// objective mapping, maximizing each over the integer points of the
    /// variable boxes, in input order.
    pub fn solve(&self, objectives: &Vec<Vec<(u32, i64)>>, reduce: bool) -> (r: Result<
        Vec<IntegerSolution>,
        TheoryError,
    >)
        requires
            self.bounded(),
        ensures
            r is Ok <==> (self.consistent() && self.operands_defined() && !self.has_cycle()),
            r == Err::<Vec<IntegerSolution>, TheoryError>(TheoryError::ConflictingBounds)
                <==> !self.consistent(),
            r == Err::<Vec<IntegerSolution>, TheoryError>(TheoryError::UnknownOperand) <==> (
            self.consistent() && !self.operands_defined()),
            r == Err::<Vec<IntegerSolution>, TheoryError>(TheoryError::CyclicTheory) <==> (
            self.consistent() && self.operands_defined() && self.has_cycle()),
            match r {
                Ok(sols) => {
                    &&& sols@.len() == objectives@.len()
                    &&& exists|p: Polyhedron|
                        {
                            &&& #[trigger] self.polyhedron_ok(false, reduce, p)
                            &&& forall|i: int|
                                0 <= i < sols@.len() ==> crate::solver::solution_ok(
                                    p,
                                    crate::solver::dense_objective(p, objectives@[i]@),
                                    #[trigger] sols@[i],
                                )
                        }
                },
                Err(_) => true,
            },
    {
        let p = match self.to_ge_polyhedron(false, reduce) {
            Ok(p) => p,
            Err(e) => {
                return Err(e);
            },
        };
        let sols = p.solve(objectives);
        Ok(sols)
    }
}

impl Theory {
    proof fn lemma_occ_sum_bounds(self, s: Seq<u32>, x: Map<u32, int>)
        requires
            forall|k: int| 0 <= k < s.len() ==> self.defines(#[trigger] s[k]),
            self.theory_box(x),
        ensures
            occ_sum(s, self.lo_map()) <= occ_sum(s, x) <= occ_sum(s, self.hi_map()),
        decreases s.len(),
    {
        if s.len() > 0 {
            let s0 = s.drop_last();
            assert forall|k: int| 0 <= k < s0.len() implies self.defines(#[trigger] s0[k]) by {
                assert(s0[k] == s[k]);
            }
            self.lemma_occ_sum_bounds(s0, x);
            let id = s.last();
            assert(self.defines(s[s.len() - 1]));
            let j2 = choose|j2: int|
                0 <= j2 < self.statements@.len() && (#[trigger] self.statements@[j2]).variable.id
                    == id;
            assert(self.var_of(id) == self.statements@[j2].variable);
            assert(x.contains_key(self.statements@[j2].variable.id));
            assert(self.lo_map()[id] <= x[id] <= self.hi_map()[id]);
        }
    }

    /// Reification correctness of full mode: for a statement whose variable
    /// ranges over zero and one, under any assignment within the theory's
    /// bounds, the emitted pair of inequalities holds exactly when the
    /// variable is one precisely when the expression's predicate holds.
    pub proof fn lemma_full_reification(self, i: int, x: Map<u32, int>)
        requires
            self.operands_defined(),
            self.theory_box(x),
            0 <= i < self.statements@.len(),
            self.statements@[i].expression is Some,
            self.statements@[i].variable.bounds == (0i64, 1i64),
        ensures
            self.full_rows_hold(i, x) <==> ((x[self.statements@[i].variable.id] == 1)
                <==> self.statements@[i].expression->Some_0.holds(x)),
    {
        let v = self.statements@[i].variable;
        let e = self.statements@[i].expression->Some_0;
        let m = self.expr_lo(e);
        let mm = self.expr_hi(e);
        assert forall|k: int| 0 <= k < e.ids@.len() implies self.defines(#[trigger] e.ids@[k]) by {
            assert(self.defines(self.statements@[i].expression->Some_0.ids@[k]));
        }
        self.lemma_occ_sum_bounds(e.ids@, x);
        assert(m <= e.value(x) <= mm);
        assert(x.contains_key(v.id));
        let xv = x[v.id];
        assert(0 <= xv <= 1);
        if xv == 0 {
            assert(m * 0 == 0) by (nonlinear_arith);
            assert((mm + 1) * 0 == 0) by (nonlinear_arith);
        } else {
            assert(m * 1 == m) by (nonlinear_arith);
            assert((mm + 1) * 1 == mm + 1) by (nonlinear_arith);
        }
    }
}

/// The assembled matrix presents exactly the compiled constraints: one row
/// per inequality holding its coefficient on each column's variable (zero
/// where a variable is absent), `b` its negated bias, and the provenance id.
pub open spec fn matrix_matches(p: Polyhedron, ls: Seq<GeLineq>) -> bool {
    &&& p.a.nrows == ls.len()
    &&& forall|r: int| 0 <= r < ls.len() ==> #[trigger] p.index@[r] == ls[r].id
    &&& forall|r: int| 0 <= r < ls.len() ==> (#[trigger] p.b@[r]) as int == -ls[r].bias
    &&& forall|r: int, c: int|
        0 <= r < ls.len() && 0 <= c < p.variables@.len() ==> #[trigger] p.a.at(r, c)
            == crate::lineq::coeff_of(ls[r], p.variables@[c].id)
}

} // verus!
