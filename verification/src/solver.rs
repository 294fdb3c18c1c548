//! Exact integer linear optimization over polyhedra with bounded variables.
//!
//! [`IntegerLinearProgram::solve`] maximizes a linear objective over the
//! integer points of a bound box that satisfy `a · x >= b` (and the optional
//! equality system), or proves that no such point exists.  Any exact method
//! is conforming; this one searches the finite box directly, which keeps the
//! optimality argument fully checkable.

use vstd::prelude::*;

use crate::variable::Variable;

verus! {

/// Most rows a solvable system may carry.
pub const MAX_ROWS: usize = 2000;

/// Most columns a solvable system may carry.
pub const MAX_COLS: usize = 1000;

/// Largest matrix or objective entry magnitude a solvable system may carry.
pub const MAX_ENTRY: i64 = 4_000_000_000;

/// Largest variable bound magnitude a solvable system may carry.
pub const MAX_VAR: i64 = 1_000_000;

/// A dense row-major matrix: `values.len() == rows * cols`.
#[verifier::ext_equal]
#[derive(Clone, Debug)]
pub struct Matrix {
    pub val: Vec<i64>,
    pub nrows: usize,
    pub ncols: usize,
}

/// The linear system `a · x >= b` over `variables`, one bound interval per
/// column, with per-row provenance back to the constraint that produced it.
#[verifier::ext_equal]
#[derive(Clone, Debug)]
pub struct Polyhedron {
    pub a: Matrix,
    pub b: Vec<i64>,
    pub variables: Vec<Variable>,
    pub index: Vec<Option<u32>>,
}

/// Outcome of one solve call.
#[derive(Clone, Copy, Debug, PartialEq, Eq, Structural)]
pub enum SolutionStatus {
    /// A finite optimum was found; assignment and objective value are valid.
    Optimal,
    /// No integer point in the box satisfies every constraint.
    Infeasible,
    /// The objective has no finite supremum; cannot arise from a bound box.
    Unbounded,
    /// Malformed input: mismatched dimensions or entries beyond the caps.
    Error,
}

/// An integer assignment in column order together with its objective value.
#[derive(Clone, Debug)]
pub struct IntegerSolution {
    pub x: Vec<i64>,
    pub z: i64,
    pub status: SolutionStatus,
}

/// Inequality system, equality system, and objective, sharing column order.
#[derive(Clone, Debug)]
pub struct IntegerLinearProgram {
    pub ge_ph: Polyhedron,
    pub eq_ph: Polyhedron,
    pub of: Vec<i64>,
}

/// The integer views of the entries of `s`.
pub open spec fn to_ints(s: Seq<i64>) -> Seq<int> {
    s.map_values(|v: i64| v as int)
}

/// Dot product of the first `n` positions of `a` and `x`.
pub open spec fn dot_prefix(a: Seq<int>, x: Seq<int>, n: int) -> int
    decreases n,
{
    if n <= 0 {
        0
    } else {
        dot_prefix(a, x, n - 1) + a[n - 1] * x[n - 1]
    }
}

/// Dot product of `a` and `x` (read over `a`'s length).
pub open spec fn dot(a: Seq<int>, x: Seq<int>) -> int {
    dot_prefix(a, x, a.len() as int)
}

impl Matrix {
    pub open spec fn wf(self) -> bool {
        self.val@.len() == self.nrows * self.ncols
    }

    /// Entry at row `r`, column `c`.
    pub open spec fn at(self, r: int, c: int) -> int {
        self.val@[r * self.ncols + c] as int
    }

    /// Row `r` as a sequence of integers.
    pub open spec fn row(self, r: int) -> Seq<int> {
        Seq::new(self.ncols as nat, |c: int| self.at(r, c))
    }

    pub open spec fn entries_capped(self) -> bool {
        forall|k: int| 0 <= k < self.val@.len() ==> -MAX_ENTRY <= #[trigger] self.val@[k] <= MAX_ENTRY
    }
}

impl Polyhedron {
    pub open spec fn wf(self) -> bool {
        &&& self.a.wf()
        &&& self.b@.len() == self.a.nrows
        &&& self.variables@.len() == self.a.ncols
        &&& self.index@.len() == self.a.nrows
        &&& forall|c: int| 0 <= c < self.variables@.len() ==> (#[trigger] self.variables@[c]).wf()
    }

    /// Value of row `r`'s left-hand side under the assignment `x`.
    pub open spec fn row_val(self, r: int, x: Seq<int>) -> int {
        dot(self.a.row(r), x)
    }

    /// Every inequality row holds: `a · x >= b`.
    pub open spec fn sat_ge(self, x: Seq<int>) -> bool {
        forall|r: int| 0 <= r < self.a.nrows ==> self.row_val(r, x) >= self.b@[r]
    }

    /// Every row holds with equality: `a · x == b`.
    pub open spec fn sat_eq(self, x: Seq<int>) -> bool {
        forall|r: int| 0 <= r < self.a.nrows ==> self.row_val(r, x) == self.b@[r]
    }

    /// `x` assigns each column an integer within its declared bounds.
    pub open spec fn in_box(self, x: Seq<int>) -> bool {
        &&& x.len() == self.a.ncols
        &&& forall|c: int|
            0 <= c < x.len() ==> (#[trigger] self.variables@[c]).bounds.0 <= x[c]
                <= self.variables@[c].bounds.1
    }

    pub open spec fn vars_capped(self) -> bool {
        forall|c: int|
            0 <= c < self.variables@.len() ==> {
                &&& -MAX_VAR <= (#[trigger] self.variables@[c]).bounds.0 <= MAX_VAR
                &&& -MAX_VAR <= self.variables@[c].bounds.1 <= MAX_VAR
            }
    }
}

impl IntegerLinearProgram {
    /// The input shape on which the solver does its work; anything else is
    /// answered with the `Error` status.  Dimensions must agree, the
    /// equality system must share the column order or be empty, and sizes
    /// and magnitudes must stay within the caps that keep every intermediate
    /// product and sum within machine range.
    pub open spec fn admissible(self) -> bool {
        &&& self.ge_ph.wf()
        &&& self.eq_ph.wf()
        &&& self.of@.len() == self.ge_ph.a.ncols
        &&& self.ge_ph.a.nrows <= MAX_ROWS
        &&& self.ge_ph.a.ncols <= MAX_COLS
        &&& self.eq_ph.a.nrows <= MAX_ROWS
        &&& self.eq_ph.a.ncols <= MAX_COLS
        &&& (self.eq_ph.a.nrows == 0 || self.eq_ph.a.ncols == self.ge_ph.a.ncols)
        &&& self.ge_ph.a.entries_capped()
        &&& self.eq_ph.a.entries_capped()
        &&& forall|k: int| 0 <= k < self.of@.len() ==> -MAX_ENTRY <= #[trigger] self.of@[k] <= MAX_ENTRY
        &&& self.ge_ph.vars_capped()
        &&& self.eq_ph.vars_capped()
    }

    /// `x` satisfies every inequality and every equality row.
    pub open spec fn feasible(self, x: Seq<int>) -> bool {
        self.ge_ph.sat_ge(x) && self.eq_ph.sat_eq(x)
    }

    /// The objective value of `x`.
    pub open spec fn objective(self, x: Seq<int>) -> int {
        dot(to_ints(self.of@), x)
    }

    /// `w` extends the partial assignment `p` to all columns, keeping every
    /// remaining column within its declared bounds.
    pub open spec fn completes(self, p: Seq<i64>, w: Seq<int>) -> bool {
        &&& w.len() == self.ge_ph.a.ncols
        &&& forall|k: int| 0 <= k < p.len() ==> w[k] == #[trigger] p[k] as int
        &&& forall|k: int|
            p.len() <= k < w.len() ==> self.ge_ph.variables@[k].bounds.0 <= #[trigger] w[k]
                <= self.ge_ph.variables@[k].bounds.1
    }
}

fn entries_capped_exec(v: &Vec<i64>, cap: i64) -> (r: bool)
    requires
        cap >= 0,
    ensures
        r == forall|k: int| 0 <= k < v@.len() ==> -cap <= #[trigger] v@[k] <= cap,
{
    let n = v.len();
    let mut i: usize = 0;
    while i < n
        invariant
            cap >= 0,
            n == v@.len(),
            i <= n,
            forall|k: int| 0 <= k < i ==> -cap <= #[trigger] v@[k] <= cap,
        decreases n - i,
    {
        if v[i] < -cap || v[i] > cap {
            return false;
        }
        i += 1;
    }
    true
}

fn check_polyhedron(p: &Polyhedron) -> (r: bool)
    ensures
        r == (p.wf() && p.a.nrows <= MAX_ROWS && p.a.ncols <= MAX_COLS && p.a.entries_capped()
            && p.vars_capped()),
{
    if p.a.nrows > MAX_ROWS || p.a.ncols > MAX_COLS {
        return false;
    }
    proof {
        assert(p.a.nrows * p.a.ncols <= 2_000_000) by (nonlinear_arith)
            requires
                p.a.nrows <= 2000,
                p.a.ncols <= 1000,
        ;
    }
    if p.a.val.len() != p.a.nrows * p.a.ncols {
        return false;
    }
    if p.b.len() != p.a.nrows || p.variables.len() != p.a.ncols || p.index.len() != p.a.nrows {
        return false;
    }
    if !entries_capped_exec(&p.a.val, MAX_ENTRY) {
        return false;
    }
    let n = p.variables.len();
    let mut c: usize = 0;
    while c < n
        invariant
            n == p.variables@.len(),
            c <= n,
            forall|k: int|
                0 <= k < c ==> {
                    &&& (#[trigger] p.variables@[k]).wf()
                    &&& -MAX_VAR <= p.variables@[k].bounds.0 <= MAX_VAR
                    &&& -MAX_VAR <= p.variables@[k].bounds.1 <= MAX_VAR
                },
        decreases n - c,
    {
        let (lo, hi) = p.variables[c].bounds;
        if lo > hi || lo < -MAX_VAR || lo > MAX_VAR || hi < -MAX_VAR || hi > MAX_VAR {
            return false;
        }
        c += 1;
    }
    true
}

fn row_dot(m: &Matrix, r: usize, x: &Vec<i64>) -> (res: i64)
    requires
        m.wf(),
        m.entries_capped(),
        r < m.nrows,
        m.nrows <= MAX_ROWS,
        m.ncols <= MAX_COLS,
        x@.len() == m.ncols,
        forall|k: int| 0 <= k < x@.len() ==> -MAX_VAR <= #[trigger] x@[k] <= MAX_VAR,
    ensures
        res as int == dot(m.row(r as int), to_ints(x@)),
        -4_000_000_000_000_000_000 <= res <= 4_000_000_000_000_000_000,
{
    let n = m.ncols;
    proof {
        assert(r * n + n <= m.nrows * n) by (nonlinear_arith)
            requires
                r < m.nrows,
        ;
        assert(r * n <= 2_000_000) by (nonlinear_arith)
            requires
                r < m.nrows,
                m.nrows <= 2000,
                n <= 1000,
        ;
    }
    let base: usize = r * n;
    let mut acc: i64 = 0;
    let mut c: usize = 0;
    while c < n
        invariant
            m.wf(),
            m.entries_capped(),
            n == m.ncols,
            base == r * n,
            base + n <= m.val@.len(),
            base <= 2_000_000,
            c <= n,
            n <= 1000,
            x@.len() == n,
            forall|k: int| 0 <= k < x@.len() ==> -MAX_VAR <= #[trigger] x@[k] <= MAX_VAR,
            acc as int == dot_prefix(m.row(r as int), to_ints(x@), c as int),
            -(c as int) * 4_000_000_000_000_000 <= acc as int <= (c as int)
                * 4_000_000_000_000_000,
        decreases n - c,
    {
        let e = m.val[base + c];
        let xv = x[c];
        proof {
            assert(-4_000_000_000_000_000 <= e * xv <= 4_000_000_000_000_000)
                by (nonlinear_arith)
                requires
                    -MAX_ENTRY <= e <= MAX_ENTRY,
                    -MAX_VAR <= xv <= MAX_VAR,
            ;
            assert(m.row(r as int)[c as int] == m.at(r as int, c as int));
            assert(to_ints(x@)[c as int] == x@[c as int] as int);
        }
        acc = acc + e * xv;
        c += 1;
    }
    acc
}

impl IntegerLinearProgram {
    fn check_admissible(&self) -> (r: bool)
        ensures
            r == self.admissible(),
    {
        if !check_polyhedron(&self.ge_ph) || !check_polyhedron(&self.eq_ph) {
            return false;
        }
        if self.of.len() != self.ge_ph.a.ncols {
            return false;
        }
        if self.eq_ph.a.nrows != 0 && self.eq_ph.a.ncols != self.ge_ph.a.ncols {
            return false;
        }
        entries_capped_exec(&self.of, MAX_ENTRY)
    }

    fn check_feasible(&self, x: &Vec<i64>) -> (r: bool)
        requires
            self.admissible(),
            x@.len() == self.ge_ph.a.ncols,
            forall|k: int| 0 <= k < x@.len() ==> -MAX_VAR <= #[trigger] x@[k] <= MAX_VAR,
        ensures
            r == self.feasible(to_ints(x@)),
    {
        let gn = self.ge_ph.a.nrows;
        let mut row: usize = 0;
        while row < gn
            invariant
                self.admissible(),
                x@.len() == self.ge_ph.a.ncols,
                forall|k: int| 0 <= k < x@.len() ==> -MAX_VAR <= #[trigger] x@[k] <= MAX_VAR,
                gn == self.ge_ph.a.nrows,
                row <= gn,
                forall|q: int| 0 <= q < row ==> self.ge_ph.row_val(q, to_ints(x@)) >= self.ge_ph.b@[q],
            decreases gn - row,
        {
            let v = row_dot(&self.ge_ph.a, row, x);
            if v < self.ge_ph.b[row] {
                proof {
                    assert(self.ge_ph.row_val(row as int, to_ints(x@)) < self.ge_ph.b@[row as int]);
                }
                return false;
            }
            row += 1;
        }
        let en = self.eq_ph.a.nrows;
        let mut erow: usize = 0;
        while erow < en
            invariant
                self.admissible(),
                x@.len() == self.ge_ph.a.ncols,
                forall|k: int| 0 <= k < x@.len() ==> -MAX_VAR <= #[trigger] x@[k] <= MAX_VAR,
                en == self.eq_ph.a.nrows,
                en > 0 ==> self.eq_ph.a.ncols == self.ge_ph.a.ncols,
                erow <= en,
                self.ge_ph.sat_ge(to_ints(x@)),
                forall|q: int| 0 <= q < erow ==> self.eq_ph.row_val(q, to_ints(x@)) == self.eq_ph.b@[q],
            decreases en - erow,
        {
            let v = row_dot(&self.eq_ph.a, erow, x);
            if v != self.eq_ph.b[erow] {
                proof {
                    assert(self.eq_ph.row_val(erow as int, to_ints(x@)) != self.eq_ph.b@[erow as int]);
                }
                return false;
            }
            erow += 1;
        }
        true
    }

    fn eval_objective(&self, x: &Vec<i64>) -> (res: i64)
        requires
            self.admissible(),
            x@.len() == self.ge_ph.a.ncols,
            forall|k: int| 0 <= k < x@.len() ==> -MAX_VAR <= #[trigger] x@[k] <= MAX_VAR,
        ensures
            res as int == self.objective(to_ints(x@)),
    {
        let n = self.of.len();
        let mut acc: i64 = 0;
        let mut c: usize = 0;
        while c < n
            invariant
                self.admissible(),
                n == self.of@.len(),
                x@.len() == n,
                forall|k: int| 0 <= k < x@.len() ==> -MAX_VAR <= #[trigger] x@[k] <= MAX_VAR,
                c <= n,
                n <= 1000,
                acc as int == dot_prefix(to_ints(self.of@), to_ints(x@), c as int),
                -(c as int) * 4_000_000_000_000_000 <= acc as int <= (c as int)
                    * 4_000_000_000_000_000,
            decreases n - c,
        {
            let e = self.of[c];
            let xv = x[c];
            proof {
                assert(-4_000_000_000_000_000 <= e * xv <= 4_000_000_000_000_000)
                    by (nonlinear_arith)
                    requires
                        -MAX_ENTRY <= e <= MAX_ENTRY,
                        -MAX_VAR <= xv <= MAX_VAR,
                ;
                assert(to_ints(self.of@)[c as int] == self.of@[c as int] as int);
                assert(to_ints(x@)[c as int] == x@[c as int] as int);
            }
            acc = acc + e * xv;
            c += 1;
        }
        acc
    }

    /// Best feasible completion of `prefix`: the assignment extending
    /// `prefix` over the remaining columns' boxes that satisfies every
    /// constraint and maximizes the objective, or `None` when no completion
    /// is feasible.
    fn best_completion(&self, prefix: Vec<i64>) -> (r: Option<(Vec<i64>, i64)>)
        requires
            self.admissible(),
            prefix@.len() <= self.ge_ph.a.ncols,
            forall|k: int|
                0 <= k < prefix@.len() ==> self.ge_ph.variables@[k].bounds.0 <= #[trigger] prefix@[k]
                    <= self.ge_ph.variables@[k].bounds.1,
        ensures
            match r {
                Some(pair) => {
                    &&& self.completes(prefix@, to_ints(pair.0@))
                    &&& self.feasible(to_ints(pair.0@))
                    &&& pair.1 as int == self.objective(to_ints(pair.0@))
                    &&& forall|w: Seq<int>|
                        self.completes(prefix@, w) && self.feasible(w) ==> self.objective(w)
                            <= pair.1 as int
                },
                None => forall|w: Seq<int>| self.completes(prefix@, w) ==> !self.feasible(w),
            },
        decreases self.ge_ph.a.ncols - prefix@.len(),
    {
        if prefix.len() == self.ge_ph.a.ncols {
            proof {
                assert forall|k: int| 0 <= k < prefix@.len() implies -MAX_VAR <= #[trigger] prefix@[k]
                    <= MAX_VAR by {
                    assert(self.ge_ph.variables@[k].wf());
                }
                assert forall|w: Seq<int>| self.completes(prefix@, w) implies w =~= to_ints(
                    prefix@,
                ) by {
                    assert forall|k: int| 0 <= k < w.len() implies w[k] == to_ints(prefix@)[k] by {
                        assert(w[k] == prefix@[k] as int);
                    }
                }
                assert(self.completes(prefix@, to_ints(prefix@)));
            }
            if self.check_feasible(&prefix) {
                let z = self.eval_objective(&prefix);
                Some((prefix, z))
            } else {
                None
            }
        } else {
            let c = prefix.len();
            let (lo, hi) = self.ge_ph.variables[c].bounds;
            let mut v = lo;
            let mut best: Option<(Vec<i64>, i64)> = None;
            while v <= hi
                invariant
                    self.admissible(),
                    c == prefix@.len(),
                    c < self.ge_ph.a.ncols,
                    forall|k: int|
                        0 <= k < prefix@.len() ==> self.ge_ph.variables@[k].bounds.0
                            <= #[trigger] prefix@[k] <= self.ge_ph.variables@[k].bounds.1,
                    lo == self.ge_ph.variables@[c as int].bounds.0,
                    hi == self.ge_ph.variables@[c as int].bounds.1,
                    -MAX_VAR <= lo,
                    hi <= MAX_VAR,
                    lo <= v,
                    v <= hi + 1,
                    match best {
                        None => forall|w: Seq<int>|
                            self.completes(prefix@, w) && w[c as int] < v ==> !self.feasible(w),
                        Some(pair) => {
                            &&& self.completes(prefix@, to_ints(pair.0@))
                            &&& to_ints(pair.0@)[c as int] < v as int
                            &&& self.feasible(to_ints(pair.0@))
                            &&& pair.1 as int == self.objective(to_ints(pair.0@))
                            &&& forall|w: Seq<int>|
                                self.completes(prefix@, w) && self.feasible(w) && w[c as int]
                                    < v ==> self.objective(w) <= pair.1 as int
                        },
                    },
                decreases hi + 1 - v,
            {
                let mut p2 = prefix.clone();
                p2.push(v);
                let ghost p2s = p2@;
                proof {
                    assert(p2s =~= prefix@.push(v));
                    assert forall|w: Seq<int>|
                        self.completes(p2s, w) implies (self.completes(prefix@, w) && w[c as int]
                        == v as int) by {
                        assert forall|k: int| 0 <= k < prefix@.len() implies w[k]
                            == #[trigger] prefix@[k] as int by {
                            assert(w[k] == p2s[k] as int);
                        }
                        assert(w[c as int] == p2s[c as int] as int);
                        assert forall|k: int|
                            prefix@.len() <= k < w.len() implies self.ge_ph.variables@[k].bounds.0
                            <= #[trigger] w[k] <= self.ge_ph.variables@[k].bounds.1 by {
                            if k == c {
                                assert(w[k] == v as int);
                            }
                        }
                    }
                    assert forall|w: Seq<int>|
                        self.completes(prefix@, w) && w[c as int] == v as int implies self.completes(
                        p2s,
                        w,
                    ) by {
                        assert forall|k: int| 0 <= k < p2s.len() implies w[k]
                            == #[trigger] p2s[k] as int by {
                            if k < c {
                                assert(w[k] == prefix@[k] as int);
                                assert(p2s[k] == prefix@[k]);
                            } else {
                                assert(k == c);
                                assert(p2s[k] == v);
                            }
                        }
                    }
                }
                let cand = self.best_completion(p2);
                match cand {
                    None => {},
                    Some(p) => {
                        match best {
                            None => {
                                best = Some(p);
                            },
                            Some(b) => {
                                if p.1 > b.1 {
                                    best = Some(p);
                                } else {
                                    best = Some(b);
                                }
                            },
                        }
                    },
                }
                v = v + 1;
            }
            proof {
                assert(v as int == hi as int + 1);
                assert forall|w: Seq<int>| self.completes(prefix@, w) implies w[c as int]
                    < v as int by {
                    assert(w[c as int] <= hi as int);
                }
            }
            best
        }
    }

    /// Maximizes the objective over the integer points of the bound box that
    /// satisfy every inequality and equality row.  Returns `Error` exactly
    /// on inadmissible input, `Optimal` with a maximizing assignment exactly
    /// when an integer point of the box is feasible, and `Infeasible`
    /// exactly when none is.  A bound box is finite, so `Unbounded` cannot
    /// arise.
    pub fn solve(&self) -> (sol: IntegerSolution)
        ensures
            (sol.status == SolutionStatus::Error) <==> !self.admissible(),
            self.admissible() ==> (sol.status == SolutionStatus::Optimal || sol.status
                == SolutionStatus::Infeasible),
            sol.status == SolutionStatus::Optimal ==> {
                &&& self.ge_ph.in_box(to_ints(sol.x@))
                &&& self.feasible(to_ints(sol.x@))
                &&& sol.z as int == self.objective(to_ints(sol.x@))
                &&& forall|w: Seq<int>|
                    self.ge_ph.in_box(w) && self.feasible(w) ==> self.objective(w) <= sol.z as int
            },
            sol.status == SolutionStatus::Infeasible ==> {
                &&& forall|w: Seq<int>| self.ge_ph.in_box(w) ==> !self.feasible(w)
                &&& sol.x@.len() == 0
                &&& sol.z == 0
            },
            sol.status == SolutionStatus::Error ==> sol.x@.len() == 0 && sol.z == 0,
    {
        if !self.check_admissible() {
            return IntegerSolution { x: Vec::new(), z: 0, status: SolutionStatus::Error };
        }
        let start: Vec<i64> = Vec::new();
        proof {
            assert forall|w: Seq<int>| self.ge_ph.in_box(w) <==> self.completes(start@, w) by {
            }
        }
        match self.best_completion(start) {
            Some((y, z)) => IntegerSolution { x: y, z, status: SolutionStatus::Optimal },
            None => IntegerSolution { x: Vec::new(), z: 0, status: SolutionStatus::Infeasible },
        }
    }
}

/// The coefficient the id-to-coefficient mapping `obj` assigns to `id`:
/// that of its last pair carrying `id`, or zero when none does.
pub open spec fn last_coef(obj: Seq<(u32, i64)>, id: u32) -> int
    decreases obj.len(),
{
    if obj.len() == 0 {
        0
    } else if obj.last().0 == id {
        obj.last().1 as int
    } else {
        last_coef(obj.drop_last(), id)
    }
}

/// The mapping `obj` laid out densely over `p`'s column order; ids absent
/// from the mapping default to zero, ids absent from `p` are ignored.
pub open spec fn dense_objective(p: Polyhedron, obj: Seq<(u32, i64)>) -> Seq<int> {
    Seq::new(p.a.ncols as nat, |c: int| last_coef(obj, p.variables@[c].id))
}

/// The shape on which a polyhedron can be solved against an objective:
/// within the solver's caps, with the objective aligned to the columns.
pub open spec fn ge_solvable(p: Polyhedron, ob: Seq<int>) -> bool {
    &&& p.wf()
    &&& p.a.nrows <= MAX_ROWS
    &&& p.a.ncols <= MAX_COLS
    &&& p.a.entries_capped()
    &&& p.vars_capped()
    &&& ob.len() == p.a.ncols
    &&& forall|k: int| 0 <= k < ob.len() ==> -MAX_ENTRY <= #[trigger] ob[k] <= MAX_ENTRY
}

/// Two polyhedra carry the same system: equal matrices, right-hand sides,
/// variables, and provenance.
pub open spec fn same_system(p: Polyhedron, q: Polyhedron) -> bool {
    &&& p.a.val@ == q.a.val@
    &&& p.a.nrows == q.a.nrows
    &&& p.a.ncols == q.a.ncols
    &&& p.b@ == q.b@
    &&& p.variables@ == q.variables@
    &&& p.index@ == q.index@
}

proof fn lemma_same_system(p: Polyhedron, q: Polyhedron)
    requires
        same_system(p, q),
    ensures
        p.wf() == q.wf(),
        p.a.entries_capped() == q.a.entries_capped(),
        p.vars_capped() == q.vars_capped(),
        p.distinct_var_ids() == q.distinct_var_ids(),
        forall|w: Seq<int>| p.in_box(w) == q.in_box(w),
        forall|w: Seq<int>| p.sat_ge(w) == q.sat_ge(w),
        forall|obj: Seq<(u32, i64)>| dense_objective(p, obj) == dense_objective(q, obj),
        forall|ob: Seq<int>| ge_solvable(p, ob) == ge_solvable(q, ob),
{
    assert forall|r: int, w: Seq<int>| p.row_val(r, w) == q.row_val(r, w) by {
        assert(p.a.row(r) =~= q.a.row(r));
    }
    assert forall|w: Seq<int>| p.sat_ge(w) == q.sat_ge(w) by {
        if p.sat_ge(w) {
            assert forall|r: int| 0 <= r < q.a.nrows implies q.row_val(r, w) >= q.b@[r] by {
                assert(p.row_val(r, w) >= p.b@[r]);
            }
        }
        if q.sat_ge(w) {
            assert forall|r: int| 0 <= r < p.a.nrows implies p.row_val(r, w) >= p.b@[r] by {
                assert(q.row_val(r, w) >= q.b@[r]);
            }
        }
    }
    assert forall|obj: Seq<(u32, i64)>| dense_objective(p, obj) == dense_objective(q, obj) by {
        assert(dense_objective(p, obj) =~= dense_objective(q, obj));
    }
}

/// What one batch solution states: never `Unbounded`; `Optimal` exactly with
/// a maximizing feasible point of the box; `Infeasible` only when no point
/// of the box satisfies the system; `Error` exactly on unsolvable shape.
pub open spec fn solution_ok(p: Polyhedron, ob: Seq<int>, s: IntegerSolution) -> bool {
    &&& s.status != SolutionStatus::Unbounded
    &&& (s.status == SolutionStatus::Error) <==> !ge_solvable(p, ob)
    &&& (s.status == SolutionStatus::Optimal ==> {
        &&& p.in_box(to_ints(s.x@))
        &&& p.sat_ge(to_ints(s.x@))
        &&& s.z as int == dot(ob, to_ints(s.x@))
        &&& forall|w: Seq<int>| p.in_box(w) && p.sat_ge(w) ==> dot(ob, w) <= s.z as int
    })
    &&& (s.status == SolutionStatus::Infeasible ==> forall|w: Seq<int>|
        p.in_box(w) ==> !p.sat_ge(w))
}

fn copy_vec<T: Copy>(v: &Vec<T>) -> (r: Vec<T>)
    ensures
        r@ =~= v@,
{
    let n = v.len();
    let mut r: Vec<T> = Vec::new();
    let mut i: usize = 0;
    while i < n
        invariant
            n == v@.len(),
            i <= n,
            r@ =~= v@.subrange(0, i as int),
        decreases n - i,
    {
        r.push(v[i]);
        i += 1;
    }
    proof {
        assert(v@.subrange(0, n as int) =~= v@);
    }
    r
}

impl Polyhedron {
    /// A system with no rows and no columns.
    pub fn empty() -> (p: Polyhedron)
        ensures
            p.wf(),
            p.a.nrows == 0,
            p.a.ncols == 0,
            p.a.entries_capped(),
            p.vars_capped(),
    {
        Polyhedron {
            a: Matrix { val: Vec::new(), nrows: 0, ncols: 0 },
            b: Vec::new(),
            variables: Vec::new(),
            index: Vec::new(),
        }
    }

    /// No two columns carry the same variable id.
    pub open spec fn distinct_var_ids(self) -> bool {
        forall|c1: int, c2: int|
            0 <= c1 < c2 < self.variables@.len() ==> self.variables@[c1].id
                != self.variables@[c2].id
    }

    /// An exact copy of the system's content.
    pub fn duplicate(&self) -> (r: Polyhedron)
        ensures
            same_system(r, *self),
    {
        Polyhedron {
            a: Matrix {
                val: copy_vec(&self.a.val),
                nrows: self.a.nrows,
                ncols: self.a.ncols,
            },
            b: copy_vec(&self.b),
            variables: copy_vec(&self.variables),
            index: copy_vec(&self.index),
        }
    }

    /// Lays the mapping out densely over the column order; when an id has
    /// several pairs the last one wins, as if assigned in order.
    fn build_objective(&self, obj: &Vec<(u32, i64)>) -> (of: Vec<i64>)
        requires
            self.wf(),
        ensures
            of@.len() == self.a.ncols,
            self.distinct_var_ids() ==> to_ints(of@) =~= dense_objective(*self, obj@),
    {
        let ncols = self.variables.len();
        let mut of: Vec<i64> = Vec::new();
        let mut z: usize = 0;
        while z < ncols
            invariant
                of@.len() == z,
                z <= ncols,
                forall|c: int| 0 <= c < z ==> #[trigger] of@[c] == 0,
            decreases ncols - z,
        {
            of.push(0);
            z += 1;
        }
        proof {
            assert forall|c: int| 0 <= c < ncols implies of@[c] as int == last_coef(
                obj@.subrange(0, 0),
                self.variables@[c].id,
            ) by {
                assert(obj@.subrange(0, 0) =~= Seq::<(u32, i64)>::empty());
            }
        }
        let np = obj.len();
        let mut t: usize = 0;
        while t < np
            invariant
                self.wf(),
                ncols == self.variables@.len(),
                of@.len() == ncols,
                np == obj@.len(),
                t <= np,
                self.distinct_var_ids() ==> forall|c: int|
                    0 <= c < ncols ==> (#[trigger] of@[c]) as int == last_coef(
                        obj@.subrange(0, t as int),
                        self.variables@[c].id,
                    ),
            decreases np - t,
        {
            let (key, value) = obj[t];
            let ghost pre = obj@.subrange(0, t as int);
            let ghost post = obj@.subrange(0, t as int + 1);
            proof {
                assert(post.drop_last() =~= pre);
                assert(post.last() == obj@[t as int]);
            }
            let mut c: usize = 0;
            let mut found = false;
            while c < ncols && !found
                invariant
                    self.wf(),
                    ncols == self.variables@.len(),
                    c <= ncols,
                    !found ==> forall|c2: int| 0 <= c2 < c ==> self.variables@[c2].id != key,
                    found ==> c < ncols && self.variables@[c as int].id == key,
                decreases ncols - c + if found {
                    0int
                } else {
                    1int
                },
            {
                if self.variables[c].id == key {
                    found = true;
                } else {
                    c += 1;
                }
            }
            if found {
                of.set(c, value);
            }
            proof {
                if self.distinct_var_ids() {
                    assert forall|c2: int| 0 <= c2 < ncols implies (#[trigger] of@[c2]) as int
                        == last_coef(post, self.variables@[c2].id) by {
                        if found {
                            if c2 == c as int {
                                assert(post.last().0 == self.variables@[c2].id);
                            } else {
                                assert(self.variables@[c2].id != key);
                            }
                        } else {
                            assert(self.variables@[c2].id != key);
                        }
                    }
                }
            }
            t += 1;
        }
        proof {
            assert(obj@.subrange(0, np as int) =~= obj@);
            if self.distinct_var_ids() {
                assert forall|c: int| 0 <= c < ncols implies to_ints(of@)[c] == dense_objective(
                    *self,
                    obj@,
                )[c] by {
                    assert(to_ints(of@)[c] == of@[c] as int);
                }
            }
        }
        of
    }

    /// Solves the system once per objective mapping, maximizing each over
    /// the integer points of the bound box, with no equality constraints.
    pub fn solve(&self, objectives: &Vec<Vec<(u32, i64)>>) -> (sols: Vec<IntegerSolution>)
        requires
            self.wf(),
        ensures
            sols@.len() == objectives@.len(),
            self.distinct_var_ids() ==> forall|i: int|
                0 <= i < sols@.len() ==> solution_ok(
                    *self,
                    dense_objective(*self, objectives@[i]@),
                    #[trigger] sols@[i],
                ),
    {
        let mut ilp = IntegerLinearProgram {
            ge_ph: self.duplicate(),
            eq_ph: Polyhedron::empty(),
            of: Vec::new(),
        };
        let n = objectives.len();
        let mut sols: Vec<IntegerSolution> = Vec::new();
        let mut i: usize = 0;
        while i < n
            invariant
                self.wf(),
                n == objectives@.len(),
                i <= n,
                sols@.len() == i,
                same_system(ilp.ge_ph, *self),
                ilp.eq_ph.wf(),
                ilp.eq_ph.a.nrows == 0,
                ilp.eq_ph.a.ncols == 0,
                ilp.eq_ph.a.entries_capped(),
                ilp.eq_ph.vars_capped(),
                self.distinct_var_ids() ==> forall|q: int|
                    0 <= q < i ==> solution_ok(
                        *self,
                        dense_objective(*self, objectives@[q]@),
                        #[trigger] sols@[q],
                    ),
            decreases n - i,
        {
            let of = self.build_objective(&objectives[i]);
            ilp.of = of;
            let s = ilp.solve();
            proof {
                if self.distinct_var_ids() {
                    lemma_same_system(ilp.ge_ph, *self);
                    let ob = dense_objective(*self, objectives@[i as int]@);
                    assert(dense_objective(ilp.ge_ph, objectives@[i as int]@) == ob);
                    assert(to_ints(ilp.of@) =~= dense_objective(ilp.ge_ph, objectives@[i as int]@));
                    assert(to_ints(ilp.of@) == ob);
                    assert(ilp.admissible() == ge_solvable(*self, ob)) by {
                        assert(ilp.of@.len() == ob.len());
                        assert forall|k: int| 0 <= k < ilp.of@.len() implies (
                        -MAX_ENTRY <= #[trigger] ilp.of@[k] <= MAX_ENTRY) == (-MAX_ENTRY <= ob[k]
                            <= MAX_ENTRY) by {
                            assert(ob[k] == ilp.of@[k] as int);
                        }
                    }
                    assert forall|w: Seq<int>| ilp.feasible(w) <==> self.sat_ge(w) by {
                        assert(ilp.eq_ph.sat_eq(w));
                        assert(ilp.ge_ph.sat_ge(w) == self.sat_ge(w));
                    }
                    assert(solution_ok(*self, ob, s)) by {
                        if s.status == SolutionStatus::Optimal {
                            assert(self.in_box(to_ints(s.x@)));
                            assert(self.sat_ge(to_ints(s.x@)));
                            assert(s.z as int == dot(ob, to_ints(s.x@)));
                            assert forall|w: Seq<int>|
                                self.in_box(w) && self.sat_ge(w) implies dot(ob, w)
                                <= s.z as int by {
                                assert(ilp.ge_ph.in_box(w) && ilp.feasible(w));
                                assert(ilp.objective(w) <= s.z as int);
                            }
                        }
                        if s.status == SolutionStatus::Infeasible {
                            assert forall|w: Seq<int>| self.in_box(w) implies !self.sat_ge(w) by {
                                assert(ilp.ge_ph.in_box(w));
                                assert(!ilp.feasible(w));
                            }
                        }
                    }
                }
            }
            sols.push(s);
            i += 1;
        }
        sols
    }
}

} // verus!
