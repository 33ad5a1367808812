//! Quadratic programs: validation and the layout of their sparse matrices.

use vstd::prelude::*;

use crate::order::{group_by_key, groups_by_key, Group};
use crate::scalar::Double;

verus! {

/// Limits of the solver.
#[derive(Clone, Copy, Debug, PartialEq, Eq, Structural)]
pub struct QpSettings {
    pub max_solver_iterations: u32,
}

impl Default for QpSettings {
    fn default() -> (out: Self)
        ensures
            out.max_solver_iterations == 100,
    {
        QpSettings { max_solver_iterations: 100 }
    }
}

impl QpSettings {
    /// The iterations granted to the solver: at least one.
    pub fn granted_iterations(self) -> (out: u32)
        ensures
            out == if self.max_solver_iterations == 0 {
                1
            } else {
                self.max_solver_iterations
            },
    {
        if self.max_solver_iterations == 0 {
            1
        } else {
            self.max_solver_iterations
        }
    }
}

/// A weighted sum of variables that must not exceed a bound.
#[derive(Debug)]
pub struct LinearInequality {
    pub coefficients: Vec<(usize, Double)>,
    pub upper_bound: Double,
}

/// Minimise half of x'Px + q'x under inequalities.
#[derive(Debug)]
pub struct QuadraticProgram {
    pub variables: usize,
    /// The full symmetric Hessian, entry by entry.
    pub hessian_entries: Vec<(usize, usize, Double)>,
    pub linear: Vec<Double>,
    pub inequalities: Vec<LinearInequality>,
}

/// How the solver ended.
#[derive(Clone, Copy, Debug, PartialEq, Eq, Structural)]
pub enum SolverOutcome {
    Solved,
    AlmostSolved,
    Unsolved,
    PrimalInfeasible,
    DualInfeasible,
    AlmostPrimalInfeasible,
    AlmostDualInfeasible,
    MaxIterations,
    MaxTime,
    NumericalError,
    InsufficientProgress,
    CallbackTerminated,
}

/// Why there is no solution.
#[derive(Clone, Copy, Debug, PartialEq, Eq, Structural)]
pub enum QpError {
    DimensionMismatch,
    NonFiniteData,
    SolverSetup,
    SolverStatus(SolverOutcome),
}

/// The Hessian entry names variables of the program and is a number.
pub open spec fn entry_ok(variables: usize, e: (usize, usize, Double)) -> bool {
    e.0 < variables && e.1 < variables && e.2.finite()
}

/// The coefficient names a variable of the program and is a number.
pub open spec fn coefficient_ok(variables: usize, c: (usize, Double)) -> bool {
    c.0 < variables && c.1.finite()
}

/// The inequality names variables of the program and holds numbers.
pub open spec fn inequality_ok(variables: usize, i: LinearInequality) -> bool {
    &&& i.upper_bound.finite()
    &&& forall|k: int|
        0 <= k < i.coefficients@.len() ==> coefficient_ok(variables, #[trigger] i.coefficients@[k])
}

impl QuadraticProgram {
    /// One linear term for each variable.
    pub open spec fn dimensions_match(&self) -> bool {
        self.linear@.len() == self.variables
    }

    /// Every entry names a variable and is a number.
    pub open spec fn data_ok(&self) -> bool {
        &&& forall|k: int|
            0 <= k < self.hessian_entries@.len() ==> entry_ok(
                self.variables,
                #[trigger] self.hessian_entries@[k],
            )
        &&& forall|k: int| 0 <= k < self.linear@.len() ==> (#[trigger] self.linear@[k]).finite()
        &&& forall|k: int|
            0 <= k < self.inequalities@.len() ==> inequality_ok(
                self.variables,
                #[trigger] self.inequalities@[k],
            )
    }
}

/// Checks a program before it is handed to the solver.
pub fn validate_problem(problem: &QuadraticProgram) -> (out: Result<(), QpError>)
    ensures
        out == if !problem.dimensions_match() {
            Err::<(), QpError>(QpError::DimensionMismatch)
        } else if !problem.data_ok() {
            Err::<(), QpError>(QpError::NonFiniteData)
        } else {
            Ok(())
        },
{
    if problem.linear.len() != problem.variables {
        return Err(QpError::DimensionMismatch);
    }
    let mut k: usize = 0;
    while k < problem.hessian_entries.len()
        invariant
            k <= problem.hessian_entries@.len(),
            problem.dimensions_match(),
            forall|j: int|
                0 <= j < k ==> entry_ok(problem.variables, #[trigger] problem.hessian_entries@[j]),
        decreases problem.hessian_entries@.len() - k,
    {
        let (row, col, value) = problem.hessian_entries[k];
        assert(problem.hessian_entries@[k as int] == (row, col, value));
        if row >= problem.variables || col >= problem.variables || !value.is_finite() {
            assert(!entry_ok(problem.variables, problem.hessian_entries@[k as int]));
            return Err(QpError::NonFiniteData);
        }
        k = k + 1;
    }
    let mut k: usize = 0;
    while k < problem.linear.len()
        invariant
            k <= problem.linear@.len(),
            problem.dimensions_match(),
            forall|j: int| 0 <= j < k ==> (#[trigger] problem.linear@[j]).finite(),
        decreases problem.linear@.len() - k,
    {
        if !problem.linear[k].is_finite() {
            assert(!problem.linear@[k as int].finite());
            return Err(QpError::NonFiniteData);
        }
        k = k + 1;
    }
    let mut k: usize = 0;
    while k < problem.inequalities.len()
        invariant
            k <= problem.inequalities@.len(),
            problem.dimensions_match(),
            forall|j: int|
                0 <= j < k ==> inequality_ok(problem.variables, #[trigger] problem.inequalities@[j]),
        decreases problem.inequalities@.len() - k,
    {
        if !problem.inequalities[k].upper_bound.is_finite() {
            assert(!inequality_ok(problem.variables, problem.inequalities@[k as int]));
            return Err(QpError::NonFiniteData);
        }
        let mut i: usize = 0;
        while i < problem.inequalities[k].coefficients.len()
            invariant
                k < problem.inequalities@.len(),
                i <= problem.inequalities@[k as int].coefficients@.len(),
                problem.dimensions_match(),
                forall|j: int|
                    0 <= j < i ==> coefficient_ok(
                        problem.variables,
                        #[trigger] problem.inequalities@[k as int].coefficients@[j],
                    ),
            decreases problem.inequalities@[k as int].coefficients@.len() - i,
        {
            let (index, coefficient) = problem.inequalities[k].coefficients[i];
            assert(problem.inequalities@[k as int].coefficients@[i as int] == (index, coefficient));
            if index >= problem.variables || !coefficient.is_finite() {
                assert(!coefficient_ok(
                    problem.variables,
                    problem.inequalities@[k as int].coefficients@[i as int],
                ));
                assert(!inequality_ok(problem.variables, problem.inequalities@[k as int]));
                return Err(QpError::NonFiniteData);
            }
            i = i + 1;
        }
        k = k + 1;
    }
    Ok(())
}

/// What the solver's answer amounts to.
pub fn accept_status(outcome: SolverOutcome) -> (out: Result<(), QpError>)
    ensures
        out == if outcome == SolverOutcome::Solved || outcome == SolverOutcome::AlmostSolved {
            Ok::<(), QpError>(())
        } else {
            Err(QpError::SolverStatus(outcome))
        },
{
    if outcome == SolverOutcome::Solved || outcome == SolverOutcome::AlmostSolved {
        Ok(())
    } else {
        Err(QpError::SolverStatus(outcome))
    }
}

/// The place of an entry in column order: by column, then by row.
pub open spec fn place(rows: usize, row: usize, col: usize) -> int {
    col * rows + row
}

/// The places of the entries that are not zero.
pub open spec fn places_of(
    rows: usize,
    entries: Seq<(usize, usize, Double)>,
    kept: Seq<usize>,
    places: Seq<u128>,
) -> bool {
    &&& places.len() == kept.len()
    &&& forall|k: int|
        0 <= k < kept.len() ==> #[trigger] places[k] == place(
            rows,
            entries[kept[k] as int].0,
            entries[kept[k] as int].1,
        )
}

/// The entries among the first `n` that are not zero, in order.
pub open spec fn nonzero_upto(entries: Seq<(usize, usize, Double)>, n: int) -> Seq<usize>
    decreases n,
{
    if n <= 0 {
        Seq::empty()
    } else if entries[n - 1].2.zero() {
        nonzero_upto(entries, n - 1)
    } else {
        nonzero_upto(entries, n - 1).push((n - 1) as usize)
    }
}

/// The entries of a matrix gathered by place. The members of a group number
/// the entries that are not zero; their values are to be summed in order.
#[derive(Debug)]
pub struct Gathered {
    pub kept: Vec<usize>,
    pub groups: Vec<Group>,
}

proof fn lemma_place_fits(rows: usize, row: usize, col: usize)
    ensures
        0 <= place(rows, row, col) <= u128::MAX,
        0 <= col * rows <= u128::MAX,
{
    assert(0 <= col * rows <= 0xFFFF_FFFF_FFFF_FFFF * 0xFFFF_FFFF_FFFF_FFFF) by (nonlinear_arith)
        requires
            0 <= col <= 0xFFFF_FFFF_FFFF_FFFF,
            0 <= rows <= 0xFFFF_FFFF_FFFF_FFFF,
    ;
}

/// Gathers the entries of a matrix by place, column by column.
pub fn gather_entries(rows: usize, entries: &Vec<(usize, usize, Double)>) -> (out: Gathered)
    ensures
        out.kept@ == nonzero_upto(entries@, entries@.len() as int),
        exists|places: Seq<u128>| #[trigger]
            groups_by_key(places, out.groups@) && places_of(rows, entries@, out.kept@, places),
{
    let mut kept: Vec<usize> = Vec::new();
    let mut places: Vec<u128> = Vec::new();
    let mut k: usize = 0;
    while k < entries.len()
        invariant
            k <= entries@.len(),
            kept@ == nonzero_upto(entries@, k as int),
            places_of(rows, entries@, kept@, places@),
        decreases entries@.len() - k,
    {
        let (row, col, value) = entries[k];
        assert(entries@[k as int] == (row, col, value));
        if !value.is_zero() {
            proof {
                lemma_place_fits(rows, row, col);
            }
            let ghost before = kept@;
            let ghost places0 = places@;
            kept.push(k);
            places.push((col as u128) * (rows as u128) + (row as u128));
            proof {
                assert forall|j: int| 0 <= j < kept@.len() implies #[trigger] places@[j] == place(
                    rows,
                    entries@[kept@[j] as int].0,
                    entries@[kept@[j] as int].1,
                ) by {
                    if j < before.len() {
                        assert(places0[j] == places@[j]);
                    }
                }
            }
        }
        k = k + 1;
    }
    let groups = group_by_key(&places);
    let out = Gathered { kept, groups };
    assert(groups_by_key(places@, out.groups@) && places_of(rows, entries@, out.kept@, places@));
    out
}

/// A matrix in compressed columns.
#[derive(Debug)]
pub struct CompressedColumns {
    pub colptr: Vec<usize>,
    pub rowval: Vec<usize>,
    pub nzval: Vec<Double>,
}

/// The entries of a column that are not zero.
pub open spec fn column_kept(column: Seq<(usize, Double)>, n: int) -> Seq<(usize, Double)>
    decreases n,
{
    if n <= 0 {
        Seq::empty()
    } else if column[n - 1].1.zero() {
        column_kept(column, n - 1)
    } else {
        column_kept(column, n - 1).push(column[n - 1])
    }
}

/// The entries of the first `n` columns that are not zero, column by column.
pub open spec fn columns_kept(columns: Seq<Vec<(usize, Double)>>, n: int) -> Seq<(usize, Double)>
    decreases n,
{
    if n <= 0 {
        Seq::empty()
    } else {
        columns_kept(columns, n - 1) + column_kept(
            columns[n - 1]@,
            columns[n - 1]@.len() as int,
        )
    }
}

/// The row numbers and the values are those of the listed entries.
pub open spec fn lists_entries(
    rowval: Seq<usize>,
    nzval: Seq<Double>,
    entries: Seq<(usize, Double)>,
) -> bool {
    &&& rowval.len() == entries.len()
    &&& nzval.len() == entries.len()
    &&& forall|k: int| 0 <= k < entries.len() ==> #[trigger] rowval[k] == entries[k].0
    &&& forall|k: int| 0 <= k < entries.len() ==> #[trigger] nzval[k] == entries[k].1
}

/// Compresses columns, each given as rows with values; zeros are dropped.
pub fn csc_from_columns(columns: &Vec<Vec<(usize, Double)>>) -> (out: CompressedColumns)
    ensures
        lists_entries(
            out.rowval@,
            out.nzval@,
            columns_kept(columns@, columns@.len() as int),
        ),
        out.colptr@.len() == columns@.len() + 1,
        forall|c: int|
            0 <= c <= columns@.len() ==> #[trigger] out.colptr@[c] == columns_kept(
                columns@,
                c,
            ).len(),
{
    let mut colptr: Vec<usize> = Vec::new();
    let mut rowval: Vec<usize> = Vec::new();
    let mut nzval: Vec<Double> = Vec::new();
    colptr.push(0);
    let mut c: usize = 0;
    while c < columns.len()
        invariant
            c <= columns@.len(),
            lists_entries(rowval@, nzval@, columns_kept(columns@, c as int)),
            colptr@.len() == c + 1,
            forall|j: int|
                0 <= j <= c ==> #[trigger] colptr@[j] == columns_kept(columns@, j).len(),
        decreases columns@.len() - c,
    {
        let ghost before = columns_kept(columns@, c as int);
        let ghost column = columns@[c as int]@;
        let mut k: usize = 0;
        assert(before + column_kept(column, 0) =~= before);
        while k < columns[c].len()
            invariant
                c < columns@.len(),
                column == columns@[c as int]@,
                k <= column.len(),
                lists_entries(rowval@, nzval@, before + column_kept(column, k as int)),
            decreases column.len() - k,
        {
            let (row, value) = columns[c][k];
            assert(column[k as int] == (row, value));
            if !value.is_zero() {
                let ghost so_far = before + column_kept(column, k as int);
                let ghost rows0 = rowval@;
                let ghost vals0 = nzval@;
                rowval.push(row);
                nzval.push(value);
                proof {
                    let now = before + column_kept(column, k + 1);
                    assert(now =~= so_far.push((row, value)));
                    assert forall|j: int| 0 <= j < now.len() implies #[trigger] rowval@[j]
                        == now[j].0 by {
                        if j < so_far.len() {
                            assert(rows0[j] == so_far[j].0);
                        }
                    }
                    assert forall|j: int| 0 <= j < now.len() implies #[trigger] nzval@[j]
                        == now[j].1 by {
                        if j < so_far.len() {
                            assert(vals0[j] == so_far[j].1);
                        }
                    }
                }
            }
            k = k + 1;
        }
        colptr.push(rowval.len());
        c = c + 1;
    }
    CompressedColumns { colptr, rowval, nzval }
}

/// No zero is stored in a compressed matrix.
pub proof fn law_no_zero_is_stored(columns: Seq<Vec<(usize, Double)>>, n: int, k: int)
    requires
        0 <= n <= columns.len(),
        0 <= k < columns_kept(columns, n).len(),
    ensures
        !columns_kept(columns, n)[k].1.zero(),
    decreases n,
{
    let before = columns_kept(columns, n - 1);
    if k < before.len() {
        law_no_zero_is_stored(columns, n - 1, k);
    } else {
        lemma_column_kept(columns[n - 1]@, columns[n - 1]@.len() as int, k - before.len());
    }
}

proof fn lemma_column_kept(column: Seq<(usize, Double)>, n: int, k: int)
    requires
        0 <= n <= column.len(),
        0 <= k < column_kept(column, n).len(),
    ensures
        !column_kept(column, n)[k].1.zero(),
    decreases n,
{
    if k < column_kept(column, n - 1).len() {
        lemma_column_kept(column, n - 1, k);
    }
}

/// Two entries share a place exactly where they share row and column; an entry of
/// an earlier column comes first, and in a column the one of the earlier row.
pub proof fn law_places_go_column_by_column(
    rows: usize,
    row_a: usize,
    col_a: usize,
    row_b: usize,
    col_b: usize,
)
    requires
        row_a < rows,
        row_b < rows,
    ensures
        place(rows, row_a, col_a) == place(rows, row_b, col_b) <==> row_a == row_b && col_a
            == col_b,
        col_a < col_b ==> place(rows, row_a, col_a) < place(rows, row_b, col_b),
        col_a == col_b && row_a < row_b ==> place(rows, row_a, col_a) < place(rows, row_b, col_b),
{
    if col_a < col_b {
        assert(col_a * rows + rows <= col_b * rows) by (nonlinear_arith)
            requires
                col_a + 1 <= col_b,
                0 <= rows,
        ;
    } else if col_b < col_a {
        assert(col_b * rows + rows <= col_a * rows) by (nonlinear_arith)
            requires
                col_b + 1 <= col_a,
                0 <= rows,
        ;
    }
}

/// The entries that are kept are the ones that are not zero: each of them once, in
/// order, and nothing else.
pub proof fn law_kept_entries_are_not_zero(
    entries: Seq<(usize, usize, Double)>,
    n: int,
    e: int,
    k: int,
)
    requires
        0 <= n <= entries.len() <= usize::MAX,
        0 <= e < n,
        0 <= k < nonzero_upto(entries, n).len(),
    ensures
        nonzero_upto(entries, n).contains(e as usize) <==> !entries[e].2.equals(
            Double { bits: 0 },
        ),
        nonzero_upto(entries, n)[k] < n,
        !entries[nonzero_upto(entries, n)[k] as int].2.equals(Double { bits: 0 }),
        k > 0 ==> nonzero_upto(entries, n)[k - 1] < nonzero_upto(entries, n)[k],
    decreases n,
{
    let before = nonzero_upto(entries, n - 1);
    let now = nonzero_upto(entries, n);
    lemma_kept_below(entries, n - 1);
    lemma_kept_below(entries, n);
    if now != before {
        assert(now == before.push((n - 1) as usize));
        assert(now[before.len() as int] == n - 1);
    }
    if e < n - 1 {
        if before.len() > 0 {
            if k < before.len() {
                law_kept_entries_are_not_zero(entries, n - 1, e, k);
            } else {
                law_kept_entries_are_not_zero(entries, n - 1, e, k - 1);
            }
        } else {
            lemma_none_kept(entries, n - 1, e);
        }
        if before.contains(e as usize) {
            let j = choose|j: int| 0 <= j < before.len() && before[j] == e as usize;
            assert(now[j] == e as usize);
        }
        if now.contains(e as usize) {
            let j = choose|j: int| 0 <= j < now.len() && now[j] == e as usize;
            assert(j < before.len());
            assert(before[j] == e as usize);
        }
    } else {
        if now.contains(e as usize) {
            let j = choose|j: int| 0 <= j < now.len() && now[j] == e as usize;
            if j < before.len() {
                assert(before[j] < n - 1);
            }
        }
        if 0 <= k < before.len() {
            lemma_kept_sorted(entries, n - 1, k);
        } else if before.len() > 0 {
            assert(before[k - 1] < n - 1);
        }
    }
}

proof fn lemma_kept_below(entries: Seq<(usize, usize, Double)>, n: int)
    requires
        n <= entries.len() <= usize::MAX,
    ensures
        forall|k: int|
            0 <= k < nonzero_upto(entries, n).len() ==> #[trigger] nonzero_upto(entries, n)[k] < n
                && !entries[nonzero_upto(entries, n)[k] as int].2.zero(),
    decreases n,
{
    if n > 0 {
        lemma_kept_below(entries, n - 1);
        let before = nonzero_upto(entries, n - 1);
        let now = nonzero_upto(entries, n);
        assert forall|k: int| 0 <= k < now.len() implies #[trigger] now[k] < n
            && !entries[now[k] as int].2.zero() by {
            if k < before.len() {
                assert(before[k] < n - 1);
            }
        }
    }
}

proof fn lemma_kept_sorted(entries: Seq<(usize, usize, Double)>, n: int, k: int)
    requires
        0 <= n <= entries.len() <= usize::MAX,
        0 <= k < nonzero_upto(entries, n).len(),
    ensures
        k > 0 ==> nonzero_upto(entries, n)[k - 1] < nonzero_upto(entries, n)[k],
    decreases n,
{
    let before = nonzero_upto(entries, n - 1);
    lemma_kept_below(entries, n - 1);
    if k < before.len() {
        lemma_kept_sorted(entries, n - 1, k);
    } else if k > 0 {
        assert(before[k - 1] < n - 1);
    }
}

proof fn lemma_none_kept(entries: Seq<(usize, usize, Double)>, n: int, e: int)
    requires
        0 <= e < n <= entries.len(),
        nonzero_upto(entries, n).len() == 0,
    ensures
        entries[e].2.zero(),
    decreases n,
{
    if e < n - 1 {
        lemma_none_kept(entries, n - 1, e);
    }
}

/// Every value of a column that is not zero is stored: with its row, and between
/// where the column begins and where the next one does.
pub proof fn law_every_value_is_stored(
    columns: Seq<Vec<(usize, Double)>>,
    n: int,
    c: int,
    k: int,
) -> (at: int)
    requires
        0 <= c < n <= columns.len(),
        0 <= k < columns[c]@.len(),
        !columns[c]@[k].1.equals(Double { bits: 0 }),
    ensures
        columns_kept(columns, c).len() <= at < columns_kept(columns, c + 1).len(),
        at < columns_kept(columns, n).len(),
        columns_kept(columns, n)[at] == columns[c]@[k],
    decreases n,
{
    let before = columns_kept(columns, n - 1);
    if c < n - 1 {
        law_every_value_is_stored(columns, n - 1, c, k)
    } else {
        let j = lemma_value_kept(columns[c]@, columns[c]@.len() as int, k);
        before.len() + j
    }
}

proof fn lemma_value_kept(column: Seq<(usize, Double)>, n: int, k: int) -> (at: int)
    requires
        0 <= k < n <= column.len(),
        !column[k].1.zero(),
    ensures
        0 <= at < column_kept(column, n).len(),
        column_kept(column, n)[at] == column[k],
    decreases n,
{
    if k < n - 1 {
        lemma_value_kept(column, n - 1, k)
    } else {
        column_kept(column, n - 1).len() as int
    }
}

} // verus!
