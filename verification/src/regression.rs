use vstd::prelude::*;

verus! {

/// The most lags that the unit-root and cointegration checks try.
pub const MAX_LAG: usize = 20;

#[derive(Clone, Copy, Debug, PartialEq, Eq)]
pub enum RegressionError {
    /// The timeline and the series have different numbers of rows.
    ShapeMismatch,
    /// The series has too few rows for the lag: it needs more than `lag + 1`.
    LagTooLarge,
}

/// A block of lagged differences in the design matrix: the design columns
/// `columns.0 .. columns.1` hold the difference rows `rows.0 .. rows.1`.
#[derive(Clone, Copy, Debug, PartialEq, Eq)]
pub struct LaggedBlock {
    pub columns: (usize, usize),
    pub rows: (usize, usize),
}

/// Where each part of a lagged autoregression of first differences comes
/// from. The design matrix has `observations` rows and `parameters`
/// columns: a column of ones, the times `time_rows` of the timeline, the
/// series levels `level_rows`, then one block of differences per lag. The
/// regressed values are the difference rows `target_rows`. Row ranges are
/// half open; difference row `i` is series row `i + 1` minus series row `i`.
#[derive(Debug)]
pub struct AutoregressionLayout {
    pub observations: usize,
    pub parameters: usize,
    pub time_rows: (usize, usize),
    pub level_rows: (usize, usize),
    pub lagged: Vec<LaggedBlock>,
    pub target_rows: (usize, usize),
}

/// The block of the `i`-th lag for a series of `rows` rows and `cols`
/// columns with `observations` observations.
pub open spec fn lagged_block(i: int, rows: int, cols: int, observations: int) -> LaggedBlock {
    LaggedBlock {
        columns: ((2 + (1 + i) * cols) as usize, (2 + (2 + i) * cols) as usize),
        rows: ((rows - 1 - i - 1 - observations) as usize, (rows - 1 - i - 1) as usize),
    }
}

/// The layout of a lag-`lag` autoregression of a series of `rows` rows and
/// `cols` columns on a timeline of the same length.
pub open spec fn layout_of(lag: int, rows: int, cols: int, layout: AutoregressionLayout) -> bool {
    let observations = rows - lag - 2;
    &&& layout.observations == observations
    &&& layout.parameters == 2 + (1 + lag) * cols
    &&& layout.time_rows == ((rows - observations) as usize, rows as usize)
    &&& layout.level_rows == ((rows - observations - 1) as usize, (rows - 1) as usize)
    &&& layout.target_rows == ((rows - 1 - observations) as usize, (rows - 1) as usize)
    &&& layout.lagged.len() == lag
    &&& forall|i: int|
        0 <= i < lag ==> #[trigger] layout.lagged@[i] == lagged_block(i, rows, cols, observations)
}

/// The layout of the lag-`lag` autoregression of a series of `rows` rows and
/// `cols` columns against a timeline of `timeline_len` points. Fails when the
/// lengths differ, and when the series has no more than `lag + 1` rows.
pub fn autoregression_layout(lag: usize, timeline_len: usize, rows: usize, cols: usize) -> (result:
    Result<AutoregressionLayout, RegressionError>)
    requires
        lag < usize::MAX,
        rows * cols + 2 <= usize::MAX,
    ensures
        rows != timeline_len ==> result == Err::<AutoregressionLayout, RegressionError>(
            RegressionError::ShapeMismatch,
        ),
        rows == timeline_len && rows <= lag + 1 ==> result == Err::<
            AutoregressionLayout,
            RegressionError,
        >(RegressionError::LagTooLarge),
        rows == timeline_len && rows > lag + 1 ==> (result matches Ok(layout) && layout_of(
            lag as int,
            rows as int,
            cols as int,
            layout,
        )),
{
    if rows != timeline_len {
        return Err(RegressionError::ShapeMismatch);
    }
    if rows <= lag + 1 {
        return Err(RegressionError::LagTooLarge);
    }
    let observations = rows - lag - 2;
    proof {
        assert((1 + lag) * cols <= rows * cols) by (nonlinear_arith)
            requires
                1 + lag < rows,
        ;
    }
    let parameters = 2 + (1 + lag) * cols;
    let differences = rows - 1;
    let mut lagged: Vec<LaggedBlock> = Vec::new();
    let mut i: usize = 0;
    while i < lag
        invariant
            i <= lag,
            lag + 1 < rows,
            observations == rows - lag - 2,
            differences == rows - 1,
            rows * cols + 2 <= usize::MAX,
            lagged.len() == i,
            forall|q: int|
                0 <= q < i ==> #[trigger] lagged@[q] == lagged_block(
                    q,
                    rows as int,
                    cols as int,
                    observations as int,
                ),
        decreases lag - i,
    {
        proof {
            assert((2 + i) * cols <= rows * cols) by (nonlinear_arith)
                requires
                    2 + i <= rows,
            ;
            assert((1 + i) * cols <= (2 + i) * cols) by (nonlinear_arith);
        }
        let block = LaggedBlock {
            columns: (2 + (1 + i) * cols, 2 + (2 + i) * cols),
            rows: (differences - i - 1 - observations, differences - i - 1),
        };
        lagged.push(block);
        i = i + 1;
    }
    Ok(
        AutoregressionLayout {
            observations,
            parameters,
            time_rows: (timeline_len - observations, timeline_len),
            level_rows: (rows - observations - 1, rows - 1),
            lagged,
            target_rows: (differences - observations, differences),
        },
    )
}


/// Every part of a layout has one row per observation and lies inside the
/// data: the timeline and series have `rows` rows, their differences
/// `rows - 1`. The design columns are the intercept, the time, `cols` level
/// columns, then the lag blocks of `cols` columns each, back to back up to
/// the last parameter.
pub proof fn lemma_layout_fits(lag: int, rows: int, cols: int, layout: AutoregressionLayout)
    requires
        0 <= lag,
        lag + 1 < rows,
        0 <= cols,
        rows <= usize::MAX,
        rows * cols + 2 <= usize::MAX,
        layout_of(lag, rows, cols, layout),
    ensures
        layout.time_rows.0 + layout.observations == layout.time_rows.1 == rows,
        layout.level_rows.0 + layout.observations == layout.level_rows.1 <= rows,
        layout.target_rows.0 + layout.observations == layout.target_rows.1 == rows - 1,
        layout.parameters == 2 + cols + lag * cols,
        forall|i: int|
            #![trigger layout.lagged@[i]]
            0 <= i < lag ==> {
                let b = layout.lagged@[i];
                &&& b.rows.0 + layout.observations == b.rows.1 <= rows - 1
                &&& b.columns.0 + cols == b.columns.1 <= layout.parameters
                &&& b.columns.0 == 2 + cols + i * cols
            },
{
    let obs = rows - lag - 2;
    assert((1 + lag) * cols == cols + lag * cols) by (nonlinear_arith);
    assert((1 + lag) * cols <= rows * cols) by (nonlinear_arith)
        requires
            1 + lag < rows,
            0 <= cols,
    ;
    assert forall|i: int| #![trigger layout.lagged@[i]] 0 <= i < lag implies {
        let b = layout.lagged@[i];
        &&& b.rows.0 + layout.observations == b.rows.1 <= rows - 1
        &&& b.columns.0 + cols == b.columns.1 <= layout.parameters
        &&& b.columns.0 == 2 + cols + i * cols
    } by {
        assert((1 + i) * cols == cols + i * cols) by (nonlinear_arith);
        assert((2 + i) * cols == cols + cols + i * cols) by (nonlinear_arith);
        assert((2 + i) * cols <= (1 + lag) * cols) by (nonlinear_arith)
            requires
                i < lag,
                0 <= cols,
        ;
        assert((2 + i) * cols <= rows * cols) by (nonlinear_arith)
            requires
                2 + i <= rows,
                0 <= cols,
        ;
        assert(layout.lagged@[i] == lagged_block(i, rows, cols, obs));
    }
}


/// The rows of a layout line up as the regression of first differences
/// needs: difference row `d` (series row `d + 1` minus series row `d`) is
/// regressed on the level of series row `d`, the time of row `d + 1`, and the
/// differences of rows `d - 1`, `d - 2`, ... (one block per lag). So the
/// level rows are the target rows, starting at row `lag + 1` and ending one
/// row before the series ends.
pub proof fn lemma_layout_aligns(lag: int, rows: int, cols: int, layout: AutoregressionLayout)
    requires
        0 <= lag,
        lag + 1 < rows,
        0 <= cols,
        rows <= usize::MAX,
        rows * cols + 2 <= usize::MAX,
        layout_of(lag, rows, cols, layout),
    ensures
        layout.level_rows == layout.target_rows,
        layout.level_rows == ((lag + 1) as usize, (rows - 1) as usize),
        layout.time_rows.0 == layout.target_rows.0 + 1,
        layout.time_rows.1 == layout.target_rows.1 + 1,
        forall|i: int|
            #![trigger layout.lagged@[i]]
            0 <= i < lag ==> layout.lagged@[i].rows.0 + i + 1 == layout.target_rows.0
                && layout.lagged@[i].rows.1 + i + 1 == layout.target_rows.1,
{
    let obs = rows - lag - 2;
    assert forall|i: int| #![trigger layout.lagged@[i]] 0 <= i < lag implies layout.lagged@[i].rows.0
        + i + 1 == layout.target_rows.0 && layout.lagged@[i].rows.1 + i + 1
        == layout.target_rows.1 by {
        assert(layout.lagged@[i] == lagged_block(i, rows, cols, obs));
    }
}

} // verus!
