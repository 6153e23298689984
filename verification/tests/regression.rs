use big_bucks::regression::{autoregression_layout, LaggedBlock, RegressionError, MAX_LAG};

#[test]
fn lag_too_large() {
    // a timeline and a series of five rows, one column
    let regression = autoregression_layout(3, 5, 5, 1);

    assert!(regression.is_ok());

    let regression = autoregression_layout(4, 5, 5, 1);

    assert!(regression.is_err());
}

#[test]
fn shape_mismatch() {
    // a timeline of four points against a series of five rows
    let regression = autoregression_layout(0, 4, 5, 1);

    assert!(regression.is_err());
}

#[test]
fn layout_errors_are_named() {
    assert_eq!(autoregression_layout(0, 4, 5, 1).err(), Some(RegressionError::ShapeMismatch));
    assert_eq!(autoregression_layout(4, 5, 5, 1).err(), Some(RegressionError::LagTooLarge));
    // the shape is checked before the lag
    assert_eq!(autoregression_layout(9, 4, 5, 1).err(), Some(RegressionError::ShapeMismatch));
    assert_eq!(autoregression_layout(0, 0, 0, 3).err(), Some(RegressionError::LagTooLarge));
}

#[test]
fn layout_without_lag() {
    let layout = autoregression_layout(0, 5, 5, 1).unwrap();
    assert_eq!(layout.observations, 3);
    assert_eq!(layout.parameters, 3);
    assert_eq!(layout.time_rows, (2, 5));
    assert_eq!(layout.level_rows, (1, 4));
    assert_eq!(layout.target_rows, (1, 4));
    assert!(layout.lagged.is_empty());
}

#[test]
fn layout_with_lags_and_columns() {
    let layout = autoregression_layout(2, 10, 10, 3).unwrap();
    assert_eq!(layout.observations, 6);
    assert_eq!(layout.parameters, 2 + 3 * 3);
    assert_eq!(layout.time_rows, (4, 10));
    assert_eq!(layout.level_rows, (3, 9));
    assert_eq!(layout.target_rows, (3, 9));
    assert_eq!(
        layout.lagged,
        vec![
            LaggedBlock { columns: (5, 8), rows: (2, 8) },
            LaggedBlock { columns: (8, 11), rows: (1, 7) },
        ]
    );
}

#[test]
fn layout_blocks_tile_the_design_columns() {
    let cols = 2;
    let lag = 7;
    let layout = autoregression_layout(lag, 40, 40, cols).unwrap();
    let mut next = 2 + cols;
    for block in layout.lagged.iter() {
        assert_eq!(block.columns.0, next);
        assert_eq!(block.columns.1 - block.columns.0, cols);
        assert_eq!(block.rows.1 - block.rows.0, layout.observations);
        assert!(block.rows.1 <= 39);
        next = block.columns.1;
    }
    assert_eq!(next, layout.parameters);
}

#[test]
fn smallest_series_for_a_lag_has_no_observations() {
    let layout = autoregression_layout(MAX_LAG - 1, MAX_LAG + 1, MAX_LAG + 1, 1).unwrap();
    assert_eq!(layout.observations, 0);
}
