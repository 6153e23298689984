use big_bucks::interp::{rebase, Bracket, RebaseError, RebasePlan};

const EPS: f64 = 1e-12;

fn times_of(data: &Vec<Vec<(u64, f64)>>) -> Vec<Vec<u64>> {
    data.iter().map(|chart| chart.iter().map(|p| p.0).collect()).collect()
}

/// The rebased values, row per timeline point and column per chart, blended
/// from the prices around each point the way the program does it.
fn rebased_values(data: &Vec<Vec<(u64, f64)>>, plan: &RebasePlan) -> Vec<Vec<f64>> {
    let mut rows = Vec::new();
    for k in 0..plan.time.len() {
        let mut row = Vec::new();
        for (chart, chart_plan) in data.iter().zip(plan.charts.iter()) {
            let value = match chart_plan.brackets[k] {
                Some(b) => {
                    let weight = b.offset as f64 / b.width as f64;
                    chart[b.lower].1 * (1.0 - weight) + chart[b.upper].1 * weight
                }
                None => 0.0,
            };
            row.push(value);
        }
        rows.push(row);
    }
    rows
}

fn squared_distance(values: &Vec<Vec<f64>>, expected: &Vec<Vec<f64>>) -> f64 {
    assert_eq!(values.len(), expected.len());
    let mut total = 0.0;
    for (row, expected_row) in values.iter().zip(expected.iter()) {
        assert_eq!(row.len(), expected_row.len());
        for (v, e) in row.iter().zip(expected_row.iter()) {
            total += (e - v).powf(2.0);
        }
    }
    total
}

#[test]
fn test_rebase_simple() {
    let simple_data = vec![
        vec![(0, 1.0), (1, 2.0), (3, 4.0), (5, 6.0)],
        vec![(2, 3.0), (4, 5.0), (7, 8.0)],
    ];

    let rebased = rebase(&times_of(&simple_data));
    assert!(rebased.is_ok());

    let rebased = rebased.unwrap();

    assert_eq!(rebased.time, vec![2, 3, 4, 5]);

    let expected = vec![vec![3.0, 3.0], vec![4.0, 4.0], vec![5.0, 5.0], vec![6.0, 6.0]];
    assert!(squared_distance(&rebased_values(&simple_data, &rebased), &expected) < EPS);
}

#[test]
fn test_rebase_single() {
    let single_data = vec![vec![(0, 1.0), (1, 2.0), (3, 4.0), (5, 6.0)]];

    let rebased = rebase(&times_of(&single_data));
    assert!(rebased.is_ok());

    let rebased = rebased.unwrap();

    assert_eq!(rebased.time, vec![0, 1, 3, 5]);

    let expected = vec![vec![1.0], vec![2.0], vec![4.0], vec![6.0]];
    assert!(squared_distance(&rebased_values(&single_data, &rebased), &expected) < EPS);
}

#[test]
fn test_rebase_empty() {
    let empty_data: Vec<Vec<u64>> = Vec::new();

    let rebased = rebase(&empty_data);
    assert!(rebased.is_ok());

    let rebased = rebased.unwrap();
    assert!(rebased.time.is_empty());
    assert!(rebased.time.len() == 0);
    assert!(rebased.charts.len() == 0);
}

#[test]
fn test_rebase_zero_time_range() {
    let single_data = vec![vec![1, 1]];

    assert!(rebase(&single_data).is_err());
}

#[test]
fn rebase_zero_width_error_is_named() {
    assert_eq!(rebase(&vec![vec![4, 4], vec![2, 4, 9]]).err(), Some(RebaseError::ZeroWidthRange));
}

#[test]
fn rebase_sorts_unordered_charts_stably() {
    // the chart arrives out of order and with a repeated time
    let times = vec![vec![5, 1, 3, 1, 9]];
    let plan = rebase(&times).unwrap();
    assert_eq!(plan.time, vec![1, 3, 5, 9]);
    assert_eq!(plan.charts[0].order, vec![1, 3, 2, 0, 4]);
    // the first bracket of time 1 is between the two points at time 1
    assert_eq!(
        plan.charts[0].brackets[0],
        Some(Bracket { lower: 1, upper: 3, offset: 0, width: 0 })
    );
    assert_eq!(
        plan.charts[0].brackets[1],
        Some(Bracket { lower: 3, upper: 2, offset: 2, width: 2 })
    );
    assert_eq!(
        plan.charts[0].brackets[3],
        Some(Bracket { lower: 0, upper: 4, offset: 4, width: 4 })
    );
}

#[test]
fn rebase_timeline_is_common_range() {
    let times = vec![vec![0, 10, 20, 30], vec![5, 15, 25, 35], vec![12, 28]];
    let plan = rebase(&times).unwrap();
    // common range [12, 28]: the latest first time to the earliest last time
    assert_eq!(plan.time, vec![12, 15, 20, 25, 28]);
    for chart_plan in plan.charts.iter() {
        assert_eq!(chart_plan.brackets.len(), plan.time.len());
    }
    assert_eq!(
        plan.charts[1].brackets[0],
        Some(Bracket { lower: 0, upper: 1, offset: 7, width: 10 })
    );
    assert_eq!(
        plan.charts[2].brackets[2],
        Some(Bracket { lower: 0, upper: 1, offset: 8, width: 16 })
    );
}

#[test]
fn rebase_every_point_is_bracketed() {
    let times = vec![vec![3, 1, 4, 1, 5, 9, 2, 6], vec![2, 7, 1, 8, 2, 8]];
    let plan = rebase(&times).unwrap();
    assert!(!plan.time.is_empty());
    for (c, chart_plan) in plan.charts.iter().enumerate() {
        for (k, bracket) in chart_plan.brackets.iter().enumerate() {
            let b = bracket.expect("every timeline point has a bracket");
            assert!(b.offset <= b.width);
            assert_eq!(times[c][b.lower] + b.offset, plan.time[k]);
            assert_eq!(times[c][b.lower] + b.width, times[c][b.upper]);
        }
    }
}

#[test]
fn rebase_disjoint_charts_give_empty_timeline() {
    let plan = rebase(&vec![vec![0, 1, 2], vec![5, 6]]).unwrap();
    assert!(plan.time.is_empty());
    assert_eq!(plan.charts.len(), 2);
    assert!(plan.charts[0].brackets.is_empty());
}

#[test]
fn rebase_with_an_empty_chart_has_no_timeline() {
    let plan = rebase(&vec![vec![0, 1, 2], vec![]]).unwrap();
    assert!(plan.time.is_empty());
}

#[test]
fn rebase_keeps_own_points_unblended() {
    let times = vec![vec![0, 4, 8, 12], vec![2, 4, 6, 8, 10, 14], vec![1, 8, 9, 13]];
    let plan = rebase(&times).unwrap();
    for (c, chart_plan) in plan.charts.iter().enumerate() {
        for (k, bracket) in chart_plan.brackets.iter().enumerate() {
            if times[c].contains(&plan.time[k]) {
                let b = bracket.unwrap();
                assert!(b.offset == 0 || b.offset == b.width);
            }
        }
    }
}

#[test]
fn rebase_order_is_a_stable_sort() {
    let times = vec![vec![7, 3, 7, 3, 1, 7]];
    let plan = rebase(&times).unwrap();
    let order = &plan.charts[0].order;
    assert_eq!(order, &vec![4, 1, 3, 0, 2, 5]);
}

#[test]
fn rebase_ignores_input_order() {
    let times = vec![vec![0, 4, 8, 12], vec![2, 5, 6, 9, 14]];
    // the charts swapped, and the points of each listed in another order
    let reordered = vec![vec![9, 2, 14, 6, 5], vec![8, 0, 12, 4]];
    let plan = rebase(&times).unwrap();
    let plan2 = rebase(&reordered).unwrap();
    assert_eq!(plan.time, plan2.time);
    let pi = [1, 0];
    for i in 0..2 {
        for k in 0..plan.time.len() {
            let b = plan.charts[i].brackets[k].unwrap();
            let b2 = plan2.charts[pi[i]].brackets[k].unwrap();
            assert_eq!(times[i][b.lower], reordered[pi[i]][b2.lower]);
            assert_eq!(times[i][b.upper], reordered[pi[i]][b2.upper]);
            assert_eq!((b.offset, b.width), (b2.offset, b2.width));
        }
    }
    assert_eq!(
        rebase(&vec![vec![3, 1], vec![3, 5]]).is_err(),
        rebase(&vec![vec![5, 3], vec![1, 3]]).is_err()
    );
}
