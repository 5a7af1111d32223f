use data_bench::column::{Column, Kind};
use data_bench::filter::{filter, Cmp, Scalar};
use data_bench::generate::{generate, unit_bits};
use data_bench::group::{group_by_aggregate, AggKind, Aggregation};
use data_bench::join::left_join;
use data_bench::sort::{sort, SortKey};
use data_bench::table::{Table, TableError};
use data_bench::arith::arithmetic_operands;
use rand::rngs::StdRng;
use rand::{Rng, SeedableRng};

fn table(cols: Vec<(&str, Column)>) -> Table {
    let rows = cols.first().map(|(_, c)| c.len()).unwrap_or(0);
    let mut t = Table::new(rows);
    for (name, col) in cols {
        t.push_column(name.to_string(), col).unwrap();
    }
    t
}

fn floats(v: &[f64]) -> Column {
    Column::Float64(v.iter().map(|x| x.to_bits()).collect())
}

fn float_cells(c: &Column) -> Vec<f64> {
    match c {
        Column::Float64(v) => v.iter().map(|b| f64::from_bits(*b)).collect(),
        other => panic!("not a float column: {:?}", other),
    }
}

fn int_cells(c: &Column) -> Vec<i64> {
    match c {
        Column::Int32(v) => v.iter().map(|x| *x as i64).collect(),
        Column::Int64(v) => v.clone(),
        Column::Category(v) => v.iter().map(|x| *x as i64).collect(),
        other => panic!("not an integer column: {:?}", other),
    }
}

#[test]
fn generate_is_deterministic() {
    for n in [0usize, 1, 1000] {
        let a = generate(n, 42);
        let b = generate(n, 42);
        assert_eq!(a, b);
        assert_eq!(a.rows(), n);
        assert_eq!(a.num_columns(), 5);
    }
}

#[test]
fn generate_shape_and_ranges() {
    let t = generate(500, 7);
    let names: Vec<String> = (0..5).map(|i| t.name_at(i).clone()).collect();
    assert_eq!(names, vec!["id", "a", "b", "c", "d"]);
    assert_eq!(int_cells(t.column("id").unwrap()), (0..500).collect::<Vec<i64>>());
    for x in float_cells(t.column("a").unwrap()).into_iter().chain(float_cells(t.column("b").unwrap())) {
        assert!((0.0..1.0).contains(&x));
    }
    assert!(int_cells(t.column("c").unwrap()).iter().all(|x| (0..3).contains(x)));
    assert!(int_cells(t.column("d").unwrap()).iter().all(|x| (1..100).contains(x)));
    assert_eq!(t.column("c").unwrap().kind(), Kind::Category);
}

#[test]
fn generate_float_draws_match_rand_standard() {
    let t = generate(3, 42);
    let mut rng = StdRng::seed_from_u64(42);
    let expected: Vec<f64> = (0..3).map(|_| rng.gen::<f64>()).collect();
    assert_eq!(float_cells(t.column("a").unwrap()), expected);
}

#[test]
fn unit_bits_exact_values() {
    assert_eq!(unit_bits(0), 0);
    assert_eq!(unit_bits(1u64 << 52), 0.5f64.to_bits());
    assert_eq!(unit_bits(1), (1.0f64 / (1u64 << 53) as f64).to_bits());
    let k = (1u64 << 53) - 1;
    assert_eq!(unit_bits(k), (k as f64 / (1u64 << 53) as f64).to_bits());
    assert_eq!(unit_bits(12345), (12345.0f64 / (1u64 << 53) as f64).to_bits());
}

#[test]
fn filter_keeps_rows_above_threshold_in_order() {
    let t = table(vec![
        ("id", Column::Int32(vec![0, 1, 2, 3, 4])),
        ("a", floats(&[0.2, 0.9, 0.5, 0.7, 0.51])),
    ]);
    let r = filter(&t, "a", Cmp::Gt, Scalar::Float64(0.5f64.to_bits())).unwrap();
    assert_eq!(r.rows(), 3);
    assert_eq!(int_cells(r.column("id").unwrap()), vec![1, 3, 4]);
    assert_eq!(float_cells(r.column("a").unwrap()), vec![0.9, 0.7, 0.51]);
}

#[test]
fn filter_generated_table_matches_count() {
    let t = generate(1000, 42);
    let a = float_cells(t.column("a").unwrap());
    let r = filter(&t, "a", Cmp::Gt, Scalar::Float64(0.5f64.to_bits())).unwrap();
    assert_eq!(r.rows(), a.iter().filter(|x| **x > 0.5).count());
    assert!(float_cells(r.column("a").unwrap()).iter().all(|x| *x > 0.5));
}

#[test]
fn filter_always_true_is_identity() {
    let t = generate(200, 3);
    let r = filter(&t, "d", Cmp::Ge, Scalar::Int32(i32::MIN)).unwrap();
    assert_eq!(r, t);
}

#[test]
fn filter_errors() {
    let t = generate(10, 1);
    match filter(&t, "zz", Cmp::Gt, Scalar::Int32(0)) {
        Err(TableError::ColumnNotFound(s)) => assert_eq!(s, "zz"),
        other => panic!("{:?}", other),
    }
    assert_eq!(
        filter(&t, "c", Cmp::Gt, Scalar::Float64(0.5f64.to_bits())).unwrap_err(),
        TableError::TypeMismatch(Kind::Float64, Kind::Category)
    );
}

#[test]
fn filter_floats_compare_as_ieee() {
    let t = table(vec![
        ("id", Column::Int32(vec![0, 1, 2, 3, 4])),
        ("a", floats(&[f64::NAN, 0.75, -0.0, 0.0, -f64::NAN])),
    ]);
    let gt = filter(&t, "a", Cmp::Gt, Scalar::Float64(0.5f64.to_bits())).unwrap();
    assert_eq!(int_cells(gt.column("id").unwrap()), vec![1]);
    let eq = filter(&t, "a", Cmp::Eq, Scalar::Float64(0.0f64.to_bits())).unwrap();
    assert_eq!(int_cells(eq.column("id").unwrap()), vec![2, 3]);
    let le = filter(&t, "a", Cmp::Le, Scalar::Float64((-0.0f64).to_bits())).unwrap();
    assert_eq!(int_cells(le.column("id").unwrap()), vec![2, 3]);
    let ne = filter(&t, "a", Cmp::Ne, Scalar::Float64(0.75f64.to_bits())).unwrap();
    assert_eq!(int_cells(ne.column("id").unwrap()), vec![0, 2, 3, 4]);
    let against_nan = filter(&t, "a", Cmp::Ge, Scalar::Float64(f64::NAN.to_bits())).unwrap();
    assert_eq!(against_nan.rows(), 0);
}

#[test]
fn group_sum_by_category() {
    let t = table(vec![
        ("c", Column::Category(vec![0, 1, 0, 2, 1])),
        ("v", Column::Int32(vec![1, 2, 3, 4, 5])),
    ]);
    let aggs = vec![
        Aggregation { source: "v".to_string(), kind: AggKind::Sum, output: "v_sum".to_string() },
        Aggregation { source: "v".to_string(), kind: AggKind::Count, output: "n".to_string() },
    ];
    let r = group_by_aggregate(&t, "c", &aggs).unwrap();
    assert_eq!(r.rows(), 3);
    assert_eq!(int_cells(r.column("c").unwrap()), vec![0, 1, 2]);
    assert_eq!(int_cells(r.column("v_sum").unwrap()), vec![4, 7, 4]);
    assert_eq!(int_cells(r.column("n").unwrap()), vec![2, 2, 1]);
}

#[test]
fn group_on_empty_table_is_empty() {
    let t = generate(0, 42);
    let aggs = vec![Aggregation { source: "d".to_string(), kind: AggKind::Sum, output: "d_sum".to_string() }];
    let r = group_by_aggregate(&t, "c", &aggs).unwrap();
    assert_eq!(r.rows(), 0);
    assert_eq!(r.num_columns(), 2);
}

#[test]
fn group_errors() {
    let t = generate(10, 1);
    let bad_source = vec![Aggregation { source: "q".to_string(), kind: AggKind::Sum, output: "s".to_string() }];
    assert_eq!(group_by_aggregate(&t, "c", &bad_source).unwrap_err(), TableError::ColumnNotFound("q".to_string()));
    let float_sum = vec![Aggregation { source: "a".to_string(), kind: AggKind::Sum, output: "s".to_string() }];
    assert_eq!(
        group_by_aggregate(&t, "c", &float_sum).unwrap_err(),
        TableError::TypeMismatch(Kind::Int32, Kind::Float64)
    );
    let first_decides = vec![
        Aggregation { source: "a".to_string(), kind: AggKind::Max, output: "m".to_string() },
        Aggregation { source: "q".to_string(), kind: AggKind::Sum, output: "s".to_string() },
    ];
    assert_eq!(
        group_by_aggregate(&t, "c", &first_decides).unwrap_err(),
        TableError::TypeMismatch(Kind::Int32, Kind::Float64)
    );
    let clash = vec![Aggregation { source: "d".to_string(), kind: AggKind::Count, output: "c".to_string() }];
    assert_eq!(group_by_aggregate(&t, "c", &clash).unwrap_err(), TableError::DuplicateColumn("c".to_string()));
    assert_eq!(group_by_aggregate(&t, "nope", &clash).unwrap_err(), TableError::ColumnNotFound("nope".to_string()));
}

#[test]
fn left_join_fills_missing() {
    let left = table(vec![("id", Column::Int32(vec![0, 1, 2, 3, 4]))]);
    let right = table(vec![("id", Column::Int32(vec![0, 2])), ("value", floats(&[0.25, 0.75]))]);
    let r = left_join(&left, &right, "id", "id").unwrap();
    assert_eq!(r.rows(), 5);
    assert_eq!(r.num_columns(), 2);
    assert_eq!(int_cells(r.column("id").unwrap()), vec![0, 1, 2, 3, 4]);
    let v = float_cells(r.column("value").unwrap());
    assert_eq!(v[0], 0.25);
    assert_eq!(v[2], 0.75);
    assert!(v[1].is_nan() && v[3].is_nan() && v[4].is_nan());
}

#[test]
fn left_join_duplicates_multiply() {
    let left = table(vec![("id", Column::Int32(vec![0, 1])), ("x", Column::Int32(vec![10, 11]))]);
    let right = table(vec![("id", Column::Int32(vec![0, 5, 0])), ("w", Column::Int64(vec![7, 8, 9]))]);
    let r = left_join(&left, &right, "id", "id").unwrap();
    assert_eq!(int_cells(r.column("id").unwrap()), vec![0, 0, 1]);
    assert_eq!(int_cells(r.column("x").unwrap()), vec![10, 10, 11]);
    assert_eq!(int_cells(r.column("w").unwrap()), vec![7, 9, i64::MIN]);
}

#[test]
fn left_join_errors() {
    let left = table(vec![("id", Column::Int32(vec![0])), ("v", Column::Int32(vec![1]))]);
    let right = table(vec![("id", Column::Int64(vec![0])), ("v", Column::Int32(vec![2]))]);
    assert_eq!(left_join(&left, &right, "k", "id").unwrap_err(), TableError::ColumnNotFound("k".to_string()));
    assert_eq!(left_join(&left, &right, "id", "k").unwrap_err(), TableError::ColumnNotFound("k".to_string()));
    assert_eq!(left_join(&left, &right, "id", "id").unwrap_err(), TableError::TypeMismatch(Kind::Int32, Kind::Int64));
    let clash_left = table(vec![("v", Column::Int32(vec![1])), ("v_right", Column::Int32(vec![3]))]);
    let clash_right = table(vec![("id", Column::Int32(vec![1])), ("v", Column::Int32(vec![2]))]);
    assert_eq!(
        left_join(&clash_left, &clash_right, "v", "id").unwrap_err(),
        TableError::DuplicateColumn("v_right".to_string())
    );
}

#[test]
fn left_join_renames_shared_names() {
    let left = table(vec![("id", Column::Int32(vec![0, 1])), ("v", Column::Int32(vec![5, 6]))]);
    let right = table(vec![("id", Column::Int32(vec![1])), ("v", Column::Int32(vec![9]))]);
    let r = left_join(&left, &right, "id", "id").unwrap();
    let names: Vec<String> = (0..r.num_columns()).map(|i| r.name_at(i).clone()).collect();
    assert_eq!(names, vec!["id", "v", "v_right"]);
    assert_eq!(int_cells(r.column("v").unwrap()), vec![5, 6]);
    assert_eq!(int_cells(r.column("v_right").unwrap()), vec![i32::MIN as i64, 9]);
    let empty = table(vec![("id", Column::Int32(vec![])), ("v", Column::Int32(vec![]))]);
    let e = left_join(&left, &empty, "id", "id").unwrap();
    assert_eq!(e.rows(), 2);
    assert_eq!(int_cells(e.column("v").unwrap()), vec![5, 6]);
    assert_eq!(int_cells(e.column("v_right").unwrap()), vec![i32::MIN as i64, i32::MIN as i64]);
}

#[test]
fn sort_descending_on_floats() {
    let t = table(vec![("id", Column::Int32(vec![0, 1, 2])), ("a", floats(&[0.2, 0.9, 0.5]))]);
    let r = sort(&t, &vec![SortKey { name: "a".to_string(), descending: true }]).unwrap();
    assert_eq!(int_cells(r.column("id").unwrap()), vec![1, 2, 0]);
    assert_eq!(float_cells(r.column("a").unwrap()), vec![0.9, 0.5, 0.2]);
}

#[test]
fn sort_is_stable() {
    let t = table(vec![("id", Column::Int32(vec![0, 1, 2, 3])), ("k", Column::Int32(vec![5, 1, 5, 1]))]);
    let up = sort(&t, &vec![SortKey { name: "k".to_string(), descending: false }]).unwrap();
    assert_eq!(int_cells(up.column("id").unwrap()), vec![1, 3, 0, 2]);
    let down = sort(&t, &vec![SortKey { name: "k".to_string(), descending: true }]).unwrap();
    assert_eq!(int_cells(down.column("id").unwrap()), vec![0, 2, 1, 3]);
}

#[test]
fn sort_on_two_keys_and_negative_floats() {
    let t = table(vec![
        ("id", Column::Int32(vec![0, 1, 2, 3])),
        ("c", Column::Category(vec![1, 0, 1, 0])),
        ("a", floats(&[-1.5, 2.0, -0.25, -3.0])),
    ]);
    let keys = vec![
        SortKey { name: "c".to_string(), descending: false },
        SortKey { name: "a".to_string(), descending: false },
    ];
    let r = sort(&t, &keys).unwrap();
    assert_eq!(int_cells(r.column("id").unwrap()), vec![3, 1, 0, 2]);
    assert_eq!(
        sort(&t, &vec![SortKey { name: "x".to_string(), descending: false }]).unwrap_err(),
        TableError::ColumnNotFound("x".to_string())
    );
}

#[test]
fn arithmetic_operands_and_append() {
    let t = table(vec![
        ("a", floats(&[2.0])),
        ("b", floats(&[3.0])),
        ("c", Column::Category(vec![0])),
        ("d", Column::Int32(vec![2])),
    ]);
    assert_eq!(arithmetic_operands(&t, "a", "b", "d").unwrap(), (0, 1, 3));
    assert_eq!(arithmetic_operands(&t, "a", "q", "d").unwrap_err(), TableError::ColumnNotFound("q".to_string()));
    assert_eq!(
        arithmetic_operands(&t, "a", "c", "d").unwrap_err(),
        TableError::TypeMismatch(Kind::Float64, Kind::Category)
    );
    let out = t.with_column("calc".to_string(), floats(&[3.0])).unwrap();
    assert_eq!(out.num_columns(), 5);
    assert_eq!(out.rows(), 1);
    assert_eq!(out.name_at(4), "calc");
    assert_eq!(float_cells(out.column("calc").unwrap()), vec![3.0]);
    assert_eq!(out.column("a"), t.column("a"));
    assert_eq!(t.with_column("a".to_string(), floats(&[1.0])).unwrap_err(), TableError::DuplicateColumn("a".to_string()));
    assert_eq!(t.with_column("z".to_string(), floats(&[])).unwrap_err(), TableError::LengthMismatch(1, 0));
}

#[test]
fn empty_table_through_every_operation() {
    let t = generate(0, 42);
    let f = filter(&t, "a", Cmp::Gt, Scalar::Float64(0.5f64.to_bits())).unwrap();
    assert_eq!(f.rows(), 0);
    let aggs = vec![Aggregation { source: "d".to_string(), kind: AggKind::Sum, output: "d_sum".to_string() }];
    assert_eq!(group_by_aggregate(&t, "c", &aggs).unwrap().rows(), 0);
    let right = table(vec![("id", Column::Int32(vec![])), ("value", floats(&[]))]);
    assert_eq!(left_join(&t, &right, "id", "id").unwrap().rows(), 0);
    assert_eq!(sort(&t, &vec![SortKey { name: "a".to_string(), descending: true }]).unwrap().rows(), 0);
    let out = t.with_column("calc".to_string(), floats(&[])).unwrap();
    assert_eq!(out.rows(), 0);
    assert_eq!(out.num_columns(), 6);
}

#[test]
fn generate_draw_order_matches_rand_stream() {
    let n = 300;
    let t = generate(n, 42);
    let mut rng = StdRng::seed_from_u64(42);
    let a: Vec<f64> = (0..n).map(|_| rng.gen::<f64>()).collect();
    let b: Vec<f64> = (0..n).map(|_| rng.gen::<f64>()).collect();
    let c: Vec<i64> = (0..n).map(|_| rng.gen_range(0..3usize) as i64).collect();
    let d: Vec<i64> = (0..n).map(|_| rng.gen_range(1..100i32) as i64).collect();
    assert_eq!(float_cells(t.column("a").unwrap()), a);
    assert_eq!(float_cells(t.column("b").unwrap()), b);
    assert_eq!(int_cells(t.column("c").unwrap()), c);
    assert_eq!(int_cells(t.column("d").unwrap()), d);
    let cs = int_cells(t.column("c").unwrap());
    assert!((0..3).all(|code| cs.contains(&code)));
    let ds = int_cells(t.column("d").unwrap());
    assert!(ds.iter().any(|x| *x != ds[0]));
}

#[test]
fn join_generated_tables() {
    let left = generate(1000, 42);
    let small = generate(100, 42);
    let mut right = Table::new(small.rows());
    right.push_column("id".to_string(), small.column("id").unwrap().duplicate()).unwrap();
    right.push_column("value".to_string(), small.column("a").unwrap().duplicate()).unwrap();
    let r = left_join(&left, &right, "id", "id").unwrap();
    assert_eq!(r.rows(), 1000);
    assert_eq!(r.num_columns(), 6);
    let v = float_cells(r.column("value").unwrap());
    let expected = float_cells(small.column("a").unwrap());
    for i in 0..1000 {
        if i < 100 {
            assert_eq!(v[i], expected[i]);
        } else {
            assert!(v[i].is_nan());
        }
    }
}

#[test]
fn group_min_and_max() {
    let t = table(vec![
        ("c", Column::Category(vec![2, 0, 2, 2, 0])),
        ("v", Column::Int32(vec![-4, 9, 7, i32::MIN, i32::MAX])),
    ]);
    let aggs = vec![
        Aggregation { source: "v".to_string(), kind: AggKind::Min, output: "lo".to_string() },
        Aggregation { source: "v".to_string(), kind: AggKind::Max, output: "hi".to_string() },
    ];
    let r = group_by_aggregate(&t, "c", &aggs).unwrap();
    assert_eq!(int_cells(r.column("c").unwrap()), vec![2, 0]);
    assert_eq!(int_cells(r.column("lo").unwrap()), vec![i32::MIN as i64, 9]);
    assert_eq!(int_cells(r.column("hi").unwrap()), vec![7, i32::MAX as i64]);
    let on_category = vec![Aggregation { source: "c".to_string(), kind: AggKind::Max, output: "m".to_string() }];
    assert_eq!(
        group_by_aggregate(&t, "c", &on_category).unwrap_err(),
        TableError::TypeMismatch(Kind::Int32, Kind::Category)
    );
}
