use pyspy::flamegraph::Flamegraph;

#[test]
fn test_invalid_time_interval() {
    let mut test_flame = Flamegraph::new(true);
    let stack_trace_a = "test_stack_trace_a";
    let stack_trace_b = "test_stack_trace_b";

    // Insert two records
    test_flame.add_count(stack_trace_a, 5, 2).unwrap();
    test_flame.add_count(stack_trace_b, 10, 2).unwrap();

    let test_ret = test_flame.filter_records(5, 0);
    assert!(test_ret.is_empty());

    let test_ret = test_flame.filter_records(5, 5);
    assert!(test_ret.is_empty());

    let test_ret = test_flame.filter_records(5, 6);
    let stack_trace_a = String::from(stack_trace_a);
    assert_eq!(test_ret.len(), 1);
    assert!(test_ret.contains_key(&stack_trace_a));
    assert_eq!(test_ret.get(&stack_trace_a).unwrap_or(0), 2);

    let test_ret = test_flame.filter_records(10, 0);
    assert!(test_ret.is_empty());

    let test_ret = test_flame.filter_records(10, 10);
    assert!(test_ret.is_empty());

    let test_ret = test_flame.filter_records(10, 11);
    let stack_trace_b = String::from(stack_trace_b);
    assert_eq!(test_ret.len(), 1);
    assert!(test_ret.contains_key(&stack_trace_b));
    assert_eq!(test_ret.get(&stack_trace_b).unwrap_or(0), 2);
}

#[test]
fn test_single_value_filtering() {
    let mut test_flame = Flamegraph::new(true);
    let stack_trace_a = "test_stack_trace_a";
    let stack_trace_b = "test_stack_trace_b";

    // Insert two records
    test_flame.add_count(stack_trace_a, 5, 3).unwrap();
    test_flame.add_count(stack_trace_b, 10, 3).unwrap();

    let test_ret = test_flame.filter_records(5, 10);
    let stack_trace_a = String::from(stack_trace_a);
    assert_eq!(test_ret.len(), 1);
    assert!(test_ret.contains_key(&stack_trace_a));
    assert_eq!(test_ret.get(&stack_trace_a).unwrap_or(0), 3);

    let test_ret = test_flame.filter_records(10, 11);
    let stack_trace_b = String::from(stack_trace_b);
    assert_eq!(test_ret.len(), 1);
    assert!(test_ret.contains_key(&stack_trace_b));
    assert_eq!(test_ret.get(&stack_trace_b).unwrap_or(0), 3);

    let test_ret = test_flame.filter_records(5, 11);
    assert_eq!(test_ret.len(), 2);
    assert!(test_ret.contains_key(&stack_trace_a));
    assert_eq!(test_ret.get(&stack_trace_a).unwrap_or(0), 3);
    assert!(test_ret.contains_key(&stack_trace_b));
    assert_eq!(test_ret.get(&stack_trace_b).unwrap_or(0), 3);
}

#[test]
fn test_multiple_values_aggregation() {
    let mut test_flame = Flamegraph::new(true);
    let stack_trace_a = "test_stack_trace_a";
    let stack_trace_b = "test_stack_trace_b";

    // Insert records into stack_trace_a
    test_flame.add_count(stack_trace_a, 5, 1).unwrap();
    test_flame.add_count(stack_trace_a, 10, 2).unwrap();
    test_flame.add_count(stack_trace_a, 15, 3).unwrap();

    // Insert records into stack_trace_b
    test_flame.add_count(stack_trace_b, 7, 4).unwrap();
    test_flame.add_count(stack_trace_b, 12, 5).unwrap();
    test_flame.add_count(stack_trace_b, 19, 6).unwrap();

    let stack_trace_a = String::from(stack_trace_a);
    let stack_trace_b = String::from(stack_trace_b);

    let test_ret = test_flame.filter_records(5, 21);
    assert_eq!(test_ret.len(), 2);
    assert!(test_ret.contains_key(&stack_trace_a));
    assert!(test_ret.contains_key(&stack_trace_b));
    assert_eq!(test_ret.get(&stack_trace_a).unwrap_or(0), 6);
    assert_eq!(test_ret.get(&stack_trace_b).unwrap_or(0), 15);
}

#[test]
fn test_invalid_interval_is_reported() {
    let mut flame = Flamegraph::new(true);
    flame.add_count("p", 5, 2).unwrap();
    assert!(flame.filter_records(10, 0).invalid_interval);
    assert!(flame.filter_records(5, 5).invalid_interval);
    assert!(!flame.filter_records(5, 6).invalid_interval);
}

#[test]
fn test_get_lines_totals() {
    let mut flame = Flamegraph::new(true);
    flame.add_count("beta", 0, 2).unwrap();
    flame.add_count("alpha", 3, 1).unwrap();
    flame.add_count("beta", 4, 5).unwrap();
    let lines = flame.get_lines();
    // Lines are sorted by path and carry the total across all buckets.
    assert_eq!(lines, vec![String::from("alpha 1"), String::from("beta 7")]);
}

#[test]
fn test_filtered_lines() {
    let mut flame = Flamegraph::new(false);
    flame.add_count("a", 1, 2).unwrap();
    flame.add_count("b", 3, 4).unwrap();
    let filtered = flame.filter_records(0, 2);
    assert_eq!(filtered.lines(), vec![String::from("a 2")]);
    let all = flame.filter_records(0, 100);
    assert_eq!(all.lines(), vec![String::from("a 2"), String::from("b 4")]);
}
