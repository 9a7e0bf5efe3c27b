use udos::comm::common_lines;

fn lines(items: &[&str]) -> Vec<String> {
    items.iter().map(|s| s.to_string()).collect()
}

#[test]
fn common_lines_keeps_only_shared_lines() {
    let a = lines(&["alpha", "beta", "gamma"]);
    let b = lines(&["gamma", "delta", "alpha"]);
    assert_eq!(common_lines(&a, &b), lines(&["alpha", "gamma"]));
}

#[test]
fn common_lines_of_disjoint_inputs_is_empty() {
    let a = lines(&["one", "two"]);
    let b = lines(&["three"]);
    assert_eq!(common_lines(&a, &b), Vec::<String>::new());
}

#[test]
fn common_lines_reports_each_shared_line_once() {
    let a = lines(&["dup", "dup", "other", "dup"]);
    let b = lines(&["dup", "dup"]);
    assert_eq!(common_lines(&a, &b), lines(&["dup"]));
}

#[test]
fn common_lines_with_empty_input_is_empty() {
    let a = lines(&[]);
    let b = lines(&["x"]);
    assert_eq!(common_lines(&a, &b), Vec::<String>::new());
    assert_eq!(common_lines(&b, &a), Vec::<String>::new());
}
