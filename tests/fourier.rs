use line_to_equation::{closed_samples, construct_equation, frequency_count};

fn texts(n: usize) -> Vec<(String, String)> {
    (0..n).map(|i| (format!("a{}", i), format!("b{}", i))).collect()
}

#[test]
fn frequency_count_is_capped() {
    assert_eq!(frequency_count(0), 0);
    assert_eq!(frequency_count(7), 3);
    assert_eq!(frequency_count(80), 40);
    assert_eq!(frequency_count(81), 40);
    assert_eq!(frequency_count(1000), 40);
}

#[test]
fn samples_are_mirrored() {
    let pts = vec![(0, 0), (1, 0), (1, 1)];
    assert_eq!(
        closed_samples(&pts),
        vec![(0, 0), (1, 0), (1, 1), (1, 1), (1, 0), (0, 0)]
    );
    assert!(closed_samples(&[]).is_empty());
}

#[test]
fn equation_text() {
    let pts = vec![(0, 0), (1, 0), (1, 1)];
    let eq = construct_equation(&pts, &texts(3));
    assert_eq!(
        eq,
        "((a0 cos(-1t) - b0 sin(-1t)+a1 cos(0t) - b1 sin(0t)+a2 cos(1t) - b2 sin(1t)),\
         -(a0 sin(-1t) + b0 cos(-1t)+a1 sin(0t) + b1 cos(0t)+a2 sin(1t) + b2 cos(1t)))"
    );
}

#[test]
fn equation_of_a_single_point() {
    let eq = construct_equation(&[(4, 5)], &[("4.5".to_string(), "-1".to_string())]);
    assert_eq!(eq, "((4.5 cos(0t) - -1 sin(0t)),-(4.5 sin(0t) + -1 cos(0t)))");
}

#[test]
fn equation_frequencies_run_to_the_cap() {
    let pts: Vec<(i32, i32)> = (0..100).map(|i| (i, 0)).collect();
    let eq = construct_equation(&pts, &texts(81));
    assert!(eq.starts_with("((a0 cos(-40t) - b0 sin(-40t)+a1 cos(-39t)"));
    assert!(eq.contains("a80 cos(40t) - b80 sin(40t)),-("));
    assert!(eq.ends_with("a80 sin(40t) + b80 cos(40t)))"));
}
