use line_to_equation::{is_palindrome, remove_end_palindrome, remove_start_palindrome};

#[test]
fn img_to_line_test_remove_end_palindrome() {
    let mut path1 = vec![(0, 0), (1, 1), (2, 2), (3, 3), (4, 4), (5, 5), (6, 6)];
    remove_end_palindrome(&mut path1);
    assert_eq!(
        path1,
        vec![(0, 0), (1, 1), (2, 2), (3, 3), (4, 4), (5, 5), (6, 6)]
    );
}

#[test]
fn img_to_line_test_remove_end_palindrome2() {
    let mut path2 = vec![
        (0, 0),
        (1, 1),
        (2, 2),
        (3, 3),
        (4, 4),
        (5, 5),
        (6, 6),
        (5, 5),
        (4, 4),
        (3, 3),
        (2, 2),
        (1, 1),
        (0, 0),
    ];
    remove_end_palindrome(&mut path2);
    assert_eq!(
        path2,
        vec![(0, 0), (1, 1), (2, 2), (3, 3), (4, 4), (5, 5), (6, 6)]
    );
}

#[test]
fn img_to_line_test_remove_end_palindrome3() {
    let mut path2 = vec![
        (0, 0),
        (1, 1),
        (0, 1),
        (2, 2),
        (3, 3),
        (4, 4),
        (5, 5),
        (6, 6),
        (5, 5),
        (4, 4),
        (3, 3),
        (2, 2),
        (0, 1),
        (1, 1),
        (0, 0),
    ];
    remove_end_palindrome(&mut path2);
    assert_eq!(
        path2,
        vec![
            (0, 0),
            (1, 1),
            (0, 1),
            (2, 2),
            (3, 3),
            (4, 4),
            (5, 5),
            (6, 6)
        ]
    );
}

#[test]
fn img_to_line_test_remove_start_palindrome() {
    let mut path1 = vec![(0, 0), (1, 1), (2, 2), (3, 3), (4, 4), (5, 5), (6, 6)];
    remove_start_palindrome(&mut path1);
    assert_eq!(
        path1,
        vec![(0, 0), (1, 1), (2, 2), (3, 3), (4, 4), (5, 5), (6, 6)]
    );
}

#[test]
fn img_to_line_test_remove_start_palindrome2() {
    let mut path2 = vec![
        (0, 0),
        (1, 1),
        (2, 2),
        (3, 3),
        (4, 4),
        (5, 5),
        (6, 6),
        (5, 5),
        (4, 4),
        (3, 3),
        (2, 2),
        (1, 1),
        (0, 0),
    ];
    remove_start_palindrome(&mut path2);
    assert_eq!(
        path2,
        vec![(6, 6), (5, 5), (4, 4), (3, 3), (2, 2), (1, 1), (0, 0)]
    );
}

#[test]
fn img_to_line_test_remove_start_palindrome3() {
    let mut path2 = vec![
        (0, 0),
        (1, 1),
        (0, 0),
        (2, 2),
        (3, 3),
        (4, 4),
        (5, 5),
        (6, 6),
        (5, 5),
        (4, 4),
        (3, 3),
        (2, 2),
        (1, 1),
        (0, 0),
    ];
    remove_start_palindrome(&mut path2);
    assert_eq!(
        path2,
        vec![
            (1, 1),
            (0, 0),
            (2, 2),
            (3, 3),
            (4, 4),
            (5, 5),
            (6, 6),
            (5, 5),
            (4, 4),
            (3, 3),
            (2, 2),
            (1, 1),
            (0, 0)
        ]
    );
}

#[test]
fn palindrome_ranges() {
    let path = vec![(1, 2), (3, 4), (1, 2), (9, 9)];
    assert!(is_palindrome(0, 2, &path));
    assert!(!is_palindrome(0, 3, &path));
    assert!(is_palindrome(3, 3, &path));
    assert!(is_palindrome(3, 1, &path));
}

#[test]
fn empty_path_is_left_alone() {
    let mut a: Vec<(i32, i32)> = vec![];
    remove_end_palindrome(&mut a);
    assert!(a.is_empty());
    remove_start_palindrome(&mut a);
    assert!(a.is_empty());
}
