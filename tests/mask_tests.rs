use qrgen::mask;

#[test]
fn test_line_penalty() {
    assert_eq!(mask::line_penalty(&vec![vec![1, 1, 1, 1]]), 0);
    assert_eq!(mask::line_penalty(&vec![vec![1, 1, 1, 1, 1]]), 3);
    assert_eq!(mask::line_penalty(&vec![vec![1], vec![1], vec![1], vec![1], vec![1]]), 3);
    assert_eq!(mask::line_penalty(&vec![vec![1], vec![1], vec![0], vec![1], vec![1]]), 0);
    assert_eq!(mask::line_penalty(&vec![vec![1, 1, 1, 1, 1, 1]]), 4);
    assert_eq!(mask::line_penalty(&vec![vec![1, 1, 0, 1, 1, 1]]), 0);
    assert_eq!(mask::line_penalty(&vec![vec![0, 0, 0, 0, 0, 1]]), 3);
}

#[test]
fn test_square_penalty() {
    assert_eq!(mask::square_penalty(&vec![vec![1, 1], vec![1, 1]]), 3);
    assert_eq!(mask::square_penalty(&vec![vec![1, 1, 1], vec![1, 1, 1]]), 6);
    assert_eq!(mask::square_penalty(&vec![vec![1, 1, 1], vec![1, 1, 1], vec![1, 1, 1]]), 12);
    assert_eq!(mask::square_penalty(&vec![vec![0, 0, 0], vec![0, 0, 0], vec![0, 0, 1]]), 9);
    assert_eq!(mask::square_penalty(&vec![vec![0, 0], vec![0, 0]]), 3);
}

#[test]
fn test_finder_penalty() {
    assert_eq!(mask::finder_penalty(&vec![vec![1, 0, 1, 1, 1, 0, 1, 0, 0, 0, 0]]), 40);
    assert_eq!(
        mask::finder_penalty(&vec![vec![1, 0, 1, 1, 1, 0, 1, 0, 0, 0, 0], vec![1, 0, 1, 1, 1, 0, 1, 0, 0, 0, 0]]),
        80
    );
    assert_eq!(
        mask::finder_penalty(&vec![vec![0, 0, 0, 0, 1, 0, 1, 1, 1, 0, 1], vec![1, 0, 1, 1, 1, 0, 1, 0, 0, 0, 0]]),
        80
    );
    assert_eq!(
        mask::finder_penalty(&vec![
            vec![1], vec![0], vec![1], vec![1], vec![1], vec![0], vec![1], vec![0], vec![0], vec![0], vec![0]
        ]),
        40
    );
    assert_eq!(
        mask::finder_penalty(&vec![
            vec![0], vec![0], vec![0], vec![0], vec![1], vec![0], vec![1], vec![1], vec![1], vec![0], vec![1]
        ]),
        40
    );
    assert_eq!(mask::finder_penalty(&vec![vec![1, 0, 1, 1, 1, 0, 1, 0, 0, 1, 0]]), 0);
}

#[test]
fn test_same_color_penalty() {
    assert_eq!(mask::same_color_penalty(&vec![vec![1]]), 20);
    assert_eq!(mask::same_color_penalty(&vec![vec![1, 1, 1, 1]]), 20);
    assert_eq!(mask::same_color_penalty(&vec![vec![0, 0, 0, 0]]), 20);
    assert_eq!(mask::same_color_penalty(&vec![vec![0, 0, 0, 1]]), 10);
    assert_eq!(mask::same_color_penalty(&vec![vec![1, 1, 0, 0]]), 0);
}

#[test]
fn test_sum_penalty() {
    assert_eq!(
        mask::sum_penalty(&vec![vec![0, 1, 0, 1, 0, 1], vec![1, 0, 1, 0, 1, 0], vec![0, 1, 0, 1, 0, 1]]),
        0
    );
    assert_eq!(
        mask::sum_penalty(&vec![vec![0, 0, 0, 0, 0, 0], vec![0, 0, 0, 0, 0, 0], vec![0, 0, 0, 0, 0, 0]]),
        30 + 20 + 12
    );
}

#[test]
fn later_runs_count_their_full_length() {
    assert_eq!(mask::line_penalty(&vec![vec![1, 0, 0, 0, 0, 0]]), 3);
    assert_eq!(mask::line_penalty(&vec![vec![1, 1, 1, 1, 1, 0, 0, 0, 0, 0, 0, 0]]), 3 + 5);
}

#[test]
fn dark_ratio_uses_whole_fifths() {
    // 7 dark of 20: 35% gives floor(35 / 5) = 7, three from 10.
    let mut row = vec![0u8; 20];
    for i in 0..7 {
        row[i] = 1;
    }
    assert_eq!(mask::same_color_penalty(&vec![row]), 6);
}
