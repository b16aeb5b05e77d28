use ukulele_chords::grid::combine_diagrams_grid;

#[test]
fn grid_three_equal_blocks_wrap_after_two() {
    // widths 20, 20, 20 with spacing 2 under a limit of 45:
    // 20 + 2 + 20 = 42 fits, adding the third (44 + 2 + 20) does not
    let a = "a".repeat(20);
    let b = "b".repeat(20);
    let c = "c".repeat(20);
    let diagrams = vec![a.clone(), b.clone(), c.clone()];
    let out = combine_diagrams_grid(&diagrams, 45, 2);
    assert_eq!(out, vec![format!("{}  {}", a, b), String::new(), c, String::new()]);
}

#[test]
fn grid_pads_cells_and_fills_short_blocks() {
    let diagrams = vec!["ab\ncdef".to_string(), "x".to_string()];
    let out = combine_diagrams_grid(&diagrams, 45, 2);
    assert_eq!(
        out,
        vec![
            "ab    x".to_string(),
            "cdef   ".to_string(),
            String::new(),
        ]
    );
}

#[test]
fn grid_counts_display_columns_not_chars() {
    // two fullwidth characters occupy four columns, so the second
    // block does not fit beside them under a limit of five
    let diagrams = vec!["日本".to_string(), "xy".to_string()];
    let out = combine_diagrams_grid(&diagrams, 5, 1);
    assert_eq!(
        out,
        vec![
            "日本".to_string(),
            String::new(),
            "xy".to_string(),
            String::new(),
        ]
    );
    // counted by characters the two blocks would share a row
    let narrow = vec!["ab".to_string(), "xy".to_string()];
    let out2 = combine_diagrams_grid(&narrow, 5, 1);
    assert_eq!(out2, vec!["ab xy".to_string(), String::new()]);
}

#[test]
fn grid_first_block_of_a_row_is_never_rejected() {
    let wide = "w".repeat(50);
    let diagrams = vec![wide.clone(), "z".to_string()];
    let out = combine_diagrams_grid(&diagrams, 10, 2);
    assert_eq!(
        out,
        vec![wide, String::new(), "z".to_string(), String::new()]
    );
}

#[test]
fn grid_is_deterministic() {
    let diagrams = vec![
        "one\nblock".to_string(),
        "two".to_string(),
        "three\nlines\nhere".to_string(),
    ];
    let first = combine_diagrams_grid(&diagrams, 12, 2);
    let second = combine_diagrams_grid(&diagrams, 12, 2);
    assert_eq!(first, second);
}

#[test]
fn grid_empty_input_yields_no_lines() {
    let diagrams: Vec<String> = Vec::new();
    let out = combine_diagrams_grid(&diagrams, 10, 2);
    assert!(out.is_empty());
}
