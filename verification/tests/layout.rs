use deslop::layout::{
    progress_runs,
    centered_rect, content_heights, pane_heights, row_count_for_len, wrapped_row_count,
    wrapped_row_count_checked, Area,
};

#[test]
fn row_count_rounds_up() {
    assert_eq!(row_count_for_len(0, 10), 1);
    assert_eq!(row_count_for_len(1, 10), 1);
    assert_eq!(row_count_for_len(10, 10), 1);
    assert_eq!(row_count_for_len(11, 10), 2);
    assert_eq!(row_count_for_len(25, 4), 7);
}

#[test]
fn row_count_zero_width_counts_as_one() {
    assert_eq!(row_count_for_len(5, 0), 5);
    assert_eq!(row_count_for_len(0, 0), 1);
}

#[test]
fn row_count_truncates_to_u16() {
    assert_eq!(row_count_for_len(65536, 1), 0);
    assert_eq!(row_count_for_len(65537, 1), 1);
    assert_eq!(row_count_for_len(usize::MAX, 2), ((usize::MAX / 2 + 1) as u16));
}

#[test]
fn wrapped_rows_per_line() {
    assert_eq!(wrapped_row_count("", 10), 1);
    assert_eq!(wrapped_row_count("abc", 10), 1);
    assert_eq!(wrapped_row_count("abc\n", 10), 2);
    assert_eq!(wrapped_row_count("abcdefghijkl\n\nxy", 5), 3 + 1 + 1);
    assert_eq!(wrapped_row_count("é€ü", 2), 2);
}

#[test]
fn wrapped_rows_overflow_is_reported() {
    let text = "\n".repeat(70000);
    assert_eq!(wrapped_row_count_checked(&text, 10), None);
    let text = "\n".repeat(65534);
    assert_eq!(wrapped_row_count_checked(&text, 10), Some(65535));
}

#[test]
fn content_heights_add_borders() {
    assert_eq!(content_heights("abc\ndef", 12, 5), Some((4, 5)));
    assert_eq!(content_heights(&"\n".repeat(65533), 0, 5), None);
    assert_eq!(content_heights("a", 65535 * 3, 3), None);
}

#[test]
fn panes_fill_the_body() {
    // caps as round(20 * 0.42) and round(20 * 0.30)
    assert_eq!(pane_heights(20, 1, 1, 8, 6), Some((3, 3, 14)));
    assert_eq!(pane_heights(20, 12, 12, 8, 6), Some((7, 3, 10)));
    assert_eq!(pane_heights(20, 5, 4, 8, 6), Some((5, 4, 11)));
}

#[test]
fn panes_shrink_diff_first() {
    // the editor is owed 8 of 15 rows: 8 + 6 + 8 = 22, so diff gives 3, then original 4
    assert_eq!(pane_heights(15, 20, 20, 8, 6), Some((4, 3, 8)));
    assert_eq!(pane_heights(17, 20, 20, 8, 6), Some((5, 3, 9)));
}

#[test]
fn editor_keeps_most_of_the_room() {
    // 50 rows, caps round(50 * 0.42) and round(50 * 0.30)
    assert_eq!(pane_heights(50, 50, 50, 21, 15), Some((21, 4, 25)));
    assert_eq!(pane_heights(12, 50, 50, 5, 4), Some((3, 3, 6)));
}

#[test]
fn panes_in_a_tiny_body() {
    assert_eq!(pane_heights(8, 10, 10, 3, 2), Some((3, 3, 2)));
    assert_eq!(pane_heights(4, 10, 10, 2, 1), Some((3, 3, 0)));
}

#[test]
fn pane_split_laws_on_many_inputs() {
    for avail in 0u16..60 {
        let max_orig = ((avail as f32) * 0.42).round() as u16;
        let max_diff = ((avail as f32) * 0.30).round() as u16;
        for orig_h in [0u16, 2, 3, 7, 30] {
            for diff_h in [0u16, 3, 5, 40] {
                let (o, d, e) = pane_heights(avail, orig_h, diff_h, max_orig, max_diff).unwrap();
                assert!(o >= 3 && d >= 3);
                assert!(o <= max_orig.max(3) && d <= max_diff.max(3));
                if avail >= 6 {
                    assert_eq!(o + d + e, avail);
                }
                if avail >= 11 {
                    assert!(e >= 5);
                }
                if avail >= 12 {
                    assert!(2 * e >= avail);
                }
            }
        }
    }
}

#[test]
fn pane_heights_overflow_is_reported() {
    assert_eq!(pane_heights(100, 40000, 40000, 40000, 40000), None);
}

#[test]
fn centered_in_area() {
    let area = Area { x: 0, y: 0, width: 100, height: 20 };
    assert_eq!(centered_rect(40, 5, area), Some(Area { x: 30, y: 7, width: 40, height: 5 }));
    let small = Area { x: 2, y: 3, width: 10, height: 4 };
    assert_eq!(centered_rect(40, 5, small), Some(Area { x: 2, y: 3, width: 10, height: 4 }));
    let odd = Area { x: 1, y: 1, width: 9, height: 8 };
    assert_eq!(centered_rect(4, 5, odd), Some(Area { x: 3, y: 2, width: 4, height: 5 }));
}

#[test]
fn centered_overflow_is_reported() {
    let far = Area { x: 65530, y: 0, width: 20, height: 5 };
    assert_eq!(centered_rect(2, 5, far), None);
}

#[test]
fn progress_runs_split_the_bar() {
    assert_eq!(progress_runs(7, 3, 20), (7, 13));
    assert_eq!(progress_runs(25, 3, 20), (20, 0));
    assert_eq!(progress_runs(5, 0, 20), (0, 20));
    assert_eq!(progress_runs(3, 1, 0), (1, 0));
}
