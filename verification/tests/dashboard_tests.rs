use wotwot::dashboard::{
    block_label, docker_pane_height, docker_row, index_label, info_pane, pane_title, quits,
    quote, tick_cursors, todo_rows, BlockLabel, Key, TodoRow, QUOTE_COUNT,
};
use wotwot::items::{DockerSvc, InfoItem};

#[test]
fn tick_rotates_both_cursors() {
    assert_eq!(tick_cursors(3, 0, 0), (1, 1));
    assert_eq!(tick_cursors(3, 2, 7), (0, 0));
    assert_eq!(tick_cursors(0, 5, 3), (5, 4));
    assert_eq!(tick_cursors(2, 9, 0), (0, 1));
}

#[test]
fn cursor_visits_every_item_and_returns() {
    let n = 5;
    let mut c = 2;
    let mut seen = vec![false; n];
    for _ in 0..n {
        seen[c] = true;
        c = tick_cursors(n, c, 0).0;
    }
    assert_eq!(c, 2);
    assert!(seen.iter().all(|s| *s));
}

#[test]
fn info_pane_shows_item_under_cursor() {
    let items = vec![
        InfoItem { id: "a".into(), text: "first".into() },
        InfoItem { id: "b".into(), text: "second".into() },
    ];
    assert_eq!(info_pane(&items, 1, 0), ("info 2/2".to_string(), "second".to_string()));
    assert_eq!(info_pane(&items, 7, 0), ("info 2/2".to_string(), "second".to_string()));
    assert_eq!(info_pane(&items, 0, 3), ("info 1/2".to_string(), "first".to_string()));
}

#[test]
fn info_pane_falls_back_to_quotes() {
    assert_eq!(
        info_pane(&Vec::new(), 0, 0),
        ("quote".to_string(), "Make it work, then make it right.".to_string())
    );
    assert_eq!(
        info_pane(&Vec::new(), 0, 11),
        ("quote".to_string(), "Boring tech ships.".to_string())
    );
    assert_eq!(QUOTE_COUNT, 8);
    assert_eq!(quote(7), "Cache invalidation is hard.");
}

#[test]
fn docker_row_cells() {
    let d = DockerSvc { name: "web".into(), cpu: "0.52%".into() };
    let (left, right) = docker_row(&d);
    assert_eq!(left, format!("{:<38} ", "web"));
    assert_eq!(right, "   0.52%");
    let long = DockerSvc { name: "a".repeat(50), cpu: "123.45678%".into() };
    let (left, right) = docker_row(&long);
    assert_eq!(left, format!("{}… ", "a".repeat(37)));
    assert_eq!(right, "123.45678%");
}

#[test]
fn index_labels_are_right_aligned() {
    assert_eq!(index_label(0), " 1. ");
    assert_eq!(index_label(8), " 9. ");
    assert_eq!(index_label(9), "10. ");
    assert_eq!(index_label(122), "123. ");
}

#[test]
fn docker_pane_height_counts_borders_and_rows() {
    assert_eq!(docker_pane_height(0), 3);
    assert_eq!(docker_pane_height(1), 3);
    assert_eq!(docker_pane_height(4), 6);
}

#[test]
fn pane_titles_and_quit_keys() {
    assert_eq!(pane_title("todos"), " todos ");
    assert!(quits(&Key::Char('q'), false));
    assert!(quits(&Key::Esc, false));
    assert!(quits(&Key::Char('c'), true));
    assert!(!quits(&Key::Char('c'), false));
    assert!(!quits(&Key::Other, true));
}

#[test]
fn todo_rows_number_indent_and_separate() {
    let rows = todo_rows(&vec![2, 0, 1]);
    let expected = vec![
        TodoRow::Numbered { todo: 0, body_line: Some(0) },
        TodoRow::Indented { todo: 0, line: 1 },
        TodoRow::Blank,
        TodoRow::Numbered { todo: 1, body_line: None },
        TodoRow::Blank,
        TodoRow::Numbered { todo: 2, body_line: Some(0) },
    ];
    assert_eq!(rows.len(), expected.len());
    for (a, b) in rows.iter().zip(expected.iter()) {
        assert_eq!(format!("{:?}", a), format!("{:?}", b));
    }
    assert!(todo_rows(&Vec::new()).is_empty());
}

#[test]
fn block_labels() {
    assert!(matches!(block_label(Some(5), Some(10)), BlockLabel::Limited { used: 5, limit: 10 }));
    assert!(matches!(block_label(Some(5), Some(0)), BlockLabel::Unlimited { used: 5 }));
    assert!(matches!(block_label(Some(5), None), BlockLabel::Unlimited { used: 5 }));
    assert!(matches!(block_label(None, Some(10)), BlockLabel::Inactive));
}

#[test]
fn all_eight_quotes() {
    let expected = [
        "Make it work, then make it right.",
        "Small commits, big confidence.",
        "Naming is half the design.",
        "Boring tech ships.",
        "Read the error message.",
        "Optimise for the reader.",
        "Delete code; it's a liability.",
        "Cache invalidation is hard.",
    ];
    for (i, q) in expected.iter().enumerate() {
        assert_eq!(quote(i), *q);
        assert_eq!(info_pane(&Vec::new(), 3, i + 8), ("quote".to_string(), q.to_string()));
    }
}
