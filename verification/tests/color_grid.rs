use inline_collection::color_grid::{default_color, parse_position};
use inline_collection::{ColorGrid, Msg, Position};

fn rows(grid: &ColorGrid) -> Vec<Vec<String>> {
    (0..grid.height())
        .map(|y| (0..grid.width()).map(|x| grid.color(x, y).clone()).collect())
        .collect()
}

#[test]
fn grid_starts_black() {
    let grid = ColorGrid::create(2, 3);
    assert_eq!(grid.width(), 2);
    assert_eq!(grid.height(), 3);
    assert!(rows(&grid).iter().flatten().all(|c| c == "#000000"));
    assert_eq!(default_color(), "#000000");
}

#[test]
fn grid_add_row_front_and_back() {
    let mut grid = ColorGrid::create(2, 2);
    assert!(grid.update(Msg::SetColor { x: 1, y: 0, color: "#ff0000".to_string() }));
    assert!(grid.update(Msg::AddRow { index: 0 }));
    assert_eq!(grid.height(), 3);
    assert_eq!(grid.color(1, 1), "#ff0000");
    assert!(grid.update(Msg::AddRow { index: -1 }));
    assert_eq!(grid.height(), 4);
    assert_eq!(grid.color(1, 1), "#ff0000");
    assert_eq!(grid.color(1, 3), "#000000");
}

#[test]
fn grid_add_column_front_and_back() {
    let mut grid = ColorGrid::create(2, 2);
    grid.update(Msg::SetColor { x: 0, y: 1, color: "#00ff00".to_string() });
    grid.update(Msg::AddColumn { index: 0 });
    assert_eq!(grid.width(), 3);
    assert_eq!(grid.color(1, 1), "#00ff00");
    grid.update(Msg::AddColumn { index: -1 });
    assert_eq!(grid.width(), 4);
    assert_eq!(rows(&grid)[1], vec!["#000000", "#00ff00", "#000000", "#000000"]);
}

#[test]
fn grid_add_column_to_empty_grid() {
    let mut grid = ColorGrid::create(0, 0);
    grid.update(Msg::AddColumn { index: -1 });
    assert_eq!(grid.width(), 1);
    assert_eq!(grid.height(), 0);
    grid.update(Msg::AddRow { index: 0 });
    assert_eq!(rows(&grid), vec![vec!["#000000".to_string()]]);
}

#[test]
fn position_reads_row_then_cell() {
    assert!(matches!(parse_position("3 14"), Position::At { y: 3, x: 14 }));
    assert!(matches!(parse_position("+0 7"), Position::At { y: 0, x: 7 }));
    assert!(matches!(parse_position("1 2 3"), Position::Invalid));
    assert!(matches!(parse_position("12"), Position::Missing));
    assert!(matches!(parse_position(" 1"), Position::Invalid));
    assert!(matches!(parse_position("a 1"), Position::Invalid));
    assert!(matches!(parse_position("99999999999999999999999 1"), Position::Invalid));
}

#[test]
fn grid_accepts_only_edits_that_fit() {
    let grid = ColorGrid::create(2, 2);
    assert!(grid.accepts_msg(&Msg::AddRow { index: 2 }));
    assert!(!grid.accepts_msg(&Msg::AddRow { index: 3 }));
    assert!(grid.accepts_msg(&Msg::AddRow { index: -3 }));
    assert!(!grid.accepts_msg(&Msg::AddRow { index: -4 }));
    assert!(grid.accepts_msg(&Msg::AddColumn { index: -1 }));
    assert!(!grid.accepts_msg(&Msg::AddColumn { index: 5 }));
    assert!(grid.accepts_msg(&Msg::SetColor { x: 1, y: 1, color: String::new() }));
    assert!(!grid.accepts_msg(&Msg::SetColor { x: 2, y: 0, color: String::new() }));
    let empty = ColorGrid::create(3, 0);
    assert!(empty.accepts_msg(&Msg::AddColumn { index: 7 }));
}

#[test]
fn grid_add_row_at_negative_index() {
    let mut grid = ColorGrid::create(1, 2);
    grid.update(Msg::SetColor { x: 0, y: 0, color: "#111111".to_string() });
    grid.update(Msg::AddRow { index: -3 });
    assert_eq!(grid.height(), 3);
    assert_eq!(grid.color(0, 1), "#111111");
}
