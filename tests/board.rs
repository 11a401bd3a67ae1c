use minesweeper::field::{Fail, Field};

fn grid(rows: &[&str]) -> Vec<Vec<bool>> {
    rows.iter().map(|r| r.chars().map(|c| c == '*').collect()).collect()
}

fn hidden(width: usize, height: usize) -> Vec<Vec<bool>> {
    vec![vec![false; width]; height]
}

fn picture(field: &Field) -> Vec<String> {
    (0..field.get_height())
        .map(|y| (0..field.get_width()).map(|x| field.get_view_character(x, y).unwrap()).collect())
        .collect()
}

#[test]
fn new_board_holds_fifteen_percent_mines() {
    let mut field = Field::new(10, 20);
    let mut mines = 0;
    for y in 0..20 {
        for x in 0..10 {
            if field.click(x, y) == Err(Fail::MineExploded) {
                mines += 1;
            }
        }
    }
    assert_eq!(mines, 30);
    assert!(field.all_non_mine_visible());
}

#[test]
fn new_small_board_has_no_mines() {
    let mut field = Field::new(2, 3);
    assert_eq!(field.get_view_character(0, 0), Some('-'));
    assert_eq!(field.click(1, 1), Ok(()));
    assert!(field.all_non_mine_visible());
    assert_eq!(picture(&field), vec!["  ", "  ", "  "]);
}

#[test]
fn new_board_starts_hidden() {
    let field = Field::new(7, 3);
    for y in 0..3 {
        for x in 0..7 {
            assert_eq!(field.get_view_character(x, y), Some('-'));
        }
    }
    assert_eq!(field.get_view_character(7, 0), None);
}

#[test]
fn from_raw_rejects_mismatched_rows() {
    assert!(Field::from_raw(grid(&["..", ".."]), hidden(2, 3)).is_none());
    assert!(Field::from_raw(grid(&["..", ".."]), hidden(3, 2)).is_none());
}

#[test]
fn from_raw_rejects_empty_grids() {
    assert!(Field::from_raw(vec![], vec![]).is_none());
    assert!(Field::from_raw(vec![vec![]], vec![vec![]]).is_none());
}

#[test]
fn from_raw_rejects_ragged_rows() {
    assert!(Field::from_raw(grid(&["...", ".."]), vec![vec![false; 3], vec![false; 2]]).is_none());
}

#[test]
fn from_raw_accepts_fitting_grids() {
    let field = Field::from_raw(grid(&["..*", "..."]), hidden(3, 2)).unwrap();
    assert_eq!(field.get_width(), 3);
    assert_eq!(field.get_height(), 2);
}

#[test]
fn click_one_past_each_edge_is_out_of_bounds() {
    let mut field = Field::from_raw(grid(&["*..", "..."]), hidden(3, 2)).unwrap();
    assert_eq!(field.click(3, 0), Err(Fail::OutOfBounds));
    assert_eq!(field.click(0, 2), Err(Fail::OutOfBounds));
    assert_eq!(field.click(usize::MAX, usize::MAX), Err(Fail::OutOfBounds));
    assert_eq!(picture(&field), vec!["---", "---"]);
}

#[test]
fn click_on_mine_explodes_and_shows_it() {
    let mut field = Field::from_raw(grid(&["*..", "..."]), hidden(3, 2)).unwrap();
    assert_eq!(field.click(0, 0), Err(Fail::MineExploded));
    assert_eq!(field.get_view_character(0, 0), Some('*'));
    assert_eq!(picture(&field), vec!["*--", "---"]);
}

#[test]
fn click_on_number_shows_only_that_cell() {
    let mut field = Field::from_raw(grid(&["*...", "....", "...."]), hidden(4, 3)).unwrap();
    assert_eq!(field.click(1, 1), Ok(()));
    assert_eq!(picture(&field), vec!["----", "-1--", "----"]);
}

#[test]
fn click_on_empty_stops_at_numbers() {
    let mut field = Field::from_raw(grid(&["*...", "....", "...."]), hidden(4, 3)).unwrap();
    assert_eq!(field.click(3, 2), Ok(()));
    assert_eq!(picture(&field), vec!["-1  ", "11  ", "    "]);
    assert!(field.all_non_mine_visible());
}

#[test]
fn click_again_changes_nothing() {
    let mut field = Field::from_raw(grid(&["*...", "....", "...."]), hidden(4, 3)).unwrap();
    assert_eq!(field.click(3, 0), Ok(()));
    let first = picture(&field);
    assert_eq!(field.click(3, 0), Ok(()));
    assert_eq!(field.click(1, 1), Ok(()));
    assert_eq!(picture(&field), first);
    assert_eq!(field.click(0, 0), Err(Fail::MineExploded));
    assert_eq!(field.click(0, 0), Err(Fail::MineExploded));
}

#[test]
fn clicks_keep_size_and_seen_cells() {
    let mut field = Field::from_raw(grid(&[".*..", "....", "...*"]), hidden(4, 3)).unwrap();
    let mut seen = vec![vec![false; 4]; 3];
    for (x, y) in [(0, 0), (5, 1), (3, 0), (0, 2), (1, 0), (2, 2)] {
        let _ = field.click(x, y);
        assert_eq!(field.get_width(), 4);
        assert_eq!(field.get_height(), 3);
        for yy in 0..3 {
            for xx in 0..4 {
                let now = field.get_view_character(xx, yy) != Some('-');
                assert!(now || !seen[yy][xx]);
                seen[yy][xx] = now;
            }
        }
    }
}

#[test]
fn corner_and_edge_counts_skip_outside_cells() {
    let field = Field::from_raw(grid(&["***", "*.*", "***"]), hidden(3, 3)).unwrap();
    assert_eq!(field.get_amount(1, 1), 8);
    assert_eq!(field.get_amount(0, 0), 2);
    assert_eq!(field.get_amount(2, 2), 2);
    assert_eq!(field.get_amount(1, 0), 4);
    assert_eq!(field.get_amount(0, 1), 4);
}

#[test]
fn win_needs_every_safe_cell_seen() {
    let mut field = Field::from_raw(grid(&["*.", ".."]), hidden(2, 2)).unwrap();
    assert!(!field.all_non_mine_visible());
    assert_eq!(field.click(1, 0), Ok(()));
    assert_eq!(field.click(0, 1), Ok(()));
    assert!(!field.all_non_mine_visible());
    assert_eq!(field.click(1, 1), Ok(()));
    assert!(field.all_non_mine_visible());
    let all_seen = Field::from_raw(grid(&["..", ".."]), vec![vec![true; 2]; 2]).unwrap();
    assert!(all_seen.all_non_mine_visible());
}
