use minesweeper::field::Field;
use std::num::NonZeroUsize;

fn create_test_field(visible: bool) -> Field {
    let mines = vec![
        vec![false, false, false],
        vec![false, false, false],
        vec![false, false, false],
        vec![false, false, false],
        vec![false, false, false], // 1
        vec![ true, false, false], // 2
        vec![ true, false, false], // 3
        vec![ true, false, false], // 4
        vec![ true, false,  true], // 5
        vec![ true, false,  true], // 6
        vec![ true, false,  true], // 7
        vec![ true,  true,  true],
        vec![ true, false,  true], // 8
        vec![ true,  true,  true],
    ];
    let can_see = vec![vec![visible, visible, visible]; 14];
    return Field::from_raw(mines, can_see).unwrap();
}

#[test]
fn test_field_dimensions() {
    let field = Field::new(NonZeroUsize::new(10).unwrap().get(), NonZeroUsize::new(20).unwrap().get());
    assert_eq!(field.get_width(), 10);
    assert_eq!(field.get_height(), 20);
}

#[test]
fn test_out_of_bounds() {
    let field = Field::new(NonZeroUsize::new(10).unwrap().get(), NonZeroUsize::new(20).unwrap().get());
    assert_eq!(field.is_inside(0, 0), true);
    assert_eq!(field.is_inside(9, 0), true);
    assert_eq!(field.is_inside(9, 19), true);
    assert_eq!(field.is_inside(0, 19), true);
    assert_eq!(field.is_inside(0, 20), false);
    assert_eq!(field.is_inside(10, 0), false);
}

#[test]
fn test_zero_mines() {
    let field = create_test_field(false);
    assert_eq!(field.get_amount(0, 0), 0);
    assert_eq!(field.get_amount(0, 1), 0);
    assert_eq!(field.get_amount(0, 2), 0);
    assert_eq!(field.get_amount(1, 0), 0);
    assert_eq!(field.get_amount(1, 1), 0);
    assert_eq!(field.get_amount(1, 2), 0);
}

#[test]
fn test_one_mine() {
    let field = create_test_field(false);
    assert_eq!(field.get_amount(1, 4), 1);
}

#[test]
fn test_two_mines() {
    let field = create_test_field(false);
    assert_eq!(field.get_amount(1, 5), 2);
}

#[test]
fn test_three_mines() {
    let field = create_test_field(false);
    assert_eq!(field.get_amount(1, 6), 3);
}

#[test]
fn test_four_mines() {
    let field = create_test_field(false);
    assert_eq!(field.get_amount(1, 7), 4);
}

#[test]
fn test_five_mines() {
    let field = create_test_field(false);
    assert_eq!(field.get_amount(1, 8), 5);
}

#[test]
fn test_six_mines() {
    let field = create_test_field(false);
    assert_eq!(field.get_amount(1, 9), 6);
}

#[test]
fn test_seven_mine() {
    let field = create_test_field(false);
    assert_eq!(field.get_amount(1, 10), 7);
}

#[test]
fn test_eight_mines() {
    let field = create_test_field(false);
    assert_eq!(field.get_amount(1, 12), 8);
}

#[test]
fn test_not_visible_empty_quad() {
    let field = create_test_field(false);
    assert_eq!(field.get_view_character(0, 0).unwrap(), '-');
}

#[test]
fn test_not_visible_mine() {
    let field = create_test_field(false);
    assert_eq!(field.get_view_character(0, 5).unwrap(), '-');
}

#[test]
fn test_not_visible_one() {
    let field = create_test_field(false);
    assert_eq!(field.get_view_character(1, 4).unwrap(), '-');
}

#[test]
fn test_not_visible_two() {
    let field = create_test_field(false);
    assert_eq!(field.get_view_character(1, 5).unwrap(), '-');
}

#[test]
fn test_not_visible_three() {
    let field = create_test_field(false);
    assert_eq!(field.get_view_character(1, 6).unwrap(), '-');
}

#[test]
fn test_not_visible_four() {
    let field = create_test_field(false);
    assert_eq!(field.get_view_character(1, 7).unwrap(), '-');
}

#[test]
fn test_not_visible_five() {
    let field = create_test_field(false);
    assert_eq!(field.get_view_character(1, 8).unwrap(), '-');
}

#[test]
fn test_not_visible_six() {
    let field = create_test_field(false);
    assert_eq!(field.get_view_character(1, 9).unwrap(), '-');
}

#[test]
fn test_not_visible_seven() {
    let field = create_test_field(false);
    assert_eq!(field.get_view_character(1, 10).unwrap(), '-');
}

#[test]
fn test_not_visible_eight() {
    let field = create_test_field(false);
    assert_eq!(field.get_view_character(1, 12).unwrap(), '-');
}

#[test]
fn test_visible_empty_quad() {
    let field = create_test_field(true);
    assert_eq!(field.get_view_character(0, 0).unwrap(), ' ');
}

#[test]
fn test_visible_mine() {
    let field = create_test_field(true);
    assert_eq!(field.get_view_character(0, 5).unwrap(), '*');
}

#[test]
fn test_visible_one() {
    let field = create_test_field(true);
    assert_eq!(field.get_view_character(1, 4).unwrap(), '1');
}

#[test]
fn test_visible_two() {
    let field = create_test_field(true);
    assert_eq!(field.get_view_character(1, 5).unwrap(), '2');
}

#[test]
fn test_visible_three() {
    let field = create_test_field(true);
    assert_eq!(field.get_view_character(1, 6).unwrap(), '3');
}

#[test]
fn test_visible_four() {
    let field = create_test_field(true);
    assert_eq!(field.get_view_character(1, 7).unwrap(), '4');
}

#[test]
fn test_visible_five() {
    let field = create_test_field(true);
    assert_eq!(field.get_view_character(1, 8).unwrap(), '5');
}

#[test]
fn test_visible_six() {
    let field = create_test_field(true);
    assert_eq!(field.get_view_character(1, 9).unwrap(), '6');
}

#[test]
fn test_visible_seven() {
    let field = create_test_field(true);
    assert_eq!(field.get_view_character(1, 10).unwrap(), '7');
}

#[test]
fn test_visible_eight() {
    let field = create_test_field(true);
    assert_eq!(field.get_view_character(1, 12).unwrap(), '8');
}

#[test]
fn test_spread() {
    let mut field = create_test_field(false);
    let _ = field.click(0, 0);
    let expected_result = [
        [' ', ' ', ' '],
        [' ', ' ', ' '],
        [' ', ' ', ' '],
        [' ', ' ', ' '],
        ['1', '1', ' '],
        ['-', '2', ' '],
        ['-', '3', ' '],
        ['-', '4', '1'],
        ['-', '-', '-'],
        ['-', '-', '-'],
        ['-', '-', '-'],
        ['-', '-', '-'],
        ['-', '-', '-'],
        ['-', '-', '-'],
    ];
    for y in 0..field.get_height() {
        for x in 0..field.get_width() {
            assert_eq!(expected_result[y][x], field.get_view_character(x, y).unwrap());
        }
    }
}
