use microbit::gpio::DisplayPins;
use microbit::line::{Action, Level, Line};

fn drain<const R: usize, const C: usize>(pins: &mut DisplayPins<R, C>) -> Vec<Action> {
    let mut actions = Vec::new();
    while let Some(action) = pins.next_action() {
        actions.push(action);
    }
    actions
}

fn rows<const R: usize, const C: usize>(pins: &DisplayPins<R, C>) -> Vec<Level> {
    (0..R).map(|i| pins.row_level(i).unwrap()).collect()
}

fn cols<const R: usize, const C: usize>(pins: &DisplayPins<R, C>) -> Vec<Level> {
    (0..C).map(|j| pins.col_level(j).unwrap()).collect()
}

fn low(line: Line) -> Action {
    Action::Drive(line, Level::Low)
}

fn high(line: Line) -> Action {
    Action::Drive(line, Level::High)
}

#[test]
fn fresh_pins_are_low_and_settled() {
    let mut v1 = DisplayPins::v1();
    assert!(v1.is_settled());
    assert_eq!(rows(&v1), vec![Level::Low; 3]);
    assert_eq!(cols(&v1), vec![Level::Low; 9]);
    assert_eq!(v1.next_action(), None);
    let v2 = DisplayPins::v2();
    assert_eq!(rows(&v2), vec![Level::Low; 5]);
    assert_eq!(cols(&v2), vec![Level::Low; 5]);
}

#[test]
fn levels_of_lines_that_are_not_there() {
    let v1 = DisplayPins::v1();
    assert_eq!(v1.row_level(2), Some(Level::Low));
    assert_eq!(v1.row_level(3), None);
    assert_eq!(v1.col_level(8), Some(Level::Low));
    assert_eq!(v1.col_level(9), None);
    let v2 = DisplayPins::v2();
    assert_eq!(v2.row_level(4), Some(Level::Low));
    assert_eq!(v2.row_level(5), None);
    assert_eq!(v2.col_level(5), None);
}

#[test]
fn pins_carry_the_layout_of_their_revision() {
    assert_eq!(DisplayPins::v1().layout().locate(1, 0), (2, 3));
    assert_eq!(DisplayPins::v2().layout().locate(1, 0), (1, 0));
}

#[test]
fn initialise_drives_every_column_high() {
    let mut pins = DisplayPins::v1();
    pins.initialise_for_display();
    assert!(!pins.is_settled());
    let actions = drain(&mut pins);
    let expected: Vec<Action> = (0..9).map(|j| high(Line::Col(j))).collect();
    assert_eq!(actions, expected);
    assert_eq!(rows(&pins), vec![Level::Low; 3]);
    assert_eq!(cols(&pins), vec![Level::High; 9]);
    assert!(pins.is_settled());
}

#[test]
fn a_level_changes_when_its_write_is_handed_out() {
    let mut pins = DisplayPins::v2();
    pins.initialise_for_display();
    assert_eq!(pins.col_level(0), Some(Level::Low));
    assert_eq!(pins.next_action(), Some(high(Line::Col(0))));
    assert_eq!(pins.col_level(0), Some(Level::High));
    assert_eq!(pins.col_level(1), Some(Level::Low));
}

#[test]
fn row_leds_lights_exactly_the_listed_columns_of_the_row() {
    let mut pins = DisplayPins::v1();
    pins.initialise_for_display();
    drain(&mut pins);
    pins.display_row_leds(1, 0b1_0000_0101);
    let actions = drain(&mut pins);
    let expected = vec![
        low(Line::Row(0)),
        low(Line::Row(1)),
        low(Line::Row(2)),
        low(Line::Col(0)),
        high(Line::Col(1)),
        low(Line::Col(2)),
        high(Line::Col(3)),
        high(Line::Col(4)),
        high(Line::Col(5)),
        high(Line::Col(6)),
        high(Line::Col(7)),
        low(Line::Col(8)),
        high(Line::Row(1)),
    ];
    assert_eq!(actions, expected);
    assert_eq!(rows(&pins), vec![Level::Low, Level::High, Level::Low]);
    let l = Level::Low;
    let h = Level::High;
    assert_eq!(cols(&pins), vec![l, h, l, h, h, h, h, h, l]);
}

#[test]
fn row_leds_moves_the_lit_row() {
    let mut pins = DisplayPins::v2();
    pins.display_row_leds(4, 0b11111);
    drain(&mut pins);
    assert_eq!(pins.row_level(4), Some(Level::High));
    pins.display_row_leds(0, 0);
    drain(&mut pins);
    let h = Level::High;
    let l = Level::Low;
    assert_eq!(rows(&pins), vec![h, l, l, l, l]);
    assert_eq!(cols(&pins), vec![h; 5]);
}

#[test]
fn row_leds_of_a_row_that_is_not_there_lights_none() {
    let mut pins = DisplayPins::v1();
    pins.display_row_leds(3, 0b1);
    let actions = drain(&mut pins);
    assert_eq!(actions.len(), 12);
    assert_eq!(actions[3], low(Line::Col(0)));
    assert_eq!(rows(&pins), vec![Level::Low; 3]);
}

#[test]
fn row_leds_ignores_mask_bits_beyond_the_columns() {
    let mut pins = DisplayPins::v2();
    pins.display_row_leds(2, 0xffff_ffe0);
    let actions = drain(&mut pins);
    assert_eq!(actions.len(), 11);
    assert_eq!(cols(&pins), vec![Level::High; 5]);
    assert_eq!(pins.row_level(2), Some(Level::High));
}

#[test]
fn light_adds_the_listed_columns_and_leaves_the_others() {
    let mut pins = DisplayPins::v1();
    pins.display_row_leds(0, 0b1);
    drain(&mut pins);
    pins.light_current_row_leds(0b1_0000_0010);
    let actions = drain(&mut pins);
    assert_eq!(actions, vec![low(Line::Col(1)), low(Line::Col(8))]);
    let l = Level::Low;
    let h = Level::High;
    assert_eq!(cols(&pins), vec![l, l, h, h, h, h, h, h, l]);
    assert_eq!(rows(&pins), vec![h, l, l]);
}

#[test]
fn light_with_an_empty_mask_asks_for_nothing() {
    let mut pins = DisplayPins::v2();
    pins.light_current_row_leds(0);
    assert!(pins.is_settled());
    assert_eq!(pins.next_action(), None);
    pins.light_current_row_leds(0b10_0000);
    assert!(pins.is_settled());
    assert_eq!(pins.next_action(), None);
}

#[test]
fn light_with_the_highest_column_only() {
    let mut pins = DisplayPins::v2();
    pins.light_current_row_leds(0b1_0000);
    assert!(!pins.is_settled());
    assert_eq!(drain(&mut pins), vec![low(Line::Col(4))]);
}

#[test]
fn pins_clear_drives_rows_low_then_columns_high() {
    let mut pins = DisplayPins::v2();
    pins.display_row_leds(3, 0b00100);
    drain(&mut pins);
    pins.clear();
    let actions = drain(&mut pins);
    let mut expected: Vec<Action> = (0..5).map(|i| low(Line::Row(i))).collect();
    expected.extend((0..5).map(|j| high(Line::Col(j))));
    assert_eq!(actions, expected);
    assert_eq!(rows(&pins), vec![Level::Low; 5]);
    assert_eq!(cols(&pins), vec![Level::High; 5]);
}

#[test]
fn a_new_request_drops_the_writes_not_yet_handed_out() {
    let mut pins = DisplayPins::v2();
    pins.display_row_leds(0, 0b11111);
    assert_eq!(pins.next_action(), Some(low(Line::Row(0))));
    pins.initialise_for_display();
    let actions = drain(&mut pins);
    let expected: Vec<Action> = (0..5).map(|j| high(Line::Col(j))).collect();
    assert_eq!(actions, expected);
}

#[test]
fn never_two_rows_high_whatever_is_requested_when() {
    let mut pins = DisplayPins::v1();
    let mut step = 0u32;
    let mut seed = 12345u32;
    while step < 2000 {
        seed = seed.wrapping_mul(1664525).wrapping_add(1013904223);
        match (seed >> 24) % 8 {
            0 => pins.display_row_leds(((seed >> 8) % 4) as usize, seed >> 12),
            1 => pins.light_current_row_leds(seed >> 12),
            2 => pins.initialise_for_display(),
            3 => pins.clear(),
            _ => {
                pins.next_action();
            }
        }
        let high = rows(&pins).iter().filter(|level| **level == Level::High).count();
        assert!(high <= 1);
        step += 1;
    }
}
