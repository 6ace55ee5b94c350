use microbit::gpio::DisplayPins;
use microbit::led::{Display, DEFAULT_DELAY_MS};
use microbit::line::{Action, Level, Line};

/// The lines of a board as the actions handed out leave them.
struct Board {
    rows: Vec<Level>,
    cols: Vec<Level>,
    waited_us: u64,
    dwells: usize,
}

impl Board {
    fn new(rows: usize, cols: usize) -> Self {
        Board { rows: vec![Level::Low; rows], cols: vec![Level::Low; cols], waited_us: 0, dwells: 0 }
    }

    fn perform(&mut self, action: Action) {
        match action {
            Action::Drive(Line::Row(i), level) => self.rows[i] = level,
            Action::Drive(Line::Col(j), level) => self.cols[j] = level,
            Action::Dwell(us) => {
                self.waited_us += u64::from(us);
                self.dwells += 1;
            }
        }
    }

    fn high_rows(&self) -> Vec<usize> {
        (0..self.rows.len()).filter(|i| self.rows[*i] == Level::High).collect()
    }

    fn low_cols(&self) -> Vec<usize> {
        (0..self.cols.len()).filter(|j| self.cols[*j] == Level::Low).collect()
    }

    fn at_rest(&self) -> bool {
        self.high_rows().is_empty() && self.low_cols().is_empty()
    }
}

fn drain<const R: usize, const C: usize>(display: &mut Display<R, C>) -> Vec<Action> {
    let mut actions = Vec::new();
    while let Some(action) = display.next_action() {
        actions.push(action);
    }
    actions
}

fn ready_v1() -> Display<3, 9> {
    let mut display = Display::new(DisplayPins::v1());
    drain(&mut display);
    display
}

fn ready_v2() -> Display<5, 5> {
    let mut display = Display::new(DisplayPins::v2());
    drain(&mut display);
    display
}

fn clear_of(rows: usize, cols: usize) -> Vec<Action> {
    let mut expected: Vec<Action> = (0..rows).map(|i| Action::Drive(Line::Row(i), Level::Low)).collect();
    expected.extend((0..cols).map(|j| Action::Drive(Line::Col(j), Level::High)));
    expected
}

fn slice_of(cells: &[u8], row: usize, hold_us: u32) -> Vec<Action> {
    let mut expected = vec![Action::Drive(Line::Row(row), Level::High)];
    for (j, cell) in cells.iter().enumerate() {
        if *cell > 0 {
            expected.push(Action::Drive(Line::Col(j), Level::Low));
        }
    }
    expected.push(Action::Dwell(hold_us));
    for j in 0..cells.len() {
        expected.push(Action::Drive(Line::Col(j), Level::High));
    }
    expected.push(Action::Drive(Line::Row(row), Level::Low));
    expected
}

fn lines_of<const R: usize, const C: usize>(display: &Display<R, C>) -> (Vec<Level>, Vec<Level>) {
    (
        (0..R).map(|i| display.row_level(i).unwrap()).collect(),
        (0..C).map(|j| display.col_level(j).unwrap()).collect(),
    )
}

#[test]
fn new_requests_a_full_clear() {
    let mut display = Display::new(DisplayPins::v1());
    assert_eq!(display.delay_ms(), 2);
    assert_eq!(DEFAULT_DELAY_MS, 2);
    assert!(!display.is_idle());
    assert_eq!(lines_of(&display), (vec![Level::Low; 3], vec![Level::Low; 9]));
    assert_eq!(drain(&mut display), clear_of(3, 9));
    assert!(display.is_idle());
    assert_eq!(lines_of(&display), (vec![Level::Low; 3], vec![Level::High; 9]));
    let mut display = Display::new(DisplayPins::v2());
    assert_eq!(drain(&mut display), clear_of(5, 5));
    assert_eq!(lines_of(&display), (vec![Level::Low; 5], vec![Level::High; 5]));
}

#[test]
fn new_drops_what_the_pins_had_pending() {
    let mut pins = DisplayPins::v2();
    pins.display_row_leds(1, 0b11);
    let mut display = Display::new(pins);
    assert_eq!(drain(&mut display), clear_of(5, 5));
}

#[test]
fn clear_is_idempotent() {
    let mut once = ready_v1();
    once.clear();
    let after_one = drain(&mut once);
    let mut thrice = ready_v1();
    thrice.clear();
    thrice.clear();
    thrice.clear();
    let after_three = drain(&mut thrice);
    assert_eq!(after_one, clear_of(3, 9));
    assert_eq!(after_three, after_one);
    assert_eq!(lines_of(&once), (vec![Level::Low; 3], vec![Level::High; 9]));
    assert_eq!(lines_of(&thrice), lines_of(&once));
}

#[test]
fn clear_after_clear_leaves_the_lines_at_rest() {
    let mut display = ready_v2();
    let mut board = Board::new(5, 5);
    for _ in 0..4 {
        display.clear();
        for action in drain(&mut display) {
            board.perform(action);
        }
        assert!(board.at_rest());
        assert_eq!(lines_of(&display), (board.rows.clone(), board.cols.clone()));
    }
}

#[test]
fn set_delay_ms_overrides_the_dwell() {
    let mut display = ready_v1();
    display.set_delay_ms(7);
    assert_eq!(display.delay_ms(), 7);
    display.set_delay_ms(0);
    assert_eq!(display.delay_ms(), 0);
    display.set_delay_ms(u32::MAX);
    assert_eq!(display.delay_ms(), u32::MAX);
    assert!(display.is_idle());
}

#[test]
fn refresh_rate_of_100_hz_on_three_rows_is_3_ms() {
    let mut display = ready_v1();
    display.set_refresh_rate(100);
    assert_eq!(display.delay_ms(), 3);
}

#[test]
fn refresh_rate_divides_by_the_rows_of_the_board() {
    let mut display = ready_v2();
    display.set_refresh_rate(100);
    assert_eq!(display.delay_ms(), 2);
    display.set_refresh_rate(50);
    assert_eq!(display.delay_ms(), 4);
}

#[test]
fn refresh_rate_rounds_down_twice() {
    let mut display = ready_v1();
    display.set_refresh_rate(7);
    assert_eq!(display.delay_ms(), 47);
    display.set_refresh_rate(1);
    assert_eq!(display.delay_ms(), 333);
    display.set_refresh_rate(334);
    assert_eq!(display.delay_ms(), 0);
    display.set_refresh_rate(1001);
    assert_eq!(display.delay_ms(), 0);
    display.set_refresh_rate(u32::MAX);
    assert_eq!(display.delay_ms(), 0);
}

#[test]
fn loop_count_for_100_ms_is_16_sweeps() {
    let mut display = ready_v1();
    assert_eq!(display.delay_ms(), 2);
    display.display_pre([[1u8; 9]; 3], 100);
    let actions = drain(&mut display);
    let dwells = actions.iter().filter(|a| matches!(a, Action::Dwell(_))).count();
    assert_eq!(dwells, 16 * 3);
    let raised_first_row =
        actions.iter().filter(|a| **a == Action::Drive(Line::Row(0), Level::High)).count();
    assert_eq!(raised_first_row, 16);
    assert_eq!(actions.len(), 16 * 3 * (1 + 9 + 1 + 9 + 1));
}

#[test]
fn loop_count_for_5_ms_is_no_sweep() {
    let mut display = ready_v1();
    display.display_pre([[1u8; 9]; 3], 5);
    assert!(display.is_idle());
    assert_eq!(display.next_action(), None);
    display.display([[1u8; 5]; 5], 5);
    assert!(display.is_idle());
    assert_eq!(drain(&mut display), vec![]);
}

#[test]
fn loop_count_at_the_edge_of_one_sweep() {
    let mut display = ready_v1();
    display.display_pre([[0u8; 9]; 3], 6);
    assert_eq!(drain(&mut display).len(), 3 * (1 + 1 + 9 + 1));
    display.display_pre([[0u8; 9]; 3], 11);
    assert_eq!(drain(&mut display).len(), 3 * (1 + 1 + 9 + 1));
    display.display_pre([[0u8; 9]; 3], 12);
    assert_eq!(drain(&mut display).len(), 2 * 3 * (1 + 1 + 9 + 1));
}

#[test]
fn zero_duration_is_a_silent_no_op() {
    let mut display = ready_v2();
    display.display([[9u8; 5]; 5], 0);
    assert!(display.is_idle());
    assert_eq!(display.next_action(), None);
}

#[test]
fn zero_dwell_is_a_silent_no_op() {
    let mut display = ready_v2();
    display.set_delay_ms(0);
    display.display([[9u8; 5]; 5], 1000);
    assert!(display.is_idle());
    assert_eq!(display.next_action(), None);
    display.display_pre([[9u8; 5]; 5], u32::MAX);
    assert_eq!(display.next_action(), None);
}

#[test]
fn a_sweep_is_one_slice_per_row_in_order() {
    let mut display = ready_v1();
    let matrix: [[u8; 9]; 3] = [
        [0, 0, 0, 0, 0, 0, 0, 0, 0],
        [1, 0, 255, 0, 0, 0, 0, 0, 7],
        [0, 3, 0, 0, 0, 0, 0, 0, 0],
    ];
    display.display_pre(matrix, 6);
    let mut expected = Vec::new();
    for r in 0..3 {
        expected.extend(slice_of(&matrix[r], r, 2000));
    }
    assert_eq!(drain(&mut display), expected);
}

#[test]
fn sweeps_repeat_the_same_actions() {
    let mut display = ready_v2();
    display.set_delay_ms(1);
    let mut matrix = [[0u8; 5]; 5];
    matrix[0][4] = 1;
    matrix[4][0] = 1;
    display.display_pre(matrix, 17);
    let mut sweep = Vec::new();
    for r in 0..5 {
        sweep.extend(slice_of(&matrix[r], r, 1000));
    }
    let mut expected = Vec::new();
    for _ in 0..3 {
        expected.extend(sweep.clone());
    }
    assert_eq!(drain(&mut display), expected);
}

#[test]
fn the_dwell_is_the_delay_in_microseconds() {
    let mut display = ready_v1();
    display.set_delay_ms(33);
    display.display_pre([[0u8; 9]; 3], 99);
    let actions = drain(&mut display);
    assert_eq!(actions[1], Action::Dwell(33_000));
    let mut board = Board::new(3, 9);
    for action in actions {
        board.perform(action);
    }
    assert_eq!(board.dwells, 3);
    assert_eq!(board.waited_us, 99_000);
}

#[test]
fn the_longest_dwell_does_not_wrap() {
    let mut display = ready_v1();
    display.set_delay_ms(u32::MAX);
    display.display_pre([[0u8; 9]; 3], u32::MAX);
    assert!(display.is_idle());
    display.set_delay_ms(1_431_655_765);
    display.display_pre([[0u8; 9]; 3], u32::MAX);
    let actions = drain(&mut display);
    assert_eq!(actions.len(), 3 * (1 + 334 + 9 + 1));
    for k in 1..334 {
        assert_eq!(actions[k], Action::Dwell(u32::MAX));
    }
    assert_eq!(actions[334], Action::Dwell(1_431_655_765));
    assert_eq!(actions[335], Action::Drive(Line::Col(0), Level::High));
    let mut board = Board::new(3, 9);
    for action in actions {
        board.perform(action);
    }
    assert_eq!(board.waited_us, 3 * 1_431_655_765_000);
}

#[test]
fn a_dwell_the_timer_can_just_count_is_one_wait() {
    let mut display = ready_v2();
    display.set_delay_ms(4_294_967);
    display.display_pre([[0u8; 5]; 5], u32::MAX);
    let actions = drain(&mut display);
    assert_eq!(actions.len(), 200 * 5 * 8);
    assert_eq!(actions[1], Action::Dwell(4_294_967_000));
    assert_eq!(actions[2], Action::Drive(Line::Col(0), Level::High));
}

#[test]
fn a_dwell_just_beyond_the_timer_is_two_waits() {
    let mut display = ready_v2();
    display.set_delay_ms(4_294_968);
    display.display_pre([[0u8; 5]; 5], 5 * 4_294_968);
    let actions = drain(&mut display);
    assert_eq!(actions.len(), 5 * 9);
    assert_eq!(actions[1], Action::Dwell(u32::MAX));
    assert_eq!(actions[2], Action::Dwell(705));
    assert_eq!(actions[3], Action::Drive(Line::Col(0), Level::High));
}

#[test]
fn a_scan_keeps_the_dwell_it_was_requested_with() {
    let mut display = ready_v2();
    display.display_pre([[0u8; 5]; 5], 10);
    display.set_delay_ms(9);
    assert_eq!(display.delay_ms(), 9);
    let actions = drain(&mut display);
    assert_eq!(actions.len(), 5 * 8);
    assert!(actions.iter().all(|a| !matches!(a, Action::Dwell(us) if *us != 2000)));
}

#[test]
fn exactly_one_row_is_high_inside_every_slice() {
    let mut display = ready_v1();
    let mut board = Board::new(3, 9);
    board.cols = vec![Level::High; 9];
    let mut matrix = [[0u8; 9]; 3];
    for i in 0..3 {
        for j in 0..9 {
            matrix[i][j] = ((i + j) % 3) as u8;
        }
    }
    display.display_pre(matrix, 30);
    let mut inside: Option<usize> = None;
    let mut steps = 0;
    while let Some(action) = display.next_action() {
        if let Action::Drive(Line::Row(_), Level::High) = action {
            assert!(board.at_rest());
        }
        if let Action::Drive(Line::Row(_), Level::Low) = action {
            assert!(board.low_cols().is_empty());
        }
        board.perform(action);
        match action {
            Action::Drive(Line::Row(i), Level::High) => inside = Some(i),
            Action::Drive(Line::Row(_), Level::Low) => inside = None,
            _ => {}
        }
        match inside {
            Some(i) => assert_eq!(board.high_rows(), vec![i]),
            None => assert!(board.at_rest()),
        }
        assert_eq!(lines_of(&display), (board.rows.clone(), board.cols.clone()));
        steps += 1;
    }
    assert!(steps > 0);
    assert_eq!(board.dwells, 15);
    assert!(board.at_rest());
}

#[test]
fn columns_are_lit_as_the_row_asks_while_it_dwells() {
    let mut display = ready_v2();
    let mut board = Board::new(5, 5);
    board.cols = vec![Level::High; 5];
    let mut matrix = [[0u8; 5]; 5];
    for i in 0..5 {
        for j in 0..5 {
            matrix[i][j] = if (i * 5 + j) % 2 == 0 { 200 } else { 0 };
        }
    }
    display.display_pre(matrix, 10);
    let mut row = 0;
    while let Some(action) = display.next_action() {
        if let Action::Dwell(_) = action {
            assert_eq!(board.high_rows(), vec![row]);
            let lit: Vec<usize> = (0..5).filter(|j| matrix[row][*j] > 0).collect();
            assert_eq!(board.low_cols(), lit);
            row += 1;
        }
        board.perform(action);
    }
    assert_eq!(row, 5);
}

#[test]
fn single_lit_cell_end_to_end() {
    let mut display = ready_v2();
    let mut image = [[0u8; 5]; 5];
    image[2][2] = 9;
    let matrix = display.display2matrix(image);
    for i in 0..5 {
        for j in 0..5 {
            assert_eq!(matrix[i][j], if (i, j) == (2, 2) { 9 } else { 0 });
        }
    }
    display.display(image, 30);
    let mut board = Board::new(5, 5);
    board.cols = vec![Level::High; 5];
    let mut slices = Vec::new();
    let mut writes_to_other_columns = 0;
    while let Some(action) = display.next_action() {
        if let Action::Dwell(us) = action {
            assert_eq!(us, 2000);
            slices.push((board.high_rows(), board.low_cols()));
        }
        if let Action::Drive(Line::Col(j), Level::Low) = action {
            if j != 2 {
                writes_to_other_columns += 1;
            }
        }
        board.perform(action);
    }
    assert_eq!(slices.len(), 3 * 5);
    for (k, (high_rows, low_cols)) in slices.iter().enumerate() {
        let row = k % 5;
        assert_eq!(*high_rows, vec![row]);
        if row == 2 {
            assert_eq!(*low_cols, vec![2]);
        } else {
            assert!(low_cols.is_empty());
        }
    }
    assert_eq!(writes_to_other_columns, 0);
    assert!(board.at_rest());
}

#[test]
fn single_lit_cell_on_the_first_revision() {
    let mut display = ready_v1();
    let mut image = [[0u8; 5]; 5];
    image[2][2] = 9;
    let matrix = display.display2matrix(image);
    let mut expected = [[0u8; 9]; 3];
    expected[1][2] = 9;
    assert_eq!(matrix, expected);
    display.display(image, 6);
    let mut by_hand = Vec::new();
    for r in 0..3 {
        by_hand.extend(slice_of(&expected[r], r, 2000));
    }
    assert_eq!(drain(&mut display), by_hand);
}

#[test]
fn display_is_display_pre_of_the_matrix() {
    let mut image = [[0u8; 5]; 5];
    for r in 0..5 {
        for c in 0..5 {
            image[r][c] = ((r * 3 + c) % 4) as u8;
        }
    }
    let mut direct = ready_v1();
    direct.display(image, 13);
    let mut by_matrix = ready_v1();
    let matrix = by_matrix.display2matrix(image);
    by_matrix.display_pre(matrix, 13);
    assert_eq!(drain(&mut direct), drain(&mut by_matrix));
}

#[test]
fn a_scan_requested_before_the_clear_was_fetched_starts_with_a_clear() {
    let mut display = Display::new(DisplayPins::v2());
    display.display_pre([[0u8; 5]; 5], 10);
    let actions = drain(&mut display);
    assert_eq!(actions[..10], clear_of(5, 5)[..]);
    assert_eq!(actions.len(), 10 + 5 * 8);
    assert_eq!(actions[10], Action::Drive(Line::Row(0), Level::High));
}

#[test]
fn a_scan_requested_in_the_middle_of_another_blanks_first() {
    let mut display = ready_v1();
    display.display_pre([[1u8; 9]; 3], 60);
    for _ in 0..5 {
        display.next_action();
    }
    assert_eq!(display.row_level(0), Some(Level::High));
    assert_eq!(display.col_level(0), Some(Level::Low));
    let mut matrix = [[0u8; 9]; 3];
    matrix[2][8] = 1;
    display.display_pre(matrix, 6);
    let mut expected = clear_of(3, 9);
    for r in 0..3 {
        expected.extend(slice_of(&matrix[r], r, 2000));
    }
    let mut board = Board::new(3, 9);
    board.rows[0] = Level::High;
    let actions = drain(&mut display);
    assert_eq!(actions, expected);
    for action in actions {
        board.perform(action);
        assert!(board.high_rows().len() <= 1);
    }
    assert!(board.at_rest());
}

#[test]
fn clear_cancels_a_scan() {
    let mut display = ready_v2();
    display.display_pre([[1u8; 5]; 5], 1000);
    for _ in 0..3 {
        display.next_action();
    }
    display.clear();
    assert_eq!(drain(&mut display), clear_of(5, 5));
    assert_eq!(lines_of(&display), (vec![Level::Low; 5], vec![Level::High; 5]));
    assert!(display.is_idle());
}

#[test]
fn an_idle_driver_hands_out_nothing() {
    let mut display = ready_v1();
    assert!(display.is_idle());
    assert_eq!(display.next_action(), None);
    assert_eq!(display.next_action(), None);
    assert_eq!(lines_of(&display), (vec![Level::Low; 3], vec![Level::High; 9]));
}

#[test]
fn levels_of_lines_the_board_does_not_have() {
    let display = ready_v1();
    assert_eq!(display.row_level(3), None);
    assert_eq!(display.col_level(9), None);
    assert_eq!(display.layout().locate(4, 4), (2, 1));
}

#[test]
fn never_two_rows_high_whatever_the_driver_is_asked_when() {
    let mut pins = DisplayPins::v2();
    pins.display_row_leds(3, 0b111);
    while pins.next_action().is_some() {}
    assert_eq!(pins.row_level(3), Some(Level::High));
    let mut display = Display::new(pins);
    let mut seed = 2024u32;
    for _ in 0..4000 {
        seed = seed.wrapping_mul(1664525).wrapping_add(1013904223);
        match (seed >> 24) % 16 {
            0 => display.display_pre([[(seed >> 16) as u8; 5]; 5], (seed >> 8) % 64),
            1 => display.display([[(seed >> 12) as u8 & 1; 5]; 5], (seed >> 8) % 64),
            2 => display.clear(),
            3 => display.set_delay_ms((seed >> 20) % 4),
            4 => display.set_refresh_rate(1 + (seed >> 20) % 300),
            _ => {
                display.next_action();
            }
        }
        let (rows, _) = lines_of(&display);
        let high = rows.iter().filter(|level| **level == Level::High).count();
        assert!(high <= 1);
    }
    display.clear();
    drain(&mut display);
    assert_eq!(lines_of(&display), (vec![Level::Low; 5], vec![Level::High; 5]));
}
