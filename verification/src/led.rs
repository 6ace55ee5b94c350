//! The scan driver: it owns the lines of the matrix and a dwell time, and
//! shows an image for a requested time by lighting one row after the other.
//!
//! The driver does not touch the hardware and does not wait. Every request
//! queues actions; the board layer takes them one by one with
//! [`Display::next_action`], performs each, and comes back for the next until
//! none is left.

use crate::gpio::{
    clear_actions, cols_high, lemma_clear_exclusive, lemma_clear_settles, DisplayPins,
};
use crate::layout::{grid, Layout};
use crate::line::{Action, Level, Line, Lines};
use crate::scan::{
    fits, hold_micros, lemma_scan_returns, lemma_scan_stays_exclusive, lit_from, refresh_dwell_ms,
    scan_actions, slice_actions, sweep_actions, sweep_count, sweep_from, wait_actions,
};
use vstd::prelude::*;

verus! {

/// The dwell time of a new driver, in milliseconds.
pub const DEFAULT_DELAY_MS: u32 = 2;

/// Where a scan stands within the slice of its current row.
#[derive(Clone, Copy, Debug)]
enum Stage {
    /// The row line is still low.
    Assert,
    /// The row line is high and the columns before the given one are lit.
    Light(usize),
    /// The row is lit and the given time, in microseconds, is left to wait.
    Hold(u64),
    /// The dwell is over and the columns before the given one are back high.
    Blank(usize),
}

/// What is left of a slice at a stage.
spec fn slice_rest(cells: Seq<u8>, row: usize, hold_us: u64, stage: Stage) -> Seq<Action> {
    match stage {
        Stage::Assert => slice_actions(cells, row, hold_us),
        Stage::Light(j) => lit_from(cells, j as nat) + wait_actions(hold_us) + cols_high(
            cells.len(),
        ) + seq![Action::Drive(Line::Row(row), Level::Low)],
        Stage::Hold(left_us) => wait_actions(left_us) + cols_high(cells.len()) + seq![
            Action::Drive(Line::Row(row), Level::Low),
        ],
        Stage::Blank(j) => cols_high(cells.len()).skip(j as int) + seq![
            Action::Drive(Line::Row(row), Level::Low),
        ],
    }
}

/// What is left of a scan: the rest of the current slice, the slices of the
/// rows after it, and the sweeps after the current one.
spec fn scan_rest(
    matrix: Seq<Seq<u8>>,
    hold_us: u64,
    sweeps_left: nat,
    row: usize,
    stage: Stage,
) -> Seq<Action> {
    if sweeps_left == 0 {
        Seq::empty()
    } else {
        slice_rest(matrix[row as int], row, hold_us, stage) + sweep_from(
            matrix,
            hold_us,
            (row + 1) as nat,
        ) + scan_actions(matrix, hold_us, (sweeps_left - 1) as nat)
    }
}

/// A scan that has not begun has all its sweeps ahead.
proof fn lemma_scan_rest_start(matrix: Seq<Seq<u8>>, hold_us: u64, sweeps: nat)
    requires
        matrix.len() > 0,
    ensures
        scan_rest(matrix, hold_us, sweeps, 0, Stage::Assert) == scan_actions(matrix, hold_us, sweeps),
{
    if sweeps > 0 {
        assert(sweep_actions(matrix, hold_us) == slice_actions(matrix[0], 0, hold_us) + sweep_from(
            matrix,
            hold_us,
            1,
        ));
    }
}

/// A scan with a sweep ahead has an action ahead.
proof fn lemma_scan_rest_nonempty(
    matrix: Seq<Seq<u8>>,
    hold_us: u64,
    sweeps_left: nat,
    row: usize,
    stage: Stage,
)
    requires
        sweeps_left > 0,
    ensures
        scan_rest(matrix, hold_us, sweeps_left, row, stage).len() > 0,
{
}

/// Raising the row line opens the slice.
proof fn lemma_stage_assert(cells: Seq<u8>, row: usize, hold_us: u64)
    ensures
        slice_rest(cells, row, hold_us, Stage::Assert) == seq![
            Action::Drive(Line::Row(row), Level::High),
        ] + slice_rest(cells, row, hold_us, Stage::Light(0)),
{
    assert(slice_rest(cells, row, hold_us, Stage::Assert) =~= seq![
        Action::Drive(Line::Row(row), Level::High),
    ] + slice_rest(cells, row, hold_us, Stage::Light(0)));
}

/// A dark cell asks for no action.
proof fn lemma_stage_skip(cells: Seq<u8>, row: usize, hold_us: u64, j: usize)
    requires
        j < cells.len(),
        j < usize::MAX,
        cells[j as int] == 0,
    ensures
        slice_rest(cells, row, hold_us, Stage::Light(j)) == slice_rest(
            cells,
            row,
            hold_us,
            Stage::Light((j + 1) as usize),
        ),
{
}

/// A lit cell asks for its column line to go low.
proof fn lemma_stage_light(cells: Seq<u8>, row: usize, hold_us: u64, j: usize)
    requires
        j < cells.len(),
        j < usize::MAX,
        cells[j as int] > 0,
    ensures
        slice_rest(cells, row, hold_us, Stage::Light(j)) == seq![
            Action::Drive(Line::Col(j), Level::Low),
        ] + slice_rest(cells, row, hold_us, Stage::Light((j + 1) as usize)),
{
    assert(slice_rest(cells, row, hold_us, Stage::Light(j)) =~= seq![
        Action::Drive(Line::Col(j), Level::Low),
    ] + slice_rest(cells, row, hold_us, Stage::Light((j + 1) as usize)));
}

/// After the last cell comes the dwell.
proof fn lemma_stage_hold(cells: Seq<u8>, row: usize, hold_us: u64, j: usize)
    requires
        j >= cells.len(),
    ensures
        slice_rest(cells, row, hold_us, Stage::Light(j)) == slice_rest(
            cells,
            row,
            hold_us,
            Stage::Hold(hold_us),
        ),
{
    assert(slice_rest(cells, row, hold_us, Stage::Light(j)) =~= slice_rest(
        cells,
        row,
        hold_us,
        Stage::Hold(hold_us),
    ));
}

/// A dwell that the timer can count is one wait.
proof fn lemma_stage_wait_out(cells: Seq<u8>, row: usize, hold_us: u64, left_us: u64)
    requires
        left_us <= u32::MAX,
    ensures
        slice_rest(cells, row, hold_us, Stage::Hold(left_us)) == seq![
            Action::Dwell(left_us as u32),
        ] + slice_rest(cells, row, hold_us, Stage::Blank(0)),
{
    assert(cols_high(cells.len()).skip(0) =~= cols_high(cells.len()));
    assert(slice_rest(cells, row, hold_us, Stage::Hold(left_us)) =~= seq![
        Action::Dwell(left_us as u32),
    ] + slice_rest(cells, row, hold_us, Stage::Blank(0)));
}

/// A longer dwell begins with the longest wait that the timer can count.
proof fn lemma_stage_wait_on(cells: Seq<u8>, row: usize, hold_us: u64, left_us: u64)
    requires
        left_us > u32::MAX,
    ensures
        slice_rest(cells, row, hold_us, Stage::Hold(left_us)) == seq![Action::Dwell(u32::MAX)]
            + slice_rest(cells, row, hold_us, Stage::Hold((left_us - u32::MAX) as u64)),
{
    assert(slice_rest(cells, row, hold_us, Stage::Hold(left_us)) =~= seq![
        Action::Dwell(u32::MAX),
    ] + slice_rest(cells, row, hold_us, Stage::Hold((left_us - u32::MAX) as u64)));
}

/// After the dwell every column line goes back high, one by one.
proof fn lemma_stage_blank(cells: Seq<u8>, row: usize, hold_us: u64, j: usize)
    requires
        j < cells.len(),
        j < usize::MAX,
    ensures
        slice_rest(cells, row, hold_us, Stage::Blank(j)) == seq![
            Action::Drive(Line::Col(j), Level::High),
        ] + slice_rest(cells, row, hold_us, Stage::Blank((j + 1) as usize)),
{
    assert(slice_rest(cells, row, hold_us, Stage::Blank(j)) =~= seq![
        Action::Drive(Line::Col(j), Level::High),
    ] + slice_rest(cells, row, hold_us, Stage::Blank((j + 1) as usize)));
}

/// After the last column the row line drops, and the slice is over.
proof fn lemma_stage_drop(cells: Seq<u8>, row: usize, hold_us: u64, j: usize)
    requires
        j == cells.len(),
    ensures
        slice_rest(cells, row, hold_us, Stage::Blank(j)) == seq![
            Action::Drive(Line::Row(row), Level::Low),
        ],
{
    assert(slice_rest(cells, row, hold_us, Stage::Blank(j)) =~= seq![
        Action::Drive(Line::Row(row), Level::Low),
    ]);
}

/// Within a slice, the scan goes on as the slice does.
proof fn lemma_scan_rest_step(
    matrix: Seq<Seq<u8>>,
    hold_us: u64,
    sweeps_left: nat,
    row: usize,
    stage: Stage,
    next: Stage,
    action: Action,
)
    requires
        sweeps_left > 0,
        slice_rest(matrix[row as int], row, hold_us, stage) == seq![action] + slice_rest(
            matrix[row as int],
            row,
            hold_us,
            next,
        ),
    ensures
        scan_rest(matrix, hold_us, sweeps_left, row, stage) == seq![action] + scan_rest(
            matrix,
            hold_us,
            sweeps_left,
            row,
            next,
        ),
{
    let now = slice_rest(matrix[row as int], row, hold_us, next);
    let rows_after = sweep_from(matrix, hold_us, (row + 1) as nat);
    let sweeps_after = scan_actions(matrix, hold_us, (sweeps_left - 1) as nat);
    assert((seq![action] + now) + rows_after + sweeps_after =~= seq![action] + (now + rows_after
        + sweeps_after));
}

/// After the last action of a slice the scan goes on with the next row, or,
/// after the last row, with the next sweep.
proof fn lemma_scan_rest_advance(
    matrix: Seq<Seq<u8>>,
    hold_us: u64,
    sweeps_left: nat,
    row: usize,
    j: usize,
)
    requires
        sweeps_left > 0,
        row < matrix.len(),
        matrix.len() <= usize::MAX,
        slice_rest(matrix[row as int], row, hold_us, Stage::Blank(j)) == seq![
            Action::Drive(Line::Row(row), Level::Low),
        ],
    ensures
        scan_rest(matrix, hold_us, sweeps_left, row, Stage::Blank(j)) == seq![
            Action::Drive(Line::Row(row), Level::Low),
        ] + if row + 1 < matrix.len() {
            scan_rest(matrix, hold_us, sweeps_left, (row + 1) as usize, Stage::Assert)
        } else {
            scan_rest(matrix, hold_us, (sweeps_left - 1) as nat, 0, Stage::Assert)
        },
{
    let down = Action::Drive(Line::Row(row), Level::Low);
    let rows_after = sweep_from(matrix, hold_us, (row + 1) as nat);
    let sweeps_after = scan_actions(matrix, hold_us, (sweeps_left - 1) as nat);
    if row + 1 < matrix.len() {
        let next = (row + 1) as usize;
        assert(rows_after == slice_actions(matrix[next as int], next, hold_us) + sweep_from(
            matrix,
            hold_us,
            (next + 1) as nat,
        ));
        assert(seq![down] + rows_after + sweeps_after =~= seq![down] + (rows_after
            + sweeps_after));
    } else {
        assert(rows_after =~= Seq::<Action>::empty());
        lemma_scan_rest_start(matrix, hold_us, (sweeps_left - 1) as nat);
        assert(seq![down] + rows_after + sweeps_after =~= seq![down] + sweeps_after);
    }
}

/// The number of full sweeps that fit into a duration.
fn sweeps_for(rows: usize, dwell_ms: u32, duration_ms: u32) -> (sweeps: u32)
    ensures
        sweeps == sweep_count(rows as nat, dwell_ms, duration_ms),
{
    if rows == 0 || dwell_ms == 0 {
        assert(rows * dwell_ms == 0) by (nonlinear_arith)
            requires
                rows == 0 || dwell_ms == 0,
        ;
        0
    } else if rows > duration_ms as usize {
        assert(duration_ms as int / (rows * dwell_ms) == 0) by (nonlinear_arith)
            requires
                rows > duration_ms >= 0,
                dwell_ms >= 1,
        ;
        assert(rows * dwell_ms != 0) by (nonlinear_arith)
            requires
                rows > 0,
                dwell_ms > 0,
        ;
        0
    } else {
        assert(0 < rows * dwell_ms <= 0xffff_ffff * 0xffff_ffff) by (nonlinear_arith)
            requires
                0 < rows <= 0xffff_ffff,
                0 < dwell_ms <= 0xffff_ffff,
        ;
        let per_sweep: u64 = rows as u64 * dwell_ms as u64;
        assert(0 <= duration_ms as int / per_sweep as int <= duration_ms) by (nonlinear_arith)
            requires
                per_sweep >= 1,
                duration_ms >= 0,
        ;
        (duration_ms as u64 / per_sweep) as u32
    }
}

/// The dwell per row for a refresh rate.
fn dwell_for(rows: usize, freq_hz: u32) -> (dwell_ms: u32)
    requires
        rows > 0,
        freq_hz > 0,
    ensures
        dwell_ms == refresh_dwell_ms(rows as nat, freq_hz),
{
    let per_frame: u32 = 1000 / freq_hz;
    assert(0 <= 1000int / (freq_hz as int) <= 1000) by (nonlinear_arith)
        requires
            freq_hz >= 1,
    ;
    assert(0 <= per_frame as int / (rows as int) <= per_frame) by (nonlinear_arith)
        requires
            rows >= 1,
            per_frame >= 0,
    ;
    (per_frame as usize / rows) as u32
}

/// The scan driver of a board with `R` row lines and `C` column lines.
pub struct Display<const R: usize, const C: usize> {
    delay_ms: u32,
    pins: DisplayPins<R, C>,
    matrix: [[u8; C]; R],
    sweeps_left: u32,
    row: usize,
    stage: Stage,
    hold_us: u64,
}

impl<const R: usize, const C: usize> Display<R, C> {
    /// The actions of the scan in hand that were not yet handed out.
    spec fn scan_pending(&self) -> Seq<Action> {
        scan_rest(grid(self.matrix), self.hold_us, self.sweeps_left as nat, self.row, self.stage)
    }

    /// While a scan is in hand, its row and column are on the board.
    spec fn in_range(&self) -> bool {
        self.sweeps_left > 0 ==> self.row < R && match self.stage {
            Stage::Assert => true,
            Stage::Light(j) => j <= C,
            Stage::Hold(_) => true,
            Stage::Blank(j) => j <= C,
        }
    }

    /// Whether this driver is `before` after the first action of its scan,
    /// `action`, was handed out.
    spec fn follows(&self, before: Self, action: Action) -> bool {
        &&& self.pins.wf()
        &&& self.in_range()
        &&& self.pins.wiring() == before.pins.wiring()
        &&& self.pins.pending() == before.pins.pending()
        &&& self.delay_ms == before.delay_ms
        &&& before.scan_pending() == seq![action] + self.scan_pending()
        &&& self.lines() == before.lines().perform(action)
    }

    /// What a step of the scan in hand starts from.
    spec fn ready(&self) -> bool {
        &&& self.pins.wf()
        &&& self.pins.pending().len() == 0
        &&& self.sweeps_left > 0
        &&& self.in_range()
        &&& self.lines().stays_exclusive(self.scan_pending())
    }

    /// The driver is sound: its bookkeeping is in range, at most one row
    /// line is high, now and while the pending actions are performed, and
    /// once they all are the lines are at rest.
    pub closed spec fn wf(&self) -> bool {
        &&& self.pins.wf()
        &&& self.in_range()
        &&& self.lines().stays_exclusive(self.pending())
        &&& self.lines().perform_all(self.pending()).at_rest()
    }

    /// The level of every line, provided that every action handed out so far
    /// was performed.
    pub closed spec fn lines(&self) -> Lines {
        self.pins.lines()
    }

    /// The actions that were requested and not yet handed out, in the order
    /// in which they will be.
    pub closed spec fn pending(&self) -> Seq<Action> {
        self.pins.pending() + self.scan_pending()
    }

    /// What comes before a scan that is requested now: nothing if nothing is
    /// pending, for then the lines are at rest; a full clear if not.
    pub open spec fn blanking(&self) -> Seq<Action> {
        if self.pending().len() == 0 {
            Seq::empty()
        } else {
            clear_actions(R as nat, C as nat)
        }
    }

    /// The time for which a row is held lit, in milliseconds.
    pub closed spec fn dwell_ms(&self) -> u32 {
        self.delay_ms
    }

    /// The wiring of the matrix.
    pub closed spec fn wiring(&self) -> Layout<R, C> {
        self.pins.wiring()
    }

    /// A driver has as many lines as its type says, its wiring is a
    /// bijection, and once the board layer has performed every pending
    /// action the lines are at rest: every row line low, every column line
    /// high.
    pub proof fn lemma_settles(&self)
        requires
            self.wf(),
        ensures
            self.lines().rows.len() == R,
            self.lines().cols.len() == C,
            R > 0,
            C > 0,
            self.wiring().wf(),
            self.lines().perform_all(self.pending()).at_rest(),
            self.pending().len() == 0 ==> self.lines().at_rest(),
    {
        self.pins.lemma_shape();
    }

    /// Never two rows at once: in every state of the driver at most one row
    /// line is high, and this stays so while the board layer performs the
    /// pending actions one by one.
    pub proof fn lemma_rows_exclusive(&self)
        requires
            self.wf(),
        ensures
            self.lines().rows_exclusive(),
            self.lines().stays_exclusive(self.pending()),
    {
        self.lines().lemma_stays_exclusive_now(self.pending());
    }

    /// Takes over the lines of the matrix and requests a full clear, so that
    /// no LED flickers before the first scan. The dwell time is
    /// [`DEFAULT_DELAY_MS`].
    pub fn new(pins: DisplayPins<R, C>) -> (display: Self)
        requires
            pins.wf(),
        ensures
            display.wf(),
            display.dwell_ms() == DEFAULT_DELAY_MS,
            display.wiring() == pins.wiring(),
            display.lines() == pins.lines(),
            display.pending() == clear_actions(R as nat, C as nat),
    {
        let mut pins = pins;
        pins.clear();
        let display = Display {
            delay_ms: DEFAULT_DELAY_MS,
            pins,
            matrix: [[0u8;C];R],
            sweeps_left: 0,
            row: 0,
            stage: Stage::Assert,
            hold_us: 0,
        };
        proof {
            display.pins.lemma_shape();
            display.pins.lemma_rows_exclusive();
            lemma_clear_settles(display.lines());
            lemma_clear_exclusive(display.lines());
            assert(display.pending() =~= clear_actions(R as nat, C as nat));
        }
        display
    }

    /// Requests a full clear: every row line low, then every column line
    /// high. Whatever was pending, a scan too, is dropped. Clearing again
    /// before the board layer has fetched anything changes nothing.
    pub fn clear(&mut self)
        requires
            old(self).wf(),
        ensures
            final(self).wf(),
            final(self).dwell_ms() == old(self).dwell_ms(),
            final(self).wiring() == old(self).wiring(),
            final(self).lines() == old(self).lines(),
            final(self).pending() == clear_actions(R as nat, C as nat),
    {
        self.pins.clear();
        self.sweeps_left = 0;
        proof {
            self.pins.lemma_shape();
            old(self).lemma_rows_exclusive();
            lemma_clear_settles(self.lines());
            lemma_clear_exclusive(self.lines());
            assert(self.pending() =~= clear_actions(R as nat, C as nat));
        }
    }

    /// Sets the time for which each row is held lit, in milliseconds. A scan
    /// that was already requested keeps the dwell time it was requested
    /// with. With a dwell time of 0 a later scan is empty.
    pub fn set_delay_ms(&mut self, delay_ms: u32)
        requires
            old(self).wf(),
        ensures
            final(self).wf(),
            final(self).dwell_ms() == delay_ms,
            final(self).wiring() == old(self).wiring(),
            final(self).lines() == old(self).lines(),
            final(self).pending() == old(self).pending(),
    {
        self.delay_ms = delay_ms;
    }

    /// Sets the dwell time so that the whole matrix is refreshed `freq_hz`
    /// times a second: `1000 / freq_hz / R` milliseconds, each division
    /// rounded down.
    pub fn set_refresh_rate(&mut self, freq_hz: u32)
        requires
            old(self).wf(),
            freq_hz > 0,
        ensures
            final(self).wf(),
            final(self).dwell_ms() == refresh_dwell_ms(R as nat, freq_hz),
            final(self).wiring() == old(self).wiring(),
            final(self).lines() == old(self).lines(),
            final(self).pending() == old(self).pending(),
    {
        proof {
            self.pins.lemma_shape();
        }
        self.delay_ms = dwell_for(R, freq_hz);
    }

    /// Maps a 5x5 image to the drive matrix of this board.
    pub fn display2matrix(&self, led_display: [[u8; 5]; 5]) -> (led_matrix: [[u8; C]; R])
        requires
            self.wf(),
        ensures
            self.wiring().is_matrix_of(led_matrix, led_display),
            grid(led_matrix) == self.wiring().matrix_of(led_display),
    {
        proof {
            self.pins.lemma_shape();
        }
        self.pins.layout().to_matrix(led_display)
    }

    /// Requests that a 5x5 image be shown for `duration_ms` milliseconds:
    /// the image is mapped to the drive matrix of this board, and that
    /// matrix is scanned as [`Display::display_pre`] says.
    pub fn display(&mut self, led_display: [[u8; 5]; 5], duration_ms: u32)
        requires
            old(self).wf(),
        ensures
            final(self).wf(),
            final(self).dwell_ms() == old(self).dwell_ms(),
            final(self).wiring() == old(self).wiring(),
            final(self).lines() == old(self).lines(),
            old(self).lines().perform_all(old(self).blanking()).at_rest(),
            final(self).pending() == old(self).blanking() + scan_actions(
                old(self).wiring().matrix_of(led_display),
                hold_micros(old(self).dwell_ms()),
                sweep_count(R as nat, old(self).dwell_ms(), duration_ms),
            ),
    {
        let led_matrix = self.display2matrix(led_display);
        self.display_pre(led_matrix, duration_ms);
    }

    /// Requests that a drive matrix be shown for `duration_ms` milliseconds.
    ///
    /// The scan is as many full sweeps as fit into the duration at the
    /// current dwell time, none if the duration is shorter than one sweep or
    /// the dwell time is 0. Each sweep visits the rows in index order; a
    /// visit raises the row line, drives low the column line of every cell
    /// of that row with a nonzero intensity, waits for the dwell time,
    /// drives every column line back high, and drops the row line.
    ///
    /// If actions are still pending, they are dropped and the scan is
    /// preceded by a full clear, so that it starts with the lines at rest.
    pub fn display_pre(&mut self, led_matrix: [[u8; C]; R], duration_ms: u32)
        requires
            old(self).wf(),
        ensures
            final(self).wf(),
            final(self).dwell_ms() == old(self).dwell_ms(),
            final(self).wiring() == old(self).wiring(),
            final(self).lines() == old(self).lines(),
            old(self).lines().perform_all(old(self).blanking()).at_rest(),
            final(self).pending() == old(self).blanking() + scan_actions(
                grid(led_matrix),
                hold_micros(old(self).dwell_ms()),
                sweep_count(R as nat, old(self).dwell_ms(), duration_ms),
            ),
    {
        proof {
            self.pins.lemma_shape();
        }
        let idle = self.is_idle();
        if !idle {
            self.pins.clear();
        }
        let sweeps = sweeps_for(R, self.delay_ms, duration_ms);
        self.matrix = led_matrix;
        self.sweeps_left = sweeps;
        self.row = 0;
        self.stage = Stage::Assert;
        self.hold_us = self.delay_ms as u64 * 1000;
        proof {
            let lead = self.pins.pending();
            let scan = scan_actions(grid(led_matrix), self.hold_us, sweeps as nat);
            lemma_scan_rest_start(grid(led_matrix), self.hold_us, sweeps as nat);
            assert(self.pending() == lead + scan);
            let rested = self.lines().perform_all(lead);
            old(self).lemma_rows_exclusive();
            if idle {
                assert(lead =~= Seq::<Action>::empty());
                assert(old(self).pending() =~= Seq::<Action>::empty());
                self.lines().lemma_stays_exclusive_empty();
            } else {
                lemma_clear_settles(self.lines());
                lemma_clear_exclusive(self.lines());
            }
            self.lines().lemma_perform_all_keeps_shape(lead);
            assert(fits(rested, grid(led_matrix)));
            lemma_scan_returns(rested, grid(led_matrix), self.hold_us, sweeps as nat);
            lemma_scan_stays_exclusive(rested, grid(led_matrix), self.hold_us, sweeps as nat);
            self.lines().lemma_perform_all_concat(lead, scan);
            self.lines().lemma_stays_exclusive_concat(lead, scan);
        }
    }

    /// Whether no action is pending: the board layer has fetched everything
    /// that was requested.
    pub fn is_idle(&self) -> (idle: bool)
        requires
            self.wf(),
        ensures
            idle == (self.pending().len() == 0),
    {
        proof {
            if self.sweeps_left > 0 {
                lemma_scan_rest_nonempty(
                    grid(self.matrix),
                    self.hold_us,
                    self.sweeps_left as nat,
                    self.row,
                    self.stage,
                );
            }
        }
        self.sweeps_left == 0 && self.pins.is_settled()
    }

    /// The time for which a row is held lit, in milliseconds.
    pub fn delay_ms(&self) -> (delay_ms: u32)
        ensures
            delay_ms == self.dwell_ms(),
    {
        self.delay_ms
    }

    /// The wiring of the matrix.
    pub fn layout(&self) -> (layout: &Layout<R, C>)
        ensures
            *layout == self.wiring(),
    {
        self.pins.layout()
    }

    /// The level of row line `i`, if the board has such a line.
    pub fn row_level(&self, i: usize) -> (level: Option<Level>)
        ensures
            level == if i < R {
                Some(self.lines().rows[i as int])
            } else {
                None
            },
    {
        self.pins.row_level(i)
    }

    /// The level of column line `j`, if the board has such a line.
    pub fn col_level(&self, j: usize) -> (level: Option<Level>)
        ensures
            level == if j < C {
                Some(self.lines().cols[j as int])
            } else {
                None
            },
    {
        self.pins.col_level(j)
    }

    /// Hands out the next pending action and records its effect on the
    /// lines, or returns `None` when nothing is pending. The board layer
    /// performs the action before it asks for the next.
    pub fn next_action(&mut self) -> (next: Option<Action>)
        requires
            old(self).wf(),
        ensures
            final(self).wf(),
            final(self).dwell_ms() == old(self).dwell_ms(),
            final(self).wiring() == old(self).wiring(),
            match next {
                Some(action) => {
                    &&& old(self).pending().len() > 0
                    &&& action == old(self).pending()[0]
                    &&& final(self).pending() == old(self).pending().skip(1)
                    &&& final(self).lines() == old(self).lines().perform(action)
                },
                None => {
                    &&& old(self).pending().len() == 0
                    &&& final(self).pending().len() == 0
                    &&& final(self).lines() == old(self).lines()
                },
            },
    {
        proof {
            if old(self).pending().len() > 0 {
                old(self).lines().lemma_stays_exclusive_next(old(self).pending());
            }
        }
        let queued = self.pins.next_action();
        let next = match queued {
            Some(action) => {
                proof {
                    assert(self.pending() =~= old(self).pending().skip(1));
                }
                Some(action)
            },
            None => {
                if self.sweeps_left == 0 {
                    None
                } else {
                    proof {
                        assert(old(self).pins.pending() =~= Seq::<Action>::empty());
                        assert(old(self).pending() =~= old(self).scan_pending());
                    }
                    Some(self.scan_step())
                }
            },
        };
        proof {
            if let Some(action) = next {
                let before = old(self).pending();
                if queued is None {
                    assert(self.pending() =~= self.scan_pending());
                    assert(self.pending() =~= before.skip(1));
                }
                assert(before =~= seq![action] + self.pending());
                old(self).lines().lemma_perform_all_concat(seq![action], self.pending());
                old(self).lines().lemma_perform_all_one(action);
            }
        }
        next
    }

    /// The first action of the scan in hand leaves at most one row line
    /// high.
    proof fn lemma_next_is_safe(&self, action: Action)
        requires
            self.lines().stays_exclusive(self.scan_pending()),
            self.scan_pending().len() > 0,
            self.scan_pending()[0] == action,
        ensures
            self.lines().perform(action).rows_exclusive(),
    {
        self.lines().lemma_stays_exclusive_next(self.scan_pending());
        self.lines().perform(action).lemma_stays_exclusive_now(self.scan_pending().skip(1));
    }

    /// Hands out the next action of the scan in hand.
    fn scan_step(&mut self) -> (action: Action)
        requires
            old(self).ready(),
        ensures
            final(self).follows(*old(self), action),
    {
        match self.stage {
            Stage::Assert => self.raise_row(),
            Stage::Light(from) => self.light_or_hold(from),
            Stage::Hold(left_us) => self.wait(left_us),
            Stage::Blank(j) => self.blank_or_drop(j),
        }
    }

    /// Opens the slice of the current row.
    fn raise_row(&mut self) -> (action: Action)
        requires
            old(self).ready(),
            old(self).stage == Stage::Assert,
        ensures
            final(self).follows(*old(self), action),
    {
        let row = self.row;
        proof {
            self.pins.lemma_shape();
            lemma_stage_assert(grid(self.matrix)[row as int], row, self.hold_us);
            lemma_scan_rest_step(
                grid(self.matrix),
                self.hold_us,
                self.sweeps_left as nat,
                row,
                Stage::Assert,
                Stage::Light(0),
                Action::Drive(Line::Row(row), Level::High),
            );
            self.lemma_next_is_safe(Action::Drive(Line::Row(row), Level::High));
        }
        self.stage = Stage::Light(0);
        self.pins.drive(Line::Row(row), Level::High);
        Action::Drive(Line::Row(row), Level::High)
    }

    /// Lights the next lit cell of the current row from column `from` on,
    /// or, when there is none, asks for the dwell.
    fn light_or_hold(&mut self, from: usize) -> (action: Action)
        requires
            old(self).ready(),
            old(self).stage == Stage::Light(from),
        ensures
            final(self).follows(*old(self), action),
    {
        let row = self.row;
        let ghost cells = grid(self.matrix)[row as int];
        let mut j = from;
        while j < C && self.matrix[row][j] == 0
            invariant
                row < R,
                j <= C,
                cells == grid(self.matrix)[row as int],
                cells.len() == C,
                slice_rest(cells, row, self.hold_us, Stage::Light(j)) == slice_rest(
                    cells,
                    row,
                    self.hold_us,
                    Stage::Light(from),
                ),
            decreases C - j,
        {
            proof {
                lemma_stage_skip(cells, row, self.hold_us, j);
            }
            j += 1;
        }
        if j < C {
            proof {
                lemma_stage_light(cells, row, self.hold_us, j);
                lemma_scan_rest_step(
                    grid(self.matrix),
                    self.hold_us,
                    self.sweeps_left as nat,
                    row,
                    Stage::Light(from),
                    Stage::Light((j + 1) as usize),
                    Action::Drive(Line::Col(j), Level::Low),
                );
                self.lemma_next_is_safe(Action::Drive(Line::Col(j), Level::Low));
            }
            self.stage = Stage::Light(j + 1);
            self.pins.drive(Line::Col(j), Level::Low);
            Action::Drive(Line::Col(j), Level::Low)
        } else {
            proof {
                lemma_stage_hold(cells, row, self.hold_us, j);
            }
            self.stage = Stage::Hold(self.hold_us);
            self.wait(self.hold_us)
        }
    }

    /// Asks for the next wait of the dwell of the current row, of which
    /// `left_us` microseconds are left.
    fn wait(&mut self, left_us: u64) -> (action: Action)
        requires
            old(self).ready(),
            old(self).stage == Stage::Hold(left_us),
        ensures
            final(self).follows(*old(self), action),
    {
        let row = self.row;
        let ghost cells = grid(self.matrix)[row as int];
        if left_us <= u32::MAX as u64 {
            proof {
                lemma_stage_wait_out(cells, row, self.hold_us, left_us);
                lemma_scan_rest_step(
                    grid(self.matrix),
                    self.hold_us,
                    self.sweeps_left as nat,
                    row,
                    Stage::Hold(left_us),
                    Stage::Blank(0),
                    Action::Dwell(left_us as u32),
                );
            }
            self.stage = Stage::Blank(0);
            Action::Dwell(left_us as u32)
        } else {
            proof {
                lemma_stage_wait_on(cells, row, self.hold_us, left_us);
                lemma_scan_rest_step(
                    grid(self.matrix),
                    self.hold_us,
                    self.sweeps_left as nat,
                    row,
                    Stage::Hold(left_us),
                    Stage::Hold((left_us - u32::MAX) as u64),
                    Action::Dwell(u32::MAX),
                );
            }
            self.stage = Stage::Hold(left_us - u32::MAX as u64);
            Action::Dwell(u32::MAX)
        }
    }

    /// Puts column `j` back high, or, when every column is, drops the row
    /// line and moves on to the next row, or to the next sweep.
    fn blank_or_drop(&mut self, j: usize) -> (action: Action)
        requires
            old(self).ready(),
            old(self).stage == Stage::Blank(j),
        ensures
            final(self).follows(*old(self), action),
    {
        let row = self.row;
        let ghost cells = grid(self.matrix)[row as int];
        proof {
            self.pins.lemma_shape();
        }
        if j < C {
            proof {
                lemma_stage_blank(cells, row, self.hold_us, j);
                lemma_scan_rest_step(
                    grid(self.matrix),
                    self.hold_us,
                    self.sweeps_left as nat,
                    row,
                    Stage::Blank(j),
                    Stage::Blank((j + 1) as usize),
                    Action::Drive(Line::Col(j), Level::High),
                );
                self.lemma_next_is_safe(Action::Drive(Line::Col(j), Level::High));
            }
            self.stage = Stage::Blank(j + 1);
            self.pins.drive(Line::Col(j), Level::High);
            Action::Drive(Line::Col(j), Level::High)
        } else {
            proof {
                lemma_stage_drop(cells, row, self.hold_us, j);
                lemma_scan_rest_advance(
                    grid(self.matrix),
                    self.hold_us,
                    self.sweeps_left as nat,
                    row,
                    j,
                );
                self.lemma_next_is_safe(Action::Drive(Line::Row(row), Level::Low));
            }
            self.stage = Stage::Assert;
            if row + 1 < R {
                self.row = row + 1;
            } else {
                self.row = 0;
                self.sweeps_left = self.sweeps_left - 1;
            }
            self.pins.drive(Line::Row(row), Level::Low);
            Action::Drive(Line::Row(row), Level::Low)
        }
    }
}

} // verus!
