//! The lines that are wired to the LED matrix.
//!
//! [`DisplayPins`] stands for the row and column lines of one board. It
//! records the level of every line and the line writes that were requested
//! and not yet handed out. The board layer fetches these writes one at a time
//! with [`DisplayPins::next_action`] and performs each on the real pin.

use crate::layout::{in_image, v1_table, Layout};
use crate::line::{repeated, spares_rows, Action, Level, Line, Lines};
use vstd::prelude::*;

verus! {

/// Every one of `n` row lines driven low, in index order.
pub open spec fn rows_low(n: nat) -> Seq<Action> {
    Seq::new(n, |i: int| Action::Drive(Line::Row(i as usize), Level::Low))
}

/// Every one of `n` column lines driven high, in index order.
pub open spec fn cols_high(n: nat) -> Seq<Action> {
    Seq::new(n, |j: int| Action::Drive(Line::Col(j as usize), Level::High))
}

/// A full clear: every row line low, then every column line high.
pub open spec fn clear_actions(rows: nat, cols: nat) -> Seq<Action> {
    rows_low(rows) + cols_high(cols)
}

/// Whether `mask` lists column `j`: its least significant bit stands for
/// column 0, the next for column 1, and so on.
pub open spec fn mask_bit(mask: u32, j: int) -> bool {
    0 <= j < 32 && mask & (1u32 << (j as u32)) != 0
}

/// The level that lights column `j` if `mask` lists it and darkens it if not.
pub open spec fn mask_level(mask: u32, j: int) -> Level {
    if mask_bit(mask, j) {
        Level::Low
    } else {
        Level::High
    }
}

/// Every one of `n` column lines driven, in index order, low where `mask`
/// lists it and high where it does not.
pub open spec fn cols_by_mask(n: nat, mask: u32) -> Seq<Action> {
    Seq::new(n, |j: int| Action::Drive(Line::Col(j as usize), mask_level(mask, j)))
}

/// Row `row` driven high, if the board has such a row.
pub open spec fn row_select(rows: nat, row: usize) -> Seq<Action> {
    if row < rows {
        seq![Action::Drive(Line::Row(row), Level::High)]
    } else {
        Seq::empty()
    }
}

/// Lighting exactly the listed LEDs of one row: every row line low, then
/// every column line set by the mask, then the chosen row line high.
pub open spec fn row_leds_actions(rows: nat, cols: nat, row: usize, mask: u32) -> Seq<Action> {
    rows_low(rows) + cols_by_mask(cols, mask) + row_select(rows, row)
}

/// The listed columns among `j..cols` driven low, in index order.
pub open spec fn light_actions_from(cols: nat, mask: u32, j: nat) -> Seq<Action>
    decreases cols - j,
{
    if j >= cols {
        Seq::empty()
    } else if mask_bit(mask, j as int) {
        seq![Action::Drive(Line::Col(j as usize), Level::Low)] + light_actions_from(
            cols,
            mask,
            j + 1,
        )
    } else {
        light_actions_from(cols, mask, j + 1)
    }
}

/// Lighting more LEDs of the current row: the listed columns driven low, in
/// index order; the others are left alone.
pub open spec fn light_actions(cols: nat, mask: u32) -> Seq<Action> {
    light_actions_from(cols, mask, 0)
}

/// A full clear leaves every row line low and every column line high,
/// whatever the levels were before.
pub proof fn lemma_clear_settles(start: Lines)
    requires
        start.rows.len() <= usize::MAX,
        start.cols.len() <= usize::MAX,
    ensures
        start.perform_all(clear_actions(start.rows.len(), start.cols.len())).at_rest(),
        start.perform_all(clear_actions(start.rows.len(), start.cols.len())).rows.len()
            == start.rows.len(),
        start.perform_all(clear_actions(start.rows.len(), start.cols.len())).cols.len()
            == start.cols.len(),
{
    let rows = start.rows.len();
    let cols = start.cols.len();
    start.lemma_perform_all_concat(rows_low(rows), cols_high(cols));
    let low = |i: int| Level::Low;
    let high = |j: int| Level::High;
    assert(rows_low(rows) =~= Seq::new(
        rows,
        |i: int| Action::Drive(Line::Row(i as usize), low(i)),
    ));
    start.lemma_drive_rows(rows, low);
    let mid = start.perform_all(rows_low(rows));
    assert(cols_high(cols) =~= Seq::new(
        cols,
        |j: int| Action::Drive(Line::Col(j as usize), high(j)),
    ));
    mid.lemma_drive_cols(cols, high);
}

/// Driving the row lines low one by one never makes a second row line
/// high.
proof fn lemma_rows_low_exclusive(start: Lines, n: nat)
    requires
        start.rows_exclusive(),
        n <= start.rows.len(),
        n <= usize::MAX,
    ensures
        start.stays_exclusive(rows_low(n)),
        n == start.rows.len() ==> start.perform_all(rows_low(n)).no_row_high(),
        start.perform_all(rows_low(n)).rows.len() == start.rows.len(),
        start.perform_all(rows_low(n)).cols == start.cols,
{
    let low = |i: int| Level::Low;
    assert forall|t: int| 0 <= t <= rows_low(n).len() implies (#[trigger] start.perform_all(
        rows_low(n).take(t),
    )).rows_exclusive() by {
        assert(rows_low(n).take(t) =~= Seq::new(
            t as nat,
            |i: int| Action::Drive(Line::Row(i as usize), low(i)),
        ));
        start.lemma_drive_rows(t as nat, low);
    }
    assert(rows_low(n) =~= Seq::new(n, |i: int| Action::Drive(Line::Row(i as usize), low(i))));
    start.lemma_drive_rows(n, low);
}

/// While a full clear is performed, no second row line goes high.
pub proof fn lemma_clear_exclusive(start: Lines)
    requires
        start.rows_exclusive(),
        start.rows.len() <= usize::MAX,
        start.cols.len() <= usize::MAX,
    ensures
        start.stays_exclusive(clear_actions(start.rows.len(), start.cols.len())),
{
    let rows = start.rows.len();
    let cols = start.cols.len();
    lemma_rows_low_exclusive(start, rows);
    let mid = start.perform_all(rows_low(rows));
    mid.lemma_stays_exclusive_spared(cols_high(cols));
    start.lemma_stays_exclusive_concat(rows_low(rows), cols_high(cols));
}

/// While the writes of a row request are performed, no second row line
/// goes high: every row line is low before the chosen one is raised.
pub proof fn lemma_row_leds_exclusive(start: Lines, row: usize, mask: u32)
    requires
        start.rows_exclusive(),
        start.rows.len() <= usize::MAX,
        start.cols.len() <= usize::MAX,
    ensures
        start.stays_exclusive(row_leds_actions(start.rows.len(), start.cols.len(), row, mask)),
{
    let rows = start.rows.len();
    let cols = start.cols.len();
    let first = rows_low(rows);
    let second = cols_by_mask(cols, mask);
    let third = row_select(rows, row);
    lemma_rows_low_exclusive(start, rows);
    let a = start.perform_all(first);
    a.lemma_stays_exclusive_spared(second);
    a.lemma_rows_spared(second);
    start.lemma_stays_exclusive_concat(first, second);
    start.lemma_perform_all_concat(first, second);
    let b = start.perform_all(first + second);
    assert(b.no_row_high());
    assert forall|t: int| 0 <= t <= third.len() implies (#[trigger] b.perform_all(
        third.take(t),
    )).rows_exclusive() by {
        if t == 0 {
            assert(third.take(0) =~= Seq::<Action>::empty());
        } else {
            assert(third.take(t) =~= third);
            b.lemma_perform_all_one(Action::Drive(Line::Row(row), Level::High));
        }
    }
    start.lemma_stays_exclusive_concat(first + second, third);
}

/// Lighting cells drives column lines only.
proof fn lemma_light_spares_rows(cols: nat, mask: u32, from: nat)
    ensures
        forall|i: int|
            0 <= i < light_actions_from(cols, mask, from).len() ==> spares_rows(
                #[trigger] light_actions_from(cols, mask, from)[i],
            ),
    decreases cols - from,
{
    if from < cols {
        lemma_light_spares_rows(cols, mask, from + 1);
        let all = light_actions_from(cols, mask, from);
        let after = light_actions_from(cols, mask, from + 1);
        assert forall|i: int| 0 <= i < all.len() implies spares_rows(#[trigger] all[i]) by {
            if mask_bit(mask, from as int) && i > 0 {
                assert(all[i] == after[i - 1]);
            }
        }
    }
}

/// Clearing any number of times in a row leaves the lines exactly as a
/// single clear does: at rest.
pub proof fn lemma_clear_idempotent(start: Lines, n: nat)
    requires
        start.rows.len() <= usize::MAX,
        start.cols.len() <= usize::MAX,
        n >= 1,
    ensures
        start.perform_all(repeated(clear_actions(start.rows.len(), start.cols.len()), n))
            == start.perform_all(clear_actions(start.rows.len(), start.cols.len())),
        start.perform_all(repeated(clear_actions(start.rows.len(), start.cols.len()), n)).at_rest(),
{
    let clear = clear_actions(start.rows.len(), start.cols.len());
    let once = start.perform_all(clear);
    lemma_clear_settles(start);
    lemma_clear_settles(once);
    once.perform_all(clear).lemma_rest_is_unique(once);
    once.lemma_repeated_returns(clear, (n - 1) as nat);
    start.lemma_perform_all_concat(clear, repeated(clear, (n - 1) as nat));
}

/// Initialising leaves the row lines as they were and every column line
/// high.
pub proof fn lemma_initialise_settles(start: Lines)
    requires
        start.cols.len() <= usize::MAX,
    ensures
        start.perform_all(cols_high(start.cols.len())).rows == start.rows,
        start.perform_all(cols_high(start.cols.len())).cols.len() == start.cols.len(),
        start.perform_all(cols_high(start.cols.len())).all_cols_high(),
{
    let cols = start.cols.len();
    let high = |j: int| Level::High;
    assert(cols_high(cols) =~= Seq::new(
        cols,
        |j: int| Action::Drive(Line::Col(j as usize), high(j)),
    ));
    start.lemma_drive_cols(cols, high);
}

/// Once the writes of a row request are performed, the chosen row line is
/// the only one that is high (none is, if the board has no such row), and a
/// column line is low exactly if the mask lists it: exactly the listed LEDs
/// of that row are lit.
pub proof fn lemma_row_leds_settles(start: Lines, row: usize, mask: u32)
    requires
        start.rows.len() <= usize::MAX,
        start.cols.len() <= usize::MAX,
    ensures
        ({
            let end = start.perform_all(
                row_leds_actions(start.rows.len(), start.cols.len(), row, mask),
            );
            &&& end.rows.len() == start.rows.len()
            &&& end.cols.len() == start.cols.len()
            &&& if row < start.rows.len() {
                end.only_row_high(row as int)
            } else {
                end.no_row_high()
            }
            &&& forall|j: int|
                0 <= j < end.cols.len() ==> #[trigger] end.cols[j] == mask_level(mask, j)
        }),
{
    let rows = start.rows.len();
    let cols = start.cols.len();
    let low = |i: int| Level::Low;
    let by_mask = |j: int| mask_level(mask, j);
    let first = rows_low(rows);
    let second = cols_by_mask(cols, mask);
    let third = row_select(rows, row);
    start.lemma_perform_all_concat(first + second, third);
    start.lemma_perform_all_concat(first, second);
    assert(first =~= Seq::new(rows, |i: int| Action::Drive(Line::Row(i as usize), low(i))));
    start.lemma_drive_rows(rows, low);
    let a = start.perform_all(first);
    assert(second =~= Seq::new(
        cols,
        |j: int| Action::Drive(Line::Col(j as usize), by_mask(j)),
    ));
    a.lemma_drive_cols(cols, by_mask);
    let b = a.perform_all(second);
    if row < rows {
        b.lemma_perform_all_one(Action::Drive(Line::Row(row), Level::High));
    }
}

/// Once the writes of a light request are performed, the listed column
/// lines are low and every other line is as it was: the listed LEDs of the
/// current row are lit in addition to those that were.
pub proof fn lemma_light_settles(start: Lines, mask: u32)
    requires
        start.cols.len() <= usize::MAX,
    ensures
        ({
            let end = start.perform_all(light_actions(start.cols.len(), mask));
            &&& end.rows == start.rows
            &&& end.cols.len() == start.cols.len()
            &&& forall|j: int|
                0 <= j < end.cols.len() ==> #[trigger] end.cols[j] == if mask_bit(mask, j) {
                    Level::Low
                } else {
                    start.cols[j]
                }
        }),
{
    lemma_light_from_settles(start, start.cols.len(), mask, 0);
}

proof fn lemma_light_from_settles(start: Lines, cols: nat, mask: u32, from: nat)
    requires
        cols == start.cols.len(),
        cols <= usize::MAX,
    ensures
        ({
            let end = start.perform_all(light_actions_from(cols, mask, from));
            &&& end.rows == start.rows
            &&& end.cols.len() == start.cols.len()
            &&& forall|j: int|
                0 <= j < end.cols.len() ==> #[trigger] end.cols[j] == if j >= from && mask_bit(
                    mask,
                    j,
                ) {
                    Level::Low
                } else {
                    start.cols[j]
                }
        }),
    decreases cols - from,
{
    if from < cols {
        if mask_bit(mask, from as int) {
            let first = Action::Drive(Line::Col(from as usize), Level::Low);
            let after = light_actions_from(cols, mask, from + 1);
            start.lemma_perform_all_concat(seq![first], after);
            start.lemma_perform_all_one(first);
            lemma_light_from_settles(start.perform(first), cols, mask, from + 1);
        } else {
            lemma_light_from_settles(start, cols, mask, from + 1);
        }
    }
}

/// The request whose writes are being handed out.
#[derive(Clone, Copy, Debug)]
enum Burst {
    Nothing,
    Clear,
    Initialise,
    RowLeds(usize, u32),
    Light(u32),
}

/// How many places a request has; each place holds at most one write.
spec fn slots(rows: nat, cols: nat, burst: Burst) -> nat {
    match burst {
        Burst::Nothing => 0,
        Burst::Clear => rows + cols,
        Burst::Initialise => cols,
        Burst::RowLeds(_, _) => rows + cols + 1,
        Burst::Light(_) => cols,
    }
}

/// The write at place `k` of a request, if that place holds one.
spec fn slot(rows: nat, cols: nat, burst: Burst, k: nat) -> Option<Action> {
    match burst {
        Burst::Nothing => None,
        Burst::Clear => if k < rows {
            Some(Action::Drive(Line::Row(k as usize), Level::Low))
        } else {
            Some(Action::Drive(Line::Col((k - rows) as usize), Level::High))
        },
        Burst::Initialise => Some(Action::Drive(Line::Col(k as usize), Level::High)),
        Burst::RowLeds(row, mask) => if k < rows {
            Some(Action::Drive(Line::Row(k as usize), Level::Low))
        } else if k < rows + cols {
            Some(Action::Drive(Line::Col((k - rows) as usize), mask_level(mask, k - rows)))
        } else if row < rows {
            Some(Action::Drive(Line::Row(row), Level::High))
        } else {
            None
        },
        Burst::Light(mask) => if mask_bit(mask, k as int) {
            Some(Action::Drive(Line::Col(k as usize), Level::Low))
        } else {
            None
        },
    }
}

/// The writes of a request from place `k` on.
spec fn rest(rows: nat, cols: nat, burst: Burst, k: nat) -> Seq<Action>
    decreases slots(rows, cols, burst) - k,
{
    if k >= slots(rows, cols, burst) {
        Seq::empty()
    } else {
        match slot(rows, cols, burst, k) {
            Some(action) => seq![action] + rest(rows, cols, burst, k + 1),
            None => rest(rows, cols, burst, k + 1),
        }
    }
}

/// A request whose every place holds a write hands out, from place `k` on,
/// the tail of the sequence of those writes.
proof fn lemma_rest_is_tail(rows: nat, cols: nat, burst: Burst, full: Seq<Action>, k: nat)
    requires
        full.len() == slots(rows, cols, burst),
        forall|i: nat| i < full.len() ==> slot(rows, cols, burst, i) == Some(full[i as int]),
        k <= full.len(),
    ensures
        rest(rows, cols, burst, k) == full.skip(k as int),
    decreases full.len() - k,
{
    if k < full.len() {
        lemma_rest_is_tail(rows, cols, burst, full, k + 1);
        assert(seq![full[k as int]] + full.skip((k + 1) as int) =~= full.skip(k as int));
    } else {
        assert(full.skip(k as int) =~= Seq::empty());
    }
}

proof fn lemma_rest_clear(rows: nat, cols: nat)
    ensures
        rest(rows, cols, Burst::Clear, 0) == clear_actions(rows, cols),
{
    let full = clear_actions(rows, cols);
    lemma_rest_is_tail(rows, cols, Burst::Clear, full, 0);
    assert(full.skip(0) =~= full);
}

proof fn lemma_rest_initialise(rows: nat, cols: nat)
    ensures
        rest(rows, cols, Burst::Initialise, 0) == cols_high(cols),
{
    let full = cols_high(cols);
    lemma_rest_is_tail(rows, cols, Burst::Initialise, full, 0);
    assert(full.skip(0) =~= full);
}

proof fn lemma_rest_row_leds(rows: nat, cols: nat, row: usize, mask: u32)
    ensures
        rest(rows, cols, Burst::RowLeds(row, mask), 0) == row_leds_actions(rows, cols, row, mask),
{
    let burst = Burst::RowLeds(row, mask);
    let full = row_leds_actions(rows, cols, row, mask);
    if row < rows {
        lemma_rest_is_tail(rows, cols, burst, full, 0);
        assert(full.skip(0) =~= full);
    } else {
        let body = rows_low(rows) + cols_by_mask(cols, mask);
        assert(full =~= body);
        lemma_rest_row_leds_body(rows, cols, row, mask, 0);
        assert(body.skip(0) =~= body);
    }
}

/// Without a row to select, the last place of the request is empty.
proof fn lemma_rest_row_leds_body(rows: nat, cols: nat, row: usize, mask: u32, k: nat)
    requires
        row >= rows,
        k <= rows + cols + 1,
    ensures
        rest(rows, cols, Burst::RowLeds(row, mask), k) == if k <= rows + cols {
            (rows_low(rows) + cols_by_mask(cols, mask)).skip(k as int)
        } else {
            Seq::empty()
        },
    decreases rows + cols + 1 - k,
{
    let body = rows_low(rows) + cols_by_mask(cols, mask);
    if k < rows + cols {
        lemma_rest_row_leds_body(rows, cols, row, mask, k + 1);
        assert(seq![body[k as int]] + body.skip((k + 1) as int) =~= body.skip(k as int));
    } else if k == rows + cols {
        lemma_rest_row_leds_body(rows, cols, row, mask, k + 1);
        assert(body.skip(k as int) =~= Seq::empty());
    }
}

proof fn lemma_rest_light(rows: nat, cols: nat, mask: u32, k: nat)
    ensures
        rest(rows, cols, Burst::Light(mask), k) == light_actions_from(cols, mask, k),
    decreases cols - k,
{
    if k < cols {
        lemma_rest_light(rows, cols, mask, k + 1);
    }
}

/// Whether `mask` lists column `j`.
fn mask_has(mask: u32, j: usize) -> (b: bool)
    ensures
        b == mask_bit(mask, j as int),
{
    j < 32 && mask & (1u32 << (j as u32)) != 0
}

/// The level that `mask` asks of column `j`.
fn level_by_mask(mask: u32, j: usize) -> (level: Level)
    ensures
        level == mask_level(mask, j as int),
{
    if mask_has(mask, j) {
        Level::Low
    } else {
        Level::High
    }
}

/// The row and column lines of a board with `R` row lines and `C` column
/// lines, together with the wiring of its matrix.
pub struct DisplayPins<const R: usize, const C: usize> {
    rows: [Level; R],
    cols: [Level; C],
    layout: Layout<R, C>,
    burst: Burst,
    cursor: usize,
}

impl<const R: usize, const C: usize> DisplayPins<R, C> {
    /// The wiring is a bijection, the bookkeeping is in range, and at most
    /// one row line is high, now and while the pending writes are performed.
    pub closed spec fn wf(&self) -> bool {
        &&& self.layout.wf()
        &&& R + C + 1 <= usize::MAX
        &&& self.cursor <= slots(R as nat, C as nat, self.burst)
        &&& self.lines().stays_exclusive(self.pending())
    }

    /// The level of every line, provided that every write handed out so far
    /// was performed.
    pub closed spec fn lines(&self) -> Lines {
        Lines { rows: self.rows@, cols: self.cols@ }
    }

    /// The writes that were requested and not yet handed out, in the order
    /// in which they will be.
    pub closed spec fn pending(&self) -> Seq<Action> {
        rest(R as nat, C as nat, self.burst, self.cursor as nat)
    }

    /// The wiring of the matrix.
    pub closed spec fn wiring(&self) -> Layout<R, C> {
        self.layout
    }

    /// A board has as many lines as its type says, and at least one row and
    /// one column.
    pub proof fn lemma_shape(&self)
        requires
            self.wf(),
        ensures
            self.lines().rows.len() == R,
            self.lines().cols.len() == C,
            self.wiring().wf(),
            R > 0,
            C > 0,
    {
        self.layout.lemma_bijection();
        let p = self.layout.cell(0, 0);
        assert(0 <= p.0 < R);
    }

    /// Never two rows at once: at most one row line is high, and this stays
    /// so while the board layer performs the pending writes one by one.
    pub proof fn lemma_rows_exclusive(&self)
        requires
            self.wf(),
        ensures
            self.lines().rows_exclusive(),
            self.lines().stays_exclusive(self.pending()),
    {
        self.lines().lemma_stays_exclusive_now(self.pending());
    }

    /// The pins of a board with the given wiring, every line low, as a board
    /// layer hands them over when it has configured them as outputs.
    fn with_layout(layout: Layout<R, C>) -> (pins: Self)
        requires
            layout.wf(),
            R + C + 1 <= usize::MAX,
        ensures
            pins.wf(),
            pins.wiring() == layout,
            pins.pending() == Seq::<Action>::empty(),
            pins.lines().rows == Seq::new(R as nat, |i: int| Level::Low),
            pins.lines().cols == Seq::new(C as nat, |j: int| Level::Low),
    {
        let pins = DisplayPins {
            rows: [Level::Low;R],
            cols: [Level::Low;C],
            layout,
            burst: Burst::Nothing,
            cursor: 0,
        };
        proof {
            assert(pins.lines().rows =~= Seq::new(R as nat, |i: int| Level::Low));
            assert(pins.lines().cols =~= Seq::new(C as nat, |j: int| Level::Low));
            assert(pins.pending() =~= Seq::<Action>::empty());
            pins.lines().lemma_stays_exclusive_empty();
        }
        pins
    }

    /// The wiring of the matrix.
    pub fn layout(&self) -> (layout: &Layout<R, C>)
        ensures
            *layout == self.wiring(),
    {
        &self.layout
    }

    /// The level of row line `i`, if the board has such a line.
    pub fn row_level(&self, i: usize) -> (level: Option<Level>)
        ensures
            level == if i < R {
                Some(self.lines().rows[i as int])
            } else {
                None
            },
    {
        if i < R {
            Some(self.rows[i])
        } else {
            None
        }
    }

    /// The level of column line `j`, if the board has such a line.
    pub fn col_level(&self, j: usize) -> (level: Option<Level>)
        ensures
            level == if j < C {
                Some(self.lines().cols[j as int])
            } else {
                None
            },
    {
        if j < C {
            Some(self.cols[j])
        } else {
            None
        }
    }

    /// Whether every requested write has been handed out.
    pub fn is_settled(&self) -> (b: bool)
        requires
            self.wf(),
        ensures
            b == (self.pending().len() == 0),
    {
        let mut k = self.cursor;
        let total = self.slot_count();
        while k < total
            invariant
                self.wf(),
                self.cursor <= k <= total,
                total == slots(R as nat, C as nat, self.burst),
                rest(R as nat, C as nat, self.burst, k as nat) == self.pending(),
            decreases total - k,
        {
            if self.slot_at(k).is_some() {
                return false;
            }
            k += 1;
        }
        true
    }

    /// Requests a full clear: every row line low, then every column line
    /// high. Writes requested earlier and not yet handed out are dropped.
    pub fn clear(&mut self)
        requires
            old(self).wf(),
        ensures
            final(self).wf(),
            final(self).wiring() == old(self).wiring(),
            final(self).lines() == old(self).lines(),
            final(self).pending() == clear_actions(R as nat, C as nat),
    {
        proof {
            self.lemma_shape();
            self.lemma_rows_exclusive();
            lemma_clear_exclusive(self.lines());
        }
        self.burst = Burst::Clear;
        self.cursor = 0;
        proof {
            lemma_rest_clear(R as nat, C as nat);
        }
    }

    /// Requests what the matrix needs before its first use: every column
    /// line high, so that no LED lights when a row is driven. Writes
    /// requested earlier and not yet handed out are dropped.
    pub fn initialise_for_display(&mut self)
        requires
            old(self).wf(),
        ensures
            final(self).wf(),
            final(self).wiring() == old(self).wiring(),
            final(self).lines() == old(self).lines(),
            final(self).pending() == cols_high(C as nat),
    {
        proof {
            self.lemma_rows_exclusive();
            self.lines().lemma_stays_exclusive_spared(cols_high(C as nat));
        }
        self.burst = Burst::Initialise;
        self.cursor = 0;
        proof {
            lemma_rest_initialise(R as nat, C as nat);
        }
    }

    /// Requests that exactly the LEDs that `cols` lists light in row `row`,
    /// and none in any other row. Writes requested earlier and not yet
    /// handed out are dropped.
    pub fn display_row_leds(&mut self, row: usize, cols: u32)
        requires
            old(self).wf(),
        ensures
            final(self).wf(),
            final(self).wiring() == old(self).wiring(),
            final(self).lines() == old(self).lines(),
            final(self).pending() == row_leds_actions(R as nat, C as nat, row, cols),
    {
        proof {
            self.lemma_shape();
            self.lemma_rows_exclusive();
            lemma_row_leds_exclusive(self.lines(), row, cols);
        }
        self.burst = Burst::RowLeds(row, cols);
        self.cursor = 0;
        proof {
            lemma_rest_row_leds(R as nat, C as nat, row, cols);
        }
    }

    /// Requests that the LEDs that `cols` lists light in the current row, in
    /// addition to those already lit. Writes requested earlier and not yet
    /// handed out are dropped.
    pub fn light_current_row_leds(&mut self, cols: u32)
        requires
            old(self).wf(),
        ensures
            final(self).wf(),
            final(self).wiring() == old(self).wiring(),
            final(self).lines() == old(self).lines(),
            final(self).pending() == light_actions(C as nat, cols),
    {
        proof {
            self.lemma_rows_exclusive();
            lemma_light_spares_rows(C as nat, cols, 0);
            self.lines().lemma_stays_exclusive_spared(light_actions(C as nat, cols));
        }
        self.burst = Burst::Light(cols);
        self.cursor = 0;
        proof {
            lemma_rest_light(R as nat, C as nat, cols, 0);
        }
    }

    /// Hands out the next pending write and records its effect on the line,
    /// or returns `None` when nothing is pending.
    pub fn next_action(&mut self) -> (next: Option<Action>)
        requires
            old(self).wf(),
        ensures
            final(self).wf(),
            final(self).wiring() == old(self).wiring(),
            match next {
                Some(action) => {
                    &&& old(self).pending().len() > 0
                    &&& action == old(self).pending()[0]
                    &&& final(self).pending() == old(self).pending().skip(1)
                    &&& final(self).lines() == old(self).lines().perform(action)
                },
                None => {
                    &&& old(self).pending().len() == 0
                    &&& final(self).pending().len() == 0
                    &&& final(self).lines() == old(self).lines()
                },
            },
    {
        let total = self.slot_count();
        while self.cursor < total
            invariant
                old(self).wf(),
                self.wf(),
                total == slots(R as nat, C as nat, self.burst),
                self.layout == old(self).layout,
                self.rows == old(self).rows,
                self.cols == old(self).cols,
                self.pending() == old(self).pending(),
            decreases total - self.cursor,
        {
            let k = self.cursor;
            let found = self.slot_at(k);
            self.cursor = k + 1;
            if let Some(action) = found {
                proof {
                    let after = rest(R as nat, C as nat, self.burst, (k + 1) as nat);
                    assert((seq![action] + after).skip(1) =~= after);
                    old(self).lines().lemma_stays_exclusive_next(old(self).pending());
                }
                self.record(action);
                return Some(action);
            }
        }
        None
    }

    /// Records that a line was put at a level, while no write is pending.
    pub(crate) fn drive(&mut self, line: Line, level: Level)
        requires
            old(self).wf(),
            old(self).pending().len() == 0,
            old(self).lines().drive(line, level).rows_exclusive(),
            match line {
                Line::Row(i) => i < R,
                Line::Col(j) => j < C,
            },
        ensures
            final(self).wf(),
            final(self).wiring() == old(self).wiring(),
            final(self).pending() == old(self).pending(),
            final(self).lines() == old(self).lines().drive(line, level),
    {
        self.put(line, level);
        proof {
            assert(self.pending() =~= Seq::<Action>::empty());
            self.lines().lemma_stays_exclusive_empty();
        }
    }

    /// Records the effect of the write that was just taken from the pending
    /// ones.
    fn record(&mut self, action: Action)
        requires
            old(self).layout.wf(),
            R + C + 1 <= usize::MAX,
            old(self).cursor <= slots(R as nat, C as nat, old(self).burst),
            old(self).lines().perform(action).stays_exclusive(old(self).pending()),
            match action {
                Action::Drive(Line::Row(i), _) => i < R,
                Action::Drive(Line::Col(j), _) => j < C,
                Action::Dwell(_) => false,
            },
        ensures
            final(self).wf(),
            final(self).wiring() == old(self).wiring(),
            final(self).pending() == old(self).pending(),
            final(self).lines() == old(self).lines().perform(action),
    {
        match action {
            Action::Drive(line, level) => {
                self.put(line, level);
            },
            Action::Dwell(_) => {},
        }
    }

    /// Sets the level of a line.
    fn put(&mut self, line: Line, level: Level)
        requires
            match line {
                Line::Row(i) => i < R,
                Line::Col(j) => j < C,
            },
        ensures
            final(self).layout == old(self).layout,
            final(self).burst == old(self).burst,
            final(self).cursor == old(self).cursor,
            final(self).lines() == old(self).lines().drive(line, level),
    {
        match line {
            Line::Row(i) => {
                self.rows[i] = level;
            },
            Line::Col(j) => {
                self.cols[j] = level;
            },
        }
        assert(self.lines() =~= old(self).lines().drive(line, level));
    }

    /// The number of places of the request being handed out.
    fn slot_count(&self) -> (n: usize)
        requires
            self.wf(),
        ensures
            n == slots(R as nat, C as nat, self.burst),
    {
        match self.burst {
            Burst::Nothing => 0,
            Burst::Clear => R + C,
            Burst::Initialise => C,
            Burst::RowLeds(_, _) => R + C + 1,
            Burst::Light(_) => C,
        }
    }

    /// The write at place `k` of the request being handed out.
    fn slot_at(&self, k: usize) -> (found: Option<Action>)
        requires
            self.wf(),
            k < slots(R as nat, C as nat, self.burst),
        ensures
            found == slot(R as nat, C as nat, self.burst, k as nat),
            match found {
                Some(Action::Drive(Line::Row(i), _)) => i < R,
                Some(Action::Drive(Line::Col(j), _)) => j < C,
                Some(Action::Dwell(_)) => false,
                None => true,
            },
    {
        match self.burst {
            Burst::Nothing => None,
            Burst::Clear => {
                if k < R {
                    Some(Action::Drive(Line::Row(k), Level::Low))
                } else {
                    Some(Action::Drive(Line::Col(k - R), Level::High))
                }
            },
            Burst::Initialise => Some(Action::Drive(Line::Col(k), Level::High)),
            Burst::RowLeds(row, mask) => {
                if k < R {
                    Some(Action::Drive(Line::Row(k), Level::Low))
                } else if k < R + C {
                    Some(Action::Drive(Line::Col(k - R), level_by_mask(mask, k - R)))
                } else if row < R {
                    Some(Action::Drive(Line::Row(row), Level::High))
                } else {
                    None
                }
            },
            Burst::Light(mask) => {
                if mask_has(mask, k) {
                    Some(Action::Drive(Line::Col(k), Level::Low))
                } else {
                    None
                }
            },
        }
    }
}

impl DisplayPins<3, 9> {
    /// The pins of the first board revision, every line low.
    pub fn v1() -> (pins: Self)
        ensures
            pins.wf(),
            forall|r: int, c: int|
                in_image(r, c) ==> #[trigger] pins.wiring().cell(r, c) == v1_table()[r][c],
            pins.pending() == Seq::<Action>::empty(),
            pins.lines().rows == Seq::new(3, |i: int| Level::Low),
            pins.lines().cols == Seq::new(9, |j: int| Level::Low),
    {
        DisplayPins::with_layout(Layout::<3, 9>::v1())
    }
}

impl DisplayPins<5, 5> {
    /// The pins of the second board revision, every line low.
    pub fn v2() -> (pins: Self)
        ensures
            pins.wf(),
            forall|r: int, c: int| in_image(r, c) ==> #[trigger] pins.wiring().cell(r, c) == (r, c),
            pins.pending() == Seq::<Action>::empty(),
            pins.lines().rows == Seq::new(5, |i: int| Level::Low),
            pins.lines().cols == Seq::new(5, |j: int| Level::Low),
    {
        DisplayPins::with_layout(Layout::<5, 5>::v2())
    }
}

} // verus!
