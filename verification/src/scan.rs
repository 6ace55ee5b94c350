//! What a scan is: the sequence of actions that shows a drive matrix for a
//! while by lighting one row at a time, and what holds of the lines while it
//! runs.

use crate::gpio::{cols_high, lemma_initialise_settles};
use crate::line::{
    is_dwell, is_row_assert, is_row_drop, repeated, spares_rows, Action, Level, Line, Lines,
};
use vstd::prelude::*;

verus! {

/// Among the columns `j..` of one matrix row, those with a nonzero intensity
/// driven low, in index order.
pub open spec fn lit_from(cells: Seq<u8>, j: nat) -> Seq<Action>
    decreases cells.len() - j,
{
    if j >= cells.len() {
        Seq::empty()
    } else if cells[j as int] > 0 {
        seq![Action::Drive(Line::Col(j as usize), Level::Low)] + lit_from(cells, j + 1)
    } else {
        lit_from(cells, j + 1)
    }
}

/// The waits that make up a dwell of `hold_us` microseconds on a timer that
/// counts in `u32`: as many waits of the longest time that it can count as
/// fit, and one for what is left.
pub open spec fn wait_actions(hold_us: u64) -> Seq<Action>
    decreases hold_us,
{
    if hold_us <= u32::MAX {
        seq![Action::Dwell(hold_us as u32)]
    } else {
        seq![Action::Dwell(u32::MAX)] + wait_actions((hold_us - u32::MAX) as u64)
    }
}

/// One slice of a sweep, the visit of one row: the row line goes high, the
/// columns of its lit cells go low, the dwell passes, every column goes back
/// high, and the row line goes low.
pub open spec fn slice_actions(cells: Seq<u8>, row: usize, hold_us: u64) -> Seq<Action> {
    seq![Action::Drive(Line::Row(row), Level::High)] + lit_from(cells, 0) + wait_actions(hold_us)
        + cols_high(cells.len()) + seq![Action::Drive(Line::Row(row), Level::Low)]
}

/// The slices of the rows `r..` of the matrix, in index order.
pub open spec fn sweep_from(matrix: Seq<Seq<u8>>, hold_us: u64, r: nat) -> Seq<Action>
    decreases matrix.len() - r,
{
    if r >= matrix.len() {
        Seq::empty()
    } else {
        slice_actions(matrix[r as int], r as usize, hold_us) + sweep_from(matrix, hold_us, r + 1)
    }
}

/// One sweep: a slice for every row of the matrix, in index order.
pub open spec fn sweep_actions(matrix: Seq<Seq<u8>>, hold_us: u64) -> Seq<Action> {
    sweep_from(matrix, hold_us, 0)
}

/// A scan: the given number of sweeps, one after the other.
pub open spec fn scan_actions(matrix: Seq<Seq<u8>>, hold_us: u64, sweeps: nat) -> Seq<Action> {
    repeated(sweep_actions(matrix, hold_us), sweeps)
}

/// How many full sweeps fit into `duration_ms` when each of `rows` rows is
/// held for `dwell_ms`: the quotient, rounded down. With no rows or no dwell
/// time there is nothing to repeat, and the count is 0.
pub open spec fn sweep_count(rows: nat, dwell_ms: u32, duration_ms: u32) -> nat {
    if rows * dwell_ms == 0 {
        0
    } else {
        (duration_ms as int / (rows * dwell_ms)) as nat
    }
}

/// The dwell time in microseconds.
pub open spec fn hold_micros(dwell_ms: u32) -> u64 {
    (dwell_ms * 1000) as u64
}

/// The dwell time per row, in milliseconds, that refreshes a matrix of
/// `rows` rows `freq_hz` times a second. Both divisions round down.
pub open spec fn refresh_dwell_ms(rows: nat, freq_hz: u32) -> u32 {
    (1000int / (freq_hz as int) / (rows as int)) as u32
}

/// The time, in microseconds, that the waits among `actions` add up to.
pub open spec fn waited(actions: Seq<Action>) -> nat
    decreases actions.len(),
{
    if actions.len() == 0 {
        0
    } else {
        (match actions[0] {
            Action::Dwell(us) => us as nat,
            Action::Drive(_, _) => 0,
        }) + waited(actions.skip(1))
    }
}

/// Whether the lines and the matrix belong to the same board: a row line
/// for every matrix row and a column line for every cell of a row.
pub open spec fn fits(lines: Lines, matrix: Seq<Seq<u8>>) -> bool {
    &&& lines.rows.len() == matrix.len()
    &&& lines.rows.len() <= usize::MAX
    &&& lines.cols.len() <= usize::MAX
    &&& forall|r: int| 0 <= r < matrix.len() ==> (#[trigger] matrix[r]).len() == lines.cols.len()
}

/// Whether the lines light exactly the lit cells of row `r` of the matrix:
/// that row line is the only one that is high, and a column line is low
/// exactly where the row has a nonzero intensity.
pub open spec fn shows_row(lines: Lines, matrix: Seq<Seq<u8>>, r: int) -> bool {
    &&& 0 <= r < matrix.len()
    &&& lines.only_row_high(r)
    &&& forall|j: int|
        0 <= j < lines.cols.len() ==> (#[trigger] lines.cols[j] == Level::Low <==> matrix[r][j]
            > 0)
}

/// What holds of the lines once the first `t` of `actions` are performed,
/// from `start`. If the last of them dropped a row line, or none was
/// performed yet, the lines are at rest; if not, exactly one row line is
/// high. Whenever the next action raises or drops a row line, every column
/// line is high; whenever it raises one, no row line is high; and whenever
/// it is a wait, the lines light exactly the lit cells of one row of the
/// matrix.
pub open spec fn orderly_at(
    start: Lines,
    matrix: Seq<Seq<u8>>,
    actions: Seq<Action>,
    t: int,
) -> bool {
    let now = start.perform_all(actions.take(t));
    &&& if t == 0 || is_row_drop(actions[t - 1]) {
        now.at_rest()
    } else {
        exists|r: int| now.only_row_high(r)
    }
    &&& t < actions.len() && (is_row_assert(actions[t]) || is_row_drop(actions[t]))
        ==> now.all_cols_high()
    &&& t < actions.len() && is_row_assert(actions[t]) ==> now.no_row_high()
    &&& t < actions.len() && is_dwell(actions[t]) ==> exists|r: int| shows_row(now, matrix, r)
}

/// Lighting cells drives column lines low, and nothing else.
proof fn lemma_lit_drives_cols(cells: Seq<u8>, j: nat)
    ensures
        forall|i: int|
            0 <= i < lit_from(cells, j).len() ==> spares_rows(#[trigger] lit_from(cells, j)[i])
                && !is_dwell(lit_from(cells, j)[i]),
    decreases cells.len() - j,
{
    if j < cells.len() {
        lemma_lit_drives_cols(cells, j + 1);
        let all = lit_from(cells, j);
        let after = lit_from(cells, j + 1);
        assert forall|i: int| 0 <= i < all.len() implies spares_rows(#[trigger] all[i])
            && !is_dwell(all[i]) by {
            if cells[j as int] > 0 && i > 0 {
                assert(all[i] == after[i - 1]);
            }
        }
    }
}

/// Lighting the cells of a row from column `from` on leaves the row lines
/// and the columns of the dark cells as they were, and the columns of the
/// lit cells low.
proof fn lemma_lit_settles(start: Lines, cells: Seq<u8>, from: nat)
    requires
        cells.len() == start.cols.len(),
        cells.len() <= usize::MAX,
    ensures
        ({
            let end = start.perform_all(lit_from(cells, from));
            &&& end.rows == start.rows
            &&& end.cols.len() == start.cols.len()
            &&& forall|j: int|
                0 <= j < end.cols.len() ==> #[trigger] end.cols[j] == if j >= from && cells[j]
                    > 0 {
                    Level::Low
                } else {
                    start.cols[j]
                }
        }),
    decreases cells.len() - from,
{
    if from < cells.len() {
        if cells[from as int] > 0 {
            let first = Action::Drive(Line::Col(from as usize), Level::Low);
            start.lemma_perform_all_concat(seq![first], lit_from(cells, from + 1));
            start.lemma_perform_all_one(first);
            lemma_lit_settles(start.perform(first), cells, from + 1);
        } else {
            lemma_lit_settles(start, cells, from + 1);
        }
    }
}

/// A dwell is waits and nothing else, and at least one, and the times of
/// the waits add up to the dwell time.
pub proof fn lemma_wait_actions(hold_us: u64)
    ensures
        wait_actions(hold_us).len() >= 1,
        forall|i: int|
            0 <= i < wait_actions(hold_us).len() ==> is_dwell(#[trigger] wait_actions(hold_us)[i]),
        waited(wait_actions(hold_us)) == hold_us,
    decreases hold_us,
{
    let all = wait_actions(hold_us);
    if hold_us > u32::MAX {
        let after = wait_actions((hold_us - u32::MAX) as u64);
        lemma_wait_actions((hold_us - u32::MAX) as u64);
        assert forall|i: int| 0 <= i < all.len() implies is_dwell(#[trigger] all[i]) by {
            if i > 0 {
                assert(all[i] == after[i - 1]);
            }
        }
        assert(all.skip(1) =~= after);
        assert(all[0] == Action::Dwell(u32::MAX));
        assert(waited(all) == u32::MAX + waited(all.skip(1)));
    } else {
        assert(all.skip(1) =~= Seq::<Action>::empty());
        assert(all[0] == Action::Dwell(hold_us as u32));
        assert(waited(all.skip(1)) == 0);
        assert(waited(all) == hold_us + waited(all.skip(1)));
    }
}

/// The part of a slice between raising and dropping its row line.
spec fn slice_body(cells: Seq<u8>, hold_us: u64) -> Seq<Action> {
    lit_from(cells, 0) + wait_actions(hold_us) + cols_high(cells.len())
}

proof fn lemma_slice_parts(cells: Seq<u8>, row: usize, hold_us: u64)
    ensures
        slice_actions(cells, row, hold_us) == seq![Action::Drive(Line::Row(row), Level::High)]
            + slice_body(cells, hold_us) + seq![Action::Drive(Line::Row(row), Level::Low)],
        forall|i: int|
            0 <= i < slice_body(cells, hold_us).len() ==> spares_rows(
                #[trigger] slice_body(cells, hold_us)[i],
            ),
        forall|i: int|
            0 <= i < slice_body(cells, hold_us).len() && is_dwell(
                #[trigger] slice_body(cells, hold_us)[i],
            ) ==> lit_from(cells, 0).len() <= i < lit_from(cells, 0).len() + wait_actions(
                hold_us,
            ).len() && slice_body(cells, hold_us).take(i) == lit_from(cells, 0) + wait_actions(
                hold_us,
            ).take(i - lit_from(cells, 0).len()),
        slice_actions(cells, row, hold_us).len() == slice_body(cells, hold_us).len() + 2,
{
    lemma_lit_drives_cols(cells, 0);
    lemma_wait_actions(hold_us);
    let lit = lit_from(cells, 0);
    let wait = wait_actions(hold_us);
    let body = slice_body(cells, hold_us);
    assert(slice_actions(cells, row, hold_us) =~= seq![
        Action::Drive(Line::Row(row), Level::High),
    ] + body + seq![Action::Drive(Line::Row(row), Level::Low)]);
    assert forall|i: int| 0 <= i < body.len() implies spares_rows(#[trigger] body[i]) by {
        if i < lit.len() {
            assert(body[i] == lit[i]);
        } else if i < lit.len() + wait.len() {
            assert(body[i] == wait[i - lit.len()]);
        }
    }
    assert forall|i: int| 0 <= i < body.len() && is_dwell(#[trigger] body[i]) implies lit.len()
        <= i < lit.len() + wait.len() && body.take(i) == lit + wait.take(i - lit.len()) by {
        if i < lit.len() {
            assert(body[i] == lit[i]);
        }
        assert(body.take(i) =~= lit + wait.take(i - lit.len()));
    }
}

/// The body of a slice leaves the row lines alone and ends with every
/// column line high.
proof fn lemma_slice_body_settles(start: Lines, cells: Seq<u8>, hold_us: u64)
    requires
        cells.len() == start.cols.len(),
        cells.len() <= usize::MAX,
    ensures
        start.perform_all(slice_body(cells, hold_us)).rows == start.rows,
        start.perform_all(slice_body(cells, hold_us)).cols.len() == start.cols.len(),
        start.perform_all(slice_body(cells, hold_us)).all_cols_high(),
{
    let head = lit_from(cells, 0) + wait_actions(hold_us);
    let blank = cols_high(cells.len());
    lemma_lit_drives_cols(cells, 0);
    lemma_wait_actions(hold_us);
    start.lemma_perform_all_concat(head, blank);
    assert forall|i: int| 0 <= i < head.len() implies spares_rows(#[trigger] head[i]) by {
        if i < lit_from(cells, 0).len() {
            assert(head[i] == lit_from(cells, 0)[i]);
        } else {
            assert(head[i] == wait_actions(hold_us)[i - lit_from(cells, 0).len()]);
        }
    }
    start.lemma_rows_spared(head);
    let mid = start.perform_all(head);
    start.lemma_perform_all_keeps_shape(head);
    lemma_initialise_settles(mid);
}

/// A slice that starts with the lines at rest ends with them at rest.
pub proof fn lemma_slice_returns(start: Lines, cells: Seq<u8>, row: usize, hold_us: u64)
    requires
        start.at_rest(),
        row < start.rows.len(),
        cells.len() == start.cols.len(),
        cells.len() <= usize::MAX,
    ensures
        start.perform_all(slice_actions(cells, row, hold_us)) == start,
{
    let up = Action::Drive(Line::Row(row), Level::High);
    let down = Action::Drive(Line::Row(row), Level::Low);
    let body = slice_body(cells, hold_us);
    lemma_slice_parts(cells, row, hold_us);
    start.lemma_perform_all_concat(seq![up] + body, seq![down]);
    start.lemma_perform_all_concat(seq![up], body);
    start.lemma_perform_all_one(up);
    let lit = start.perform(up);
    lemma_slice_body_settles(lit, cells, hold_us);
    let held = lit.perform_all(body);
    held.lemma_perform_all_one(down);
    assert(held.perform(down) =~= start);
}

/// While the slice of a row runs, from lines at rest, its row line is the
/// only row line that is high, and when it waits, the lines light exactly
/// the lit cells of the row; before it and after it the lines are at rest.
pub proof fn lemma_slice_orderly(
    start: Lines,
    matrix: Seq<Seq<u8>>,
    row: usize,
    hold_us: u64,
    t: int,
)
    requires
        start.at_rest(),
        fits(start, matrix),
        row < matrix.len(),
        0 <= t <= slice_actions(matrix[row as int], row, hold_us).len(),
    ensures
        orderly_at(start, matrix, slice_actions(matrix[row as int], row, hold_us), t),
        0 < t < slice_actions(matrix[row as int], row, hold_us).len() ==> start.perform_all(
            slice_actions(matrix[row as int], row, hold_us).take(t),
        ).only_row_high(row as int),
{
    let cells = matrix[row as int];
    let up = Action::Drive(Line::Row(row), Level::High);
    let down = Action::Drive(Line::Row(row), Level::Low);
    let body = slice_body(cells, hold_us);
    let all = slice_actions(cells, row, hold_us);
    lemma_slice_parts(cells, row, hold_us);
    if t == 0 {
        assert(all.take(0) =~= Seq::<Action>::empty());
        assert(all[0] == up);
    } else if t < all.len() {
        let part = body.take(t - 1);
        assert(all.take(t) =~= seq![up] + part);
        start.lemma_perform_all_concat(seq![up], part);
        start.lemma_perform_all_one(up);
        let lit = start.perform(up);
        lit.lemma_rows_spared(part);
        let now = lit.perform_all(part);
        assert(now.only_row_high(row as int));
        if t == 1 {
            assert(all[t - 1] == up);
        } else {
            assert(all[t - 1] == body[t - 2]);
            assert(spares_rows(body[t - 2]));
        }
        if t < all.len() - 1 {
            assert(all[t] == body[t - 1]);
            assert(spares_rows(body[t - 1]));
            if is_dwell(all[t]) {
                let lighting = lit_from(cells, 0);
                let waits = wait_actions(hold_us).take(t - 1 - lighting.len());
                assert(part == lighting + waits);
                lemma_wait_actions(hold_us);
                lit.lemma_perform_all_concat(lighting, waits);
                lit.perform_all(lighting).lemma_waits_change_nothing(waits);
                lemma_lit_settles(lit, cells, 0);
                assert(shows_row(now, matrix, row as int));
            }
        } else {
            assert(all[t] == down);
            assert(part =~= body);
            lemma_slice_body_settles(lit, cells, hold_us);
        }
    } else {
        assert(all.take(t) =~= all);
        lemma_slice_returns(start, cells, row, hold_us);
        assert(all[t - 1] == down);
    }
}

/// If two runs of actions are each orderly from the same lines, and the
/// first brings the lines back to where they were, then the two runs, one
/// after the other, are orderly too.
proof fn lemma_orderly_concat(
    start: Lines,
    matrix: Seq<Seq<u8>>,
    first: Seq<Action>,
    second: Seq<Action>,
    t: int,
)
    requires
        start.perform_all(first) == start,
        forall|i: int| 0 <= i <= first.len() ==> #[trigger] orderly_at(start, matrix, first, i),
        forall|i: int| 0 <= i <= second.len() ==> #[trigger] orderly_at(start, matrix, second, i),
        0 <= t <= first.len() + second.len(),
    ensures
        orderly_at(start, matrix, first + second, t),
{
    let both = first + second;
    if t < first.len() {
        assert(both.take(t) =~= first.take(t));
        assert(orderly_at(start, matrix, first, t));
        assert(both[t] == first[t]);
        if t > 0 {
            assert(both[t - 1] == first[t - 1]);
        }
    } else if t == first.len() {
        assert(both.take(t) =~= first);
        assert(first.take(t) =~= first);
        assert(second.take(0) =~= Seq::<Action>::empty());
        assert(orderly_at(start, matrix, first, t));
        assert(orderly_at(start, matrix, second, 0));
        if t > 0 {
            assert(both[t - 1] == first[t - 1]);
        }
        if t < both.len() {
            assert(both[t] == second[0]);
        }
    } else {
        let u = t - first.len();
        assert(both.take(t) =~= first + second.take(u));
        start.lemma_perform_all_concat(first, second.take(u));
        assert(orderly_at(start, matrix, second, u));
        assert(both[t - 1] == second[u - 1]);
        if t < both.len() {
            assert(both[t] == second[u]);
        }
    }
}

/// The rest of a sweep, from row `r` on, brings lines at rest back to rest,
/// and is orderly at every instant.
proof fn lemma_sweep_from(start: Lines, matrix: Seq<Seq<u8>>, hold_us: u64, r: nat)
    requires
        start.at_rest(),
        fits(start, matrix),
    ensures
        start.perform_all(sweep_from(matrix, hold_us, r)) == start,
        forall|t: int|
            0 <= t <= sweep_from(matrix, hold_us, r).len() ==> #[trigger] orderly_at(
                start,
                matrix,
                sweep_from(matrix, hold_us, r),
                t,
            ),
    decreases matrix.len() - r,
{
    let all = sweep_from(matrix, hold_us, r);
    if r >= matrix.len() {
        assert(all.take(0) =~= all);
    } else {
        let first = slice_actions(matrix[r as int], r as usize, hold_us);
        let second = sweep_from(matrix, hold_us, r + 1);
        lemma_slice_returns(start, matrix[r as int], r as usize, hold_us);
        lemma_sweep_from(start, matrix, hold_us, r + 1);
        start.lemma_perform_all_concat(first, second);
        assert forall|t: int| 0 <= t <= first.len() implies #[trigger] orderly_at(
            start,
            matrix,
            first,
            t,
        ) by {
            lemma_slice_orderly(start, matrix, r as usize, hold_us, t);
        }
        assert forall|t: int| 0 <= t <= all.len() implies #[trigger] orderly_at(
            start,
            matrix,
            all,
            t,
        ) by {
            lemma_orderly_concat(start, matrix, first, second, t);
        }
    }
}

proof fn lemma_repeated_orderly(start: Lines, matrix: Seq<Seq<u8>>, actions: Seq<Action>, n: nat)
    requires
        start.at_rest(),
        start.perform_all(actions) == start,
        forall|t: int| 0 <= t <= actions.len() ==> #[trigger] orderly_at(start, matrix, actions, t),
    ensures
        start.perform_all(repeated(actions, n)) == start,
        forall|t: int|
            0 <= t <= repeated(actions, n).len() ==> #[trigger] orderly_at(
                start,
                matrix,
                repeated(actions, n),
                t,
            ),
    decreases n,
{
    let all = repeated(actions, n);
    start.lemma_repeated_returns(actions, n);
    if n == 0 {
        assert(all.take(0) =~= all);
    } else {
        let second = repeated(actions, (n - 1) as nat);
        lemma_repeated_orderly(start, matrix, actions, (n - 1) as nat);
        assert forall|t: int| 0 <= t <= all.len() implies #[trigger] orderly_at(
            start,
            matrix,
            all,
            t,
        ) by {
            lemma_orderly_concat(start, matrix, actions, second, t);
        }
    }
}

/// A scan that starts with the lines at rest ends with them at rest: every
/// row line low and every column line high.
pub proof fn lemma_scan_returns(start: Lines, matrix: Seq<Seq<u8>>, hold_us: u64, sweeps: nat)
    requires
        start.at_rest(),
        fits(start, matrix),
    ensures
        start.perform_all(scan_actions(matrix, hold_us, sweeps)) == start,
{
    lemma_sweep_from(start, matrix, hold_us, 0);
    start.lemma_repeated_returns(sweep_actions(matrix, hold_us), sweeps);
}

/// A scan that starts with the lines at rest is orderly at every instant.
pub proof fn lemma_scan_orderly(
    start: Lines,
    matrix: Seq<Seq<u8>>,
    hold_us: u64,
    sweeps: nat,
    t: int,
)
    requires
        start.at_rest(),
        fits(start, matrix),
        0 <= t <= scan_actions(matrix, hold_us, sweeps).len(),
    ensures
        orderly_at(start, matrix, scan_actions(matrix, hold_us, sweeps), t),
{
    lemma_sweep_from(start, matrix, hold_us, 0);
    lemma_repeated_orderly(start, matrix, sweep_actions(matrix, hold_us), sweeps);
}

/// The waits of one run of actions after another add up.
proof fn lemma_waited_concat(first: Seq<Action>, second: Seq<Action>)
    ensures
        waited(first + second) == waited(first) + waited(second),
    decreases first.len(),
{
    if first.len() == 0 {
        assert(first + second =~= second);
    } else {
        assert((first + second)[0] == first[0]);
        assert((first + second).skip(1) =~= first.skip(1) + second);
        lemma_waited_concat(first.skip(1), second);
    }
}

/// Actions that are no waits take no time.
proof fn lemma_waited_drives(actions: Seq<Action>)
    requires
        forall|i: int| 0 <= i < actions.len() ==> !is_dwell(#[trigger] actions[i]),
    ensures
        waited(actions) == 0,
    decreases actions.len(),
{
    if actions.len() > 0 {
        lemma_waited_drives(actions.skip(1));
    }
}

/// A slice waits for the dwell time.
pub proof fn lemma_slice_waited(cells: Seq<u8>, row: usize, hold_us: u64)
    ensures
        waited(slice_actions(cells, row, hold_us)) == hold_us,
{
    let up = seq![Action::Drive(Line::Row(row), Level::High)];
    let lit = lit_from(cells, 0);
    let wait = wait_actions(hold_us);
    let blank = cols_high(cells.len());
    let down = seq![Action::Drive(Line::Row(row), Level::Low)];
    lemma_lit_drives_cols(cells, 0);
    lemma_wait_actions(hold_us);
    lemma_waited_drives(up);
    lemma_waited_drives(lit);
    lemma_waited_drives(blank);
    lemma_waited_drives(down);
    lemma_waited_concat(up, lit);
    lemma_waited_concat(up + lit, wait);
    lemma_waited_concat(up + lit + wait, blank);
    lemma_waited_concat(up + lit + wait + blank, down);
}

proof fn lemma_sweep_from_waited(matrix: Seq<Seq<u8>>, hold_us: u64, r: nat)
    requires
        r <= matrix.len(),
    ensures
        waited(sweep_from(matrix, hold_us, r)) == (matrix.len() - r) * hold_us,
    decreases matrix.len() - r,
{
    if r < matrix.len() {
        lemma_slice_waited(matrix[r as int], r as usize, hold_us);
        lemma_sweep_from_waited(matrix, hold_us, r + 1);
        lemma_waited_concat(
            slice_actions(matrix[r as int], r as usize, hold_us),
            sweep_from(matrix, hold_us, r + 1),
        );
        assert((matrix.len() - r) * hold_us == hold_us + (matrix.len() - (r + 1)) * hold_us)
            by (nonlinear_arith);
    } else {
        assert((matrix.len() - r) * hold_us == 0) by (nonlinear_arith)
            requires
                matrix.len() - r == 0,
        ;
    }
}

/// A scan waits for the dwell time once for every row of every sweep, and
/// for no longer.
pub proof fn lemma_scan_waited(matrix: Seq<Seq<u8>>, hold_us: u64, sweeps: nat)
    ensures
        waited(scan_actions(matrix, hold_us, sweeps)) == sweeps * (matrix.len() * hold_us),
    decreases sweeps,
{
    let sweep = sweep_actions(matrix, hold_us);
    let per_sweep = matrix.len() * hold_us;
    lemma_sweep_from_waited(matrix, hold_us, 0);
    if sweeps > 0 {
        lemma_scan_waited(matrix, hold_us, (sweeps - 1) as nat);
        lemma_waited_concat(sweep, scan_actions(matrix, hold_us, (sweeps - 1) as nat));
        assert(sweeps * per_sweep == per_sweep + (sweeps - 1) * per_sweep) by (nonlinear_arith);
    } else {
        assert(sweeps * per_sweep == 0) by (nonlinear_arith)
            requires
                sweeps == 0,
        ;
    }
}

/// The sweeps that are counted for a duration fit into it, and one more
/// would not: the time that a scan waits is at most the duration asked
/// for, and falls short of it by less than the time of one sweep.
pub proof fn lemma_sweeps_fill_duration(rows: nat, dwell_ms: u32, duration_ms: u32)
    requires
        rows * dwell_ms > 0,
    ensures
        sweep_count(rows, dwell_ms, duration_ms) * (rows * hold_micros(dwell_ms)) <= duration_ms
            * 1000,
        duration_ms * 1000 < (sweep_count(rows, dwell_ms, duration_ms) + 1) * (rows * hold_micros(
            dwell_ms,
        )),
{
    let per_sweep_ms = rows * dwell_ms;
    let n = duration_ms as int / per_sweep_ms;
    assert(n * per_sweep_ms <= duration_ms < (n + 1) * per_sweep_ms && n >= 0)
        by (nonlinear_arith)
        requires
            per_sweep_ms > 0,
            duration_ms >= 0,
            n == duration_ms as int / per_sweep_ms,
    ;
    assert(hold_micros(dwell_ms) == dwell_ms * 1000);
    assert(n * (rows * (dwell_ms * 1000)) == (n * per_sweep_ms) * 1000) by (nonlinear_arith)
        requires
            per_sweep_ms == rows * dwell_ms,
    ;
    assert((n + 1) * (rows * (dwell_ms * 1000)) == ((n + 1) * per_sweep_ms) * 1000)
        by (nonlinear_arith)
        requires
            per_sweep_ms == rows * dwell_ms,
    ;
}

/// Never two rows at once: while a scan that starts with the lines at rest
/// is performed, at most one row line is high.
pub proof fn lemma_scan_stays_exclusive(
    start: Lines,
    matrix: Seq<Seq<u8>>,
    hold_us: u64,
    sweeps: nat,
)
    requires
        start.at_rest(),
        fits(start, matrix),
    ensures
        start.stays_exclusive(scan_actions(matrix, hold_us, sweeps)),
{
    let actions = scan_actions(matrix, hold_us, sweeps);
    assert forall|t: int| 0 <= t <= actions.len() implies (#[trigger] start.perform_all(
        actions.take(t),
    )).rows_exclusive() by {
        lemma_scan_orderly(start, matrix, hold_us, sweeps, t);
    }
}

/// Row exclusivity. At every instant of a scan that starts with the lines
/// at rest: from the raising of a row line to its dropping exactly one row
/// line is high, never none and never two; before the first slice and after
/// each row drop none is.
pub proof fn lemma_row_exclusivity(
    start: Lines,
    matrix: Seq<Seq<u8>>,
    hold_us: u64,
    sweeps: nat,
    t: int,
)
    requires
        start.at_rest(),
        fits(start, matrix),
        0 <= t <= scan_actions(matrix, hold_us, sweeps).len(),
    ensures
        ({
            let actions = scan_actions(matrix, hold_us, sweeps);
            let now = start.perform_all(actions.take(t));
            if t == 0 || is_row_drop(actions[t - 1]) {
                now.no_row_high()
            } else {
                exists|r: int| now.only_row_high(r)
            }
        }),
{
    lemma_scan_orderly(start, matrix, hold_us, sweeps, t);
}

/// Column restoration. In a scan that starts with the lines at rest, every
/// column line is back high when a row line is dropped, stays high until
/// the next row line is raised, and is high when the scan ends, whatever
/// the rows of the matrix asked for.
pub proof fn lemma_column_restoration(
    start: Lines,
    matrix: Seq<Seq<u8>>,
    hold_us: u64,
    sweeps: nat,
    t: int,
)
    requires
        start.at_rest(),
        fits(start, matrix),
        0 <= t <= scan_actions(matrix, hold_us, sweeps).len(),
    ensures
        ({
            let actions = scan_actions(matrix, hold_us, sweeps);
            let now = start.perform_all(actions.take(t));
            &&& t < actions.len() && is_row_drop(actions[t]) ==> now.all_cols_high()
            &&& t > 0 && is_row_drop(actions[t - 1]) ==> now.all_cols_high()
            &&& t < actions.len() && is_row_assert(actions[t]) ==> now.all_cols_high()
            &&& t == actions.len() ==> now.all_cols_high()
        }),
{
    lemma_scan_orderly(start, matrix, hold_us, sweeps, t);
    if t == scan_actions(matrix, hold_us, sweeps).len() {
        let actions = scan_actions(matrix, hold_us, sweeps);
        assert(actions.take(t) =~= actions);
        lemma_scan_returns(start, matrix, hold_us, sweeps);
    }
}

/// What is lit. Whenever a scan that starts with the lines at rest waits,
/// exactly one row line is high, and the column lines that are low are
/// those of the cells of that row with a nonzero intensity: the LEDs that
/// are lit during a dwell are the lit cells of one row of the matrix.
pub proof fn lemma_dwell_shows_row(
    start: Lines,
    matrix: Seq<Seq<u8>>,
    hold_us: u64,
    sweeps: nat,
    t: int,
)
    requires
        start.at_rest(),
        fits(start, matrix),
        0 <= t < scan_actions(matrix, hold_us, sweeps).len(),
        is_dwell(scan_actions(matrix, hold_us, sweeps)[t]),
    ensures
        exists|r: int|
            shows_row(
                start.perform_all(scan_actions(matrix, hold_us, sweeps).take(t)),
                matrix,
                r,
            ),
{
    lemma_scan_orderly(start, matrix, hold_us, sweeps, t);
}

} // verus!
