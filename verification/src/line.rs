//! Output lines, their levels, and the mathematical model of what a sequence
//! of line operations does to them.
//!
//! A matrix LED is lit when its row line is high and its column line is low.
//! The resting level of a row line is therefore low, and that of a column
//! line is high.

use vstd::prelude::*;

verus! {

/// Electrical level of an output line.
#[derive(Clone, Copy, Debug, PartialEq, Eq, Structural)]
pub enum Level {
    Low,
    High,
}

/// An output line wired to the matrix, named by its physical index.
#[derive(Clone, Copy, Debug, PartialEq, Eq, Structural)]
pub enum Line {
    Row(usize),
    Col(usize),
}

/// One thing the board layer is asked to do: put a line at a level, or
/// busy-wait for a number of microseconds.
#[derive(Clone, Copy, Debug, PartialEq, Eq, Structural)]
pub enum Action {
    Drive(Line, Level),
    Dwell(u32),
}

/// The levels of all row and column lines at one instant.
#[verifier::ext_equal]
pub struct Lines {
    pub rows: Seq<Level>,
    pub cols: Seq<Level>,
}

/// A sequence of actions performed `n` times over.
pub open spec fn repeated(actions: Seq<Action>, n: nat) -> Seq<Action>
    decreases n,
{
    if n == 0 {
        Seq::empty()
    } else {
        actions + repeated(actions, (n - 1) as nat)
    }
}

/// Whether an action leaves every row line alone.
pub open spec fn spares_rows(action: Action) -> bool {
    !(action matches Action::Drive(Line::Row(_), _))
}

/// Whether an action drives a row line high.
pub open spec fn is_row_assert(action: Action) -> bool {
    action matches Action::Drive(Line::Row(_), Level::High)
}

/// Whether an action drives a row line low.
pub open spec fn is_row_drop(action: Action) -> bool {
    action matches Action::Drive(Line::Row(_), Level::Low)
}

/// Whether an action is a wait.
pub open spec fn is_dwell(action: Action) -> bool {
    action is Dwell
}

impl Lines {
    /// No row line is high.
    pub open spec fn no_row_high(self) -> bool {
        forall|i: int| 0 <= i < self.rows.len() ==> self.rows[i] == Level::Low
    }

    /// Every column line is high.
    pub open spec fn all_cols_high(self) -> bool {
        forall|j: int| 0 <= j < self.cols.len() ==> self.cols[j] == Level::High
    }

    /// Every row line low and every column line high: no LED can be lit.
    pub open spec fn at_rest(self) -> bool {
        self.no_row_high() && self.all_cols_high()
    }

    /// At most one row line is high.
    pub open spec fn rows_exclusive(self) -> bool {
        forall|i: int, k: int|
            0 <= i < self.rows.len() && 0 <= k < self.rows.len() && self.rows[i] == Level::High
                && self.rows[k] == Level::High ==> i == k
    }

    /// At most one row line is high now, and after each of `actions` as they
    /// are performed one by one.
    pub open spec fn stays_exclusive(self, actions: Seq<Action>) -> bool {
        forall|t: int|
            0 <= t <= actions.len() ==> (#[trigger] self.perform_all(
                actions.take(t),
            )).rows_exclusive()
    }

    /// Row `r` is high and it is the only row line that is.
    pub open spec fn only_row_high(self, r: int) -> bool {
        &&& 0 <= r < self.rows.len()
        &&& forall|i: int| 0 <= i < self.rows.len() ==> (self.rows[i] == Level::High <==> i == r)
    }

    /// The levels after `line` has been put at `level`. A line that the matrix
    /// does not have is ignored.
    pub open spec fn drive(self, line: Line, level: Level) -> Lines {
        match line {
            Line::Row(i) => if i < self.rows.len() {
                Lines { rows: self.rows.update(i as int, level), cols: self.cols }
            } else {
                self
            },
            Line::Col(j) => if j < self.cols.len() {
                Lines { rows: self.rows, cols: self.cols.update(j as int, level) }
            } else {
                self
            },
        }
    }

    /// The levels after one action. Waiting changes no line.
    pub open spec fn perform(self, action: Action) -> Lines {
        match action {
            Action::Drive(line, level) => self.drive(line, level),
            Action::Dwell(_) => self,
        }
    }

    /// The levels after a sequence of actions, performed first to last.
    pub open spec fn perform_all(self, actions: Seq<Action>) -> Lines
        decreases actions.len(),
    {
        if actions.len() == 0 {
            self
        } else {
            self.perform(actions[0]).perform_all(actions.skip(1))
        }
    }

    /// Performing actions never changes how many lines there are.
    pub proof fn lemma_perform_all_keeps_shape(self, actions: Seq<Action>)
        ensures
            self.perform_all(actions).rows.len() == self.rows.len(),
            self.perform_all(actions).cols.len() == self.cols.len(),
        decreases actions.len(),
    {
        if actions.len() > 0 {
            self.perform(actions[0]).lemma_perform_all_keeps_shape(actions.skip(1));
        }
    }

    /// Performing `first + second` is performing `first`, then `second`.
    pub proof fn lemma_perform_all_concat(self, first: Seq<Action>, second: Seq<Action>)
        ensures
            self.perform_all(first + second) == self.perform_all(first).perform_all(second),
        decreases first.len(),
    {
        if first.len() == 0 {
            assert(first + second =~= second);
        } else {
            assert((first + second)[0] == first[0]);
            assert((first + second).skip(1) =~= first.skip(1) + second);
            self.perform(first[0]).lemma_perform_all_concat(first.skip(1), second);
        }
    }

    /// Performing a single action through `perform_all` is `perform`.
    pub proof fn lemma_perform_all_one(self, action: Action)
        ensures
            self.perform_all(seq![action]) == self.perform(action),
    {
        let s = seq![action];
        assert(s.skip(1).len() == 0);
        assert(self.perform(s[0]).perform_all(s.skip(1)) == self.perform(action));
    }

    /// Actions that leave the row lines alone leave their levels as they
    /// were.
    pub proof fn lemma_rows_spared(self, actions: Seq<Action>)
        requires
            forall|i: int| 0 <= i < actions.len() ==> spares_rows(#[trigger] actions[i]),
        ensures
            self.perform_all(actions).rows == self.rows,
        decreases actions.len(),
    {
        if actions.len() > 0 {
            self.perform(actions[0]).lemma_rows_spared(actions.skip(1));
        }
    }

    /// If at most one row line is high whatever part of `actions` was
    /// performed, this is so after the first of them, whatever part of the
    /// others was performed then.
    pub proof fn lemma_stays_exclusive_next(self, actions: Seq<Action>)
        requires
            self.stays_exclusive(actions),
            actions.len() > 0,
        ensures
            self.rows_exclusive(),
            self.perform(actions[0]).stays_exclusive(actions.skip(1)),
    {
        assert(actions.take(0) =~= Seq::<Action>::empty());
        assert(self.perform_all(actions.take(0)).rows_exclusive());
        let after = self.perform(actions[0]);
        let others = actions.skip(1);
        assert forall|t: int| 0 <= t <= others.len() implies (#[trigger] after.perform_all(
            others.take(t),
        )).rows_exclusive() by {
            let part = actions.take(t + 1);
            assert(part.skip(1) =~= others.take(t));
            assert(part[0] == actions[0]);
            assert(self.perform_all(part).rows_exclusive());
        }
    }

    /// What stays so is so to begin with.
    pub proof fn lemma_stays_exclusive_now(self, actions: Seq<Action>)
        requires
            self.stays_exclusive(actions),
        ensures
            self.rows_exclusive(),
    {
        assert(actions.take(0) =~= Seq::<Action>::empty());
        assert(self.perform_all(actions.take(0)).rows_exclusive());
    }

    /// Without actions, what must stay so must only be so.
    pub proof fn lemma_stays_exclusive_empty(self)
        ensures
            self.stays_exclusive(Seq::<Action>::empty()) == self.rows_exclusive(),
    {
        let none = Seq::<Action>::empty();
        assert(none.take(0) =~= none);
        if self.stays_exclusive(none) {
            assert(self.perform_all(none.take(0)).rows_exclusive());
        }
        if self.rows_exclusive() {
            assert forall|t: int| 0 <= t <= none.len() implies (#[trigger] self.perform_all(
                none.take(t),
            )).rows_exclusive() by {
                assert(none.take(t) =~= none);
            }
        }
    }

    /// If at most one row line is high throughout `first`, and throughout
    /// `second` when it starts where `first` ends, then this is so
    /// throughout `first + second`.
    pub proof fn lemma_stays_exclusive_concat(self, first: Seq<Action>, second: Seq<Action>)
        requires
            self.stays_exclusive(first),
            self.perform_all(first).stays_exclusive(second),
        ensures
            self.stays_exclusive(first + second),
    {
        let both = first + second;
        assert forall|t: int| 0 <= t <= both.len() implies (#[trigger] self.perform_all(
            both.take(t),
        )).rows_exclusive() by {
            if t <= first.len() {
                assert(both.take(t) =~= first.take(t));
                assert(self.perform_all(first.take(t)).rows_exclusive());
            } else {
                let u = t - first.len();
                assert(both.take(t) =~= first + second.take(u));
                self.lemma_perform_all_concat(first, second.take(u));
                assert(self.perform_all(first).perform_all(second.take(u)).rows_exclusive());
            }
        }
    }

    /// Actions that leave the row lines alone leave at most one row line
    /// high if at most one was.
    pub proof fn lemma_stays_exclusive_spared(self, actions: Seq<Action>)
        requires
            self.rows_exclusive(),
            forall|i: int| 0 <= i < actions.len() ==> spares_rows(#[trigger] actions[i]),
        ensures
            self.stays_exclusive(actions),
    {
        assert forall|t: int| 0 <= t <= actions.len() implies (#[trigger] self.perform_all(
            actions.take(t),
        )).rows_exclusive() by {
            self.lemma_rows_spared(actions.take(t));
        }
    }

    /// Waiting changes no line, however often it is done.
    pub proof fn lemma_waits_change_nothing(self, actions: Seq<Action>)
        requires
            forall|i: int| 0 <= i < actions.len() ==> is_dwell(#[trigger] actions[i]),
        ensures
            self.perform_all(actions) == self,
        decreases actions.len(),
    {
        if actions.len() > 0 {
            self.lemma_waits_change_nothing(actions.skip(1));
        }
    }

    /// Actions that bring the lines back to where they were do so however
    /// often they are repeated.
    pub proof fn lemma_repeated_returns(self, actions: Seq<Action>, n: nat)
        requires
            self.perform_all(actions) == self,
        ensures
            self.perform_all(repeated(actions, n)) == self,
        decreases n,
    {
        if n > 0 {
            self.lemma_perform_all_concat(actions, repeated(actions, (n - 1) as nat));
            self.lemma_repeated_returns(actions, (n - 1) as nat);
        }
    }

    /// Two sets of lines of the same shape that are both at rest are the
    /// same.
    pub proof fn lemma_rest_is_unique(self, other: Lines)
        requires
            self.at_rest(),
            other.at_rest(),
            self.rows.len() == other.rows.len(),
            self.cols.len() == other.cols.len(),
        ensures
            self == other,
    {
        assert(self =~= other);
    }

    /// Performing one action more: the levels after the first `t + 1`
    /// actions are those after the first `t`, with action `t` performed.
    pub proof fn lemma_perform_all_step(self, actions: Seq<Action>, t: int)
        requires
            0 <= t < actions.len(),
        ensures
            self.perform_all(actions.take(t + 1)) == self.perform_all(actions.take(t)).perform(
                actions[t],
            ),
    {
        assert(actions.take(t + 1) =~= actions.take(t) + seq![actions[t]]);
        self.lemma_perform_all_concat(actions.take(t), seq![actions[t]]);
        self.perform_all(actions.take(t)).lemma_perform_all_one(actions[t]);
    }

    /// Driving the first `n` column lines, in index order, each to the level
    /// that `level` gives for it, leaves the rows and the other columns as
    /// they were.
    pub proof fn lemma_drive_cols(self, n: nat, level: spec_fn(int) -> Level)
        requires
            n <= self.cols.len(),
            n <= usize::MAX,
        ensures
            self.perform_all(Seq::new(n, |j: int| Action::Drive(Line::Col(j as usize), level(j))))
                == (Lines {
                rows: self.rows,
                cols: Seq::new(
                    self.cols.len(),
                    |j: int|
                        if j < n {
                            level(j)
                        } else {
                            self.cols[j]
                        },
                ),
            }),
        decreases n,
    {
        let all = Seq::new(n, |j: int| Action::Drive(Line::Col(j as usize), level(j)));
        let target = Lines {
            rows: self.rows,
            cols: Seq::new(
                self.cols.len(),
                |j: int|
                    if j < n {
                        level(j)
                    } else {
                        self.cols[j]
                    },
            ),
        };
        if n == 0 {
            assert(target =~= self);
        } else {
            let m = (n - 1) as nat;
            self.lemma_drive_cols(m, level);
            let fewer = Seq::new(m, |j: int| Action::Drive(Line::Col(j as usize), level(j)));
            assert(all.take(m as int) =~= fewer);
            self.lemma_perform_all_step(all, m as int);
            assert(all.take(n as int) =~= all);
            assert(self.perform_all(fewer).perform(all[m as int]) =~= target);
        }
    }

    /// Driving the first `n` row lines, in index order, each to the level
    /// that `level` gives for it, leaves the columns and the other rows as
    /// they were.
    pub proof fn lemma_drive_rows(self, n: nat, level: spec_fn(int) -> Level)
        requires
            n <= self.rows.len(),
            n <= usize::MAX,
        ensures
            self.perform_all(Seq::new(n, |i: int| Action::Drive(Line::Row(i as usize), level(i))))
                == (Lines {
                rows: Seq::new(
                    self.rows.len(),
                    |i: int|
                        if i < n {
                            level(i)
                        } else {
                            self.rows[i]
                        },
                ),
                cols: self.cols,
            }),
        decreases n,
    {
        let all = Seq::new(n, |i: int| Action::Drive(Line::Row(i as usize), level(i)));
        let target = Lines {
            rows: Seq::new(
                self.rows.len(),
                |i: int|
                    if i < n {
                        level(i)
                    } else {
                        self.rows[i]
                    },
            ),
            cols: self.cols,
        };
        if n == 0 {
            assert(target =~= self);
        } else {
            let m = (n - 1) as nat;
            self.lemma_drive_rows(m, level);
            let fewer = Seq::new(m, |i: int| Action::Drive(Line::Row(i as usize), level(i)));
            assert(all.take(m as int) =~= fewer);
            self.lemma_perform_all_step(all, m as int);
            assert(all.take(n as int) =~= all);
            assert(self.perform_all(fewer).perform(all[m as int]) =~= target);
        }
    }
}

} // verus!
