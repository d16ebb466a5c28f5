//! The month view: a 4-to-6-row calendar grid of Sunday-aligned weeks, a
//! cursor (day or task selection), and every navigational transition.
use crate::date::{
    date_index, day_index, days_in_month, days_in_month_of, is_leap_year, lemma_day_index_in_range,
    lemma_day_index_injective, max_day_index, next_day, try_add_days, try_sub_days, valid_date,
    weekday, weekday_of, Date, MAX_YEAR,
};
use crate::task::{find_index_of_id, lemma_find_index_of_id, on_date, task_views, Task, TaskV};
use vstd::prelude::*;

verus! {

/// Dates the view navigates between: one year of slack is kept at each end
/// of the date model so that grids and week steps never leave it.
pub open spec fn nav_date_ok(d: Date) -> bool {
    valid_date(d) && 1 <= d.year <= 9999
}

#[derive(Debug)]
pub enum SelectionType {
    Day(Date),
    Task(String),
}

/// Mathematical shadow of `SelectionType`.
#[verifier::ext_equal]
pub ghost enum SelectionTypeV {
    Day(Date),
    Task(Seq<char>),
}

impl View for SelectionType {
    type V = SelectionTypeV;

    open spec fn view(&self) -> SelectionTypeV {
        match self {
            SelectionType::Day(d) => SelectionTypeV::Day(*d),
            SelectionType::Task(id) => SelectionTypeV::Task(id@),
        }
    }
}

impl Clone for SelectionType {
    fn clone(&self) -> (r: Self)
        ensures
            r@ == self@,
    {
        match self {
            SelectionType::Day(d) => SelectionType::Day(*d),
            SelectionType::Task(id) => SelectionType::Task(id.clone()),
        }
    }
}

#[derive(Debug)]
pub struct Selection {
    pub selection_type: SelectionType,
}

impl View for Selection {
    type V = SelectionTypeV;

    open spec fn view(&self) -> SelectionTypeV {
        self.selection_type@
    }
}

impl Clone for Selection {
    fn clone(&self) -> (r: Self)
        ensures
            r@ == self@,
    {
        Selection { selection_type: self.selection_type.clone() }
    }
}

/// Day count of the Sunday on or before the first day of `d`'s month: the
/// top-left cell of the grid.
pub open spec fn grid_start(d: Date) -> int {
    let first = Date { year: d.year, month: d.month, day: 1 };
    day_index(first) - weekday_of(first)
}

/// Day count of the last day of `d`'s month.
pub open spec fn month_end(d: Date) -> int {
    day_index(Date { year: d.year, month: d.month, day: days_in_month_of(d.year as int, d.month as int) as u32 })
}

/// Rows the grid has: the fewest in 4..=6 whose last cell reaches the end
/// of the month, 6 where even that is not enough.
pub open spec fn grid_rows_for(d: Date) -> int {
    if grid_start(d) + 28 > month_end(d) {
        4
    } else if grid_start(d) + 35 > month_end(d) {
        5
    } else {
        6
    }
}

/// The grid of `date`'s month: Sunday-aligned rows of 7 consecutive days,
/// starting on the Sunday on or before the 1st, covering the whole month,
/// between 4 and 6 rows.
pub open spec fn is_month_grid(w: Seq<Seq<Date>>, date: Date) -> bool {
    &&& w.len() == grid_rows_for(date)
    &&& forall|i: int| 0 <= i < w.len() ==> (#[trigger] w[i]).len() == 7
    &&& forall|i: int, j: int|
        0 <= i < w.len() && 0 <= j < 7 ==> valid_date(#[trigger] w[i][j]) && day_index(w[i][j])
            == grid_start(date) + 7 * i + j
}

/// The views of the rows of a grid.
pub open spec fn weeks_views(w: Seq<Vec<Date>>) -> Seq<Seq<Date>> {
    w.map_values(|row: Vec<Date>| row@)
}

/// Mathematical shadow of `MonthView`.
#[verifier::ext_equal]
pub ghost struct MonthViewV {
    pub current_date: Date,
    pub selection: SelectionTypeV,
    pub weeks: Seq<Seq<Date>>,
    pub wrap_enabled: bool,
}

/// The view's anchor date is navigable and a day selection names a
/// navigable date; the grid is the anchor month's grid.
pub open spec fn view_wf(v: MonthViewV) -> bool {
    &&& nav_date_ok(v.current_date)
    &&& match v.selection {
        SelectionTypeV::Day(d) => nav_date_ok(d),
        SelectionTypeV::Task(_) => true,
    }
    &&& is_month_grid(v.weeks, v.current_date)
}

#[derive(Debug)]
pub struct MonthView {
    pub current_date: Date,
    pub selection: Selection,
    pub weeks: Vec<Vec<Date>>,
    pub wrap_enabled: bool,
}

impl View for MonthView {
    type V = MonthViewV;

    open spec fn view(&self) -> MonthViewV {
        MonthViewV {
            current_date: self.current_date,
            selection: self.selection@,
            weeks: weeks_views(self.weeks@),
            wrap_enabled: self.wrap_enabled,
        }
    }
}

/// The grid fits inside the date model with room to spare.
proof fn lemma_grid_bounds(date: Date)
    requires
        nav_date_ok(date),
    ensures
        7 <= grid_start(date),
        grid_start(date) + 42 <= max_day_index(),
        month_end(date) <= max_day_index(),
        max_day_index() < 4_000_000,
{
    let first = Date { year: date.year, month: date.month, day: 1 };
    let last = Date {
        year: date.year,
        month: date.month,
        day: days_in_month_of(date.year as int, date.month as int) as u32,
    };
    lemma_day_index_in_range(first);
    lemma_day_index_in_range(last);
    let jan1 = Date { year: 1, month: 1, day: 1 };
    lemma_day_index_in_range(jan1);
    if first.year == 1 && first.month == 1 {
        assert(day_index(first) == day_index(jan1));
    } else {
        crate::date::lemma_day_index_strictly_monotone(jan1, first);
    }
    assert(day_index(jan1) == 366) by {
        reveal_with_fuel(crate::date::days_before_year, 2);
        assert(is_leap_year(0));
    }
    let top = Date { year: 9999, month: 12, day: 31 };
    lemma_day_index_in_range(top);
    if last.year == top.year && last.month == top.month && last.day == top.day {
    } else {
        crate::date::lemma_day_index_strictly_monotone(last, top);
    }
    let maxd = Date { year: MAX_YEAR, month: 12, day: 31 };
    lemma_day_index_in_range(maxd);
    crate::date::lemma_day_index_strictly_monotone(top, maxd);
    assert(max_day_index() - day_index(top) == 366) by {
        lemma_gap_9999_to_max();
    }
    assert(day_index(last) - day_index(first) <= 30);
}

/// The last day of year 9999 is 366 days short of the model's last day
/// (year 10000 is a leap year).
proof fn lemma_gap_9999_to_max()
    ensures
        max_day_index() - day_index(Date { year: 9999, month: 12, day: 31 }) == 366,
{
    let top = Date { year: 9999, month: 12, day: 31 };
    let maxd = Date { year: MAX_YEAR, month: 12, day: 31 };
    assert(crate::date::days_before_year(10001) == crate::date::days_before_year(10000)
        + crate::date::days_in_year_of(10000));
    assert(crate::date::days_before_year(10000) == crate::date::days_before_year(9999)
        + crate::date::days_in_year_of(9999));
    assert(crate::date::days_before_month(9999, 13) == crate::date::days_in_year_of(9999)) by {
        reveal_with_fuel(crate::date::days_before_month, 13);
    }
    assert(crate::date::days_before_month(10000, 13) == crate::date::days_in_year_of(10000)) by {
        reveal_with_fuel(crate::date::days_before_month, 13);
    }
    assert(crate::date::days_before_month(9999, 13) == crate::date::days_before_month(9999, 12)
        + 31);
    assert(crate::date::days_before_month(10000, 13) == crate::date::days_before_month(10000, 12)
        + 31);
}

impl MonthView {
    /// A fresh view anchored at `current_date`, with that day selected and
    /// the month's grid built.
    pub fn new(current_date: Date) -> (r: Self)
        requires
            nav_date_ok(current_date),
        ensures
            view_wf(r@),
            r@.current_date == current_date,
            r@.selection == SelectionTypeV::Day(current_date),
            !r@.wrap_enabled,
    {
        let weeks = Self::build_weeks(current_date);
        MonthView {
            current_date,
            selection: Selection { selection_type: SelectionType::Day(current_date) },
            weeks,
            wrap_enabled: false,
        }
    }

    pub fn set_wrap(&mut self, enabled: bool)
        ensures
            final(self)@ == (MonthViewV { wrap_enabled: enabled, ..old(self)@ }),
    {
        self.wrap_enabled = enabled;
    }

    /// The grid of `date`'s month.
    pub fn build_weeks_for_date(date: Date) -> (r: Vec<Vec<Date>>)
        requires
            nav_date_ok(date),
        ensures
            is_month_grid(weeks_views(r@), date),
    {
        Self::build_weeks(date)
    }

    fn build_weeks(date: Date) -> (r: Vec<Vec<Date>>)
        requires
            nav_date_ok(date),
        ensures
            is_month_grid(weeks_views(r@), date),
    {
        proof {
            lemma_grid_bounds(date);
        }
        let first = date.first_of_month();
        let last = date.last_of_month();
        let last_idx = date_index(&last);
        let w = weekday(&first);
        let start = match try_sub_days(&first, w as u64) {
            Some(d) => d,
            None => {
                // the model starts a year below the navigable range
                proof {
                    assert(false);
                }
                first
            },
        };
        let start_idx = date_index(&start);
        let rows: usize = if start_idx + 28 > last_idx {
            4
        } else if start_idx + 35 > last_idx {
            5
        } else {
            6
        };
        let mut weeks: Vec<Vec<Date>> = Vec::new();
        let mut current = start;
        let mut row: usize = 0;
        proof {
            assert(weeks_views(weeks@) =~= Seq::<Seq<Date>>::empty());
        }
        while row < rows
            invariant
                nav_date_ok(date),
                valid_date(current),
                rows == grid_rows_for(date),
                rows <= 6,
                0 <= row <= rows,
                weeks@.len() == row,
                day_index(current) == grid_start(date) + 7 * row,
                grid_start(date) + 42 <= max_day_index(),
                forall|i: int| 0 <= i < row ==> (#[trigger] weeks_views(weeks@)[i]).len() == 7,
                forall|i: int, j: int|
                    0 <= i < row && 0 <= j < 7 ==> valid_date(#[trigger] weeks_views(weeks@)[i][j])
                        && day_index(weeks_views(weeks@)[i][j]) == grid_start(date) + 7 * i + j,
            decreases rows - row,
        {
            let mut week: Vec<Date> = Vec::new();
            let mut col: usize = 0;
            while col < 7
                invariant
                    valid_date(current),
                    0 <= col <= 7,
                    week@.len() == col,
                    row < rows <= 6,
                    day_index(current) == grid_start(date) + 7 * row + col,
                    grid_start(date) + 42 <= max_day_index(),
                    forall|j: int|
                        0 <= j < col ==> valid_date(#[trigger] week@[j]) && day_index(week@[j])
                            == grid_start(date) + 7 * (row as int) + j,
                decreases 7 - col,
            {
                week.push(current);
                current = next_day(&current);
                col = col + 1;
            }
            let ghost prev = weeks_views(weeks@);
            weeks.push(week);
            proof {
                assert(weeks_views(weeks@) =~= prev.push(week@));
            }
            row = row + 1;
        }
        weeks
    }

    fn select_day(&mut self, date: Date)
        ensures
            final(self)@ == (MonthViewV { selection: SelectionTypeV::Day(date), ..old(self)@ }),
    {
        self.selection = Selection { selection_type: SelectionType::Day(date) };
    }

    fn select_task(&mut self, task_id: String)
        ensures
            final(self)@ == (MonthViewV { selection: SelectionTypeV::Task(task_id@), ..old(self)@ }),
    {
        self.selection = Selection { selection_type: SelectionType::Task(task_id) };
    }

    /// Anchors the view on `new_date`'s month: rebuilds the grid and
    /// selects `new_date` itself.
    fn transition_to_month(&mut self, new_date: Date)
        requires
            nav_date_ok(new_date),
        ensures
            view_wf(final(self)@),
            final(self)@.current_date == new_date,
            final(self)@.selection == SelectionTypeV::Day(new_date),
            final(self)@.wrap_enabled == old(self)@.wrap_enabled,
    {
        self.current_date = new_date;
        self.weeks = Self::build_weeks(new_date);
        self.select_day(new_date);
    }

    /// Moves the cursor to `target_date`, re-anchoring the view on its
    /// month first when the month or year differs.
    pub fn navigate_to_date(&mut self, target_date: Date)
        requires
            nav_date_ok(target_date),
        ensures
            navigates_to(old(self)@, final(self)@, target_date),
    {
        if target_date.month != self.current_date.month || target_date.year
            != self.current_date.year {
            self.current_date = Date { year: target_date.year, month: target_date.month, day: 1 };
            self.weeks = Self::build_weeks(self.current_date);
            proof {
                assert(grid_start(self.current_date) == grid_start(target_date));
                assert(month_end(self.current_date) == month_end(target_date));
                assert(grid_rows_for(self.current_date) == grid_rows_for(target_date));
            }
        }
        self.select_day(target_date);
    }

    /// Re-anchors one month back, on its first day.
    pub fn prev_month(&mut self)
        requires
            view_wf(old(self)@),
            old(self)@.current_date.month > 1 || old(self)@.current_date.year > 1,
        ensures
            view_wf(final(self)@),
            final(self)@.current_date == prev_month_anchor(old(self)@.current_date),
            final(self)@.selection == SelectionTypeV::Day(final(self)@.current_date),
            final(self)@.wrap_enabled == old(self)@.wrap_enabled,
            is_month_grid(final(self)@.weeks, final(self)@.current_date),
    {
        let new_date = if self.current_date.month == 1 {
            Date { year: self.current_date.year - 1, month: 12, day: 1 }
        } else {
            Date { year: self.current_date.year, month: self.current_date.month - 1, day: 1 }
        };
        self.transition_to_month(new_date);
    }

    /// Jumps one year forward: same month, same day of month (clamped —
    /// a February 29th lands on the 28th in a common year), the grid
    /// rebuilt, always a day selection.
    pub fn next_year(&mut self)
        requires
            view_wf(old(self)@),
            old(self)@.current_date.year < 9999,
        ensures
            view_wf(final(self)@),
            ({
                let a = Date {
                    year: (old(self)@.current_date.year + 1) as i32,
                    month: old(self)@.current_date.month,
                    day: 1,
                };
                &&& final(self)@.current_date == a
                &&& is_month_grid(final(self)@.weeks, a)
                &&& final(self)@.wrap_enabled == old(self)@.wrap_enabled
                &&& final(self)@.selection == SelectionTypeV::Day(
                    Date {
                        year: a.year,
                        month: a.month,
                        day: clamped_day(old(self)@, a.year as int, a.month as int) as u32,
                    },
                )
            }),
    {
        self.navigate_to_month_preserve_day(self.current_date.year + 1, self.current_date.month);
    }

    /// Jumps one year back: same month, same day of month (clamped — a
    /// February 29th lands on the 28th in a common year), the grid
    /// rebuilt, always a day selection.
    pub fn prev_year(&mut self)
        requires
            view_wf(old(self)@),
            old(self)@.current_date.year > 1,
        ensures
            view_wf(final(self)@),
            ({
                let a = Date {
                    year: (old(self)@.current_date.year - 1) as i32,
                    month: old(self)@.current_date.month,
                    day: 1,
                };
                &&& final(self)@.current_date == a
                &&& is_month_grid(final(self)@.weeks, a)
                &&& final(self)@.wrap_enabled == old(self)@.wrap_enabled
                &&& final(self)@.selection == SelectionTypeV::Day(
                    Date {
                        year: a.year,
                        month: a.month,
                        day: clamped_day(old(self)@, a.year as int, a.month as int) as u32,
                    },
                )
            }),
    {
        self.navigate_to_month_preserve_day(self.current_date.year - 1, self.current_date.month);
    }

    /// The id of the selected task, `None` under a day selection.
    pub fn get_selected_task_id(&self) -> (r: Option<String>)
        ensures
            match self@.selection {
                SelectionTypeV::Task(id) => r is Some && r->Some_0@ == id,
                SelectionTypeV::Day(_) => r is None,
            },
    {
        match &self.selection.selection_type {
            SelectionType::Task(task_id) => Some(task_id.clone()),
            SelectionType::Day(_) => None,
        }
    }

    /// The date the cursor rests on: the selected day, or the selected
    /// task's day, or the anchor date when the task is gone.
    pub fn get_selected_date(&self, tasks: &Vec<Task>) -> (r: Date)
        ensures
            r == selected_date_spec(self@, task_views(tasks@)),
    {
        match &self.selection.selection_type {
            SelectionType::Day(date) => *date,
            SelectionType::Task(task_id) => {
                let tid = task_id.clone();
                match find_task_by_id(tasks, &tid) {
                    Some(i) => tasks[i].start.date,
                    None => self.current_date,
                }
            },
        }
    }

    /// Moves the cursor seven days forward (same weekday), re-anchoring
    /// where the month changes; at the model's edge nothing moves.
    pub fn next_week(&mut self, tasks: &Vec<Task>)
        requires
            view_wf(old(self)@),
            tasks_nav_ok(task_views(tasks@)),
        ensures
            view_wf(final(self)@),
            ({
                let o = old(self)@;
                let f = final(self)@;
                let sd = selected_date_spec(o, task_views(tasks@));
                let nd = crate::date::date_of(day_index(sd) + 7);
                if nd.year <= 9999 {
                    navigates_to(o, f, nd)
                } else {
                    f == o
                }
            }),
    {
        let current_selected = self.get_selected_date(tasks);
        proof {
            let tv = task_views(tasks@);
            match self@.selection {
                SelectionTypeV::Task(id) => {
                    lemma_find_index_of_id(tv, id);
                },
                SelectionTypeV::Day(_) => {},
            }
            lemma_nav_index_range(current_selected);
        }
        match try_add_days(&current_selected, 7) {
            Some(nd) => {
                proof {
                    crate::date::lemma_date_of_unique(nd);
                }
                if nd.year <= 9999 {
                    proof {
                        lemma_year_above_bottom(nd);
                    }
                    self.navigate_to_date(nd);
                }
            },
            None => {
                proof {
                    assert(false);
                }
            },
        }
    }

    /// Moves the cursor seven days back (same weekday), re-anchoring where
    /// the month changes; at the model's edge nothing moves.
    pub fn prev_week(&mut self, tasks: &Vec<Task>)
        requires
            view_wf(old(self)@),
            tasks_nav_ok(task_views(tasks@)),
        ensures
            view_wf(final(self)@),
            ({
                let o = old(self)@;
                let f = final(self)@;
                let sd = selected_date_spec(o, task_views(tasks@));
                let nd = crate::date::date_of(day_index(sd) - 7);
                if nd.year >= 1 {
                    navigates_to(o, f, nd)
                } else {
                    f == o
                }
            }),
    {
        let current_selected = self.get_selected_date(tasks);
        proof {
            let tv = task_views(tasks@);
            match self@.selection {
                SelectionTypeV::Task(id) => {
                    lemma_find_index_of_id(tv, id);
                },
                SelectionTypeV::Day(_) => {},
            }
            lemma_nav_index_range(current_selected);
        }
        match try_sub_days(&current_selected, 7) {
            Some(nd) => {
                proof {
                    crate::date::lemma_date_of_unique(nd);
                }
                if nd.year >= 1 {
                    proof {
                        lemma_year_below_top(nd);
                    }
                    self.navigate_to_date(nd);
                }
            },
            None => {
                proof {
                    assert(false);
                }
            },
        }
    }

    /// Selects the first day of the anchor month.
    pub fn first_day_of_month(&mut self)
        requires
            view_wf(old(self)@),
        ensures
            view_wf(final(self)@),
            final(self)@ == (MonthViewV {
                selection: SelectionTypeV::Day(
                    Date {
                        year: old(self)@.current_date.year,
                        month: old(self)@.current_date.month,
                        day: 1,
                    },
                ),
                ..old(self)@
            }),
    {
        let first_day = Date { year: self.current_date.year, month: self.current_date.month, day: 1 };
        self.select_day(first_day);
    }

    /// Selects the last day of the anchor month.
    pub fn last_day_of_month(&mut self)
        requires
            view_wf(old(self)@),
        ensures
            view_wf(final(self)@),
            final(self)@ == (MonthViewV {
                selection: SelectionTypeV::Day(
                    Date {
                        year: old(self)@.current_date.year,
                        month: old(self)@.current_date.month,
                        day: days_in_month_of(
                            old(self)@.current_date.year as int,
                            old(self)@.current_date.month as int,
                        ) as u32,
                    },
                ),
                ..old(self)@
            }),
    {
        let dim = days_in_month(self.current_date.year, self.current_date.month);
        let last_day = Date {
            year: self.current_date.year,
            month: self.current_date.month,
            day: dim,
        };
        self.select_day(last_day);
    }

    /// Re-anchors on month (`new_year`, `new_month`) and selects the day
    /// of month the cursor rested on, clamped into the new month.
    fn navigate_to_month_preserve_day(&mut self, new_year: i32, new_month: u32)
        requires
            view_wf(old(self)@),
            1 <= new_year <= 9999,
            1 <= new_month <= 12,
        ensures
            view_wf(final(self)@),
            final(self)@.current_date == (Date { year: new_year, month: new_month, day: 1 }),
            is_month_grid(final(self)@.weeks, final(self)@.current_date),
            final(self)@.wrap_enabled == old(self)@.wrap_enabled,
            final(self)@.selection == SelectionTypeV::Day(
                Date {
                    year: new_year,
                    month: new_month,
                    day: clamped_day(old(self)@, new_year as int, new_month as int) as u32,
                },
            ),
    {
        let target_day = match &self.selection.selection_type {
            SelectionType::Day(date) => date.day,
            SelectionType::Task(_) => self.current_date.day,
        };
        let dim = days_in_month(new_year, new_month);
        let safe_day = if target_day <= dim {
            target_day
        } else {
            dim
        };
        self.current_date = Date { year: new_year, month: new_month, day: 1 };
        self.weeks = Self::build_weeks(self.current_date);
        let target = Date { year: new_year, month: new_month, day: safe_day };
        self.select_day(target);
    }

    /// Moves to the previous month, preserving the day of month (clamped
    /// into the target month's length).
    pub fn prev_month_preserve_day(&mut self)
        requires
            view_wf(old(self)@),
            old(self)@.current_date.month > 1 || old(self)@.current_date.year > 1,
        ensures
            view_wf(final(self)@),
            ({
                let a = prev_month_anchor(old(self)@.current_date);
                &&& final(self)@.current_date == a
                &&& is_month_grid(final(self)@.weeks, a)
                &&& final(self)@.wrap_enabled == old(self)@.wrap_enabled
                &&& final(self)@.selection == SelectionTypeV::Day(
                    Date {
                        year: a.year,
                        month: a.month,
                        day: clamped_day(old(self)@, a.year as int, a.month as int) as u32,
                    },
                )
            }),
    {
        let (new_year, new_month) = if self.current_date.month == 1 {
            (self.current_date.year - 1, 12u32)
        } else {
            (self.current_date.year, self.current_date.month - 1)
        };
        self.navigate_to_month_preserve_day(new_year, new_month);
    }

    /// Moves to the next month, preserving the day of month (clamped into
    /// the target month's length).
    pub fn next_month_preserve_day(&mut self)
        requires
            view_wf(old(self)@),
            old(self)@.current_date.month < 12 || old(self)@.current_date.year < 9999,
        ensures
            view_wf(final(self)@),
            ({
                let a = next_month_anchor(old(self)@.current_date);
                &&& final(self)@.current_date == a
                &&& is_month_grid(final(self)@.weeks, a)
                &&& final(self)@.wrap_enabled == old(self)@.wrap_enabled
                &&& final(self)@.selection == SelectionTypeV::Day(
                    Date {
                        year: a.year,
                        month: a.month,
                        day: clamped_day(old(self)@, a.year as int, a.month as int) as u32,
                    },
                )
            }),
    {
        let (new_year, new_month) = if self.current_date.month == 12 {
            (self.current_date.year + 1, 1u32)
        } else {
            (self.current_date.year, self.current_date.month + 1)
        };
        self.navigate_to_month_preserve_day(new_year, new_month);
    }

    /// Moves the cursor to `today`, supplied by the caller's clock.
    pub fn go_to_today(&mut self, today: Date)
        requires
            nav_date_ok(today),
        ensures
            navigates_to(old(self)@, final(self)@, today),
    {
        self.navigate_to_date(today);
    }

    /// The selected task's order within its day, `None` under a day
    /// selection or when the task is gone.
    pub fn get_current_task_order(&self, tasks: &Vec<Task>) -> (r: Option<u32>)
        ensures
            match self@.selection {
                SelectionTypeV::Task(id) => {
                    let p = find_index_of_id(task_views(tasks@), id);
                    if p >= 0 {
                        r == Some(task_views(tasks@)[p].order)
                    } else {
                        r is None
                    }
                },
                SelectionTypeV::Day(_) => r is None,
            },
    {
        match &self.selection.selection_type {
            SelectionType::Task(task_id) => {
                let tid = task_id.clone();
                match find_task_by_id(tasks, &tid) {
                    Some(i) => Some(tasks[i].order),
                    None => None,
                }
            },
            SelectionType::Day(_) => None,
        }
    }

    /// Selects the task of `date` carrying exactly the given order; where
    /// no task on that day has it, nothing changes.
    pub fn select_task_by_order(&mut self, date: Date, order: u32, tasks: &Vec<Task>)
        ensures
            ({
                let o = old(self)@;
                let f = final(self)@;
                let tv = task_views(tasks@);
                if exists|i: int|
                    0 <= i < tv.len() && on_date(#[trigger] tv[i], date) && tv[i].order == order {
                    exists|i: int|
                        0 <= i < tv.len() && on_date(#[trigger] tv[i], date) && tv[i].order
                            == order && f == (MonthViewV {
                            selection: SelectionTypeV::Task(tv[i].id),
                            ..o
                        })
                } else {
                    f == o
                }
            }),
    {
        let n = tasks.len();
        let mut i: usize = 0;
        while i < n
            invariant
                n == tasks@.len(),
                0 <= i <= n,
                self@ == old(self)@,
                forall|k: int|
                    0 <= k < i ==> !(on_date(#[trigger] task_views(tasks@)[k], date) && task_views(
                        tasks@,
                    )[k].order == order),
            decreases n - i,
        {
            let on_day = tasks[i].is_on_date(date);
            if on_day && tasks[i].order == order {
                let tid = tasks[i].id.clone();
                self.select_task(tid);
                proof {
                    let tv = task_views(tasks@);
                    assert(0 <= i < tv.len() && on_date(tv[i as int], date) && tv[i as int].order
                        == order && self@ == (MonthViewV {
                        selection: SelectionTypeV::Task(tv[i as int].id),
                        ..old(self)@
                    }));
                }
                return ;
            }
            i = i + 1;
        }
    }
}

/// What a week-step down onto `nd` leaves behind: the view re-anchored
/// where `nd`'s month differs, the cursor landing on the day or its first
/// task.
pub open spec fn week_landing(o: MonthViewV, f: MonthViewV, tv: Seq<TaskV>, nd: Date) -> bool {
    &&& f.wrap_enabled == o.wrap_enabled
    &&& (if nd.month == o.current_date.month && nd.year == o.current_date.year {
        f.current_date == o.current_date && f.weeks == o.weeks
    } else {
        f.current_date == (Date { year: nd.year, month: nd.month, day: 1 }) && is_month_grid(
            f.weeks,
            nd,
        )
    })
    &&& lands_on_day(tv, nd, f.selection)
}

impl MonthView {
    /// Moves one day back. A task selection first resolves to its task's
    /// day and then steps like a day selection: the cursor lands on the
    /// previous day, re-anchoring across months. At the model's lower
    /// edge nothing moves.
    pub fn move_left(&mut self, tasks: &Vec<Task>)
        requires
            view_wf(old(self)@),
            tasks_nav_ok(task_views(tasks@)),
        ensures
            view_wf(final(self)@),
            ({
                let o = old(self)@;
                let f = final(self)@;
                let tv = task_views(tasks@);
                match o.selection {
                    SelectionTypeV::Day(d) => {
                        let nd = crate::date::date_of(day_index(d) - 1);
                        if nd.year >= 1 {
                            navigates_to(o, f, nd)
                        } else {
                            f == o
                        }
                    },
                    SelectionTypeV::Task(id) => {
                        let p = find_index_of_id(tv, id);
                        if p == -1 {
                            f == o
                        } else {
                            let nd = crate::date::date_of(day_index(tv[p].start.date) - 1);
                            if nd.year >= 1 {
                                navigates_to(o, f, nd)
                            } else {
                                f == o
                            }
                        }
                    },
                }
            }),
    {
        let sel = self.selection.selection_type.clone();
        match sel {
            SelectionType::Day(d) => {
                proof {
                    lemma_nav_index_range(d);
                }
                match try_sub_days(&d, 1) {
                    Some(nd) => {
                        proof {
                            crate::date::lemma_date_of_unique(nd);
                        }
                        if nd.year >= 1 {
                            proof {
                                lemma_year_below_top(nd);
                            }
                            self.navigate_to_date(nd);
                        }
                    },
                    None => {
                        proof {
                            assert(false);
                        }
                    },
                }
            },
            SelectionType::Task(task_id) => {
                match find_task_by_id(tasks, &task_id) {
                    Some(i) => {
                        let td = tasks[i].start.date;
                        proof {
                            assert(nav_date_ok(task_views(tasks@)[i as int].start.date));
                            lemma_nav_index_range(td);
                        }
                        match try_sub_days(&td, 1) {
                            Some(nd) => {
                                proof {
                                    crate::date::lemma_date_of_unique(nd);
                                }
                                if nd.year >= 1 {
                                    proof {
                                        lemma_year_below_top(nd);
                                    }
                                    self.navigate_to_date(nd);
                                }
                            },
                            None => {
                                proof {
                                    assert(false);
                                }
                            },
                        }
                    },
                    None => {},
                }
            },
        }
    }

    /// Moves one day forward. A task selection first resolves to its
    /// task's day and then steps like a day selection: the cursor lands on
    /// the next day, re-anchoring across months. At the model's upper edge
    /// nothing moves.
    pub fn move_right(&mut self, tasks: &Vec<Task>)
        requires
            view_wf(old(self)@),
            tasks_nav_ok(task_views(tasks@)),
        ensures
            view_wf(final(self)@),
            ({
                let o = old(self)@;
                let f = final(self)@;
                let tv = task_views(tasks@);
                match o.selection {
                    SelectionTypeV::Day(d) => {
                        let nd = crate::date::date_of(day_index(d) + 1);
                        if nd.year <= 9999 {
                            navigates_to(o, f, nd)
                        } else {
                            f == o
                        }
                    },
                    SelectionTypeV::Task(id) => {
                        let p = find_index_of_id(tv, id);
                        if p == -1 {
                            f == o
                        } else {
                            let nd = crate::date::date_of(day_index(tv[p].start.date) + 1);
                            if nd.year <= 9999 {
                                navigates_to(o, f, nd)
                            } else {
                                f == o
                            }
                        }
                    },
                }
            }),
    {
        let sel = self.selection.selection_type.clone();
        match sel {
            SelectionType::Day(d) => {
                proof {
                    lemma_nav_index_range(d);
                }
                match try_add_days(&d, 1) {
                    Some(nd) => {
                        proof {
                            crate::date::lemma_date_of_unique(nd);
                        }
                        if nd.year <= 9999 {
                            proof {
                                lemma_year_above_bottom(nd);
                            }
                            self.navigate_to_date(nd);
                        }
                    },
                    None => {
                        proof {
                            assert(false);
                        }
                    },
                }
            },
            SelectionType::Task(task_id) => {
                match find_task_by_id(tasks, &task_id) {
                    Some(i) => {
                        let td = tasks[i].start.date;
                        proof {
                            assert(nav_date_ok(task_views(tasks@)[i as int].start.date));
                            lemma_nav_index_range(td);
                        }
                        match try_add_days(&td, 1) {
                            Some(nd) => {
                                proof {
                                    crate::date::lemma_date_of_unique(nd);
                                }
                                if nd.year <= 9999 {
                                    proof {
                                        lemma_year_above_bottom(nd);
                                    }
                                    self.navigate_to_date(nd);
                                }
                            },
                            None => {
                                proof {
                                    assert(false);
                                }
                            },
                        }
                    },
                    None => {},
                }
            },
        }
    }

    /// Moves up. From a day: one week back, descending into the landing
    /// day's first task where it has one; a step across the month boundary
    /// re-anchors one month back, preserving the day of month (clamped).
    /// From a task: the previous task of its day, or the day itself from
    /// the first task. At the model's lower edge nothing moves.
    pub fn move_up(&mut self, tasks: &Vec<Task>)
        requires
            view_wf(old(self)@),
            tasks_nav_ok(task_views(tasks@)),
        ensures
            view_wf(final(self)@),
            ({
                let o = old(self)@;
                let f = final(self)@;
                let tv = task_views(tasks@);
                match o.selection {
                    SelectionTypeV::Day(d) => {
                        let nd = crate::date::date_of(day_index(d) - 7);
                        if nd.month == o.current_date.month && nd.year == o.current_date.year {
                            f.current_date == o.current_date && f.weeks == o.weeks
                                && f.wrap_enabled == o.wrap_enabled && lands_on_day(
                                tv,
                                nd,
                                f.selection,
                            )
                        } else if o.current_date.month > 1 || o.current_date.year > 1 {
                            let a = prev_month_anchor(o.current_date);
                            let dim = days_in_month_of(a.year as int, a.month as int);
                            let target = Date {
                                year: a.year,
                                month: a.month,
                                day: (if d.day as int <= dim {
                                    d.day as int
                                } else {
                                    dim
                                }) as u32,
                            };
                            f.current_date == a && is_month_grid(f.weeks, a) && f.wrap_enabled
                                == o.wrap_enabled && lands_on_day(tv, target, f.selection)
                        } else {
                            f == o
                        }
                    },
                    SelectionTypeV::Task(id) => {
                        let p = find_index_of_id(tv, id);
                        if p == -1 {
                            f == o
                        } else {
                            let t = tv[p];
                            if exists|j: int|
                                0 <= j < tv.len() && on_date(#[trigger] tv[j], t.start.date)
                                    && tv[j].order < t.order {
                                exists|i: int|
                                    #[trigger] is_prev_task(tv, t.start.date, t.order, i) && f == (
                                    MonthViewV {
                                        selection: SelectionTypeV::Task(tv[i].id),
                                        ..o
                                    })
                            } else {
                                f == (MonthViewV {
                                    selection: SelectionTypeV::Day(t.start.date),
                                    ..o
                                })
                            }
                        }
                    },
                }
            }),
    {
        let sel = self.selection.selection_type.clone();
        match sel {
            SelectionType::Day(d) => {
                proof {
                    lemma_nav_index_range(d);
                }
                match try_sub_days(&d, 7) {
                    Some(nd) => {
                        proof {
                            crate::date::lemma_date_of_unique(nd);
                        }
                        if nd.month == self.current_date.month && nd.year
                            == self.current_date.year {
                            self.select_day(nd);
                            match find_first_task(tasks, nd) {
                                Some(i) => {
                                    let tid = tasks[i].id.clone();
                                    self.select_task(tid);
                                    proof {
                                        let tv = task_views(tasks@);
                                        assert(is_min_order_task(tv, nd, i as int) && self@.selection
                                            == SelectionTypeV::Task(tv[i as int].id));
                                    }
                                },
                                None => {},
                            }
                        } else if self.current_date.month > 1 || self.current_date.year > 1 {
                            let target_day = d.day;
                            self.prev_month();
                            let dim = days_in_month(self.current_date.year, self.current_date.month);
                            let safe_day = if target_day <= dim {
                                target_day
                            } else {
                                dim
                            };
                            let target = Date {
                                year: self.current_date.year,
                                month: self.current_date.month,
                                day: safe_day,
                            };
                            self.select_day(target);
                            match find_first_task(tasks, target) {
                                Some(i) => {
                                    let tid = tasks[i].id.clone();
                                    self.select_task(tid);
                                    proof {
                                        let tv = task_views(tasks@);
                                        assert(is_min_order_task(tv, target, i as int)
                                            && self@.selection == SelectionTypeV::Task(
                                            tv[i as int].id,
                                        ));
                                    }
                                },
                                None => {},
                            }
                        }
                    },
                    None => {
                        proof {
                            assert(false);
                        }
                    },
                }
            },
            SelectionType::Task(task_id) => {
                match find_task_by_id(tasks, &task_id) {
                    Some(p) => {
                        let td = tasks[p].start.date;
                        let cur_order = tasks[p].order;
                        match find_prev_task(tasks, td, cur_order) {
                            Some(i) => {
                                let tid = tasks[i].id.clone();
                                self.select_task(tid);
                                proof {
                                    let tv = task_views(tasks@);
                                    assert(is_prev_task(tv, td, cur_order, i as int) && self@ == (
                                    MonthViewV {
                                        selection: SelectionTypeV::Task(tv[i as int].id),
                                        ..old(self)@
                                    }));
                                }
                            },
                            None => {
                                proof {
                                    assert(nav_date_ok(task_views(tasks@)[p as int].start.date));
                                }
                                self.select_day(td);
                            },
                        }
                    },
                    None => {},
                }
            },
        }
    }

    /// Moves down. From a day: its first task where it has one, else one
    /// week forward, landing on the day or its first task, re-anchoring
    /// across months. From a task: the next task of its day, or a week
    /// forward from the last one. At the model's upper edge nothing moves.
    pub fn move_down(&mut self, tasks: &Vec<Task>)
        requires
            view_wf(old(self)@),
            tasks_nav_ok(task_views(tasks@)),
        ensures
            view_wf(final(self)@),
            ({
                let o = old(self)@;
                let f = final(self)@;
                let tv = task_views(tasks@);
                match o.selection {
                    SelectionTypeV::Day(d) => {
                        if exists|j: int| 0 <= j < tv.len() && on_date(#[trigger] tv[j], d) {
                            exists|i: int|
                                #[trigger] is_min_order_task(tv, d, i) && f == (MonthViewV {
                                    selection: SelectionTypeV::Task(tv[i].id),
                                    ..o
                                })
                        } else {
                            let nd = crate::date::date_of(day_index(d) + 7);
                            if nd.year <= 9999 {
                                week_landing(o, f, tv, nd)
                            } else {
                                f == o
                            }
                        }
                    },
                    SelectionTypeV::Task(id) => {
                        let p = find_index_of_id(tv, id);
                        if p == -1 {
                            f == o
                        } else {
                            let t = tv[p];
                            if exists|j: int|
                                0 <= j < tv.len() && on_date(#[trigger] tv[j], t.start.date)
                                    && tv[j].order > t.order {
                                exists|i: int|
                                    #[trigger] is_next_task(tv, t.start.date, t.order, i) && f == (
                                    MonthViewV {
                                        selection: SelectionTypeV::Task(tv[i].id),
                                        ..o
                                    })
                            } else {
                                let nd = crate::date::date_of(day_index(t.start.date) + 7);
                                if nd.year <= 9999 {
                                    week_landing(o, f, tv, nd)
                                } else {
                                    f == o
                                }
                            }
                        }
                    },
                }
            }),
    {
        let sel = self.selection.selection_type.clone();
        match sel {
            SelectionType::Day(d) => {
                match find_first_task(tasks, d) {
                    Some(i) => {
                        let tid = tasks[i].id.clone();
                        self.select_task(tid);
                        proof {
                            let tv = task_views(tasks@);
                            assert(is_min_order_task(tv, d, i as int) && self@ == (MonthViewV {
                                selection: SelectionTypeV::Task(tv[i as int].id),
                                ..old(self)@
                            }));
                        }
                    },
                    None => {
                        proof {
                            lemma_nav_index_range(d);
                        }
                        match try_add_days(&d, 7) {
                            Some(nd) => {
                                proof {
                                    crate::date::lemma_date_of_unique(nd);
                                }
                                if nd.year <= 9999 {
                                    proof {
                                        lemma_year_above_bottom(nd);
                                    }
                                    self.navigate_to_date(nd);
                                    self.descend_into_first_task(nd, tasks);
                                }
                            },
                            None => {
                                proof {
                                    assert(false);
                                }
                            },
                        }
                    },
                }
            },
            SelectionType::Task(task_id) => {
                match find_task_by_id(tasks, &task_id) {
                    Some(p) => {
                        let td = tasks[p].start.date;
                        let cur_order = tasks[p].order;
                        match find_next_task(tasks, td, cur_order) {
                            Some(i) => {
                                let tid = tasks[i].id.clone();
                                self.select_task(tid);
                                proof {
                                    let tv = task_views(tasks@);
                                    assert(is_next_task(tv, td, cur_order, i as int) && self@ == (
                                    MonthViewV {
                                        selection: SelectionTypeV::Task(tv[i as int].id),
                                        ..old(self)@
                                    }));
                                }
                            },
                            None => {
                                proof {
                                    assert(nav_date_ok(task_views(tasks@)[p as int].start.date));
                                    lemma_nav_index_range(td);
                                }
                                match try_add_days(&td, 7) {
                                    Some(nd) => {
                                        proof {
                                            crate::date::lemma_date_of_unique(nd);
                                        }
                                        if nd.year <= 9999 {
                                            proof {
                                                lemma_year_above_bottom(nd);
                                            }
                                            self.navigate_to_date(nd);
                                            self.descend_into_first_task(nd, tasks);
                                        }
                                    },
                                    None => {
                                        proof {
                                            assert(false);
                                        }
                                    },
                                }
                            },
                        }
                    },
                    None => {},
                }
            },
        }
    }

    /// After landing on `nd`, selects its first task where it has one.
    fn descend_into_first_task(&mut self, nd: Date, tasks: &Vec<Task>)
        ensures
            final(self)@.current_date == old(self)@.current_date,
            final(self)@.weeks == old(self)@.weeks,
            final(self)@.wrap_enabled == old(self)@.wrap_enabled,
            lands_on_day(task_views(tasks@), nd, final(self)@.selection) || final(self)@.selection
                == old(self)@.selection,
            (exists|j: int|
                0 <= j < task_views(tasks@).len() && on_date(
                    #[trigger] task_views(tasks@)[j],
                    nd,
                )) ==> lands_on_day(task_views(tasks@), nd, final(self)@.selection),
            !(exists|j: int|
                0 <= j < task_views(tasks@).len() && on_date(
                    #[trigger] task_views(tasks@)[j],
                    nd,
                )) ==> final(self)@.selection == old(self)@.selection,
    {
        match find_first_task(tasks, nd) {
            Some(i) => {
                let tid = tasks[i].id.clone();
                self.select_task(tid);
                proof {
                    let tv = task_views(tasks@);
                    assert(is_min_order_task(tv, nd, i as int) && self@.selection
                        == SelectionTypeV::Task(tv[i as int].id));
                }
            },
            None => {},
        }
    }
}

/// Grid completeness: a month grid is Sunday-aligned — every row starts on
/// a Sunday — and every day of the anchored month appears in some cell.
pub proof fn lemma_grid_covers_month(w: Seq<Seq<Date>>, date: Date, d: Date)
    requires
        nav_date_ok(date),
        is_month_grid(w, date),
        valid_date(d),
        d.year == date.year,
        d.month == date.month,
    ensures
        forall|i: int| 0 <= i < w.len() ==> weekday_of(#[trigger] w[i][0]) == 0,
        exists|i: int, j: int| 0 <= i < w.len() && 0 <= j < 7 && w[i][j] == d,
{
    broadcast use vstd::arithmetic::div_mod::lemma_fundamental_div_mod;
    broadcast use vstd::arithmetic::div_mod::lemma_mod_bound;

    let start = grid_start(date);
    let first = Date { year: date.year, month: date.month, day: 1 };
    let dim = days_in_month_of(date.year as int, date.month as int);
    let last = Date { year: date.year, month: date.month, day: dim as u32 };
    let fidx = day_index(first);
    let w0 = weekday_of(first);
    lemma_day_index_in_range(first);
    assert(0 <= w0 < 7);
    assert(fidx == start + w0);
    // Sunday alignment of every row
    assert(fidx + 6 == 7 * ((fidx + 6) / 7) + w0);
    assert forall|i: int| 0 <= i < w.len() implies weekday_of(#[trigger] w[i][0]) == 0 by {
        let q = (fidx + 6) / 7;
        assert(day_index(w[i][0]) == start + 7 * i);
        assert(start + 7 * i + 6 == 7 * (q + i));
        assert((7 * (q + i)) % 7 == 0) by (nonlinear_arith);
    }
    // the day lies within the covered range of day counts
    let idx = day_index(d);
    if d.day != 1 {
        crate::date::lemma_day_index_strictly_monotone(first, d);
    }
    if d.day as int != dim {
        crate::date::lemma_day_index_strictly_monotone(d, last);
    }
    assert(month_end(date) == day_index(last));
    assert(month_end(date) == fidx + dim - 1);
    let off = idx - start;
    assert(0 <= off);
    assert(off <= dim - 1 + w0);
    let i = off / 7;
    let j = off % 7;
    assert(off == 7 * i + j);
    assert(0 <= j < 7);
    assert(0 <= i) by {
        if i < 0 {
            assert(7 * i <= 7 * (-1)) by (nonlinear_arith)
                requires
                    i <= -1,
            ;
        }
    }
    assert(i < w.len()) by {
        assert(off < 7 * w.len());
        if i >= w.len() {
            assert(7 * i >= 7 * w.len()) by (nonlinear_arith)
                requires
                    i >= w.len() as int,
            ;
        }
    }
    assert(day_index(w[i][j]) == start + 7 * i + j == idx);
    lemma_day_index_injective(w[i][j], d);
    assert(0 <= i < w.len() && 0 <= j < 7 && w[i][j] == d);
}

/// Month-crossing day preservation: a preserve-day jump always lands on a
/// day the target month has — the cursor's day of month where it exists
/// there, else the target month's last day — so clamping never names an
/// invalid date.
pub proof fn lemma_preserve_day_lands_valid(v: MonthViewV, y: int, m: int)
    requires
        view_wf(v),
        1 <= m <= 12,
        0 <= y <= 10000,
    ensures
        1 <= clamped_day(v, y, m) <= days_in_month_of(y, m),
        valid_date(
            Date { year: y as i32, month: m as u32, day: clamped_day(v, y, m) as u32 },
        ),
        (match v.selection {
            SelectionTypeV::Day(d) => d.day as int <= days_in_month_of(y, m) ==> clamped_day(
                v,
                y,
                m,
            ) == d.day as int,
            SelectionTypeV::Task(_) => true,
        }),
{
}

/// The first day of the month before `d`'s month.
pub open spec fn prev_month_anchor(d: Date) -> Date {
    if d.month == 1 {
        Date { year: (d.year - 1) as i32, month: 12, day: 1 }
    } else {
        Date { year: d.year, month: (d.month - 1) as u32, day: 1 }
    }
}

/// The first day of the month after `d`'s month.
pub open spec fn next_month_anchor(d: Date) -> Date {
    if d.month == 12 {
        Date { year: (d.year + 1) as i32, month: 1, day: 1 }
    } else {
        Date { year: d.year, month: (d.month + 1) as u32, day: 1 }
    }
}

/// The day of month the cursor rests on (under a task selection, the
/// anchor's), clamped into month (`y`, `m`).
pub open spec fn clamped_day(v: MonthViewV, y: int, m: int) -> int {
    let day0 = match v.selection {
        SelectionTypeV::Day(d) => d.day as int,
        SelectionTypeV::Task(_) => v.current_date.day as int,
    };
    if day0 <= days_in_month_of(y, m) {
        day0
    } else {
        days_in_month_of(y, m)
    }
}

/// The date the cursor rests on: the selected day, the selected task's
/// day, or the anchor when the task is gone.
pub open spec fn selected_date_spec(v: MonthViewV, tv: Seq<TaskV>) -> Date {
    match v.selection {
        SelectionTypeV::Day(d) => d,
        SelectionTypeV::Task(id) => {
            let p = find_index_of_id(tv, id);
            if p >= 0 {
                tv[p].start.date
            } else {
                v.current_date
            }
        },
    }
}

/// Day count of the last navigable day.
pub open spec fn top_nav_index() -> int {
    day_index(Date { year: 9999, month: 12, day: 31 })
}

/// A navigable date sits at least a year inside each end of the model.
pub(crate) proof fn lemma_nav_index_range(d: Date)
    requires
        nav_date_ok(d),
    ensures
        366 <= day_index(d),
        day_index(d) <= top_nav_index(),
        day_index(d) + 366 <= max_day_index(),
        max_day_index() < 4_000_000,
{
    let jan1 = Date { year: 1, month: 1, day: 1 };
    let top = Date { year: 9999, month: 12, day: 31 };
    lemma_day_index_in_range(d);
    lemma_day_index_in_range(jan1);
    lemma_day_index_in_range(top);
    assert(day_index(jan1) == 366) by {
        reveal_with_fuel(crate::date::days_before_year, 2);
        assert(is_leap_year(0));
    }
    if d.year == 1 && d.month == 1 && d.day == 1 {
    } else {
        crate::date::lemma_day_index_strictly_monotone(jan1, d);
    }
    if d.year == 9999 && d.month == 12 && d.day == 31 {
    } else {
        crate::date::lemma_day_index_strictly_monotone(d, top);
    }
    lemma_gap_9999_to_max();
}

/// A valid date whose day count stays at or below the last navigable day
/// has a navigable year.
proof fn lemma_year_below_top(d: Date)
    requires
        valid_date(d),
        day_index(d) <= top_nav_index(),
    ensures
        d.year <= 9999,
{
    let top = Date { year: 9999, month: 12, day: 31 };
    if d.year > 9999 {
        crate::date::lemma_day_index_strictly_monotone(top, d);
    }
}

/// A valid date whose day count is at least a year in has a navigable year.
proof fn lemma_year_above_bottom(d: Date)
    requires
        valid_date(d),
        day_index(d) >= 366,
    ensures
        d.year >= 1,
{
    let jan1 = Date { year: 1, month: 1, day: 1 };
    assert(day_index(jan1) == 366) by {
        reveal_with_fuel(crate::date::days_before_year, 2);
        assert(is_leap_year(0));
    }
    if d.year < 1 {
        crate::date::lemma_day_index_strictly_monotone(d, jan1);
    }
}

/// What `navigate_to_date` leaves behind: the target day selected, the view
/// re-anchored on its month where that month differs from the old anchor's.
pub open spec fn navigates_to(o: MonthViewV, f: MonthViewV, target: Date) -> bool {
    &&& f.selection == SelectionTypeV::Day(target)
    &&& f.wrap_enabled == o.wrap_enabled
    &&& if target.month == o.current_date.month && target.year == o.current_date.year {
        f.current_date == o.current_date && f.weeks == o.weeks
    } else {
        f.current_date == (Date { year: target.year, month: target.month, day: 1 })
            && is_month_grid(f.weeks, target)
    }
}

/// Every task's start day lies in the navigable range.
pub open spec fn tasks_nav_ok(s: Seq<TaskV>) -> bool {
    forall|i: int| 0 <= i < s.len() ==> nav_date_ok((#[trigger] s[i]).start.date)
}

/// `s[i]` is a task of `date` with the smallest order on that day.
pub open spec fn is_min_order_task(s: Seq<TaskV>, date: Date, i: int) -> bool {
    &&& 0 <= i < s.len()
    &&& on_date(s[i], date)
    &&& forall|j: int|
        0 <= j < s.len() && on_date(#[trigger] s[j], date) ==> s[i].order <= s[j].order
}

/// The selection after the cursor lands on `d`: the day itself where the day
/// is empty, else its first task.
pub open spec fn lands_on_day(tv: Seq<TaskV>, d: Date, sel: SelectionTypeV) -> bool {
    if forall|j: int| 0 <= j < tv.len() ==> !on_date(#[trigger] tv[j], d) {
        sel == SelectionTypeV::Day(d)
    } else {
        exists|i: int|
            #[trigger] is_min_order_task(tv, d, i) && sel == SelectionTypeV::Task(tv[i].id)
    }
}

/// `s[i]` is the task of `date` just before order `order`: the largest
/// order below it.
pub open spec fn is_prev_task(s: Seq<TaskV>, date: Date, order: u32, i: int) -> bool {
    &&& 0 <= i < s.len()
    &&& on_date(s[i], date)
    &&& s[i].order < order
    &&& forall|j: int|
        0 <= j < s.len() && on_date(#[trigger] s[j], date) && s[j].order < order ==> s[j].order
            <= s[i].order
}

/// `s[i]` is the task of `date` just after order `order`: the smallest
/// order above it.
pub open spec fn is_next_task(s: Seq<TaskV>, date: Date, order: u32, i: int) -> bool {
    &&& 0 <= i < s.len()
    &&& on_date(s[i], date)
    &&& s[i].order > order
    &&& forall|j: int|
        0 <= j < s.len() && on_date(#[trigger] s[j], date) && s[j].order > order ==> s[j].order
            >= s[i].order
}

/// Index of the lowest-order task on `date` (first such in collection
/// order when orders tie), `None` when the day is empty.
pub(crate) fn find_first_task(tasks: &Vec<Task>, date: Date) -> (r: Option<usize>)
    ensures
        ({
            let tv = task_views(tasks@);
            &&& r is None <==> forall|j: int| 0 <= j < tv.len() ==> !on_date(#[trigger] tv[j], date)
            &&& r is Some ==> is_min_order_task(tv, date, r->Some_0 as int)
        }),
{
    let n = tasks.len();
    let mut best: usize = 0;
    let mut have = false;
    let mut i: usize = 0;
    while i < n
        invariant
            n == tasks@.len(),
            0 <= i <= n,
            have ==> best < i && on_date(task_views(tasks@)[best as int], date) && forall|j: int|
                0 <= j < i && on_date(#[trigger] task_views(tasks@)[j], date) ==> task_views(
                    tasks@,
                )[best as int].order <= task_views(tasks@)[j].order,
            !have ==> forall|j: int| 0 <= j < i ==> !on_date(#[trigger] task_views(tasks@)[j], date),
        decreases n - i,
    {
        if tasks[i].is_on_date(date) {
            if !have || tasks[i].order < tasks[best].order {
                best = i;
            }
            have = true;
        }
        i = i + 1;
    }
    if have {
        Some(best)
    } else {
        None
    }
}

/// Index of the first task with the given id, `None` when there is none.
pub(crate) fn find_task_by_id(tasks: &Vec<Task>, task_id: &String) -> (r: Option<usize>)
    ensures
        ({
            let p = find_index_of_id(task_views(tasks@), task_id@);
            &&& r is None <==> p == -1
            &&& r is Some ==> 0 <= r->Some_0 < tasks@.len() && r->Some_0 == p
        }),
{
    proof {
        lemma_find_index_of_id(task_views(tasks@), task_id@);
    }
    let n = tasks.len();
    let mut i: usize = 0;
    while i < n
        invariant
            n == tasks@.len(),
            0 <= i <= n,
            forall|k: int| 0 <= k < i ==> (#[trigger] task_views(tasks@)[k]).id != task_id@,
        decreases n - i,
    {
        if tasks[i].id == *task_id {
            proof {
                lemma_find_index_of_id(task_views(tasks@), task_id@);
                assert(task_views(tasks@)[i as int].id == task_id@);
            }
            return Some(i);
        }
        i = i + 1;
    }
    None
}

/// Index of the task of `date` with the largest order below `order`,
/// `None` when no order on the day is smaller.
fn find_prev_task(tasks: &Vec<Task>, date: Date, order: u32) -> (r: Option<usize>)
    ensures
        ({
            let tv = task_views(tasks@);
            &&& r is None <==> forall|j: int|
                0 <= j < tv.len() && on_date(#[trigger] tv[j], date) ==> tv[j].order >= order
            &&& r is Some ==> is_prev_task(tv, date, order, r->Some_0 as int)
        }),
{
    let n = tasks.len();
    let mut best: usize = 0;
    let mut have = false;
    let mut i: usize = 0;
    while i < n
        invariant
            n == tasks@.len(),
            0 <= i <= n,
            have ==> best < i && on_date(task_views(tasks@)[best as int], date) && task_views(
                tasks@,
            )[best as int].order < order && forall|j: int|
                0 <= j < i && on_date(#[trigger] task_views(tasks@)[j], date) && task_views(
                    tasks@,
                )[j].order < order ==> task_views(tasks@)[j].order <= task_views(
                    tasks@,
                )[best as int].order,
            !have ==> forall|j: int|
                0 <= j < i && on_date(#[trigger] task_views(tasks@)[j], date) ==> task_views(
                    tasks@,
                )[j].order >= order,
        decreases n - i,
    {
        if tasks[i].is_on_date(date) {
            let o = tasks[i].order;
            if o < order && (!have || o > tasks[best].order) {
                best = i;
                have = true;
            }
        }
        i = i + 1;
    }
    if have {
        Some(best)
    } else {
        None
    }
}

/// Index of the task of `date` with the smallest order above `order`,
/// `None` when no order on the day is larger.
fn find_next_task(tasks: &Vec<Task>, date: Date, order: u32) -> (r: Option<usize>)
    ensures
        ({
            let tv = task_views(tasks@);
            &&& r is None <==> forall|j: int|
                0 <= j < tv.len() && on_date(#[trigger] tv[j], date) ==> tv[j].order <= order
            &&& r is Some ==> is_next_task(tv, date, order, r->Some_0 as int)
        }),
{
    let n = tasks.len();
    let mut best: usize = 0;
    let mut have = false;
    let mut i: usize = 0;
    while i < n
        invariant
            n == tasks@.len(),
            0 <= i <= n,
            have ==> best < i && on_date(task_views(tasks@)[best as int], date) && task_views(
                tasks@,
            )[best as int].order > order && forall|j: int|
                0 <= j < i && on_date(#[trigger] task_views(tasks@)[j], date) && task_views(
                    tasks@,
                )[j].order > order ==> task_views(tasks@)[j].order >= task_views(
                    tasks@,
                )[best as int].order,
            !have ==> forall|j: int|
                0 <= j < i && on_date(#[trigger] task_views(tasks@)[j], date) ==> task_views(
                    tasks@,
                )[j].order <= order,
        decreases n - i,
    {
        if tasks[i].is_on_date(date) {
            let o = tasks[i].order;
            if o > order && (!have || o < tasks[best].order) {
                best = i;
                have = true;
            }
        }
        i = i + 1;
    }
    if have {
        Some(best)
    } else {
        None
    }
}

} // verus!
