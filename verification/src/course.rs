//! A course: name, teacher, room, weekly meeting times partitioned by day
//! of week, and a list of tasks. After every insertion the meeting times
//! are folded by the merge engine, so that within each day no interval's
//! start lies inside another.

use vstd::prelude::*;

use vstd::string::StringExecFns;

use crate::day::{day_index, lemma_day_index_injective, Day};
use crate::date::Date;
use crate::errors::IndexError;
use crate::interval::{
    ends_from, has_start_match, iv_model, merge_overlaps, normalized, same_coverage, start_match,
    starts_from, Boundary,
};
use crate::task::{sentinel_step, Task, TaskV};
use crate::time::{time_val, Time};

verus! {

/// A meeting-time entry on the integer axis of the merge engine: the day's
/// index is the partition key.
pub open spec fn time_entry_model(t: (Day, Time, Time)) -> (int, int, int) {
    (day_index(t.0), time_val(t.1), time_val(t.2))
}

/// The mathematical model of a meeting-time list.
pub open spec fn times_model(s: Seq<(Day, Time, Time)>) -> Seq<(int, int, int)> {
    s.map_values(|t: (Day, Time, Time)| time_entry_model(t))
}

/// The mathematical model of a course.
pub struct CourseV {
    pub name: Seq<char>,
    pub teacher: Seq<char>,
    pub room: Seq<char>,
    pub times: Seq<(Day, Time, Time)>,
    pub tasks: Seq<TaskV>,
}

/// A course of the schedule.
#[derive(Clone, Debug, PartialEq)]
pub struct Course {
    pub name: String,
    pub teacher: String,
    pub room: String,
    /// The timings of the course, as in (Sunday, from 10:30, to 12:30).
    pub times: Vec<(Day, Time, Time)>,
    /// The tasks of the course.
    pub tasks: Vec<Task>,
}

impl View for Course {
    type V = CourseV;

    open spec fn view(&self) -> CourseV {
        CourseV {
            name: self.name@,
            teacher: self.teacher@,
            room: self.room@,
            times: self.times@,
            tasks: self.tasks@.map_values(|t: Task| t@),
        }
    }
}

impl Course {
    /// A course with the given texts and no times or tasks.
    pub fn new(name: &str, teacher: &str, room: &str) -> (c: Course)
        ensures
            c@.name == name@,
            c@.teacher == teacher@,
            c@.room == room@,
            c@.times == Seq::<(Day, Time, Time)>::empty(),
            c@.tasks == Seq::<TaskV>::empty(),
    {
        let c = Course {
            name: String::from_str(name),
            teacher: String::from_str(teacher),
            room: String::from_str(room),
            times: Vec::new(),
            tasks: Vec::new(),
        };
        proof {
            assert(c@.tasks =~= Seq::<TaskV>::empty());
        }
        c
    }

    /// Append a fresh task, which carries the one sentinel step.
    pub fn add_task(&mut self, name: &str, desc: &str, due: Date)
        ensures
            final(self)@.tasks == old(self)@.tasks.push(
                TaskV { name: name@, desc: desc@, due, steps: seq![sentinel_step()] },
            ),
            final(self).name == old(self).name,
            final(self).teacher == old(self).teacher,
            final(self).room == old(self).room,
            final(self).times == old(self).times,
    {
        self.tasks.push(Task::new(name, desc, due));
        proof {
            assert(final(self)@.tasks =~= old(self)@.tasks.push(
                TaskV { name: name@, desc: desc@, due, steps: seq![sentinel_step()] },
            ));
        }
    }

    /// Remove the task at `index`; an out-of-range index is reported, not a
    /// panic.
    pub fn rm_task(&mut self, index: usize) -> (r: Result<(), IndexError>)
        ensures
            r is Ok <==> index < old(self).tasks@.len(),
            r is Ok ==> final(self).tasks@ == old(self).tasks@.remove(index as int),
            r is Err ==> *final(self) == *old(self),
            final(self).name == old(self).name,
            final(self).teacher == old(self).teacher,
            final(self).room == old(self).room,
            final(self).times == old(self).times,
    {
        if index < self.tasks.len() {
            self.tasks.remove(index);
            Ok(())
        } else {
            Err(IndexError)
        }
    }

    /// Remove the task at `index` (an alias kept for callers that use the
    /// longer name).
    pub fn remove_task(&mut self, index: usize) -> (r: Result<(), IndexError>)
        ensures
            r is Ok <==> index < old(self).tasks@.len(),
            r is Ok ==> final(self).tasks@ == old(self).tasks@.remove(index as int),
            r is Err ==> *final(self) == *old(self),
            final(self).name == old(self).name,
            final(self).teacher == old(self).teacher,
            final(self).room == old(self).room,
            final(self).times == old(self).times,
    {
        self.rm_task(index)
    }

    /// Append a meeting time, then fold the list to the merge engine's
    /// fixed point: afterwards no entry's start lies inside another entry
    /// of the same day, the covered minutes are exactly those covered
    /// before folding, every entry keeps a day and start that were present,
    /// and a list that was already normalized comes back as it was.
    pub fn add_time(&mut self, new_day: Day, new_start: Time, new_end: Time)
        ensures
            normalized(times_model(final(self).times@)),
            same_coverage(
                times_model(final(self).times@),
                times_model(old(self).times@.push((new_day, new_start, new_end))),
            ),
            starts_from(
                times_model(final(self).times@),
                times_model(old(self).times@.push((new_day, new_start, new_end))),
            ),
            ends_from(
                times_model(final(self).times@),
                times_model(old(self).times@.push((new_day, new_start, new_end))),
            ),
            normalized(times_model(old(self).times@.push((new_day, new_start, new_end))))
                ==> final(self).times@ == old(self).times@.push((new_day, new_start, new_end)),
            final(self).name == old(self).name,
            final(self).teacher == old(self).teacher,
            final(self).room == old(self).room,
            final(self).tasks == old(self).tasks,
    {
        self.times.push((new_day, new_start, new_end));
        let ghost pushed = self.times@;
        let mut ivs: Vec<(u64, Time, Time)> = Vec::new();
        let n = self.times.len();
        let mut idx: usize = 0;
        while idx < n
            invariant
                n == self.times@.len(),
                self.times@ == pushed,
                idx <= n,
                ivs@.len() == idx as int,
                forall|w: int|
                    0 <= w < idx as int ==> #[trigger] ivs@[w] == (
                        day_index(pushed[w].0) as u64,
                        pushed[w].1,
                        pushed[w].2,
                    ),
            decreases n - idx,
        {
            let (d, s, e) = self.times[idx];
            ivs.push((d.index() as u64, s, e));
            idx += 1;
        }
        proof {
            assert(iv_model(ivs@) =~= times_model(pushed));
        }
        let ghost before = ivs@;
        merge_overlaps(&mut ivs);
        let mut rebuilt: Vec<(Day, Time, Time)> = Vec::new();
        let m = ivs.len();
        let mut w: usize = 0;
        while w < m
            invariant
                m == ivs@.len(),
                w <= m,
                rebuilt@.len() == w as int,
                starts_from(iv_model(ivs@), times_model(pushed)),
                forall|x: int|
                    0 <= x < w as int ==> day_index((#[trigger] rebuilt@[x]).0) == ivs@[x].0 as int
                        && rebuilt@[x].1 == ivs@[x].1 && rebuilt@[x].2 == ivs@[x].2,
            decreases m - w,
        {
            let (k, s, e) = ivs[w];
            proof {
                assert(has_start_match(iv_model(ivs@), w as int, times_model(pushed)));
                let x = choose|x: int| start_match(iv_model(ivs@), w as int, times_model(pushed), x);
                assert(times_model(pushed)[x].0 == day_index(pushed[x].0));
                assert(iv_model(ivs@)[w as int].0 == k as int);
                assert(k <= 6);
            }
            rebuilt.push((Day::from_index(k as u8), s, e));
            w += 1;
        }
        proof {
            assert(times_model(rebuilt@) =~= iv_model(ivs@));
            if normalized(times_model(pushed)) {
                assert(ivs@ == before);
                assert forall|x: int| 0 <= x < rebuilt@.len() implies rebuilt@[x] == pushed[x] by {
                    assert(ivs@[x] == (day_index(pushed[x].0) as u64, pushed[x].1, pushed[x].2));
                    lemma_day_index_injective(rebuilt@[x].0, pushed[x].0);
                }
                assert(rebuilt@ =~= pushed);
            }
        }
        self.times = rebuilt;
    }

    /// Remove the meeting time at `index`; an out-of-range index is
    /// reported, not a panic.
    pub fn rm_time(&mut self, index: usize) -> (r: Result<(), IndexError>)
        ensures
            r is Ok <==> index < old(self).times@.len(),
            r is Ok ==> final(self).times@ == old(self).times@.remove(index as int),
            r is Err ==> *final(self) == *old(self),
            final(self).name == old(self).name,
            final(self).teacher == old(self).teacher,
            final(self).room == old(self).room,
            final(self).tasks == old(self).tasks,
    {
        if index < self.times.len() {
            self.times.remove(index);
            Ok(())
        } else {
            Err(IndexError)
        }
    }

    /// Whether some meeting time falls on the given day.
    pub fn is_on_day(&self, expected: Day) -> (r: bool)
        ensures
            r == exists|i: int|
                0 <= i < self.times@.len() && (#[trigger] self.times@[i]).0 == expected,
    {
        let n = self.times.len();
        let mut i: usize = 0;
        while i < n
            invariant
                n == self.times@.len(),
                i <= n,
                forall|w: int| 0 <= w < i as int ==> (#[trigger] self.times@[w]).0 != expected,
            decreases n - i,
        {
            let (d, _, _) = self.times[i];
            if d == expected {
                return true;
            }
            i += 1;
        }
        false
    }
}

} // verus!
