//! The root aggregate: the list of courses and the list of holiday date
//! ranges. After every insertion the holidays are folded by the merge
//! engine, so no holiday's start lies inside another holiday's span.

use vstd::prelude::*;

use crate::course::{Course, CourseV};
use crate::date::{date_val, date_wf, Date};
use crate::errors::IndexError;
use crate::interval::{
    covers, covers_at, ends_from, has_start_match, iv_model, merge_overlaps, normalized,
    same_coverage, start_match, starts_from, Boundary,
};

verus! {

/// A holiday on the integer axis of the merge engine. Holidays share one
/// implicit partition, keyed 0.
pub open spec fn holiday_model(t: (Date, Date)) -> (int, int, int) {
    (0, date_val(t.0), date_val(t.1))
}

/// The mathematical model of a holiday list.
pub open spec fn holidays_model(s: Seq<(Date, Date)>) -> Seq<(int, int, int)> {
    s.map_values(|t: (Date, Date)| holiday_model(t))
}

/// The mathematical model of the aggregate.
pub struct ApplicationV {
    pub courses: Seq<CourseV>,
    pub holidays: Seq<(Date, Date)>,
}

/// The root aggregate of the schedule.
#[derive(Clone, Debug, PartialEq)]
pub struct Application {
    /// All the courses of the user.
    pub courses: Vec<Course>,
    /// Holidays, each a (starting date, ending date) pair.
    pub holidays: Vec<(Date, Date)>,
}

impl View for Application {
    type V = ApplicationV;

    open spec fn view(&self) -> ApplicationV {
        ApplicationV {
            courses: self.courses@.map_values(|c: Course| c@),
            holidays: self.holidays@,
        }
    }
}

impl Application {
    /// An empty aggregate: no courses, no holidays.
    pub fn new() -> (a: Application)
        ensures
            a@.courses == Seq::<CourseV>::empty(),
            a@.holidays == Seq::<(Date, Date)>::empty(),
    {
        let a = Application { courses: Vec::new(), holidays: Vec::new() };
        proof {
            assert(a@.courses =~= Seq::<CourseV>::empty());
        }
        a
    }

    /// Append a fresh course with placeholder texts.
    pub fn new_course(&mut self)
        ensures
            final(self)@.courses.len() == old(self)@.courses.len() + 1,
            final(self)@.courses.take(old(self)@.courses.len() as int) == old(self)@.courses,
            ({
                let c = final(self)@.courses.last();
                c.name == "Name"@ && c.teacher == "Teacher"@ && c.room == "Room"@ && c.times
                    == Seq::<(crate::day::Day, crate::time::Time, crate::time::Time)>::empty()
                    && c.tasks == Seq::<crate::task::TaskV>::empty()
            }),
            final(self).holidays == old(self).holidays,
    {
        self.courses.push(Course::new("Name", "Teacher", "Room"));
        proof {
            assert(final(self)@.courses =~= old(self)@.courses.push(
                final(self).courses@.last()@,
            ));
            assert(final(self)@.courses.take(old(self)@.courses.len() as int) =~= old(
                self,
            )@.courses);
        }
    }

    /// Append an existing course.
    pub fn add_course(&mut self, course: Course)
        ensures
            final(self)@.courses == old(self)@.courses.push(course@),
            final(self).holidays == old(self).holidays,
    {
        self.courses.push(course);
        proof {
            assert(final(self)@.courses =~= old(self)@.courses.push(
                old(self).courses@.push(course).last()@,
            ));
        }
    }

    /// Remove the course at `index`; an out-of-range index is reported, not
    /// a panic.
    pub fn rm_course(&mut self, index: usize) -> (r: Result<(), IndexError>)
        ensures
            r is Ok <==> index < old(self).courses@.len(),
            r is Ok ==> final(self).courses@ == old(self).courses@.remove(index as int),
            r is Err ==> *final(self) == *old(self),
            final(self).holidays == old(self).holidays,
    {
        if index < self.courses.len() {
            self.courses.remove(index);
            Ok(())
        } else {
            Err(IndexError)
        }
    }

    /// Whether `date` lies strictly inside some holiday's span.
    pub fn is_holiday(&self, date: Date) -> (r: bool)
        ensures
            r == covers(holidays_model(self.holidays@), 0, date_val(date)),
    {
        let n = self.holidays.len();
        let mut i: usize = 0;
        while i < n
            invariant
                n == self.holidays@.len(),
                i <= n,
                forall|w: int|
                    0 <= w < i as int ==> !covers_at(
                        holidays_model(self.holidays@),
                        w,
                        0,
                        date_val(date),
                    ),
            decreases n - i,
        {
            let (start, end) = self.holidays[i];
            if date.is_between(&start, &end) {
                proof {
                    assert(covers_at(holidays_model(self.holidays@), i as int, 0, date_val(date)));
                }
                return true;
            }
            i += 1;
        }
        false
    }

    /// Append a fresh holiday spanning from today to today. The wall clock
    /// alone decides the date.
    pub fn new_holiday(&mut self)
        ensures
            exists|d: Date|
                date_wf(d) && final(self).holidays@ == old(self).holidays@.push((d, d)),
            final(self).courses == old(self).courses,
    {
        let today = Date::today();
        self.holidays.push((today, today));
    }

    /// Append a holiday, then fold the list to the merge engine's fixed
    /// point: afterwards no holiday's start lies inside another holiday's
    /// span, the covered days are exactly those covered before folding,
    /// every entry keeps a start that was present, and a list that was
    /// already normalized comes back as it was.
    pub fn add_holiday(&mut self, start_date: Date, end_date: Date)
        ensures
            normalized(holidays_model(final(self).holidays@)),
            same_coverage(
                holidays_model(final(self).holidays@),
                holidays_model(old(self).holidays@.push((start_date, end_date))),
            ),
            starts_from(
                holidays_model(final(self).holidays@),
                holidays_model(old(self).holidays@.push((start_date, end_date))),
            ),
            ends_from(
                holidays_model(final(self).holidays@),
                holidays_model(old(self).holidays@.push((start_date, end_date))),
            ),
            normalized(holidays_model(old(self).holidays@.push((start_date, end_date))))
                ==> final(self).holidays@ == old(self).holidays@.push((start_date, end_date)),
            final(self).courses == old(self).courses,
    {
        self.holidays.push((start_date, end_date));
        let ghost pushed = self.holidays@;
        let mut ivs: Vec<(u64, Date, Date)> = Vec::new();
        let n = self.holidays.len();
        let mut idx: usize = 0;
        while idx < n
            invariant
                n == self.holidays@.len(),
                self.holidays@ == pushed,
                idx <= n,
                ivs@.len() == idx as int,
                forall|w: int|
                    0 <= w < idx as int ==> #[trigger] ivs@[w] == (0u64, pushed[w].0, pushed[w].1),
            decreases n - idx,
        {
            let (s, e) = self.holidays[idx];
            ivs.push((0u64, s, e));
            idx += 1;
        }
        proof {
            assert(iv_model(ivs@) =~= holidays_model(pushed));
        }
        let ghost before = ivs@;
        merge_overlaps(&mut ivs);
        let mut rebuilt: Vec<(Date, Date)> = Vec::new();
        let m = ivs.len();
        let mut w: usize = 0;
        while w < m
            invariant
                m == ivs@.len(),
                w <= m,
                rebuilt@.len() == w as int,
                forall|x: int|
                    0 <= x < w as int ==> #[trigger] rebuilt@[x] == (ivs@[x].1, ivs@[x].2),
            decreases m - w,
        {
            let (_, s, e) = ivs[w];
            rebuilt.push((s, e));
            w += 1;
        }
        proof {
            assert forall|x: int| 0 <= x < m as int implies ivs@[x].0 == 0u64 by {
                assert(has_start_match(iv_model(ivs@), x, holidays_model(pushed)));
                let y = choose|y: int| start_match(iv_model(ivs@), x, holidays_model(pushed), y);
                assert(iv_model(ivs@)[x].0 == 0);
            }
            assert(holidays_model(rebuilt@) =~= iv_model(ivs@));
            if normalized(holidays_model(pushed)) {
                assert(ivs@ == before);
                assert(rebuilt@ =~= pushed);
            }
        }
        self.holidays = rebuilt;
    }

    /// Remove the holiday at `index`; an out-of-range index is reported,
    /// not a panic.
    pub fn rm_holiday(&mut self, index: usize) -> (r: Result<(), IndexError>)
        ensures
            r is Ok <==> index < old(self).holidays@.len(),
            r is Ok ==> final(self).holidays@ == old(self).holidays@.remove(index as int),
            r is Err ==> *final(self) == *old(self),
            final(self).courses == old(self).courses,
    {
        if index < self.holidays.len() {
            self.holidays.remove(index);
            Ok(())
        } else {
            Err(IndexError)
        }
    }
}

impl Default for Application {
    /// The empty aggregate.
    fn default() -> (a: Application)
        ensures
            a@.courses == Seq::<CourseV>::empty(),
            a@.holidays == Seq::<(Date, Date)>::empty(),
    {
        Application::new()
    }
}

} // verus!
