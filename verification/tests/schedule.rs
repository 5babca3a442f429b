use scheduler::application::Application;
use scheduler::course::Course;
use scheduler::date::Date;
use scheduler::day::Day;
use scheduler::task::Task;
use scheduler::time::Time;

// Helper function, returns a Date and asserts it is real
fn date(year: u16, month: u8, day: u8) -> Date {
    Date::new(year, month, day).unwrap()
}

fn time(hour: u8, minute: u8) -> Time {
    Time::new(hour, minute).unwrap()
}

#[test]
fn task_is_complete() {
    let mut task = Task::new("", "", Date::new(2000, 1, 1).unwrap());
    assert!(!task.is_complete());
    task.steps = vec![(true, "".to_string())];
    assert!(task.is_complete());
}

#[test]
fn task_toggle() {
    let mut task = Task::new("", "", Date::new(2000, 1, 1).unwrap());
    assert!(!task.is_complete());
    task.toggle_step(0);
    assert!(task.is_complete());
}

#[test]
fn sentinel_steps() {
    // A fresh task has exactly the one sentinel step.
    let mut task = Task::new("essay", "write it", date(2000, 1, 1));
    assert_eq!(task.steps, vec![(false, "Completed?".to_string())]);
    // Adding the first real step replaces the sentinel.
    task.add_step("outline");
    assert_eq!(task.steps, vec![(false, "outline".to_string())]);
    // Removing the only real step brings the sentinel back.
    assert!(task.rm_step(0).is_ok());
    assert_eq!(task.steps, vec![(false, "Completed?".to_string())]);
    // A second real step is appended after the first.
    task.add_step("outline");
    task.add_step("draft");
    assert_eq!(
        task.steps,
        vec![(false, "outline".to_string()), (false, "draft".to_string())]
    );
    // Out-of-range toggles are ignored; out-of-range removals are errors.
    task.toggle_step(7);
    assert!(!task.steps[0].0 && !task.steps[1].0);
    assert!(task.rm_step(7).is_err());
}

#[test]
fn task_status_text() {
    let mut task = Task::new("essay", "write it", date(2000, 1, 1));
    assert_eq!(task.is_complete_str(), "Not Done");
    task.toggle_step(0);
    assert_eq!(task.is_complete_str(), "Done");
}

#[test]
fn application_recheck() {
    let mut application = Application::new();

    application.add_holiday(date(2010, 6, 1), date(2010, 8, 1));
    application.add_holiday(date(2010, 7, 1), date(2010, 9, 1));

    assert_eq!(
        application.holidays,
        vec![(date(2010, 6, 1), date(2010, 9, 1))]
    );

    application.add_holiday(date(2010, 5, 1), date(2010, 10, 1));

    assert_eq!(
        application.holidays,
        vec![(date(2010, 5, 1), date(2010, 10, 1))]
    );

    application.add_holiday(date(2009, 5, 1), date(2020, 10, 1));

    assert_eq!(
        application.holidays,
        vec![(date(2009, 5, 1), date(2020, 10, 1))]
    );
}

#[test]
fn application_is_holiday() {
    let mut application = Application::new();

    application.add_holiday(date(2010, 6, 1), date(2010, 8, 1));

    assert!(application.is_holiday(date(2010, 7, 1)));
}

#[test]
fn course_recheck() {
    let mut math = Course::new("Math", "Willis", "S37");
    math.add_time(Day::Sunday, time(9, 0), time(11, 0));
    math.add_time(Day::Sunday, time(10, 0), time(12, 0));

    assert_eq!(math.times, vec![(Day::Sunday, time(9, 0), time(12, 0),)]);
}

#[test]
fn is_on_day() {
    let mut math = Course::new("Math", "Willis", "S37");
    math.add_time(Day::Sunday, time(9, 0), time(11, 0));

    assert!(math.is_on_day(Day::Sunday));
    assert!(!math.is_on_day(Day::Monday));
}

#[test]
fn course_add_time() {
    let mut math = Course::new("Math", "Willis", "S37");

    math.add_time(Day::Sunday, time(9, 0), time(10, 0));
    math.add_time(Day::Sunday, time(9, 30), time(12, 0));

    assert_eq!(math.times, vec![(Day::Sunday, time(9, 0), time(12, 0),)]);

    math.add_time(Day::Sunday, time(13, 0), time(15, 0));

    // Current Math Times on Sunday:
    // 9 to 12
    // 13 to 15

    math.add_time(Day::Sunday, time(11, 0), time(14, 0));

    // Expected Math Times on Sunday:
    // 9 to 15

    assert_eq!(math.times, vec![(Day::Sunday, time(9, 0), time(15, 0),)]);

    math.add_time(Day::Sunday, time(14, 0), time(16, 0));
    math.add_time(Day::Sunday, time(14, 0), time(17, 0));
    math.add_time(Day::Sunday, time(7, 0), time(13, 0));
    math.add_time(Day::Sunday, time(6, 0), time(13, 0));

    assert_eq!(math.times, vec![(Day::Sunday, time(6, 0), time(17, 0),)]);
}

#[test]
fn chain_convergence() {
    // Three pairwise-chainable intervals, inserted so that the last one
    // bridges the first two: the fixed point is one interval.
    let mut course = Course::new("Chem", "Adams", "L2");
    course.add_time(Day::Monday, time(9, 0), time(11, 0));
    course.add_time(Day::Monday, time(13, 0), time(15, 0));
    course.add_time(Day::Monday, time(10, 0), time(14, 0));

    assert_eq!(course.times, vec![(Day::Monday, time(9, 0), time(15, 0))]);
}

#[test]
fn boundary_policy() {
    // Touching exactly at an endpoint does not merge.
    let mut application = Application::new();
    application.add_holiday(date(2010, 1, 1), date(2010, 6, 1));
    application.add_holiday(date(2010, 6, 1), date(2010, 12, 1));
    assert_eq!(
        application.holidays,
        vec![
            (date(2010, 1, 1), date(2010, 6, 1)),
            (date(2010, 6, 1), date(2010, 12, 1)),
        ]
    );

    // A true overlap merges into one covering interval.
    let mut other = Application::new();
    other.add_holiday(date(2010, 1, 1), date(2010, 8, 1));
    other.add_holiday(date(2010, 7, 1), date(2010, 9, 1));
    assert_eq!(other.holidays, vec![(date(2010, 1, 1), date(2010, 9, 1))]);
}

#[test]
fn merge_engine_idempotent() {
    // Re-running the engine on an already-normalized list changes nothing.
    let mut v: Vec<(u64, Time, Time)> = vec![
        (0, time(9, 0), time(10, 0)),
        (0, time(11, 0), time(12, 0)),
        (1, time(9, 30), time(10, 30)),
    ];
    scheduler::interval::merge_overlaps(&mut v);
    let first = v.clone();
    scheduler::interval::merge_overlaps(&mut v);
    assert_eq!(v, first);
}

#[test]
fn partitions_stay_apart() {
    // Overlapping times on different days are never merged.
    let mut course = Course::new("Gym", "Cole", "Hall");
    course.add_time(Day::Monday, time(9, 0), time(11, 0));
    course.add_time(Day::Tuesday, time(10, 0), time(12, 0));
    assert_eq!(
        course.times,
        vec![
            (Day::Monday, time(9, 0), time(11, 0)),
            (Day::Tuesday, time(10, 0), time(12, 0)),
        ]
    );
}

#[test]
fn index_errors() {
    let mut application = Application::new();
    assert!(application.rm_holiday(0).is_err());
    assert!(application.rm_course(3).is_err());
    application.add_holiday(date(2010, 6, 1), date(2010, 8, 1));
    assert!(application.rm_holiday(0).is_ok());
    assert!(application.holidays.is_empty());

    let mut course = Course::new("Math", "Willis", "S37");
    assert!(course.rm_time(0).is_err());
    assert!(course.rm_task(0).is_err());
    assert!(course.remove_task(0).is_err());
    course.add_task("hw", "page 3", date(2010, 6, 1));
    assert!(course.rm_task(0).is_ok());
    assert!(course.tasks.is_empty());
}

#[test]
fn new_course_and_holiday() {
    let mut application = Application::new();
    application.new_course();
    assert_eq!(application.courses.len(), 1);
    assert_eq!(application.courses[0].name, "Name");
    application.add_course(Course::new("Math", "Willis", "S37"));
    assert_eq!(application.courses.len(), 2);
    assert_eq!(application.courses[1].name, "Math");

    application.new_holiday();
    assert_eq!(application.holidays.len(), 1);
    let (from, to) = application.holidays[0];
    assert_eq!(from, to);
}

#[test]
fn degenerate_intervals() {
    // Equal-endpoint intervals are legal inputs; a real interval absorbs one
    // whose start lands inside it.
    let mut application = Application::new();
    application.add_holiday(date(2010, 6, 1), date(2010, 6, 1));
    application.add_holiday(date(2010, 5, 1), date(2010, 7, 1));
    assert_eq!(
        application.holidays,
        vec![(date(2010, 5, 1), date(2010, 7, 1))]
    );

    // An inverted range is tolerated: it covers nothing and absorbs nothing.
    let mut other = Application::new();
    other.add_holiday(date(2010, 8, 1), date(2010, 6, 1));
    assert_eq!(other.holidays, vec![(date(2010, 8, 1), date(2010, 6, 1))]);
    assert!(!other.is_holiday(date(2010, 7, 1)));
}
