use scheduler::application::Application;
use scheduler::course::Course;
use scheduler::date::Date;
use scheduler::day::Day;
use scheduler::time::Time;

fn date(year: u16, month: u8, day: u8) -> Date {
    Date::new(year, month, day).unwrap()
}

fn time(hour: u8, minute: u8) -> Time {
    Time::new(hour, minute).unwrap()
}

fn sample_application() -> Application {
    let mut app = Application::new();
    let mut math = Course::new("Math", "Willis", "S37");
    // Overlapping times, merged on insertion.
    math.add_time(Day::Sunday, time(9, 0), time(11, 0));
    math.add_time(Day::Sunday, time(10, 0), time(12, 0));
    // A task with a partial step list.
    math.add_task("homework", "exercises 1 through 9", date(2010, 6, 15));
    math.tasks[0].add_step("read the chapter");
    math.tasks[0].add_step("solve the exercises");
    math.tasks[0].toggle_step(0);
    app.add_course(math);
    app.add_holiday(date(2010, 6, 1), date(2010, 8, 1));
    app
}

#[test]
fn snapshot_round_trip() {
    let app = sample_application();
    let bytes = app.serialize();
    let back = Application::deserialize(&bytes).unwrap();
    assert_eq!(back, app);
}

#[test]
fn empty_round_trip() {
    let app = Application::new();
    let back = Application::deserialize(&app.serialize()).unwrap();
    assert_eq!(back, app);
}

#[test]
fn decode_rejects_corrupt() {
    // An empty buffer holds no aggregate: even the course count is missing.
    assert!(Application::deserialize(&Vec::new()).is_err());

    // A flipped byte inside a date makes the snapshot undecodable.
    let app = sample_application();
    let mut bytes = app.serialize();
    let last = bytes.len() - 1;
    bytes[last] = 0xFF;
    assert!(Application::deserialize(&bytes).is_err());

    // Trailing bytes after a full aggregate are rejected, not ignored.
    let mut padded = app.serialize();
    padded.push(0);
    assert!(Application::deserialize(&padded).is_err());
}
