use scheduler::date::Date;
use scheduler::day::Day;
use scheduler::time::Time;

#[test]
fn date_validation() {
    // Read: `assert that 2019-10-28 is_ok`
    assert!(Date::new(2019, 10, 28).is_ok());
    assert!(Date::new(2000, 1, 1).is_ok());

    // Read: `assert that 2019-10-32 is NOT ok`
    assert!(!Date::new(2019, 10, 32).is_ok());
    assert!(!Date::new(2019, 13, 1).is_ok());
}

#[test]
fn date_comparison() {
    let date1 = Date::new(1990, 1, 1);
    let date2 = Date::new(2000, 1, 1);
    assert!(date1 < date2);
}

#[test]
fn date_is_between() {
    let start = Date::new(2020, 1, 1).unwrap();
    let end = Date::new(2020, 12, 1).unwrap();
    let date = Date::new(2020, 6, 1).unwrap();

    assert!(date.is_between(&start, &end));

    let other_date = Date::new(2021, 1, 1).unwrap();

    assert!(!other_date.is_between(&start, &end));
}

#[test]
fn time_validation() {
    assert!(Time::new(12, 0).is_ok());
    assert!(Time::new(0, 0).is_ok());
    assert!(Time::new(23, 59).is_ok());
    assert!(Time::new(24, 0).is_err());
    assert!(Time::new(0, 60).is_err());
}

#[test]
fn time_comparison() {
    let time1 = Time::new(9, 0).unwrap();
    let time2 = Time::new(10, 0).unwrap();
    assert!(time1 < time2);
    let time3 = Time::new(13, 0).unwrap();
    assert!(time3 > time2 && time3 > time1);
}

#[test]
fn time_is_between() {
    let start = Time::new(0, 0).unwrap();
    let end = Time::new(6, 0).unwrap();
    let time = Time::new(5, 0).unwrap();

    assert!(time.is_between(start, end));

    let other_time = Time::new(12, 0).unwrap();

    assert!(!other_time.is_between(start, end));
}

#[test]
fn date_parse() {
    assert_eq!(Date::parse("2010-06-01"), Date::new(2010, 6, 1));
    assert_eq!(Date::parse("1984-01-24"), Date::new(1984, 1, 24));
    assert!(Date::parse("2010-13-01").is_err());
    assert!(Date::parse("2010-02-29").is_err());
    assert!(Date::parse("1969-01-01").is_err());
    assert!(Date::parse("2010-06").is_err());
    assert!(Date::parse("2010-06-01-05").is_err());
    assert!(Date::parse("2010-x6-01").is_err());
    assert!(Date::parse("").is_err());
    assert!(Date::parse("99999999999999999999-01-01").is_err());
}

#[test]
fn time_parse() {
    assert_eq!(Time::parse("10:30"), Time::new(10, 30));
    assert_eq!(Time::parse("00:00"), Time::new(0, 0));
    assert!(Time::parse("24:00").is_err());
    assert!(Time::parse("10:30:59").is_err());
    assert!(Time::parse("1030").is_err());
    assert!(Time::parse("aa:bb").is_err());
}

#[test]
fn day_parse() {
    assert_eq!(Day::parse("sunday"), Ok(Day::Sunday));
    assert_eq!(Day::parse("SUNDAY"), Ok(Day::Sunday));
    assert_eq!(Day::parse("Wednesday"), Ok(Day::Wednesday));
    assert!(Day::parse("noday").is_err());
    assert!(Day::parse("").is_err());
}

#[test]
fn date_as_string() {
    assert_eq!(Date::new(2010, 6, 1).unwrap().as_string(), "2010-06-01");
    assert_eq!(Date::new(1984, 12, 24).unwrap().as_string(), "1984-12-24");
}

#[test]
fn time_as_string() {
    assert_eq!(Time::new(9, 5).unwrap().as_string(), "09:05");
    assert_eq!(Time::new(23, 59).unwrap().as_string(), "23:59");
}

#[test]
fn date_plus_days() {
    let base = Date::new(2010, 1, 30).unwrap();
    assert_eq!(base.plus_days(5), Date::new(2010, 2, 4));
    assert_eq!(base.plus_days(0), Ok(base));
    // No carry into the year: past December 31 the addition is rejected.
    let late = Date::new(2010, 12, 30).unwrap();
    assert!(late.plus_days(5).is_err());
}

#[test]
fn clock_today() {
    let today = Date::today();
    let (year, month, day) = today.parts();
    assert!(year >= 1970);
    assert!((1..=12).contains(&month));
    assert!((1..=31).contains(&day));
    let day_of_week = Day::today();
    assert!(!day_of_week.as_str().is_empty());
}

#[test]
fn day_names() {
    assert_eq!(Day::Sunday.as_str(), "Sunday");
    assert_eq!(Day::Saturday.as_str(), "Saturday");
    assert_eq!(
        Day::weekdays(),
        [Day::Sunday, Day::Monday, Day::Tuesday, Day::Wednesday, Day::Thursday]
    );
}
