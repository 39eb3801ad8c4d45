use aoc25::time::{time, time_try, Timing};
use std::time::Duration;

#[test]
fn time_hands_back_what_the_function_returns() {
    let (value, _took) = time(|| 6 * 7);
    assert_eq!(value, 42);
}

#[test]
fn time_try_keeps_values_and_failures() {
    let done: Option<(u8, Duration)> = time_try(|| Some(3u8));
    assert_eq!(done.map(|d| d.0), Some(3));
    let none: Option<(u8, Duration)> = time_try(|| None::<u8>);
    assert!(none.is_none());
    let failed: Result<(u8, Duration), &str> = time_try(|| Err::<u8, &str>("no"));
    assert_eq!(failed, Err("no"));
}

#[test]
fn with_duration_puts_the_duration_beside_the_value() {
    let d = Duration::from_millis(5);
    assert_eq!(Some(1).with_duration(d), Some((1, d)));
    assert_eq!(None::<i32>.with_duration(d), None);
    assert_eq!(Ok::<i32, ()>(2).with_duration(d), Ok((2, d)));
    assert_eq!(Err::<i32, u8>(9).with_duration(d), Err(9));
}
