use ecs::time::FixedTime;
use std::time::Duration;

#[test]
fn fixed_time_steps_out_gathered_time() {
    let mut time = FixedTime::new(Duration::from_millis(10));
    assert_eq!(time.timestep(), Duration::from_millis(10));
    assert_eq!(time.accumulator(), Duration::ZERO);

    time.accumulate(Duration::from_millis(25));
    assert!(time.update());
    assert_eq!(time.accumulator(), Duration::from_millis(15));
    assert!(time.update());
    assert_eq!(time.accumulator(), Duration::from_millis(5));
    assert!(!time.update());
    assert_eq!(time.accumulator(), Duration::from_millis(5));
}

#[test]
fn fixed_time_default_runs_at_64_hz() {
    let time = FixedTime::default();
    assert_eq!(time.timestep(), Duration::from_micros(15625));
    assert_eq!(time.accumulator(), Duration::ZERO);
}

#[test]
fn fixed_time_steps_exactly_on_a_full_step() {
    let mut time = FixedTime::new(Duration::from_millis(10));
    time.accumulate(Duration::from_millis(10));
    assert!(time.update());
    assert_eq!(time.accumulator(), Duration::ZERO);
    assert!(!time.update());
}

#[test]
fn try_accumulate_refuses_an_overflow() {
    let mut time = FixedTime::new(Duration::from_millis(10));
    assert!(time.try_accumulate(Duration::from_millis(3)));
    assert_eq!(time.accumulator(), Duration::from_millis(3));
    assert!(!time.try_accumulate(Duration::MAX));
    assert_eq!(time.accumulator(), Duration::from_millis(3));
}

#[test]
fn would_fit_tells_whether_accumulate_may_be_called() {
    let mut time = FixedTime::new(Duration::from_millis(10));
    assert!(time.would_fit(Duration::MAX));
    assert!(time.would_fit(Duration::from_millis(3)));
    time.accumulate(Duration::from_millis(3));
    assert!(!time.would_fit(Duration::MAX));
    assert!(time.would_fit(Duration::MAX - Duration::from_millis(3)));
}
