use pomodoro::phase::Phase;
use pomodoro::scheduler::get_next_phase;

#[test]
fn schedule_empty_is_work() {
    assert_eq!(get_next_phase(&vec![]), Phase::Work);
}

#[test]
fn schedule_after_one_work_is_break() {
    assert_eq!(get_next_phase(&vec![Phase::Work]), Phase::Break);
}

#[test]
fn schedule_fourth_work_earns_long_break() {
    let history = vec![
        Phase::Work,
        Phase::Break,
        Phase::Work,
        Phase::Break,
        Phase::Work,
        Phase::Break,
        Phase::Work,
    ];
    assert_eq!(get_next_phase(&history), Phase::LongBreak);
}

#[test]
fn schedule_long_break_resets_the_count() {
    let history = vec![
        Phase::Work,
        Phase::Break,
        Phase::Work,
        Phase::Break,
        Phase::Work,
        Phase::Break,
        Phase::Work,
        Phase::LongBreak,
        Phase::Work,
    ];
    assert_eq!(get_next_phase(&history), Phase::Break);
}

#[test]
fn schedule_after_break_is_work() {
    assert_eq!(get_next_phase(&vec![Phase::Break]), Phase::Work);
}

#[test]
fn schedule_after_long_break_is_work() {
    assert_eq!(get_next_phase(&vec![Phase::LongBreak]), Phase::Work);
}

#[test]
fn schedule_five_works_in_a_row() {
    // Works with no breaks between them count just the same.
    let history = vec![Phase::Work, Phase::Work, Phase::Work, Phase::Work];
    assert_eq!(get_next_phase(&history), Phase::LongBreak);
}
