use pomodoro::phase::{get_text_color, Color, Phase};

#[test]
fn test_get_text_color_none() {
    assert_eq!(get_text_color(Phase::Break, 20), None);
}

#[test]
fn text_color_work_warning_threshold() {
    assert_eq!(get_text_color(Phase::Work, 4), Some(Color::Red));
    assert_eq!(get_text_color(Phase::Work, 0), Some(Color::Red));
    assert_eq!(get_text_color(Phase::Work, 5), None);
}

#[test]
fn text_color_breaks_when_over() {
    assert_eq!(get_text_color(Phase::Break, 0), Some(Color::Green));
    assert_eq!(get_text_color(Phase::Break, 1), None);
    assert_eq!(get_text_color(Phase::LongBreak, 0), Some(Color::Blue));
    assert_eq!(get_text_color(Phase::LongBreak, 1), None);
}

#[test]
fn phase_names() {
    assert_eq!(Phase::Work.name(), "work");
    assert_eq!(Phase::Break.name(), "break");
    assert_eq!(Phase::LongBreak.name(), "long break");
}

#[test]
fn phase_durations() {
    assert_eq!(Phase::Work.duration_seconds(), 25 * 60);
    assert_eq!(Phase::Break.duration_seconds(), 5 * 60);
    assert_eq!(Phase::LongBreak.duration_seconds(), 15 * 60);
}

#[test]
fn phase_colors() {
    assert_eq!(Phase::Work.color(), Color::Red);
    assert_eq!(Phase::Break.color(), Color::Green);
    assert_eq!(Phase::LongBreak.color(), Color::Blue);
}

#[test]
fn phase_markers() {
    assert_eq!(Phase::Work.marker(), "\u{2588}\u{2588}\u{2588}\u{2588}\u{2588}");
    assert_eq!(Phase::Break.marker(), "\u{2588}");
    assert_eq!(Phase::LongBreak.marker(), "\u{2588}\u{2588}\u{2588}");
}
