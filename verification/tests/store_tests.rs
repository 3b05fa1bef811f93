use pomodoro::phase::Phase;
use pomodoro::store::{
    decode_progress, encode_progress, load_progress, progress_file_name, record_name_for,
    todays_record_name, StoreError,
};

#[test]
fn encoded_bytes_are_the_reserved_codes() {
    let history = vec![Phase::Work, Phase::Break, Phase::LongBreak];
    assert_eq!(encode_progress(&history), b"012".to_vec());
}

#[test]
fn record_round_trip() {
    let history = vec![Phase::Work, Phase::Break, Phase::LongBreak];
    let bytes = encode_progress(&history);
    assert_eq!(decode_progress(&bytes), Ok(history));
}

#[test]
fn empty_record_decodes_to_empty_history() {
    assert_eq!(decode_progress(&vec![]), Ok(vec![]));
}

#[test]
fn corrupt_record_fails_loudly() {
    assert_eq!(decode_progress(&b"9".to_vec()), Err(StoreError::CorruptRecord));
    assert_eq!(decode_progress(&b"0192".to_vec()), Err(StoreError::CorruptRecord));
    // A newline is no phase code either: corruption, not a silent skip.
    assert_eq!(decode_progress(&b"012\n".to_vec()), Err(StoreError::CorruptRecord));
}

#[test]
fn absent_record_loads_an_empty_history() {
    assert_eq!(load_progress(None), Ok(vec![]));
}

#[test]
fn present_record_loads_its_phases() {
    assert_eq!(
        load_progress(Some(b"01".to_vec())),
        Ok(vec![Phase::Work, Phase::Break])
    );
    assert_eq!(
        load_progress(Some(b"9".to_vec())),
        Err(StoreError::CorruptRecord)
    );
}

#[test]
fn record_name_is_the_dashed_date() {
    assert_eq!(progress_file_name(2026, 10, 9), "2026-10-09");
}

#[test]
fn record_name_is_zero_padded() {
    assert_eq!(progress_file_name(1, 1, 1), "0001-01-01");
    assert_eq!(progress_file_name(999, 12, 31), "0999-12-31");
}

#[test]
fn record_name_owed_exactly_for_four_digit_years() {
    assert_eq!(record_name_for(2026, 10, 9).as_deref(), Some("2026-10-09"));
    assert_eq!(record_name_for(0, 1, 31).as_deref(), Some("0000-01-31"));
    assert_eq!(record_name_for(-1, 1, 1), None);
    assert_eq!(record_name_for(10000, 1, 1), None);
}

#[test]
fn todays_record_name_has_the_dashed_shape() {
    let name = todays_record_name().expect("the clock reports a four-digit year");
    let bytes = name.as_bytes();
    assert_eq!(bytes.len(), 10);
    assert_eq!(bytes[4], b'-');
    assert_eq!(bytes[7], b'-');
    for i in [0, 1, 2, 3, 5, 6, 8, 9] {
        assert!(bytes[i].is_ascii_digit());
    }
}
