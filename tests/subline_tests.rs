use srt::{SrtError, SubLine, Timestamp};

#[test]
fn display() {
    let subline = SubLine {
        text: "Some text lalala".to_owned(),
        index: 1,
        start: Timestamp::new(0, 55, 9, 8),
        end: Timestamp::new(1, 1, 1, 1),
    };

    let in_text = "1\r\n00:55:09,008 --> 01:01:01,001\r\nSome text lalala\r\n\r\n".to_owned();

    assert_eq!(subline.to_string(), in_text);
}

#[test]
fn long_hours_are_written_in_full() {
    let line = SubLine::new(
        42,
        "x".to_owned(),
        Timestamp::new(123, 4, 5, 6),
        Timestamp::new(123, 4, 5, 7),
    );
    assert_eq!(line.to_string(), "42\r\n123:04:05,006 --> 123:04:05,007\r\nx\r\n\r\n");
}

#[test]
fn duration_is_end_minus_start() {
    let line = SubLine::new(
        1,
        "a".to_owned(),
        Timestamp::new(0, 0, 59, 900),
        Timestamp::new(0, 1, 1, 0),
    );
    assert_eq!(line.duration(), Timestamp::new(0, 0, 1, 100));
}

#[test]
fn shift_moves_both_times() {
    let mut line = SubLine::new(
        3,
        "a".to_owned(),
        Timestamp::new(0, 0, 10, 0),
        Timestamp::new(0, 0, 12, 0),
    );
    assert_eq!(line.shift(1500), Ok(()));
    assert_eq!(line.start, Timestamp::new(0, 0, 11, 500));
    assert_eq!(line.end, Timestamp::new(0, 0, 13, 500));
    assert_eq!(line.shift(-11_500), Ok(()));
    assert_eq!(line.start, Timestamp::new(0, 0, 0, 0));
    assert_eq!(line.end, Timestamp::new(0, 0, 2, 0));
}

#[test]
fn negative_shift_past_start_is_refused() {
    let mut line = SubLine::new(
        3,
        "a".to_owned(),
        Timestamp::new(0, 0, 10, 0),
        Timestamp::new(0, 0, 12, 0),
    );
    let before = line.clone();
    assert_eq!(line.shift(-10_001), Err(SrtError::NegativeDuration));
    assert_eq!(line, before);
}
