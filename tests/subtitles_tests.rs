use srt::{prepare, SrtError, SubLine, Subtitles, Timestamp};

fn time_text(ms: u64) -> String {
    format!(
        "{:02}:{:02}:{:02},{:03}",
        ms / 3_600_000,
        (ms / 60_000) % 60,
        (ms / 1000) % 60,
        ms % 1000
    )
}

/// A 619-cue file, built in memory: cue `i` is shown from `6 * i` to
/// `6 * i + 2` seconds, and the last one from 01:06:40,216 to 01:06:50,792.
fn example_text() -> String {
    let mut text = String::new();
    for i in 1..619u64 {
        let start = i * 6000;
        text += &format!("{}\n{} --> {}\nLine {}\nof cue {}\n\n", i, time_text(start), time_text(start + 2000), i, i);
    }
    text += "619\n01:06:40,216 --> 01:06:50,792\nLast\n";
    text
}

fn example() -> Subtitles {
    Subtitles::parse(&example_text()).unwrap()
}

fn ms(total: u64) -> Timestamp {
    Timestamp::from_milliseconds(total)
}

fn cue(index: u32, start: u64, end: u64, text: &str) -> SubLine {
    SubLine::new(index, text.to_owned(), ms(start), ms(end))
}

fn subs_of(ranges: &[(u64, u64)]) -> Subtitles {
    let mut lines = Vec::new();
    for (i, (s, e)) in ranges.iter().enumerate() {
        lines.push(cue(i as u32 + 1, *s, *e, &format!("cue {}", i + 1)));
    }
    Subtitles::from_sequence(lines).unwrap()
}

#[test]
fn from_file() {
    let subs = example();

    assert_eq!(subs.len(), 619);
    let latest_sub = SubLine {
        text: "Last".to_owned(),
        index: 619,
        start: Timestamp {
            hours: 1,
            minutes: 6,
            seconds: 40,
            miliseconds: 216,
        },
        end: Timestamp {
            hours: 1,
            minutes: 6,
            seconds: 50,
            miliseconds: 792,
        },
    };
    assert_eq!(&latest_sub, subs.by_index(619).unwrap());
}

#[test]
fn iterator() {
    let mut subs = example();
    let primal_subs = subs.clone();

    for line in subs.as_slice() {
        let _: &SubLine = line;
    }
    let _: &SubLine = subs.by_index(1).unwrap();

    for line in subs.as_mut_slice() {
        let _: &mut SubLine = line;
        line.text += " lol";
        let offset = Timestamp::new(1, 1, 30, 500);
        line.end.add_assign(offset);
        line.start.add_assign(offset);
    }
    assert!(subs.by_index(3).unwrap().text.ends_with(" lol"));
    assert!(subs.by_index(10).unwrap().text.ends_with(" lol"));

    let mut new_subs_vec = Vec::with_capacity(subs.len());

    for mut line in subs.into_vec() {
        line.text = line.text.trim_end_matches(" lol").to_owned();
        let offset = Timestamp::new(1, 1, 30, 500);
        line.end.sub_assign(offset).unwrap();
        line.start.sub_assign(offset).unwrap();
        new_subs_vec.push(line);
    }
    let new_subs = Subtitles::from_sequence(new_subs_vec).unwrap();

    assert_eq!(new_subs, primal_subs);
}

#[test]
fn insert() {
    let mut subs = example();

    let sub14 = subs.by_index(14).unwrap().clone();
    let mut sub15 = subs.by_index(15).unwrap().clone();

    let one_ms = Timestamp::new(0, 0, 0, 1);
    let start = sub14.end + one_ms;
    let end = sub15.start - one_ms;

    let line = SubLine::new(15, "foo bar foo".to_owned(), start, end);
    subs.insert(line.clone()).unwrap();

    let newline = subs.by_index(15).unwrap();
    assert_eq!(newline, &line);

    sub15.index += 1;
    let new_sub16 = subs.by_index(16).unwrap();
    assert_eq!(new_sub16, &sub15);
}

#[test]
fn insert_renumbers_every_later_cue() {
    let mut subs = subs_of(&[(0, 10), (20, 30), (40, 50), (60, 70)]);
    let before = subs.clone();
    subs.insert(cue(2, 12, 15, "new")).unwrap();
    assert_eq!(subs.len(), 5);
    assert_eq!(subs.by_index(1).unwrap(), before.by_index(1).unwrap());
    assert_eq!(subs.by_index(2).unwrap().text, "new");
    for k in 2..=4 {
        let mut moved = before.by_index(k).unwrap().clone();
        moved.index += 1;
        assert_eq!(subs.by_index(k + 1).unwrap(), &moved);
    }
    subs.insert(cue(6, 80, 90, "end")).unwrap();
    assert_eq!(subs.by_index(6).unwrap().text, "end");
    subs.insert(cue(1, 0, 0, "front")).unwrap();
    assert_eq!(subs.by_index(1).unwrap().text, "front");
    assert_eq!(subs.by_index(7).unwrap().index, 7);
}

#[test]
fn insert_refuses_what_does_not_fit() {
    let mut subs = subs_of(&[(0, 10), (20, 30)]);
    let before = subs.clone();
    assert_eq!(subs.insert(cue(0, 12, 15, "x")), Err(SrtError::IndexContiguityFault));
    assert_eq!(subs.insert(cue(4, 40, 45, "x")), Err(SrtError::IndexContiguityFault));
    assert_eq!(subs.insert(cue(2, 25, 26, "x")), Err(SrtError::IndexContiguityFault));
    assert_eq!(subs, before);
}

#[test]
fn push_and_pop() {
    let mut subs = Subtitles::new();
    assert_eq!(subs.pop(), None);
    assert_eq!(subs.push(cue(2, 0, 10, "a")), Err(SrtError::IndexContiguityFault));
    assert_eq!(subs.push(cue(1, 0, 10, "a")), Ok(()));
    assert_eq!(subs.push(cue(2, 5, 20, "b")), Ok(()));
    assert_eq!(subs.push(cue(3, 4, 20, "c")), Err(SrtError::IndexContiguityFault));
    assert_eq!(subs.len(), 2);
    assert_eq!(subs.pop(), Some(cue(2, 5, 20, "b")));
    assert_eq!(subs.len(), 1);
}

#[test]
fn by_index_out_of_range() {
    let subs = subs_of(&[(0, 10)]);
    assert!(subs.by_index(0).is_none());
    assert!(subs.by_index(2).is_none());
    assert_eq!(subs.by_index(1).unwrap().index, 1);
}

#[test]
fn by_time_at_the_end_of_a_cue() {
    let subs = subs_of(&[(1000, 2000), (3000, 4000), (5000, 6000)]);
    assert_eq!(subs.by_time(ms(4000)).unwrap().index, 2);
    assert_eq!(subs.by_time(ms(3999)).unwrap().index, 2);
    assert!(subs.by_time(ms(4001)).is_none());
}

#[test]
fn queries_over_every_millisecond() {
    let ranges = [(100, 200), (300, 400), (401, 500), (700, 900)];
    let mut subs = subs_of(&ranges);
    for t in 0..1000u64 {
        let holding: Vec<usize> = (0..ranges.len())
            .filter(|&i| ranges[i].0 <= t && t <= ranges[i].1)
            .collect();
        let found = subs.by_time(ms(t)).map(|l| l.index as usize - 1);
        assert_eq!(found, holding.first().cloned(), "{}", t);
        let found_mut = subs.by_time_mut(ms(t)).map(|l| l.index as usize - 1);
        assert_eq!(found_mut, found);

        let nearest = subs.nearest_by_time(ms(t)).map(|l| l.index as usize - 1);
        let expected = if t < 100 || t > 900 {
            None
        } else {
            (0..ranges.len()).rev().find(|&i| ranges[i].0 <= t)
        };
        assert_eq!(nearest, expected, "{}", t);
        let nearest_mut = subs.nearest_by_time_mut(ms(t)).map(|l| l.index as usize - 1);
        assert_eq!(nearest_mut, nearest);
    }
}

#[test]
fn touching_cues_resolve_differently() {
    let subs = subs_of(&[(0, 10), (10, 20)]);
    assert_eq!(subs.by_time(ms(10)).unwrap().index, 1);
    assert_eq!(subs.nearest_by_time(ms(10)).unwrap().index, 2);
    let three = subs_of(&[(0, 5), (5, 10), (10, 20)]);
    assert_eq!(three.by_time(ms(5)).unwrap().index, 1);
    assert_eq!(three.by_time(ms(10)).unwrap().index, 2);
    assert_eq!(three.nearest_by_time(ms(5)).unwrap().index, 2);
    assert_eq!(three.nearest_by_time(ms(10)).unwrap().index, 3);
}

#[test]
fn queries_on_empty_and_single() {
    let empty = Subtitles::new();
    assert!(empty.by_time(ms(0)).is_none());
    assert!(empty.nearest_by_time(ms(0)).is_none());
    let one = subs_of(&[(10, 20)]);
    assert!(one.by_time(ms(9)).is_none());
    assert_eq!(one.by_time(ms(15)).unwrap().index, 1);
    assert!(one.nearest_by_time(ms(21)).is_none());
    assert_eq!(one.nearest_by_time(ms(20)).unwrap().index, 1);
}

#[test]
fn mut_queries_edit_in_place() {
    let mut subs = subs_of(&[(0, 10), (20, 30)]);
    subs.by_time_mut(ms(25)).unwrap().text = "changed".to_owned();
    assert_eq!(subs.by_index(2).unwrap().text, "changed");
    subs.nearest_by_time_mut(ms(15)).unwrap().text = "gap".to_owned();
    assert_eq!(subs.by_index(1).unwrap().text, "gap");
    assert!(subs.by_index_mut(3).is_none());
}

#[test]
fn shift_all_cues() {
    let mut subs = subs_of(&[(1000, 2000), (3000, 4000)]);
    let before = subs.clone();
    assert_eq!(subs.shift(-1001), Err(SrtError::NegativeDuration));
    assert_eq!(subs, before);
    assert_eq!(subs.shift(-1000), Ok(()));
    assert_eq!(subs.by_index(1).unwrap().start, ms(0));
    assert_eq!(subs.by_index(2).unwrap().end, ms(3000));
    assert_eq!(subs.shift(500), Ok(()));
    assert_eq!(subs.by_index(2).unwrap().start, ms(2500));
}

#[test]
fn from_sequence_checks_the_sequence() {
    assert_eq!(
        Subtitles::from_sequence(vec![cue(1, 0, 10, "a"), cue(3, 20, 30, "b")]),
        Err(SrtError::IndexContiguityFault)
    );
    assert_eq!(
        Subtitles::from_sequence(vec![cue(1, 20, 30, "a"), cue(2, 0, 10, "b")]),
        Err(SrtError::IndexContiguityFault)
    );
    let backwards = SubLine { index: 1, start: ms(10), end: ms(5), text: "a".to_owned() };
    assert_eq!(Subtitles::from_sequence(vec![backwards]), Err(SrtError::IndexContiguityFault));
    let unnormalized = SubLine {
        index: 1,
        start: Timestamp { hours: 0, minutes: 75, seconds: 0, miliseconds: 0 },
        end: Timestamp { hours: 2, minutes: 0, seconds: 0, miliseconds: 0 },
        text: "a".to_owned(),
    };
    assert_eq!(Subtitles::from_sequence(vec![unnormalized]), Err(SrtError::IndexContiguityFault));
}

#[test]
fn parse_mixed_line_endings() {
    let text = "1\n00:00:01,000 --> 00:00:02,000\nOne\n\n2\r\n00:00:03,000 --> 00:00:04,000\r\nTwo\r\nlines\r\n\r\n3\n00:00:05,000 --> 00:00:06,000\r\nThree\n\n4\r\n00:00:07,000 --> 00:00:08,000\nFour\r\n\n5\n00:00:09,000 --> 00:00:10,500\nFive \t \n  ";
    let subs = Subtitles::parse(text).unwrap();
    assert_eq!(subs.len(), 5);
    for k in 1..=5 {
        assert_eq!(subs.by_index(k).unwrap().index as usize, k);
    }
    assert_eq!(subs.by_index(2).unwrap().text, "Two\r\nlines");
    assert_eq!(subs.by_index(5).unwrap().text, "Five");
    assert_eq!(subs.by_index(5).unwrap().end, Timestamp::new(0, 0, 10, 500));
    let out = subs.to_string();
    assert!(!out.replace("\r\n", "").contains('\n'));
    assert!(!out.replace("\r\n", "").contains('\r'));
    assert!(out.ends_with("Five\r\n\r\n\r\n\r\n"));
    assert!(!out.ends_with("\r\n\r\n\r\n\r\n\r\n"));
}

#[test]
fn parse_garbage() {
    assert_eq!(Subtitles::parse("this is not a subtitle file\n\n"), Err(SrtError::NotSrtFormat));
    assert_eq!(Subtitles::parse(""), Err(SrtError::NotSrtFormat));
}

#[test]
fn parse_refuses_inconsistent_files() {
    let gap = "1\n00:00:01,000 --> 00:00:02,000\na\n\n3\n00:00:03,000 --> 00:00:04,000\nb\n";
    assert_eq!(Subtitles::parse(gap), Err(SrtError::IndexContiguityFault));
    let backwards = "1\n00:00:05,000 --> 00:00:06,000\na\n\n2\n00:00:03,000 --> 00:00:04,000\nb\n";
    assert_eq!(Subtitles::parse(backwards), Err(SrtError::IndexContiguityFault));
    let huge = "99999999999\n00:00:01,000 --> 00:00:02,000\na\n";
    assert_eq!(Subtitles::parse(huge), Err(SrtError::IndexContiguityFault));
}

#[test]
fn parse_skips_text_between_blocks_and_carries_times() {
    let text = "header\n1\n00:99:00,000 --> 01:39:00,001\na\n\nnoise\n\n2\n01:40:00,000 --> 01:41:00,000\nb\n";
    let subs = Subtitles::parse(text).unwrap();
    assert_eq!(subs.len(), 2);
    assert_eq!(subs.by_index(1).unwrap().start, Timestamp::new(1, 39, 0, 0));
}

#[test]
fn render_after_parse_gives_the_canonical_text_and_one_more_blank_line() {
    let text = "1\n00:00:01,000 --> 00:00:02,000\nOne\n\n2\n00:00:03,000 --> 00:00:04,000\nTwo\nlines\n";
    let subs = Subtitles::parse(text).unwrap();
    assert_eq!(subs.to_string(), prepare(text) + "\r\n\r\n");
    let again = Subtitles::parse(&subs.to_string()).unwrap();
    assert_eq!(again, subs);
}
